//! The dictionary as a whole: its metadata, its headwords and its articles.

use crate::error::Error;
use crate::error::ErrorView;
use crate::key_index::key_block;
use crate::key_index::key_block_at;
use crate::key_index::lemma_key_block_counts;
use crate::key_index::total_entries;
use crate::key_index::KeyEntry;
use crate::key_index::KeyEntryView;
use crate::key_index::KeyIndex;
use crate::key_index::KeyIndexView;
use crate::keys::contains;
use crate::keys::find;
use crate::keys::normalize;
use crate::keys::normalized;
use crate::keys::same_chars;
use crate::meta::dict_meta;
use crate::meta::dict_meta_at;
use crate::meta::DictMeta;
use crate::meta::DictMetaView;
use crate::record_index::lemma_record_block_counts;
use crate::record_index::lemma_record_block_end;
use crate::record_index::record_block;
use crate::record_index::record_block_at;
use crate::record_index::total_decompressed;
use crate::record_index::RecordIndex;
use crate::record_index::RecordIndexView;
use crate::text::chars_of;
use vstd::prelude::*;
use vstd::slice::slice_subrange;
use vstd::slice::slice_to_vec;

verus! {

/// The ceiling on declared decompressed sizes where none is given: 64 MiB.
pub const DEFAULT_CEILING: usize = 0x400_0000;

/// A dictionary.
#[derive(Debug, PartialEq, Eq)]
pub struct Mdx {
    /// What the header says of the dictionary.
    pub dict_meta: DictMeta,
    /// The headwords and the directory they were read from.
    pub key_index: KeyIndex,
    /// The record space and the directory it was read from.
    pub record_index: RecordIndex,
}

/// The mathematical value of an [`Mdx`].
pub struct MdxView {
    pub dict_meta: DictMetaView,
    pub key_index: KeyIndexView,
    pub record_index: RecordIndexView,
}

impl View for Mdx {
    type V = MdxView;

    open spec fn view(&self) -> MdxView {
        MdxView {
            dict_meta: self.dict_meta@,
            key_index: self.key_index@,
            record_index: self.record_index@,
        }
    }
}

/// The smaller of two numbers.
pub open spec fn least(a: int, b: int) -> int {
    if a <= b {
        a
    } else {
        b
    }
}

/// An article without its terminator: without a last zero byte in UTF-8,
/// without two last zero bytes in UTF-16.
pub open spec fn stripped(article: Seq<u8>, utf16: bool) -> Seq<u8> {
    let n = article.len() as int;
    if utf16 {
        if n >= 2 && article[n - 1] == 0 && article[n - 2] == 0 {
            article.take(n - 2)
        } else {
            article
        }
    } else {
        if n >= 1 && article[n - 1] == 0 {
            article.take(n - 1)
        } else {
            article
        }
    }
}

impl MdxView {
    /// The headwords in the order of the file.
    pub open spec fn entries(self) -> Seq<KeyEntryView> {
        self.key_index.entries
    }

    /// The record space.
    pub open spec fn space(self) -> Seq<u8> {
        self.record_index.space
    }

    /// Where the article of entry `i` starts in the record space: at the
    /// offset of the entry, or at the end of the space if the offset lies
    /// beyond it.
    pub open spec fn article_start(self, i: int) -> int {
        least(self.entries()[i].record_offset as int, self.space().len() as int)
    }

    /// Where the article of entry `i` ends in the record space: at the
    /// offset of the next entry, or at the end of the space for the last
    /// entry; never beyond the space nor before the start of the article.
    pub open spec fn article_end(self, i: int) -> int {
        let next = if i + 1 < self.entries().len() {
            least(self.entries()[i + 1].record_offset as int, self.space().len() as int)
        } else {
            self.space().len() as int
        };
        if next < self.article_start(i) {
            self.article_start(i)
        } else {
            next
        }
    }

    /// The article of entry `i`: its range of the record space, without
    /// its terminator.
    pub open spec fn article(self, i: int) -> Seq<u8> {
        stripped(
            self.space().subrange(self.article_start(i), self.article_end(i)),
            self.dict_meta.is_utf16(),
        )
    }

    /// Whether a headword answers a query: whether the two are equal, or
    /// whether the query stands in the headword, once both are brought
    /// into the form in which the dictionary compares headwords.
    pub open spec fn answers(self, headword: Seq<char>, query: Seq<char>, exact: bool) -> bool {
        let strip = self.dict_meta.strips_keys();
        let fold = self.dict_meta.folds_case();
        if exact {
            normalized(headword, strip, fold) == normalized(query, strip, fold)
        } else {
            contains(normalized(headword, strip, fold), normalized(query, strip, fold))
        }
    }

    /// The headwords among the first `upto` that answer a query, each with
    /// its article, in the order of the file.
    pub open spec fn hits(self, query: Seq<char>, exact: bool, upto: int) -> Seq<
        (Seq<char>, Seq<u8>),
    >
        decreases upto,
    {
        if upto <= 0 {
            Seq::empty()
        } else {
            let front = self.hits(query, exact, upto - 1);
            let headword = self.entries()[upto - 1].headword;
            if self.answers(headword, query, exact) {
                front.push((headword, self.article(upto - 1)))
            } else {
                front
            }
        }
    }

    /// The entries whose headword is the query, each with its article.
    pub open spec fn lookup(self, query: Seq<char>) -> Seq<(Seq<char>, Seq<u8>)> {
        self.hits(query, true, self.entries().len() as int)
    }

    /// The entries whose headword holds the query, each with its article.
    pub open spec fn search(self, query: Seq<char>) -> Seq<(Seq<char>, Seq<u8>)> {
        self.hits(query, false, self.entries().len() as int)
    }

    /// The index of the first entry that equals `entry`.
    pub open spec fn position(self, entry: KeyEntryView, from: int) -> Option<int>
        decreases self.entries().len() - from,
    {
        if from < 0 || from >= self.entries().len() {
            None
        } else if self.entries()[from] == entry {
            Some(from)
        } else {
            self.position(entry, from + 1)
        }
    }

    /// The article of the first entry that equals `entry`; empty where
    /// there is none.
    pub open spec fn article_of(self, entry: KeyEntryView) -> Seq<u8> {
        match self.position(entry, 0) {
            Some(i) => self.article(i),
            None => Seq::empty(),
        }
    }
}

/// The dictionary that a file holds and the position after it: the
/// metadata, the key index and the record index, each from where the one
/// before it ends. The metadata decides the format version and the
/// encoding of the text.
pub open spec fn mdx_at(s: Seq<u8>, limit: usize) -> Result<(MdxView, int), ErrorView> {
    match dict_meta_at(s) {
        Err(e) => Err(e),
        Ok((meta, keys_at)) => match key_block_at(s, keys_at, meta.is_ver2(), meta.is_utf16(), limit) {
            Err(e) => Err(e),
            Ok((keys, records_at)) => match record_block_at(s, records_at, meta.is_ver2(), limit) {
                Err(e) => Err(e),
                Ok((records, end)) => Ok(
                    (MdxView { dict_meta: meta, key_index: keys, record_index: records }, end),
                ),
            },
        },
    }
}

/// Whether `r` is the outcome of decoding `input` under the ceiling
/// `limit`: the dictionary that the bytes hold with the position after it,
/// or the error that the format prescribes.
pub open spec fn decodes_to(input: Seq<u8>, limit: usize, r: Result<(Mdx, usize), Error>) -> bool {
    match r {
        Ok((mdx, next)) => mdx_at(input, limit) == Ok::<(MdxView, int), ErrorView>(
            (mdx@, next as int),
        ),
        Err(e) => mdx_at(input, limit) == Err::<(MdxView, int), ErrorView>(e@),
    }
}

/// Decodes a dictionary and returns it with the position after it. No
/// declared decompressed size may be above `limit`.
pub fn parse_with_limit(input: &[u8], limit: usize) -> (r: Result<(Mdx, usize), Error>)
    ensures
        decodes_to(input@, limit, r),
        r matches Ok((mdx, next)) ==> next <= input@.len(),
{
    let (meta, keys_at) = dict_meta(input)?;
    let v2 = meta.is_ver2();
    let utf16 = meta.is_utf16();
    let (keys, records_at) = key_block(input, keys_at, v2, utf16, limit)?;
    let (records, end) = record_block(input, records_at, v2, limit)?;
    proof {
        lemma_record_block_end(input@, records_at as int, v2, limit);
    }
    Ok((Mdx { dict_meta: meta, key_index: keys, record_index: records }, end))
}

/// Decodes a dictionary and returns what of the input follows it, and the
/// dictionary. No declared decompressed size may be above
/// [`DEFAULT_CEILING`].
pub fn parse(input: &[u8]) -> (r: Result<(&[u8], Mdx), Error>)
    ensures
        match r {
            Ok((rest, mdx)) => mdx_at(input@, DEFAULT_CEILING) matches Ok((m, next)) && m == mdx@
                && rest@ == input@.subrange(next, input@.len() as int),
            Err(e) => mdx_at(input@, DEFAULT_CEILING) == Err::<(MdxView, int), ErrorView>(e@),
        },
{
    let (mdx, next) = parse_with_limit(input, DEFAULT_CEILING)?;
    Ok((slice_subrange(input, next, input.len()), mdx))
}

impl Mdx {
    /// Decodes a dictionary from the bytes of a file.
    pub fn parse(input: &[u8]) -> (r: Result<Mdx, Error>)
        ensures
            match r {
                Ok(mdx) => mdx_at(input@, DEFAULT_CEILING) matches Ok((m, next)) && m == mdx@,
                Err(e) => mdx_at(input@, DEFAULT_CEILING) == Err::<(MdxView, int), ErrorView>(e@),
            },
    {
        let (mdx, _next) = parse_with_limit(input, DEFAULT_CEILING)?;
        Ok(mdx)
    }

    /// What the header says of the dictionary.
    pub fn metadata(&self) -> (meta: &DictMeta)
        ensures
            meta == self.dict_meta,
    {
        &self.dict_meta
    }

    /// The headwords with their offsets, in the order of the file.
    pub fn entries(&self) -> (entries: &Vec<KeyEntry>)
        ensures
            entries == self.key_index.entries,
    {
        &self.key_index.entries
    }

    /// The headwords in the order of the file.
    pub fn headwords(&self) -> (words: Vec<String>)
        ensures
            words@.len() == self@.entries().len(),
            forall|i: int| 0 <= i < words@.len() ==> words@[i]@ == self@.entries()[i].headword,
    {
        let mut words: Vec<String> = Vec::new();
        let mut i: usize = 0;
        while i < self.key_index.entries.len()
            invariant
                i <= self.key_index.entries@.len(),
                words@.len() == i,
                forall|k: int| 0 <= k < i ==> words@[k]@ == self@.entries()[k].headword,
            decreases self.key_index.entries@.len() - i,
        {
            words.push(self.key_index.entries[i].headword.clone());
            i += 1;
        }
        words
    }

    /// The article of the entry at `index`, or `None` where there is no
    /// such entry.
    pub fn article_at(&self, index: usize) -> (r: Option<Vec<u8>>)
        ensures
            match r {
                Some(article) => index < self@.entries().len() && article@ == self@.article(
                    index as int,
                ),
                None => index >= self@.entries().len(),
            },
    {
        let entries = &self.key_index.entries;
        let space = &self.record_index.space;
        if index >= entries.len() {
            return None;
        }
        let total: usize = space.len();
        let offset: u64 = entries[index].record_offset;
        let start: usize = if offset < total as u64 {
            offset as usize
        } else {
            total
        };
        let next: usize = if index + 1 < entries.len() {
            let after: u64 = entries[index + 1].record_offset;
            if after < total as u64 {
                after as usize
            } else {
                total
            }
        } else {
            total
        };
        let end: usize = if next < start {
            start
        } else {
            next
        };
        let mut stop: usize = end;
        if self.dict_meta.is_utf16() {
            if end - start >= 2 && space[end - 1] == 0 && space[end - 2] == 0 {
                stop = end - 2;
            }
        } else {
            if end - start >= 1 && space[end - 1] == 0 {
                stop = end - 1;
            }
        }
        let article = slice_to_vec(slice_subrange(space.as_slice(), start, stop));
        proof {
            let whole = self@.space().subrange(start as int, end as int);
            assert(self@.entries()[index as int] == entries@[index as int]@);
            if index + 1 < entries@.len() {
                assert(self@.entries()[index + 1] == entries@[index + 1]@);
            }
            assert(article@ =~= stripped(whole, self@.dict_meta.is_utf16()));
        }
        Some(article)
    }

    /// The article of the first entry that equals `entry`; empty where
    /// there is none.
    pub fn article(&self, entry: &KeyEntry) -> (article: Vec<u8>)
        ensures
            article@ == self@.article_of(entry@),
    {
        let entries = &self.key_index.entries;
        let mut i: usize = 0;
        while i < entries.len()
            invariant
                i <= entries@.len(),
                entries == &self.key_index.entries,
                self@.position(entry@, 0) == self@.position(entry@, i as int),
            decreases entries@.len() - i,
        {
            assert(self@.entries()[i as int] == entries@[i as int]@);
            if entries[i].record_offset == entry.record_offset && entries[i].headword
                == entry.headword {
                match self.article_at(i) {
                    Some(article) => { return article; },
                    None => { return Vec::new(); },
                }
            }
            i += 1;
        }
        Vec::new()
    }

    /// The entries that answer a query, each with its article, in the
    /// order of the file.
    fn select(&self, query: &str, exact: bool) -> (found: Vec<(String, Vec<u8>)>)
        ensures
            found.deep_view() == self@.hits(query@, exact, self@.entries().len() as int),
    {
        let strip = self.dict_meta.strips_keys();
        let fold = self.dict_meta.folds_case();
        let wanted = normalize(&chars_of(query), strip, fold);
        let entries = &self.key_index.entries;
        let mut found: Vec<(String, Vec<u8>)> = Vec::new();
        let mut i: usize = 0;
        assert(found.deep_view() =~= Seq::empty());
        while i < entries.len()
            invariant
                i <= entries@.len(),
                entries == &self.key_index.entries,
                strip == self@.dict_meta.strips_keys(),
                fold == self@.dict_meta.folds_case(),
                wanted@ == normalized(query@, strip, fold),
                found.deep_view() == self@.hits(query@, exact, i as int),
            decreases entries@.len() - i,
        {
            let ghost before = found.deep_view();
            assert(self@.entries()[i as int] == entries@[i as int]@);
            let word = normalize(&chars_of(entries[i].headword.as_str()), strip, fold);
            let hit = if exact {
                same_chars(&word, &wanted)
            } else {
                find(&word, &wanted)
            };
            if hit {
                match self.article_at(i) {
                    Some(article) => {
                        let ghost pair = (entries@[i as int].headword@, article@);
                        assert(article.deep_view() =~= article@);
                        found.push((entries[i].headword.clone(), article));
                        assert(found.deep_view() =~= before.push(pair));
                    },
                    None => {},
                }
            }
            i += 1;
        }
        found
    }

    /// The entries whose headword is the query, each with its article, in
    /// the order of the file. Whitespace and case count as the metadata
    /// says.
    pub fn lookup(&self, headword: &str) -> (found: Vec<(String, Vec<u8>)>)
        ensures
            found.deep_view() == self@.lookup(headword@),
    {
        self.select(headword, true)
    }

    /// The entries whose headword holds `text`, each with its article, in
    /// the order of the file. Whitespace and case count as the metadata
    /// says.
    pub fn search(&self, text: String) -> (found: Vec<(String, Vec<u8>)>)
        ensures
            found.deep_view() == self@.search(text@),
    {
        self.select(text.as_str(), false)
    }
}

/// Decoding is a function of the bytes: two outcomes of decoding the same
/// input under the same ceiling are the same dictionary and position, or
/// the same error.
pub proof fn lemma_decoding_is_deterministic(
    input: Seq<u8>,
    limit: usize,
    first: Result<(Mdx, usize), Error>,
    second: Result<(Mdx, usize), Error>,
)
    requires
        decodes_to(input, limit, first),
        decodes_to(input, limit, second),
    ensures
        match (first, second) {
            (Ok((a, i)), Ok((b, j))) => a@ == b@ && i == j,
            (Err(e), Err(f)) => e@ == f@,
            _ => false,
        },
{
}

/// Every decoded dictionary has as many headwords as its key directory
/// declares in all, a key directory of as many entries as the key header
/// declares blocks, a record directory of as many entries as the record
/// header declares blocks, and a record space as long as the record
/// directory declares in all.
pub proof fn lemma_decoded_counts(input: Seq<u8>, limit: usize)
    ensures
        mdx_at(input, limit) matches Ok((mdx, end)) ==> {
            &&& mdx.entries().len() == total_entries(mdx.key_index.infos)
            &&& mdx.key_index.infos.len() == mdx.key_index.header.n_blocks
            &&& mdx.record_index.infos.len() == mdx.record_index.header.n_blocks
            &&& mdx.space().len() == total_decompressed(mdx.record_index.infos)
        },
{
    match dict_meta_at(input) {
        Ok((meta, keys_at)) => {
            lemma_key_block_counts(input, keys_at, meta.is_ver2(), meta.is_utf16(), limit);
            match key_block_at(input, keys_at, meta.is_ver2(), meta.is_utf16(), limit) {
                Ok((keys, records_at)) => {
                    lemma_record_block_counts(input, records_at, meta.is_ver2(), limit);
                },
                Err(e) => {},
            }
        },
        Err(e) => {},
    }
}

} // verus!

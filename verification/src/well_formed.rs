//! What holds of every well-formed dictionary.
//!
//! A dictionary is well formed when its key index and record index are
//! written as the format prescribes, its headers count what the file
//! holds, its articles lie end to end in the record space, and each
//! headword points at the start of its article. Of the dictionary that the
//! decoder reads out of such a file, this module proves that it is the one
//! that was written, that its counts agree, that its offsets rise and stay
//! inside the record space, and that its articles are the written ones.

use crate::error::ErrorView;
use crate::key_index::entries_from;
use crate::key_index::total_entries;
use crate::key_index::KeyEntryView;
use crate::layout::all_entries;
use crate::codec::decoded_block;
use crate::layout::block_data;
use crate::layout::block_sound;
use crate::layout::entries_bytes;
use crate::layout::entry_views;
use crate::layout::frames_bytes;
use crate::layout::holds;
use crate::layout::key_index_bytes;
use crate::layout::key_index_sound;
use crate::layout::key_index_view;
use crate::layout::lemma_holds_split;
use crate::layout::lemma_read_entries;
use crate::layout::lemma_read_key_index;
use crate::layout::WrittenKeyIndex;
use crate::mdx::lemma_decoded_counts;
use crate::mdx::mdx_at;
use crate::mdx::stripped;
use crate::mdx::MdxView;
use crate::meta::dict_meta_at;
use crate::record_index::total_decompressed;
use crate::record_layout::lemma_read_record_index;
use crate::record_layout::record_frames_bytes;
use crate::record_layout::record_index_bytes;
use crate::record_layout::record_index_sound;
use crate::record_layout::record_index_view;
use crate::record_layout::record_infos;
use crate::record_layout::record_infos_bytes;
use crate::record_layout::record_space;
use crate::record_layout::WrittenRecordIndex;
use vstd::prelude::*;

verus! {

/// Byte strings laid end to end.
pub open spec fn joined(parts: Seq<Seq<u8>>) -> Seq<u8>
    decreases parts.len(),
{
    if parts.len() == 0 {
        Seq::empty()
    } else {
        joined(parts.drop_last()) + parts.last()
    }
}

/// Where part `i` starts when the parts are laid end to end.
pub open spec fn start_of(parts: Seq<Seq<u8>>, i: int) -> int {
    joined(parts.take(i)).len() as int
}

/// A part starts where the part before it ends.
pub proof fn lemma_start_step(parts: Seq<Seq<u8>>, i: int)
    requires
        0 <= i < parts.len(),
    ensures
        joined(parts.take(i + 1)) == joined(parts.take(i)) + parts[i],
        start_of(parts, i + 1) == start_of(parts, i) + parts[i].len(),
{
    assert(parts.take(i + 1).drop_last() =~= parts.take(i));
    assert(parts.take(i + 1).last() == parts[i]);
}

/// Later parts start no earlier.
pub proof fn lemma_starts_ordered(parts: Seq<Seq<u8>>, i: int, j: int)
    requires
        0 <= i <= j <= parts.len(),
    ensures
        start_of(parts, i) <= start_of(parts, j),
    decreases j - i,
{
    if i < j {
        lemma_starts_ordered(parts, i, j - 1);
        lemma_start_step(parts, j - 1);
    }
}

/// The first `i` parts, laid end to end, open the whole.
pub proof fn lemma_joined_prefix(parts: Seq<Seq<u8>>, i: int, k: int)
    requires
        0 <= i <= k <= parts.len(),
    ensures
        start_of(parts, i) <= start_of(parts, k),
        joined(parts.take(k)).subrange(0, start_of(parts, i)) == joined(parts.take(i)),
    decreases k - i,
{
    if i < k {
        lemma_joined_prefix(parts, i, k - 1);
        lemma_start_step(parts, k - 1);
        let shorter = joined(parts.take(k - 1));
        assert((shorter + parts[k - 1]).subrange(0, start_of(parts, i)) =~= shorter.subrange(
            0,
            start_of(parts, i),
        ));
    } else {
        let whole = joined(parts.take(i));
        assert(whole.subrange(0, whole.len() as int) =~= whole);
    }
}

/// Part `i` lies in the whole from its start to the start of the next.
pub proof fn lemma_part_in_joined(parts: Seq<Seq<u8>>, i: int)
    requires
        0 <= i < parts.len(),
    ensures
        start_of(parts, i + 1) == start_of(parts, i) + parts[i].len(),
        start_of(parts, i + 1) <= joined(parts).len(),
        joined(parts).subrange(start_of(parts, i), start_of(parts, i + 1)) == parts[i],
{
    let n = parts.len() as int;
    assert(parts.take(n) =~= parts);
    lemma_joined_prefix(parts, i + 1, n);
    lemma_start_step(parts, i);
    let upto = joined(parts.take(i + 1));
    assert(joined(parts).subrange(start_of(parts, i), start_of(parts, i + 1)) =~= upto.subrange(
        start_of(parts, i),
        start_of(parts, i + 1),
    ));
    assert(upto.subrange(start_of(parts, i), start_of(parts, i + 1)) =~= parts[i]);
}

/// A dictionary as it is written after its metadata: a key index, a
/// record index, and the articles, one for each headword, each with its
/// terminator.
pub struct WrittenDictionary {
    pub keys: WrittenKeyIndex,
    pub records: WrittenRecordIndex,
    pub articles: Seq<Seq<u8>>,
}

/// The bytes of a dictionary after its metadata.
pub open spec fn dictionary_bytes(d: WrittenDictionary, v2: bool) -> Seq<u8> {
    key_index_bytes(d.keys, v2) + record_index_bytes(d.records, v2)
}

/// Whether the headers of a dictionary count what the dictionary holds:
/// the headwords, and the bytes of the key blocks, of the record
/// directory and of the record blocks.
pub open spec fn counted(d: WrittenDictionary, v2: bool) -> bool {
    &&& d.keys.header.n_entries == all_entries(d.keys.blocks).len()
    &&& d.records.header.n_entries == all_entries(d.keys.blocks).len()
    &&& d.keys.header.nb_blocks == frames_bytes(d.keys.blocks).len()
    &&& d.records.header.nb_info == record_infos_bytes(record_infos(d.records.blocks), v2).len()
    &&& d.records.header.nb_blocks == record_frames_bytes(d.records.blocks).len()
}

/// Whether the articles of a dictionary are laid out as the format
/// prescribes: one article for each headword, none of them empty, end to
/// end in the record space, each headword with the offset at which its
/// article starts.
pub open spec fn laid_out(d: WrittenDictionary) -> bool {
    let entries = all_entries(d.keys.blocks);
    &&& d.articles.len() == entries.len()
    &&& record_space(d.records.blocks) == joined(d.articles)
    &&& forall|i: int|
        #![trigger entries[i]]
        0 <= i < entries.len() ==> d.articles[i].len() > 0 && entries[i].offset == start_of(
            d.articles,
            i,
        )
}

/// Whether `s` is a well-formed file that holds the dictionary `d`: its
/// metadata can be read, and what follows the metadata, to the end of the
/// file, is the key index and the record index of `d`, both well formed
/// in the version and encoding that the metadata declares, with headers
/// that count what the file holds and articles laid out as prescribed.
pub open spec fn well_formed(s: Seq<u8>, d: WrittenDictionary, limit: usize) -> bool {
    dict_meta_at(s) matches Ok((meta, start)) && {
        let v2 = meta.is_ver2();
        let utf16 = meta.is_utf16();
        &&& holds(s, start, dictionary_bytes(d, v2))
        &&& start + dictionary_bytes(d, v2).len() == s.len()
        &&& key_index_sound(d.keys, v2, utf16, limit)
        &&& record_index_sound(d.records, v2, limit)
        &&& counted(d, v2)
        &&& laid_out(d)
    }
}

/// What the decoder is to make of a well-formed file.
pub open spec fn dictionary_view(s: Seq<u8>, d: WrittenDictionary) -> MdxView {
    let meta = dict_meta_at(s)->Ok_0.0;
    MdxView {
        dict_meta: meta,
        key_index: key_index_view(d.keys, meta.is_ver2(), meta.is_utf16()),
        record_index: record_index_view(d.records),
    }
}

/// Decoding a well-formed file succeeds, gives the dictionary that the
/// file holds, and uses up the file.
pub proof fn lemma_read_dictionary(s: Seq<u8>, d: WrittenDictionary, limit: usize)
    requires
        well_formed(s, d, limit),
    ensures
        mdx_at(s, limit) == Ok::<(MdxView, int), ErrorView>(
            (dictionary_view(s, d), s.len() as int),
        ),
{
    let (meta, start) = dict_meta_at(s)->Ok_0;
    let v2 = meta.is_ver2();
    let utf16 = meta.is_utf16();
    lemma_holds_split(s, start, key_index_bytes(d.keys, v2), record_index_bytes(d.records, v2));
    lemma_read_key_index(s, start, d.keys, v2, utf16, limit);
    lemma_read_record_index(s, start + key_index_bytes(d.keys, v2).len(), d.records, v2, limit);
}

/// In the dictionary decoded from a well-formed file, the number of
/// headwords, the sum of the counts in the key directory, the count in the
/// key header and the count in the record header are one number.
pub proof fn lemma_counts_agree(s: Seq<u8>, d: WrittenDictionary, limit: usize)
    requires
        well_formed(s, d, limit),
    ensures
        mdx_at(s, limit) matches Ok((mdx, _)) && {
            &&& mdx.entries().len() == total_entries(mdx.key_index.infos)
            &&& mdx.entries().len() == mdx.key_index.header.n_entries
            &&& mdx.entries().len() == mdx.record_index.header.n_entries
        },
{
    lemma_read_dictionary(s, d, limit);
    lemma_decoded_counts(s, limit);
}

/// Each key block of a well-formed dictionary, once decoded, is used up by
/// reading as many entries as its directory entry counts: the entries read
/// are the written ones, and after them the data holds nothing, or one
/// zero byte.
pub proof fn lemma_key_blocks_are_used_up(s: Seq<u8>, d: WrittenDictionary, limit: usize, k: int)
    requires
        well_formed(s, d, limit),
        0 <= k < d.keys.blocks.len(),
    ensures
        ({
            let meta = dict_meta_at(s)->Ok_0.0;
            let block = d.keys.blocks[k];
            let data = block_data(block, meta.is_ver2(), meta.is_utf16());
            &&& decoded_block(block.frame, data.len() as u64, limit) matches Ok(decoded)
            &&& decoded.data == data
            &&& entries_from(
                data,
                0,
                block.entries.len(),
                meta.is_ver2(),
                meta.is_utf16(),
            ) matches Ok((read, end))
            &&& read == entry_views(block.entries, meta.is_utf16())
            &&& end == data.len() || (end + 1 == data.len() && data[end] == 0)
        }),
{
    let meta = dict_meta_at(s)->Ok_0.0;
    let block = d.keys.blocks[k];
    let data = block_data(block, meta.is_ver2(), meta.is_utf16());
    let written = entries_bytes(block.entries, meta.is_ver2(), meta.is_utf16());
    assert(block_sound(block, meta.is_ver2(), meta.is_utf16(), limit));
    assert(data.subrange(0, written.len() as int) =~= written);
    lemma_read_entries(data, 0, block.entries, meta.is_ver2(), meta.is_utf16());
}

/// In the dictionary decoded from a well-formed file, the first and last
/// headword that the directory names for a key block that is not empty
/// are the first and last headword read out of that block.
pub proof fn lemma_bounds_are_first_and_last(
    s: Seq<u8>,
    d: WrittenDictionary,
    limit: usize,
    k: int,
)
    requires
        well_formed(s, d, limit),
        0 <= k < d.keys.blocks.len(),
        d.keys.blocks[k].entries.len() > 0,
    ensures
        ({
            let meta = dict_meta_at(s)->Ok_0.0;
            let block = d.keys.blocks[k];
            let data = block_data(block, meta.is_ver2(), meta.is_utf16());
            &&& mdx_at(s, limit) matches Ok((mdx, _))
            &&& k < mdx.key_index.infos.len()
            &&& entries_from(
                data,
                0,
                mdx.key_index.infos[k].n_entries as nat,
                meta.is_ver2(),
                meta.is_utf16(),
            ) matches Ok((read, _))
            &&& read.len() > 0
            &&& mdx.key_index.infos[k].head == read.first().headword
            &&& mdx.key_index.infos[k].tail == read.last().headword
        }),
{
    let meta = dict_meta_at(s)->Ok_0.0;
    let block = d.keys.blocks[k];
    lemma_read_dictionary(s, d, limit);
    lemma_key_blocks_are_used_up(s, d, limit, k);
    assert(block_sound(block, meta.is_ver2(), meta.is_utf16(), limit));
}

/// The entries of the decoded dictionary are the written ones.
proof fn lemma_decoded_entry(s: Seq<u8>, d: WrittenDictionary, limit: usize, i: int)
    requires
        well_formed(s, d, limit),
        0 <= i < all_entries(d.keys.blocks).len(),
    ensures
        mdx_at(s, limit) matches Ok((mdx, _)) && mdx.entries().len() == d.articles.len()
            && mdx.space() == joined(d.articles) && mdx.entries()[i].record_offset == start_of(
            d.articles,
            i,
        ) && mdx.dict_meta == dict_meta_at(s)->Ok_0.0,
{
    lemma_read_dictionary(s, d, limit);
    let entries = all_entries(d.keys.blocks);
    assert(entries[i].offset == start_of(d.articles, i));
}

/// In the dictionary decoded from a well-formed file, the offsets of the
/// headwords never fall from one headword to a later one.
pub proof fn lemma_offsets_rise(s: Seq<u8>, d: WrittenDictionary, limit: usize, i: int, j: int)
    requires
        well_formed(s, d, limit),
        0 <= i <= j < all_entries(d.keys.blocks).len(),
    ensures
        mdx_at(s, limit) matches Ok((mdx, _)) && mdx.entries()[i].record_offset
            <= mdx.entries()[j].record_offset,
{
    lemma_decoded_entry(s, d, limit, i);
    lemma_decoded_entry(s, d, limit, j);
    lemma_starts_ordered(d.articles, i, j);
}

/// In the dictionary decoded from a well-formed file, every offset is
/// below the sum of the decompressed sizes that the record directory
/// declares, and so is the end of the article that starts there.
pub proof fn lemma_offsets_in_space(s: Seq<u8>, d: WrittenDictionary, limit: usize, i: int)
    requires
        well_formed(s, d, limit),
        0 <= i < all_entries(d.keys.blocks).len(),
    ensures
        mdx_at(s, limit) matches Ok((mdx, _)) && mdx.entries()[i].record_offset
            < total_decompressed(mdx.record_index.infos) && mdx.entries()[i].record_offset
            + d.articles[i].len() <= total_decompressed(mdx.record_index.infos),
{
    lemma_decoded_entry(s, d, limit, i);
    lemma_decoded_counts(s, limit);
    lemma_part_in_joined(d.articles, i);
    let entries = all_entries(d.keys.blocks);
    assert(d.articles[i].len() > 0) by {
        assert(entries[i].offset == start_of(d.articles, i));
    }
}

/// In the dictionary decoded from a well-formed file, the article of each
/// headword is the written article without its terminator.
pub proof fn lemma_articles_are_read_back(s: Seq<u8>, d: WrittenDictionary, limit: usize, i: int)
    requires
        well_formed(s, d, limit),
        0 <= i < all_entries(d.keys.blocks).len(),
    ensures
        mdx_at(s, limit) matches Ok((mdx, _)) && mdx.article(i) == stripped(
            d.articles[i],
            mdx.dict_meta.is_utf16(),
        ),
{
    lemma_decoded_entry(s, d, limit, i);
    lemma_part_in_joined(d.articles, i);
    let n = d.articles.len() as int;
    if i + 1 < n {
        lemma_decoded_entry(s, d, limit, i + 1);
        lemma_part_in_joined(d.articles, i + 1);
    } else {
        assert(d.articles.take(n) =~= d.articles);
    }
}

} // verus!

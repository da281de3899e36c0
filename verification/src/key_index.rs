//! The key index: a header, a directory of key blocks, and the key blocks
//! themselves, which pair each headword with the offset of its article.

use crate::bytes::after;
use crate::bytes::be16;
use crate::bytes::be32;
use crate::bytes::be64;
use crate::bytes::has_bytes;
use crate::bytes::in_bounds;
use crate::bytes::le32;
use crate::bytes::lemma_len_fits;
use crate::bytes::number_at;
use crate::bytes::number_width;
use crate::bytes::read_exact;
use crate::bytes::read_number;
use crate::bytes::read_u16_be;
use crate::bytes::read_u32_le;
use crate::bytes::read_u8;
use crate::bytes::Parsed;
use crate::codec::block_at;
use crate::codec::content_block;
use crate::codec::payload_data;
use crate::codec::unpack_payload;
use crate::codec::ContentBlockType;
use crate::error::Error;
use crate::error::ErrorView;
use crate::obfuscate::deobfuscate;
use crate::obfuscate::deobfuscated;
use crate::obfuscate::derive_key;
use crate::obfuscate::key_of;
use crate::text::cstr_at;
use crate::text::decode_run;
use crate::text::decode_text;
use crate::text::read_cstr;
use crate::text::terminator_at;
use crate::text::unit_size;
use vstd::prelude::*;
use vstd::slice::slice_subrange;
use vstd::slice::slice_to_vec;

verus! {

/// The sentinel that opens the key block directory of a version 2
/// dictionary.
pub const INFO_MAGIC: u32 = 2;

/// The header of the key index. The decompressed size of the directory and
/// the checksum are there in version 2 only.
#[derive(Clone, Copy, Debug, PartialEq, Eq)]
pub struct KeyBlockHeader {
    /// The number of key blocks.
    pub n_blocks: u64,
    /// The number of headwords in all key blocks.
    pub n_entries: u64,
    /// The size of the directory once inflated.
    pub nb_decompressed: Option<u64>,
    /// The size of the directory as the file holds it.
    pub nb_block_info: u64,
    /// The size of all key blocks as the file holds them.
    pub nb_blocks: u64,
    /// A checksum that is not looked at.
    pub checksum: Option<u32>,
}

/// What the directory says of one key block.
#[derive(Debug, PartialEq, Eq)]
pub struct KeyBlockInfo {
    /// The number of headwords in the block.
    pub n_entries: u64,
    /// The first headword of the block.
    pub head: String,
    /// The last headword of the block.
    pub tail: String,
    /// The size of the block's frame, type tag and checksum included.
    pub nb_compressed: u64,
    /// The size of the block's data.
    pub nb_decompressed: u64,
}

/// The mathematical value of a [`KeyBlockInfo`].
pub struct KeyBlockInfoView {
    pub n_entries: u64,
    pub head: Seq<char>,
    pub tail: Seq<char>,
    pub nb_compressed: u64,
    pub nb_decompressed: u64,
}

impl View for KeyBlockInfo {
    type V = KeyBlockInfoView;

    open spec fn view(&self) -> KeyBlockInfoView {
        KeyBlockInfoView {
            n_entries: self.n_entries,
            head: self.head@,
            tail: self.tail@,
            nb_compressed: self.nb_compressed,
            nb_decompressed: self.nb_decompressed,
        }
    }
}

impl DeepView for KeyBlockInfo {
    type V = KeyBlockInfoView;

    open spec fn deep_view(&self) -> KeyBlockInfoView {
        self@
    }
}

/// A headword and where its article starts in the record space.
#[derive(Debug, PartialEq, Eq)]
pub struct KeyEntry {
    /// The position of the first byte of the article in the concatenation
    /// of all decompressed record blocks.
    pub record_offset: u64,
    /// The headword.
    pub headword: String,
}

/// The mathematical value of a [`KeyEntry`].
pub struct KeyEntryView {
    pub record_offset: u64,
    pub headword: Seq<char>,
}

impl View for KeyEntry {
    type V = KeyEntryView;

    open spec fn view(&self) -> KeyEntryView {
        KeyEntryView { record_offset: self.record_offset, headword: self.headword@ }
    }
}

impl DeepView for KeyEntry {
    type V = KeyEntryView;

    open spec fn deep_view(&self) -> KeyEntryView {
        self@
    }
}

/// The size in bytes of the header of the key index.
pub open spec fn key_header_size(v2: bool) -> int {
    if v2 {
        44
    } else {
        16
    }
}

/// The header of the key index at `at`: the number of blocks, the number of
/// entries, in version 2 the inflated size of the directory, the size of
/// the directory, the size of the blocks, and in version 2 a little-endian
/// checksum.
pub open spec fn key_header_at(s: Seq<u8>, at: int, v2: bool) -> Result<KeyBlockHeader, ErrorView> {
    if !in_bounds(s.len() as int, at, key_header_size(v2)) {
        Err(ErrorView::Truncated)
    } else if v2 {
        Ok(
            KeyBlockHeader {
                n_blocks: be64(s, at) as u64,
                n_entries: be64(s, at + 8) as u64,
                nb_decompressed: Some(be64(s, at + 16) as u64),
                nb_block_info: be64(s, at + 24) as u64,
                nb_blocks: be64(s, at + 32) as u64,
                checksum: Some(le32(s, at + 40) as u32),
            },
        )
    } else {
        Ok(
            KeyBlockHeader {
                n_blocks: be32(s, at) as u64,
                n_entries: be32(s, at + 4) as u64,
                nb_decompressed: None,
                nb_block_info: be32(s, at + 8) as u64,
                nb_blocks: be32(s, at + 12) as u64,
                checksum: None,
            },
        )
    }
}

/// Reads the header of the key index at `pos`.
pub fn read_key_header(data: &[u8], pos: usize, v2: bool) -> (r: Result<KeyBlockHeader, Error>)
    ensures
        match r {
            Ok(header) => key_header_at(data@, pos as int, v2) == Ok::<KeyBlockHeader, ErrorView>(
                header,
            ),
            Err(e) => key_header_at(data@, pos as int, v2) == Err::<KeyBlockHeader, ErrorView>(e@),
        },
{
    if v2 {
        if !has_bytes(data, pos, 44) {
            return Err(Error::Truncated);
        }
        let n_blocks: u64 = read_number(data, pos, true)?;
        let n_entries: u64 = read_number(data, pos + 8, true)?;
        let nb_decompressed: u64 = read_number(data, pos + 16, true)?;
        let nb_block_info: u64 = read_number(data, pos + 24, true)?;
        let nb_blocks: u64 = read_number(data, pos + 32, true)?;
        let checksum: u32 = read_u32_le(data, pos + 40)?;
        Ok(
            KeyBlockHeader {
                n_blocks,
                n_entries,
                nb_decompressed: Some(nb_decompressed),
                nb_block_info,
                nb_blocks,
                checksum: Some(checksum),
            },
        )
    } else {
        if !has_bytes(data, pos, 16) {
            return Err(Error::Truncated);
        }
        let n_blocks: u64 = read_number(data, pos, false)?;
        let n_entries: u64 = read_number(data, pos + 4, false)?;
        let nb_block_info: u64 = read_number(data, pos + 8, false)?;
        let nb_blocks: u64 = read_number(data, pos + 12, false)?;
        Ok(
            KeyBlockHeader {
                n_blocks,
                n_entries,
                nb_decompressed: None,
                nb_block_info,
                nb_blocks,
                checksum: None,
            },
        )
    }
}

/// The first or last headword of a block as the directory holds it at
/// `at`, with the position after it. A length comes first, a `u16` in
/// version 2 and a byte in version 1, counted in text units. Version 2
/// puts one more unit after the text, which is dropped.
pub open spec fn info_text_at(t: Seq<u8>, at: int, v2: bool, utf16: bool) -> Result<
    (Seq<char>, int),
    ErrorView,
> {
    let w: int = if v2 {
        2
    } else {
        1
    };
    if !in_bounds(t.len() as int, at, w) {
        Err(ErrorView::Truncated)
    } else {
        let n: int = if v2 {
            be16(t, at)
        } else {
            t[at] as int
        };
        let kept = n * unit_size(utf16);
        let held = if v2 {
            kept + unit_size(utf16)
        } else {
            kept
        };
        if !in_bounds(t.len() as int, at + w, held) {
            Err(ErrorView::Truncated)
        } else {
            Ok((decode_text(t.subrange(at + w, at + w + kept), utf16), at + w + held))
        }
    }
}

/// Reads the first or last headword of a block out of the directory.
pub fn read_info_text(t: &[u8], pos: usize, v2: bool, utf16: bool) -> (r: Result<
    (String, usize),
    Error,
>)
    ensures
        match r {
            Ok((text, next)) => info_text_at(t@, pos as int, v2, utf16) == Ok::<
                (Seq<char>, int),
                ErrorView,
            >((text@, next as int)),
            Err(e) => info_text_at(t@, pos as int, v2, utf16) == Err::<(Seq<char>, int), ErrorView>(
                e@,
            ),
        },
{
    let w: usize = if v2 {
        2
    } else {
        1
    };
    let n: usize = if v2 {
        read_u16_be(t, pos)? as usize
    } else {
        read_u8(t, pos)? as usize
    };
    let unit: usize = if utf16 {
        2
    } else {
        1
    };
    let kept: usize = n * unit;
    let held: usize = if v2 {
        kept + unit
    } else {
        kept
    };
    proof {
        lemma_len_fits(t);
    }
    if !has_bytes(t, pos + w, held) {
        return Err(Error::Truncated);
    }
    let start: usize = pos + w;
    let text = decode_run(slice_subrange(t, start, start + kept), utf16);
    Ok((text, start + held))
}

/// The entry of the directory at `at` and the position after it: the
/// number of entries, the first headword, the last headword, the size of
/// the frame and the size of the data.
#[verifier::opaque]
pub open spec fn info_at(t: Seq<u8>, at: int, v2: bool, utf16: bool) -> Result<
    (KeyBlockInfoView, int),
    ErrorView,
> {
    let nw = number_width(v2);
    if !in_bounds(t.len() as int, at, nw) {
        Err(ErrorView::Truncated)
    } else {
        match info_text_at(t, at + nw, v2, utf16) {
            Err(e) => Err(e),
            Ok((head, tail_at)) => match info_text_at(t, tail_at, v2, utf16) {
                Err(e) => Err(e),
                Ok((tail, sizes_at)) => if !in_bounds(t.len() as int, sizes_at, 2 * nw) {
                    Err(ErrorView::Truncated)
                } else {
                    Ok(
                        (
                            KeyBlockInfoView {
                                n_entries: number_at(t, at, v2) as u64,
                                head,
                                tail,
                                nb_compressed: number_at(t, sizes_at, v2) as u64,
                                nb_decompressed: number_at(t, sizes_at + nw, v2) as u64,
                            },
                            sizes_at + 2 * nw,
                        ),
                    )
                },
            },
        }
    }
}

/// Reads one entry of the directory.
pub fn read_info(t: &[u8], pos: usize, v2: bool, utf16: bool) -> (r: Result<
    (KeyBlockInfo, usize),
    Error,
>)
    ensures
        match r {
            Ok((info, next)) => info_at(t@, pos as int, v2, utf16) == Ok::<
                (KeyBlockInfoView, int),
                ErrorView,
            >((info@, next as int)),
            Err(e) => info_at(t@, pos as int, v2, utf16) == Err::<
                (KeyBlockInfoView, int),
                ErrorView,
            >(e@),
        },
{
    reveal(info_at);
    let nw: usize = if v2 {
        8
    } else {
        4
    };
    proof {
        lemma_len_fits(t);
    }
    let n_entries: u64 = read_number(t, pos, v2)?;
    let (head, tail_at) = read_info_text(t, pos + nw, v2, utf16)?;
    let (tail, sizes_at) = read_info_text(t, tail_at, v2, utf16)?;
    if !has_bytes(t, sizes_at, 2 * nw) {
        return Err(Error::Truncated);
    }
    let nb_compressed: u64 = read_number(t, sizes_at, v2)?;
    let nb_decompressed: u64 = read_number(t, sizes_at + nw, v2)?;
    Ok((KeyBlockInfo { n_entries, head, tail, nb_compressed, nb_decompressed }, sizes_at + 2 * nw))
}

/// The `count` entries of the directory from `at` on.
pub open spec fn infos_from(t: Seq<u8>, at: int, count: nat, v2: bool, utf16: bool) -> Parsed<
    KeyBlockInfoView,
>
    decreases count,
{
    if count == 0 {
        Ok((Seq::empty(), at))
    } else {
        match info_at(t, at, v2, utf16) {
            Err(e) => Err(e),
            Ok((info, next)) => after(seq![info], infos_from(t, next, (count - 1) as nat, v2, utf16)),
        }
    }
}

/// Reads `count` entries of the directory from `pos` on.
pub fn read_infos(t: &[u8], pos: usize, count: u64, v2: bool, utf16: bool) -> (r: Result<
    (Vec<KeyBlockInfo>, usize),
    Error,
>)
    ensures
        match r {
            Ok((infos, next)) => infos_from(t@, pos as int, count as nat, v2, utf16) == Ok::<
                (Seq<KeyBlockInfoView>, int),
                ErrorView,
            >((infos.deep_view(), next as int)),
            Err(e) => infos_from(t@, pos as int, count as nat, v2, utf16) == Err::<
                (Seq<KeyBlockInfoView>, int),
                ErrorView,
            >(e@),
        },
{
    let ghost whole = infos_from(t@, pos as int, count as nat, v2, utf16);
    let mut infos: Vec<KeyBlockInfo> = Vec::new();
    let mut at: usize = pos;
    let mut i: u64 = 0;
    assert(infos.deep_view() =~= Seq::empty());
    assert(Seq::<KeyBlockInfoView>::empty() + Seq::<KeyBlockInfoView>::empty() =~= Seq::empty());
    while i < count
        invariant
            i <= count,
            whole == infos_from(t@, pos as int, count as nat, v2, utf16),
            whole == after(
                infos.deep_view(),
                infos_from(t@, at as int, (count - i) as nat, v2, utf16),
            ),
        decreases count - i,
    {
        let ghost before = infos.deep_view();
        let (info, next) = read_info(t, at, v2, utf16)?;
        proof {
            let rest = infos_from(t@, next as int, (count - i - 1) as nat, v2, utf16);
            match rest {
                Ok((items, end)) => {
                    assert(before + (seq![info@] + items) =~= before.push(info@) + items);
                },
                Err(e) => {},
            }
        }
        infos.push(info);
        assert(infos.deep_view() =~= before.push(info@));
        at = next;
        i += 1;
    }
    assert(infos.deep_view() + Seq::<KeyBlockInfoView>::empty() =~= infos.deep_view());
    Ok((infos, at))
}

/// The entry of a key block at `at` and the position after it: the offset
/// of the article and the zero-terminated headword.
#[verifier::opaque]
pub open spec fn entry_at(b: Seq<u8>, at: int, v2: bool, utf16: bool) -> Result<
    (KeyEntryView, int),
    ErrorView,
> {
    if !in_bounds(b.len() as int, at, number_width(v2)) {
        Err(ErrorView::Truncated)
    } else {
        match cstr_at(b, at + number_width(v2), utf16) {
            Err(e) => Err(e),
            Ok((headword, next)) => Ok(
                (KeyEntryView { record_offset: number_at(b, at, v2) as u64, headword }, next),
            ),
        }
    }
}

/// Reads one entry of a key block.
pub fn read_entry(b: &[u8], pos: usize, v2: bool, utf16: bool) -> (r: Result<
    (KeyEntry, usize),
    Error,
>)
    ensures
        match r {
            Ok((entry, next)) => entry_at(b@, pos as int, v2, utf16) == Ok::<
                (KeyEntryView, int),
                ErrorView,
            >((entry@, next as int)),
            Err(e) => entry_at(b@, pos as int, v2, utf16) == Err::<(KeyEntryView, int), ErrorView>(
                e@,
            ),
        },
{
    reveal(entry_at);
    let nw: usize = if v2 {
        8
    } else {
        4
    };
    proof {
        lemma_len_fits(b);
    }
    let record_offset: u64 = read_number(b, pos, v2)?;
    let (headword, next) = read_cstr(b, pos + nw, utf16)?;
    Ok((KeyEntry { record_offset, headword }, next))
}

/// The `count` entries of a key block from `at` on.
pub open spec fn entries_from(b: Seq<u8>, at: int, count: nat, v2: bool, utf16: bool) -> Parsed<
    KeyEntryView,
>
    decreases count,
{
    if count == 0 {
        Ok((Seq::empty(), at))
    } else {
        match entry_at(b, at, v2, utf16) {
            Err(e) => Err(e),
            Ok((entry, next)) => after(
                seq![entry],
                entries_from(b, next, (count - 1) as nat, v2, utf16),
            ),
        }
    }
}

/// Reads `count` entries of a key block from `pos` on, onto the end of
/// `entries`. Returns the position after the last one.
pub fn read_entries(
    b: &[u8],
    pos: usize,
    count: u64,
    v2: bool,
    utf16: bool,
    entries: &mut Vec<KeyEntry>,
) -> (r: Result<usize, Error>)
    ensures
        match r {
            Ok(next) => entries_from(b@, pos as int, count as nat, v2, utf16) matches Ok(
                (items, end),
            ) && final(entries).deep_view() == old(entries).deep_view() + items && end == next,
            Err(e) => entries_from(b@, pos as int, count as nat, v2, utf16) == Err::<
                (Seq<KeyEntryView>, int),
                ErrorView,
            >(e@),
        },
        old(entries).deep_view().is_prefix_of(final(entries).deep_view()),
{
    let ghost whole = entries_from(b@, pos as int, count as nat, v2, utf16);
    let ghost start = entries.deep_view();
    let ghost mut read: Seq<KeyEntryView> = Seq::empty();
    let mut at: usize = pos;
    let mut i: u64 = 0;
    assert(start + read =~= start);
    assert(read + Seq::<KeyEntryView>::empty() =~= read);
    assert(start =~= start.subrange(0, start.len() as int));
    while i < count
        invariant
            i <= count,
            whole == entries_from(b@, pos as int, count as nat, v2, utf16),
            whole == after(read, entries_from(b@, at as int, (count - i) as nat, v2, utf16)),
            entries.deep_view() == start + read,
            start == old(entries).deep_view(),
            start.is_prefix_of(entries.deep_view()),
        decreases count - i,
    {
        let ghost before = entries.deep_view();
        let (entry, next) = read_entry(b, at, v2, utf16)?;
        proof {
            let rest = entries_from(b@, next as int, (count - i - 1) as nat, v2, utf16);
            match rest {
                Ok((items, end)) => {
                    assert(read + (seq![entry@] + items) =~= read.push(entry@) + items);
                },
                Err(e) => {},
            }
            assert(start + read.push(entry@) =~= before.push(entry@));
            read = read.push(entry@);
        }
        entries.push(entry);
        assert(entries.deep_view() =~= before.push(entry@));
        assert(start =~= entries.deep_view().subrange(0, start.len() as int));
        at = next;
        i += 1;
    }
    assert(read + Seq::<KeyEntryView>::empty() =~= read);
    Ok(at)
}

/// The entries of the key blocks that stand back to back from `at` on, one
/// block for each entry of the directory, and the position after the last
/// block. What a block holds after its last entry is not looked at.
pub open spec fn key_blocks_from(
    s: Seq<u8>,
    at: int,
    infos: Seq<KeyBlockInfoView>,
    v2: bool,
    utf16: bool,
    limit: usize,
) -> Parsed<KeyEntryView>
    decreases infos.len(),
{
    if infos.len() == 0 {
        Ok((Seq::empty(), at))
    } else {
        match block_at(s, at, infos[0].nb_compressed, infos[0].nb_decompressed, limit) {
            Err(e) => Err(e),
            Ok(block) => match entries_from(block.data, 0, infos[0].n_entries as nat, v2, utf16) {
                Err(e) => Err(e),
                Ok((entries, _)) => after(
                    entries,
                    key_blocks_from(
                        s,
                        at + infos[0].nb_compressed,
                        infos.drop_first(),
                        v2,
                        utf16,
                        limit,
                    ),
                ),
            },
        }
    }
}

/// Reads the key blocks that stand back to back from `pos` on.
pub fn read_key_blocks(
    data: &[u8],
    pos: usize,
    infos: &Vec<KeyBlockInfo>,
    v2: bool,
    utf16: bool,
    limit: usize,
) -> (r: Result<(Vec<KeyEntry>, usize), Error>)
    ensures
        match r {
            Ok((entries, next)) => key_blocks_from(
                data@,
                pos as int,
                infos.deep_view(),
                v2,
                utf16,
                limit,
            ) == Ok::<(Seq<KeyEntryView>, int), ErrorView>((entries.deep_view(), next as int)),
            Err(e) => key_blocks_from(data@, pos as int, infos.deep_view(), v2, utf16, limit)
                == Err::<(Seq<KeyEntryView>, int), ErrorView>(e@),
        },
{
    let ghost whole = key_blocks_from(data@, pos as int, infos.deep_view(), v2, utf16, limit);
    proof {
        lemma_len_fits(data);
    }
    let mut entries: Vec<KeyEntry> = Vec::new();
    let mut at: usize = pos;
    let mut k: usize = 0;
    assert(infos.deep_view().skip(0) =~= infos.deep_view());
    assert(entries.deep_view() =~= Seq::empty());
    assert(Seq::<KeyEntryView>::empty() + Seq::<KeyEntryView>::empty() =~= Seq::empty());
    while k < infos.len()
        invariant
            k <= infos@.len(),
            data@.len() <= usize::MAX,
            whole == key_blocks_from(data@, pos as int, infos.deep_view(), v2, utf16, limit),
            whole == after(
                entries.deep_view(),
                key_blocks_from(data@, at as int, infos.deep_view().skip(k as int), v2, utf16, limit),
            ),
        decreases infos@.len() - k,
    {
        let ghost before = entries.deep_view();
        let ghost pending = infos.deep_view().skip(k as int);
        let info = &infos[k];
        assert(pending[0] == info@);
        assert(pending.drop_first() =~= infos.deep_view().skip(k + 1));
        let block = content_block(data, at, info.nb_compressed, info.nb_decompressed, limit)?;
        let _end: usize = read_entries(
            block.data.as_slice(),
            0,
            info.n_entries,
            v2,
            utf16,
            &mut entries,
        )?;
        proof {
            let read = entries_from(block.data@, 0, info.n_entries as nat, v2, utf16)->Ok_0.0;
            let rest = key_blocks_from(
                data@,
                at + info.nb_compressed,
                pending.drop_first(),
                v2,
                utf16,
                limit,
            );
            match rest {
                Ok((items, end)) => {
                    assert(before + (read + items) =~= (before + read) + items);
                },
                Err(e) => {},
            }
        }
        at = at + info.nb_compressed as usize;
        k += 1;
    }
    assert(entries.deep_view() + Seq::<KeyEntryView>::empty() =~= entries.deep_view());
    Ok((entries, at))
}

/// The plain text of the directory that stands at `at`. In version 1 the
/// file holds it as it is. In version 2 the file holds a sentinel, a
/// checksum, and the scrambled zlib stream of it; the key of the scrambling
/// comes from the checksum.
pub open spec fn directory_at(
    s: Seq<u8>,
    at: int,
    nb_block_info: u64,
    nb_decompressed: Option<u64>,
    limit: usize,
) -> Result<Seq<u8>, ErrorView> {
    match nb_decompressed {
        None => if !in_bounds(s.len() as int, at, nb_block_info as int) {
            Err(ErrorView::Truncated)
        } else {
            Ok(s.subrange(at, at + nb_block_info))
        },
        Some(size) => if size > limit {
            Err(ErrorView::SizeCeilingExceeded { declared: size, limit: limit as u64 })
        } else if !in_bounds(s.len() as int, at, 4) {
            Err(ErrorView::Truncated)
        } else if le32(s, at) != INFO_MAGIC {
            Err(
                ErrorView::BadMagic {
                    expected: INFO_MAGIC,
                    found: le32(s, at) as u32,
                    offset: at as u64,
                },
            )
        } else if nb_block_info < 8 || !in_bounds(s.len() as int, at, nb_block_info as int) {
            Err(ErrorView::Truncated)
        } else {
            payload_data(
                ContentBlockType::Zlib,
                deobfuscated(s.subrange(at + 8, at + nb_block_info), key_of(le32(s, at + 4) as u32)),
                size as nat,
            )
        },
    }
}

/// Reads the plain text of the directory that stands at `pos`.
pub fn read_directory(
    data: &[u8],
    pos: usize,
    nb_block_info: u64,
    nb_decompressed: Option<u64>,
    limit: usize,
) -> (r: Result<Vec<u8>, Error>)
    ensures
        match r {
            Ok(plain) => directory_at(data@, pos as int, nb_block_info, nb_decompressed, limit)
                == Ok::<Seq<u8>, ErrorView>(plain@),
            Err(e) => directory_at(data@, pos as int, nb_block_info, nb_decompressed, limit)
                == Err::<Seq<u8>, ErrorView>(e@),
        },
{
    match nb_decompressed {
        None => {
            let section = read_exact(data, pos, nb_block_info)?;
            Ok(slice_to_vec(section))
        },
        Some(size) => {
            if size > limit as u64 {
                return Err(Error::SizeCeilingExceeded { declared: size, limit: limit as u64 });
            }
            let magic: u32 = read_u32_le(data, pos)?;
            if magic != INFO_MAGIC {
                return Err(
                    Error::BadMagic { expected: INFO_MAGIC, found: magic, offset: pos as u64 },
                );
            }
            if nb_block_info < 8 {
                return Err(Error::Truncated);
            }
            let section = read_exact(data, pos, nb_block_info)?;
            let checksum: u32 = read_u32_le(section, 4)?;
            let key = derive_key(checksum);
            let cipher = slice_subrange(section, 8, section.len());
            assert(cipher@ =~= data@.subrange(pos + 8, pos + nb_block_info));
            let plain = deobfuscate(cipher, &key);
            unpack_payload(ContentBlockType::Zlib, plain.as_slice(), size as usize)
        },
    }
}

/// The directory of key blocks that stands at `at`, and the position after
/// it: the section of `nb_block_info` bytes, read as `n_blocks` entries.
pub open spec fn key_block_info_at(
    s: Seq<u8>,
    at: int,
    header: KeyBlockHeader,
    v2: bool,
    utf16: bool,
    limit: usize,
) -> Parsed<KeyBlockInfoView> {
    match directory_at(s, at, header.nb_block_info, header.nb_decompressed, limit) {
        Err(e) => Err(e),
        Ok(plain) => match infos_from(plain, 0, header.n_blocks as nat, v2, utf16) {
            Err(e) => Err(e),
            Ok((infos, _)) => Ok((infos, at + header.nb_block_info)),
        },
    }
}

/// Reads the directory of key blocks that stands at `pos`.
pub fn key_block_info(
    data: &[u8],
    pos: usize,
    header: &KeyBlockHeader,
    v2: bool,
    utf16: bool,
    limit: usize,
) -> (r: Result<(Vec<KeyBlockInfo>, usize), Error>)
    ensures
        match r {
            Ok((infos, next)) => key_block_info_at(data@, pos as int, *header, v2, utf16, limit)
                == Ok::<(Seq<KeyBlockInfoView>, int), ErrorView>((infos.deep_view(), next as int)),
            Err(e) => key_block_info_at(data@, pos as int, *header, v2, utf16, limit) == Err::<
                (Seq<KeyBlockInfoView>, int),
                ErrorView,
            >(e@),
        },
{
    proof {
        lemma_len_fits(data);
    }
    let plain = read_directory(data, pos, header.nb_block_info, header.nb_decompressed, limit)?;
    let (infos, _end) = read_infos(plain.as_slice(), 0, header.n_blocks, v2, utf16)?;
    Ok((infos, pos + header.nb_block_info as usize))
}

/// The key index of a dictionary.
#[derive(Debug, PartialEq, Eq)]
pub struct KeyIndex {
    /// The header of the index.
    pub header: KeyBlockHeader,
    /// The directory of key blocks.
    pub infos: Vec<KeyBlockInfo>,
    /// The headwords in the order of the file.
    pub entries: Vec<KeyEntry>,
}

/// The mathematical value of a [`KeyIndex`].
pub struct KeyIndexView {
    pub header: KeyBlockHeader,
    pub infos: Seq<KeyBlockInfoView>,
    pub entries: Seq<KeyEntryView>,
}

impl View for KeyIndex {
    type V = KeyIndexView;

    open spec fn view(&self) -> KeyIndexView {
        KeyIndexView {
            header: self.header,
            infos: self.infos.deep_view(),
            entries: self.entries.deep_view(),
        }
    }
}

/// The key index that stands at `at` and the position after it.
pub open spec fn key_block_at(s: Seq<u8>, at: int, v2: bool, utf16: bool, limit: usize) -> Result<
    (KeyIndexView, int),
    ErrorView,
> {
    match key_header_at(s, at, v2) {
        Err(e) => Err(e),
        Ok(header) => match key_block_info_at(
            s,
            at + key_header_size(v2),
            header,
            v2,
            utf16,
            limit,
        ) {
            Err(e) => Err(e),
            Ok((infos, blocks_at)) => match key_blocks_from(s, blocks_at, infos, v2, utf16, limit) {
                Err(e) => Err(e),
                Ok((entries, end)) => Ok((KeyIndexView { header, infos, entries }, end)),
            },
        },
    }
}

/// Reads the key index that stands at `pos` and returns it with the
/// position after it.
pub fn key_block(data: &[u8], pos: usize, v2: bool, utf16: bool, limit: usize) -> (r: Result<
    (KeyIndex, usize),
    Error,
>)
    ensures
        match r {
            Ok((index, next)) => key_block_at(data@, pos as int, v2, utf16, limit) == Ok::<
                (KeyIndexView, int),
                ErrorView,
            >((index@, next as int)),
            Err(e) => key_block_at(data@, pos as int, v2, utf16, limit) == Err::<
                (KeyIndexView, int),
                ErrorView,
            >(e@),
        },
{
    proof {
        lemma_len_fits(data);
    }
    let header = read_key_header(data, pos, v2)?;
    let size: usize = if v2 {
        44
    } else {
        16
    };
    let (infos, blocks_at) = key_block_info(data, pos + size, &header, v2, utf16, limit)?;
    let (entries, end) = read_key_blocks(data, blocks_at, &infos, v2, utf16, limit)?;
    Ok((KeyIndex { header, infos, entries }, end))
}

/// The number of headwords that a directory declares in all.
pub open spec fn total_entries(infos: Seq<KeyBlockInfoView>) -> nat
    decreases infos.len(),
{
    if infos.len() == 0 {
        0
    } else {
        infos[0].n_entries as nat + total_entries(infos.drop_first())
    }
}

/// Where a key block gives its entries, it gives as many as were asked
/// for, and they end inside the block.
pub proof fn lemma_entries_count(b: Seq<u8>, at: int, count: nat, v2: bool, utf16: bool)
    requires
        0 <= at <= b.len(),
    ensures
        entries_from(b, at, count, v2, utf16) matches Ok((entries, end)) ==> entries.len() == count
            && at <= end <= b.len(),
    decreases count,
{
    if count > 0 {
        reveal(entry_at);
        match entry_at(b, at, v2, utf16) {
            Ok((entry, next)) => {
                lemma_terminator_bounds(b, at + number_width(v2), utf16);
                lemma_entries_count(b, next, (count - 1) as nat, v2, utf16);
            },
            Err(e) => {},
        }
    }
}

/// The terminator of a string stands at or after its start and inside the
/// source.
pub proof fn lemma_terminator_bounds(s: Seq<u8>, at: int, utf16: bool)
    ensures
        terminator_at(s, at, utf16) matches Some(end) ==> at <= end && end + unit_size(utf16)
            <= s.len(),
    decreases s.len() - at,
{
    if !(at < 0 || at + unit_size(utf16) > s.len()) && !(s[at] == 0 && (utf16 ==> s[at + 1] == 0)) {
        lemma_terminator_bounds(s, at + unit_size(utf16), utf16);
    }
}

/// The key blocks give as many headwords as their directory declares.
pub proof fn lemma_key_blocks_count(
    s: Seq<u8>,
    at: int,
    infos: Seq<KeyBlockInfoView>,
    v2: bool,
    utf16: bool,
    limit: usize,
)
    ensures
        key_blocks_from(s, at, infos, v2, utf16, limit) matches Ok((entries, end))
            ==> entries.len() == total_entries(infos),
    decreases infos.len(),
{
    if infos.len() > 0 {
        match block_at(s, at, infos[0].nb_compressed, infos[0].nb_decompressed, limit) {
            Ok(block) => {
                lemma_entries_count(block.data, 0, infos[0].n_entries as nat, v2, utf16);
                lemma_key_blocks_count(
                    s,
                    at + infos[0].nb_compressed,
                    infos.drop_first(),
                    v2,
                    utf16,
                    limit,
                );
            },
            Err(e) => {},
        }
    }
}

/// Where the directory gives its entries, it gives as many as were asked
/// for.
pub proof fn lemma_infos_count(t: Seq<u8>, at: int, count: nat, v2: bool, utf16: bool)
    ensures
        infos_from(t, at, count, v2, utf16) matches Ok((infos, end)) ==> infos.len() == count,
    decreases count,
{
    if count > 0 {
        match info_at(t, at, v2, utf16) {
            Ok((info, next)) => {
                lemma_infos_count(t, next, (count - 1) as nat, v2, utf16);
            },
            Err(e) => {},
        }
    }
}

/// A key index has as many directory entries as its header declares
/// blocks, and as many headwords as its directory declares in all.
pub proof fn lemma_key_block_counts(s: Seq<u8>, at: int, v2: bool, utf16: bool, limit: usize)
    ensures
        key_block_at(s, at, v2, utf16, limit) matches Ok((index, end)) ==> index.infos.len()
            == index.header.n_blocks && index.entries.len() == total_entries(index.infos),
{
    match key_header_at(s, at, v2) {
        Ok(header) => {
            let directory_start = at + key_header_size(v2);
            match directory_at(s, directory_start, header.nb_block_info, header.nb_decompressed, limit) {
                Ok(plain) => {
                    lemma_infos_count(plain, 0, header.n_blocks as nat, v2, utf16);
                    match infos_from(plain, 0, header.n_blocks as nat, v2, utf16) {
                        Ok((infos, _)) => {
                            lemma_key_blocks_count(
                                s,
                                directory_start + header.nb_block_info,
                                infos,
                                v2,
                                utf16,
                                limit,
                            );
                        },
                        Err(e) => {},
                    }
                },
                Err(e) => {},
            }
        },
        Err(e) => {},
    }
}

} // verus!

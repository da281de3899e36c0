//! How a well-formed dictionary writes its parts, and what the decoder
//! makes of parts so written.
//!
//! Nothing here is executed: the crate reads dictionaries and writes none.
//! The functions say which bytes stand for a number, a headword, a key
//! block or a directory entry, and the lemmas show that the decoder reads
//! out of such bytes what was written into them.

use crate::bytes::be16;
use crate::bytes::be32;
use crate::bytes::be64;
use crate::bytes::in_bounds;
use crate::bytes::le32;
use crate::bytes::le_bytes32;
use crate::bytes::lemma_le32_of_le_bytes32;
use crate::bytes::number_at;
use crate::bytes::number_width;
use crate::codec::decoded_block;
use crate::codec::frame_of;
use crate::codec::lemma_decoded_size;
use crate::codec::lemma_raw_round_trip;
use crate::codec::zlib_inflated;
use crate::codec::ContentBlockType;
use crate::error::ErrorView;
use crate::key_index::directory_at;
use crate::key_index::entries_from;
use crate::key_index::entry_at;
use crate::key_index::info_at;
use crate::key_index::info_text_at;
use crate::key_index::infos_from;
use crate::key_index::key_block_at;
use crate::key_index::key_blocks_from;
use crate::key_index::key_header_at;
use crate::key_index::key_header_size;
use crate::key_index::INFO_MAGIC;
use crate::key_index::KeyBlockHeader;
use crate::key_index::KeyBlockInfoView;
use crate::key_index::KeyEntryView;
use crate::key_index::KeyIndexView;
use crate::obfuscate::deobfuscated;
use crate::obfuscate::key_of;
use crate::obfuscate::lemma_deobfuscate_obfuscate;
use crate::obfuscate::obfuscated;
use crate::text::cstr_at;
use crate::text::decode_text;
use crate::text::terminator_at;
use crate::text::unit_size;
use vstd::prelude::*;

verus! {

/// The two bytes of a number, highest first.
pub open spec fn be_bytes16(value: u16) -> Seq<u8> {
    seq![(value / 0x100) as u8, (value % 0x100) as u8]
}

/// The four bytes of a number, highest first.
pub open spec fn be_bytes32(value: u32) -> Seq<u8> {
    seq![
        (value / 0x100_0000) as u8,
        (value / 0x1_0000 % 0x100) as u8,
        (value / 0x100 % 0x100) as u8,
        (value % 0x100) as u8,
    ]
}

/// The eight bytes of a number, highest first.
pub open spec fn be_bytes64(value: u64) -> Seq<u8> {
    be_bytes32((value / 0x1_0000_0000) as u32) + be_bytes32((value % 0x1_0000_0000) as u32)
}

/// The bytes of a number of the format: eight in version 2, four in
/// version 1.
#[verifier::opaque]
pub open spec fn number_bytes(value: u64, v2: bool) -> Seq<u8> {
    if v2 {
        be_bytes64(value)
    } else {
        be_bytes32(value as u32)
    }
}

/// Whether a number can be written in the given version of the format.
pub open spec fn fits(value: u64, v2: bool) -> bool {
    v2 || value <= u32::MAX
}

/// Whether `s` holds `part` at `at`.
pub open spec fn holds(s: Seq<u8>, at: int, part: Seq<u8>) -> bool {
    0 <= at && at + part.len() <= s.len() && s.subrange(at, at + part.len()) == part
}

/// A source that holds two parts end to end holds each of them.
pub proof fn lemma_holds_split(s: Seq<u8>, at: int, first: Seq<u8>, second: Seq<u8>)
    requires
        holds(s, at, first + second),
    ensures
        holds(s, at, first),
        holds(s, at + first.len(), second),
{
    let whole = s.subrange(at, at + (first + second).len());
    assert(s.subrange(at, at + first.len()) =~= whole.subrange(0, first.len() as int));
    assert(whole.subrange(0, first.len() as int) =~= first);
    assert(s.subrange(at + first.len(), at + first.len() + second.len()) =~= whole.subrange(
        first.len() as int,
        whole.len() as int,
    ));
    assert(whole.subrange(first.len() as int, whole.len() as int) =~= second);
}

/// Two bytes written highest first are read back as the number.
pub proof fn lemma_read_be16(s: Seq<u8>, at: int, value: u16)
    requires
        holds(s, at, be_bytes16(value)),
    ensures
        be16(s, at) == value,
{
    let part = s.subrange(at, at + 2);
    assert(s[at] == part[0]);
    assert(s[at + 1] == part[1]);
}

/// Four bytes written highest first are read back as the number.
pub proof fn lemma_read_be32(s: Seq<u8>, at: int, value: u32)
    requires
        holds(s, at, be_bytes32(value)),
    ensures
        be32(s, at) == value,
{
    let part = s.subrange(at, at + 4);
    assert(s[at] == part[0]);
    assert(s[at + 1] == part[1]);
    assert(s[at + 2] == part[2]);
    assert(s[at + 3] == part[3]);
}

/// Eight bytes written highest first are read back as the number.
pub proof fn lemma_read_be64(s: Seq<u8>, at: int, value: u64)
    requires
        holds(s, at, be_bytes64(value)),
    ensures
        be64(s, at) == value,
{
    let high = (value / 0x1_0000_0000) as u32;
    let low = (value % 0x1_0000_0000) as u32;
    lemma_holds_split(s, at, be_bytes32(high), be_bytes32(low));
    lemma_read_be32(s, at, high);
    lemma_read_be32(s, at + 4, low);
}

/// A number written in the format is read back as it was.
pub proof fn lemma_read_number(s: Seq<u8>, at: int, value: u64, v2: bool)
    requires
        holds(s, at, number_bytes(value, v2)),
        fits(value, v2),
    ensures
        number_bytes(value, v2).len() == number_width(v2),
        in_bounds(s.len() as int, at, number_width(v2)),
        number_at(s, at, v2) == value,
{
    reveal(number_bytes);
    if v2 {
        lemma_read_be64(s, at, value);
    } else {
        lemma_read_be32(s, at, value as u32);
    }
}

/// The zero unit that ends a string.
pub open spec fn terminator(utf16: bool) -> Seq<u8> {
    if utf16 {
        seq![0u8, 0u8]
    } else {
        seq![0u8]
    }
}

/// The number of whole units in a run of bytes.
pub open spec fn units_of(word: Seq<u8>, utf16: bool) -> int {
    if utf16 {
        word.len() as int / 2
    } else {
        word.len() as int
    }
}

/// Whether unit `k` of a run of bytes is the zero unit.
pub open spec fn zero_unit(word: Seq<u8>, k: int, utf16: bool) -> bool {
    if utf16 {
        word[2 * k] == 0 && word[2 * k + 1] == 0
    } else {
        word[k] == 0
    }
}

/// Whether a run of bytes can stand in front of a terminator: whether it
/// is made of whole units, none of them zero.
pub open spec fn clean(word: Seq<u8>, utf16: bool) -> bool {
    &&& utf16 ==> word.len() % 2 == 0
    &&& forall|k: int| 0 <= k < units_of(word, utf16) ==> !#[trigger] zero_unit(word, k, utf16)
}

/// The terminator of a clean string is found right after it, from the
/// start of any of its units.
pub proof fn lemma_terminator_of_clean(s: Seq<u8>, at: int, word: Seq<u8>, utf16: bool, k: int)
    requires
        holds(s, at, word + terminator(utf16)),
        clean(word, utf16),
        0 <= k <= units_of(word, utf16),
    ensures
        terminator_at(s, at + k * unit_size(utf16), utf16) == Some(at + word.len()),
    decreases units_of(word, utf16) - k,
{
    let whole = word + terminator(utf16);
    let part = s.subrange(at, at + whole.len());
    if utf16 {
        let p = at + 2 * k;
        assert(s[p] == part[2 * k]);
        assert(s[p + 1] == part[2 * k + 1]);
        if k == word.len() / 2 {
            assert(whole[2 * k] == 0 && whole[2 * k + 1] == 0);
        } else {
            assert(!zero_unit(word, k, utf16));
            assert(whole[2 * k] == word[2 * k] && whole[2 * k + 1] == word[2 * k + 1]);
            lemma_terminator_of_clean(s, at, word, utf16, k + 1);
        }
    } else {
        let p = at + k;
        assert(s[p] == part[k]);
        if k == word.len() {
            assert(whole[k] == 0);
        } else {
            assert(!zero_unit(word, k, utf16));
            assert(whole[k] == word[k]);
            lemma_terminator_of_clean(s, at, word, utf16, k + 1);
        }
    }
}

/// A clean string written with its terminator is read back as its text,
/// and the reader stops right after the terminator.
pub proof fn lemma_read_cstr(s: Seq<u8>, at: int, word: Seq<u8>, utf16: bool)
    requires
        holds(s, at, word + terminator(utf16)),
        clean(word, utf16),
    ensures
        cstr_at(s, at, utf16) == Ok::<(Seq<char>, int), ErrorView>(
            (decode_text(word, utf16), at + word.len() + unit_size(utf16)),
        ),
{
    lemma_terminator_of_clean(s, at, word, utf16, 0);
    lemma_holds_split(s, at, word, terminator(utf16));
}

/// A headword as it is written into a key block: the offset of its
/// article and the bytes of its text.
pub struct WrittenEntry {
    pub offset: u64,
    pub word: Seq<u8>,
}

/// What the decoder is to make of a written entry.
pub open spec fn entry_view(e: WrittenEntry, utf16: bool) -> KeyEntryView {
    KeyEntryView { record_offset: e.offset, headword: decode_text(e.word, utf16) }
}

/// The bytes of an entry of a key block: the offset, the text and the
/// terminator.
pub open spec fn entry_bytes(e: WrittenEntry, v2: bool, utf16: bool) -> Seq<u8> {
    number_bytes(e.offset, v2) + (e.word + terminator(utf16))
}

/// The data of a key block: its entries end to end.
pub open spec fn entries_bytes(es: Seq<WrittenEntry>, v2: bool, utf16: bool) -> Seq<u8>
    decreases es.len(),
{
    if es.len() == 0 {
        Seq::empty()
    } else {
        entry_bytes(es[0], v2, utf16) + entries_bytes(es.drop_first(), v2, utf16)
    }
}

/// Whether entries can be written in the given version and encoding.
pub open spec fn writable(es: Seq<WrittenEntry>, v2: bool, utf16: bool) -> bool {
    forall|i: int|
        0 <= i < es.len() ==> clean((#[trigger] es[i]).word, utf16) && fits(es[i].offset, v2)
}

/// A written entry is read back as it was, and the reader stops right
/// after it.
pub proof fn lemma_read_entry(b: Seq<u8>, at: int, e: WrittenEntry, v2: bool, utf16: bool)
    requires
        holds(b, at, entry_bytes(e, v2, utf16)),
        clean(e.word, utf16),
        fits(e.offset, v2),
    ensures
        entry_at(b, at, v2, utf16) == Ok::<(KeyEntryView, int), ErrorView>(
            (entry_view(e, utf16), at + entry_bytes(e, v2, utf16).len()),
        ),
{
    reveal(entry_at);
    lemma_holds_split(b, at, number_bytes(e.offset, v2), e.word + terminator(utf16));
    lemma_read_number(b, at, e.offset, v2);
    lemma_read_cstr(b, at + number_width(v2), e.word, utf16);
}

/// A key block that was written from a list of entries gives exactly those
/// entries back, as many as were written, and the reader stops at the end
/// of what was written: where the block holds nothing else, nothing of it
/// is left over.
pub proof fn lemma_read_entries(
    b: Seq<u8>,
    at: int,
    es: Seq<WrittenEntry>,
    v2: bool,
    utf16: bool,
)
    requires
        holds(b, at, entries_bytes(es, v2, utf16)),
        writable(es, v2, utf16),
    ensures
        entries_from(b, at, es.len(), v2, utf16) == Ok::<
            (Seq<KeyEntryView>, int),
            crate::error::ErrorView,
        >(
            (
                es.map_values(|e: WrittenEntry| entry_view(e, utf16)),
                at + entries_bytes(es, v2, utf16).len(),
            ),
        ),
    decreases es.len(),
{
    let views = es.map_values(|e: WrittenEntry| entry_view(e, utf16));
    if es.len() == 0 {
        assert(views =~= Seq::empty());
    } else {
        let first = entry_bytes(es[0], v2, utf16);
        let rest = es.drop_first();
        lemma_holds_split(b, at, first, entries_bytes(rest, v2, utf16));
        lemma_read_entry(b, at, es[0], v2, utf16);
        assert forall|i: int| 0 <= i < rest.len() implies clean(
            (#[trigger] rest[i]).word,
            utf16,
        ) && fits(rest[i].offset, v2) by {
            assert(rest[i] == es[i + 1]);
        }
        lemma_read_entries(b, at + first.len(), rest, v2, utf16);
        let rest_views = rest.map_values(|e: WrittenEntry| entry_view(e, utf16));
        assert(seq![entry_view(es[0], utf16)] + rest_views =~= views);
    }
}

/// The bytes of a first or last headword in the directory: its length in
/// units, as a `u16` in version 2 and as a byte in version 1, and its
/// text, in version 2 with a terminator.
#[verifier::opaque]
pub open spec fn info_text_bytes(word: Seq<u8>, v2: bool, utf16: bool) -> Seq<u8> {
    if v2 {
        be_bytes16(units_of(word, utf16) as u16) + (word + terminator(utf16))
    } else {
        seq![units_of(word, utf16) as u8] + word
    }
}

/// Whether a headword can be written into the directory: whether it is
/// made of whole units and its length can be written.
pub open spec fn bound_writable(word: Seq<u8>, v2: bool, utf16: bool) -> bool {
    &&& utf16 ==> word.len() % 2 == 0
    &&& units_of(word, utf16) <= if v2 {
        0xffffint
    } else {
        0xffint
    }
}

/// A first or last headword written into the directory is read back as
/// its text, and the reader stops right after it.
pub proof fn lemma_read_info_text(t: Seq<u8>, at: int, word: Seq<u8>, v2: bool, utf16: bool)
    requires
        holds(t, at, info_text_bytes(word, v2, utf16)),
        bound_writable(word, v2, utf16),
    ensures
        info_text_at(t, at, v2, utf16) == Ok::<(Seq<char>, int), ErrorView>(
            (decode_text(word, utf16), at + info_text_bytes(word, v2, utf16).len()),
        ),
{
    reveal(info_text_bytes);
    let n = units_of(word, utf16);
    assert(n * unit_size(utf16) == word.len());
    if v2 {
        lemma_holds_split(t, at, be_bytes16(n as u16), word + terminator(utf16));
        lemma_read_be16(t, at, n as u16);
        lemma_holds_split(t, at + 2, word, terminator(utf16));
    } else {
        lemma_holds_split(t, at, seq![n as u8], word);
        assert(t[at] == t.subrange(at, at + 1)[0]);
    }
}

/// An entry of the directory as it is written.
pub struct WrittenInfo {
    pub n_entries: u64,
    pub head: Seq<u8>,
    pub tail: Seq<u8>,
    pub nb_compressed: u64,
    pub nb_decompressed: u64,
}

/// What the decoder is to make of a written entry of the directory.
pub open spec fn info_view(info: WrittenInfo, utf16: bool) -> KeyBlockInfoView {
    KeyBlockInfoView {
        n_entries: info.n_entries,
        head: decode_text(info.head, utf16),
        tail: decode_text(info.tail, utf16),
        nb_compressed: info.nb_compressed,
        nb_decompressed: info.nb_decompressed,
    }
}

/// The bytes of an entry of the directory.
#[verifier::opaque]
pub open spec fn info_bytes(info: WrittenInfo, v2: bool, utf16: bool) -> Seq<u8> {
    number_bytes(info.n_entries, v2) + (info_text_bytes(info.head, v2, utf16) + (info_text_bytes(
        info.tail,
        v2,
        utf16,
    ) + (number_bytes(info.nb_compressed, v2) + number_bytes(info.nb_decompressed, v2))))
}

/// Whether an entry of the directory can be written in the given version
/// and encoding.
pub open spec fn info_writable(info: WrittenInfo, v2: bool, utf16: bool) -> bool {
    &&& fits(info.n_entries, v2)
    &&& fits(info.nb_compressed, v2)
    &&& fits(info.nb_decompressed, v2)
    &&& bound_writable(info.head, v2, utf16)
    &&& bound_writable(info.tail, v2, utf16)
}

/// A written entry of the directory is read back as it was, and the reader
/// stops right after it.
pub proof fn lemma_read_info(t: Seq<u8>, at: int, info: WrittenInfo, v2: bool, utf16: bool)
    requires
        holds(t, at, info_bytes(info, v2, utf16)),
        info_writable(info, v2, utf16),
    ensures
        info_at(t, at, v2, utf16) == Ok::<(KeyBlockInfoView, int), ErrorView>(
            (info_view(info, utf16), at + info_bytes(info, v2, utf16).len()),
        ),
{
    reveal(info_bytes);
    reveal(info_at);
    let nw = number_width(v2);
    let head = info_text_bytes(info.head, v2, utf16);
    let tail = info_text_bytes(info.tail, v2, utf16);
    let packed = number_bytes(info.nb_compressed, v2);
    let size = number_bytes(info.nb_decompressed, v2);
    lemma_holds_split(t, at, number_bytes(info.n_entries, v2), head + (tail + (packed + size)));
    lemma_read_number(t, at, info.n_entries, v2);
    let head_at = at + nw;
    lemma_holds_split(t, head_at, head, tail + (packed + size));
    lemma_read_info_text(t, head_at, info.head, v2, utf16);
    let tail_at = head_at + head.len();
    lemma_holds_split(t, tail_at, tail, packed + size);
    lemma_read_info_text(t, tail_at, info.tail, v2, utf16);
    let sizes_at = tail_at + tail.len();
    lemma_holds_split(t, sizes_at, packed, size);
    lemma_read_number(t, sizes_at, info.nb_compressed, v2);
    lemma_read_number(t, sizes_at + nw, info.nb_decompressed, v2);
}

/// Whether an entry of the directory describes a key block of the given
/// entries: whether it counts them and names the first and the last.
pub open spec fn describes(info: WrittenInfo, es: Seq<WrittenEntry>) -> bool {
    &&& es.len() > 0
    &&& info.n_entries == es.len()
    &&& info.head == es.first().word
    &&& info.tail == es.last().word
}

/// Where the directory describes a key block that was written from a list
/// of entries, the first and last headword that the decoder reads out of
/// the directory are the first and last headword that it reads out of the
/// block.
pub proof fn lemma_bounds_agree(
    t: Seq<u8>,
    at: int,
    info: WrittenInfo,
    b: Seq<u8>,
    start: int,
    es: Seq<WrittenEntry>,
    v2: bool,
    utf16: bool,
)
    requires
        holds(t, at, info_bytes(info, v2, utf16)),
        info_writable(info, v2, utf16),
        holds(b, start, entries_bytes(es, v2, utf16)),
        writable(es, v2, utf16),
        describes(info, es),
    ensures
        info_at(t, at, v2, utf16) matches Ok((read, _)) && entries_from(
            b,
            start,
            read.n_entries as nat,
            v2,
            utf16,
        ) matches Ok((entries, _)) && entries.len() == read.n_entries && read.head
            == entries.first().headword && read.tail == entries.last().headword,
{
    lemma_read_info(t, at, info, v2, utf16);
    lemma_read_entries(b, start, es, v2, utf16);
}

/// The plain text of a directory: its entries end to end.
pub open spec fn infos_bytes(infos: Seq<WrittenInfo>, v2: bool, utf16: bool) -> Seq<u8>
    decreases infos.len(),
{
    if infos.len() == 0 {
        Seq::empty()
    } else {
        info_bytes(infos[0], v2, utf16) + infos_bytes(infos.drop_first(), v2, utf16)
    }
}

/// A directory that was written from a list of entries gives exactly those
/// entries back.
pub proof fn lemma_read_infos(t: Seq<u8>, at: int, infos: Seq<WrittenInfo>, v2: bool, utf16: bool)
    requires
        holds(t, at, infos_bytes(infos, v2, utf16)),
        forall|i: int| 0 <= i < infos.len() ==> info_writable(#[trigger] infos[i], v2, utf16),
    ensures
        infos_from(t, at, infos.len(), v2, utf16) == Ok::<
            (Seq<KeyBlockInfoView>, int),
            crate::error::ErrorView,
        >(
            (
                infos.map_values(|i: WrittenInfo| info_view(i, utf16)),
                at + infos_bytes(infos, v2, utf16).len(),
            ),
        ),
    decreases infos.len(),
{
    let views = infos.map_values(|i: WrittenInfo| info_view(i, utf16));
    if infos.len() == 0 {
        assert(views =~= Seq::empty());
    } else {
        let first = info_bytes(infos[0], v2, utf16);
        let rest = infos.drop_first();
        lemma_holds_split(t, at, first, infos_bytes(rest, v2, utf16));
        lemma_read_info(t, at, infos[0], v2, utf16);
        assert forall|i: int| 0 <= i < rest.len() implies info_writable(
            #[trigger] rest[i],
            v2,
            utf16,
        ) by {
            assert(rest[i] == infos[i + 1]);
        }
        lemma_read_infos(t, at + first.len(), rest, v2, utf16);
        let rest_views = rest.map_values(|i: WrittenInfo| info_view(i, utf16));
        assert(seq![info_view(infos[0], utf16)] + rest_views =~= views);
    }
}

/// A key block as it is written: its frame and the entries that the data
/// of the frame was written from.
pub struct WrittenBlock {
    pub frame: Seq<u8>,
    pub entries: Seq<WrittenEntry>,
    /// Whether a zero byte follows the last entry.
    pub padded: bool,
}

/// The data of a key block: its entries end to end and, where the block is
/// padded, one zero byte.
pub open spec fn block_data(block: WrittenBlock, v2: bool, utf16: bool) -> Seq<u8> {
    if block.padded {
        entries_bytes(block.entries, v2, utf16) + seq![0u8]
    } else {
        entries_bytes(block.entries, v2, utf16)
    }
}

/// The first or last headword that the directory names for a list of
/// entries; nothing where there are none.
pub open spec fn bound_word(es: Seq<WrittenEntry>, last: bool) -> Seq<u8> {
    if es.len() == 0 {
        Seq::empty()
    } else if last {
        es.last().word
    } else {
        es.first().word
    }
}

/// The entry of the directory that describes a key block.
pub open spec fn block_info(block: WrittenBlock, v2: bool, utf16: bool) -> WrittenInfo {
    WrittenInfo {
        n_entries: block.entries.len() as u64,
        head: bound_word(block.entries, false),
        tail: bound_word(block.entries, true),
        nb_compressed: block.frame.len() as u64,
        nb_decompressed: block_data(block, v2, utf16).len() as u64,
    }
}

/// Whether a key block is well formed: whether its entries and its
/// directory entry can be written, and its frame decodes, under the
/// ceiling, to its data.
pub open spec fn block_sound(block: WrittenBlock, v2: bool, utf16: bool, limit: usize) -> bool {
    &&& writable(block.entries, v2, utf16)
    &&& block.entries.len() <= u64::MAX
    &&& block.frame.len() <= u64::MAX
    &&& block_data(block, v2, utf16).len() <= u64::MAX
    &&& info_writable(block_info(block, v2, utf16), v2, utf16)
    &&& decoded_block(block.frame, block_data(block, v2, utf16).len() as u64, limit) matches Ok(
        decoded,
    ) && decoded.data == block_data(block, v2, utf16)
}

/// A key block that stores its data as it is, in a raw frame, is well
/// formed, provided that its entries, its counts and its first and last
/// headword can be written and its data is no longer than the ceiling.
pub proof fn lemma_raw_block_is_sound(
    checksum: u32,
    es: Seq<WrittenEntry>,
    padded: bool,
    v2: bool,
    utf16: bool,
    limit: usize,
)
    requires
        writable(es, v2, utf16),
        es.len() <= u64::MAX,
        fits(es.len() as u64, v2),
        entries_bytes(es, v2, utf16).len() + 1 <= limit,
        entries_bytes(es, v2, utf16).len() + 9 <= u64::MAX,
        fits((entries_bytes(es, v2, utf16).len() + 9) as u64, v2),
        bound_writable(bound_word(es, false), v2, utf16),
        bound_writable(bound_word(es, true), v2, utf16),
    ensures
        ({
            let data = if padded {
                entries_bytes(es, v2, utf16) + seq![0u8]
            } else {
                entries_bytes(es, v2, utf16)
            };
            block_sound(
                WrittenBlock {
                    frame: frame_of(ContentBlockType::Raw, checksum, data),
                    entries: es,
                    padded,
                },
                v2,
                utf16,
                limit,
            )
        }),
{
    let data = if padded {
        entries_bytes(es, v2, utf16) + seq![0u8]
    } else {
        entries_bytes(es, v2, utf16)
    };
    lemma_raw_round_trip(checksum, data, limit);
}

/// The frames of a list of key blocks, end to end.
pub open spec fn frames_bytes(blocks: Seq<WrittenBlock>) -> Seq<u8>
    decreases blocks.len(),
{
    if blocks.len() == 0 {
        Seq::empty()
    } else {
        blocks[0].frame + frames_bytes(blocks.drop_first())
    }
}

/// The entries of a list of key blocks, in their order.
pub open spec fn all_entries(blocks: Seq<WrittenBlock>) -> Seq<WrittenEntry>
    decreases blocks.len(),
{
    if blocks.len() == 0 {
        Seq::empty()
    } else {
        blocks[0].entries + all_entries(blocks.drop_first())
    }
}

/// The directory of a list of key blocks.
pub open spec fn blocks_infos(blocks: Seq<WrittenBlock>, v2: bool, utf16: bool) -> Seq<
    WrittenInfo,
> {
    blocks.map_values(|b: WrittenBlock| block_info(b, v2, utf16))
}

/// What the decoder is to make of a list of written entries.
pub open spec fn entry_views(es: Seq<WrittenEntry>, utf16: bool) -> Seq<KeyEntryView> {
    es.map_values(|e: WrittenEntry| entry_view(e, utf16))
}

/// What the decoder is to make of a written directory.
pub open spec fn info_views(infos: Seq<WrittenInfo>, utf16: bool) -> Seq<KeyBlockInfoView> {
    infos.map_values(|i: WrittenInfo| info_view(i, utf16))
}

/// Well-formed key blocks that stand back to back give back, under their
/// directory, the entries that they were written from, block after block,
/// and the reader stops at the end of the last frame.
pub proof fn lemma_read_key_blocks(
    s: Seq<u8>,
    at: int,
    blocks: Seq<WrittenBlock>,
    v2: bool,
    utf16: bool,
    limit: usize,
)
    requires
        holds(s, at, frames_bytes(blocks)),
        forall|k: int| 0 <= k < blocks.len() ==> block_sound(#[trigger] blocks[k], v2, utf16, limit),
    ensures
        key_blocks_from(s, at, info_views(blocks_infos(blocks, v2, utf16), utf16), v2, utf16, limit)
            == Ok::<(Seq<KeyEntryView>, int), ErrorView>(
            (entry_views(all_entries(blocks), utf16), at + frames_bytes(blocks).len()),
        ),
    decreases blocks.len(),
{
    let infos = info_views(blocks_infos(blocks, v2, utf16), utf16);
    if blocks.len() == 0 {
        assert(entry_views(all_entries(blocks), utf16) =~= Seq::empty());
    } else {
        let block = blocks[0];
        let rest = blocks.drop_first();
        let data = block_data(block, v2, utf16);
        let written = entries_bytes(block.entries, v2, utf16);
        assert(block_sound(block, v2, utf16, limit));
        assert(infos[0] == info_view(block_info(block, v2, utf16), utf16));
        lemma_decoded_size(block.frame, data.len() as u64, limit);
        lemma_holds_split(s, at, block.frame, frames_bytes(rest));
        assert(data.subrange(0, written.len() as int) =~= written);
        lemma_read_entries(data, 0, block.entries, v2, utf16);
        assert forall|k: int| 0 <= k < rest.len() implies block_sound(
            #[trigger] rest[k],
            v2,
            utf16,
            limit,
        ) by {
            assert(rest[k] == blocks[k + 1]);
        }
        lemma_read_key_blocks(s, at + block.frame.len(), rest, v2, utf16, limit);
        assert(infos.drop_first() =~= info_views(blocks_infos(rest, v2, utf16), utf16));
        assert(entry_views(block.entries, utf16) + entry_views(all_entries(rest), utf16)
            =~= entry_views(all_entries(blocks), utf16));
    }
}

/// A source that holds a part holds, at the same distance from its
/// start, each little-endian number of four bytes that the part holds.
pub proof fn lemma_le32_in_part(s: Seq<u8>, at: int, part: Seq<u8>, k: int)
    requires
        holds(s, at, part),
        0 <= k,
        k + 4 <= part.len(),
    ensures
        le32(s, at + k) == le32(part, k),
{
    let sub = s.subrange(at, at + part.len());
    assert(s[at + k] == sub[k]);
    assert(s[at + k + 1] == sub[k + 1]);
    assert(s[at + k + 2] == sub[k + 2]);
    assert(s[at + k + 3] == sub[k + 3]);
}

/// Four bytes written lowest first are read back as the number.
pub proof fn lemma_read_le32(s: Seq<u8>, at: int, value: u32)
    requires
        holds(s, at, le_bytes32(value)),
    ensures
        le32(s, at) == value,
{
    lemma_le32_in_part(s, at, le_bytes32(value), 0);
    lemma_le32_of_le_bytes32(value, Seq::empty());
    assert(le_bytes32(value) + Seq::<u8>::empty() =~= le_bytes32(value));
}

/// The bytes of the header of a key index.
#[verifier::opaque]
pub open spec fn key_header_bytes(h: KeyBlockHeader, v2: bool) -> Seq<u8> {
    if v2 {
        number_bytes(h.n_blocks, v2) + (number_bytes(h.n_entries, v2) + (number_bytes(
            h.nb_decompressed->0,
            v2,
        ) + (number_bytes(h.nb_block_info, v2) + (number_bytes(h.nb_blocks, v2) + le_bytes32(
            h.checksum->0,
        )))))
    } else {
        number_bytes(h.n_blocks, v2) + (number_bytes(h.n_entries, v2) + (number_bytes(
            h.nb_block_info,
            v2,
        ) + number_bytes(h.nb_blocks, v2)))
    }
}

/// Whether the header of a key index can be written in the given version.
pub open spec fn key_header_writable(h: KeyBlockHeader, v2: bool) -> bool {
    &&& fits(h.n_blocks, v2)
    &&& fits(h.n_entries, v2)
    &&& fits(h.nb_block_info, v2)
    &&& fits(h.nb_blocks, v2)
    &&& h.nb_decompressed is Some <==> v2
    &&& h.checksum is Some <==> v2
}

/// A written header of a key index is read back as it was.
pub proof fn lemma_read_key_header(s: Seq<u8>, at: int, h: KeyBlockHeader, v2: bool)
    requires
        holds(s, at, key_header_bytes(h, v2)),
        key_header_writable(h, v2),
    ensures
        key_header_bytes(h, v2).len() == key_header_size(v2),
        key_header_at(s, at, v2) == Ok::<KeyBlockHeader, ErrorView>(h),
{
    reveal(key_header_bytes);
    if v2 {
        let a = number_bytes(h.n_blocks, v2);
        let b = number_bytes(h.n_entries, v2);
        let c = number_bytes(h.nb_decompressed->0, v2);
        let d = number_bytes(h.nb_block_info, v2);
        let e = number_bytes(h.nb_blocks, v2);
        let f = le_bytes32(h.checksum->0);
        lemma_holds_split(s, at, a, b + (c + (d + (e + f))));
        lemma_read_number(s, at, h.n_blocks, v2);
        lemma_holds_split(s, at + 8, b, c + (d + (e + f)));
        lemma_read_number(s, at + 8, h.n_entries, v2);
        lemma_holds_split(s, at + 16, c, d + (e + f));
        lemma_read_number(s, at + 16, h.nb_decompressed->0, v2);
        lemma_holds_split(s, at + 24, d, e + f);
        lemma_read_number(s, at + 24, h.nb_block_info, v2);
        lemma_holds_split(s, at + 32, e, f);
        lemma_read_number(s, at + 32, h.nb_blocks, v2);
        lemma_read_le32(s, at + 40, h.checksum->0);
    } else {
        let a = number_bytes(h.n_blocks, v2);
        let b = number_bytes(h.n_entries, v2);
        let d = number_bytes(h.nb_block_info, v2);
        let e = number_bytes(h.nb_blocks, v2);
        lemma_holds_split(s, at, a, b + (d + e));
        lemma_read_number(s, at, h.n_blocks, v2);
        lemma_holds_split(s, at + 4, b, d + e);
        lemma_read_number(s, at + 4, h.n_entries, v2);
        lemma_holds_split(s, at + 8, d, e);
        lemma_read_number(s, at + 8, h.nb_block_info, v2);
        lemma_read_number(s, at + 12, h.nb_blocks, v2);
    }
}

/// Whether a section of the file stands for the plain text `plain` of a
/// directory under the header `h`. In version 1 the section is the plain
/// text. In version 2 it is the sentinel, a checksum, and bytes that,
/// unscrambled with the key of the checksum, inflate to the plain text,
/// whose length the header declares and the ceiling admits.
pub open spec fn section_sound(
    section: Seq<u8>,
    plain: Seq<u8>,
    h: KeyBlockHeader,
    limit: usize,
) -> bool {
    &&& h.nb_block_info == section.len()
    &&& match h.nb_decompressed {
        None => section == plain,
        Some(size) => {
            &&& section.len() >= 8
            &&& le32(section, 0) == INFO_MAGIC
            &&& size == plain.len()
            &&& size <= limit
            &&& zlib_inflated(
                deobfuscated(
                    section.subrange(8, section.len() as int),
                    key_of(le32(section, 4) as u32),
                ),
            ) == Some(plain)
        },
    }
}

/// The section of a version 2 directory: the sentinel, the checksum, and
/// the zlib stream of the directory, scrambled with the key of the
/// checksum.
pub open spec fn scrambled_section(checksum: u32, stream: Seq<u8>) -> Seq<u8> {
    le_bytes32(INFO_MAGIC) + (le_bytes32(checksum) + obfuscated(stream, key_of(checksum)))
}

/// A section that was written by scrambling a zlib stream of the plain
/// text stands for the plain text, provided that the header declares the
/// sizes and the ceiling admits the plain text.
pub proof fn lemma_scrambled_section_is_sound(
    checksum: u32,
    stream: Seq<u8>,
    plain: Seq<u8>,
    h: KeyBlockHeader,
    limit: usize,
)
    requires
        zlib_inflated(stream) == Some(plain),
        plain.len() <= limit,
        h.nb_decompressed == Some(plain.len() as u64),
        h.nb_block_info == scrambled_section(checksum, stream).len(),
    ensures
        section_sound(scrambled_section(checksum, stream), plain, h, limit),
{
    let cipher = obfuscated(stream, key_of(checksum));
    let section = scrambled_section(checksum, stream);
    lemma_le32_of_le_bytes32(INFO_MAGIC, le_bytes32(checksum) + cipher);
    lemma_le32_of_le_bytes32(checksum, cipher);
    let tail = le_bytes32(checksum) + cipher;
    assert(le32(section, 4) == le32(tail, 0)) by {
        assert(section[4] == tail[0]);
        assert(section[5] == tail[1]);
        assert(section[6] == tail[2]);
        assert(section[7] == tail[3]);
    }
    assert(section.subrange(8, section.len() as int) =~= cipher);
    lemma_deobfuscate_obfuscate(stream, key_of(checksum));
}

/// A well-formed section is read back as the plain text of its directory.
pub proof fn lemma_read_directory(
    s: Seq<u8>,
    at: int,
    section: Seq<u8>,
    plain: Seq<u8>,
    h: KeyBlockHeader,
    limit: usize,
)
    requires
        holds(s, at, section),
        section_sound(section, plain, h, limit),
    ensures
        directory_at(s, at, h.nb_block_info, h.nb_decompressed, limit) == Ok::<
            Seq<u8>,
            crate::error::ErrorView,
        >(plain),
{
    match h.nb_decompressed {
        None => {},
        Some(size) => {
            lemma_le32_in_part(s, at, section, 0);
            lemma_le32_in_part(s, at, section, 4);
            assert(s.subrange(at + 8, at + h.nb_block_info) =~= section.subrange(
                8,
                section.len() as int,
            ));
        },
    }
}

/// A key index as it is written: its header, the section that holds its
/// directory, and its blocks.
pub struct WrittenKeyIndex {
    pub header: KeyBlockHeader,
    pub section: Seq<u8>,
    pub blocks: Seq<WrittenBlock>,
}

/// The bytes of a key index.
pub open spec fn key_index_bytes(k: WrittenKeyIndex, v2: bool) -> Seq<u8> {
    key_header_bytes(k.header, v2) + (k.section + frames_bytes(k.blocks))
}

/// Whether a key index is well formed: whether its header can be written
/// and counts its blocks, its section stands for the directory of its
/// blocks, and each of its blocks is well formed.
pub open spec fn key_index_sound(k: WrittenKeyIndex, v2: bool, utf16: bool, limit: usize) -> bool {
    &&& key_header_writable(k.header, v2)
    &&& k.header.n_blocks == k.blocks.len()
    &&& section_sound(
        k.section,
        infos_bytes(blocks_infos(k.blocks, v2, utf16), v2, utf16),
        k.header,
        limit,
    )
    &&& forall|i: int| 0 <= i < k.blocks.len() ==> block_sound(#[trigger] k.blocks[i], v2, utf16, limit)
}

/// What the decoder is to make of a written key index.
pub open spec fn key_index_view(k: WrittenKeyIndex, v2: bool, utf16: bool) -> KeyIndexView {
    KeyIndexView {
        header: k.header,
        infos: info_views(blocks_infos(k.blocks, v2, utf16), utf16),
        entries: entry_views(all_entries(k.blocks), utf16),
    }
}

/// A well-formed key index is read back as it was written, and the reader
/// stops at its end.
pub proof fn lemma_read_key_index(
    s: Seq<u8>,
    at: int,
    k: WrittenKeyIndex,
    v2: bool,
    utf16: bool,
    limit: usize,
)
    requires
        holds(s, at, key_index_bytes(k, v2)),
        key_index_sound(k, v2, utf16, limit),
    ensures
        key_block_at(s, at, v2, utf16, limit) == Ok::<(KeyIndexView, int), ErrorView>(
            (key_index_view(k, v2, utf16), at + key_index_bytes(k, v2).len()),
        ),
{
    let head = key_header_bytes(k.header, v2);
    let infos = blocks_infos(k.blocks, v2, utf16);
    let plain = infos_bytes(infos, v2, utf16);
    lemma_holds_split(s, at, head, k.section + frames_bytes(k.blocks));
    lemma_read_key_header(s, at, k.header, v2);
    let section_at = at + key_header_size(v2);
    lemma_holds_split(s, section_at, k.section, frames_bytes(k.blocks));
    lemma_read_directory(s, section_at, k.section, plain, k.header, limit);
    assert(plain.subrange(0, plain.len() as int) =~= plain);
    assert forall|i: int| 0 <= i < infos.len() implies info_writable(
        #[trigger] infos[i],
        v2,
        utf16,
    ) by {
        assert(block_sound(k.blocks[i], v2, utf16, limit));
    }
    lemma_read_infos(plain, 0, infos, v2, utf16);
    lemma_read_key_blocks(s, section_at + k.section.len(), k.blocks, v2, utf16, limit);
}

} // verus!

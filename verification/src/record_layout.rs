//! How a well-formed dictionary writes its record index, and what the
//! decoder makes of a record index so written.

use crate::bytes::number_width;
use crate::codec::decoded_block;
use crate::codec::frame_of;
use crate::codec::lemma_decoded_size;
use crate::codec::lemma_raw_round_trip;
use crate::codec::ContentBlockType;
use crate::error::ErrorView;
use crate::layout::fits;
use crate::layout::holds;
use crate::layout::lemma_holds_split;
use crate::layout::lemma_read_number;
use crate::layout::number_bytes;
use crate::record_index::record_block_at;
use crate::record_index::record_blocks_from;
use crate::record_index::record_header_at;
use crate::record_index::record_info_at;
use crate::record_index::record_infos_from;
use crate::record_index::RecordBlockHeader;
use crate::record_index::RecordBlockInfo;
use crate::record_index::RecordIndexView;
use vstd::prelude::*;

verus! {

/// The bytes of an entry of the directory of record blocks.
#[verifier::opaque]
pub open spec fn record_info_bytes(info: RecordBlockInfo, v2: bool) -> Seq<u8> {
    number_bytes(info.nb_compressed, v2) + number_bytes(info.nb_decompressed, v2)
}

/// Whether an entry of the directory can be written in the given version.
pub open spec fn record_info_writable(info: RecordBlockInfo, v2: bool) -> bool {
    fits(info.nb_compressed, v2) && fits(info.nb_decompressed, v2)
}

/// A written entry of the directory is read back as it was.
pub proof fn lemma_read_record_info(s: Seq<u8>, at: int, info: RecordBlockInfo, v2: bool)
    requires
        holds(s, at, record_info_bytes(info, v2)),
        record_info_writable(info, v2),
    ensures
        record_info_bytes(info, v2).len() == 2 * number_width(v2),
        record_info_at(s, at, v2) == Ok::<RecordBlockInfo, ErrorView>(info),
{
    reveal(record_info_bytes);
    lemma_holds_split(
        s,
        at,
        number_bytes(info.nb_compressed, v2),
        number_bytes(info.nb_decompressed, v2),
    );
    lemma_read_number(s, at, info.nb_compressed, v2);
    lemma_read_number(s, at + number_width(v2), info.nb_decompressed, v2);
}

/// The bytes of a directory of record blocks: its entries end to end.
pub open spec fn record_infos_bytes(infos: Seq<RecordBlockInfo>, v2: bool) -> Seq<u8>
    decreases infos.len(),
{
    if infos.len() == 0 {
        Seq::empty()
    } else {
        record_info_bytes(infos[0], v2) + record_infos_bytes(infos.drop_first(), v2)
    }
}

/// A directory that was written from a list of entries gives exactly those
/// entries back, and the reader stops at its end.
pub proof fn lemma_read_record_infos(s: Seq<u8>, at: int, infos: Seq<RecordBlockInfo>, v2: bool)
    requires
        holds(s, at, record_infos_bytes(infos, v2)),
        forall|i: int| 0 <= i < infos.len() ==> record_info_writable(#[trigger] infos[i], v2),
    ensures
        record_infos_from(s, at, infos.len(), v2) == Ok::<(Seq<RecordBlockInfo>, int), ErrorView>(
            (infos, at + record_infos_bytes(infos, v2).len()),
        ),
    decreases infos.len(),
{
    if infos.len() > 0 {
        let first = record_info_bytes(infos[0], v2);
        let rest = infos.drop_first();
        lemma_holds_split(s, at, first, record_infos_bytes(rest, v2));
        lemma_read_record_info(s, at, infos[0], v2);
        assert forall|i: int| 0 <= i < rest.len() implies record_info_writable(
            #[trigger] rest[i],
            v2,
        ) by {
            assert(rest[i] == infos[i + 1]);
        }
        lemma_read_record_infos(s, at + first.len(), rest, v2);
        assert(seq![infos[0]] + rest =~= infos);
    } else {
        assert(infos =~= Seq::empty());
    }
}

/// A record block as it is written: its frame and the data that the frame
/// holds.
pub struct WrittenRecordBlock {
    pub frame: Seq<u8>,
    pub data: Seq<u8>,
}

/// The entry of the directory that describes a record block.
pub open spec fn record_info(block: WrittenRecordBlock) -> RecordBlockInfo {
    RecordBlockInfo {
        nb_compressed: block.frame.len() as u64,
        nb_decompressed: block.data.len() as u64,
    }
}

/// Whether a record block is well formed: whether its sizes can be
/// written and its frame decodes, under the ceiling, to its data.
pub open spec fn record_block_sound(block: WrittenRecordBlock, v2: bool, limit: usize) -> bool {
    &&& block.frame.len() <= u64::MAX
    &&& block.data.len() <= u64::MAX
    &&& record_info_writable(record_info(block), v2)
    &&& decoded_block(block.frame, block.data.len() as u64, limit) matches Ok(decoded)
        && decoded.data == block.data
}

/// A record block that stores its data as it is, in a raw frame, is well
/// formed, provided that its sizes can be written and its data is no
/// longer than the ceiling.
pub proof fn lemma_raw_record_block_is_sound(checksum: u32, data: Seq<u8>, v2: bool, limit: usize)
    requires
        data.len() <= limit,
        data.len() + 8 <= u64::MAX,
        fits((data.len() + 8) as u64, v2),
    ensures
        record_block_sound(
            WrittenRecordBlock { frame: frame_of(ContentBlockType::Raw, checksum, data), data },
            v2,
            limit,
        ),
{
    lemma_raw_round_trip(checksum, data, limit);
}

/// The frames of a list of record blocks, end to end.
pub open spec fn record_frames_bytes(blocks: Seq<WrittenRecordBlock>) -> Seq<u8>
    decreases blocks.len(),
{
    if blocks.len() == 0 {
        Seq::empty()
    } else {
        blocks[0].frame + record_frames_bytes(blocks.drop_first())
    }
}

/// The data of a list of record blocks, end to end.
pub open spec fn record_space(blocks: Seq<WrittenRecordBlock>) -> Seq<u8>
    decreases blocks.len(),
{
    if blocks.len() == 0 {
        Seq::empty()
    } else {
        blocks[0].data + record_space(blocks.drop_first())
    }
}

/// The directory of a list of record blocks.
pub open spec fn record_infos(blocks: Seq<WrittenRecordBlock>) -> Seq<RecordBlockInfo> {
    blocks.map_values(|b: WrittenRecordBlock| record_info(b))
}

/// Well-formed record blocks that stand back to back give back, under
/// their directory, their data end to end, and the reader stops at the end
/// of the last frame.
pub proof fn lemma_read_record_blocks(
    s: Seq<u8>,
    at: int,
    blocks: Seq<WrittenRecordBlock>,
    v2: bool,
    limit: usize,
)
    requires
        holds(s, at, record_frames_bytes(blocks)),
        forall|k: int|
            0 <= k < blocks.len() ==> record_block_sound(#[trigger] blocks[k], v2, limit),
    ensures
        record_blocks_from(s, at, record_infos(blocks), limit) == Ok::<(Seq<u8>, int), ErrorView>(
            (record_space(blocks), at + record_frames_bytes(blocks).len()),
        ),
    decreases blocks.len(),
{
    let infos = record_infos(blocks);
    if blocks.len() > 0 {
        let block = blocks[0];
        let rest = blocks.drop_first();
        assert(record_block_sound(block, v2, limit));
        assert(infos[0] == record_info(block));
        lemma_decoded_size(block.frame, block.data.len() as u64, limit);
        lemma_holds_split(s, at, block.frame, record_frames_bytes(rest));
        assert forall|k: int| 0 <= k < rest.len() implies record_block_sound(
            #[trigger] rest[k],
            v2,
            limit,
        ) by {
            assert(rest[k] == blocks[k + 1]);
        }
        lemma_read_record_blocks(s, at + block.frame.len(), rest, v2, limit);
        assert(infos.drop_first() =~= record_infos(rest));
    }
}

/// The bytes of the header of a record index.
#[verifier::opaque]
pub open spec fn record_header_bytes(h: RecordBlockHeader, v2: bool) -> Seq<u8> {
    number_bytes(h.n_blocks, v2) + (number_bytes(h.n_entries, v2) + (number_bytes(h.nb_info, v2)
        + number_bytes(h.nb_blocks, v2)))
}

/// Whether the header of a record index can be written in the given
/// version.
pub open spec fn record_header_writable(h: RecordBlockHeader, v2: bool) -> bool {
    &&& fits(h.n_blocks, v2)
    &&& fits(h.n_entries, v2)
    &&& fits(h.nb_info, v2)
    &&& fits(h.nb_blocks, v2)
}

/// A written header of a record index is read back as it was.
pub proof fn lemma_read_record_header(s: Seq<u8>, at: int, h: RecordBlockHeader, v2: bool)
    requires
        holds(s, at, record_header_bytes(h, v2)),
        record_header_writable(h, v2),
    ensures
        record_header_bytes(h, v2).len() == 4 * number_width(v2),
        record_header_at(s, at, v2) == Ok::<RecordBlockHeader, ErrorView>(h),
{
    reveal(record_header_bytes);
    let nw = number_width(v2);
    let a = number_bytes(h.n_blocks, v2);
    let b = number_bytes(h.n_entries, v2);
    let c = number_bytes(h.nb_info, v2);
    let d = number_bytes(h.nb_blocks, v2);
    lemma_holds_split(s, at, a, b + (c + d));
    lemma_read_number(s, at, h.n_blocks, v2);
    lemma_holds_split(s, at + nw, b, c + d);
    lemma_read_number(s, at + nw, h.n_entries, v2);
    lemma_holds_split(s, at + 2 * nw, c, d);
    lemma_read_number(s, at + 2 * nw, h.nb_info, v2);
    lemma_read_number(s, at + 3 * nw, h.nb_blocks, v2);
}

/// A record index as it is written: its header and its blocks.
pub struct WrittenRecordIndex {
    pub header: RecordBlockHeader,
    pub blocks: Seq<WrittenRecordBlock>,
}

/// The bytes of a record index: the header, the directory and the frames.
pub open spec fn record_index_bytes(r: WrittenRecordIndex, v2: bool) -> Seq<u8> {
    record_header_bytes(r.header, v2) + (record_infos_bytes(record_infos(r.blocks), v2)
        + record_frames_bytes(r.blocks))
}

/// Whether a record index is well formed: whether its header can be
/// written and counts its blocks, and each of its blocks is well formed.
pub open spec fn record_index_sound(r: WrittenRecordIndex, v2: bool, limit: usize) -> bool {
    &&& record_header_writable(r.header, v2)
    &&& r.header.n_blocks == r.blocks.len()
    &&& forall|i: int|
        0 <= i < r.blocks.len() ==> record_block_sound(#[trigger] r.blocks[i], v2, limit)
}

/// What the decoder is to make of a written record index.
pub open spec fn record_index_view(r: WrittenRecordIndex) -> RecordIndexView {
    RecordIndexView {
        header: r.header,
        infos: record_infos(r.blocks),
        space: record_space(r.blocks),
    }
}

/// A well-formed record index is read back as it was written, and the
/// reader stops at its end.
pub proof fn lemma_read_record_index(s: Seq<u8>, at: int, r: WrittenRecordIndex, v2: bool, limit: usize)
    requires
        holds(s, at, record_index_bytes(r, v2)),
        record_index_sound(r, v2, limit),
    ensures
        record_block_at(s, at, v2, limit) == Ok::<(RecordIndexView, int), ErrorView>(
            (record_index_view(r), at + record_index_bytes(r, v2).len()),
        ),
{
    let head = record_header_bytes(r.header, v2);
    let infos = record_infos(r.blocks);
    let directory = record_infos_bytes(infos, v2);
    lemma_holds_split(s, at, head, directory + record_frames_bytes(r.blocks));
    lemma_read_record_header(s, at, r.header, v2);
    let directory_start = at + 4 * number_width(v2);
    lemma_holds_split(s, directory_start, directory, record_frames_bytes(r.blocks));
    assert forall|i: int| 0 <= i < infos.len() implies record_info_writable(
        #[trigger] infos[i],
        v2,
    ) by {
        assert(record_block_sound(r.blocks[i], v2, limit));
    }
    lemma_read_record_infos(s, directory_start, infos, v2);
    lemma_read_record_blocks(s, directory_start + directory.len(), r.blocks, v2, limit);
}

} // verus!

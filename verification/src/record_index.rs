//! The record index: a header, a directory of record blocks, and the
//! record blocks themselves, whose data, laid end to end, is the record
//! space that the offsets of the key index point into.

use crate::bytes::after;
use crate::bytes::has_bytes;
use crate::bytes::in_bounds;
use crate::bytes::lemma_len_fits;
use crate::bytes::number_at;
use crate::bytes::number_width;
use crate::bytes::read_number;
use crate::bytes::Parsed;
use crate::codec::block_at;
use crate::codec::content_block;
use crate::codec::lemma_decoded_size;
use crate::error::Error;
use crate::error::ErrorView;
use vstd::prelude::*;

verus! {

/// The header of the record index.
#[derive(Clone, Copy, Debug, PartialEq, Eq)]
pub struct RecordBlockHeader {
    /// The number of record blocks.
    pub n_blocks: u64,
    /// The number of articles in all record blocks.
    pub n_entries: u64,
    /// The size of the directory.
    pub nb_info: u64,
    /// The size of all record blocks as the file holds them.
    pub nb_blocks: u64,
}

/// What the directory says of one record block.
#[derive(Clone, Copy, Debug, PartialEq, Eq)]
pub struct RecordBlockInfo {
    /// The size of the block's frame, type tag and checksum included.
    pub nb_compressed: u64,
    /// The size of the block's data.
    pub nb_decompressed: u64,
}

impl RecordBlockHeader {
    /// Whether the declared size of the directory is that of `n_blocks`
    /// pairs of numbers.
    pub open spec fn directory_size_agrees(self, v2: bool) -> bool {
        self.nb_info == self.n_blocks * 2 * number_width(v2)
    }

    /// Tells whether the declared size of the directory is that of
    /// `n_blocks` pairs of numbers.
    pub fn check_directory_size(&self, v2: bool) -> (r: bool)
        ensures
            r == self.directory_size_agrees(v2),
    {
        let width: u128 = if v2 {
            8
        } else {
            4
        };
        self.nb_info as u128 == self.n_blocks as u128 * 2 * width
    }
}

/// The header of the record index at `at`: the number of blocks, the
/// number of entries, the size of the directory and the size of the blocks.
pub open spec fn record_header_at(s: Seq<u8>, at: int, v2: bool) -> Result<
    RecordBlockHeader,
    ErrorView,
> {
    let nw = number_width(v2);
    if !in_bounds(s.len() as int, at, 4 * nw) {
        Err(ErrorView::Truncated)
    } else {
        Ok(
            RecordBlockHeader {
                n_blocks: number_at(s, at, v2) as u64,
                n_entries: number_at(s, at + nw, v2) as u64,
                nb_info: number_at(s, at + 2 * nw, v2) as u64,
                nb_blocks: number_at(s, at + 3 * nw, v2) as u64,
            },
        )
    }
}

/// Reads the header of the record index at `pos`.
pub fn read_record_header(data: &[u8], pos: usize, v2: bool) -> (r: Result<
    RecordBlockHeader,
    Error,
>)
    ensures
        match r {
            Ok(header) => record_header_at(data@, pos as int, v2) == Ok::<
                RecordBlockHeader,
                ErrorView,
            >(header),
            Err(e) => record_header_at(data@, pos as int, v2) == Err::<
                RecordBlockHeader,
                ErrorView,
            >(e@),
        },
{
    let nw: usize = if v2 {
        8
    } else {
        4
    };
    if !has_bytes(data, pos, 4 * nw) {
        return Err(Error::Truncated);
    }
    let n_blocks: u64 = read_number(data, pos, v2)?;
    let n_entries: u64 = read_number(data, pos + nw, v2)?;
    let nb_info: u64 = read_number(data, pos + 2 * nw, v2)?;
    let nb_blocks: u64 = read_number(data, pos + 3 * nw, v2)?;
    Ok(RecordBlockHeader { n_blocks, n_entries, nb_info, nb_blocks })
}

/// The entry of the directory at `at`: the size of the frame and the size
/// of the data.
pub open spec fn record_info_at(s: Seq<u8>, at: int, v2: bool) -> Result<
    RecordBlockInfo,
    ErrorView,
> {
    let nw = number_width(v2);
    if !in_bounds(s.len() as int, at, 2 * nw) {
        Err(ErrorView::Truncated)
    } else {
        Ok(
            RecordBlockInfo {
                nb_compressed: number_at(s, at, v2) as u64,
                nb_decompressed: number_at(s, at + nw, v2) as u64,
            },
        )
    }
}

/// The `count` entries of the directory from `at` on.
pub open spec fn record_infos_from(s: Seq<u8>, at: int, count: nat, v2: bool) -> Parsed<
    RecordBlockInfo,
>
    decreases count,
{
    if count == 0 {
        Ok((Seq::empty(), at))
    } else {
        match record_info_at(s, at, v2) {
            Err(e) => Err(e),
            Ok(info) => after(
                seq![info],
                record_infos_from(s, at + 2 * number_width(v2), (count - 1) as nat, v2),
            ),
        }
    }
}

/// Reads `count` entries of the directory from `pos` on.
pub fn read_record_infos(data: &[u8], pos: usize, count: u64, v2: bool) -> (r: Result<
    (Vec<RecordBlockInfo>, usize),
    Error,
>)
    ensures
        match r {
            Ok((infos, next)) => record_infos_from(data@, pos as int, count as nat, v2) == Ok::<
                (Seq<RecordBlockInfo>, int),
                ErrorView,
            >((infos@, next as int)),
            Err(e) => record_infos_from(data@, pos as int, count as nat, v2) == Err::<
                (Seq<RecordBlockInfo>, int),
                ErrorView,
            >(e@),
        },
{
    let ghost whole = record_infos_from(data@, pos as int, count as nat, v2);
    let nw: usize = if v2 {
        8
    } else {
        4
    };
    let mut infos: Vec<RecordBlockInfo> = Vec::new();
    let mut at: usize = pos;
    let mut i: u64 = 0;
    assert(Seq::<RecordBlockInfo>::empty() + Seq::<RecordBlockInfo>::empty() =~= Seq::empty());
    while i < count
        invariant
            i <= count,
            nw == number_width(v2),
            whole == record_infos_from(data@, pos as int, count as nat, v2),
            whole == after(infos@, record_infos_from(data@, at as int, (count - i) as nat, v2)),
        decreases count - i,
    {
        let ghost before = infos@;
        if !has_bytes(data, at, 2 * nw) {
            return Err(Error::Truncated);
        }
        let nb_compressed: u64 = read_number(data, at, v2)?;
        let nb_decompressed: u64 = read_number(data, at + nw, v2)?;
        let info = RecordBlockInfo { nb_compressed, nb_decompressed };
        proof {
            let rest = record_infos_from(data@, at + 2 * nw, (count - i - 1) as nat, v2);
            match rest {
                Ok((items, end)) => {
                    assert(before + (seq![info] + items) =~= before.push(info) + items);
                },
                Err(e) => {},
            }
        }
        infos.push(info);
        at = at + 2 * nw;
        i += 1;
    }
    assert(infos@ + Seq::<RecordBlockInfo>::empty() =~= infos@);
    Ok((infos, at))
}

/// The data of the record blocks that stand back to back from `at` on, one
/// block for each entry of the directory, laid end to end, and the position
/// after the last block.
pub open spec fn record_blocks_from(
    s: Seq<u8>,
    at: int,
    infos: Seq<RecordBlockInfo>,
    limit: usize,
) -> Parsed<u8>
    decreases infos.len(),
{
    if infos.len() == 0 {
        Ok((Seq::empty(), at))
    } else {
        match block_at(s, at, infos[0].nb_compressed, infos[0].nb_decompressed, limit) {
            Err(e) => Err(e),
            Ok(block) => after(
                block.data,
                record_blocks_from(s, at + infos[0].nb_compressed, infos.drop_first(), limit),
            ),
        }
    }
}

/// Reads the record blocks that stand back to back from `pos` on and lays
/// their data end to end.
pub fn read_record_blocks(data: &[u8], pos: usize, infos: &Vec<RecordBlockInfo>, limit: usize) -> (r:
    Result<(Vec<u8>, usize), Error>)
    ensures
        match r {
            Ok((space, next)) => record_blocks_from(data@, pos as int, infos@, limit) == Ok::<
                (Seq<u8>, int),
                ErrorView,
            >((space@, next as int)),
            Err(e) => record_blocks_from(data@, pos as int, infos@, limit) == Err::<
                (Seq<u8>, int),
                ErrorView,
            >(e@),
        },
{
    let ghost whole = record_blocks_from(data@, pos as int, infos@, limit);
    proof {
        lemma_len_fits(data);
    }
    let mut space: Vec<u8> = Vec::new();
    let mut at: usize = pos;
    let mut k: usize = 0;
    assert(infos@.skip(0) =~= infos@);
    assert(Seq::<u8>::empty() + Seq::<u8>::empty() =~= Seq::empty());
    while k < infos.len()
        invariant
            k <= infos@.len(),
            data@.len() <= usize::MAX,
            whole == record_blocks_from(data@, pos as int, infos@, limit),
            whole == after(
                space@,
                record_blocks_from(data@, at as int, infos@.skip(k as int), limit),
            ),
        decreases infos@.len() - k,
    {
        let ghost before = space@;
        let ghost pending = infos@.skip(k as int);
        let info = infos[k];
        assert(pending[0] == info);
        assert(pending.drop_first() =~= infos@.skip(k + 1));
        let mut block = content_block(data, at, info.nb_compressed, info.nb_decompressed, limit)?;
        proof {
            let rest = record_blocks_from(data@, at + info.nb_compressed, pending.drop_first(), limit);
            match rest {
                Ok((items, end)) => {
                    assert(before + (block.data@ + items) =~= (before + block.data@) + items);
                },
                Err(e) => {},
            }
        }
        space.append(&mut block.data);
        at = at + info.nb_compressed as usize;
        k += 1;
    }
    assert(space@ + Seq::<u8>::empty() =~= space@);
    Ok((space, at))
}

/// The record index of a dictionary.
#[derive(Debug, PartialEq, Eq)]
pub struct RecordIndex {
    /// The header of the index.
    pub header: RecordBlockHeader,
    /// The directory of record blocks.
    pub infos: Vec<RecordBlockInfo>,
    /// The data of all record blocks, laid end to end.
    pub space: Vec<u8>,
}

/// The mathematical value of a [`RecordIndex`].
pub struct RecordIndexView {
    pub header: RecordBlockHeader,
    pub infos: Seq<RecordBlockInfo>,
    pub space: Seq<u8>,
}

impl View for RecordIndex {
    type V = RecordIndexView;

    open spec fn view(&self) -> RecordIndexView {
        RecordIndexView { header: self.header, infos: self.infos@, space: self.space@ }
    }
}

/// The record index that stands at `at` and the position after it.
pub open spec fn record_block_at(s: Seq<u8>, at: int, v2: bool, limit: usize) -> Result<
    (RecordIndexView, int),
    ErrorView,
> {
    match record_header_at(s, at, v2) {
        Err(e) => Err(e),
        Ok(header) => match record_infos_from(
            s,
            at + 4 * number_width(v2),
            header.n_blocks as nat,
            v2,
        ) {
            Err(e) => Err(e),
            Ok((infos, blocks_at)) => match record_blocks_from(s, blocks_at, infos, limit) {
                Err(e) => Err(e),
                Ok((space, end)) => Ok((RecordIndexView { header, infos, space }, end)),
            },
        },
    }
}

/// Reads the record index that stands at `pos` and returns it with the
/// position after it.
pub fn record_block(data: &[u8], pos: usize, v2: bool, limit: usize) -> (r: Result<
    (RecordIndex, usize),
    Error,
>)
    ensures
        match r {
            Ok((index, next)) => record_block_at(data@, pos as int, v2, limit) == Ok::<
                (RecordIndexView, int),
                ErrorView,
            >((index@, next as int)),
            Err(e) => record_block_at(data@, pos as int, v2, limit) == Err::<
                (RecordIndexView, int),
                ErrorView,
            >(e@),
        },
{
    proof {
        lemma_len_fits(data);
    }
    let nw: usize = if v2 {
        8
    } else {
        4
    };
    let header = read_record_header(data, pos, v2)?;
    let (infos, blocks_at) = read_record_infos(data, pos + 4 * nw, header.n_blocks, v2)?;
    let (space, end) = read_record_blocks(data, blocks_at, &infos, limit)?;
    Ok((RecordIndex { header, infos, space }, end))
}

/// The sum of the data sizes that a directory declares.
pub open spec fn total_decompressed(infos: Seq<RecordBlockInfo>) -> nat
    decreases infos.len(),
{
    if infos.len() == 0 {
        0
    } else {
        infos[0].nb_decompressed as nat + total_decompressed(infos.drop_first())
    }
}

/// The record space is as long as its directory declares in all, and the
/// directory has as many entries as were asked for.
pub proof fn lemma_record_space_len(s: Seq<u8>, at: int, infos: Seq<RecordBlockInfo>, limit: usize)
    ensures
        record_blocks_from(s, at, infos, limit) matches Ok((space, end)) ==> space.len()
            == total_decompressed(infos),
    decreases infos.len(),
{
    if infos.len() > 0 {
        lemma_decoded_size(
            s.subrange(at, at + infos[0].nb_compressed),
            infos[0].nb_decompressed,
            limit,
        );
        lemma_record_space_len(s, at + infos[0].nb_compressed, infos.drop_first(), limit);
    }
}

/// The record blocks end inside the source when they start inside it.
pub proof fn lemma_record_blocks_end(s: Seq<u8>, at: int, infos: Seq<RecordBlockInfo>, limit: usize)
    requires
        0 <= at <= s.len(),
    ensures
        record_blocks_from(s, at, infos, limit) matches Ok((space, end)) ==> at <= end <= s.len(),
    decreases infos.len(),
{
    if infos.len() > 0 {
        match block_at(s, at, infos[0].nb_compressed, infos[0].nb_decompressed, limit) {
            Ok(block) => {
                lemma_record_blocks_end(s, at + infos[0].nb_compressed, infos.drop_first(), limit);
            },
            Err(e) => {},
        }
    }
}

/// The directory of record blocks ends inside the source when it starts
/// inside it.
pub proof fn lemma_record_infos_end(s: Seq<u8>, at: int, count: nat, v2: bool)
    requires
        0 <= at <= s.len(),
    ensures
        record_infos_from(s, at, count, v2) matches Ok((infos, end)) ==> at <= end <= s.len()
            && infos.len() == count,
    decreases count,
{
    if count > 0 {
        match record_info_at(s, at, v2) {
            Ok(info) => {
                lemma_record_infos_end(s, at + 2 * number_width(v2), (count - 1) as nat, v2);
            },
            Err(e) => {},
        }
    }
}

/// The record index ends inside the source.
pub proof fn lemma_record_block_end(s: Seq<u8>, at: int, v2: bool, limit: usize)
    ensures
        record_block_at(s, at, v2, limit) matches Ok((index, end)) ==> at <= end <= s.len(),
{
    match record_header_at(s, at, v2) {
        Ok(header) => {
            lemma_record_infos_end(s, at + 4 * number_width(v2), header.n_blocks as nat, v2);
            match record_infos_from(s, at + 4 * number_width(v2), header.n_blocks as nat, v2) {
                Ok((infos, blocks_at)) => {
                    lemma_record_blocks_end(s, blocks_at, infos, limit);
                },
                Err(e) => {},
            }
        },
        Err(e) => {},
    }
}

/// A record index has as many directory entries as its header declares
/// blocks, and a record space as long as its directory declares in all.
pub proof fn lemma_record_block_counts(s: Seq<u8>, at: int, v2: bool, limit: usize)
    ensures
        record_block_at(s, at, v2, limit) matches Ok((index, end)) ==> index.infos.len()
            == index.header.n_blocks && index.space.len() == total_decompressed(index.infos),
{
    match record_header_at(s, at, v2) {
        Ok(header) => {
            let directory_start = at + 4 * number_width(v2);
            lemma_record_infos_end(s, directory_start, header.n_blocks as nat, v2);
            match record_infos_from(s, directory_start, header.n_blocks as nat, v2) {
                Ok((infos, blocks_at)) => {
                    lemma_record_space_len(s, blocks_at, infos, limit);
                },
                Err(e) => {},
            }
        },
        Err(e) => {},
    }
}

} // verus!

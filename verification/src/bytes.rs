//! Reading integers and byte runs out of a byte slice.

use crate::error::Error;
use crate::error::ErrorView;
use vstd::prelude::*;
use vstd::slice::slice_subrange;
use vstd::slice::spec_slice_len;

verus! {

/// The two bytes of `s` from `at` on, read as a big-endian number.
pub open spec fn be16(s: Seq<u8>, at: int) -> int {
    s[at] as int * 0x100 + s[at + 1] as int
}

/// The four bytes of `s` from `at` on, read as a big-endian number.
pub open spec fn be32(s: Seq<u8>, at: int) -> int {
    s[at] as int * 0x100_0000 + s[at + 1] as int * 0x1_0000 + s[at + 2] as int * 0x100 + s[at
        + 3] as int
}

/// The eight bytes of `s` from `at` on, read as a big-endian number.
pub open spec fn be64(s: Seq<u8>, at: int) -> int {
    be32(s, at) * 0x1_0000_0000 + be32(s, at + 4)
}

/// The two bytes of `s` from `at` on, read as a little-endian number.
pub open spec fn le16(s: Seq<u8>, at: int) -> int {
    s[at] as int + s[at + 1] as int * 0x100
}

/// The four bytes of `s` from `at` on, read as a little-endian number.
pub open spec fn le32(s: Seq<u8>, at: int) -> int {
    s[at] as int + s[at + 1] as int * 0x100 + s[at + 2] as int * 0x1_0000 + s[at + 3] as int
        * 0x100_0000
}

/// The eight bytes of `s` from `at` on, read as a little-endian number.
pub open spec fn le64(s: Seq<u8>, at: int) -> int {
    le32(s, at) + le32(s, at + 4) * 0x1_0000_0000
}

/// The four bytes of `value`, lowest first.
pub open spec fn le_bytes32(value: u32) -> Seq<u8> {
    seq![
        (value % 0x100) as u8,
        (value / 0x100 % 0x100) as u8,
        (value / 0x1_0000 % 0x100) as u8,
        (value / 0x100_0000) as u8,
    ]
}

/// The four bytes of a number, lowest first, read as a little-endian
/// number, give the number back.
pub proof fn lemma_le32_of_le_bytes32(value: u32, rest: Seq<u8>)
    ensures
        le32(le_bytes32(value) + rest, 0) == value,
{
    let s = le_bytes32(value) + rest;
    assert(s[0] == le_bytes32(value)[0]);
    assert(s[1] == le_bytes32(value)[1]);
    assert(s[2] == le_bytes32(value)[2]);
    assert(s[3] == le_bytes32(value)[3]);
}

/// Whether `n` bytes can be read from a source of `len` bytes at `at`.
pub open spec fn in_bounds(len: int, at: int, n: int) -> bool {
    0 <= at && 0 <= n && at + n <= len
}

/// The length of a slice is a `usize`.
pub proof fn lemma_len_fits(data: &[u8])
    ensures
        data@.len() <= usize::MAX,
{
    broadcast use vstd::slice::group_slice_axioms;

    assert(spec_slice_len(data) == data@.len());
}

/// Tells whether `n` bytes can be read at `pos`.
pub fn has_bytes(data: &[u8], pos: usize, n: usize) -> (r: bool)
    ensures
        r == in_bounds(data@.len() as int, pos as int, n as int),
        r ==> pos + n <= usize::MAX,
{
    pos <= data.len() && n <= data.len() - pos
}

/// Reads the byte at `pos`.
pub fn read_u8(data: &[u8], pos: usize) -> (r: Result<u8, Error>)
    ensures
        match r {
            Ok(v) => pos < data@.len() && v == data@[pos as int],
            Err(e) => pos >= data@.len() && e@ == ErrorView::Truncated,
        },
{
    if pos < data.len() {
        Ok(data[pos])
    } else {
        Err(Error::Truncated)
    }
}

/// Reads a big-endian `u16` at `pos`.
pub fn read_u16_be(data: &[u8], pos: usize) -> (r: Result<u16, Error>)
    ensures
        match r {
            Ok(v) => in_bounds(data@.len() as int, pos as int, 2) && v == be16(data@, pos as int),
            Err(e) => !in_bounds(data@.len() as int, pos as int, 2) && e@ == ErrorView::Truncated,
        },
{
    if !has_bytes(data, pos, 2) {
        return Err(Error::Truncated);
    }
    let hi: u16 = data[pos] as u16;
    let lo: u16 = data[pos + 1] as u16;
    Ok(hi * 0x100 + lo)
}

/// Reads a little-endian `u16` at `pos`.
pub fn read_u16_le(data: &[u8], pos: usize) -> (r: Result<u16, Error>)
    ensures
        match r {
            Ok(v) => in_bounds(data@.len() as int, pos as int, 2) && v == le16(data@, pos as int),
            Err(e) => !in_bounds(data@.len() as int, pos as int, 2) && e@ == ErrorView::Truncated,
        },
{
    if !has_bytes(data, pos, 2) {
        return Err(Error::Truncated);
    }
    let lo: u16 = data[pos] as u16;
    let hi: u16 = data[pos + 1] as u16;
    Ok(hi * 0x100 + lo)
}

/// Reads a big-endian `u32` at `pos`.
pub fn read_u32_be(data: &[u8], pos: usize) -> (r: Result<u32, Error>)
    ensures
        match r {
            Ok(v) => in_bounds(data@.len() as int, pos as int, 4) && v == be32(data@, pos as int),
            Err(e) => !in_bounds(data@.len() as int, pos as int, 4) && e@ == ErrorView::Truncated,
        },
{
    if !has_bytes(data, pos, 4) {
        return Err(Error::Truncated);
    }
    let b0: u32 = data[pos] as u32;
    let b1: u32 = data[pos + 1] as u32;
    let b2: u32 = data[pos + 2] as u32;
    let b3: u32 = data[pos + 3] as u32;
    Ok(b0 * 0x100_0000 + b1 * 0x1_0000 + b2 * 0x100 + b3)
}

/// Reads a little-endian `u32` at `pos`.
pub fn read_u32_le(data: &[u8], pos: usize) -> (r: Result<u32, Error>)
    ensures
        match r {
            Ok(v) => in_bounds(data@.len() as int, pos as int, 4) && v == le32(data@, pos as int),
            Err(e) => !in_bounds(data@.len() as int, pos as int, 4) && e@ == ErrorView::Truncated,
        },
{
    if !has_bytes(data, pos, 4) {
        return Err(Error::Truncated);
    }
    let b0: u32 = data[pos] as u32;
    let b1: u32 = data[pos + 1] as u32;
    let b2: u32 = data[pos + 2] as u32;
    let b3: u32 = data[pos + 3] as u32;
    Ok(b0 + b1 * 0x100 + b2 * 0x1_0000 + b3 * 0x100_0000)
}

/// Reads a big-endian `u64` at `pos`.
pub fn read_u64_be(data: &[u8], pos: usize) -> (r: Result<u64, Error>)
    ensures
        match r {
            Ok(v) => in_bounds(data@.len() as int, pos as int, 8) && v == be64(data@, pos as int),
            Err(e) => !in_bounds(data@.len() as int, pos as int, 8) && e@ == ErrorView::Truncated,
        },
{
    if !has_bytes(data, pos, 8) {
        return Err(Error::Truncated);
    }
    let hi: u32 = match read_u32_be(data, pos) {
        Ok(v) => v,
        Err(e) => { return Err(e); },
    };
    let lo: u32 = match read_u32_be(data, pos + 4) {
        Ok(v) => v,
        Err(e) => { return Err(e); },
    };
    Ok(hi as u64 * 0x1_0000_0000 + lo as u64)
}

/// Reads a little-endian `u64` at `pos`.
pub fn read_u64_le(data: &[u8], pos: usize) -> (r: Result<u64, Error>)
    ensures
        match r {
            Ok(v) => in_bounds(data@.len() as int, pos as int, 8) && v == le64(data@, pos as int),
            Err(e) => !in_bounds(data@.len() as int, pos as int, 8) && e@ == ErrorView::Truncated,
        },
{
    if !has_bytes(data, pos, 8) {
        return Err(Error::Truncated);
    }
    let lo: u32 = match read_u32_le(data, pos) {
        Ok(v) => v,
        Err(e) => { return Err(e); },
    };
    let hi: u32 = match read_u32_le(data, pos + 4) {
        Ok(v) => v,
        Err(e) => { return Err(e); },
    };
    Ok(hi as u64 * 0x1_0000_0000 + lo as u64)
}

/// Applies the first function where `cond` holds and the second where it
/// does not.
pub fn cond_if<I, O, F1: FnOnce(I) -> O, F2: FnOnce(I) -> O>(
    cond: bool,
    f1: F1,
    f2: F2,
    input: I,
) -> (out: O)
    requires
        cond ==> f1.requires((input,)),
        !cond ==> f2.requires((input,)),
    ensures
        cond ==> f1.ensures((input,), out),
        !cond ==> f2.ensures((input,), out),
{
    if cond {
        f1(input)
    } else {
        f2(input)
    }
}

/// Reads the number of a version 2 file: a big-endian `u64`.
pub fn wide_number(source: (&[u8], usize)) -> (r: Result<u64, Error>)
    ensures
        match r {
            Ok(v) => in_bounds(source.0@.len() as int, source.1 as int, 8) && v == be64(
                source.0@,
                source.1 as int,
            ),
            Err(e) => !in_bounds(source.0@.len() as int, source.1 as int, 8) && e@
                == ErrorView::Truncated,
        },
{
    read_u64_be(source.0, source.1)
}

/// Reads the number of a version 1 file: a big-endian `u32`.
pub fn narrow_number(source: (&[u8], usize)) -> (r: Result<u64, Error>)
    ensures
        match r {
            Ok(v) => in_bounds(source.0@.len() as int, source.1 as int, 4) && v == be32(
                source.0@,
                source.1 as int,
            ),
            Err(e) => !in_bounds(source.0@.len() as int, source.1 as int, 4) && e@
                == ErrorView::Truncated,
        },
{
    match read_u32_be(source.0, source.1) {
        Ok(v) => Ok(v as u64),
        Err(e) => Err(e),
    }
}

/// The width in bytes of a number in the given format version.
pub open spec fn number_width(v2: bool) -> int {
    if v2 {
        8
    } else {
        4
    }
}

/// The number that the file holds at `at` in the given format version.
pub open spec fn number_at(s: Seq<u8>, at: int, v2: bool) -> int {
    if v2 {
        be64(s, at)
    } else {
        be32(s, at)
    }
}

/// Reads a number of the format: a big-endian `u64` in version 2, a
/// big-endian `u32` in version 1.
pub fn read_number(data: &[u8], pos: usize, v2: bool) -> (r: Result<u64, Error>)
    ensures
        match r {
            Ok(v) => in_bounds(data@.len() as int, pos as int, number_width(v2)) && v == number_at(
                data@,
                pos as int,
                v2,
            ),
            Err(e) => !in_bounds(data@.len() as int, pos as int, number_width(v2)) && e@
                == ErrorView::Truncated,
        },
{
    cond_if(v2, wide_number, narrow_number, (data, pos))
}

/// Borrows the `n` bytes at `pos`.
pub fn read_exact(data: &[u8], pos: usize, n: u64) -> (r: Result<&[u8], Error>)
    ensures
        match r {
            Ok(run) => in_bounds(data@.len() as int, pos as int, n as int) && run@
                == data@.subrange(pos as int, pos + n),
            Err(e) => !in_bounds(data@.len() as int, pos as int, n as int) && e@
                == ErrorView::Truncated,
        },
{
    if pos > data.len() || n > (data.len() - pos) as u64 {
        return Err(Error::Truncated);
    }
    Ok(slice_subrange(data, pos, pos + n as usize))
}

/// A parsed run of items with the position after it, or the error that
/// stopped the parse.
pub type Parsed<T> = Result<(Seq<T>, int), ErrorView>;

/// The items `front` followed by a parsed run.
pub open spec fn after<T>(front: Seq<T>, rest: Parsed<T>) -> Parsed<T> {
    match rest {
        Ok((items, end)) => Ok((front + items, end)),
        Err(e) => Err(e),
    }
}

} // verus!

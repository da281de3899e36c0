//! Turning the bytes of a dictionary into text.

use crate::bytes::has_bytes;
use crate::bytes::in_bounds;
use crate::bytes::le16;
use crate::bytes::le32;
use crate::bytes::read_u32_le;
use crate::error::Error;
use crate::error::ErrorView;
use vstd::prelude::*;
use vstd::slice::slice_subrange;
use vstd::string::StringExecFns;
use vstd::utf8::char_u32_cast;
use vstd::utf8::decode_utf8;
use vstd::utf8::is_scalar;
use vstd::utf8::valid_utf8;

verus! {

/// The text that `String::from_utf8_lossy` makes of a byte string.
pub uninterp spec fn utf8_lossy(bytes: Seq<u8>) -> Seq<char>;

/// Calls `String::from_utf8_lossy`, which decodes UTF-8 and puts U+FFFD in
/// place of malformed sequences. The result is named by [`utf8_lossy`]; on
/// well-formed UTF-8 it is the decoded text.
#[verifier::external_body]
pub(crate) fn string_from_utf8_lossy(bytes: &[u8]) -> (text: String)
    ensures
        text@ == utf8_lossy(bytes@),
        valid_utf8(bytes@) ==> text@ == decode_utf8(bytes@),
{
    String::from_utf8_lossy(bytes).into_owned()
}

/// Calls `char::from_u32`, which gives the character of a code point and
/// nothing for a surrogate or a number above 0x10FFFF.
#[verifier::external_body]
pub(crate) fn char_from_u32(value: u32) -> (c: Option<char>)
    ensures
        match c {
            Some(ch) => is_scalar(value) && ch as u32 == value,
            None => !is_scalar(value),
        },
{
    char::from_u32(value)
}

/// Calls `String::from_iter` on a slice of characters, which gives the
/// string of those characters in their order.
#[verifier::external_body]
pub(crate) fn string_of_chars(chars: &[char]) -> (text: String)
    ensures
        text@ == chars@,
{
    String::from_iter(chars)
}

/// The character that stands in place of what cannot be decoded.
pub const REPLACEMENT: char = '\u{FFFD}';

/// The character that the first units of a run encode in UTF-16, with the
/// number of units that it takes: one unit that is no surrogate, or a high
/// surrogate and a low surrogate. `None` where the first unit is a
/// surrogate without its partner.
pub open spec fn first_char(units: Seq<u16>) -> Option<(char, int)> {
    let first = units[0];
    if first < 0xD800 || 0xE000 <= first {
        Some((first as char, 1))
    } else if first < 0xDC00 && units.len() >= 2 && 0xDC00 <= units[1] < 0xE000 {
        Some(((0x1_0000 + (first - 0xD800) * 0x400 + (units[1] - 0xDC00)) as char, 2))
    } else {
        None
    }
}

/// The text that a run of UTF-16 units stands for, with U+FFFD in place
/// of each surrogate that is without its partner.
pub open spec fn utf16_lossy(units: Seq<u16>) -> Seq<char>
    decreases units.len(),
{
    if units.len() == 0 {
        Seq::empty()
    } else {
        match first_char(units) {
            Some((c, n)) => seq![c] + utf16_lossy(units.skip(n)),
            None => seq![REPLACEMENT] + utf16_lossy(units.skip(1)),
        }
    }
}

/// The text that a run of UTF-16 units stands for, or `None` where a
/// surrogate is without its partner.
pub open spec fn utf16_strict(units: Seq<u16>) -> Option<Seq<char>>
    decreases units.len(),
{
    if units.len() == 0 {
        Some(Seq::empty())
    } else {
        match first_char(units) {
            Some((c, n)) => match utf16_strict(units.skip(n)) {
                Some(rest) => Some(seq![c] + rest),
                None => None,
            },
            None => None,
        }
    }
}

/// Decodes the character at `i`.
fn read_char(units: &[u16], i: usize) -> (r: Option<(char, usize)>)
    requires
        i < units@.len(),
    ensures
        match r {
            Some((c, n)) => first_char(units@.skip(i as int)) == Some((c, n as int)) && 1 <= n
                && i + n <= units@.len(),
            None => first_char(units@.skip(i as int)).is_none(),
        },
{
    let first: u16 = units[i];
    let ghost rest = units@.skip(i as int);
    assert(rest[0] == first);
    if first < 0xD800 || 0xE000 <= first {
        assert(is_scalar(first as u32));
        match char_from_u32(first as u32) {
            Some(c) => {
                assert(c == first as char) by {
                    char_u32_cast(c, first as u32);
                }
                Some((c, 1))
            },
            None => None,
        }
    } else if first < 0xDC00 && units.len() - i >= 2 && 0xDC00 <= units[i + 1] && units[i + 1]
        < 0xE000 {
        let second: u16 = units[i + 1];
        assert(rest[1] == second);
        let value: u32 = 0x1_0000 + (first as u32 - 0xD800) * 0x400 + (second as u32 - 0xDC00);
        assert(is_scalar(value));
        match char_from_u32(value) {
            Some(c) => {
                assert(c == value as char) by {
                    char_u32_cast(c, value);
                }
                Some((c, 2))
            },
            None => None,
        }
    } else {
        None
    }
}

/// Decodes UTF-16 and puts U+FFFD in place of each surrogate that is
/// without its partner.
pub fn decode_utf16_lossy(units: &[u16]) -> (text: String)
    ensures
        text@ == utf16_lossy(units@),
{
    let mut chars: Vec<char> = Vec::new();
    let mut i: usize = 0;
    assert(units@.skip(0) =~= units@);
    assert(chars@ + utf16_lossy(units@) =~= utf16_lossy(units@));
    while i < units.len()
        invariant
            i <= units@.len(),
            utf16_lossy(units@) == chars@ + utf16_lossy(units@.skip(i as int)),
        decreases units@.len() - i,
    {
        let ghost before = chars@;
        let ghost rest = units@.skip(i as int);
        let (c, n) = match read_char(units, i) {
            Some((c, n)) => (c, n),
            None => (REPLACEMENT, 1),
        };
        proof {
            assert(rest.skip(n as int) =~= units@.skip(i + n));
            let tail = utf16_lossy(units@.skip(i + n));
            assert(before + (seq![c] + tail) =~= before.push(c) + tail);
        }
        chars.push(c);
        i += n;
    }
    assert(chars@ + Seq::<char>::empty() =~= chars@);
    string_of_chars(chars.as_slice())
}

/// Decodes UTF-16, or gives nothing where a surrogate is without its
/// partner.
pub fn decode_utf16(units: &[u16]) -> (text: Option<String>)
    ensures
        match text {
            Some(t) => utf16_strict(units@) == Some(t@),
            None => utf16_strict(units@).is_none(),
        },
{
    let mut chars: Vec<char> = Vec::new();
    let mut i: usize = 0;
    assert(units@.skip(0) =~= units@);
    while i < units.len()
        invariant
            i <= units@.len(),
            utf16_strict(units@) == match utf16_strict(units@.skip(i as int)) {
                Some(rest) => Some(chars@ + rest),
                None => None,
            },
        decreases units@.len() - i,
    {
        let ghost before = chars@;
        let ghost rest = units@.skip(i as int);
        let (c, n) = match read_char(units, i) {
            Some((c, n)) => (c, n),
            None => { return None; },
        };
        proof {
            assert(rest.skip(n as int) =~= units@.skip(i + n));
            match utf16_strict(units@.skip(i + n)) {
                Some(tail) => {
                    assert(before + (seq![c] + tail) =~= before.push(c) + tail);
                },
                None => {},
            }
        }
        chars.push(c);
        i += n;
    }
    assert(chars@ + Seq::<char>::empty() =~= chars@);
    Some(string_of_chars(chars.as_slice()))
}

/// The `count` little-endian 16-bit units that `s` holds from `at` on.
pub open spec fn wide_units(s: Seq<u8>, at: int, count: int) -> Seq<u16> {
    Seq::new(count as nat, |i: int| le16(s, at + 2 * i) as u16)
}

/// The width in bytes of one text unit.
pub open spec fn unit_size(utf16: bool) -> int {
    if utf16 {
        2
    } else {
        1
    }
}

/// The text that a run of bytes stands for: UTF-16LE or UTF-8, with U+FFFD
/// in place of what is malformed. Well-formed UTF-8 stands for the
/// characters that it encodes. A last odd byte of a UTF-16 run is left out.
#[verifier::opaque]
pub open spec fn decode_text(run: Seq<u8>, utf16: bool) -> Seq<char> {
    if utf16 {
        utf16_lossy(wide_units(run, 0, run.len() as int / 2))
    } else if valid_utf8(run) {
        decode_utf8(run)
    } else {
        utf8_lossy(run)
    }
}

/// The `count` units at `at`.
pub open spec fn units_at(s: Seq<u8>, at: int, count: int) -> Result<Seq<u16>, ErrorView> {
    if !in_bounds(s.len() as int, at, 2 * count) {
        Err(ErrorView::Truncated)
    } else {
        Ok(wide_units(s, at, count))
    }
}

/// Reads `count` little-endian 16-bit units at `pos`.
pub fn read_units(data: &[u8], pos: usize, count: usize) -> (r: Result<Vec<u16>, Error>)
    ensures
        match r {
            Ok(units) => units_at(data@, pos as int, count as int) == Ok::<Seq<u16>, ErrorView>(
                units@,
            ),
            Err(e) => units_at(data@, pos as int, count as int) == Err::<Seq<u16>, ErrorView>(e@),
        },
{
    let len: usize = data.len();
    if pos > len || count > (len - pos) / 2 {
        return Err(Error::Truncated);
    }
    let mut units: Vec<u16> = Vec::new();
    let mut i: usize = 0;
    while i < count
        invariant
            i <= count,
            len == data@.len(),
            pos + 2 * count <= len,
            units@ == wide_units(data@, pos as int, i as int),
        decreases count - i,
    {
        let lo: u16 = data[pos + 2 * i] as u16;
        let hi: u16 = data[pos + 2 * i + 1] as u16;
        units.push(hi * 0x100 + lo);
        i += 1;
        assert(units@ =~= wide_units(data@, pos as int, i as int));
    }
    Ok(units)
}

/// Decodes a run of bytes as text.
pub fn decode_run(run: &[u8], utf16: bool) -> (text: String)
    ensures
        text@ == decode_text(run@, utf16),
{
    reveal(decode_text);
    if utf16 {
        match read_units(run, 0, run.len() / 2) {
            Ok(units) => decode_utf16_lossy(units.as_slice()),
            Err(_) => String::new(),
        }
    } else {
        string_from_utf8_lossy(run)
    }
}

/// The `n_units` units at `at` and the little-endian checksum after them.
pub open spec fn wide_len_prefixed_at(s: Seq<u8>, at: int, n_units: int) -> Result<
    (Seq<u16>, u32),
    ErrorView,
> {
    if !in_bounds(s.len() as int, at, 2 * n_units + 4) {
        Err(ErrorView::Truncated)
    } else {
        Ok((wide_units(s, at, n_units), le32(s, at + 2 * n_units) as u32))
    }
}

/// Reads `n_units` little-endian 16-bit units at `pos` and the checksum of
/// four bytes that follows them.
pub fn read_wide_len_prefixed(data: &[u8], pos: usize, n_units: u32) -> (r: Result<
    (Vec<u16>, u32),
    Error,
>)
    ensures
        match r {
            Ok((units, checksum)) => wide_len_prefixed_at(data@, pos as int, n_units as int) == Ok::<
                (Seq<u16>, u32),
                ErrorView,
            >((units@, checksum)),
            Err(e) => wide_len_prefixed_at(data@, pos as int, n_units as int) == Err::<
                (Seq<u16>, u32),
                ErrorView,
            >(e@),
        },
{
    let len: usize = data.len();
    let needed: u64 = 2 * (n_units as u64) + 4;
    if pos > len || needed > (len - pos) as u64 {
        return Err(Error::Truncated);
    }
    let count: usize = n_units as usize;
    let units = read_units(data, pos, count)?;
    match read_u32_le(data, pos + 2 * count) {
        Ok(checksum) => Ok((units, checksum)),
        Err(e) => Err(e),
    }
}

/// Copies the characters of a string into a vector.
pub fn chars_of(text: &str) -> (chars: Vec<char>)
    ensures
        chars@ == text@,
{
    let mut chars: Vec<char> = Vec::new();
    for c in it: text.chars()
        invariant
            chars@ == text@.take(it.index() as int),
            it.seq() == text@,
    {
        chars.push(c);
        assert(chars@ =~= text@.take(it.index() + 1));
    }
    assert(chars@ =~= text@);
    chars
}

/// Tells whether a string is the given text.
pub fn is_text(s: &String, text: &str) -> (r: bool)
    ensures
        r == (s@ == text@),
{
    let other = String::from_str(text);
    *s == other
}

/// Where the terminator of the string that starts at `at` stands: the first
/// zero unit at `at` or a whole number of units after it.
pub open spec fn terminator_at(s: Seq<u8>, at: int, utf16: bool) -> Option<int>
    decreases s.len() - at,
{
    if at < 0 || at + unit_size(utf16) > s.len() {
        None
    } else if s[at] == 0 && (utf16 ==> s[at + 1] == 0) {
        Some(at)
    } else {
        terminator_at(s, at + unit_size(utf16), utf16)
    }
}

/// The zero-terminated string at `at` and the position after its terminator.
pub open spec fn cstr_at(s: Seq<u8>, at: int, utf16: bool) -> Result<(Seq<char>, int), ErrorView> {
    match terminator_at(s, at, utf16) {
        None => Err(ErrorView::Truncated),
        Some(end) => Ok((decode_text(s.subrange(at, end), utf16), end + unit_size(utf16))),
    }
}

/// Reads a zero-terminated string at `pos` and returns it with the position
/// after its terminator.
pub fn read_cstr(data: &[u8], pos: usize, utf16: bool) -> (r: Result<(String, usize), Error>)
    ensures
        match r {
            Ok((text, next)) => cstr_at(data@, pos as int, utf16) == Ok::<
                (Seq<char>, int),
                ErrorView,
            >((text@, next as int)),
            Err(e) => cstr_at(data@, pos as int, utf16) == Err::<(Seq<char>, int), ErrorView>(e@),
        },
{
    let step: usize = if utf16 {
        2
    } else {
        1
    };
    let mut end: usize = pos;
    loop
        invariant
            pos <= end,
            step == unit_size(utf16),
            terminator_at(data@, pos as int, utf16) == terminator_at(data@, end as int, utf16),
        ensures
            end + step <= data@.len() <= usize::MAX,
            terminator_at(data@, end as int, utf16) == Some(end as int),
        decreases data@.len() - end,
    {
        if !has_bytes(data, end, step) {
            return Err(Error::Truncated);
        }
        if data[end] == 0 && (!utf16 || data[end + 1] == 0) {
            break ;
        }
        end += step;
    }
    let text = decode_run(slice_subrange(data, pos, end), utf16);
    Ok((text, end + step))
}

} // verus!

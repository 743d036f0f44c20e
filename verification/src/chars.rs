//! Character classes of the "C" locale and the reading of a byte slice as a
//! NUL-terminated string.

use vstd::prelude::*;

verus! {

/// The byte at `i`, or NUL when `i` lies outside the slice: a slice is read
/// as a C string whose terminator sits just past its end.
pub open spec fn byte_at(s: Seq<u8>, i: int) -> u8 {
    if 0 <= i < s.len() {
        s[i]
    } else {
        0
    }
}

/// `isspace` in the "C" locale: space, `\t`, `\n`, `\v`, `\f`, `\r`.
pub open spec fn is_c_space(c: u8) -> bool {
    c == 0x20 || c == 0x09 || c == 0x0A || c == 0x0B || c == 0x0C || c == 0x0D
}

/// `isdigit` in the "C" locale.
pub open spec fn is_dec_digit(c: u8) -> bool {
    0x30 <= c <= 0x39
}

/// The digit value of an ASCII letter or digit, in bases up to 36.
pub open spec fn digit_value(c: u8) -> Option<u32> {
    if 0x30 <= c <= 0x39 {
        Some((c - 0x30) as u32)
    } else if 0x61 <= c <= 0x7A {
        Some((c - 0x61 + 10) as u32)
    } else if 0x41 <= c <= 0x5A {
        Some((c - 0x41 + 10) as u32)
    } else {
        None
    }
}

/// Whether `c` is a digit in base `radix`.
pub open spec fn is_digit_in(c: u8, radix: nat) -> bool {
    digit_value(c) matches Some(d) && d < radix
}

/// The value of a digit that `is_digit_in` accepts.
pub open spec fn digit_of(c: u8) -> nat {
    match digit_value(c) {
        Some(d) => d as nat,
        None => 0,
    }
}

/// The value of an ASCII letter or digit as a digit in bases up to 36.
pub fn ascii_digit(c: u8) -> (r: Option<u32>)
    ensures
        r == digit_value(c),
{
    if 0x30 <= c && c <= 0x39 {
        Some((c - 0x30) as u32)
    } else if 0x61 <= c && c <= 0x7A {
        Some((c - 0x61 + 10) as u32)
    } else if 0x41 <= c && c <= 0x5A {
        Some((c - 0x41 + 10) as u32)
    } else {
        None
    }
}

/// The byte at `i`, or NUL past the end.
pub fn at(s: &[u8], i: usize) -> (c: u8)
    ensures
        c == byte_at(s@, i as int),
{
    if i < s.len() {
        s[i]
    } else {
        0
    }
}

/// The byte at `i + k`, or NUL past the end.
pub fn at_offset(s: &[u8], i: usize, k: usize) -> (c: u8)
    ensures
        c == byte_at(s@, i + k),
{
    if i < s.len() && k < s.len() - i {
        s[i + k]
    } else {
        0
    }
}

/// `isspace` in the "C" locale.
pub fn c_space(c: u8) -> (r: bool)
    ensures
        r == is_c_space(c),
{
    c == 0x20 || c == 0x09 || c == 0x0A || c == 0x0B || c == 0x0C || c == 0x0D
}

/// The length of the C string at the start of `buf`: the index of its first
/// NUL, or the length of the slice when it holds none.
pub fn c_str_len(buf: &[u8]) -> (n: usize)
    ensures
        n <= buf@.len(),
        forall|i: int| 0 <= i < n ==> #[trigger] buf@[i] != 0,
        n < buf@.len() ==> buf@[n as int] == 0,
{
    let mut n: usize = 0;
    while n < buf.len() && buf[n] != 0
        invariant
            n <= buf@.len(),
            forall|i: int| 0 <= i < n ==> #[trigger] buf@[i] != 0,
        decreases buf.len() - n,
    {
        n += 1;
    }
    n
}

/// The first index at or after `i` whose byte is not C whitespace.
pub open spec fn skip_space(s: Seq<u8>, i: int) -> int
    decreases s.len() - i,
{
    if 0 <= i < s.len() && is_c_space(s[i]) {
        skip_space(s, i + 1)
    } else {
        i
    }
}

} // verus!

//! Which texts are numbers.
//!
//! A field counts as a number when it is a decimal floating-point literal:
//!
//! ```text
//! Float  ::= Sign? ( 'inf' | 'infinity' | 'nan' | Number )
//! Number ::= ( Digit+ | Digit+ '.' Digit* | Digit* '.' Digit+ ) Exp?
//! Exp    ::= 'e' Sign? Digit+
//! Sign   ::= [+-]
//! Digit  ::= [0-9]
//! ```
//!
//! Letters match in either case. Nothing may stand before or after the
//! literal, so a text with a non-ASCII byte is no number.

use vstd::prelude::*;

verus! {

/// An ASCII digit.
pub open spec fn is_digit(c: u8) -> bool {
    0x30 <= c <= 0x39
}

/// A plus or minus sign.
pub open spec fn is_sign(c: u8) -> bool {
    c == 0x2b || c == 0x2d
}

/// The lower-case form of an ASCII letter; any other byte itself.
pub open spec fn lower(c: u8) -> u8 {
    if 0x41 <= c <= 0x5a {
        (c + 0x20) as u8
    } else {
        c
    }
}

/// The index after the longest run of digits that starts at `i`.
pub open spec fn digits_end(b: Seq<u8>, i: int) -> int
    decreases b.len() - i,
{
    if 0 <= i < b.len() && is_digit(b[i]) {
        digits_end(b, i + 1)
    } else {
        i
    }
}

/// Whether `b` from `i` on is an exponent: `e` or `E`, an optional sign
/// and at least one digit, up to the end.
pub open spec fn is_exponent(b: Seq<u8>, i: int) -> bool {
    &&& 0 <= i < b.len()
    &&& lower(b[i]) == 0x65
    &&& {
        let j = if i + 1 < b.len() && is_sign(b[i + 1]) {
            i + 2
        } else {
            i + 1
        };
        digits_end(b, j) > j && digits_end(b, j) == b.len()
    }
}

/// Whether `b` from `start` on is a `Number`: digits with at most one
/// point among them, at least one digit in all, and an optional exponent.
pub open spec fn is_number(b: Seq<u8>, start: int) -> bool {
    let point = digits_end(b, start);
    let dotted = point < b.len() && b[point] == 0x2e;
    let end = if dotted {
        digits_end(b, point + 1)
    } else {
        point
    };
    let digits = if dotted {
        end - start - 1
    } else {
        end - start
    };
    digits >= 1 && (end == b.len() || is_exponent(b, end))
}

/// Whether `b` from `start` on is `word`, in either case. `word` is in
/// lower case.
pub open spec fn is_word(b: Seq<u8>, start: int, word: Seq<u8>) -> bool {
    &&& b.len() - start == word.len()
    &&& forall|i: int| 0 <= i < word.len() ==> lower(#[trigger] b[start + i]) == word[i]
}

/// The letters `inf`.
pub open spec fn word_inf() -> Seq<u8> {
    seq![0x69u8, 0x6eu8, 0x66u8]
}

/// The letters `infinity`.
pub open spec fn word_infinity() -> Seq<u8> {
    seq![0x69u8, 0x6eu8, 0x66u8, 0x69u8, 0x6eu8, 0x69u8, 0x74u8, 0x79u8]
}

/// The letters `nan`.
pub open spec fn word_nan() -> Seq<u8> {
    seq![0x6eu8, 0x61u8, 0x6eu8]
}

/// Whether `b` is a floating-point literal.
pub open spec fn is_float_literal(b: Seq<u8>) -> bool {
    let start: int = if b.len() > 0 && is_sign(b[0]) {
        1
    } else {
        0
    };
    ||| is_number(b, start)
    ||| is_word(b, start, word_inf())
    ||| is_word(b, start, word_infinity())
    ||| is_word(b, start, word_nan())
}

/// The index after the longest run of digits that starts at `i`.
fn scan_digits(b: &[u8], i: usize) -> (end: usize)
    requires
        i <= b.len(),
    ensures
        end == digits_end(b@, i as int),
        i <= end <= b.len(),
{
    let mut j: usize = i;
    while j < b.len() && b[j] >= 0x30 && b[j] <= 0x39
        invariant
            i <= j <= b.len(),
            digits_end(b@, i as int) == digits_end(b@, j as int),
        decreases b.len() - j,
    {
        j += 1;
    }
    j
}

/// Whether `b` from `start` on is `word`, in either case.
fn matches_word(b: &[u8], start: usize, word: &Vec<u8>) -> (same: bool)
    requires
        start <= b.len(),
    ensures
        same == is_word(b@, start as int, word@),
{
    if b.len() - start != word.len() {
        return false;
    }
    let mut i: usize = 0;
    while i < word.len()
        invariant
            i <= word.len(),
            start <= b.len(),
            b.len() - start == word.len(),
            forall|k: int| 0 <= k < i ==> lower(#[trigger] b@[start + k]) == word@[k],
        decreases word.len() - i,
    {
        let c: u8 = b[start + i];
        let low: u8 = if c >= 0x41 && c <= 0x5a { c + 0x20 } else { c };
        if low != word[i] {
            assert(lower(b@[start + i]) != word@[i as int]);
            return false;
        }
        i += 1;
    }
    true
}

/// Whether `b` from `i` on is an exponent.
fn at_exponent(b: &[u8], i: usize) -> (yes: bool)
    requires
        i < b.len(),
    ensures
        yes == is_exponent(b@, i as int),
{
    if b[i] != 0x65 && b[i] != 0x45 {
        return false;
    }
    let j: usize = if i + 1 < b.len() && (b[i + 1] == 0x2b || b[i + 1] == 0x2d) {
        i + 2
    } else {
        i + 1
    };
    let k = scan_digits(b, j);
    k > j && k == b.len()
}

/// Whether `b` is a floating-point literal.
pub fn parses_as_float(b: &[u8]) -> (yes: bool)
    ensures
        yes == is_float_literal(b@),
{
    let start: usize = if b.len() > 0 && (b[0] == 0x2b || b[0] == 0x2d) { 1 } else { 0 };
    let point = scan_digits(b, start);
    let dotted: bool = point < b.len() && b[point] == 0x2e;
    let end: usize = if dotted { scan_digits(b, point + 1) } else { point };
    let digits: usize = if dotted { end - start - 1 } else { end - start };
    if digits >= 1 && (end == b.len() || at_exponent(b, end)) {
        return true;
    }
    let inf: Vec<u8> = vec![0x69u8, 0x6eu8, 0x66u8];
    let infinity: Vec<u8> = vec![0x69u8, 0x6eu8, 0x66u8, 0x69u8, 0x6eu8, 0x69u8, 0x74u8, 0x79u8];
    let nan: Vec<u8> = vec![0x6eu8, 0x61u8, 0x6eu8];
    assert(inf@ =~= word_inf());
    assert(infinity@ =~= word_infinity());
    assert(nan@ =~= word_nan());
    matches_word(b, start, &inf) || matches_word(b, start, &infinity) || matches_word(
        b,
        start,
        &nan,
    )
}

} // verus!

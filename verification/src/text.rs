//! Text: trimming and cutting of fields, and decimal numbers.

use vstd::prelude::*;
use vstd::string::{StringExecFns, StringSliceAdditionalSpecFns};
use vstd::utf8::is_char_boundary;

verus! {

/// Whether a character has the Unicode property White_Space.
pub open spec fn is_white_space(c: char) -> bool {
    let u = c as u32;
    ||| 0x09 <= u <= 0x0d
    ||| u == 0x20
    ||| u == 0x85
    ||| u == 0xa0
    ||| u == 0x1680
    ||| 0x2000 <= u <= 0x200a
    ||| u == 0x2028
    ||| u == 0x2029
    ||| u == 0x202f
    ||| u == 0x205f
    ||| u == 0x3000
}

/// `s` without its leading white space.
pub open spec fn trimmed_start(s: Seq<char>) -> Seq<char>
    decreases s.len(),
{
    if s.len() > 0 && is_white_space(s[0]) {
        trimmed_start(s.drop_first())
    } else {
        s
    }
}

/// `s` without its trailing white space.
pub open spec fn trimmed_end(s: Seq<char>) -> Seq<char>
    decreases s.len(),
{
    if s.len() > 0 && is_white_space(s.last()) {
        trimmed_end(s.drop_last())
    } else {
        s
    }
}

/// `s` without its leading and trailing white space.
pub open spec fn trimmed(s: Seq<char>) -> Seq<char> {
    trimmed_end(trimmed_start(s))
}

/// The text without its leading and trailing white space.
///
/// Calls `str::trim` of the standard library. Its documentation says that
/// it returns the slice with leading and trailing whitespace removed, and
/// that whitespace is what has the Unicode property White_Space. The
/// contract says that and no more; it is believed, not proved.
#[verifier::external_body]
pub(crate) fn trim<'a>(s: &'a str) -> (t: &'a str)
    ensures
        t@ == trimmed(s@),
{
    s.trim()
}

/// The longest prefix of `bytes` that has at most `max_bytes` bytes and
/// ends where a character ends.
pub open spec fn cut_point(bytes: Seq<u8>, max_bytes: int) -> int
    decreases max_bytes,
{
    if bytes.len() <= max_bytes {
        bytes.len() as int
    } else if max_bytes <= 0 || is_char_boundary(bytes, max_bytes) {
        max_bytes
    } else {
        cut_point(bytes, max_bytes - 1)
    }
}

/// The text cut to at most `max_bytes` bytes without splitting a
/// character: the whole text where it is short enough, else its longest
/// prefix of whole characters within the limit.
pub fn truncate_utf8<'a>(s: &'a str, max_bytes: usize) -> (t: &'a str)
    ensures
        t.spec_bytes() == s.spec_bytes().subrange(0, cut_point(s.spec_bytes(), max_bytes as int)),
        0 <= cut_point(s.spec_bytes(), max_bytes as int) <= s.spec_bytes().len(),
        t.spec_bytes().len() <= max_bytes || t.spec_bytes().len() == s.spec_bytes().len(),
{
    let len = s.as_bytes().len();
    if len <= max_bytes {
        assert(s.spec_bytes().subrange(0, s.spec_bytes().len() as int) =~= s.spec_bytes());
        return s;
    }
    let mut end: usize = max_bytes;
    while end > 0 && !s.is_char_boundary(end)
        invariant
            end <= max_bytes < s.spec_bytes().len(),
            cut_point(s.spec_bytes(), max_bytes as int) == cut_point(s.spec_bytes(), end as int),
        decreases end,
    {
        end -= 1;
    }
    proof {
        vstd::utf8::encode_utf8_valid_utf8(s@);
        vstd::utf8::is_char_boundary_start_end_of_seq(s.spec_bytes());
    }
    let (head, _) = s.split_at(end);
    head
}

/// The decimal digit `d`.
pub open spec fn digit_char(d: nat) -> char {
    if d == 0 {
        '0'
    } else if d == 1 {
        '1'
    } else if d == 2 {
        '2'
    } else if d == 3 {
        '3'
    } else if d == 4 {
        '4'
    } else if d == 5 {
        '5'
    } else if d == 6 {
        '6'
    } else if d == 7 {
        '7'
    } else if d == 8 {
        '8'
    } else {
        '9'
    }
}

/// The decimal digits of `n`, most significant first, without leading
/// zeros.
pub open spec fn decimal(n: nat) -> Seq<char>
    decreases n,
{
    if n < 10 {
        seq![digit_char(n)]
    } else {
        decimal(n / 10).push(digit_char(n % 10))
    }
}

/// The decimal digit `d` as a text.
fn digit_str(d: usize) -> (s: &'static str)
    requires
        d < 10,
    ensures
        s@ == seq![digit_char(d as nat)],
{
    proof {
        reveal_strlit("0");
        reveal_strlit("1");
        reveal_strlit("2");
        reveal_strlit("3");
        reveal_strlit("4");
        reveal_strlit("5");
        reveal_strlit("6");
        reveal_strlit("7");
        reveal_strlit("8");
        reveal_strlit("9");
    }
    let s = if d == 0 {
        "0"
    } else if d == 1 {
        "1"
    } else if d == 2 {
        "2"
    } else if d == 3 {
        "3"
    } else if d == 4 {
        "4"
    } else if d == 5 {
        "5"
    } else if d == 6 {
        "6"
    } else if d == 7 {
        "7"
    } else if d == 8 {
        "8"
    } else {
        "9"
    };
    assert(s@ =~= seq![digit_char(d as nat)]);
    s
}

/// Appends the decimal digits of `n` to `text`.
pub fn push_decimal(text: &mut String, n: usize)
    ensures
        final(text)@ == old(text)@ + decimal(n as nat),
    decreases n,
{
    if n < 10 {
        text.append(digit_str(n));
    } else {
        push_decimal(text, n / 10);
        text.append(digit_str(n % 10));
        assert(text@ =~= old(text)@ + decimal(n as nat));
    }
}

} // verus!

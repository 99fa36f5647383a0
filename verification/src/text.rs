//! Text helpers: comparing strings, and reading decimal integers.

use vstd::prelude::*;
use vstd::string::*;

verus! {

/// Whether `c` is one of the ten decimal digits.
pub open spec fn is_digit(c: char) -> bool {
    '0' <= c && c <= '9'
}

/// The number a decimal digit stands for; zero for any other character.
pub open spec fn digit_value(c: char) -> nat {
    if is_digit(c) {
        (c as int - '0' as int) as nat
    } else {
        0
    }
}

/// Whether `s` is a non-empty run of decimal digits.
pub open spec fn is_digits(s: Seq<char>) -> bool {
    s.len() > 0 && forall|i: int| 0 <= i < s.len() ==> is_digit(#[trigger] s[i])
}

/// The number that a run of decimal digits denotes, most significant digit first.
pub open spec fn digits_value(s: Seq<char>) -> nat
    decreases s.len(),
{
    if s.len() == 0 {
        0
    } else {
        10 * digits_value(s.drop_last()) + digit_value(s.last())
    }
}

/// The number that `s` denotes as a run of digits, where it is one and the number does not
/// exceed `limit`.
pub open spec fn magnitude(s: Seq<char>, limit: nat) -> Option<nat> {
    if is_digits(s) && digits_value(s) <= limit {
        Some(digits_value(s))
    } else {
        None
    }
}

/// `s` without a leading plus sign.
pub open spec fn without_plus(s: Seq<char>) -> Seq<char> {
    if s.len() > 0 && s[0] == '+' {
        s.skip(1)
    } else {
        s
    }
}

/// What `s` denotes as an unsigned decimal integer: an optional `+`, then digits only, the
/// number within `usize`. Anything else, the empty text and a lone sign included, denotes
/// nothing.
pub open spec fn usize_of_text(s: Seq<char>) -> Option<usize> {
    match magnitude(without_plus(s), usize::MAX as nat) {
        Some(v) => Some(v as usize),
        None => None,
    }
}

/// What `s` denotes as a signed decimal integer: an optional `+` or `-`, then digits only,
/// the number within `i64`.
pub open spec fn i64_of_text(s: Seq<char>) -> Option<i64> {
    if s.len() > 0 && s[0] == '-' {
        match magnitude(s.skip(1), 0x8000_0000_0000_0000) {
            Some(v) => Some((-(v as int)) as i64),
            None => None,
        }
    } else {
        match magnitude(without_plus(s), i64::MAX as nat) {
            Some(v) => Some(v as i64),
            None => None,
        }
    }
}

/// `s` without one leading `/`.
pub open spec fn without_leading_slash(s: Seq<char>) -> Seq<char> {
    if s.len() > 0 && s[0] == '/' {
        s.skip(1)
    } else {
        s
    }
}

/// A run of digits denotes at least what any of its prefixes denotes.
pub proof fn lemma_digits_value_grows(s: Seq<char>, k: int)
    requires
        0 <= k <= s.len(),
    ensures
        digits_value(s.take(k)) <= digits_value(s),
    decreases s.len(),
{
    if k == s.len() {
        assert(s.take(k) =~= s);
    } else {
        assert(s.drop_last().take(k) =~= s.take(k));
        lemma_digits_value_grows(s.drop_last(), k);
    }
}

/// Text with a character outside ASCII denotes no integer.
proof fn lemma_non_ascii_denotes_nothing(s: Seq<char>)
    requires
        !vstd::utf8::is_ascii_chars(s),
    ensures
        usize_of_text(s) is None,
        i64_of_text(s) is None,
{
    let i = choose|i: int| 0 <= i < s.len() && !('\0' <= #[trigger] s[i] <= '\u{7f}');
    assert(!is_digit(s[i]));
    assert(s[i] != '+' && s[i] != '-');
    if i >= 1 {
        assert(s.skip(1)[i - 1] == s[i]);
    }
}

/// The bytes of ASCII text: one byte for each character, of the same number.
fn ascii_bytes(text: &str) -> (bytes: &[u8])
    requires
        text.is_ascii(),
    ensures
        bytes@.len() == text@.len(),
        forall|i: int| 0 <= i < text@.len() ==> (#[trigger] bytes@[i]) as int == text@[i] as int,
{
    broadcast use is_ascii_spec_bytes;

    let bytes = text.as_bytes();
    assert forall|i: int| 0 <= i < text@.len() implies (#[trigger] bytes@[i]) as int
        == text@[i] as int by {
        assert('\0' <= text@[i] <= '\u{7f}');
    }
    bytes
}

/// Reads the digits of `text` from character `start` on.
fn parse_digits(text: &str, start: usize, limit: u64) -> (r: Option<u64>)
    requires
        text.is_ascii(),
        start <= text@.len(),
    ensures
        match r {
            Some(v) => magnitude(text@.skip(start as int), limit as nat) == Some(v as nat),
            None => magnitude(text@.skip(start as int), limit as nat) is None,
        },
{
    let bytes = ascii_bytes(text);
    let n = bytes.len();
    let ghost body = text@.skip(start as int);
    if start >= n {
        return None;
    }
    let mut acc: u64 = 0;
    let mut i: usize = start;
    while i < n
        invariant
            start <= i <= n,
            n == text@.len(),
            bytes@.len() == n,
            forall|k: int| 0 <= k < n ==> (#[trigger] bytes@[k]) as int == text@[k] as int,
            body == text@.skip(start as int),
            forall|k: int| 0 <= k < i - start ==> is_digit(#[trigger] body[k]),
            acc == digits_value(body.take(i - start)),
            acc <= limit,
        decreases n - i,
    {
        let b = bytes[i];
        let ghost c = text@[i as int];
        assert(body[i - start] == c);
        assert(bytes@[i as int] as int == c as int);
        if b < 48 || b > 57 {
            assert(!is_digit(c));
            return None;
        }
        assert(is_digit(c) && digit_value(c) == b - 48);
        let digit: u64 = (b - 48) as u64;
        let ghost next = body.take(i + 1 - start);
        proof {
            assert(next.drop_last() =~= body.take(i - start));
            assert(next.last() == c);
            assert(digits_value(next) == 10 * acc + digit);
            lemma_digits_value_grows(body, i + 1 - start);
        }
        let grown = match acc.checked_mul(10) {
            Some(tenfold) => tenfold.checked_add(digit),
            None => None,
        };
        match grown {
            Some(value) => {
                if value > limit {
                    return None;
                }
                acc = value;
            },
            None => {
                return None;
            },
        }
        i = i + 1;
    }
    assert(body.take(i - start) =~= body);
    Some(acc)
}

/// Reads `text` as an unsigned decimal integer.
pub fn parse_usize(text: &str) -> (r: Option<usize>)
    ensures
        r == usize_of_text(text@),
{
    if !text.is_ascii() {
        proof {
            lemma_non_ascii_denotes_nothing(text@);
        }
        return None;
    }
    let bytes = ascii_bytes(text);
    let start: usize = if bytes.len() > 0 && bytes[0] == 43 {
        1
    } else {
        0
    };
    assert(bytes@.len() > 0 ==> bytes@[0] as int == text@[0] as int);
    assert(text@.skip(start as int) =~= without_plus(text@));
    match parse_digits(text, start, usize::MAX as u64) {
        Some(v) => Some(v as usize),
        None => None,
    }
}

/// Reads `text` as a signed decimal integer.
pub fn parse_i64(text: &str) -> (r: Option<i64>)
    ensures
        r == i64_of_text(text@),
{
    if !text.is_ascii() {
        proof {
            lemma_non_ascii_denotes_nothing(text@);
        }
        return None;
    }
    let bytes = ascii_bytes(text);
    assert(bytes@.len() > 0 ==> bytes@[0] as int == text@[0] as int);
    if bytes.len() > 0 && bytes[0] == 45 {
        match parse_digits(text, 1, 0x8000_0000_0000_0000) {
            Some(v) => {
                if v == 0x8000_0000_0000_0000 {
                    Some(i64::MIN)
                } else {
                    Some(-(v as i64))
                }
            },
            None => None,
        }
    } else {
        let start: usize = if bytes.len() > 0 && bytes[0] == 43 {
            1
        } else {
            0
        };
        assert(text@.skip(start as int) =~= without_plus(text@));
        match parse_digits(text, start, i64::MAX as u64) {
            Some(v) => Some(v as i64),
            None => None,
        }
    }
}

/// Whether two strings hold the same characters.
pub fn same_text(a: &str, b: &str) -> (r: bool)
    ensures
        r == (a@ == b@),
{
    let x = a.as_bytes();
    let y = b.as_bytes();
    proof {
        vstd::utf8::encode_utf8_decode_utf8(a@);
        vstd::utf8::encode_utf8_decode_utf8(b@);
    }
    if x.len() != y.len() {
        return false;
    }
    let mut i: usize = 0;
    while i < x.len()
        invariant
            i <= x.len(),
            x.len() == y.len(),
            x@ == a.spec_bytes(),
            y@ == b.spec_bytes(),
            forall|k: int| 0 <= k < i ==> x@[k] == y@[k],
        decreases x.len() - i,
    {
        if x[i] != y[i] {
            return false;
        }
        i = i + 1;
    }
    assert(x@ =~= y@);
    true
}

/// Whether `text` ends with `suffix`.
pub fn ends_with(text: &str, suffix: &str) -> (r: bool)
    ensures
        r == suffix@.is_suffix_of(text@),
{
    let n = text.unicode_len();
    let m = suffix.unicode_len();
    if m > n {
        return false;
    }
    same_text(text.substring_char(n - m, n), suffix)
}

/// A copy of `text` without one leading `/`.
pub fn strip_leading_slash(text: &str) -> (r: String)
    ensures
        r@ == without_leading_slash(text@),
{
    let n = text.unicode_len();
    if n > 0 && text.get_char(0) == '/' {
        let rest = text.substring_char(1, n);
        assert(rest@ =~= text@.skip(1));
        rest.to_owned()
    } else {
        text.to_owned()
    }
}

} // verus!

//! Searching, comparing and reading numbers in byte strings.

use vstd::prelude::*;
use vstd::string::StringSliceAdditionalSpecFns;
use vstd::utf8::{decode_utf8, encode_utf8, valid_utf8};

verus! {

/// Whether `needle` stands in `hay` at position `at`.
pub open spec fn matches_at(hay: Seq<u8>, needle: Seq<u8>, at: int) -> bool {
    0 <= at && at + needle.len() <= hay.len() && hay.subrange(at, at + needle.len()) == needle
}

/// The first position at or after `from` where `needle` stands in `hay`.
pub open spec fn first_match(hay: Seq<u8>, needle: Seq<u8>, from: int) -> Option<int>
    decreases hay.len() - from + 1,
{
    if from < 0 || from + needle.len() > hay.len() {
        None
    } else if matches_at(hay, needle, from) {
        Some(from)
    } else {
        first_match(hay, needle, from + 1)
    }
}

/// A carriage return followed by a line feed.
pub open spec fn crlf() -> Seq<u8> {
    seq![13u8, 10u8]
}

/// What a first match is: a match, with none between `from` and it.
pub proof fn lemma_first_match(hay: Seq<u8>, needle: Seq<u8>, from: int)
    requires
        0 <= from,
    ensures
        match first_match(hay, needle, from) {
            Some(at) => from <= at && matches_at(hay, needle, at) && forall|q: int|
                from <= q < at ==> !matches_at(hay, needle, q),
            None => forall|q: int| from <= q ==> !matches_at(hay, needle, q),
        },
    decreases hay.len() - from + 1,
{
    if from + needle.len() > hay.len() {
    } else if matches_at(hay, needle, from) {
    } else {
        lemma_first_match(hay, needle, from + 1);
    }
}

/// A match with none between `from` and it is the first match.
pub proof fn lemma_first_match_found(hay: Seq<u8>, needle: Seq<u8>, from: int, at: int)
    requires
        0 <= from <= at,
        matches_at(hay, needle, at),
        forall|q: int| from <= q < at ==> !matches_at(hay, needle, q),
    ensures
        first_match(hay, needle, from) == Some(at),
    decreases at - from,
{
    if from < at {
        lemma_first_match_found(hay, needle, from + 1, at);
    }
}

/// Whether `needle` stands in `hay` at position `at`.
fn stands_at(hay: &[u8], needle: &[u8], at: usize) -> (r: bool)
    requires
        at + needle.len() <= hay.len(),
    ensures
        r == matches_at(hay@, needle@, at as int),
{
    let mut k: usize = 0;
    while k < needle.len()
        invariant
            k <= needle.len(),
            at + needle.len() <= hay.len(),
            forall|m: int| 0 <= m < k ==> hay@[at + m] == needle@[m],
        decreases needle.len() - k,
    {
        if hay[at + k] != needle[k] {
            proof {
                let part = hay@.subrange(at as int, at + needle.len());
                assert(part[k as int] == hay@[at + k]);
            }
            return false;
        }
        k += 1;
    }
    assert(hay@.subrange(at as int, at + needle.len()) =~= needle@);
    true
}

/// Whether `needle` stands in `hay` at position `at`.
pub fn starts_at(hay: &[u8], needle: &[u8], at: usize) -> (r: bool)
    ensures
        r == matches_at(hay@, needle@, at as int),
{
    if needle.len() > hay.len() || at > hay.len() - needle.len() {
        return false;
    }
    stands_at(hay, needle, at)
}

/// The first position at or after `from` where `needle` stands in `hay`.
pub fn find(hay: &[u8], needle: &[u8], from: usize) -> (r: Option<usize>)
    ensures
        match r {
            Some(at) => {
                &&& first_match(hay@, needle@, from as int) == Some(at as int)
                &&& from <= at
                &&& at + needle.len() <= hay.len()
            },
            None => first_match(hay@, needle@, from as int) is None,
        },
{
    if needle.len() > hay.len() || from > hay.len() - needle.len() {
        return None;
    }
    let last = hay.len() - needle.len();
    let mut at: usize = from;
    loop
        invariant
            from <= at <= last,
            last == hay.len() - needle.len(),
            forall|q: int| from <= q < at ==> !matches_at(hay@, needle@, q),
        decreases last - at,
    {
        if stands_at(hay, needle, at) {
            proof {
                lemma_first_match_found(hay@, needle@, from as int, at as int);
            }
            return Some(at);
        }
        if at == last {
            proof {
                lemma_first_match(hay@, needle@, from as int);
            }
            return None;
        }
        at += 1;
    }
}

/// Whether a CRLF stands in `hay` at position `at`.
pub fn crlf_at(hay: &[u8], at: usize) -> (r: bool)
    ensures
        r == matches_at(hay@, crlf(), at as int),
{
    let pattern: [u8; 2] = [13u8, 10u8];
    assert(pattern@ =~= crlf());
    starts_at(hay, pattern.as_slice(), at)
}

/// The first position at or after `from` where a CRLF stands in `hay`.
pub fn find_crlf(hay: &[u8], from: usize) -> (r: Option<usize>)
    ensures
        match r {
            Some(at) => {
                &&& first_match(hay@, crlf(), from as int) == Some(at as int)
                &&& from <= at
                &&& at + 2 <= hay.len()
            },
            None => first_match(hay@, crlf(), from as int) is None,
        },
{
    let pattern: [u8; 2] = [13u8, 10u8];
    assert(pattern@ =~= crlf());
    find(hay, pattern.as_slice(), from)
}

/// An ASCII capital letter as its small letter, any other byte as itself.
pub open spec fn lowered(b: u8) -> u8 {
    if 65 <= b <= 90 {
        (b + 32) as u8
    } else {
        b
    }
}

/// Whether two byte strings are equal but for the case of ASCII letters.
pub open spec fn same_ignoring_case(a: Seq<u8>, b: Seq<u8>) -> bool {
    a.len() == b.len() && forall|k: int| 0 <= k < a.len() ==> lowered(a[k]) == lowered(b[k])
}

fn lower(b: u8) -> (r: u8)
    ensures
        r == lowered(b),
{
    if 65 <= b && b <= 90 {
        b + 32
    } else {
        b
    }
}

/// Whether two byte strings are equal but for the case of ASCII letters.
pub fn eq_ignore_ascii_case(a: &[u8], b: &[u8]) -> (r: bool)
    ensures
        r == same_ignoring_case(a@, b@),
{
    if a.len() != b.len() {
        return false;
    }
    let mut k: usize = 0;
    while k < a.len()
        invariant
            k <= a.len(),
            a.len() == b.len(),
            forall|m: int| 0 <= m < k ==> lowered(a@[m]) == lowered(b@[m]),
        decreases a.len() - k,
    {
        if lower(a[k]) != lower(b[k]) {
            return false;
        }
        k += 1;
    }
    true
}

/// Whether two byte strings are equal.
pub fn bytes_eq(a: &[u8], b: &[u8]) -> (r: bool)
    ensures
        r == (a@ == b@),
{
    if a.len() != b.len() {
        return false;
    }
    let mut k: usize = 0;
    while k < a.len()
        invariant
            k <= a.len(),
            a.len() == b.len(),
            forall|m: int| 0 <= m < k ==> a@[m] == b@[m],
        decreases a.len() - k,
    {
        if a[k] != b[k] {
            return false;
        }
        k += 1;
    }
    assert(a@ =~= b@);
    true
}

/// Whether two strings are equal.
pub fn str_eq(a: &str, b: &str) -> (r: bool)
    ensures
        r == (a@ == b@),
{
    broadcast use vstd::utf8::encode_utf8_decode_utf8;

    let r = bytes_eq(a.as_bytes(), b.as_bytes());
    proof {
        if encode_utf8(a@) == encode_utf8(b@) {
            assert(decode_utf8(encode_utf8(a@)) == a@);
            assert(decode_utf8(encode_utf8(b@)) == b@);
        }
    }
    r
}

/// The value of a byte as a digit of the given radix, at most 36.
pub open spec fn digit(b: u8, radix: int) -> Option<int> {
    let v: int = if 48 <= b <= 57 {
        b - 48
    } else if 97 <= b <= 122 {
        b - 97 + 10
    } else if 65 <= b <= 90 {
        b - 65 + 10
    } else {
        36
    };
    if v < radix {
        Some(v)
    } else {
        None
    }
}

/// The number that a string of digits writes, most significant digit first;
/// `None` where a byte is no digit of the radix. The empty string writes 0.
pub open spec fn digits(s: Seq<u8>, radix: int) -> Option<int>
    decreases s.len(),
{
    if s.len() == 0 {
        Some(0)
    } else {
        match (digits(s.drop_last(), radix), digit(s.last(), radix)) {
            (Some(high), Some(low)) => Some(high * radix + low),
            _ => None,
        }
    }
}

/// The number that a string writes: an optional `+`, then at least one
/// digit, and nothing else.
pub open spec fn number(s: Seq<u8>, radix: int) -> Option<int> {
    let body = if s.len() > 0 && s[0] == 43 {
        s.drop_first()
    } else {
        s
    };
    if body.len() == 0 {
        None
    } else {
        digits(body, radix)
    }
}

/// The number that a string writes, where it is one that fits `usize`.
pub open spec fn number_in_usize(s: Seq<u8>, radix: int) -> Option<usize> {
    match number(s, radix) {
        Some(v) if v <= usize::MAX => Some(v as usize),
        _ => None,
    }
}

/// A longer string of digits writes no smaller a number.
proof fn lemma_digits_grow(s: Seq<u8>, n: int, radix: int)
    requires
        2 <= radix,
        0 <= n <= s.len(),
        digits(s, radix) is Some,
    ensures
        digits(s.take(n), radix) is Some,
        0 <= digits(s.take(n), radix)->0 <= digits(s, radix)->0,
    decreases s.len() - n,
{
    if n == s.len() {
        assert(s.take(n) =~= s);
        lemma_digits_nonnegative(s, radix);
    } else {
        assert(s.drop_last().take(n) =~= s.take(n));
        lemma_digits_grow(s.drop_last(), n, radix);
        let high = digits(s.drop_last(), radix)->0;
        assert(high * radix >= high) by (nonlinear_arith)
            requires
                high >= 0,
                radix >= 2,
        ;
    }
}

proof fn lemma_digits_nonnegative(s: Seq<u8>, radix: int)
    requires
        2 <= radix,
        digits(s, radix) is Some,
    ensures
        0 <= digits(s, radix)->0,
    decreases s.len(),
{
    if s.len() > 0 {
        lemma_digits_nonnegative(s.drop_last(), radix);
        let high = digits(s.drop_last(), radix)->0;
        assert(high * radix >= 0) by (nonlinear_arith)
            requires
                high >= 0,
                radix >= 2,
        ;
    }
}

/// The value of a byte as a digit of the given radix.
fn digit_of(b: u8, radix: u8) -> (r: Option<u8>)
    requires
        2 <= radix <= 36,
    ensures
        match r {
            Some(v) => digit(b, radix as int) == Some(v as int),
            None => digit(b, radix as int) is None,
        },
{
    let v: u8 = if 48 <= b && b <= 57 {
        b - 48
    } else if 97 <= b && b <= 122 {
        b - 97 + 10
    } else if 65 <= b && b <= 90 {
        b - 65 + 10
    } else {
        36
    };
    if v < radix {
        Some(v)
    } else {
        None
    }
}

/// Reads a number in the given radix: an optional `+`, then digits only.
/// `None` where the string is anything else, or the number exceeds `usize`.
pub fn parse_number(s: &[u8], radix: u8) -> (r: Option<usize>)
    requires
        2 <= radix <= 36,
    ensures
        r == number_in_usize(s@, radix as int),
{
    let start: usize = if s.len() > 0 && s[0] == 43 {
        1
    } else {
        0
    };
    if start == s.len() {
        return None;
    }
    let ghost body = s@.subrange(start as int, s.len() as int);
    proof {
        if start == 1 {
            assert(body =~= s@.drop_first());
        } else {
            assert(body =~= s@);
        }
        assert(body.take(0) =~= Seq::<u8>::empty());
    }
    let mut value: usize = 0;
    let mut k: usize = start;
    while k < s.len()
        invariant
            start <= k <= s.len(),
            2 <= radix <= 36,
            body == s@.subrange(start as int, s.len() as int),
            number(s@, radix as int) == digits(body, radix as int),
            digits(body.take(k - start), radix as int) == Some(value as int),
        decreases s.len() - k,
    {
        let ghost seen = body.take(k - start);
        let ghost next = body.take(k - start + 1);
        proof {
            assert(next.drop_last() =~= seen);
            assert(next.last() == s@[k as int]);
        }
        let low = match digit_of(s[k], radix) {
            Some(v) => v,
            None => {
                proof {
                    if digits(body, radix as int) is Some {
                        lemma_digits_grow(body, k - start + 1, radix as int);
                    }
                }
                return None;
            },
        };
        let grown = match value.checked_mul(radix as usize) {
            Some(high) => high.checked_add(low as usize),
            None => None,
        };
        value = match grown {
            Some(v) => v,
            None => {
                proof {
                    assert(value * radix + low > usize::MAX);
                    if digits(body, radix as int) is Some {
                        lemma_digits_grow(body, k - start + 1, radix as int);
                    }
                }
                return None;
            },
        };
        k += 1;
    }
    proof {
        assert(body.take(k - start) =~= body);
    }
    Some(value)
}

/// Whether a character is white space, as Unicode's `White_Space` has it.
pub open spec fn is_whitespace(c: char) -> bool {
    let v = c as int;
    ||| 0x09 <= v <= 0x0D
    ||| v == 0x20
    ||| v == 0x85
    ||| v == 0xA0
    ||| v == 0x1680
    ||| 0x2000 <= v <= 0x200A
    ||| v == 0x2028
    ||| v == 0x2029
    ||| v == 0x202F
    ||| v == 0x205F
    ||| v == 0x3000
}

/// The number of white-space characters that a string begins with.
pub open spec fn leading_whitespace(s: Seq<char>) -> int
    decreases s.len(),
{
    if s.len() > 0 && is_whitespace(s[0]) {
        1 + leading_whitespace(s.drop_first())
    } else {
        0
    }
}

/// The number of white-space characters that a string ends with.
pub open spec fn trailing_whitespace(s: Seq<char>) -> int
    decreases s.len(),
{
    if s.len() > 0 && is_whitespace(s.last()) {
        1 + trailing_whitespace(s.drop_last())
    } else {
        0
    }
}

/// A string without the white space that it begins and ends with.
pub open spec fn trimmed(s: Seq<char>) -> Seq<char> {
    let rest = s.skip(leading_whitespace(s));
    rest.take(rest.len() - trailing_whitespace(rest))
}

/// `str::from_utf8` of std: the bytes as a string where they are valid
/// UTF-8, and `None` where they are not. The string has the bytes it was
/// given.
#[verifier::external_body]
pub(crate) fn utf8_str(bytes: &[u8]) -> (r: Option<&str>)
    ensures
        r is Some <==> valid_utf8(bytes@),
        r is Some ==> r->0.spec_bytes() == bytes@,
{
    std::str::from_utf8(bytes).ok()
}

/// `str::trim` of std: the string without the white space that it begins
/// and ends with, white space being the characters of `White_Space`.
#[verifier::external_body]
pub(crate) fn trim(s: &str) -> (r: &str)
    ensures
        r@ == trimmed(s@),
{
    s.trim()
}

} // verus!

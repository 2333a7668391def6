//! Byte-level helpers for strings and byte slices.
//!
//! All specifications in this crate describe strings through their UTF-8
//! bytes: `s.spec_bytes()` for a `&str`, `string_bytes(s)` for a `String`.

use vstd::prelude::*;
use vstd::string::*;
use vstd::utf8::*;

verus! {

/// The UTF-8 bytes of an owned string.
pub open spec fn string_bytes(s: String) -> Seq<u8> {
    encode_utf8(s@)
}

/// Encoding a concatenation is concatenating the encodings.
pub proof fn lemma_encode_utf8_concat(a: Seq<char>, b: Seq<char>)
    ensures
        encode_utf8(a + b) == encode_utf8(a) + encode_utf8(b),
    decreases a.len(),
{
    if a.len() == 0 {
        assert(a + b =~= b);
        assert(encode_utf8(a) =~= Seq::<u8>::empty());
        assert(encode_utf8(a) + encode_utf8(b) =~= encode_utf8(b));
    } else {
        assert((a + b).drop_first() =~= a.drop_first() + b);
        assert((a + b)[0] == a[0]);
        lemma_encode_utf8_concat(a.drop_first(), b);
        assert(encode_utf8(a + b) =~= encode_utf8(a) + encode_utf8(b));
    }
}

/// Two strings have the same bytes exactly when they hold the same characters.
pub proof fn lemma_bytes_eq_iff_chars_eq(a: Seq<char>, b: Seq<char>)
    ensures
        (encode_utf8(a) == encode_utf8(b)) == (a == b),
{
    encode_utf8_decode_utf8(a);
    encode_utf8_decode_utf8(b);
}

/// Converts bytes to a string slice when they are valid UTF-8.
///
/// Trusted: calls `std::str::from_utf8`, which succeeds exactly on valid
/// UTF-8 and then returns a string slice over the very same bytes.
#[verifier::external_body]
pub(crate) fn str_from_utf8<'a>(bytes: &'a [u8]) -> (r: Option<&'a str>)
    ensures
        r is Some <==> valid_utf8(bytes@),
        r matches Some(s) ==> s.spec_bytes() == bytes@,
{
    std::str::from_utf8(bytes).ok()
}

/// Compares two byte slices.
pub fn bytes_eq(a: &[u8], b: &[u8]) -> (r: bool)
    ensures
        r == (a@ == b@),
{
    if a.len() != b.len() {
        return false;
    }
    let mut i: usize = 0;
    while i < a.len()
        invariant
            a@.len() == b@.len(),
            i <= a@.len(),
            forall|k: int| 0 <= k < i ==> a@[k] == b@[k],
        decreases a@.len() - i,
    {
        if a[i] != b[i] {
            return false;
        }
        i = i + 1;
    }
    assert(a@ =~= b@);
    true
}

/// Compares two string slices.
pub fn str_eq(a: &str, b: &str) -> (r: bool)
    ensures
        r == (a.spec_bytes() == b.spec_bytes()),
        r == (a@ == b@),
{
    proof {
        lemma_bytes_eq_iff_chars_eq(a@, b@);
    }
    bytes_eq(a.as_bytes(), b.as_bytes())
}

/// The position right after an ASCII character is a character boundary.
proof fn lemma_boundary_after_ascii(bytes: Seq<u8>, i: int)
    requires
        valid_utf8(bytes),
        0 <= i < bytes.len(),
        is_char_boundary(bytes, i),
        bytes[i] < 0x80,
    ensures
        is_char_boundary(bytes, i + 1),
    decreases bytes.len(),
{
    let rest = pop_first_scalar(bytes);
    if i == 0 {
        assert(length_of_first_scalar(bytes) == 1);
        assert(is_char_boundary(rest, 0));
    } else {
        let j = i - length_of_first_scalar(bytes);
        assert(is_char_boundary(rest, j));
        assert(0 <= j);
        assert(rest[j] == bytes[i]);
        lemma_boundary_after_ascii(rest, j);
    }
}

/// Whether byte position `p` of `b` is plainly a character boundary: the end,
/// an ASCII byte, or the byte after an ASCII byte.
pub open spec fn ascii_boundary(b: Seq<u8>, p: int) -> bool {
    &&& 0 <= p <= b.len()
    &&& (p == 0 || p == b.len() || b[p] < 0x80 || b[p - 1] < 0x80)
}

/// The position of the last `b` before position `i` of `s`, or -1.
pub open spec fn last_index_of(s: Seq<u8>, b: u8, i: int) -> int
    decreases i,
{
    if i <= 0 || i > s.len() {
        -1
    } else if s[i - 1] == b {
        i - 1
    } else {
        last_index_of(s, b, i - 1)
    }
}

pub proof fn lemma_last_index_of(s: Seq<u8>, b: u8, i: int)
    requires
        0 <= i <= s.len(),
    ensures
        -1 <= last_index_of(s, b, i) < i,
        last_index_of(s, b, i) >= 0 ==> s[last_index_of(s, b, i)] == b,
        forall|k: int| last_index_of(s, b, i) < k < i ==> s[k] != b,
    decreases i,
{
    if i > 0 && s[i - 1] != b {
        lemma_last_index_of(s, b, i - 1);
    }
}

/// The last position of `b` in `s`.
pub fn rfind_byte(s: &[u8], b: u8) -> (r: Option<usize>)
    ensures
        r matches Some(p) ==> p == last_index_of(s@, b, s@.len() as int),
        r is None ==> last_index_of(s@, b, s@.len() as int) == -1,
{
    let mut i: usize = s.len();
    while i > 0 && s[i - 1] != b
        invariant
            i <= s@.len(),
            last_index_of(s@, b, i as int) == last_index_of(s@, b, s@.len() as int),
        decreases i,
    {
        i = i - 1;
    }
    if i == 0 {
        None
    } else {
        Some(i - 1)
    }
}


/// The position of the first `b` at or after position `i` of `s`, or the end.
pub open spec fn first_index_of(s: Seq<u8>, b: u8, i: int) -> int
    decreases s.len() - i,
{
    if i < 0 || i >= s.len() {
        s.len() as int
    } else if s[i] == b {
        i
    } else {
        first_index_of(s, b, i + 1)
    }
}

pub proof fn lemma_first_index_of(s: Seq<u8>, b: u8, i: int)
    requires
        0 <= i <= s.len(),
    ensures
        i <= first_index_of(s, b, i) <= s.len(),
        first_index_of(s, b, i) < s.len() ==> s[first_index_of(s, b, i)] == b,
        forall|k: int| i <= k < first_index_of(s, b, i) ==> s[k] != b,
    decreases s.len() - i,
{
    if i < s.len() && s[i] != b {
        lemma_first_index_of(s, b, i + 1);
    }
}

/// The first position of `b` in `s`, or its length.
pub fn find_byte(s: &[u8], b: u8) -> (r: usize)
    ensures
        r == first_index_of(s@, b, 0),
{
    let mut i: usize = 0;
    while i < s.len() && s[i] != b
        invariant
            i <= s@.len(),
            first_index_of(s@, b, i as int) == first_index_of(s@, b, 0),
        decreases s@.len() - i,
    {
        i = i + 1;
    }
    i
}

/// Whether `s` holds the byte `b`.
pub open spec fn has_byte(s: Seq<u8>, b: u8) -> bool {
    exists|i: int| 0 <= i < s.len() && s[i] == b
}

/// Whether `s` holds the byte `b`.
pub fn contains_byte(s: &[u8], b: u8) -> (r: bool)
    ensures
        r == has_byte(s@, b),
{
    let p = find_byte(s, b);
    proof {
        lemma_first_index_of(s@, b, 0);
    }
    p < s.len()
}

/// Splits a string slice at a byte position next to an ASCII byte (or at its end).
pub fn split_at_ascii(s: &str, p: usize) -> (r: (&str, &str))
    requires
        ascii_boundary(s.spec_bytes(), p as int),
    ensures
        r.0.spec_bytes() == s.spec_bytes().subrange(0, p as int),
        r.1.spec_bytes() == s.spec_bytes().subrange(p as int, s.spec_bytes().len() as int),
{
    proof {
        let b = s.spec_bytes();
        encode_utf8_valid_utf8(s@);
        is_char_boundary_start_end_of_seq(b);
        if 0 < p < b.len() {
            if b[p as int] < 0x80 {
                is_char_boundary_iff_not_is_continuation_byte(b, p as int);
            } else {
                is_char_boundary_iff_not_is_continuation_byte(b, p - 1);
                lemma_boundary_after_ascii(b, p - 1);
            }
        }
    }
    s.split_at(p)
}

/// Appends a string slice to an owned string.
pub fn push_str(out: &mut String, s: &str)
    ensures
        string_bytes(*final(out)) == string_bytes(*old(out)) + s.spec_bytes(),
{
    proof {
        lemma_encode_utf8_concat(out@, s@);
    }
    out.append(s);
}

/// An empty owned string.
pub fn new_string() -> (r: String)
    ensures
        string_bytes(r) == Seq::<u8>::empty(),
{
    let r = String::new();
    proof {
        assert(encode_utf8(r@) =~= Seq::<u8>::empty());
    }
    r
}


/// Whether `c` has the Unicode `White_Space` property, as `char::is_whitespace` decides.
pub open spec fn is_unicode_whitespace(c: char) -> bool {
    ||| ('\t' <= c && c <= '\r')
    ||| c == ' '
    ||| c == '\u{85}'
    ||| c == '\u{a0}'
    ||| c == '\u{1680}'
    ||| ('\u{2000}' <= c && c <= '\u{200a}')
    ||| c == '\u{2028}'
    ||| c == '\u{2029}'
    ||| c == '\u{202f}'
    ||| c == '\u{205f}'
    ||| c == '\u{3000}'
}

/// `cs` without its leading whitespace.
pub open spec fn trim_start_chars(cs: Seq<char>) -> Seq<char>
    decreases cs.len(),
{
    if cs.len() > 0 && is_unicode_whitespace(cs[0]) {
        trim_start_chars(cs.drop_first())
    } else {
        cs
    }
}

/// `cs` without its trailing whitespace.
pub open spec fn trim_end_chars(cs: Seq<char>) -> Seq<char>
    decreases cs.len(),
{
    if cs.len() > 0 && is_unicode_whitespace(cs.last()) {
        trim_end_chars(cs.drop_last())
    } else {
        cs
    }
}

/// `cs` without leading and trailing whitespace.
pub open spec fn trim_chars(cs: Seq<char>) -> Seq<char> {
    trim_end_chars(trim_start_chars(cs))
}

/// The bytes of the trimmed text that `b` encodes.
pub open spec fn trim_bytes(b: Seq<u8>) -> Seq<u8> {
    encode_utf8(trim_chars(decode_utf8(b)))
}

/// Whether `c` has the Unicode `White_Space` property.
fn is_whitespace_char(c: char) -> (r: bool)
    ensures
        r == is_unicode_whitespace(c),
{
    ('\t' <= c && c <= '\r') || c == ' ' || c == '\u{85}' || c == '\u{a0}' || c == '\u{1680}' || (
    '\u{2000}' <= c && c <= '\u{200a}') || c == '\u{2028}' || c == '\u{2029}' || c == '\u{202f}'
        || c == '\u{205f}' || c == '\u{3000}'
}

/// Removes leading and trailing characters with the Unicode `White_Space`
/// property.
fn trim_str<'a>(s: &'a str) -> (r: &'a str)
    ensures
        r@ == trim_chars(s@),
{
    let ghost cs = s@;
    let n = s.unicode_len();
    let mut a: usize = 0;
    proof {
        assert(cs.subrange(0, n as int) =~= cs);
    }
    while a < n && is_whitespace_char(s.get_char(a))
        invariant
            cs == s@,
            n == cs.len(),
            a <= n,
            trim_start_chars(cs) == trim_start_chars(cs.subrange(a as int, n as int)),
        decreases n - a,
    {
        proof {
            assert(cs.subrange(a as int, n as int).drop_first() =~= cs.subrange(a + 1, n as int));
        }
        a = a + 1;
    }
    proof {
        if a < n {
            assert(cs.subrange(a as int, n as int)[0] == cs[a as int]);
        }
    }
    let mut b: usize = n;
    while b > a && is_whitespace_char(s.get_char(b - 1))
        invariant
            cs == s@,
            n == cs.len(),
            a <= b <= n,
            trim_start_chars(cs) == cs.subrange(a as int, n as int),
            trim_chars(cs) == trim_end_chars(cs.subrange(a as int, b as int)),
        decreases b - a,
    {
        proof {
            assert(cs.subrange(a as int, b as int).drop_last() =~= cs.subrange(a as int, b - 1));
            assert(cs.subrange(a as int, b as int).last() == cs[b - 1]);
        }
        b = b - 1;
    }
    proof {
        if b > a {
            assert(cs.subrange(a as int, b as int).last() == cs[b - 1]);
        }
    }
    s.substring_char(a, b)
}

/// Removes leading and trailing whitespace, described by bytes.
pub fn trim<'a>(s: &'a str) -> (r: &'a str)
    ensures
        r.spec_bytes() == trim_bytes(s.spec_bytes()),
{
    proof {
        encode_utf8_decode_utf8(s@);
    }
    trim_str(s)
}

/// Whether `c` is an ASCII decimal digit.
pub open spec fn is_digit_char(c: char) -> bool {
    '0' <= c && c <= '9'
}

/// The value of a run of decimal digits.
pub open spec fn digits_value(cs: Seq<char>) -> nat
    decreases cs.len(),
{
    if cs.len() == 0 {
        0
    } else {
        digits_value(cs.drop_last()) * 10 + ((cs.last() as nat) - 48) as nat
    }
}

/// The digits of an unsigned number, after an optional `+` sign.
pub open spec fn unsigned_digits(cs: Seq<char>) -> Seq<char> {
    if cs.len() > 0 && cs[0] == '+' {
        cs.drop_first()
    } else {
        cs
    }
}

/// Whether `cs` is an optional `+` followed by one or more decimal digits.
pub open spec fn is_unsigned_number(cs: Seq<char>) -> bool {
    let d = unsigned_digits(cs);
    d.len() > 0 && forall|i: int| 0 <= i < d.len() ==> is_digit_char(#[trigger] d[i])
}

/// The `usize` that `cs` spells, as `str::parse::<usize>` reads it.
pub open spec fn parse_usize_chars(cs: Seq<char>) -> Option<usize> {
    if is_unsigned_number(cs) && digits_value(unsigned_digits(cs)) <= usize::MAX {
        Some(digits_value(unsigned_digits(cs)) as usize)
    } else {
        None
    }
}

/// The `u32` that `cs` spells, as `str::parse::<u32>` reads it.
pub open spec fn parse_u32_chars(cs: Seq<char>) -> Option<u32> {
    if is_unsigned_number(cs) && digits_value(unsigned_digits(cs)) <= u32::MAX {
        Some(digits_value(unsigned_digits(cs)) as u32)
    } else {
        None
    }
}

/// Parses a `usize`: an optional `+`, then one or more decimal digits, of
/// a value that fits.
pub(crate) fn parse_usize_str(s: &str) -> (r: Option<usize>)
    ensures
        r == parse_usize_chars(s@),
{
    let n = s.unicode_len();
    let mut i: usize = 0;
    if n > 0 && s.get_char(0) == '+' {
        i = 1;
    }
    let ghost cs = s@;
    proof {
        assert(unsigned_digits(cs) =~= cs.subrange(i as int, n as int));
    }
    if i >= n {
        return None;
    }
    let mut v: usize = 0;
    let mut over = false;
    let ghost mut big: nat = 0;
    let mut j = i;
    proof {
        assert(cs.subrange(i as int, i as int) =~= Seq::<char>::empty());
    }
    while j < n
        invariant
            cs == s@,
            n == cs.len(),
            i <= j <= n,
            unsigned_digits(cs) == cs.subrange(i as int, n as int),
            forall|k: int| i <= k < j ==> is_digit_char(#[trigger] cs[k]),
            big == digits_value(cs.subrange(i as int, j as int)),
            over == (big > usize::MAX),
            !over ==> v == big,
        decreases n - j,
    {
        let c = s.get_char(j);
        if !('0' <= c && c <= '9') {
            proof {
                let d = unsigned_digits(cs);
                assert(d[j - i] == c);
                assert(!is_digit_char(d[j - i]));
            }
            return None;
        }
        let dv = (c as u32 - 48) as usize;
        proof {
            assert(cs.subrange(i as int, j + 1).drop_last() =~= cs.subrange(i as int, j as int));
            assert(cs.subrange(i as int, j + 1).last() == c);
            big = (big * 10 + dv) as nat;
        }
        if !over {
            if v <= (usize::MAX - dv) / 10 {
                v = v * 10 + dv;
            } else {
                over = true;
            }
        }
        j = j + 1;
    }
    proof {
        assert(cs.subrange(i as int, n as int).len() > 0);
    }
    if over {
        None
    } else {
        Some(v)
    }
}

/// Parses a `u32`: an optional `+`, then one or more decimal digits, of a
/// value that fits.
pub(crate) fn parse_u32_str(s: &str) -> (r: Option<u32>)
    ensures
        r == parse_u32_chars(s@),
{
    match parse_usize_str(s) {
        Some(v) => if v <= u32::MAX as usize {
            Some(v as u32)
        } else {
            None
        },
        None => None,
    }
}

/// The decimal digits of `n`, without leading zeros.
pub open spec fn decimal_chars(n: nat) -> Seq<char>
    decreases n,
{
    if n < 10 {
        seq![((n + 48) as u8) as char]
    } else {
        decimal_chars(n / 10) + seq![(((n % 10) + 48) as u8) as char]
    }
}

/// The decimal digit `d`, as a string.
fn digit_str(d: usize) -> (r: &'static str)
    requires
        d < 10,
    ensures
        r@ == seq![((d + 48) as u8) as char],
{
    proof {
        reveal_strlit("0");
        reveal_strlit("1");
        reveal_strlit("2");
        reveal_strlit("3");
        reveal_strlit("4");
        reveal_strlit("5");
        reveal_strlit("6");
        reveal_strlit("7");
        reveal_strlit("8");
        reveal_strlit("9");
    }
    if d == 0 {
        "0"
    } else if d == 1 {
        "1"
    } else if d == 2 {
        "2"
    } else if d == 3 {
        "3"
    } else if d == 4 {
        "4"
    } else if d == 5 {
        "5"
    } else if d == 6 {
        "6"
    } else if d == 7 {
        "7"
    } else if d == 8 {
        "8"
    } else {
        "9"
    }
}

/// Formats `n` in decimal.
pub(crate) fn usize_to_string(n: usize) -> (r: String)
    ensures
        r@ == decimal_chars(n as nat),
    decreases n,
{
    if n < 10 {
        String::from_str(digit_str(n))
    } else {
        let mut s = usize_to_string(n / 10);
        s.append(digit_str(n % 10));
        s
    }
}

/// The bytes `Caused by: `.
pub open spec fn caused_by_bytes() -> Seq<u8> {
    seq![67u8, 97u8, 117u8, 115u8, 101u8, 100u8, 32u8, 98u8, 121u8, 58u8, 32u8]
}

pub proof fn lemma_caused_by_bytes()
    ensures
        "Caused by: ".spec_bytes() == caused_by_bytes(),
{
    reveal_strlit("Caused by: ");
    broadcast use is_ascii_spec_bytes;
    assert(is_ascii("Caused by: "));
    assert("Caused by: ".spec_bytes() =~= caused_by_bytes());
}

} // verus!

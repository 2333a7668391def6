//! A reader for the small JSON objects that R8 writes into mapping comments.
//!
//! Supported values are strings without escapes, unsigned integers, the
//! literals `true`, `false` and `null`, arrays of strings, and objects that map
//! strings to unsigned integers. Anything else is rejected.

use vstd::prelude::*;
use vstd::string::*;
use vstd::utf8::*;

use crate::text::str_from_utf8;

verus! {

/// What a JSON value holds, by bytes.
pub enum JsonModel {
    Str(Seq<u8>),
    Num(usize),
    Lit,
    StrArray(Seq<Seq<u8>>),
    NumObject(Seq<(Seq<u8>, usize)>),
}

/// A JSON value.
pub enum JsonValue<'s> {
    Str(&'s str),
    Num(usize),
    Lit,
    StrArray(Vec<&'s str>),
    NumObject(Vec<(&'s str, usize)>),
}

impl<'s> View for JsonValue<'s> {
    type V = JsonModel;

    open spec fn view(&self) -> JsonModel {
        match self {
            JsonValue::Str(s) => JsonModel::Str(s.spec_bytes()),
            JsonValue::Num(n) => JsonModel::Num(*n),
            JsonValue::Lit => JsonModel::Lit,
            JsonValue::StrArray(v) => JsonModel::StrArray(
                v@.map_values(|s: &str| s.spec_bytes()),
            ),
            JsonValue::NumObject(v) => JsonModel::NumObject(
                v@.map_values(|p: (&str, usize)| (p.0.spec_bytes(), p.1)),
            ),
        }
    }
}

/// Whether `b` is JSON whitespace inside a line.
pub open spec fn is_json_ws(b: u8) -> bool {
    b == 32 || b == 9
}

/// The first position at or after `i` that is not whitespace, else the end.
pub open spec fn first_non_ws(s: Seq<u8>, i: int) -> int
    decreases s.len() - i,
{
    if i < 0 || i >= s.len() {
        s.len() as int
    } else if !is_json_ws(s[i]) {
        i
    } else {
        first_non_ws(s, i + 1)
    }
}

/// `s` without leading whitespace.
pub open spec fn skip_ws(s: Seq<u8>) -> Seq<u8> {
    s.subrange(first_non_ws(s, 0), s.len() as int)
}

proof fn lemma_first_non_ws(s: Seq<u8>, i: int)
    requires
        0 <= i <= s.len(),
    ensures
        i <= first_non_ws(s, i) <= s.len(),
    decreases s.len() - i,
{
    if i < s.len() && is_json_ws(s[i]) {
        lemma_first_non_ws(s, i + 1);
    }
}

fn skip_whitespace(s: &[u8]) -> (r: &[u8])
    ensures
        r@ == skip_ws(s@),
{
    let mut i: usize = 0;
    while i < s.len() && (s[i] == 32 || s[i] == 9)
        invariant
            i <= s@.len(),
            first_non_ws(s@, i as int) == first_non_ws(s@, 0),
        decreases s@.len() - i,
    {
        i = i + 1;
    }
    proof {
        lemma_first_non_ws(s@, i as int);
    }
    s.split_at(i).1
}

/// Whether `b` ends the text of a JSON string (or makes it unsupported).
pub open spec fn ends_string(b: u8) -> bool {
    b == 34 || b == 92 || b < 32
}

/// The first position at or after `i` that ends a string's text, else the end.
pub open spec fn string_end(s: Seq<u8>, i: int) -> int
    decreases s.len() - i,
{
    if i < 0 || i >= s.len() {
        s.len() as int
    } else if ends_string(s[i]) {
        i
    } else {
        string_end(s, i + 1)
    }
}

proof fn lemma_string_end(s: Seq<u8>, i: int)
    requires
        0 <= i <= s.len(),
    ensures
        i <= string_end(s, i) <= s.len(),
    decreases s.len() - i,
{
    if i < s.len() && !ends_string(s[i]) {
        lemma_string_end(s, i + 1);
    }
}

/// A JSON string at the start of `s`: its text and the bytes after it.
pub open spec fn json_string(s: Seq<u8>) -> Option<(Seq<u8>, Seq<u8>)> {
    if s.len() > 0 && s[0] == 34 {
        let p = string_end(s, 1);
        if p < s.len() && s[p] == 34 && valid_utf8(s.subrange(1, p)) {
            Some((s.subrange(1, p), s.subrange(p + 1, s.len() as int)))
        } else {
            None
        }
    } else {
        None
    }
}

/// A string and the bytes after it.
pub open spec fn str_rest_view(r: Option<(&str, &[u8])>) -> Option<(Seq<u8>, Seq<u8>)> {
    match r {
        Some((v, rest)) => Some((v.spec_bytes(), rest@)),
        None => None,
    }
}

fn read_string<'a>(s: &'a [u8]) -> (r: Option<(&'a str, &'a [u8])>)
    ensures
        str_rest_view(r) == json_string(s@),
{
    if s.len() == 0 || s[0] != 34 {
        return None;
    }
    let mut i: usize = 1;
    while i < s.len() && !(s[i] == 34 || s[i] == 92 || s[i] < 32)
        invariant
            1 <= i <= s@.len(),
            string_end(s@, i as int) == string_end(s@, 1),
        decreases s@.len() - i,
    {
        i = i + 1;
    }
    proof {
        lemma_string_end(s@, i as int);
    }
    if i >= s.len() || s[i] != 34 {
        return None;
    }
    let (head, rest) = s.split_at(i + 1);
    let (_quote, text_and_quote) = head.split_at(1);
    let (text, _close) = text_and_quote.split_at(i - 1);
    proof {
        assert(text@ =~= s@.subrange(1, i as int));
        assert(rest@ =~= s@.subrange(i + 1, s@.len() as int));
    }
    match str_from_utf8(text) {
        Some(t) => Some((t, rest)),
        None => None,
    }
}

/// Whether `b` is an ASCII digit.
pub open spec fn is_ascii_digit(b: u8) -> bool {
    48 <= b && b <= 57
}

/// The first position at or after `i` that is not an ASCII digit, else the end.
pub open spec fn digits_end(s: Seq<u8>, i: int) -> int
    decreases s.len() - i,
{
    if i < 0 || i >= s.len() {
        s.len() as int
    } else if !is_ascii_digit(s[i]) {
        i
    } else {
        digits_end(s, i + 1)
    }
}

proof fn lemma_digits_end(s: Seq<u8>, i: int)
    requires
        0 <= i <= s.len(),
    ensures
        i <= digits_end(s, i) <= s.len(),
        forall|k: int| i <= k < digits_end(s, i) ==> is_ascii_digit(#[trigger] s[k]),
    decreases s.len() - i,
{
    if i < s.len() && is_ascii_digit(s[i]) {
        lemma_digits_end(s, i + 1);
    }
}

/// The value of the decimal digits `d`.
pub open spec fn digit_bytes_value(d: Seq<u8>) -> nat
    decreases d.len(),
{
    if d.len() == 0 {
        0
    } else {
        digit_bytes_value(d.drop_last()) * 10 + ((d.last() as nat) - 48) as nat
    }
}

/// Whether a number may not continue with `b` (a fraction or an exponent).
pub open spec fn continues_number(b: u8) -> bool {
    b == 46 || b == 101 || b == 69
}

/// An unsigned JSON integer at the start of `s` that fits a `usize`, and the bytes after it.
pub open spec fn json_number(s: Seq<u8>) -> Option<(usize, Seq<u8>)> {
    let p = digits_end(s, 0);
    let d = s.subrange(0, p);
    if p == 0 || (p > 1 && s[0] == 48) || (p < s.len() && continues_number(s[p]))
        || digit_bytes_value(d) > usize::MAX {
        None
    } else {
        Some((digit_bytes_value(d) as usize, s.subrange(p, s.len() as int)))
    }
}

/// A number and the bytes after it.
pub open spec fn num_rest_view(r: Option<(usize, &[u8])>) -> Option<(usize, Seq<u8>)> {
    match r {
        Some((v, rest)) => Some((v, rest@)),
        None => None,
    }
}

fn read_number(s: &[u8]) -> (r: Option<(usize, &[u8])>)
    ensures
        num_rest_view(r) == json_number(s@),
{
    let mut i: usize = 0;
    let mut value: usize = 0;
    let mut overflow = false;
    while i < s.len() && 48 <= s[i] && s[i] <= 57
        invariant
            i <= s@.len(),
            digits_end(s@, i as int) == digits_end(s@, 0),
            forall|k: int| 0 <= k < i ==> is_ascii_digit(#[trigger] s@[k]),
            !overflow ==> value == digit_bytes_value(s@.subrange(0, i as int)),
            overflow ==> digit_bytes_value(s@.subrange(0, i as int)) > usize::MAX,
        decreases s@.len() - i,
    {
        let d = (s[i] - 48) as usize;
        proof {
            assert(s@.subrange(0, i + 1).drop_last() =~= s@.subrange(0, i as int));
        }
        if overflow || value > (usize::MAX - d) / 10 {
            proof {
                let prev = digit_bytes_value(s@.subrange(0, i as int));
                assert(digit_bytes_value(s@.subrange(0, i + 1)) == prev * 10 + d);
                if !overflow {
                    assert(prev * 10 + d > usize::MAX) by (nonlinear_arith)
                        requires
                            prev > (usize::MAX - d) / 10,
                            d <= 9,
                    ;
                } else {
                    assert(prev * 10 + d > usize::MAX) by (nonlinear_arith)
                        requires
                            prev > usize::MAX,
                    ;
                }
            }
            overflow = true;
        } else {
            proof {
                assert(value * 10 + d <= usize::MAX) by (nonlinear_arith)
                    requires
                        value <= (usize::MAX - d) / 10,
                        d <= 9,
                ;
            }
            value = value * 10 + d;
        }
        i = i + 1;
    }
    proof {
        lemma_digits_end(s@, i as int);
    }
    if i == 0 || (i > 1 && s[0] == 48) || (i < s.len() && (s[i] == 46 || s[i] == 101 || s[i]
        == 69)) || overflow {
        return None;
    }
    Some((value, s.split_at(i).1))
}

/// `s` without the ASCII word `w`, when it starts with it.
pub open spec fn strip_word(s: Seq<u8>, w: Seq<u8>) -> Option<Seq<u8>> {
    if w.len() <= s.len() && s.subrange(0, w.len() as int) == w {
        Some(s.subrange(w.len() as int, s.len() as int))
    } else {
        None
    }
}

pub open spec fn word_true() -> Seq<u8> {
    seq![116u8, 114u8, 117u8, 101u8]
}

pub open spec fn word_false() -> Seq<u8> {
    seq![102u8, 97u8, 108u8, 115u8, 101u8]
}

pub open spec fn word_null() -> Seq<u8> {
    seq![110u8, 117u8, 108u8, 108u8]
}

fn strip_bytes<'a>(s: &'a [u8], w: &[u8]) -> (r: Option<&'a [u8]>)
    ensures
        r matches Some(rest) ==> strip_word(s@, w@) == Some(rest@),
        r is None ==> strip_word(s@, w@) is None,
{
    if w.len() > s.len() {
        return None;
    }
    let mut i: usize = 0;
    while i < w.len()
        invariant
            w@.len() <= s@.len(),
            i <= w@.len(),
            forall|k: int| 0 <= k < i ==> s@[k] == w@[k],
        decreases w@.len() - i,
    {
        if s[i] != w[i] {
            proof {
                assert(s@.subrange(0, w@.len() as int)[i as int] != w@[i as int]);
            }
            return None;
        }
        i = i + 1;
    }
    proof {
        assert(s@.subrange(0, w@.len() as int) =~= w@);
    }
    Some(s.split_at(w.len()).1)
}

/// A literal `true`, `false` or `null` at the start of `s`, and the bytes after it.
pub open spec fn json_literal(s: Seq<u8>) -> Option<Seq<u8>> {
    match strip_word(s, word_true()) {
        Some(r) => Some(r),
        None => match strip_word(s, word_false()) {
            Some(r) => Some(r),
            None => strip_word(s, word_null()),
        },
    }
}

fn read_literal(s: &[u8]) -> (r: Option<&[u8]>)
    ensures
        r matches Some(rest) ==> json_literal(s@) == Some(rest@),
        r is None ==> json_literal(s@) is None,
{
    let t: [u8; 4] = [116, 114, 117, 101];
    let f: [u8; 5] = [102, 97, 108, 115, 101];
    let n: [u8; 4] = [110, 117, 108, 108];
    proof {
        assert(t@ =~= word_true());
        assert(f@ =~= word_false());
        assert(n@ =~= word_null());
    }
    match strip_bytes(s, t.as_slice()) {
        Some(r) => Some(r),
        None => match strip_bytes(s, f.as_slice()) {
            Some(r) => Some(r),
            None => strip_bytes(s, n.as_slice()),
        },
    }
}

/// The rest of an array of strings, after `[` and whitespace: its strings and the bytes after `]`.
pub open spec fn json_string_items(s: Seq<u8>) -> Option<(Seq<Seq<u8>>, Seq<u8>)>
    decreases s.len(),
{
    match json_string(s) {
        None => None,
        Some((item, r1)) => {
            let r2 = skip_ws(r1);
            if r2.len() > 0 && r2[0] == 44 {
                let r3 = skip_ws(r2.drop_first());
                if r3.len() < s.len() {
                    match json_string_items(r3) {
                        None => None,
                        Some((items, r4)) => Some((seq![item] + items, r4)),
                    }
                } else {
                    None
                }
            } else if r2.len() > 0 && r2[0] == 93 {
                Some((seq![item], r2.drop_first()))
            } else {
                None
            }
        },
    }
}

/// An array of strings at the start of `s`, and the bytes after it.
pub open spec fn json_string_array(s: Seq<u8>) -> Option<(Seq<Seq<u8>>, Seq<u8>)> {
    if s.len() > 0 && s[0] == 91 {
        let r = skip_ws(s.drop_first());
        if r.len() > 0 && r[0] == 93 {
            Some((Seq::empty(), r.drop_first()))
        } else {
            json_string_items(r)
        }
    } else {
        None
    }
}

/// The rest of an object of numbers, after `{` and whitespace: its entries and the bytes after `}`.
pub open spec fn json_number_entries(s: Seq<u8>) -> Option<(Seq<(Seq<u8>, usize)>, Seq<u8>)>
    decreases s.len(),
{
    match json_string(s) {
        None => None,
        Some((key, r1)) => {
            let r2 = skip_ws(r1);
            if r2.len() > 0 && r2[0] == 58 {
                match json_number(skip_ws(r2.drop_first())) {
                    None => None,
                    Some((n, r3)) => {
                        let r4 = skip_ws(r3);
                        if r4.len() > 0 && r4[0] == 44 {
                            let r5 = skip_ws(r4.drop_first());
                            if r5.len() < s.len() {
                                match json_number_entries(r5) {
                                    None => None,
                                    Some((entries, r6)) => Some((seq![(key, n)] + entries, r6)),
                                }
                            } else {
                                None
                            }
                        } else if r4.len() > 0 && r4[0] == 125 {
                            Some((seq![(key, n)], r4.drop_first()))
                        } else {
                            None
                        }
                    },
                }
            } else {
                None
            }
        },
    }
}

/// An object of numbers at the start of `s`, and the bytes after it.
pub open spec fn json_number_object(s: Seq<u8>) -> Option<(Seq<(Seq<u8>, usize)>, Seq<u8>)> {
    if s.len() > 0 && s[0] == 123 {
        let r = skip_ws(s.drop_first());
        if r.len() > 0 && r[0] == 125 {
            Some((Seq::empty(), r.drop_first()))
        } else {
            json_number_entries(r)
        }
    } else {
        None
    }
}

/// A JSON value at the start of `s`, and the bytes after it.
pub open spec fn json_value(s: Seq<u8>) -> Option<(JsonModel, Seq<u8>)> {
    if s.len() == 0 {
        None
    } else if s[0] == 34 {
        match json_string(s) {
            Some((v, r)) => Some((JsonModel::Str(v), r)),
            None => None,
        }
    } else if is_ascii_digit(s[0]) {
        match json_number(s) {
            Some((v, r)) => Some((JsonModel::Num(v), r)),
            None => None,
        }
    } else if s[0] == 91 {
        match json_string_array(s) {
            Some((v, r)) => Some((JsonModel::StrArray(v), r)),
            None => None,
        }
    } else if s[0] == 123 {
        match json_number_object(s) {
            Some((v, r)) => Some((JsonModel::NumObject(v), r)),
            None => None,
        }
    } else {
        match json_literal(s) {
            Some(r) => Some((JsonModel::Lit, r)),
            None => None,
        }
    }
}

/// The rest of an object, after `{` and whitespace: its members and the bytes after `}`.
pub open spec fn json_members(s: Seq<u8>) -> Option<(Seq<(Seq<u8>, JsonModel)>, Seq<u8>)>
    decreases s.len(),
{
    match json_string(s) {
        None => None,
        Some((key, r1)) => {
            let r2 = skip_ws(r1);
            if r2.len() > 0 && r2[0] == 58 {
                match json_value(skip_ws(r2.drop_first())) {
                    None => None,
                    Some((v, r3)) => {
                        let r4 = skip_ws(r3);
                        if r4.len() > 0 && r4[0] == 44 {
                            let r5 = skip_ws(r4.drop_first());
                            if r5.len() < s.len() {
                                match json_members(r5) {
                                    None => None,
                                    Some((members, r6)) => Some((seq![(key, v)] + members, r6)),
                                }
                            } else {
                                None
                            }
                        } else if r4.len() > 0 && r4[0] == 125 {
                            Some((seq![(key, v)], r4.drop_first()))
                        } else {
                            None
                        }
                    },
                }
            } else {
                None
            }
        },
    }
}

/// The members of the JSON object that makes up all of `s`, surrounding whitespace aside.
pub open spec fn json_object(s: Seq<u8>) -> Option<Seq<(Seq<u8>, JsonModel)>> {
    let t = skip_ws(s);
    if t.len() > 0 && t[0] == 123 {
        let r = skip_ws(t.drop_first());
        let parsed = if r.len() > 0 && r[0] == 125 {
            Some((Seq::<(Seq<u8>, JsonModel)>::empty(), r.drop_first()))
        } else {
            json_members(r)
        };
        match parsed {
            Some((members, rest)) => if skip_ws(rest).len() == 0 {
                Some(members)
            } else {
                None
            },
            None => None,
        }
    } else {
        None
    }
}

/// Puts `prefix` in front of the items of a parse result.
pub open spec fn prepend<T>(prefix: Seq<T>, r: Option<(Seq<T>, Seq<u8>)>) -> Option<(Seq<T>, Seq<u8>)> {
    match r {
        Some((v, rest)) => Some((prefix + v, rest)),
        None => None,
    }
}

/// Strings and the bytes after them.
pub open spec fn items_view(r: Option<(Vec<&str>, &[u8])>) -> Option<(Seq<Seq<u8>>, Seq<u8>)> {
    match r {
        Some((v, rest)) => Some((v@.map_values(|s: &str| s.spec_bytes()), rest@)),
        None => None,
    }
}

fn drop_one(s: &[u8]) -> (r: &[u8])
    requires
        s@.len() > 0,
    ensures
        r@ == s@.drop_first(),
{
    let r = s.split_at(1).1;
    proof {
        assert(r@ =~= s@.drop_first());
    }
    r
}

fn read_string_items<'a>(s: &'a [u8]) -> (r: Option<(Vec<&'a str>, &'a [u8])>)
    ensures
        items_view(r) == json_string_items(s@),
{
    let mut items: Vec<&'a str> = Vec::new();
    let mut cur = s;
    loop
        invariant
            json_string_items(s@) == prepend(
                items@.map_values(|x: &str| x.spec_bytes()),
                json_string_items(cur@),
            ),
        decreases cur@.len(),
    {
        let ghost prefix = items@.map_values(|x: &str| x.spec_bytes());
        match read_string(cur) {
            None => return None,
            Some((item, r1)) => {
                let r2 = skip_whitespace(r1);
                if r2.len() > 0 && r2[0] == 44 {
                    let r3 = skip_whitespace(drop_one(r2));
                    if r3.len() < cur.len() {
                        items.push(item);
                        proof {
                            assert(items@.map_values(|x: &str| x.spec_bytes()) =~= prefix.push(
                                item.spec_bytes(),
                            ));
                            match json_string_items(r3@) {
                                Some((v, rest)) => {
                                    assert(prefix + (seq![item.spec_bytes()] + v) =~= prefix.push(
                                        item.spec_bytes(),
                                    ) + v);
                                },
                                None => {},
                            }
                        }
                        cur = r3;
                    } else {
                        return None;
                    }
                } else if r2.len() > 0 && r2[0] == 93 {
                    items.push(item);
                    proof {
                        assert(items@.map_values(|x: &str| x.spec_bytes()) =~= prefix + seq![
                            item.spec_bytes(),
                        ]);
                    }
                    return Some((items, drop_one(r2)));
                } else {
                    return None;
                }
            },
        }
    }
}

fn read_string_array<'a>(s: &'a [u8]) -> (r: Option<(Vec<&'a str>, &'a [u8])>)
    ensures
        items_view(r) == json_string_array(s@),
{
    if s.len() == 0 || s[0] != 91 {
        return None;
    }
    let r = skip_whitespace(drop_one(s));
    if r.len() > 0 && r[0] == 93 {
        let v: Vec<&'a str> = Vec::new();
        proof {
            assert(v@.map_values(|x: &str| x.spec_bytes()) =~= Seq::<Seq<u8>>::empty());
        }
        return Some((v, drop_one(r)));
    }
    let res = read_string_items(r);
    proof {
        match json_string_items(r@) {
            Some((v, rest)) => {
                assert(Seq::<Seq<u8>>::empty() + v =~= v);
            },
            None => {},
        }
    }
    res
}

/// Entries and the bytes after them.
pub open spec fn entries_view(r: Option<(Vec<(&str, usize)>, &[u8])>) -> Option<
    (Seq<(Seq<u8>, usize)>, Seq<u8>),
> {
    match r {
        Some((v, rest)) => Some((v@.map_values(|p: (&str, usize)| (p.0.spec_bytes(), p.1)), rest@)),
        None => None,
    }
}

fn read_number_entries<'a>(s: &'a [u8]) -> (r: Option<(Vec<(&'a str, usize)>, &'a [u8])>)
    ensures
        entries_view(r) == json_number_entries(s@),
{
    let mut entries: Vec<(&'a str, usize)> = Vec::new();
    let mut cur = s;
    loop
        invariant
            json_number_entries(s@) == prepend(
                entries@.map_values(|p: (&str, usize)| (p.0.spec_bytes(), p.1)),
                json_number_entries(cur@),
            ),
        decreases cur@.len(),
    {
        let ghost prefix = entries@.map_values(|p: (&str, usize)| (p.0.spec_bytes(), p.1));
        let (key, r1) = match read_string(cur) {
            Some(v) => v,
            None => return None,
        };
        let r2 = skip_whitespace(r1);
        if !(r2.len() > 0 && r2[0] == 58) {
            return None;
        }
        let (n, r3) = match read_number(skip_whitespace(drop_one(r2))) {
            Some(v) => v,
            None => return None,
        };
        let r4 = skip_whitespace(r3);
        if r4.len() > 0 && r4[0] == 44 {
            let r5 = skip_whitespace(drop_one(r4));
            if r5.len() < cur.len() {
                entries.push((key, n));
                proof {
                    assert(entries@.map_values(|p: (&str, usize)| (p.0.spec_bytes(), p.1))
                        =~= prefix.push((key.spec_bytes(), n)));
                    match json_number_entries(r5@) {
                        Some((v, rest)) => {
                            assert(prefix + (seq![(key.spec_bytes(), n)] + v) =~= prefix.push(
                                (key.spec_bytes(), n),
                            ) + v);
                        },
                        None => {},
                    }
                }
                cur = r5;
            } else {
                return None;
            }
        } else if r4.len() > 0 && r4[0] == 125 {
            entries.push((key, n));
            proof {
                assert(entries@.map_values(|p: (&str, usize)| (p.0.spec_bytes(), p.1)) =~= prefix
                    + seq![(key.spec_bytes(), n)]);
            }
            return Some((entries, drop_one(r4)));
        } else {
            return None;
        }
    }
}

fn read_number_object<'a>(s: &'a [u8]) -> (r: Option<(Vec<(&'a str, usize)>, &'a [u8])>)
    ensures
        entries_view(r) == json_number_object(s@),
{
    if s.len() == 0 || s[0] != 123 {
        return None;
    }
    let r = skip_whitespace(drop_one(s));
    if r.len() > 0 && r[0] == 125 {
        let v: Vec<(&'a str, usize)> = Vec::new();
        proof {
            assert(v@.map_values(|p: (&str, usize)| (p.0.spec_bytes(), p.1)) =~= Seq::<
                (Seq<u8>, usize),
            >::empty());
        }
        return Some((v, drop_one(r)));
    }
    let res = read_number_entries(r);
    proof {
        match json_number_entries(r@) {
            Some((v, rest)) => {
                assert(Seq::<(Seq<u8>, usize)>::empty() + v =~= v);
            },
            None => {},
        }
    }
    res
}

/// A value and the bytes after it.
pub open spec fn value_view(r: Option<(JsonValue, &[u8])>) -> Option<(JsonModel, Seq<u8>)> {
    match r {
        Some((v, rest)) => Some((v@, rest@)),
        None => None,
    }
}

fn read_value<'a>(s: &'a [u8]) -> (r: Option<(JsonValue<'a>, &'a [u8])>)
    ensures
        value_view(r) == json_value(s@),
{
    if s.len() == 0 {
        None
    } else if s[0] == 34 {
        match read_string(s) {
            Some((v, r)) => Some((JsonValue::Str(v), r)),
            None => None,
        }
    } else if 48 <= s[0] && s[0] <= 57 {
        match read_number(s) {
            Some((v, r)) => Some((JsonValue::Num(v), r)),
            None => None,
        }
    } else if s[0] == 91 {
        match read_string_array(s) {
            Some((v, r)) => Some((JsonValue::StrArray(v), r)),
            None => None,
        }
    } else if s[0] == 123 {
        match read_number_object(s) {
            Some((v, r)) => Some((JsonValue::NumObject(v), r)),
            None => None,
        }
    } else {
        match read_literal(s) {
            Some(r) => Some((JsonValue::Lit, r)),
            None => None,
        }
    }
}

/// The members of an object, by bytes.
pub open spec fn members_model(v: Seq<(&str, JsonValue)>) -> Seq<(Seq<u8>, JsonModel)> {
    v.map_values(|p: (&str, JsonValue)| (p.0.spec_bytes(), p.1@))
}

/// Members and the bytes after them.
pub open spec fn members_view(r: Option<(Vec<(&str, JsonValue)>, &[u8])>) -> Option<
    (Seq<(Seq<u8>, JsonModel)>, Seq<u8>),
> {
    match r {
        Some((v, rest)) => Some((members_model(v@), rest@)),
        None => None,
    }
}

fn read_members<'a>(s: &'a [u8]) -> (r: Option<(Vec<(&'a str, JsonValue<'a>)>, &'a [u8])>)
    ensures
        members_view(r) == json_members(s@),
{
    let mut members: Vec<(&'a str, JsonValue<'a>)> = Vec::new();
    let mut cur = s;
    loop
        invariant
            json_members(s@) == prepend(members_model(members@), json_members(cur@)),
        decreases cur@.len(),
    {
        let ghost prefix = members_model(members@);
        let (key, r1) = match read_string(cur) {
            Some(v) => v,
            None => return None,
        };
        let r2 = skip_whitespace(r1);
        if !(r2.len() > 0 && r2[0] == 58) {
            return None;
        }
        let (value, r3) = match read_value(skip_whitespace(drop_one(r2))) {
            Some(v) => v,
            None => return None,
        };
        let ghost vm = value@;
        let r4 = skip_whitespace(r3);
        if r4.len() > 0 && r4[0] == 44 {
            let r5 = skip_whitespace(drop_one(r4));
            if r5.len() < cur.len() {
                members.push((key, value));
                proof {
                    assert(members_model(members@) =~= prefix.push((key.spec_bytes(), vm)));
                    match json_members(r5@) {
                        Some((v, rest)) => {
                            assert(prefix + (seq![(key.spec_bytes(), vm)] + v) =~= prefix.push(
                                (key.spec_bytes(), vm),
                            ) + v);
                        },
                        None => {},
                    }
                }
                cur = r5;
            } else {
                return None;
            }
        } else if r4.len() > 0 && r4[0] == 125 {
            members.push((key, value));
            proof {
                assert(members_model(members@) =~= prefix + seq![(key.spec_bytes(), vm)]);
            }
            return Some((members, drop_one(r4)));
        } else {
            return None;
        }
    }
}

/// Reads the JSON object that makes up all of `s`.
pub fn read_object<'a>(s: &'a [u8]) -> (r: Option<Vec<(&'a str, JsonValue<'a>)>>)
    ensures
        r matches Some(v) ==> json_object(s@) == Some(members_model(v@)),
        r is None ==> json_object(s@) is None,
{
    let t = skip_whitespace(s);
    if !(t.len() > 0 && t[0] == 123) {
        return None;
    }
    let r = skip_whitespace(drop_one(t));
    let (members, rest) = if r.len() > 0 && r[0] == 125 {
        let v: Vec<(&'a str, JsonValue<'a>)> = Vec::new();
        proof {
            assert(members_model(v@) =~= Seq::<(Seq<u8>, JsonModel)>::empty());
        }
        (v, drop_one(r))
    } else {
        match read_members(r) {
            Some(v) => v,
            None => return None,
        }
    };
    if skip_whitespace(rest).len() == 0 {
        Some(members)
    } else {
        None
    }
}

} // verus!

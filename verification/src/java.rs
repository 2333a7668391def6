//! Java bytecode type descriptors and method signatures.
//!
//! A descriptor such as `[Ljava/lang/String;` names the Java type
//! `java.lang.String[]`; a signature such as `(I[B)V` lists parameter types
//! and a return type. Class names in them are remapped by a mapper or a
//! cache.

use vstd::prelude::*;
use vstd::string::*;

use crate::cache::{spec_cache_remap_class, CacheModel, ProguardCache};
use crate::mapper::{spec_remap_class, MapperModel, ProguardMapper};
use crate::mapping::opt_bytes;
use crate::text::{
    ascii_boundary, find_byte, first_index_of, last_index_of, lemma_first_index_of,
    lemma_last_index_of, new_string, push_str, rfind_byte, split_at_ascii, string_bytes,
};

verus! {

/// The Java name of a one-letter base type.
pub open spec fn base_type_name(b: u8) -> Option<Seq<u8>> {
    if b == 90 {
        Some("boolean".spec_bytes())
    } else if b == 66 {
        Some("byte".spec_bytes())
    } else if b == 67 {
        Some("char".spec_bytes())
    } else if b == 83 {
        Some("short".spec_bytes())
    } else if b == 73 {
        Some("int".spec_bytes())
    } else if b == 74 {
        Some("long".spec_bytes())
    } else if b == 70 {
        Some("float".spec_bytes())
    } else if b == 68 {
        Some("double".spec_bytes())
    } else if b == 86 {
        Some("void".spec_bytes())
    } else {
        None
    }
}

/// The Java name of a one-letter base type.
fn java_base_types(b: u8) -> (r: Option<&'static str>)
    ensures
        opt_bytes(r) == base_type_name(b),
{
    if b == 90 {
        Some("boolean")
    } else if b == 66 {
        Some("byte")
    } else if b == 67 {
        Some("char")
    } else if b == 83 {
        Some("short")
    } else if b == 73 {
        Some("int")
    } else if b == 74 {
        Some("long")
    } else if b == 70 {
        Some("float")
    } else if b == 68 {
        Some("double")
    } else if b == 86 {
        Some("void")
    } else {
        None
    }
}

/// `n` array brackets: `[]` each.
pub open spec fn brackets(n: nat) -> Seq<u8>
    decreases n,
{
    if n == 0 {
        Seq::empty()
    } else {
        brackets((n - 1) as nat) + seq![91u8, 93u8]
    }
}

/// `b` with every `/` replaced by `.`.
pub open spec fn slashes_to_dots(b: Seq<u8>) -> Seq<u8> {
    b.map_values(|c: u8| if c == 47 { 46u8 } else { c })
}

/// The original class names that a mapper gives.
pub open spec fn mapper_names(mm: MapperModel) -> spec_fn(Seq<u8>) -> Option<Seq<u8>> {
    |c: Seq<u8>| spec_remap_class(mm, c)
}

/// The original class names that a cache gives.
pub open spec fn cache_names(m: CacheModel) -> spec_fn(Seq<u8>) -> Option<Seq<u8>> {
    |c: Seq<u8>| spec_cache_remap_class(m, c)
}

/// Something that remaps obfuscated class names.
pub trait ClassNames {
    /// The original name of each obfuscated class name it knows.
    spec fn spec_names(&self) -> spec_fn(Seq<u8>) -> Option<Seq<u8>>;

    /// The original name of an obfuscated class name.
    fn original_class<'a>(&'a self, class: &str) -> (r: Option<&'a str>)
        ensures
            opt_bytes(r) == (self.spec_names())(class.spec_bytes()),
    ;
}

impl<'s> ClassNames for ProguardMapper<'s> {
    open spec fn spec_names(&self) -> spec_fn(Seq<u8>) -> Option<Seq<u8>> {
        mapper_names(self@)
    }

    fn original_class<'a>(&'a self, class: &str) -> (r: Option<&'a str>) {
        self.remap_class(class)
    }
}

impl<'d> ClassNames for ProguardCache<'d> {
    open spec fn spec_names(&self) -> spec_fn(Seq<u8>) -> Option<Seq<u8>> {
        cache_names(self@)
    }

    fn original_class<'a>(&'a self, class: &str) -> (r: Option<&'a str>) {
        self.remap_class(class)
    }
}

/// The Java type that the descriptor `b` names from position `i` on, after
/// `n` array markers: a base type letter, or `L` and a class name up to the
/// final `;`, remapped by `names`. Other bytes are passed over.
pub open spec fn spec_java_type(
    names: spec_fn(Seq<u8>) -> Option<Seq<u8>>,
    b: Seq<u8>,
    i: int,
    n: nat,
) -> Option<Seq<u8>>
    decreases b.len() - i,
{
    if i < 0 || i >= b.len() {
        None
    } else if b[i] == 76 {
        if i + 1 < b.len() && b.last() == 59 {
            let obfuscated = slashes_to_dots(b.subrange(i + 1, b.len() - 1));
            let class = match names(obfuscated) {
                Some(c) => c,
                None => obfuscated,
            };
            Some(class + brackets(n))
        } else {
            None
        }
    } else if b[i] == 91 {
        spec_java_type(names, b, i + 1, n + 1)
    } else {
        match base_type_name(b[i]) {
            Some(t) => Some(t + brackets(n)),
            None => spec_java_type(names, b, i + 1, n),
        }
    }
}

proof fn lemma_bracket_bytes()
    ensures
        "[]".spec_bytes() == seq![91u8, 93u8],
        ".".spec_bytes() == seq![46u8],
{
    reveal_strlit("[]");
    reveal_strlit(".");
    broadcast use is_ascii_spec_bytes;
    assert(is_ascii("[]"));
    assert(is_ascii("."));
    assert("[]".spec_bytes() =~= seq![91u8, 93u8]);
    assert(".".spec_bytes() =~= seq![46u8]);
}

/// A string slice with every `/` replaced by `.`.
fn replace_slashes(s: &str) -> (r: String)
    ensures
        string_bytes(r) == slashes_to_dots(s.spec_bytes()),
{
    proof {
        lemma_bracket_bytes();
    }
    let mut out = new_string();
    let mut rest = s;
    proof {
        assert(string_bytes(out) + slashes_to_dots(rest.spec_bytes()) =~= slashes_to_dots(s.spec_bytes()));
    }
    loop
        invariant
            string_bytes(out) + slashes_to_dots(rest.spec_bytes()) == slashes_to_dots(s.spec_bytes()),
            ".".spec_bytes() == seq![46u8],
        decreases rest.spec_bytes().len(),
    {
        let b = rest.as_bytes();
        let p = find_byte(b, 47);
        proof {
            lemma_first_index_of(b@, 47, 0);
        }
        if p >= b.len() {
            proof {
                assert(slashes_to_dots(rest.spec_bytes()) =~= rest.spec_bytes());
            }
            push_str(&mut out, rest);
            return out;
        }
        let (seg, tail) = split_at_ascii(rest, p);
        let (_slash, after) = split_at_ascii(tail, 1);
        proof {
            let rb = rest.spec_bytes();
            assert(slashes_to_dots(seg.spec_bytes()) =~= seg.spec_bytes());
            assert(rb =~= seg.spec_bytes() + seq![47u8] + after.spec_bytes());
            assert(slashes_to_dots(rb) =~= seg.spec_bytes() + seq![46u8] + slashes_to_dots(
                after.spec_bytes(),
            ));
        }
        push_str(&mut out, seg);
        push_str(&mut out, ".");
        rest = after;
    }
}

/// The Java type that a bytecode type descriptor names, with class names remapped.
pub fn byte_code_type_to_java_type(byte_code_type: &str, mapper: &ProguardMapper) -> (r: Option<String>)
    ensures
        match r {
            Some(s) => spec_java_type(mapper_names(mapper@), byte_code_type.spec_bytes(), 0, 0)
                == Some(string_bytes(s)),
            None => spec_java_type(mapper_names(mapper@), byte_code_type.spec_bytes(), 0, 0) is None,
        },
{
    java_type_of(byte_code_type, mapper)
}

/// The Java type that a bytecode type descriptor names, with class names
/// remapped by a cache.
fn byte_code_type_to_java_type_cache(byte_code_type: &str, cache: &ProguardCache) -> (r: Option<String>)
    ensures
        match r {
            Some(s) => spec_java_type(cache_names(cache@), byte_code_type.spec_bytes(), 0, 0)
                == Some(string_bytes(s)),
            None => spec_java_type(cache_names(cache@), byte_code_type.spec_bytes(), 0, 0) is None,
        },
{
    java_type_of(byte_code_type, cache)
}

/// The Java type that a bytecode type descriptor names, with class names
/// remapped by `names`.
fn java_type_of<N: ClassNames>(byte_code_type: &str, names: &N) -> (r: Option<String>)
    ensures
        match r {
            Some(s) => spec_java_type(names.spec_names(), byte_code_type.spec_bytes(), 0, 0) == Some(
                string_bytes(s),
            ),
            None => spec_java_type(names.spec_names(), byte_code_type.spec_bytes(), 0, 0) is None,
        },
{
    proof {
        lemma_bracket_bytes();
    }
    let b = byte_code_type.as_bytes();
    let mut suffix = new_string();
    let mut n: usize = 0;
    let ghost ng: nat = 0;
    let mut i: usize = 0;
    while i < b.len()
        invariant
            i <= b@.len(),
            b@ == byte_code_type.spec_bytes(),
            n <= i,
            string_bytes(suffix) == brackets(n as nat),
            "[]".spec_bytes() == seq![91u8, 93u8],
            spec_java_type(names.spec_names(), b@, 0, 0) == spec_java_type(
                names.spec_names(),
                b@,
                i as int,
                n as nat,
            ),
        decreases b@.len() - i,
    {
        let token = b[i];
        if token == 76 {
            if i + 1 < b.len() && b[b.len() - 1] == 59 {
                let (_head, rest) = split_at_ascii(byte_code_type, i + 1);
                let rb = rest.as_bytes();
                proof {
                    assert(rb@[rb@.len() - 1] == b@[b@.len() - 1]);
                }
                let (inner, _semi) = split_at_ascii(rest, rb.len() - 1);
                let obfuscated = replace_slashes(inner);
                let mut out = new_string();
                match names.original_class(obfuscated.as_str()) {
                    Some(mapped) => push_str(&mut out, mapped),
                    None => push_str(&mut out, obfuscated.as_str()),
                }
                push_str(&mut out, suffix.as_str());
                proof {
                    assert(inner.spec_bytes() =~= b@.subrange(i + 1, b@.len() - 1));
                }
                return Some(out);
            }
            return None;
        } else if token == 91 {
            push_str(&mut suffix, "[]");
            n = n + 1;
        } else {
            match java_base_types(token) {
                Some(ty) => {
                    let mut out = new_string();
                    push_str(&mut out, ty);
                    push_str(&mut out, suffix.as_str());
                    return Some(out);
                },
                None => {},
            }
        }
        i = i + 1;
    }
    None
}

/// Whether `b` is a base type letter.
pub open spec fn is_base_type(b: u8) -> bool {
    base_type_name(b) is Some
}

/// The parameter types of a signature, from position `i` of the parameter
/// list `p`, where the current type began at `first`: a type ends at a base
/// type letter, or at the `;` after an `L`.
pub open spec fn sig_types(p: Seq<u8>, i: int, first: int) -> Option<Seq<Seq<u8>>>
    decreases p.len() - i,
{
    if i < 0 || i >= p.len() {
        Some(Seq::empty())
    } else if p[i] == 76 {
        let j = first_index_of(p, 59, i + 1);
        proof {
            lemma_first_index_of(p, 59, i + 1);
        }
        if j >= p.len() {
            None
        } else {
            match sig_types(p, j + 1, j + 1) {
                Some(rest) => Some(seq![p.subrange(first, j + 1)] + rest),
                None => None,
            }
        }
    } else if p[i] == 91 {
        sig_types(p, i + 1, first)
    } else if is_base_type(p[i]) {
        match sig_types(p, i + 1, i + 1) {
            Some(rest) => Some(seq![p.subrange(first, i + 1)] + rest),
            None => None,
        }
    } else {
        sig_types(p, i + 1, first)
    }
}

/// The parameter types and the return type of a bytecode signature
/// `(params)ret`; the return type follows the last `)` and is not empty.
pub open spec fn spec_parse_signature(sig: Seq<u8>) -> Option<(Seq<Seq<u8>>, Seq<u8>)> {
    if sig.len() == 0 || sig[0] != 40 {
        None
    } else {
        let s = sig.subrange(1, sig.len() as int);
        let q = last_index_of(s, 41, s.len() as int);
        if q < 0 || q + 1 >= s.len() {
            None
        } else {
            match sig_types(s.subrange(0, q), 0, 0) {
                Some(ts) => Some((ts, s.subrange(q + 1, s.len() as int))),
                None => None,
            }
        }
    }
}

/// `done` before the types of `o`, if there are any.
pub open spec fn prepend(done: Seq<Seq<u8>>, o: Option<Seq<Seq<u8>>>) -> Option<Seq<Seq<u8>>> {
    match o {
        Some(rest) => Some(done + rest),
        None => None,
    }
}

/// The bytes of each string slice.
pub open spec fn strs_model(v: Seq<&str>) -> Seq<Seq<u8>> {
    v.map_values(|s: &str| s.spec_bytes())
}

/// The bytes of each owned string.
pub open spec fn strings_model(v: Seq<String>) -> Seq<Seq<u8>> {
    v.map_values(|s: String| string_bytes(s))
}

/// The first position of `b` at or after `i`.
fn find_byte_from(s: &[u8], b: u8, i: usize) -> (r: usize)
    requires
        i <= s@.len(),
    ensures
        r == first_index_of(s@, b, i as int),
{
    let mut k = i;
    while k < s.len() && s[k] != b
        invariant
            i <= k <= s@.len(),
            first_index_of(s@, b, k as int) == first_index_of(s@, b, i as int),
        decreases s@.len() - k,
    {
        k = k + 1;
    }
    k
}

/// The part of `s` between two positions next to ASCII bytes.
fn substr(s: &str, a: usize, b: usize) -> (r: &str)
    requires
        a <= b,
        ascii_boundary(s.spec_bytes(), a as int),
        ascii_boundary(s.spec_bytes(), b as int),
    ensures
        r.spec_bytes() == s.spec_bytes().subrange(a as int, b as int),
{
    let (head, _tail) = split_at_ascii(s, b);
    proof {
        let hb = head.spec_bytes();
        assert(hb =~= s.spec_bytes().subrange(0, b as int));
        if (a as int) < hb.len() {
            assert(hb[a as int] == s.spec_bytes()[a as int]);
        }
        if a > 0 {
            assert(hb[a - 1] == s.spec_bytes()[a - 1]);
        }
    }
    let (_skip, r) = split_at_ascii(head, a);
    proof {
        assert(r.spec_bytes() =~= s.spec_bytes().subrange(a as int, b as int));
    }
    r
}

/// The parameter types of a parameter list.
fn parse_types<'a>(params: &'a str) -> (r: Option<Vec<&'a str>>)
    ensures
        match r {
            Some(v) => sig_types(params.spec_bytes(), 0, 0) == Some(strs_model(v@)),
            None => sig_types(params.spec_bytes(), 0, 0) is None,
        },
{
    let p = params.as_bytes();
    let mut types: Vec<&'a str> = Vec::new();
    let mut first: usize = 0;
    let mut i: usize = 0;
    proof {
        assert(prepend(strs_model(types@), sig_types(p@, 0, 0)) =~= sig_types(p@, 0, 0));
    }
    while i < p.len()
        invariant
            first <= i <= p@.len(),
            p@ == params.spec_bytes(),
            first == 0 || p@[first - 1] < 0x80,
            sig_types(p@, 0, 0) == prepend(strs_model(types@), sig_types(p@, i as int, first as int)),
        decreases p@.len() - i,
    {
        let token = p[i];
        if token == 76 {
            let j = find_byte_from(p, 59, i + 1);
            proof {
                lemma_first_index_of(p@, 59, i + 1);
            }
            if j >= p.len() {
                return None;
            }
            let ty = substr(params, first, j + 1);
            let ghost before = types@;
            types.push(ty);
            proof {
                assert(strs_model(types@) =~= strs_model(before).push(ty.spec_bytes()));
                match sig_types(p@, j + 1, j + 1) {
                    Some(rest) => {
                        assert(strs_model(before) + (seq![ty.spec_bytes()] + rest) =~= strs_model(types@)
                            + rest);
                    },
                    None => {},
                }
            }
            first = j + 1;
            i = j + 1;
        } else if token == 91 {
            i = i + 1;
        } else if java_base_types(token).is_some() {
            let ty = substr(params, first, i + 1);
            let ghost before = types@;
            types.push(ty);
            proof {
                assert(strs_model(types@) =~= strs_model(before).push(ty.spec_bytes()));
                match sig_types(p@, i + 1, i + 1) {
                    Some(rest) => {
                        assert(strs_model(before) + (seq![ty.spec_bytes()] + rest) =~= strs_model(types@)
                            + rest);
                    },
                    None => {},
                }
            }
            first = i + 1;
            i = i + 1;
        } else {
            i = i + 1;
        }
    }
    proof {
        assert(strs_model(types@) + Seq::<Seq<u8>>::empty() =~= strs_model(types@));
    }
    Some(types)
}

/// Parses an obfuscated bytecode signature into its parameter types and its return type.
fn parse_obfuscated_bytecode_signature<'a>(signature: &'a str) -> (r: Option<(Vec<&'a str>, &'a str)>)
    ensures
        match r {
            Some((ts, ret)) => spec_parse_signature(signature.spec_bytes()) == Some(
                (strs_model(ts@), ret.spec_bytes()),
            ),
            None => spec_parse_signature(signature.spec_bytes()) is None,
        },
{
    let b = signature.as_bytes();
    if b.len() == 0 || b[0] != 40 {
        return None;
    }
    let (_open, s) = split_at_ascii(signature, 1);
    let sb = s.as_bytes();
    proof {
        assert(sb@ =~= b@.subrange(1, b@.len() as int));
    }
    let q = match rfind_byte(sb, 41) {
        Some(q) => q,
        None => {
            return None;
        },
    };
    proof {
        lemma_last_index_of(sb@, 41, sb@.len() as int);
    }
    if q + 1 >= sb.len() {
        return None;
    }
    let (params, rest) = split_at_ascii(s, q);
    let (_close, ret) = split_at_ascii(rest, 1);
    proof {
        assert(ret.spec_bytes() =~= sb@.subrange(q + 1, sb@.len() as int));
    }
    match parse_types(params) {
        Some(types) => Some((types, ret)),
        None => None,
    }
}

/// The Java types of the parameter types that have one, in order.
pub open spec fn java_types(names: spec_fn(Seq<u8>) -> Option<Seq<u8>>, ts: Seq<Seq<u8>>) -> Seq<Seq<u8>>
    decreases ts.len(),
{
    if ts.len() == 0 {
        Seq::empty()
    } else {
        let prev = java_types(names, ts.drop_last());
        if ts.last().len() > 0 {
            match spec_java_type(names, ts.last(), 0, 0) {
                Some(j) => prev.push(j),
                None => prev,
            }
        } else {
            prev
        }
    }
}

/// The Java parameter types and return type of a bytecode signature, with
/// class names remapped; parameter types without a Java type are left out.
pub open spec fn spec_deobfuscate_signature(
    names: spec_fn(Seq<u8>) -> Option<Seq<u8>>,
    sig: Seq<u8>,
) -> Option<(Seq<Seq<u8>>, Seq<u8>)> {
    match spec_parse_signature(sig) {
        None => None,
        Some((ts, ret)) => match spec_java_type(names, ret, 0, 0) {
            Some(r) => Some((java_types(names, ts), r)),
            None => None,
        },
    }
}

/// returns a tuple where the first element is the list of the function
/// parameters and the second one is the return type
pub fn deobfuscate_bytecode_signature(signature: &str, mapper: &ProguardMapper) -> (r: Option<(Vec<String>, String)>)
    ensures
        match r {
            Some((ps, ret)) => spec_deobfuscate_signature(mapper_names(mapper@), signature.spec_bytes())
                == Some((strings_model(ps@), string_bytes(ret))),
            None => spec_deobfuscate_signature(mapper_names(mapper@), signature.spec_bytes()) is None,
        },
{
    deobfuscate_with(signature, mapper)
}

/// Same as [`deobfuscate_bytecode_signature`], but uses a [`ProguardCache`] for remapping.
pub fn deobfuscate_bytecode_signature_cache(signature: &str, cache: &ProguardCache) -> (r: Option<
    (Vec<String>, String),
>)
    ensures
        match r {
            Some((ps, ret)) => spec_deobfuscate_signature(cache_names(cache@), signature.spec_bytes())
                == Some((strings_model(ps@), string_bytes(ret))),
            None => spec_deobfuscate_signature(cache_names(cache@), signature.spec_bytes()) is None,
        },
{
    let (types, ret) = match parse_obfuscated_bytecode_signature(signature) {
        Some(v) => v,
        None => {
            return None;
        },
    };
    let ghost names = cache_names(cache@);
    let ghost ts = strs_model(types@);
    let mut params: Vec<String> = Vec::new();
    let mut k: usize = 0;
    while k < types.len()
        invariant
            k <= types@.len(),
            ts == strs_model(types@),
            names == cache_names(cache@),
            strings_model(params@) == java_types(names, ts.subrange(0, k as int)),
        decreases types@.len() - k,
    {
        let t = types[k];
        proof {
            assert(ts.subrange(0, k + 1).drop_last() =~= ts.subrange(0, k as int));
            assert(ts.subrange(0, k + 1).last() == t.spec_bytes());
        }
        if t.as_bytes().len() > 0 {
            match byte_code_type_to_java_type_cache(t, cache) {
                Some(j) => {
                    let ghost before = params@;
                    params.push(j);
                    proof {
                        assert(strings_model(params@) =~= strings_model(before).push(string_bytes(j)));
                    }
                },
                None => {},
            }
        }
        k = k + 1;
    }
    proof {
        assert(ts.subrange(0, types@.len() as int) =~= ts);
    }
    match byte_code_type_to_java_type_cache(ret, cache) {
        Some(r) => Some((params, r)),
        None => None,
    }
}

/// The parameter types and return type of a signature, with class names
/// remapped by `names`.
fn deobfuscate_with<N: ClassNames>(signature: &str, names: &N) -> (r: Option<(Vec<String>, String)>)
    ensures
        match r {
            Some((ps, ret)) => spec_deobfuscate_signature(names.spec_names(), signature.spec_bytes())
                == Some((strings_model(ps@), string_bytes(ret))),
            None => spec_deobfuscate_signature(names.spec_names(), signature.spec_bytes()) is None,
        },
{
    let (types, ret) = match parse_obfuscated_bytecode_signature(signature) {
        Some(v) => v,
        None => {
            return None;
        },
    };
    let ghost ts = strs_model(types@);
    let mut params: Vec<String> = Vec::new();
    let mut k: usize = 0;
    while k < types.len()
        invariant
            k <= types@.len(),
            ts == strs_model(types@),
            strings_model(params@) == java_types(names.spec_names(), ts.subrange(0, k as int)),
        decreases types@.len() - k,
    {
        let t = types[k];
        proof {
            assert(ts.subrange(0, k + 1).drop_last() =~= ts.subrange(0, k as int));
            assert(ts.subrange(0, k + 1).last() == t.spec_bytes());
        }
        if t.as_bytes().len() > 0 {
            match java_type_of(t, names) {
                Some(j) => {
                    let ghost before = params@;
                    params.push(j);
                    proof {
                        assert(strings_model(params@) =~= strings_model(before).push(string_bytes(j)));
                    }
                },
                None => {},
            }
        }
        k = k + 1;
    }
    proof {
        assert(ts.subrange(0, types@.len() as int) =~= ts);
    }
    match java_type_of(ret, names) {
        Some(r) => Some((params, r)),
        None => None,
    }
}

/// A deobfuscated signature, by bytes.
pub struct SignatureModel {
    pub parameters: Seq<Seq<u8>>,
    pub return_type: Seq<u8>,
}

/// A deobfuscated method signature.
pub struct DeobfuscatedSignature {
    parameters: Vec<String>,
    return_type: String,
}

impl View for DeobfuscatedSignature {
    type V = SignatureModel;

    closed spec fn view(&self) -> SignatureModel {
        SignatureModel { parameters: strings_model(self.parameters@), return_type: string_bytes(self.return_type) }
    }
}

/// The parameter types joined by `, `.
pub open spec fn join_params(ps: Seq<Seq<u8>>) -> Seq<u8>
    decreases ps.len(),
{
    if ps.len() == 0 {
        Seq::empty()
    } else if ps.len() == 1 {
        ps[0]
    } else {
        join_params(ps.drop_last()) + ", ".spec_bytes() + ps.last()
    }
}

/// The human-readable form of a signature: `(params)`, and `: return type`
/// unless the return type is empty or `void`.
pub open spec fn signature_string(sig: SignatureModel) -> Seq<u8> {
    let tail = if sig.return_type.len() > 0 && sig.return_type != "void".spec_bytes() {
        ": ".spec_bytes() + sig.return_type
    } else {
        Seq::empty()
    };
    "(".spec_bytes() + join_params(sig.parameters) + ")".spec_bytes() + tail
}

impl DeobfuscatedSignature {
    /// Returns the java return type of the method signature
    pub fn return_type(&self) -> (r: &str)
        ensures
            r.spec_bytes() == self@.return_type,
    {
        self.return_type.as_str()
    }

    /// Returns the list of paramater types of the method signature
    pub fn parameters_types(&self) -> (r: Vec<&str>)
        ensures
            strs_model(r@) == self@.parameters,
    {
        let mut out: Vec<&str> = Vec::new();
        let mut k: usize = 0;
        while k < self.parameters.len()
            invariant
                k <= self.parameters@.len(),
                strs_model(out@) == strings_model(self.parameters@).subrange(0, k as int),
            decreases self.parameters@.len() - k,
        {
            let ghost before = out@;
            let x = self.parameters[k].as_str();
            out.push(x);
            proof {
                assert(x.spec_bytes() == string_bytes(self.parameters@[k as int]));
                assert(out@.drop_last() =~= before);
                assert(strs_model(out@) =~= strs_model(before).push(x.spec_bytes()));
                assert(strs_model(out@) =~= strings_model(self.parameters@).subrange(0, k + 1));
            }
            k = k + 1;
        }
        proof {
            assert(strings_model(self.parameters@).subrange(0, k as int) =~= strings_model(self.parameters@));
        }
        out
    }

    /// formats types (param_type list, return_type) into a human-readable signature
    pub fn format_signature(&self) -> (r: String)
        ensures
            string_bytes(r) == signature_string(self@),
    {
        let ghost ps = strings_model(self.parameters@);
        let mut out = new_string();
        push_str(&mut out, "(");
        let ghost head = string_bytes(out);
        let mut k: usize = 0;
        while k < self.parameters.len()
            invariant
                k <= self.parameters@.len(),
                ps == strings_model(self.parameters@),
                string_bytes(out) == head + join_params(ps.subrange(0, k as int)),
            decreases self.parameters@.len() - k,
        {
            if k > 0 {
                push_str(&mut out, ", ");
            }
            push_str(&mut out, self.parameters[k].as_str());
            proof {
                let sub = ps.subrange(0, k + 1);
                assert(sub.drop_last() =~= ps.subrange(0, k as int));
                if k == 0 {
                    assert(join_params(sub) == sub[0]);
                    assert(ps.subrange(0, 0) =~= Seq::<Seq<u8>>::empty());
                }
                assert(string_bytes(out) =~= head + join_params(sub));
            }
            k = k + 1;
        }
        proof {
            assert(ps.subrange(0, k as int) =~= ps);
        }
        push_str(&mut out, ")");
        let ret = self.return_type.as_str();
        if ret.as_bytes().len() > 0 && !crate::text::str_eq(ret, "void") {
            push_str(&mut out, ": ");
            push_str(&mut out, ret);
        }
        proof {
            assert(string_bytes(out) =~= signature_string(self@));
        }
        out
    }
}

impl<'s> ProguardMapper<'s> {
    /// returns a tuple where the first element is the list of the function
    /// parameters and the second one is the return type
    pub fn deobfuscate_signature(&self, signature: &str) -> (r: Option<DeobfuscatedSignature>)
        ensures
            match r {
                Some(d) => spec_deobfuscate_signature(mapper_names(self@), signature.spec_bytes())
                    == Some((d@.parameters, d@.return_type)),
                None => spec_deobfuscate_signature(mapper_names(self@), signature.spec_bytes()) is None,
            },
    {
        match deobfuscate_bytecode_signature(signature, self) {
            Some((parameters, return_type)) => Some(DeobfuscatedSignature { parameters, return_type }),
            None => None,
        }
    }
}

} // verus!

//! Helpers on class names shared across modules.

use vstd::prelude::*;
use vstd::string::*;
use vstd::utf8::*;

use crate::text::{
    find_byte, first_index_of, last_index_of, lemma_first_index_of, lemma_last_index_of,
    new_string, push_str, rfind_byte, split_at_ascii, string_bytes,
};

verus! {

/// The UTF-8 bytes of a string literal's characters.
pub open spec fn lit(s: &str) -> Seq<u8> {
    s.spec_bytes()
}

/// What follows the last `.` of a dotted name (all of it when it has none).
pub open spec fn last_segment(b: Seq<u8>) -> Seq<u8> {
    b.subrange(last_index_of(b, 46, b.len() as int) + 1, b.len() as int)
}

/// What precedes the first `$` of a name (all of it when it has none).
pub open spec fn before_dollar(b: Seq<u8>) -> Seq<u8> {
    b.subrange(0, first_index_of(b, 36, 0))
}

/// The outer class name of a fully qualified class name: its last segment up to the first `$`.
pub open spec fn spec_extract_class_name(b: Seq<u8>) -> Seq<u8> {
    before_dollar(last_segment(b))
}

/// The last segment of a dotted name.
fn last_segment_of<'a>(s: &'a str) -> (r: &'a str)
    ensures
        r.spec_bytes() == last_segment(s.spec_bytes()),
{
    let b = s.as_bytes();
    proof {
        lemma_last_index_of(b@, 46, b@.len() as int);
    }
    match rfind_byte(b, 46) {
        None => {
            proof {
                assert(b@.subrange(0, b@.len() as int) =~= b@);
            }
            s
        },
        Some(p) => {
            let (_head, rest) = split_at_ascii(s, p);
            let (_dot, tail) = split_at_ascii(rest, 1);
            proof {
                assert(tail.spec_bytes() =~= b@.subrange(p + 1, b@.len() as int));
            }
            tail
        },
    }
}

/// The part of a name before its first `$`.
fn before_dollar_of<'a>(s: &'a str) -> (r: &'a str)
    ensures
        r.spec_bytes() == before_dollar(s.spec_bytes()),
{
    let b = s.as_bytes();
    let p = find_byte(b, 36);
    proof {
        lemma_first_index_of(b@, 36, 0);
    }
    split_at_ascii(s, p).0
}

/// Extracts the outer class name from a fully qualified class name.
pub fn extract_class_name(full_path: &str) -> (r: Option<&str>)
    ensures
        r matches Some(n) && n.spec_bytes() == spec_extract_class_name(full_path.spec_bytes()),
{
    Some(before_dollar_of(last_segment_of(full_path)))
}

/// The parts of `b` between the bytes `sep`, as `str::split` yields them.
pub open spec fn split_on(b: Seq<u8>, sep: u8) -> Seq<Seq<u8>>
    decreases b.len(),
{
    let p = first_index_of(b, sep, 0);
    if p >= b.len() || p < 0 {
        seq![b]
    } else {
        seq![b.subrange(0, p)] + split_on(b.subrange(p + 1, b.len() as int), sep)
    }
}

/// Whether a part names a Kotlin file: it ends in `Kt` after at least one byte.
pub open spec fn is_kotlin_part(s: Seq<u8>) -> bool {
    s.len() > 2 && s[s.len() - 2] == 75 && s[s.len() - 1] == 116
}

/// The first part from position `i` on that names a Kotlin file, without its `Kt`.
pub open spec fn first_kotlin_part(parts: Seq<Seq<u8>>, i: int) -> Option<Seq<u8>>
    decreases parts.len() - i,
{
    if i < 0 || i >= parts.len() {
        None
    } else if is_kotlin_part(parts[i]) {
        Some(parts[i].subrange(0, parts[i].len() - 2))
    } else {
        first_kotlin_part(parts, i + 1)
    }
}

/// The source file name that a class name suggests.
///
/// Any `$`-part of the class's last segment that ends in `Kt` gives a `.kt`
/// file named after it (the first such part wins). Otherwise the outer class
/// name gets the extension of `reference_file` (from its last `.` on), or
/// `.java`.
pub open spec fn spec_synthesize_source_file(class_name: Seq<u8>, reference_file: Option<Seq<u8>>) -> Seq<u8> {
    let parts = split_on(last_segment(class_name), 36);
    match first_kotlin_part(parts, 0) {
        Some(base) => base + lit(".kt"),
        None => {
            let base = parts[0];
            match reference_file {
                Some(f) => if last_index_of(f, 46, f.len() as int) >= 0 {
                    base + f.subrange(last_index_of(f, 46, f.len() as int), f.len() as int)
                } else {
                    base + lit(".java")
                },
                None => base + lit(".java"),
            }
        },
    }
}

proof fn lemma_split_on_first(b: Seq<u8>, sep: u8)
    ensures
        split_on(b, sep).len() > 0,
        split_on(b, sep)[0] == b.subrange(0, first_index_of(b, sep, 0)),
{
    lemma_first_index_of(b, sep, 0);
    if first_index_of(b, sep, 0) >= b.len() {
        assert(b.subrange(0, b.len() as int) =~= b);
    }
}

/// The first `$`-part that names a Kotlin file, without its `Kt`, scanning from `s`.
fn find_kotlin_part<'a>(s: &'a str) -> (r: Option<&'a str>)
    ensures
        opt_str_bytes(r) == first_kotlin_part(split_on(s.spec_bytes(), 36), 0),
{
    let mut cur = s;
    loop
        invariant
            first_kotlin_part(split_on(s.spec_bytes(), 36), 0) == first_kotlin_part(
                split_on(cur.spec_bytes(), 36),
                0,
            ),
        decreases cur.spec_bytes().len(),
    {
        let b = cur.as_bytes();
        let p = find_byte(b, 36);
        proof {
            lemma_first_index_of(b@, 36, 0);
        }
        let (part, rest) = split_at_ascii(cur, p);
        let pb = part.as_bytes();
        let ghost parts = split_on(b@, 36);
        proof {
            lemma_split_on_first(b@, 36);
        }
        if pb.len() > 2 && pb[pb.len() - 2] == 75 && pb[pb.len() - 1] == 116 {
            let (base, _kt) = split_at_ascii(part, pb.len() - 2);
            return Some(base);
        }
        if p >= b.len() {
            proof {
                assert(parts.len() == 1);
                assert(first_kotlin_part(parts, 1) is None);
            }
            return None;
        }
        let (_dollar, next) = split_at_ascii(rest, 1);
        proof {
            assert(next.spec_bytes() =~= b@.subrange(p + 1, b@.len() as int));
            assert(parts =~= seq![b@.subrange(0, p as int)] + split_on(next.spec_bytes(), 36));
            assert(parts.drop_first() =~= split_on(next.spec_bytes(), 36));
            lemma_first_kotlin_part_shift(parts, split_on(next.spec_bytes(), 36));
        }
        cur = next;
    }
}

proof fn lemma_first_kotlin_part_shift(parts: Seq<Seq<u8>>, tail: Seq<Seq<u8>>)
    requires
        parts.len() > 0,
        parts.drop_first() == tail,
        !is_kotlin_part(parts[0]),
    ensures
        first_kotlin_part(parts, 0) == first_kotlin_part(tail, 0),
{
    lemma_first_kotlin_part_from(parts, tail, 0);
}

proof fn lemma_first_kotlin_part_from(parts: Seq<Seq<u8>>, tail: Seq<Seq<u8>>, i: int)
    requires
        parts.len() > 0,
        parts.drop_first() == tail,
        0 <= i <= tail.len(),
    ensures
        first_kotlin_part(parts, i + 1) == first_kotlin_part(tail, i),
    decreases tail.len() - i,
{
    if i < tail.len() {
        assert(parts[i + 1] == tail[i]);
        lemma_first_kotlin_part_from(parts, tail, i + 1);
    }
}

/// The bytes of an optional string slice.
pub open spec fn opt_str_bytes(o: Option<&str>) -> Option<Seq<u8>> {
    match o {
        Some(s) => Some(s.spec_bytes()),
        None => None,
    }
}

/// Synthesizes a source file name from a class name.
pub fn synthesize_source_file(class_name: &str, reference_file: Option<&str>) -> (r: Option<String>)
    ensures
        r matches Some(f) && string_bytes(f) == spec_synthesize_source_file(
            class_name.spec_bytes(),
            opt_str_bytes(reference_file),
        ),
{
    let last = last_segment_of(class_name);
    let base = before_dollar_of(last);
    proof {
        lemma_split_on_first(last.spec_bytes(), 36);
    }
    let mut out = new_string();
    match find_kotlin_part(last) {
        Some(kotlin_base) => {
            push_str(&mut out, kotlin_base);
            push_str(&mut out, ".kt");
            proof {
                assert(string_bytes(out) =~= kotlin_base.spec_bytes() + lit(".kt"));
            }
            return Some(out);
        },
        None => {},
    }
    push_str(&mut out, base);
    match reference_file {
        Some(f) => {
            let fb = f.as_bytes();
            proof {
                lemma_last_index_of(fb@, 46, fb@.len() as int);
            }
            match rfind_byte(fb, 46) {
                Some(p) => {
                    let (_name, ext) = split_at_ascii(f, p);
                    push_str(&mut out, ext);
                },
                None => push_str(&mut out, ".java"),
            }
        },
        None => push_str(&mut out, ".java"),
    }
    proof {
        assert(string_bytes(out) =~= spec_synthesize_source_file(
            class_name.spec_bytes(),
            opt_str_bytes(reference_file),
        ));
    }
    Some(out)
}

/// `b` with every `.` replaced by `/`.
pub open spec fn dots_to_slashes(b: Seq<u8>) -> Seq<u8> {
    b.map_values(|c: u8| if c == 46 { 47u8 } else { c })
}

proof fn lemma_slash_lit()
    ensures
        lit("/") == seq![47u8],
{
    reveal_strlit("/");
    broadcast use is_ascii_spec_bytes;
    assert(is_ascii("/"));
    assert(lit("/") =~= seq![47u8]);
}

/// Converts a Java class name to its JVM descriptor format.
///
/// For example, `java.lang.NullPointerException` becomes `Ljava/lang/NullPointerException;`.
pub fn class_name_to_descriptor(class: &str) -> (r: String)
    ensures
        string_bytes(r) == lit("L") + dots_to_slashes(class.spec_bytes()) + lit(";"),
{
    let mut out = new_string();
    push_str(&mut out, "L");
    let ghost all = class.spec_bytes();
    let ghost head = string_bytes(out);
    let mut cur = class;
    proof {
        lemma_slash_lit();
        assert(head =~= lit("L"));
        assert(all.subrange(0, 0) =~= Seq::<u8>::empty());
        assert(dots_to_slashes(Seq::<u8>::empty()) =~= Seq::<u8>::empty());
        assert(all.subrange(0, all.len() as int) =~= all);
        assert(head + dots_to_slashes(all.subrange(0, 0)) =~= head);
    }
    loop
        invariant
            lit("/") == seq![47u8],
            all == class.spec_bytes(),
            head == lit("L"),
            cur.spec_bytes().len() <= all.len(),
            cur.spec_bytes() == all.subrange(all.len() - cur.spec_bytes().len(), all.len() as int),
            string_bytes(out) == head + dots_to_slashes(
                all.subrange(0, all.len() - cur.spec_bytes().len()),
            ),
        decreases cur.spec_bytes().len(),
    {
        let ghost done = all.len() - cur.spec_bytes().len();
        let b = cur.as_bytes();
        let p = find_byte(b, 46);
        proof {
            lemma_first_index_of(b@, 46, 0);
        }
        let (part, rest) = split_at_ascii(cur, p);
        push_str(&mut out, part);
        proof {
            assert(dots_to_slashes(part.spec_bytes()) =~= part.spec_bytes());
        }
        if p >= b.len() {
            push_str(&mut out, ";");
            proof {
                assert(all.subrange(0, done) + part.spec_bytes() =~= all);
                assert(dots_to_slashes(all.subrange(0, done) + part.spec_bytes()) =~= dots_to_slashes(
                    all.subrange(0, done),
                ) + dots_to_slashes(part.spec_bytes()));
                assert(string_bytes(out) =~= lit("L") + dots_to_slashes(all) + lit(";"));
            }
            return out;
        }
        push_str(&mut out, "/");
        let (_dot, next) = split_at_ascii(rest, 1);
        proof {
            assert(next.spec_bytes() =~= all.subrange(done + p + 1, all.len() as int));
            assert(all.subrange(0, done + p + 1) =~= all.subrange(0, done) + part.spec_bytes()
                + seq![46u8]);
            assert(dots_to_slashes(all.subrange(0, done + p + 1)) =~= dots_to_slashes(
                all.subrange(0, done),
            ) + part.spec_bytes() + seq![47u8]);
        }
        cur = next;
    }
}

} // verus!

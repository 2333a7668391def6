//! The string section of a cache: a `watto::StringTable`.
//!
//! Its bytes are the strings put into it, each once, each after its length
//! as an unsigned LEB128 number; a string is found again by the offset of
//! its length.

use vstd::prelude::*;
use vstd::string::*;
use vstd::utf8::*;
use watto::StringTable;

verus! {

#[verifier::external_type_specification]
#[verifier::external_body]
pub struct ExStringTable(StringTable);

/// The bytes of a string table.
pub uninterp spec fn table_bytes(t: StringTable) -> Seq<u8>;

/// The offset in its bytes of each string that a table holds.
pub uninterp spec fn table_offsets(t: StringTable) -> Map<Seq<u8>, usize>;

/// The unsigned LEB128 bytes of `v`: seven bits at a time, lowest first,
/// each byte but the last with its top bit set.
pub open spec fn leb_encode(v: u64) -> Seq<u8>
    decreases v,
{
    if v < 128 {
        seq![v as u8]
    } else {
        seq![(v % 128 + 128) as u8] + leb_encode(v / 128)
    }
}

/// Reads an unsigned LEB128 number at `b[pos]`, whose byte there holds
/// bits `7 * i` and up: the number and the position after it. It fails at
/// the end of the bytes, and when the tenth byte holds more than the last
/// bit of a `u64`.
pub open spec fn leb_read(b: Seq<u8>, pos: int, i: nat) -> Option<(int, int)>
    decreases b.len() - pos,
{
    if pos < 0 || pos >= b.len() {
        None
    } else if i == 9 && b[pos] != 0 && b[pos] != 1 {
        None
    } else if b[pos] < 128 {
        Some((b[pos] as int, pos + 1))
    } else {
        match leb_read(b, pos + 1, i + 1) {
            Some((v, e)) => Some((b[pos] - 128 + 128 * v, e)),
            None => None,
        }
    }
}

/// The string at `offset` in the bytes of a string table: its length, then
/// that many bytes of UTF-8.
pub open spec fn spec_table_read(b: Seq<u8>, offset: int) -> Option<Seq<u8>> {
    if offset < 0 || offset > b.len() {
        None
    } else {
        match leb_read(b, offset, 0) {
            None => None,
            Some((n, p)) => {
                let len = (n as usize) as int;
                if len > b.len() - p {
                    None
                } else if valid_utf8(b.subrange(p, p + len)) {
                    Some(b.subrange(p, p + len))
                } else {
                    None
                }
            },
        }
    }
}

/// An empty string table.
///
/// Trusted: calls `watto::StringTable::new`, which holds no strings and no
/// bytes.
#[verifier::external_body]
pub(crate) fn table_new() -> (r: StringTable)
    ensures
        table_bytes(r).len() == 0,
        table_offsets(r).dom() == Set::<Seq<u8>>::empty(),
{
    StringTable::new()
}

/// Puts a string into a table and returns its offset.
///
/// Trusted: calls `watto::StringTable::insert`, which returns `usize::MAX`
/// for the empty string and changes nothing; returns the offset of a string
/// it holds already and changes nothing; and otherwise appends the length
/// of the string in unsigned LEB128, then the string, and returns where the
/// length starts.
#[verifier::external_body]
pub(crate) fn table_insert(t: &mut StringTable, s: &str) -> (r: usize)
    ensures
        s.spec_bytes().len() == 0 ==> {
            &&& r == usize::MAX
            &&& table_bytes(*final(t)) == table_bytes(*old(t))
            &&& table_offsets(*final(t)) == table_offsets(*old(t))
        },
        s.spec_bytes().len() > 0 && table_offsets(*old(t)).contains_key(s.spec_bytes()) ==> {
            &&& r == table_offsets(*old(t))[s.spec_bytes()]
            &&& table_bytes(*final(t)) == table_bytes(*old(t))
            &&& table_offsets(*final(t)) == table_offsets(*old(t))
        },
        s.spec_bytes().len() > 0 && !table_offsets(*old(t)).contains_key(s.spec_bytes()) ==> {
            &&& r == table_bytes(*old(t)).len()
            &&& table_bytes(*final(t)) == table_bytes(*old(t)) + leb_encode(
                s.spec_bytes().len() as u64,
            ) + s.spec_bytes()
            &&& table_offsets(*final(t)) == table_offsets(*old(t)).insert(s.spec_bytes(), r)
        },
{
    t.insert(s)
}

/// The bytes of a table.
///
/// Trusted: calls `watto::StringTable::into_bytes`, which hands out the
/// table's bytes.
#[verifier::external_body]
pub(crate) fn table_into_bytes(t: StringTable) -> (r: Vec<u8>)
    ensures
        r@ == table_bytes(t),
{
    t.into_bytes()
}

/// The string at `offset` in the bytes of a string table.
///
/// Trusted: calls `watto::StringTable::read`, which reads an unsigned
/// LEB128 length at `offset` (failing at the end of the bytes and on a
/// number beyond `u64`), then checks that that many bytes follow and that
/// they are UTF-8, and returns them.
#[verifier::external_body]
pub(crate) fn table_read<'a>(bytes: &'a [u8], offset: usize) -> (r: Option<&'a str>)
    ensures
        match spec_table_read(bytes@, offset as int) {
            Some(s) => r matches Some(t) && t.spec_bytes() == s,
            None => r is None,
        },
{
    StringTable::read(bytes, offset).ok()
}

/// The largest number whose LEB128 bytes, read as group `i` and up, fit
/// in a `u64`.
pub open spec fn leb_cap(i: nat) -> int
    decreases 9 - i,
{
    if i >= 9 {
        2
    } else {
        128 * leb_cap(i + 1)
    }
}

/// Reading the LEB128 bytes of a number gives it back.
pub proof fn lemma_leb_read_encode(v: u64, b: Seq<u8>, pos: int, i: nat)
    requires
        i <= 9,
        v < leb_cap(i),
        0 <= pos,
        pos + leb_encode(v).len() <= b.len(),
        b.subrange(pos, pos + leb_encode(v).len()) == leb_encode(v),
    ensures
        leb_read(b, pos, i) == Some((v as int, pos + leb_encode(v).len())),
    decreases v,
{
    let e = leb_encode(v);
    assert(b[pos] == b.subrange(pos, pos + e.len())[0]);
    if v >= 128 {
        if i == 9 {
            assert(leb_cap(9) == 2);
        }
        assert(i < 9);
        let w = v / 128;
        assert(v == (v % 128) + 128 * w) by (nonlinear_arith)
            requires
                w == v / 128,
        ;
        assert(w < leb_cap(i + 1));
        let ew = leb_encode(w);
        assert(e == seq![(v % 128 + 128) as u8] + ew);
        assert(b.subrange(pos + 1, pos + 1 + ew.len()) =~= b.subrange(pos, pos + e.len()).subrange(
            1,
            e.len() as int,
        ));
        assert(e.subrange(1, e.len() as int) =~= ew);
        lemma_leb_read_encode(w, b, pos + 1, i + 1);
    }
}

/// A `u64` fits in ten LEB128 bytes.
pub proof fn lemma_leb_cap()
    ensures
        leb_cap(0) == 0x1_0000_0000_0000_0000,
{
    reveal_with_fuel(leb_cap, 10);
}

/// Whether byte `i` of a table lies in the entry of a string that it
/// holds: its length, then its bytes.
pub open spec fn byte_held(offsets: Map<Seq<u8>, usize>, i: int) -> bool {
    exists|s: Seq<u8>|
        #![trigger offsets.contains_key(s)]
        offsets.contains_key(s) && offsets[s] <= i < offsets[s] + leb_encode(s.len() as u64).len()
            + s.len()
}

/// Whether every byte of a table lies in the entry of a string that it holds.
#[verifier::opaque]
pub open spec fn table_covered(bytes: Seq<u8>, offsets: Map<Seq<u8>, usize>) -> bool {
    forall|i: int| 0 <= i < bytes.len() ==> #[trigger] byte_held(offsets, i)
}

/// Every string that a table holds stands, after its length, at its
/// offset, and the table holds nothing else.
pub open spec fn table_wf(bytes: Seq<u8>, offsets: Map<Seq<u8>, usize>) -> bool {
    &&& table_covered(bytes, offsets)
    &&& forall|s: Seq<u8>|
        #![trigger offsets.contains_key(s)]
        offsets.contains_key(s) ==> {
            let o = offsets[s] as int;
            let e = leb_encode(s.len() as u64) + s;
            &&& 0 < s.len() <= usize::MAX
            &&& valid_utf8(s)
            &&& o + e.len() <= bytes.len()
            &&& bytes.subrange(o, o + e.len()) == e
        }
}

/// A string that a well-formed table holds is read back at its offset,
/// whatever follows the table.
pub proof fn lemma_table_read(bytes: Seq<u8>, offsets: Map<Seq<u8>, usize>, s: Seq<u8>, tail: Seq<u8>)
    requires
        table_wf(bytes, offsets),
        offsets.contains_key(s),
    ensures
        spec_table_read(bytes + tail, offsets[s] as int) == Some(s),
{
    let b = bytes + tail;
    let o = offsets[s] as int;
    let n = s.len() as u64;
    let l = leb_encode(n);
    let e = l + s;
    assert(b.subrange(o, o + e.len()) =~= bytes.subrange(o, o + e.len()));
    assert(b.subrange(o, o + l.len()) =~= e.subrange(0, l.len() as int));
    assert(e.subrange(0, l.len() as int) =~= l);
    lemma_leb_cap();
    lemma_leb_read_encode(n, b, o, 0);
    assert(b.subrange(o + l.len(), o + l.len() + s.len()) =~= e.subrange(l.len() as int, e.len() as int));
    assert(e.subrange(l.len() as int, e.len() as int) =~= s);
    assert((n as int as usize) as int == s.len()) by {
        assert(s.len() <= usize::MAX);
    }
}

/// Putting a string into a well-formed table keeps it well formed, and
/// leaves what it held where it was.
pub proof fn lemma_table_wf_insert(bytes: Seq<u8>, offsets: Map<Seq<u8>, usize>, s: Seq<u8>)
    requires
        table_wf(bytes, offsets),
        0 < s.len() <= usize::MAX,
        valid_utf8(s),
        !offsets.contains_key(s),
        bytes.len() <= usize::MAX,
    ensures
        table_wf(
            bytes + leb_encode(s.len() as u64) + s,
            offsets.insert(s, bytes.len() as usize),
        ),
{
    let nb = bytes + leb_encode(s.len() as u64) + s;
    let no = offsets.insert(s, bytes.len() as usize);
    assert forall|t: Seq<u8>| #![trigger no.contains_key(t)] no.contains_key(t) implies {
        let o = no[t] as int;
        let e = leb_encode(t.len() as u64) + t;
        &&& 0 < t.len() <= usize::MAX
        &&& valid_utf8(t)
        &&& o + e.len() <= nb.len()
        &&& nb.subrange(o, o + e.len()) == e
    } by {
        if t == s {
            assert(nb.subrange(bytes.len() as int, nb.len() as int) =~= leb_encode(s.len() as u64)
                + s);
        } else {
            assert(offsets.contains_key(t));
            let o = offsets[t] as int;
            let e = leb_encode(t.len() as u64) + t;
            assert(nb.subrange(o, o + e.len()) =~= bytes.subrange(o, o + e.len()));
        }
    }    reveal(table_covered);
    assert forall|i: int| 0 <= i < nb.len() implies #[trigger] byte_held(no, i) by {
        if i < bytes.len() {
            assert(byte_held(offsets, i));
            let t = choose|t: Seq<u8>|
                #![trigger offsets.contains_key(t)]
                offsets.contains_key(t) && offsets[t] <= i < offsets[t] + leb_encode(
                    t.len() as u64,
                ).len() + t.len();
            assert(no.contains_key(t) && no[t] == offsets[t]);
        } else {
            assert(no.contains_key(s) && no[s] == bytes.len());
        }
    }
}

/// The bytes of a string slice are UTF-8.
pub proof fn lemma_str_utf8(s: &str)
    ensures
        valid_utf8(s.spec_bytes()),
{
    encode_utf8_valid_utf8(s@);
}

} // verus!

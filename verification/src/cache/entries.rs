//! The fixed-size records of a cache file and their little-endian encoding.

use vstd::prelude::*;

verus! {

/// The `u32` whose little-endian bytes start at `b[at]`.
pub open spec fn le_u32(b: Seq<u8>, at: int) -> u32 {
    (b[at] as u32) | ((b[at + 1] as u32) << 8u32) | ((b[at + 2] as u32) << 16u32) | ((b[at + 3]
        as u32) << 24u32)
}

/// The little-endian bytes of `v`.
pub open spec fn u32_bytes(v: u32) -> Seq<u8> {
    seq![(v & 0xff) as u8, ((v >> 8u32) & 0xff) as u8, ((v >> 16u32) & 0xff) as u8, (v >> 24u32) as u8]
}

/// The little-endian bytes of each of `fs`, one after the other.
pub open spec fn u32s_bytes(fs: Seq<u32>) -> Seq<u8>
    decreases fs.len(),
{
    if fs.len() == 0 {
        Seq::empty()
    } else {
        u32s_bytes(fs.drop_last()) + u32_bytes(fs.last())
    }
}

/// Reading the bytes of a `u32` gives it back.
pub proof fn lemma_u32_bytes(v: u32, b: Seq<u8>, at: int)
    requires
        0 <= at,
        at + 4 <= b.len(),
        b.subrange(at, at + 4) == u32_bytes(v),
    ensures
        le_u32(b, at) == v,
{
    let b0 = (v & 0xff) as u8;
    let b1 = ((v >> 8u32) & 0xff) as u8;
    let b2 = ((v >> 16u32) & 0xff) as u8;
    let b3 = (v >> 24u32) as u8;
    assert(b[at] == b.subrange(at, at + 4)[0]);
    assert(b[at + 1] == b.subrange(at, at + 4)[1]);
    assert(b[at + 2] == b.subrange(at, at + 4)[2]);
    assert(b[at + 3] == b.subrange(at, at + 4)[3]);
    assert((b0 as u32) | ((b1 as u32) << 8u32) | ((b2 as u32) << 16u32) | ((b3 as u32) << 24u32)
        == v) by (bit_vector)
        requires
            b0 == (v & 0xff) as u8,
            b1 == ((v >> 8u32) & 0xff) as u8,
            b2 == ((v >> 16u32) & 0xff) as u8,
            b3 == (v >> 24u32) as u8,
    ;
}

/// The length of the bytes of `fs`.
pub proof fn lemma_u32s_len(fs: Seq<u32>)
    ensures
        u32s_bytes(fs).len() == 4 * fs.len(),
    decreases fs.len(),
{
    if fs.len() > 0 {
        lemma_u32s_len(fs.drop_last());
    }
}

/// The bytes of `fs[k]` stand at `4 * k` in the bytes of `fs`.
pub proof fn lemma_u32s_at(fs: Seq<u32>, k: int)
    requires
        0 <= k < fs.len(),
    ensures
        u32s_bytes(fs).len() == 4 * fs.len(),
        u32s_bytes(fs).subrange(4 * k, 4 * k + 4) == u32_bytes(fs[k]),
    decreases fs.len(),
{
    lemma_u32s_len(fs);
    let init = fs.drop_last();
    lemma_u32s_len(init);
    if k < fs.len() - 1 {
        lemma_u32s_at(init, k);
        assert(u32s_bytes(fs).subrange(4 * k, 4 * k + 4) =~= u32s_bytes(init).subrange(
            4 * k,
            4 * k + 4,
        ));
    } else {
        assert(u32s_bytes(fs).subrange(4 * k, 4 * k + 4) =~= u32_bytes(fs.last()));
    }
}

/// Reading each `u32` of the bytes of `fs` gives it back.
pub proof fn lemma_read_u32s(fs: Seq<u32>, b: Seq<u8>, at: int)
    requires
        0 <= at,
        at + 4 * fs.len() <= b.len(),
        b.subrange(at, at + 4 * fs.len()) == u32s_bytes(fs),
    ensures
        forall|k: int| 0 <= k < fs.len() ==> #[trigger] le_u32(b, at + 4 * k) == fs[k],
{
    assert forall|k: int| 0 <= k < fs.len() implies #[trigger] le_u32(b, at + 4 * k) == fs[k] by {
        lemma_u32s_at(fs, k);
        assert(b.subrange(at + 4 * k, at + 4 * k + 4) =~= u32s_bytes(fs).subrange(4 * k, 4 * k + 4));
        lemma_u32_bytes(fs[k], b, at + 4 * k);
    }
}

/// Reads a little-endian `u32`.
pub fn read_u32(b: &[u8], at: usize) -> (r: u32)
    requires
        at + 4 <= b@.len(),
    ensures
        r == le_u32(b@, at as int),
{
    (b[at] as u32) | ((b[at + 1] as u32) << 8u32) | ((b[at + 2] as u32) << 16u32) | ((b[at + 3]
        as u32) << 24u32)
}

/// Appends the little-endian bytes of each of `fs`.
pub fn push_u32s(out: &mut Vec<u8>, fs: &Vec<u32>)
    ensures
        final(out)@ == old(out)@ + u32s_bytes(fs@),
{
    let mut i: usize = 0;
    proof {
        assert(fs@.subrange(0, 0) =~= Seq::<u32>::empty());
        assert(out@ =~= old(out)@ + u32s_bytes(fs@.subrange(0, 0)));
    }
    while i < fs.len()
        invariant
            i <= fs@.len(),
            out@ == old(out)@ + u32s_bytes(fs@.subrange(0, i as int)),
        decreases fs@.len() - i,
    {
        let v = fs[i];
        out.push((v & 0xff) as u8);
        out.push(((v >> 8u32) & 0xff) as u8);
        out.push(((v >> 16u32) & 0xff) as u8);
        out.push((v >> 24u32) as u8);
        proof {
            let next = fs@.subrange(0, i + 1);
            assert(next.drop_last() =~= fs@.subrange(0, i as int));
            assert(next.last() == v);
            assert(out@ =~= old(out)@ + u32s_bytes(next));
        }
        i = i + 1;
    }
    proof {
        assert(fs@.subrange(0, fs@.len() as int) =~= fs@);
    }
}

/// A record of fixed size in a cache file.
pub trait Entry: Sized + Copy {
    /// The number of bytes of a record.
    spec fn spec_size() -> nat;

    /// The number of bytes of a record.
    fn size() -> (r: usize)
        ensures
            r == Self::spec_size(),
    ;

    /// The record whose bytes start at `b[at]`.
    spec fn decode(b: Seq<u8>, at: int) -> Self;

    /// The bytes of a record.
    spec fn encode(self) -> Seq<u8>;

    /// Reads the record whose bytes start at `b[at]`.
    fn read(b: &[u8], at: usize) -> (r: Self)
        requires
            at + Self::spec_size() <= b@.len(),
        ensures
            r == Self::decode(b@, at as int),
    ;

    /// Appends the bytes of the record.
    fn write(&self, out: &mut Vec<u8>)
        ensures
            final(out)@ == old(out)@ + self.encode(),
    ;

    /// The bytes of a record have the record's size.
    proof fn lemma_size(self)
        ensures
            self.encode().len() == Self::spec_size(),
    ;

    /// Reading the bytes of a record gives it back.
    proof fn lemma_decode(self, b: Seq<u8>, at: int)
        requires
            0 <= at,
            at + Self::spec_size() <= b.len(),
            b.subrange(at, at + Self::spec_size()) == self.encode(),
        ensures
            Self::decode(b, at) == self,
    ;
}

/// The file magic: the bytes `PRGC` read as a little-endian `u32`.
pub open spec fn cache_magic() -> u32 {
    0x43475250
}

/// The magic with its bytes the other way round.
pub open spec fn cache_magic_flipped() -> u32 {
    0x50524743
}

/// The current version of the cache format.
pub const PRGCACHE_VERSION: u32 = 4;

/// The current version of the cache format.
pub open spec fn cache_version() -> u32 {
    PRGCACHE_VERSION
}

/// The header of a cache file.
#[derive(Clone, Copy, Debug, PartialEq, Eq)]
pub struct Header {
    /// The file magic, which tells the format and the endianness.
    pub magic: u32,
    /// The format version.
    pub version: u32,
    /// The number of class records.
    pub num_classes: u32,
    /// The number of member records.
    pub num_members: u32,
    /// The number of member records used to map by parameters.
    pub num_members_by_params: u32,
    /// The number of outline pairs.
    pub num_outline_pairs: u32,
    /// The number of rewrite rule records.
    pub num_rewrite_rule_entries: u32,
    /// The number of rewrite rule components.
    pub num_rewrite_rule_components: u32,
    /// The number of string bytes.
    pub string_bytes: u32,
}

impl Header {
    /// The fields, in the order of the file.
    pub open spec fn fields(self) -> Seq<u32> {
        seq![
            self.magic,
            self.version,
            self.num_classes,
            self.num_members,
            self.num_members_by_params,
            self.num_outline_pairs,
            self.num_rewrite_rule_entries,
            self.num_rewrite_rule_components,
            self.string_bytes,
        ]
    }
}

impl Entry for Header {
    open spec fn spec_size() -> nat {
        36
    }

    fn size() -> (r: usize) {
        36
    }

    open spec fn decode(b: Seq<u8>, at: int) -> Self {
        Header {
            magic: le_u32(b, at),
            version: le_u32(b, at + 4),
            num_classes: le_u32(b, at + 8),
            num_members: le_u32(b, at + 12),
            num_members_by_params: le_u32(b, at + 16),
            num_outline_pairs: le_u32(b, at + 20),
            num_rewrite_rule_entries: le_u32(b, at + 24),
            num_rewrite_rule_components: le_u32(b, at + 28),
            string_bytes: le_u32(b, at + 32),
        }
    }

    open spec fn encode(self) -> Seq<u8> {
        u32s_bytes(self.fields())
    }

    fn read(b: &[u8], at: usize) -> (r: Self) {
        assert(Self::spec_size() == 36);
        let len = b.len();
        assert(at + 36 <= len);
        Header {
            magic: read_u32(b, at),
            version: read_u32(b, at + 4),
            num_classes: read_u32(b, at + 8),
            num_members: read_u32(b, at + 12),
            num_members_by_params: read_u32(b, at + 16),
            num_outline_pairs: read_u32(b, at + 20),
            num_rewrite_rule_entries: read_u32(b, at + 24),
            num_rewrite_rule_components: read_u32(b, at + 28),
            string_bytes: read_u32(b, at + 32),
        }
    }

    fn write(&self, out: &mut Vec<u8>) {
        let fs: Vec<u32> = vec![
            self.magic,
            self.version,
            self.num_classes,
            self.num_members,
            self.num_members_by_params,
            self.num_outline_pairs,
            self.num_rewrite_rule_entries,
            self.num_rewrite_rule_components,
            self.string_bytes,
        ];
        proof {
            assert(fs@ =~= self.fields());
        }
        push_u32s(out, &fs);
    }

    proof fn lemma_size(self) {
        lemma_u32s_len(self.fields());
    }

    proof fn lemma_decode(self, b: Seq<u8>, at: int) {
        let fs = self.fields();
        lemma_u32s_len(fs);
        lemma_read_u32s(fs, b, at);
        assert(le_u32(b, at + 4 * 0) == fs[0]);
        assert(le_u32(b, at + 4 * 1) == fs[1]);
        assert(le_u32(b, at + 4 * 2) == fs[2]);
        assert(le_u32(b, at + 4 * 3) == fs[3]);
        assert(le_u32(b, at + 4 * 4) == fs[4]);
        assert(le_u32(b, at + 4 * 5) == fs[5]);
        assert(le_u32(b, at + 4 * 6) == fs[6]);
        assert(le_u32(b, at + 4 * 7) == fs[7]);
        assert(le_u32(b, at + 4 * 8) == fs[8]);
    }
}

/// A class record of a cache file.
#[derive(Clone, Copy, Debug, PartialEq, Eq)]
pub struct RawClass {
    /// The obfuscated class name (offset into the string section).
    pub obfuscated_name_offset: u32,
    /// The original class name (offset into the string section).
    pub original_name_offset: u32,
    /// The file name that a header of the class gives (offset into the
    /// string section).
    pub file_name_offset: u32,
    /// The start of the class's member records.
    pub members_offset: u32,
    /// The number of member records of the class.
    pub members_len: u32,
    /// The start of the class's records among those mapped by parameters.
    pub members_by_params_offset: u32,
    /// The number of the class's records among those mapped by parameters.
    pub members_by_params_len: u32,
    /// Whether a header of the class says that it was synthesized by the
    /// compiler (`0` means no).
    pub is_synthesized: u8,
}

impl RawClass {
    /// The `u32` fields, in the order of the file.
    pub open spec fn fields(self) -> Seq<u32> {
        seq![
            self.obfuscated_name_offset,
            self.original_name_offset,
            self.file_name_offset,
            self.members_offset,
            self.members_len,
            self.members_by_params_offset,
            self.members_by_params_len,
        ]
    }

    /// Whether the class was synthesized by the compiler.
    pub fn is_synthesized(&self) -> (r: bool)
        ensures
            r == (self.is_synthesized != 0),
    {
        self.is_synthesized != 0
    }
}

impl Default for RawClass {
    /// A class record that refers to nothing: no strings and no members.
    fn default() -> (r: Self)
        ensures
            r == (RawClass {
                obfuscated_name_offset: u32::MAX,
                original_name_offset: u32::MAX,
                file_name_offset: u32::MAX,
                members_offset: u32::MAX,
                members_len: 0,
                members_by_params_offset: u32::MAX,
                members_by_params_len: 0,
                is_synthesized: 0,
            }),
    {
        RawClass {
            obfuscated_name_offset: u32::MAX,
            original_name_offset: u32::MAX,
            file_name_offset: u32::MAX,
            members_offset: u32::MAX,
            members_len: 0,
            members_by_params_offset: u32::MAX,
            members_by_params_len: 0,
            is_synthesized: 0,
        }
    }
}

impl Entry for RawClass {
    open spec fn spec_size() -> nat {
        32
    }

    fn size() -> (r: usize) {
        32
    }

    open spec fn decode(b: Seq<u8>, at: int) -> Self {
        RawClass {
            obfuscated_name_offset: le_u32(b, at),
            original_name_offset: le_u32(b, at + 4),
            file_name_offset: le_u32(b, at + 8),
            members_offset: le_u32(b, at + 12),
            members_len: le_u32(b, at + 16),
            members_by_params_offset: le_u32(b, at + 20),
            members_by_params_len: le_u32(b, at + 24),
            is_synthesized: b[at + 28],
        }
    }

    open spec fn encode(self) -> Seq<u8> {
        u32s_bytes(self.fields()) + seq![self.is_synthesized, 0u8, 0u8, 0u8]
    }

    fn read(b: &[u8], at: usize) -> (r: Self) {
        assert(Self::spec_size() == 32);
        let len = b.len();
        assert(at + 32 <= len);
        RawClass {
            obfuscated_name_offset: read_u32(b, at),
            original_name_offset: read_u32(b, at + 4),
            file_name_offset: read_u32(b, at + 8),
            members_offset: read_u32(b, at + 12),
            members_len: read_u32(b, at + 16),
            members_by_params_offset: read_u32(b, at + 20),
            members_by_params_len: read_u32(b, at + 24),
            is_synthesized: b[at + 28],
        }
    }

    fn write(&self, out: &mut Vec<u8>) {
        let fs: Vec<u32> = vec![
            self.obfuscated_name_offset,
            self.original_name_offset,
            self.file_name_offset,
            self.members_offset,
            self.members_len,
            self.members_by_params_offset,
            self.members_by_params_len,
        ];
        proof {
            assert(fs@ =~= self.fields());
        }
        push_u32s(out, &fs);
        out.push(self.is_synthesized);
        out.push(0u8);
        out.push(0u8);
        out.push(0u8);
        proof {
            assert(final(out)@ =~= old(out)@ + self.encode());
        }
    }

    proof fn lemma_size(self) {
        lemma_u32s_len(self.fields());
    }

    proof fn lemma_decode(self, b: Seq<u8>, at: int) {
        let fs = self.fields();
        lemma_u32s_len(fs);
        assert(b.subrange(at, at + 28) =~= self.encode().subrange(0, 28));
        assert(self.encode().subrange(0, 28) =~= u32s_bytes(fs));
        lemma_read_u32s(fs, b, at);
        assert(b[at + 28] == self.encode()[28]);
        assert(le_u32(b, at + 4 * 0) == fs[0]);
        assert(le_u32(b, at + 4 * 1) == fs[1]);
        assert(le_u32(b, at + 4 * 2) == fs[2]);
        assert(le_u32(b, at + 4 * 3) == fs[3]);
        assert(le_u32(b, at + 4 * 4) == fs[4]);
        assert(le_u32(b, at + 4 * 5) == fs[5]);
        assert(le_u32(b, at + 4 * 6) == fs[6]);
    }
}

/// A member record of a cache file: one method record of the mapping.
#[derive(Clone, Copy, Debug, PartialEq, Eq)]
pub struct RawMember {
    /// The obfuscated method name (offset into the string section).
    pub obfuscated_name_offset: u32,
    /// The start of the range covered by this record.
    pub startline: u32,
    /// The end of the range covered by this record (inclusive).
    pub endline: u32,
    /// The class the method was inlined from (offset into the string section).
    pub original_class_offset: u32,
    /// The original file name (offset into the string section).
    pub original_file_offset: u32,
    /// The original method name (offset into the string section).
    pub original_name_offset: u32,
    /// The original start line.
    pub original_startline: u32,
    /// The original end line (inclusive).
    pub original_endline: u32,
    /// The parameter string (offset into the string section).
    pub params_offset: u32,
    /// The start of the record's outline pairs.
    pub outline_pairs_offset: u32,
    /// The number of the record's outline pairs.
    pub outline_pairs_len: u32,
    /// The start of the record's rewrite rules.
    pub rewrite_rules_offset: u32,
    /// The number of the record's rewrite rules.
    pub rewrite_rules_len: u32,
    /// Whether a header of the record says that the method was synthesized
    /// by the compiler (`0` means no).
    pub is_synthesized: u8,
    /// Whether a header of the record says that the method is an outline
    /// (`0` means no).
    pub is_outline: u8,
    /// Whether the record maps frames by their parameters (`0` means no).
    pub is_by_params: u8,
}

impl RawMember {
    /// The `u32` fields, in the order of the file.
    pub open spec fn fields(self) -> Seq<u32> {
        seq![
            self.obfuscated_name_offset,
            self.startline,
            self.endline,
            self.original_class_offset,
            self.original_file_offset,
            self.original_name_offset,
            self.original_startline,
            self.original_endline,
            self.params_offset,
            self.outline_pairs_offset,
            self.outline_pairs_len,
            self.rewrite_rules_offset,
            self.rewrite_rules_len,
        ]
    }

    /// Whether the method was synthesized by the compiler.
    pub fn is_synthesized(&self) -> (r: bool)
        ensures
            r == (self.is_synthesized != 0),
    {
        self.is_synthesized != 0
    }

    /// Whether the method is an outline.
    pub fn is_outline(&self) -> (r: bool)
        ensures
            r == (self.is_outline != 0),
    {
        self.is_outline != 0
    }
}

impl Entry for RawMember {
    open spec fn spec_size() -> nat {
        56
    }

    fn size() -> (r: usize) {
        56
    }

    open spec fn decode(b: Seq<u8>, at: int) -> Self {
        RawMember {
            obfuscated_name_offset: le_u32(b, at),
            startline: le_u32(b, at + 4),
            endline: le_u32(b, at + 8),
            original_class_offset: le_u32(b, at + 12),
            original_file_offset: le_u32(b, at + 16),
            original_name_offset: le_u32(b, at + 20),
            original_startline: le_u32(b, at + 24),
            original_endline: le_u32(b, at + 28),
            params_offset: le_u32(b, at + 32),
            outline_pairs_offset: le_u32(b, at + 36),
            outline_pairs_len: le_u32(b, at + 40),
            rewrite_rules_offset: le_u32(b, at + 44),
            rewrite_rules_len: le_u32(b, at + 48),
            is_synthesized: b[at + 52],
            is_outline: b[at + 53],
            is_by_params: b[at + 54],
        }
    }

    open spec fn encode(self) -> Seq<u8> {
        u32s_bytes(self.fields()) + seq![self.is_synthesized, self.is_outline, self.is_by_params, 0u8]
    }

    fn read(b: &[u8], at: usize) -> (r: Self) {
        assert(Self::spec_size() == 56);
        let len = b.len();
        assert(at + 56 <= len);
        RawMember {
            obfuscated_name_offset: read_u32(b, at),
            startline: read_u32(b, at + 4),
            endline: read_u32(b, at + 8),
            original_class_offset: read_u32(b, at + 12),
            original_file_offset: read_u32(b, at + 16),
            original_name_offset: read_u32(b, at + 20),
            original_startline: read_u32(b, at + 24),
            original_endline: read_u32(b, at + 28),
            params_offset: read_u32(b, at + 32),
            outline_pairs_offset: read_u32(b, at + 36),
            outline_pairs_len: read_u32(b, at + 40),
            rewrite_rules_offset: read_u32(b, at + 44),
            rewrite_rules_len: read_u32(b, at + 48),
            is_synthesized: b[at + 52],
            is_outline: b[at + 53],
            is_by_params: b[at + 54],
        }
    }

    fn write(&self, out: &mut Vec<u8>) {
        let fs: Vec<u32> = vec![
            self.obfuscated_name_offset,
            self.startline,
            self.endline,
            self.original_class_offset,
            self.original_file_offset,
            self.original_name_offset,
            self.original_startline,
            self.original_endline,
            self.params_offset,
            self.outline_pairs_offset,
            self.outline_pairs_len,
            self.rewrite_rules_offset,
            self.rewrite_rules_len,
        ];
        proof {
            assert(fs@ =~= self.fields());
        }
        push_u32s(out, &fs);
        out.push(self.is_synthesized);
        out.push(self.is_outline);
        out.push(self.is_by_params);
        out.push(0u8);
        proof {
            assert(final(out)@ =~= old(out)@ + self.encode());
        }
    }

    proof fn lemma_size(self) {
        lemma_u32s_len(self.fields());
    }

    proof fn lemma_decode(self, b: Seq<u8>, at: int) {
        let fs = self.fields();
        lemma_u32s_len(fs);
        assert(b.subrange(at, at + 52) =~= self.encode().subrange(0, 52));
        assert(self.encode().subrange(0, 52) =~= u32s_bytes(fs));
        lemma_read_u32s(fs, b, at);
        assert(b[at + 52] == self.encode()[52]);
        assert(b[at + 53] == self.encode()[53]);
        assert(b[at + 54] == self.encode()[54]);
        assert(le_u32(b, at + 4 * 0) == fs[0]);
        assert(le_u32(b, at + 4 * 1) == fs[1]);
        assert(le_u32(b, at + 4 * 2) == fs[2]);
        assert(le_u32(b, at + 4 * 3) == fs[3]);
        assert(le_u32(b, at + 4 * 4) == fs[4]);
        assert(le_u32(b, at + 4 * 5) == fs[5]);
        assert(le_u32(b, at + 4 * 6) == fs[6]);
        assert(le_u32(b, at + 4 * 7) == fs[7]);
        assert(le_u32(b, at + 4 * 8) == fs[8]);
        assert(le_u32(b, at + 4 * 9) == fs[9]);
        assert(le_u32(b, at + 4 * 10) == fs[10]);
        assert(le_u32(b, at + 4 * 11) == fs[11]);
        assert(le_u32(b, at + 4 * 12) == fs[12]);
    }
}

/// One outline pair: an outline position and the line of the call site.
#[derive(Clone, Copy, Debug, PartialEq, Eq)]
pub struct OutlinePair {
    /// The position in the outline.
    pub outline_pos: u32,
    /// The line of the call site.
    pub callsite_line: u32,
}

impl Entry for OutlinePair {
    open spec fn spec_size() -> nat {
        8
    }

    fn size() -> (r: usize) {
        8
    }

    open spec fn decode(b: Seq<u8>, at: int) -> Self {
        OutlinePair { outline_pos: le_u32(b, at), callsite_line: le_u32(b, at + 4) }
    }

    open spec fn encode(self) -> Seq<u8> {
        u32s_bytes(seq![self.outline_pos, self.callsite_line])
    }

    fn read(b: &[u8], at: usize) -> (r: Self) {
        assert(Self::spec_size() == 8);
        let len = b.len();
        assert(at + 8 <= len);
        OutlinePair { outline_pos: read_u32(b, at), callsite_line: read_u32(b, at + 4) }
    }

    fn write(&self, out: &mut Vec<u8>) {
        let fs: Vec<u32> = vec![self.outline_pos, self.callsite_line];
        proof {
            assert(fs@ =~= seq![self.outline_pos, self.callsite_line]);
        }
        push_u32s(out, &fs);
    }

    proof fn lemma_size(self) {
        lemma_u32s_len(seq![self.outline_pos, self.callsite_line]);
    }

    proof fn lemma_decode(self, b: Seq<u8>, at: int) {
        let fs = seq![self.outline_pos, self.callsite_line];
        lemma_u32s_len(fs);
        lemma_read_u32s(fs, b, at);
        assert(le_u32(b, at + 4 * 0) == fs[0]);
        assert(le_u32(b, at + 4 * 1) == fs[1]);
    }
}

/// A rewrite rule record: where its conditions and actions stand among
/// the components.
#[derive(Clone, Copy, Debug, PartialEq, Eq)]
pub struct RewriteRuleEntry {
    /// The start of the rule's conditions.
    pub conditions_offset: u32,
    /// The number of the rule's conditions.
    pub conditions_len: u32,
    /// The start of the rule's actions.
    pub actions_offset: u32,
    /// The number of the rule's actions.
    pub actions_len: u32,
}

impl RewriteRuleEntry {
    /// The fields, in the order of the file.
    pub open spec fn fields(self) -> Seq<u32> {
        seq![self.conditions_offset, self.conditions_len, self.actions_offset, self.actions_len]
    }
}

impl Entry for RewriteRuleEntry {
    open spec fn spec_size() -> nat {
        16
    }

    fn size() -> (r: usize) {
        16
    }

    open spec fn decode(b: Seq<u8>, at: int) -> Self {
        RewriteRuleEntry {
            conditions_offset: le_u32(b, at),
            conditions_len: le_u32(b, at + 4),
            actions_offset: le_u32(b, at + 8),
            actions_len: le_u32(b, at + 12),
        }
    }

    open spec fn encode(self) -> Seq<u8> {
        u32s_bytes(self.fields())
    }

    fn read(b: &[u8], at: usize) -> (r: Self) {
        assert(Self::spec_size() == 16);
        let len = b.len();
        assert(at + 16 <= len);
        RewriteRuleEntry {
            conditions_offset: read_u32(b, at),
            conditions_len: read_u32(b, at + 4),
            actions_offset: read_u32(b, at + 8),
            actions_len: read_u32(b, at + 12),
        }
    }

    fn write(&self, out: &mut Vec<u8>) {
        let fs: Vec<u32> = vec![
            self.conditions_offset,
            self.conditions_len,
            self.actions_offset,
            self.actions_len,
        ];
        proof {
            assert(fs@ =~= self.fields());
        }
        push_u32s(out, &fs);
    }

    proof fn lemma_size(self) {
        lemma_u32s_len(self.fields());
    }

    proof fn lemma_decode(self, b: Seq<u8>, at: int) {
        let fs = self.fields();
        lemma_u32s_len(fs);
        lemma_read_u32s(fs, b, at);
        assert(le_u32(b, at + 4 * 0) == fs[0]);
        assert(le_u32(b, at + 4 * 1) == fs[1]);
        assert(le_u32(b, at + 4 * 2) == fs[2]);
        assert(le_u32(b, at + 4 * 3) == fs[3]);
    }
}

/// A condition or an action of a rewrite rule: its kind and a value, which
/// is a string offset or a number depending on the kind.
#[derive(Clone, Copy, Debug, PartialEq, Eq)]
pub struct RewriteComponent {
    /// The kind of the component.
    pub kind: u32,
    /// The value of the component.
    pub value: u32,
}

impl Entry for RewriteComponent {
    open spec fn spec_size() -> nat {
        8
    }

    fn size() -> (r: usize) {
        8
    }

    open spec fn decode(b: Seq<u8>, at: int) -> Self {
        RewriteComponent { kind: le_u32(b, at), value: le_u32(b, at + 4) }
    }

    open spec fn encode(self) -> Seq<u8> {
        u32s_bytes(seq![self.kind, self.value])
    }

    fn read(b: &[u8], at: usize) -> (r: Self) {
        assert(Self::spec_size() == 8);
        let len = b.len();
        assert(at + 8 <= len);
        RewriteComponent { kind: read_u32(b, at), value: read_u32(b, at + 4) }
    }

    fn write(&self, out: &mut Vec<u8>) {
        let fs: Vec<u32> = vec![self.kind, self.value];
        proof {
            assert(fs@ =~= seq![self.kind, self.value]);
        }
        push_u32s(out, &fs);
    }

    proof fn lemma_size(self) {
        lemma_u32s_len(seq![self.kind, self.value]);
    }

    proof fn lemma_decode(self, b: Seq<u8>, at: int) {
        let fs = seq![self.kind, self.value];
        lemma_u32s_len(fs);
        lemma_read_u32s(fs, b, at);
        assert(le_u32(b, at + 4 * 0) == fs[0]);
        assert(le_u32(b, at + 4 * 1) == fs[1]);
    }
}

/// The `n` records whose bytes start at `b[at]`, one after the other.
pub open spec fn decode_all<T: Entry>(b: Seq<u8>, at: int, n: nat) -> Seq<T> {
    Seq::new(n, |i: int| T::decode(b, at + T::spec_size() * i))
}

/// The bytes of the records `s`, one after the other.
pub open spec fn encode_all<T: Entry>(s: Seq<T>) -> Seq<u8>
    decreases s.len(),
{
    if s.len() == 0 {
        Seq::empty()
    } else {
        encode_all(s.drop_last()) + s.last().encode()
    }
}

/// The bytes of `n` records take `n` times the size of one.
pub proof fn lemma_encode_all_len<T: Entry>(s: Seq<T>)
    ensures
        encode_all(s).len() == T::spec_size() * s.len(),
    decreases s.len(),
{
    if s.len() > 0 {
        lemma_encode_all_len(s.drop_last());
        s.last().lemma_size();
        let k: int = T::spec_size() as int;
        let n: int = s.len() as int;
        assert(k * (n - 1) + k == k * n) by (nonlinear_arith);
    }
}

/// Reading the bytes of records gives them back.
pub proof fn lemma_decode_all<T: Entry>(s: Seq<T>, b: Seq<u8>, at: int)
    requires
        0 <= at,
        at + T::spec_size() * s.len() <= b.len(),
        b.subrange(at, at + T::spec_size() * s.len()) == encode_all(s),
    ensures
        decode_all::<T>(b, at, s.len()) == s,
    decreases s.len(),
{
    let k: int = T::spec_size() as int;
    let n: int = s.len() as int;
    if n > 0 {
        let init = s.drop_last();
        lemma_encode_all_len(init);
        s.last().lemma_size();
        assert(k * (n - 1) + k == k * n) by (nonlinear_arith);
        assert(k * (n - 1) >= 0) by (nonlinear_arith)
            requires
                n >= 1,
                k >= 0,
        ;
        assert(b.subrange(at, at + k * (n - 1)) =~= encode_all(s).subrange(0, k * (n - 1)));
        assert(encode_all(s).subrange(0, k * (n - 1)) =~= encode_all(init));
        lemma_decode_all(init, b, at);
        assert(b.subrange(at + k * (n - 1), at + k * (n - 1) + k) =~= encode_all(s).subrange(
            k * (n - 1),
            k * n,
        ));
        assert(encode_all(s).subrange(k * (n - 1), k * n) =~= s.last().encode());
        s.last().lemma_decode(b, at + k * (n - 1));
        let d = decode_all::<T>(b, at, s.len());
        assert forall|i: int| 0 <= i < n implies d[i] == s[i] by {
            if i < n - 1 {
                assert(decode_all::<T>(b, at, init.len())[i] == init[i]);
            }
        }
        assert(d =~= s);
    } else {
        assert(decode_all::<T>(b, at, 0) =~= s);
    }
}

/// Reads `n` records whose bytes start at `b[at]`.
pub fn read_all<T: Entry>(b: &[u8], at: usize, n: usize) -> (r: Vec<T>)
    requires
        at + T::spec_size() * n <= b@.len(),
    ensures
        r@ == decode_all::<T>(b@, at as int, n as nat),
{
    let k = T::size();
    let len = b.len();
    let mut out: Vec<T> = Vec::new();
    let mut pos = at;
    let mut i: usize = 0;
    while i < n
        invariant
            k == T::spec_size(),
            len == b@.len(),
            i <= n,
            at + T::spec_size() * n <= b@.len(),
            pos == at + k * i,
            out@ == decode_all::<T>(b@, at as int, i as nat),
        decreases n - i,
    {
        assert(k * i + k <= k * n) by (nonlinear_arith)
            requires
                i < n,
        ;
        assert(k * (i + 1) == k * i + k) by (nonlinear_arith);
        let e = T::read(b, pos);
        out.push(e);
        proof {
            assert(out@ =~= decode_all::<T>(b@, at as int, (i + 1) as nat));
        }
        pos = pos + k;
        i = i + 1;
    }
    out
}

/// Appends the bytes of the records `s`, one after the other.
pub fn write_all<T: Entry>(out: &mut Vec<u8>, s: &Vec<T>)
    ensures
        final(out)@ == old(out)@ + encode_all(s@),
{
    let mut i: usize = 0;
    proof {
        assert(s@.subrange(0, 0) =~= Seq::<T>::empty());
        assert(out@ =~= old(out)@ + encode_all(s@.subrange(0, 0)));
    }
    while i < s.len()
        invariant
            i <= s@.len(),
            out@ == old(out)@ + encode_all(s@.subrange(0, i as int)),
        decreases s@.len() - i,
    {
        s[i].write(out);
        proof {
            let next = s@.subrange(0, i + 1);
            assert(next.drop_last() =~= s@.subrange(0, i as int));
            assert(out@ =~= old(out)@ + encode_all(next));
        }
        i = i + 1;
    }
    proof {
        assert(s@.subrange(0, s@.len() as int) =~= s@);
    }
}

} // verus!

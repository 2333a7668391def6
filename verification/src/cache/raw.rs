//! Reading a cache file: its header and its sections of records.

use vstd::prelude::*;
use vstd::slice::slice_subrange;
use vstd::string::*;

use crate::cache::entries::{
    cache_magic, cache_magic_flipped, cache_version, decode_all, encode_all, lemma_decode_all,
    lemma_encode_all_len, read_all, Entry, Header, PRGCACHE_VERSION,
    OutlinePair, RawClass, RawMember, RewriteComponent, RewriteRuleEntry,
};
use crate::cache::strings::{spec_table_read, table_read};
use crate::cache::{CacheError, CacheErrorKind};
use crate::text::str_eq;

verus! {

/// Where the sections end: classes, members, members by parameters,
/// outline pairs, rewrite rules and rewrite components. The classes start
/// at byte 40, after the header and four bytes that align them to 8.
pub open spec fn section_ends(h: Header) -> (int, int, int, int, int, int) {
    let p1 = 40 + 32 * h.num_classes;
    let p2 = p1 + 56 * h.num_members;
    let p3 = p2 + 56 * h.num_members_by_params;
    let p4 = p3 + 8 * h.num_outline_pairs;
    let p5 = p4 + 16 * h.num_rewrite_rule_entries;
    let p6 = p5 + 8 * h.num_rewrite_rule_components;
    (p1, p2, p3, p4, p5, p6)
}

/// What a cache file holds.
pub struct CacheModel {
    pub header: Header,
    pub classes: Seq<RawClass>,
    pub members: Seq<RawMember>,
    pub members_by_params: Seq<RawMember>,
    pub outline_pairs: Seq<OutlinePair>,
    pub rewrite_rule_entries: Seq<RewriteRuleEntry>,
    pub rewrite_rule_components: Seq<RewriteComponent>,
    pub string_bytes: Seq<u8>,
}

/// Reads a cache file: the header, checked for its magic and version, then
/// each section, each of which must fit in the file, then the strings.
pub open spec fn spec_parse(b: Seq<u8>) -> Result<CacheModel, CacheErrorKind> {
    if b.len() < 36 {
        Err(CacheErrorKind::InvalidHeader)
    } else {
        let h = Header::decode(b, 0);
        let (p1, p2, p3, p4, p5, p6) = section_ends(h);
        if h.magic == cache_magic_flipped() {
            Err(CacheErrorKind::WrongEndianness)
        } else if h.magic != cache_magic() {
            Err(CacheErrorKind::WrongFormat)
        } else if h.version != cache_version() {
            Err(CacheErrorKind::WrongVersion)
        } else if b.len() < p1 {
            Err(CacheErrorKind::InvalidClasses)
        } else if b.len() < p6 {
            Err(CacheErrorKind::InvalidMembers)
        } else if b.len() - p6 < h.string_bytes {
            Err(
                CacheErrorKind::UnexpectedStringBytes {
                    expected: h.string_bytes as usize,
                    found: (b.len() - p6) as usize,
                },
            )
        } else {
            Ok(
                CacheModel {
                    header: h,
                    classes: decode_all(b, 40, h.num_classes as nat),
                    members: decode_all(b, p1, h.num_members as nat),
                    members_by_params: decode_all(b, p2, h.num_members_by_params as nat),
                    outline_pairs: decode_all(b, p3, h.num_outline_pairs as nat),
                    rewrite_rule_entries: decode_all(b, p4, h.num_rewrite_rule_entries as nat),
                    rewrite_rule_components: decode_all(
                        b,
                        p5,
                        h.num_rewrite_rule_components as nat,
                    ),
                    string_bytes: b.subrange(p6, b.len() as int),
                },
            )
        }
    }
}

/// A mapping in the cache format, read from the bytes of a cache file.
#[derive(Clone, Debug)]
pub struct ProguardCache<'data> {
    pub(crate) header: Header,
    /// The class records, in the order of the mapping.
    pub(crate) classes: Vec<RawClass>,
    /// The member records, in the order of the mapping; those of a class
    /// stand together.
    pub(crate) members: Vec<RawMember>,
    /// The member records used to map frames by their parameters.
    pub(crate) members_by_params: Vec<RawMember>,
    /// The outline pairs of all member records.
    pub(crate) outline_pairs: Vec<OutlinePair>,
    /// The rewrite rules of all member records.
    pub(crate) rewrite_rule_entries: Vec<RewriteRuleEntry>,
    /// The conditions and actions of all rewrite rules.
    pub(crate) rewrite_rule_components: Vec<RewriteComponent>,
    /// The string section: everything after the records.
    pub(crate) string_bytes: &'data [u8],
}

impl<'data> View for ProguardCache<'data> {
    type V = CacheModel;

    closed spec fn view(&self) -> CacheModel {
        CacheModel {
            header: self.header,
            classes: self.classes@,
            members: self.members@,
            members_by_params: self.members_by_params@,
            outline_pairs: self.outline_pairs@,
            rewrite_rule_entries: self.rewrite_rule_entries@,
            rewrite_rule_components: self.rewrite_rule_components@,
            string_bytes: self.string_bytes@,
        }
    }
}

/// The error of kind `kind`.
fn fail<T>(kind: CacheErrorKind) -> (r: Result<T, CacheError>)
    ensures
        r matches Err(e) && e@ == kind,
{
    Err(CacheError::new(kind))
}

impl<'data> ProguardCache<'data> {
    /// Parses a `ProguardCache` out of bytes.
    pub fn parse(buf: &'data [u8]) -> (r: Result<Self, CacheError>)
        ensures
            match spec_parse(buf@) {
                Ok(m) => r matches Ok(c) && c@ == m,
                Err(k) => r matches Err(e) && e@ == k,
            },
    {
        let len = buf.len();
        if len < 36 {
            return fail(CacheErrorKind::InvalidHeader);
        }
        let header = Header::read(buf, 0);
        if header.magic == 0x50524743 {
            return fail(CacheErrorKind::WrongEndianness);
        }
        if header.magic != 0x43475250 {
            return fail(CacheErrorKind::WrongFormat);
        }
        if header.version != PRGCACHE_VERSION {
            return fail(CacheErrorKind::WrongVersion);
        }
        let total = len as u64;
        let p1: u64 = 40 + 32 * (header.num_classes as u64);
        let p2: u64 = p1 + 56 * (header.num_members as u64);
        let p3: u64 = p2 + 56 * (header.num_members_by_params as u64);
        let p4: u64 = p3 + 8 * (header.num_outline_pairs as u64);
        let p5: u64 = p4 + 16 * (header.num_rewrite_rule_entries as u64);
        let p6: u64 = p5 + 8 * (header.num_rewrite_rule_components as u64);
        if total < p1 {
            return fail(CacheErrorKind::InvalidClasses);
        }
        if total < p6 {
            return fail(CacheErrorKind::InvalidMembers);
        }
        if total - p6 < header.string_bytes as u64 {
            return fail(
                CacheErrorKind::UnexpectedStringBytes {
                    expected: header.string_bytes as usize,
                    found: (total - p6) as usize,
                },
            );
        }
        let classes = read_all::<RawClass>(buf, 40, header.num_classes as usize);
        let members = read_all::<RawMember>(buf, p1 as usize, header.num_members as usize);
        let members_by_params = read_all::<RawMember>(
            buf,
            p2 as usize,
            header.num_members_by_params as usize,
        );
        let outline_pairs = read_all::<OutlinePair>(
            buf,
            p3 as usize,
            header.num_outline_pairs as usize,
        );
        let rewrite_rule_entries = read_all::<RewriteRuleEntry>(
            buf,
            p4 as usize,
            header.num_rewrite_rule_entries as usize,
        );
        let rewrite_rule_components = read_all::<RewriteComponent>(
            buf,
            p5 as usize,
            header.num_rewrite_rule_components as usize,
        );
        let string_bytes = slice_subrange(buf, p6 as usize, len);
        Ok(
            ProguardCache {
                header,
                classes,
                members,
                members_by_params,
                outline_pairs,
                rewrite_rule_entries,
                rewrite_rule_components,
                string_bytes,
            },
        )
    }
}

/// Whether a string can be read at `offset`.
pub open spec fn string_ok(strings: Seq<u8>, offset: u32) -> bool {
    spec_table_read(strings, offset as int) is Some
}

/// Whether `offset` is `u32::MAX`, for no string, or a string can be read there.
pub open spec fn opt_string_ok(strings: Seq<u8>, offset: u32) -> bool {
    offset == u32::MAX || string_ok(strings, offset)
}

/// Whether a flag is `0` or `1`.
pub open spec fn flag_ok(f: u8) -> bool {
    f == 0 || f == 1
}

/// Whether the conditions and the actions of a rule record lie among the
/// components.
pub open spec fn rule_ok(m: CacheModel, e: RewriteRuleEntry) -> bool {
    &&& e.conditions_offset + e.conditions_len <= m.rewrite_rule_components.len()
    &&& e.actions_offset + e.actions_len <= m.rewrite_rule_components.len()
}

/// Whether a member record's strings can be read, its flags are `0` or
/// `1`, and its outline pairs and rules lie in their sections.
pub open spec fn member_ok(m: CacheModel, r: RawMember) -> bool {
    &&& string_ok(m.string_bytes, r.obfuscated_name_offset)
    &&& string_ok(m.string_bytes, r.original_name_offset)
    &&& flag_ok(r.is_synthesized)
    &&& flag_ok(r.is_outline)
    &&& r.outline_pairs_offset + r.outline_pairs_len <= m.outline_pairs.len()
    &&& r.rewrite_rules_offset + r.rewrite_rules_len <= m.rewrite_rule_entries.len()
    &&& forall|j: int|
        r.rewrite_rules_offset <= j < r.rewrite_rules_offset + r.rewrite_rules_len ==> rule_ok(
            m,
            #[trigger] m.rewrite_rule_entries[j],
        )
    &&& opt_string_ok(m.string_bytes, r.params_offset)
    &&& opt_string_ok(m.string_bytes, r.original_class_offset)
    &&& opt_string_ok(m.string_bytes, r.original_file_offset)
}

/// Where the members of class `i` must start: after those of the classes
/// before it.
pub open spec fn members_start(cs: Seq<RawClass>, i: int) -> int
    decreases i,
{
    if i <= 0 {
        0
    } else {
        members_start(cs, i - 1) + cs[i - 1].members_len
    }
}

/// Whether a class record's strings can be read, its flag is `0` or `1`,
/// its members start at `start`, lie in their section and are sound.
pub open spec fn class_ok(m: CacheModel, c: RawClass, start: int) -> bool {
    &&& string_ok(m.string_bytes, c.obfuscated_name_offset)
    &&& string_ok(m.string_bytes, c.original_name_offset)
    &&& flag_ok(c.is_synthesized)
    &&& opt_string_ok(m.string_bytes, c.file_name_offset)
    &&& c.members_offset == start
    &&& start + c.members_len <= m.members.len()
    &&& forall|k: int| start <= k < start + c.members_len ==> member_ok(m, #[trigger] m.members[k])
}

/// The integrity of a cache: every class record, one after the other, and
/// the member records of each are sound.
pub open spec fn spec_test(m: CacheModel) -> bool {
    forall|i: int|
        0 <= i < m.classes.len() ==> class_ok(m, #[trigger] m.classes[i], members_start(m.classes, i))
}

impl<'data> ProguardCache<'data> {
    /// The number of class records.
    pub fn class_count(&self) -> (r: usize)
        ensures
            r == self@.classes.len(),
    {
        self.classes.len()
    }

    /// Class record `k`.
    pub fn class_record(&self, k: usize) -> (r: RawClass)
        requires
            k < self@.classes.len(),
        ensures
            r == self@.classes[k as int],
    {
        self.classes[k]
    }

    /// The number of member records.
    pub fn member_count(&self) -> (r: usize)
        ensures
            r == self@.members.len(),
    {
        self.members.len()
    }

    /// Member record `k`.
    pub fn member_record(&self, k: usize) -> (r: RawMember)
        requires
            k < self@.members.len(),
        ensures
            r == self@.members[k as int],
    {
        self.members[k]
    }

    /// The number of outline pairs.
    pub fn pair_count(&self) -> (r: usize)
        ensures
            r == self@.outline_pairs.len(),
    {
        self.outline_pairs.len()
    }

    /// Outline pair `k`.
    pub fn pair_record(&self, k: usize) -> (r: OutlinePair)
        requires
            k < self@.outline_pairs.len(),
        ensures
            r == self@.outline_pairs[k as int],
    {
        self.outline_pairs[k]
    }

    /// The number of rewrite rule records.
    pub fn rule_count(&self) -> (r: usize)
        ensures
            r == self@.rewrite_rule_entries.len(),
    {
        self.rewrite_rule_entries.len()
    }

    /// Rewrite rule record `k`.
    pub fn rule_record(&self, k: usize) -> (r: RewriteRuleEntry)
        requires
            k < self@.rewrite_rule_entries.len(),
        ensures
            r == self@.rewrite_rule_entries[k as int],
    {
        self.rewrite_rule_entries[k]
    }

    /// The number of rewrite rule components.
    pub fn component_count(&self) -> (r: usize)
        ensures
            r == self@.rewrite_rule_components.len(),
    {
        self.rewrite_rule_components.len()
    }

    /// Rewrite rule component `k`.
    pub fn component_record(&self, k: usize) -> (r: RewriteComponent)
        requires
            k < self@.rewrite_rule_components.len(),
        ensures
            r == self@.rewrite_rule_components[k as int],
    {
        self.rewrite_rule_components[k]
    }

    /// Reads the string at `offset` of the string section.
    pub fn read_string(&self, offset: u32) -> (r: Option<&'data str>)
        ensures
            match spec_table_read(self@.string_bytes, offset as int) {
                Some(s) => r matches Some(t) && t.spec_bytes() == s,
                None => r is None,
            },
    {
        table_read(self.string_bytes, offset as usize)
    }

    /// Whether `offset` is `u32::MAX` or a string can be read there.
    fn opt_string_ok(&self, offset: u32) -> (r: bool)
        ensures
            r == opt_string_ok(self@.string_bytes, offset),
    {
        offset == u32::MAX || self.read_string(offset).is_some()
    }

    /// Whether the rule records `[start, start + len)` lie in their
    /// section and their components among the components.
    fn rules_ok(&self, start: u32, len: u32) -> (r: bool)
        ensures
            r == {
                &&& start + len <= self@.rewrite_rule_entries.len()
                &&& forall|j: int|
                    start <= j < start + len ==> rule_ok(self@, #[trigger] self@.rewrite_rule_entries[j])
            },
    {
        let n = self.rewrite_rule_entries.len() as u64;
        let end = start as u64 + len as u64;
        if end > n {
            return false;
        }
        let comps = self.rewrite_rule_components.len() as u64;
        let mut j = start as usize;
        while j < end as usize
            invariant
                start <= j <= end,
                end == start + len,
                end <= self@.rewrite_rule_entries.len(),
                n == self@.rewrite_rule_entries.len(),
                comps == self@.rewrite_rule_components.len(),
                forall|i: int| start <= i < j ==> rule_ok(self@, #[trigger] self@.rewrite_rule_entries[i]),
            decreases end - j,
        {
            let e = self.rewrite_rule_entries[j];
            if e.conditions_offset as u64 + e.conditions_len as u64 > comps {
                return false;
            }
            if e.actions_offset as u64 + e.actions_len as u64 > comps {
                return false;
            }
            j = j + 1;
        }
        true
    }

    /// Whether a member record is sound.
    fn member_ok(&self, r: &RawMember) -> (b: bool)
        ensures
            b == member_ok(self@, *r),
    {
        self.read_string(r.obfuscated_name_offset).is_some() && self.read_string(
            r.original_name_offset,
        ).is_some() && (r.is_synthesized == 0 || r.is_synthesized == 1) && (r.is_outline == 0
            || r.is_outline == 1) && r.outline_pairs_offset as u64 + r.outline_pairs_len as u64
            <= self.outline_pairs.len() as u64 && self.rules_ok(
            r.rewrite_rules_offset,
            r.rewrite_rules_len,
        ) && self.opt_string_ok(r.params_offset) && self.opt_string_ok(r.original_class_offset)
            && self.opt_string_ok(r.original_file_offset)
    }

    /// Tests the integrity of this cache: that all strings that class and
    /// member records refer to can be read, that the member records are
    /// ordered by the class they belong to, that all flags are `0` or `1`,
    /// and that outline pairs and rewrite rules lie in their sections.
    pub fn test(&self) -> (r: bool)
        ensures
            r == spec_test(self@),
    {
        let ghost m = self@;
        let members_count: usize = self.members.len();
        let members_len = members_count as u64;
        let mut prev_end: u64 = 0;
        let mut i: usize = 0;
        while i < self.classes.len()
            invariant
                m == self@,
                i <= m.classes.len(),
                members_len == m.members.len(),
                members_count == members_len,
                prev_end == members_start(m.classes, i as int),
                prev_end <= members_len,
                forall|k: int|
                    0 <= k < i ==> class_ok(m, #[trigger] m.classes[k], members_start(m.classes, k)),
            decreases m.classes.len() - i,
        {
            let c = self.classes[i];
            if !(self.read_string(c.obfuscated_name_offset).is_some() && self.read_string(
                c.original_name_offset,
            ).is_some() && (c.is_synthesized == 0 || c.is_synthesized == 1) && self.opt_string_ok(
                c.file_name_offset,
            )) {
                return false;
            }
            if c.members_offset as u64 != prev_end {
                return false;
            }
            let end = prev_end + c.members_len as u64;
            if end > members_len {
                return false;
            }
            let end_index = end as usize;
            assert(end_index == end);
            let mut k = prev_end as usize;
            while k < end_index
                invariant
                    end_index == end,
                    m == self@,
                    i < m.classes.len(),
                    c == m.classes[i as int],
                    string_ok(m.string_bytes, c.obfuscated_name_offset),
                    string_ok(m.string_bytes, c.original_name_offset),
                    flag_ok(c.is_synthesized),
                    opt_string_ok(m.string_bytes, c.file_name_offset),
                    c.members_offset == prev_end,
                    prev_end == members_start(m.classes, i as int),
                    end == prev_end + c.members_len,
                    end <= members_len,
                    members_len == m.members.len(),
                    prev_end <= k <= end,
                    forall|j: int| prev_end <= j < k ==> member_ok(m, #[trigger] m.members[j]),
                decreases end - k,
            {
                if !self.member_ok(&self.members[k]) {
                    return false;
                }
                k = k + 1;
            }
            assert(class_ok(m, m.classes[i as int], members_start(m.classes, i as int)));
            prev_end = end;
            i = i + 1;
        }
        true
    }
}

/// The bytes of a cache file: the header, four bytes of padding, the
/// sections of records and the strings.
pub open spec fn layout(
    h: Header,
    classes: Seq<RawClass>,
    members: Seq<RawMember>,
    params: Seq<RawMember>,
    pairs: Seq<OutlinePair>,
    entries: Seq<RewriteRuleEntry>,
    comps: Seq<RewriteComponent>,
    strings: Seq<u8>,
) -> Seq<u8> {
    h.encode() + seq![0u8, 0u8, 0u8, 0u8] + encode_all(classes) + encode_all(members) + encode_all(
        params,
    ) + encode_all(pairs) + encode_all(entries) + encode_all(comps) + strings
}

/// The middle part of a concatenation.
proof fn lemma_middle(a: Seq<u8>, c: Seq<u8>, r: Seq<u8>)
    ensures
        (a + c + r).subrange(a.len() as int, (a.len() + c.len()) as int) == c,
        (a + c + r).subrange(0, a.len() as int) == a,
{
    assert((a + c + r).subrange(a.len() as int, (a.len() + c.len()) as int) =~= c);
    assert((a + c + r).subrange(0, a.len() as int) =~= a);
}

/// Reading bytes that hold, at the places the header gives, the bytes of
/// its records and strings gives them back.
#[verifier::spinoff_prover]
proof fn lemma_parse_parts(
    b: Seq<u8>,
    h: Header,
    classes: Seq<RawClass>,
    members: Seq<RawMember>,
    params: Seq<RawMember>,
    pairs: Seq<OutlinePair>,
    entries: Seq<RewriteRuleEntry>,
    comps: Seq<RewriteComponent>,
    strings: Seq<u8>,
)
    requires
        h.magic == cache_magic(),
        h.version == cache_version(),
        h.num_classes == classes.len(),
        h.num_members == members.len(),
        h.num_members_by_params == params.len(),
        h.num_outline_pairs == pairs.len(),
        h.num_rewrite_rule_entries == entries.len(),
        h.num_rewrite_rule_components == comps.len(),
        h.string_bytes == strings.len(),
        b.len() == section_ends(h).5 + strings.len(),
        b.subrange(0, 36) == h.encode(),
        b.subrange(40, section_ends(h).0) == encode_all(classes),
        b.subrange(section_ends(h).0, section_ends(h).1) == encode_all(members),
        b.subrange(section_ends(h).1, section_ends(h).2) == encode_all(params),
        b.subrange(section_ends(h).2, section_ends(h).3) == encode_all(pairs),
        b.subrange(section_ends(h).3, section_ends(h).4) == encode_all(entries),
        b.subrange(section_ends(h).4, section_ends(h).5) == encode_all(comps),
        b.subrange(section_ends(h).5, b.len() as int) == strings,
    ensures
        spec_parse(b) == Ok::<CacheModel, CacheErrorKind>(
            CacheModel {
                header: h,
                classes,
                members,
                members_by_params: params,
                outline_pairs: pairs,
                rewrite_rule_entries: entries,
                rewrite_rule_components: comps,
                string_bytes: strings,
            },
        ),
{
    let (p1, p2, p3, p4, p5, p6) = section_ends(h);
    h.lemma_decode(b, 0);
    lemma_decode_all(classes, b, 40);
    lemma_decode_all(members, b, p1);
    lemma_decode_all(params, b, p2);
    lemma_decode_all(pairs, b, p3);
    lemma_decode_all(entries, b, p4);
    lemma_decode_all(comps, b, p5);
}

/// Reading the bytes of a cache file with the right counts gives back
/// what they hold.
#[verifier::spinoff_prover]
#[verifier::rlimit(30)]
pub proof fn lemma_parse_layout(
    h: Header,
    classes: Seq<RawClass>,
    members: Seq<RawMember>,
    params: Seq<RawMember>,
    pairs: Seq<OutlinePair>,
    entries: Seq<RewriteRuleEntry>,
    comps: Seq<RewriteComponent>,
    strings: Seq<u8>,
)
    requires
        h.magic == cache_magic(),
        h.version == cache_version(),
        h.num_classes == classes.len(),
        h.num_members == members.len(),
        h.num_members_by_params == params.len(),
        h.num_outline_pairs == pairs.len(),
        h.num_rewrite_rule_entries == entries.len(),
        h.num_rewrite_rule_components == comps.len(),
        h.string_bytes == strings.len(),
    ensures
        spec_parse(layout(h, classes, members, params, pairs, entries, comps, strings)) == Ok::<
            CacheModel,
            CacheErrorKind,
        >(
            CacheModel {
                header: h,
                classes,
                members,
                members_by_params: params,
                outline_pairs: pairs,
                rewrite_rule_entries: entries,
                rewrite_rule_components: comps,
                string_bytes: strings,
            },
        ),
{
    let b = layout(h, classes, members, params, pairs, entries, comps, strings);
    h.lemma_size();
    lemma_encode_all_len(classes);
    lemma_encode_all_len(members);
    lemma_encode_all_len(params);
    lemma_encode_all_len(pairs);
    lemma_encode_all_len(entries);
    lemma_encode_all_len(comps);
    let e1 = encode_all(classes);
    let e2 = encode_all(members);
    let e3 = encode_all(params);
    let e4 = encode_all(pairs);
    let e5 = encode_all(entries);
    let e6 = encode_all(comps);
    let x0 = h.encode();
    let x1 = x0 + seq![0u8, 0u8, 0u8, 0u8];
    let x2 = x1 + e1;
    let x3 = x2 + e2;
    let x4 = x3 + e3;
    let x5 = x4 + e4;
    let x6 = x5 + e5;
    let x7 = x6 + e6;
    let r7 = strings;
    let r6 = e6 + r7;
    let r5 = e5 + r6;
    let r4 = e4 + r5;
    let r3 = e3 + r4;
    let r2 = e2 + r3;
    let r1 = e1 + r2;
    assert(b =~= x7 + r7);
    assert(x7 + r7 =~= x6 + e6 + r7);
    assert(x6 + r6 =~= x5 + e5 + r6);
    assert(x5 + r5 =~= x4 + e4 + r5);
    assert(x4 + r4 =~= x3 + e3 + r4);
    assert(x3 + r3 =~= x2 + e2 + r3);
    assert(x2 + r2 =~= x1 + e1 + r2);
    assert(b =~= x6 + r6);
    assert(b =~= x5 + r5);
    assert(b =~= x4 + r4);
    assert(b =~= x3 + r3);
    assert(b =~= x2 + r2);
    assert(b =~= x1 + r1);
    lemma_middle(x6, e6, r7);
    lemma_middle(x5, e5, r6);
    lemma_middle(x4, e4, r5);
    lemma_middle(x3, e3, r4);
    lemma_middle(x2, e2, r3);
    lemma_middle(x1, e1, r2);
    lemma_middle(Seq::empty(), x0, seq![0u8, 0u8, 0u8, 0u8] + r1);
    assert(b =~= Seq::<u8>::empty() + x0 + (seq![0u8, 0u8, 0u8, 0u8] + r1));
    assert(b.subrange(x7.len() as int, b.len() as int) =~= strings);
    lemma_parse_parts(b, h, classes, members, params, pairs, entries, comps, strings);
}

/// The position of the last of the first `k` class records whose
/// obfuscated name reads as `c`.
pub open spec fn cache_find_class(m: CacheModel, k: int, c: Seq<u8>) -> Option<int>
    decreases k,
{
    if k <= 0 {
        None
    } else if spec_table_read(m.string_bytes, m.classes[k - 1].obfuscated_name_offset as int)
        == Some(c) {
        Some(k - 1)
    } else {
        cache_find_class(m, k - 1, c)
    }
}

/// The original name of the last class record whose obfuscated name reads
/// as `c`, if it can be read.
pub open spec fn spec_cache_remap_class(m: CacheModel, c: Seq<u8>) -> Option<Seq<u8>> {
    match cache_find_class(m, m.classes.len() as int, c) {
        Some(k) => spec_table_read(m.string_bytes, m.classes[k].original_name_offset as int),
        None => None,
    }
}

impl<'data> ProguardCache<'data> {
    /// Remaps an obfuscated class name to the original one.
    pub fn remap_class(&self, class: &str) -> (r: Option<&'data str>)
        ensures
            match spec_cache_remap_class(self@, class.spec_bytes()) {
                Some(s) => r matches Some(t) && t.spec_bytes() == s,
                None => r is None,
            },
    {
        let ghost m = self@;
        let mut k = self.classes.len();
        while k > 0
            invariant
                m == self@,
                k <= m.classes.len(),
                cache_find_class(m, m.classes.len() as int, class.spec_bytes()) == cache_find_class(
                    m,
                    k as int,
                    class.spec_bytes(),
                ),
            decreases k,
        {
            let c = self.classes[k - 1];
            match self.read_string(c.obfuscated_name_offset) {
                Some(name) => {
                    if str_eq(name, class) {
                        return self.read_string(c.original_name_offset);
                    }
                },
                None => {},
            }
            k = k - 1;
        }
        None
    }
}

} // verus!

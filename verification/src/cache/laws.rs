//! Properties of caches that hold for every mapping.

use vstd::prelude::*;

use crate::builder::{
    mapping_records, orphan_method, spec_classes, spec_members, ClassModel, MemberModel,
    RuleModel,
};
use crate::cache::entries::RawClass;
use crate::cache::raw::{
    cache_find_class, class_ok, member_ok, members_start, rule_ok, spec_cache_remap_class,
    spec_parse, spec_test, CacheModel,
};
use crate::cache::strings::{leb_read, spec_table_read};
use crate::cache::writer::{
    all_components, all_pairs, all_rules, cache_holds, class_written, lemma_member_table_len,
    lemma_span_bounds, lemma_span_contiguous, member_written, members_written, pairs_of,
    law_written_cache_reads_back, params_members, rule_entry, sections_written, span_sum,
    spec_cache_of, spec_spans, spec_written, table_names, SpanModel, cache_members_of,
    cache_spans_of,
};
use crate::mapper::{find_class, spec_mapper, spec_remap_class};
use crate::java::{cache_names, mapper_names, spec_deobfuscate_signature};
use crate::cache::agree::lemma_cache_layout;
use crate::cache::keep::{lemma_keep_all, spans_tile};

verus! {

/// A string, but none for the empty one.
pub open spec fn nonempty(o: Option<Seq<u8>>) -> Option<Seq<u8>> {
    match o {
        Some(s) => if s.len() > 0 {
            Some(s)
        } else {
            None
        },
        None => None,
    }
}

/// Nothing is read at `u32::MAX` in a string section of at most
/// `u32::MAX` bytes.
pub proof fn lemma_read_max(strings: Seq<u8>)
    requires
        strings.len() <= u32::MAX,
    ensures
        spec_table_read(strings, u32::MAX as int) is None,
{
    if strings.len() == u32::MAX {
        assert(leb_read(strings, u32::MAX as int, 0) is None);
    }
}

/// In a cache that holds what was written for classes `cs`, the class
/// records that read as a non-empty name `c` are those of the classes
/// named `c`.
proof fn lemma_cache_find(
    m: CacheModel,
    cs: Seq<ClassModel>,
    ms: Seq<MemberModel>,
    spans: Seq<SpanModel>,
    k: int,
    c: Seq<u8>,
)
    requires
        cache_holds(table_names(m.string_bytes), m, cs, ms, spans),
        m.string_bytes.len() <= u32::MAX,
        c.len() > 0 || forall|i: int| 0 <= i < cs.len() ==> (#[trigger] cs[i]).obfuscated.len() > 0,
        0 <= k <= cs.len(),
    ensures
        match cache_find_class(m, k, c) {
            Some(j) => 0 <= j < k && find_class(cs.subrange(0, k), c) == Some(cs[j]),
            None => find_class(cs.subrange(0, k), c) is None,
        },
    decreases k,
{
    if k > 0 {
        lemma_cache_find(m, cs, ms, spans, k - 1, c);
        let r = m.classes[k - 1];
        assert(class_written(table_names(m.string_bytes), r, cs, ms, cs[k - 1], spans[k - 1]));
        lemma_read_max(m.string_bytes);
        let sub = cs.subrange(0, k);
        assert(sub.drop_last() =~= cs.subrange(0, k - 1));
        assert(sub.last() == cs[k - 1]);
        if cs[k - 1].obfuscated.len() == 0 {
            assert(r.obfuscated_name_offset == u32::MAX);
        }
    }
}

/// A cache that holds what was written for a mapping remaps a non-empty
/// class name as a mapper of that mapping does; so does it any name where
/// every class has an obfuscated name.
proof fn lemma_cache_remaps_classes(source: Seq<u8>, out: Seq<u8>, m: CacheModel, c: Seq<u8>)
    requires
        out.len() <= u32::MAX,
        spec_parse(out) == Ok::<CacheModel, crate::cache::CacheErrorKind>(m),
        spec_cache_of(m, source),
        c.len() > 0 || forall|i: int|
            0 <= i < spec_classes(mapping_records(source)).len() ==> (#[trigger] spec_classes(
                mapping_records(source),
            )[i]).obfuscated.len() > 0,
    ensures
        spec_cache_remap_class(m, c) == nonempty(spec_remap_class(spec_mapper(source, false), c)),
{
    let rs = mapping_records(source);
    let cs = spec_classes(rs);
    let ms = cache_members_of(rs);
    let spans = cache_spans_of(rs);
    assert(m.string_bytes.len() <= out.len());
    lemma_cache_find(m, cs, ms, spans, cs.len() as int, c);
    assert(cs.subrange(0, cs.len() as int) =~= cs);
    lemma_read_max(m.string_bytes);
    match cache_find_class(m, cs.len() as int, c) {
        Some(j) => {
            assert(class_written(table_names(m.string_bytes), m.classes[j], cs, ms, cs[j], spans[j]));
            if cs[j].original.len() == 0 {
                assert(m.classes[j].original_name_offset == u32::MAX);
            }
        },
        None => {},
    }
}

/// The outline pairs of a prefix of members grow with it.
proof fn lemma_pairs_mono(all: Seq<MemberModel>, a: int, b: int)
    requires
        0 <= a <= b <= all.len(),
    ensures
        all_pairs(all.subrange(0, a)).len() <= all_pairs(all.subrange(0, b)).len(),
        b < all.len() ==> all_pairs(all.subrange(0, b + 1)).len() == all_pairs(
            all.subrange(0, b),
        ).len() + pairs_of(all[b]).len(),
    decreases b - a,
{
    if b < all.len() {
        assert(all.subrange(0, b + 1).drop_last() =~= all.subrange(0, b));
    }
    if a < b {
        lemma_pairs_mono(all, a, b - 1);
        assert(all.subrange(0, b).drop_last() =~= all.subrange(0, b - 1));
    }
}

/// The rules of a prefix of members grow with it.
proof fn lemma_rules_mono(all: Seq<MemberModel>, a: int, b: int)
    requires
        0 <= a <= b <= all.len(),
    ensures
        all_rules(all.subrange(0, a)).len() <= all_rules(all.subrange(0, b)).len(),
        b < all.len() ==> all_rules(all.subrange(0, b + 1)).len() == all_rules(
            all.subrange(0, b),
        ).len() + all[b].rules.len(),
    decreases b - a,
{
    if b < all.len() {
        assert(all.subrange(0, b + 1).drop_last() =~= all.subrange(0, b));
    }
    if a < b {
        lemma_rules_mono(all, a, b - 1);
        assert(all.subrange(0, b).drop_last() =~= all.subrange(0, b - 1));
    }
}

/// The components of a prefix of rules grow with it.
proof fn lemma_components_mono(rules: Seq<RuleModel>, a: int, b: int)
    requires
        0 <= a <= b <= rules.len(),
    ensures
        all_components(rules.subrange(0, a)).len() <= all_components(rules.subrange(0, b)).len(),
        b < rules.len() ==> all_components(rules.subrange(0, b + 1)).len() == all_components(
            rules.subrange(0, b),
        ).len() + rules[b].conditions.len() + rules[b].actions.len(),
    decreases b - a,
{
    if b < rules.len() {
        assert(rules.subrange(0, b + 1).drop_last() =~= rules.subrange(0, b));
    }
    if a < b {
        lemma_components_mono(rules, a, b - 1);
        assert(rules.subrange(0, b).drop_last() =~= rules.subrange(0, b - 1));
    }
}

/// Where the members of class `i` start, summed from the class records,
/// is where the spans say.
proof fn lemma_members_start(cls: Seq<RawClass>, spans: Seq<SpanModel>, i: int)
    requires
        0 <= i <= cls.len(),
        cls.len() == spans.len(),
        forall|j: int|
            0 <= j < cls.len() ==> 0 <= #[trigger] spans[j].len <= u32::MAX && cls[j].members_len
                == spans[j].len as u32,
    ensures
        members_start(cls, i) == span_sum(spans, i),
    decreases i,
{
    if i > 0 {
        lemma_members_start(cls, spans, i - 1);
    }
}

/// Sums of spans grow with their number.
proof fn lemma_span_sum_mono(spans: Seq<SpanModel>, a: int, b: int)
    requires
        0 <= a <= b <= spans.len(),
        forall|j: int| 0 <= j < spans.len() ==> 0 <= #[trigger] spans[j].len,
    ensures
        span_sum(spans, a) <= span_sum(spans, b),
    decreases b - a,
{
    if a < b {
        lemma_span_sum_mono(spans, a, b - 1);
    }
}

/// Whether every class and every member of a mapping has non-empty names.
pub open spec fn names_present(source: Seq<u8>) -> bool {
    let rs = mapping_records(source);
    let cs = spec_classes(rs);
    let ms = spec_members(rs, true);
    &&& forall|i: int|
        0 <= i < cs.len() ==> (#[trigger] cs[i]).obfuscated.len() > 0 && cs[i].original.len() > 0
    &&& forall|k: int|
        0 <= k < ms.len() ==> (#[trigger] ms[k]).obfuscated.len() > 0 && ms[k].original.len() > 0
}

/// A member record that was written is sound.
proof fn lemma_member_sound(
    m: CacheModel,
    cs: Seq<ClassModel>,
    ms: Seq<MemberModel>,
    k: int,
)
    requires
        0 <= k < ms.len(),
        ms[k].obfuscated.len() > 0,
        ms[k].original.len() > 0,
        m.string_bytes.len() <= u32::MAX,
        m.outline_pairs.len() <= u32::MAX,
        m.rewrite_rule_entries.len() <= u32::MAX,
        m.rewrite_rule_components.len() <= u32::MAX,
        members_written(
            table_names(m.string_bytes),
            m.members,
            m.members_by_params,
            cs,
            ms,
            params_members(ms),
        ),
        sections_written(
            table_names(m.string_bytes),
            m.outline_pairs,
            m.rewrite_rule_entries,
            m.rewrite_rule_components,
            ms + params_members(ms),
        ),
    ensures
        member_ok(m, m.members[k]),
{
    let all = ms + params_members(ms);
    let rules = all_rules(all);
    let r = m.members[k];
    lemma_read_max(m.string_bytes);
    assert(all.subrange(0, k + 1).len() == k + 1);
    assert(all[k] == ms[k]);
    assert(member_written(
        table_names(m.string_bytes),
        r,
        cs,
        ms,
        ms[k],
        all_pairs(all.subrange(0, k)).len() as int,
        all_rules(all.subrange(0, k)).len() as int,
    ));
    lemma_pairs_mono(all, k, k);
    lemma_pairs_mono(all, k + 1, all.len() as int);
    assert(all.subrange(0, all.len() as int) =~= all);
    lemma_rules_mono(all, k, k);
    lemma_rules_mono(all, k + 1, all.len() as int);
    let p0 = all_pairs(all.subrange(0, k)).len();
    let r0 = all_rules(all.subrange(0, k)).len();
    assert(r.outline_pairs_offset as int == p0);
    assert(r.outline_pairs_len as int == pairs_of(ms[k]).len());
    assert(r.rewrite_rules_offset as int == r0);
    assert(r.rewrite_rules_len as int == ms[k].rules.len());
    assert forall|j: int|
        r.rewrite_rules_offset <= j < r.rewrite_rules_offset + r.rewrite_rules_len implies rule_ok(
        m,
        #[trigger] m.rewrite_rule_entries[j],
    ) by {
        assert(m.rewrite_rule_entries[j] == rule_entry(rules, j));
        lemma_components_mono(rules, j, j);
        lemma_components_mono(rules, j + 1, rules.len() as int);
        assert(rules.subrange(0, rules.len() as int) =~= rules);
    }
    if let Some(c) = ms[k].original_class {
        if c.len() == 0 {
            assert(r.original_class_offset == u32::MAX);
        }
    }
}

/// A cache that holds what was written for a mapping whose classes and
/// members all have names passes the integrity test.
proof fn lemma_written_cache_is_sound(source: Seq<u8>, out: Seq<u8>, m: CacheModel)
    requires
        out.len() <= u32::MAX,
        spec_parse(out) == Ok::<CacheModel, crate::cache::CacheErrorKind>(m),
        spec_cache_of(m, source),
        names_present(source),
    ensures
        spec_test(m),
{
    let rs = mapping_records(source);
    let cs = spec_classes(rs);
    let ms = cache_members_of(rs);
    let spans = cache_spans_of(rs);
    assert(m.string_bytes.len() <= out.len());
    lemma_read_max(m.string_bytes);
    if !orphan_method(rs) {
        lemma_cache_layout(rs);
        let all = spec_members(rs, true);
        let p = |x: MemberModel| x.obfuscated.len() > 0 && x.original.len() > 0;
        assert forall|k: int| 0 <= k < all.len() implies p(#[trigger] all[k]) by {}
        lemma_keep_all(all, all, p);
        assert forall|k: int| 0 <= k < ms.len() implies #[trigger] ms[k].obfuscated.len() > 0
            && ms[k].original.len() > 0 by {
            assert(p(ms[k]));
        }
        assert forall|j: int| 0 <= j < m.classes.len() implies 0 <= #[trigger] spans[j].len
            <= u32::MAX && m.classes[j].members_len == spans[j].len as u32 by {
            assert(class_written(table_names(m.string_bytes), m.classes[j], cs, ms, cs[j], spans[j]));
            assert(spans_tile(spans, ms.len() as int));
        }
        assert forall|i: int| 0 <= i < m.classes.len() implies class_ok(
            m,
            #[trigger] m.classes[i],
            members_start(m.classes, i),
        ) by {
            let c = m.classes[i];
            assert(class_written(table_names(m.string_bytes), c, cs, ms, cs[i], spans[i]));
            lemma_members_start(m.classes, spans, i);
            lemma_span_sum_mono(spans, i + 1, spans.len() as int);
            let start = members_start(m.classes, i);
            assert(span_sum(spans, i + 1) == start + spans[i].len);
            assert forall|k: int| start <= k < start + c.members_len implies member_ok(
                m,
                #[trigger] m.members[k],
            ) by {
                lemma_member_sound(m, cs, ms, k);
            }
        }
    }
}


/// A cache written for a mapping, of at most `u32::MAX` bytes, reads back
/// and remaps a non-empty class name as a mapper of the mapping does; an
/// empty original name it does not hold.
pub proof fn law_cache_remaps_classes(source: Seq<u8>, out: Seq<u8>, c: Seq<u8>)
    requires
        spec_written(out, source),
        out.len() <= u32::MAX,
        c.len() > 0,
    ensures
        spec_parse(out) matches Ok(m) && spec_cache_remap_class(m, c) == nonempty(
            spec_remap_class(spec_mapper(source, false), c),
        ),
{
    law_written_cache_reads_back(out, source);
    let m = spec_parse(out)->Ok_0;
    lemma_cache_remaps_classes(source, out, m, c);
}

/// A cache written for a mapping whose classes and members all have names,
/// of at most `u32::MAX` bytes, deobfuscates bytecode signatures as a mapper
/// of the mapping does.
pub proof fn law_cache_signatures_like_mapper(source: Seq<u8>, out: Seq<u8>, sig: Seq<u8>)
    requires
        spec_written(out, source),
        out.len() <= u32::MAX,
        names_present(source),
    ensures
        spec_parse(out) matches Ok(m) && spec_deobfuscate_signature(cache_names(m), sig)
            == spec_deobfuscate_signature(mapper_names(spec_mapper(source, false)), sig),
{
    law_written_cache_reads_back(out, source);
    let m = spec_parse(out)->Ok_0;
    let mm = spec_mapper(source, false);
    let rs = mapping_records(source);
    assert forall|c: Seq<u8>| #[trigger] cache_names(m)(c) == mapper_names(mm)(c) by {
        lemma_cache_remaps_classes(source, out, m, c);
        match find_class(mm.classes, c) {
            Some(cl) => {
                lemma_find_class_in(mm.classes, c);
            },
            None => {},
        }
    }
    assert(cache_names(m) =~= mapper_names(mm));
}

/// The class that `find_class` finds is one of the classes, with the name
/// looked for.
proof fn lemma_find_class_in(cs: Seq<ClassModel>, c: Seq<u8>)
    ensures
        find_class(cs, c) matches Some(cl) ==> exists|i: int|
            0 <= i < cs.len() && #[trigger] cs[i] == cl && cl.obfuscated == c,
    decreases cs.len(),
{
    if cs.len() > 0 {
        lemma_find_class_in(cs.drop_last(), c);
        if find_class(cs, c) is Some {
            let cl = find_class(cs, c)->0;
            if cs.last().obfuscated == c {
                assert(cs[cs.len() - 1] == cl);
            } else {
                let i = choose|i: int| 0 <= i < cs.drop_last().len() && #[trigger] cs.drop_last()[i] == cl
                    && cl.obfuscated == c;
                assert(cs[i] == cl);
            }
        }
    }
}

/// A cache written for a mapping whose classes and members all have names,
/// of at most `u32::MAX` bytes, reads back and passes the integrity test.
pub proof fn law_written_cache_is_sound(source: Seq<u8>, out: Seq<u8>)
    requires
        spec_written(out, source),
        out.len() <= u32::MAX,
        names_present(source),
    ensures
        spec_parse(out) matches Ok(m) && spec_test(m),
{
    law_written_cache_reads_back(out, source);
    let m = spec_parse(out)->Ok_0;
    lemma_written_cache_is_sound(source, out, m);
}

} // verus!

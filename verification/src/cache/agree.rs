//! A cache written for a mapping holds the classes and members of the
//! mapping: read back, it remaps as a mapper of the mapping does.

use vstd::prelude::*;

use crate::builder::{
    class_entry, class_table, last_class, mapping_records, member_entry, member_table,
    orphan_method, spec_classes, spec_members, ActionModel, ClassModel, CondModel, MemberModel,
    RuleModel,
};
use crate::cache::decode::{
    class_members, decode_action, decode_class, decode_condition, decode_member, decode_positions,
    decode_rule, decode_rules, decoded_members, decoded_model, opt_text_at, text_at,
};
use crate::cache::entries::{OutlinePair, RawClass, RewriteComponent};
use crate::cache::keep::{lemma_cached_layout, lemma_keep_all, spans_tile};
use crate::cache::laws::lemma_read_max;
use crate::cache::raw::{spec_parse, CacheModel};
use crate::cache::writer::{
    all_components, all_pairs, all_rules, cache_holds, class_written, component_written,
    components_written, law_written_cache_reads_back, lemma_member_table_len, lemma_span_bounds,
    lemma_span_contiguous, member_written, members_written, method_count, names_opt, pairs_of,
    params_members, rule_components, rule_entry, sections_written, span_sum, span_table,
    spec_cache_of, spec_spans, spec_written, table_names, ComponentModel, SpanModel,
    cache_members_of, cache_spans_of,
};
use crate::mapper::MapperModel;
use crate::mapping::RecordModel;

verus! {

/// The outline pairs of a prefix of members start the outline pairs of all.
proof fn lemma_pairs_prefix(all: Seq<MemberModel>, k: int)
    requires
        0 <= k <= all.len(),
    ensures
        all_pairs(all.subrange(0, k)).len() <= all_pairs(all).len(),
        all_pairs(all.subrange(0, k)) == all_pairs(all).subrange(0, all_pairs(all.subrange(0, k)).len() as int),
    decreases all.len(),
{
    if k == all.len() {
        assert(all.subrange(0, k) =~= all);
        assert(all_pairs(all).subrange(0, all_pairs(all).len() as int) =~= all_pairs(all));
    } else {
        let dl = all.drop_last();
        assert(all.subrange(0, k) =~= dl.subrange(0, k));
        lemma_pairs_prefix(dl, k);
        let n = all_pairs(all.subrange(0, k)).len() as int;
        assert(all_pairs(all).subrange(0, n) =~= all_pairs(dl).subrange(0, n));
    }
}

/// The outline pairs of member `k` stand after those of the members before it.
proof fn lemma_pairs_at(all: Seq<MemberModel>, k: int, j: int)
    requires
        0 <= k < all.len(),
        0 <= j < pairs_of(all[k]).len(),
    ensures
        all_pairs(all.subrange(0, k)).len() + j < all_pairs(all).len(),
        all_pairs(all)[all_pairs(all.subrange(0, k)).len() + j] == pairs_of(all[k])[j],
{
    let s = all.subrange(0, k + 1);
    assert(s.drop_last() =~= all.subrange(0, k));
    assert(s.last() == all[k]);
    lemma_pairs_prefix(all, k + 1);
    let n = all_pairs(all.subrange(0, k)).len() as int;
    assert(all_pairs(s)[n + j] == pairs_of(all[k])[j]);
}

/// The rules of a prefix of members start the rules of all.
proof fn lemma_rules_prefix(all: Seq<MemberModel>, k: int)
    requires
        0 <= k <= all.len(),
    ensures
        all_rules(all.subrange(0, k)).len() <= all_rules(all).len(),
        all_rules(all.subrange(0, k)) == all_rules(all).subrange(0, all_rules(all.subrange(0, k)).len() as int),
    decreases all.len(),
{
    if k == all.len() {
        assert(all.subrange(0, k) =~= all);
        assert(all_rules(all).subrange(0, all_rules(all).len() as int) =~= all_rules(all));
    } else {
        let dl = all.drop_last();
        assert(all.subrange(0, k) =~= dl.subrange(0, k));
        lemma_rules_prefix(dl, k);
        let n = all_rules(all.subrange(0, k)).len() as int;
        assert(all_rules(all).subrange(0, n) =~= all_rules(dl).subrange(0, n));
    }
}

/// The rules of member `k` stand after those of the members before it.
proof fn lemma_rules_at(all: Seq<MemberModel>, k: int, j: int)
    requires
        0 <= k < all.len(),
        0 <= j < all[k].rules.len(),
    ensures
        all_rules(all.subrange(0, k)).len() + j < all_rules(all).len(),
        all_rules(all)[all_rules(all.subrange(0, k)).len() + j] == all[k].rules[j],
{
    let s = all.subrange(0, k + 1);
    assert(s.drop_last() =~= all.subrange(0, k));
    assert(s.last() == all[k]);
    lemma_rules_prefix(all, k + 1);
    let n = all_rules(all.subrange(0, k)).len() as int;
    assert(all_rules(s)[n + j] == all[k].rules[j]);
}

/// The components of a prefix of rules start the components of all.
proof fn lemma_components_prefix(rules: Seq<RuleModel>, q: int)
    requires
        0 <= q <= rules.len(),
    ensures
        all_components(rules.subrange(0, q)).len() <= all_components(rules).len(),
        all_components(rules.subrange(0, q)) == all_components(rules).subrange(
            0,
            all_components(rules.subrange(0, q)).len() as int,
        ),
    decreases rules.len(),
{
    if q == rules.len() {
        assert(rules.subrange(0, q) =~= rules);
        assert(all_components(rules).subrange(0, all_components(rules).len() as int) =~= all_components(rules));
    } else {
        let dl = rules.drop_last();
        assert(rules.subrange(0, q) =~= dl.subrange(0, q));
        lemma_components_prefix(dl, q);
        let n = all_components(rules.subrange(0, q)).len() as int;
        assert(all_components(rules).subrange(0, n) =~= all_components(dl).subrange(0, n));
    }
}

/// The components of rule `q` stand after those of the rules before it.
proof fn lemma_components_at(rules: Seq<RuleModel>, q: int, x: int)
    requires
        0 <= q < rules.len(),
        0 <= x < rule_components(rules[q]).len(),
    ensures
        all_components(rules.subrange(0, q)).len() + x < all_components(rules).len(),
        all_components(rules)[all_components(rules.subrange(0, q)).len() + x] == rule_components(
            rules[q],
        )[x],
{
    let s = rules.subrange(0, q + 1);
    assert(s.drop_last() =~= rules.subrange(0, q));
    assert(s.last() == rules[q]);
    lemma_components_prefix(rules, q + 1);
    let n = all_components(rules.subrange(0, q)).len() as int;
    assert(all_components(s)[n + x] == rule_components(rules[q])[x]);
}

/// After a class record, the last class of the table is the class of the
/// last class record.
proof fn lemma_last_class_entry(rs: Seq<RecordModel>, n: int)
    requires
        0 <= n <= rs.len(),
        last_class(rs, n) >= 0,
    ensures
        class_table(rs, n).len() > 0,
        class_table(rs, n).last() == class_entry(rs, last_class(rs, n)),
    decreases n,
{
    if n > 0 && !(rs[n - 1] is Class) {
        lemma_last_class_entry(rs, n - 1);
    }
}

/// Without a method record before the first class record, the members of
/// the `i`-th span are those of the `i`-th class.
proof fn lemma_span_classes(rs: Seq<RecordModel>, init: bool, n: int)
    requires
        0 <= n <= rs.len(),
        forall|j: int| 0 <= j < n && rs[j] is Method ==> last_class(rs, j) >= 0,
    ensures
        span_table(rs, n).len() == class_table(rs, n).len(),
        member_table(rs, init, n).len() == method_count(rs, n),
        forall|i: int, k: int|
            0 <= i < span_table(rs, n).len() && span_table(rs, n)[i].first <= k
                < span_table(rs, n)[i].first + span_table(rs, n)[i].len ==> {
                &&& 0 <= k < member_table(rs, init, n).len()
                &&& #[trigger] member_table(rs, init, n)[k].class_obfuscated == #[trigger] class_table(
                    rs,
                    n,
                )[i].obfuscated
                &&& member_table(rs, init, n)[k].class_original == class_table(rs, n)[i].original
            },
    decreases n,
{
    if n > 0 {
        lemma_span_classes(rs, init, n - 1);
        lemma_span_contiguous(rs, n - 1);
        lemma_span_bounds(rs, n - 1);
        let sp0 = span_table(rs, n - 1);
        let sp = span_table(rs, n);
        let ct0 = class_table(rs, n - 1);
        let ct = class_table(rs, n);
        let mt0 = member_table(rs, init, n - 1);
        let mt = member_table(rs, init, n);
        lemma_member_table_len(rs, init, n - 1);
        if rs[n - 1] is Method {
            assert(last_class(rs, n - 1) >= 0);
            lemma_last_class_entry(rs, n - 1);
            assert(sp0[sp0.len() - 1].first == span_sum(sp0, sp0.len() - 1));
            assert(span_sum(sp0, sp0.len() as int) == span_sum(sp0, sp0.len() - 1) + sp0[sp0.len()
                - 1].len);
            assert(mt == mt0.push(member_entry(rs, init, n - 1)));
            assert(ct == ct0);
        } else if rs[n - 1] is Class {
            assert(mt == mt0);
            assert(ct == ct0.push(class_entry(rs, n - 1)));
        } else {
            assert(sp == sp0);
            assert(mt == mt0);
            assert(ct == ct0);
        }
        assert forall|i: int, k: int|
            0 <= i < sp.len() && sp[i].first <= k < sp[i].first + sp[i].len implies {
            &&& 0 <= k < mt.len()
            &&& #[trigger] mt[k].class_obfuscated == #[trigger] ct[i].obfuscated
            &&& mt[k].class_original == ct[i].original
        } by {
            if rs[n - 1] is Method {
                let last = sp0.len() - 1;
                if i < last {
                    assert(sp[i] == sp0[i]);
                    assert(mt0[k].class_obfuscated == ct0[i].obfuscated);
                    assert(mt[k] == mt0[k]);
                } else if k < sp0[last].first + sp0[last].len {
                    assert(sp[i].first == sp0[last].first);
                    assert(mt0[k].class_obfuscated == ct0[last].obfuscated);
                    assert(mt[k] == mt0[k]);
                } else {
                    assert(k == mt0.len());
                    assert(ct[i] == ct0.last());
                }
            } else if rs[n - 1] is Class {
                if i < sp0.len() {
                    assert(sp[i] == sp0[i]);
                    assert(ct[i] == ct0[i]);
                    assert(mt0[k].class_obfuscated == ct0[i].obfuscated);
                }
            } else {
                assert(mt0[k].class_obfuscated == ct0[i].obfuscated);
            }
        }
    }
}

/// A string offset written for `s` reads back as `s`.
proof fn lemma_text(m: CacheModel, off: u32, s: Seq<u8>)
    requires
        m.string_bytes.len() <= u32::MAX,
        table_names(m.string_bytes)(off, s),
    ensures
        text_at(m, off) == s,
{
    lemma_read_max(m.string_bytes);
}

/// An optional string offset written for `o`, which is no empty string,
/// reads back as `o`.
proof fn lemma_opt_text(m: CacheModel, off: u32, o: Option<Seq<u8>>)
    requires
        m.string_bytes.len() <= u32::MAX,
        names_opt(table_names(m.string_bytes), off, o),
        o matches Some(s) ==> s.len() > 0,
    ensures
        opt_text_at(m, off) == o,
{
}

/// Whether the frame counts of a rule's actions fit in a `u32`.
pub open spec fn rule_fits(r: RuleModel) -> bool {
    forall|x: int|
        0 <= x < r.actions.len() ==> (#[trigger] r.actions[x] matches ActionModel::RemoveInnerFrames(
            n,
        ) ==> n <= u32::MAX)
}

/// A component record written for a condition reads back as it.
proof fn lemma_condition(m: CacheModel, c: RewriteComponent, d: CondModel)
    requires
        m.string_bytes.len() <= u32::MAX,
        component_written(table_names(m.string_bytes), c, ComponentModel::Condition(d)),
    ensures
        decode_condition(m, c) == d,
{
    match d {
        CondModel::Throws(t) => lemma_text(m, c.value, t),
        CondModel::Unknown(u) => lemma_text(m, c.value, u),
    }
}

/// A component record written for an action reads back as it.
proof fn lemma_action(m: CacheModel, c: RewriteComponent, a: ActionModel)
    requires
        m.string_bytes.len() <= u32::MAX,
        component_written(table_names(m.string_bytes), c, ComponentModel::Action(a)),
        a matches ActionModel::RemoveInnerFrames(n) ==> n <= u32::MAX,
    ensures
        decode_action(m, c) == a,
{
    match a {
        ActionModel::RemoveInnerFrames(n) => {},
        ActionModel::Unknown(u) => lemma_text(m, c.value, u),
    }
}

/// The record written for rule `q` reads back as the rule.
proof fn lemma_rule(m: CacheModel, rules: Seq<RuleModel>, q: int)
    requires
        0 <= q < rules.len(),
        rule_fits(rules[q]),
        m.string_bytes.len() <= u32::MAX,
        m.rewrite_rule_components.len() <= u32::MAX,
        components_written(
            table_names(m.string_bytes),
            m.rewrite_rule_components,
            0,
            all_components(rules),
        ),
    ensures
        decode_rule(m, rule_entry(rules, q)) == rules[q],
{
    let r = rules[q];
    let cs = m.rewrite_rule_components;
    let names = table_names(m.string_bytes);
    let all = all_components(rules);
    let start = all_components(rules.subrange(0, q)).len() as int;
    let nc = r.conditions.len() as int;
    let na = r.actions.len() as int;
    let rc = rule_components(r);
    assert(rc.len() == nc + na);
    if nc + na > 0 {
        lemma_components_at(rules, q, nc + na - 1);
    }
    lemma_components_prefix(rules, q);
    assert(start + nc + na <= all.len());
    let e = rule_entry(rules, q);
    assert(e.conditions_offset as int == start);
    assert(e.conditions_len as int == nc);
    assert(e.actions_offset as int == start + nc);
    assert(e.actions_len as int == na);
    let d = decode_rule(m, e);
    assert forall|x: int| 0 <= x < nc implies #[trigger] d.conditions[x] == r.conditions[x] by {
        lemma_components_at(rules, q, x);
        assert(rc[x] == ComponentModel::Condition(r.conditions[x]));
        assert(component_written(names, cs[0 + (start + x)], all[start + x]));
        lemma_condition(m, cs[start + x], r.conditions[x]);
    }
    assert forall|x: int| 0 <= x < na implies #[trigger] d.actions[x] == r.actions[x] by {
        lemma_components_at(rules, q, nc + x);
        assert(rc[nc + x] == ComponentModel::Action(r.actions[x]));
        assert(component_written(names, cs[0 + (start + nc + x)], all[start + nc + x]));
        lemma_action(m, cs[start + nc + x], r.actions[x]);
    }
    assert(d.conditions =~= r.conditions);
    assert(d.actions =~= r.actions);
}

/// Whether a member can be written to a cache and read back unchanged: its
/// lines fit in a `u32` (a last original line below `u32::MAX`, which
/// stands for none), an original class is not the empty string, outline
/// positions are not empty and fit in a `u32`, and so do the frame counts
/// of its rules.
pub open spec fn member_fits(m: MemberModel) -> bool {
    &&& m.startline <= u32::MAX
    &&& m.endline <= u32::MAX
    &&& m.original_startline <= u32::MAX
    &&& m.original_endline matches Some(l) ==> l < u32::MAX
    &&& m.original_class matches Some(s) ==> s.len() > 0
    &&& m.positions matches Some(ps) ==> ps.len() > 0 && forall|j: int|
        0 <= j < ps.len() ==> (#[trigger] ps[j]).0 <= u32::MAX && ps[j].1 <= u32::MAX
    &&& forall|q: int| 0 <= q < m.rules.len() ==> rule_fits(#[trigger] m.rules[q])
}

/// The member record written for member `k` of `ms`, read with the names
/// of its class, reads back as the member.
proof fn lemma_member(m: CacheModel, cs: Seq<ClassModel>, ms: Seq<MemberModel>, c: RawClass, k: int)
    requires
        0 <= k < ms.len(),
        member_fits(ms[k]),
        m.string_bytes.len() <= u32::MAX,
        m.outline_pairs.len() <= u32::MAX,
        m.rewrite_rule_entries.len() <= u32::MAX,
        m.rewrite_rule_components.len() <= u32::MAX,
        members_written(
            table_names(m.string_bytes),
            m.members,
            m.members_by_params,
            cs,
            ms,
            params_members(ms),
        ),
        sections_written(
            table_names(m.string_bytes),
            m.outline_pairs,
            m.rewrite_rule_entries,
            m.rewrite_rule_components,
            ms + params_members(ms),
        ),
        text_at(m, c.obfuscated_name_offset) == ms[k].class_obfuscated,
        text_at(m, c.original_name_offset) == ms[k].class_original,
    ensures
        decode_member(m, c, m.members[k]) == ms[k],
{
    let names = table_names(m.string_bytes);
    let all = ms + params_members(ms);
    let mk = ms[k];
    let r = m.members[k];
    assert(all[k] == mk);
    let p0 = all_pairs(all.subrange(0, k)).len() as int;
    let r0 = all_rules(all.subrange(0, k)).len() as int;
    assert(member_written(names, r, cs, ms, mk, p0, r0));
    lemma_text(m, r.obfuscated_name_offset, mk.obfuscated);
    lemma_text(m, r.original_name_offset, mk.original);
    lemma_text(m, r.params_offset, mk.arguments);
    lemma_opt_text(m, r.original_class_offset, mk.original_class);
    // outline positions
    let pk = pairs_of(mk);
    lemma_pairs_prefix(all, k);
    lemma_pairs_prefix(all, k + 1);
    assert(all.subrange(0, k + 1).drop_last() =~= all.subrange(0, k));
    assert(all.subrange(0, k + 1).last() == mk);
    assert(p0 + pk.len() <= m.outline_pairs.len());
    assert(r.outline_pairs_offset as int == p0);
    assert(r.outline_pairs_len as int == pk.len());
    match mk.positions {
        Some(ps) => {
            let dp = decode_positions(m, r);
            assert(dp is Some);
            assert forall|j: int| 0 <= j < ps.len() implies #[trigger] dp->0[j] == ps[j] by {
                lemma_pairs_at(all, k, j);
                assert(pk[j] == OutlinePair {
                    outline_pos: ps[j].0 as u32,
                    callsite_line: ps[j].1 as u32,
                });
            }
            assert(dp->0 =~= ps);
        },
        None => {},
    }
    // rewrite rules
    let rules = all_rules(all);
    lemma_rules_prefix(all, k);
    lemma_rules_prefix(all, k + 1);
    assert(r0 + mk.rules.len() <= rules.len());
    assert(r.rewrite_rules_offset as int == r0);
    assert(r.rewrite_rules_len as int == mk.rules.len());
    let dr = decode_rules(m, r);
    assert forall|j: int| 0 <= j < mk.rules.len() implies #[trigger] dr[j] == mk.rules[j] by {
        lemma_rules_at(all, k, j);
        assert(m.rewrite_rule_entries[r0 + j] == rule_entry(rules, r0 + j));
        assert(rule_fits(mk.rules[j]));
        lemma_rule(m, rules, r0 + j);
    }
    assert(dr =~= mk.rules);
    let d = decode_member(m, c, r);
    assert(d.positions == mk.positions);
    assert(d.rules == mk.rules);
    assert(d.original_endline == mk.original_endline);
}

/// Whether every class and member of a mapping can be written to a cache
/// and read back unchanged: no source file is the empty string, and every
/// member fits.
pub open spec fn fits_cache(source: Seq<u8>) -> bool {
    let rs = mapping_records(source);
    let cs = spec_classes(rs);
    let ms = spec_members(rs, true);
    &&& forall|i: int|
        0 <= i < cs.len() ==> ((#[trigger] cs[i]).source_file matches Some(s) ==> s.len() > 0)
    &&& forall|k: int| 0 <= k < ms.len() ==> member_fits(#[trigger] ms[k])
}

/// The spans of the classes of a mapping among the members its cache holds
/// follow each other, cover those members, and each covers members of its
/// class.
pub proof fn lemma_cache_layout(rs: Seq<RecordModel>)
    requires
        !orphan_method(rs),
    ensures
        spans_tile(cache_spans_of(rs), cache_members_of(rs).len() as int),
        cache_spans_of(rs).len() == spec_classes(rs).len(),
        forall|j: int|
            0 <= j < cache_spans_of(rs).len() ==> (#[trigger] cache_spans_of(rs)[j]).first
                + cache_spans_of(rs)[j].len <= cache_members_of(rs).len(),
        forall|j: int, k: int|
            0 <= j < cache_spans_of(rs).len() && cache_spans_of(rs)[j].first <= k < cache_spans_of(
                rs,
            )[j].first + cache_spans_of(rs)[j].len ==> {
                &&& 0 <= k < cache_members_of(rs).len()
                &&& #[trigger] cache_members_of(rs)[k].class_obfuscated == #[trigger] spec_classes(
                    rs,
                )[j].obfuscated
                &&& cache_members_of(rs)[k].class_original == spec_classes(rs)[j].original
            },
{
    let n = rs.len() as int;
    let all = spec_members(rs, true);
    let spans = spec_spans(rs);
    let cs = spec_classes(rs);
    assert(forall|j: int| 0 <= j < n && rs[j] is Method ==> last_class(rs, j) >= 0);
    lemma_span_classes(rs, true, n);
    lemma_span_contiguous(rs, n);
    lemma_span_bounds(rs, n);
    lemma_member_table_len(rs, true, n);
    assert(spans == span_table(rs, n));
    assert(all == member_table(rs, true, n));
    assert(cs == class_table(rs, n));
    assert forall|j: int| #![trigger spans[j]] 0 <= j < spans.len() implies spans[j].first == span_sum(spans, j)
        && 0 <= spans[j].len by {
        assert(0 <= span_table(rs, n)[j].first);
    }
    lemma_cached_layout(all, spans, cs);
}

/// The class records of a cache written for a mapping read back, with
/// their members, as the classes of the mapping and the members the cache
/// holds.
#[verifier::spinoff_prover]
#[verifier::rlimit(40)]
proof fn lemma_classes_read_back(source: Seq<u8>, out: Seq<u8>, m: CacheModel)
    requires
        out.len() <= u32::MAX,
        spec_parse(out) == Ok::<CacheModel, crate::cache::CacheErrorKind>(m),
        spec_cache_of(m, source),
        fits_cache(source),
        !orphan_method(mapping_records(source)),
    ensures
        forall|i: int|
            0 <= i < m.classes.len() ==> #[trigger] decode_class(m, m.classes[i]) == spec_classes(
                mapping_records(source),
            )[i] && class_members(m, m.classes[i]) == cache_members_of(
                mapping_records(source),
            ).subrange(
                cache_spans_of(mapping_records(source))[i].first,
                cache_spans_of(mapping_records(source))[i].first + cache_spans_of(
                    mapping_records(source),
                )[i].len,
            ),
{
    let rs = mapping_records(source);
    let cs = spec_classes(rs);
    let ms = cache_members_of(rs);
    let spans = cache_spans_of(rs);
    let names = table_names(m.string_bytes);
    assert(m.string_bytes.len() <= out.len());
    assert(cache_holds(names, m, cs, ms, spans));
    lemma_cache_layout(rs);
    let all = spec_members(rs, true);
    assert forall|k: int| 0 <= k < all.len() implies member_fits(#[trigger] all[k]) by {}
    lemma_keep_all(all, all, |x: MemberModel| member_fits(x));
    assert(m.members.len() == ms.len());
    assert forall|i: int| 0 <= i < m.classes.len() implies #[trigger] decode_class(
        m,
        m.classes[i],
    ) == cs[i] && class_members(m, m.classes[i]) == ms.subrange(
        spans[i].first,
        spans[i].first + spans[i].len,
    ) by {
        let c = m.classes[i];
        assert(class_written(names, c, cs, ms, cs[i], spans[i]));
        lemma_text(m, c.obfuscated_name_offset, cs[i].obfuscated);
        lemma_text(m, c.original_name_offset, cs[i].original);
        lemma_opt_text(m, c.file_name_offset, cs[i].source_file);
        assert(decode_class(m, c) == cs[i]);
        let sp = spans[i];
        assert(sp.first + sp.len <= ms.len());
        assert(0 <= sp.first && 0 <= sp.len);
        assert(c.members_offset as int == sp.first);
        assert(c.members_len as int == sp.len);
        let dm = class_members(m, c);
        assert forall|j: int| 0 <= j < sp.len implies #[trigger] dm[j] == ms[sp.first + j] by {
            let k = sp.first + j;
            assert(ms[k].class_obfuscated == cs[i].obfuscated);
            assert(member_fits(ms[k]));
            lemma_member(m, cs, ms, c, k);
        }
        assert(dm =~= ms.subrange(sp.first, sp.first + sp.len));
    }
}

/// Where each class record reads back as the members of its span, and the
/// spans follow each other, the members of the first `i` class records are
/// the members before the span of class `i`.
proof fn lemma_members_concat(m: CacheModel, ms: Seq<MemberModel>, spans: Seq<SpanModel>, i: int)
    requires
        0 <= i <= m.classes.len(),
        spans.len() == m.classes.len(),
        forall|j: int|
            0 <= j < spans.len() ==> {
                &&& #[trigger] spans[j].first == span_sum(spans, j)
                &&& 0 <= spans[j].len
                &&& spans[j].first + spans[j].len <= ms.len()
                &&& class_members(m, m.classes[j]) == ms.subrange(
                    spans[j].first,
                    spans[j].first + spans[j].len,
                )
            },
    ensures
        0 <= span_sum(spans, i) <= ms.len(),
        decoded_members(m, i) == ms.subrange(0, span_sum(spans, i)),
    decreases i,
{
    if i > 0 {
        lemma_members_concat(m, ms, spans, i - 1);
        let sp = spans[i - 1];
        assert(sp.first == span_sum(spans, i - 1));
        assert(ms.subrange(0, span_sum(spans, i)) =~= ms.subrange(0, span_sum(spans, i - 1))
            + ms.subrange(sp.first, sp.first + sp.len));
    }
}

/// The spans of the classes of a mapping follow each other, cover the
/// members its cache holds, and are what the class records of a cache
/// written for it read back as.
proof fn lemma_spans_read_back(source: Seq<u8>, out: Seq<u8>, m: CacheModel)
    requires
        out.len() <= u32::MAX,
        spec_parse(out) == Ok::<CacheModel, crate::cache::CacheErrorKind>(m),
        spec_cache_of(m, source),
        fits_cache(source),
        !orphan_method(mapping_records(source)),
    ensures
        forall|i: int|
            0 <= i < m.classes.len() ==> #[trigger] decode_class(m, m.classes[i]) == spec_classes(
                mapping_records(source),
            )[i],
        ({
            let ms = cache_members_of(mapping_records(source));
            let spans = cache_spans_of(mapping_records(source));
            &&& spans.len() == m.classes.len()
            &&& span_sum(spans, spans.len() as int) == ms.len()
            &&& forall|j: int|
                0 <= j < spans.len() ==> {
                    &&& #[trigger] spans[j].first == span_sum(spans, j)
                    &&& 0 <= spans[j].len
                    &&& spans[j].first + spans[j].len <= ms.len()
                    &&& class_members(m, m.classes[j]) == ms.subrange(
                        spans[j].first,
                        spans[j].first + spans[j].len,
                    )
                }
        }),
{
    let rs = mapping_records(source);
    lemma_classes_read_back(source, out, m);
    lemma_cache_layout(rs);
    let ms = cache_members_of(rs);
    let spans = cache_spans_of(rs);
    assert(cache_holds(table_names(m.string_bytes), m, spec_classes(rs), ms, spans));
    assert(spans.len() == m.classes.len());
    assert forall|j: int| 0 <= j < spans.len() implies {
        &&& #[trigger] spans[j].first == span_sum(spans, j)
        &&& 0 <= spans[j].len
        &&& spans[j].first + spans[j].len <= ms.len()
        &&& class_members(m, m.classes[j]) == ms.subrange(
            spans[j].first,
            spans[j].first + spans[j].len,
        )
    } by {
        assert(decode_class(m, m.classes[j]) == spec_classes(rs)[j]);
    }
}

/// A cache written for a mapping, of at most `u32::MAX` bytes, reads back
/// as the classes of the mapping and the members that the cache holds: all
/// members, read for mapping by parameters, but for those without line
/// information of a method that has a line range; where everything in the
/// mapping fits in the cache's fields.
pub proof fn law_cache_holds_mapping(source: Seq<u8>, out: Seq<u8>)
    requires
        spec_written(out, source),
        out.len() <= u32::MAX,
        fits_cache(source),
    ensures
        spec_parse(out) matches Ok(m) && decoded_model(m) == (MapperModel {
            classes: spec_classes(mapping_records(source)),
            members: cache_members_of(mapping_records(source)),
        }),
{
    law_written_cache_reads_back(out, source);
    let m = spec_parse(out)->Ok_0;
    let rs = mapping_records(source);
    let cs = spec_classes(rs);
    let ms = cache_members_of(rs);
    let spans = cache_spans_of(rs);
    let d = decoded_model(m);
    assert(m.classes.len() == cs.len());
    if orphan_method(rs) {
        assert(d.classes =~= cs);
        assert(spec_members(rs, true) =~= Seq::<MemberModel>::empty());
        assert(ms =~= Seq::<MemberModel>::empty());
        assert(d.members =~= ms);
    } else {
        lemma_decoded_tables(source, out, m);
    }
}

/// Without a method record before the first class record, a cache written
/// for a mapping reads back as its classes and the members it holds.
proof fn lemma_decoded_tables(source: Seq<u8>, out: Seq<u8>, m: CacheModel)
    requires
        out.len() <= u32::MAX,
        spec_parse(out) == Ok::<CacheModel, crate::cache::CacheErrorKind>(m),
        spec_cache_of(m, source),
        fits_cache(source),
        !orphan_method(mapping_records(source)),
    ensures
        decoded_model(m) == (MapperModel {
            classes: spec_classes(mapping_records(source)),
            members: cache_members_of(mapping_records(source)),
        }),
{
    let rs = mapping_records(source);
    let cs = spec_classes(rs);
    let ms = cache_members_of(rs);
    let spans = cache_spans_of(rs);
    let d = decoded_model(m);
    lemma_spans_read_back(source, out, m);
    lemma_members_concat(m, ms, spans, m.classes.len() as int);
    assert(d.classes =~= cs);
    assert(ms.subrange(0, ms.len() as int) =~= ms);
    assert(d.members =~= ms);
}

} // verus!

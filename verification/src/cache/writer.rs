//! Writing a mapping in the cache format.

use vstd::prelude::*;
use vstd::string::*;

use watto::StringTable;

use crate::builder::{
    last_class,
    collect_records, read_tables, spec_classes, spec_members, mapping_records, class_table, classes_model, member_table, members_model, orphan_method, records_model, rules_model,
    ActionModel, ClassEntry, ClassModel, CondModel, MemberEntry, MemberModel, RewriteAction,
    RewriteCondition, RewriteRule, RuleModel,
};
use crate::cache::entries::{
    write_all, Entry, Header, OutlinePair, RawClass, RawMember, RewriteComponent, RewriteRuleEntry,
    lemma_encode_all_len,
};
use crate::cache::keep::{cache_members, cache_spans, cached_members, cached_spans};
use crate::cache::raw::{layout, lemma_parse_layout, spec_parse, CacheModel, ProguardCache};
use crate::cache::entries::{cache_magic, cache_version, PRGCACHE_VERSION};
use crate::cache::strings::{
    leb_encode, lemma_str_utf8, lemma_table_read, lemma_table_wf_insert, spec_table_read,
    table_bytes, table_insert, table_into_bytes, table_new, table_covered, table_offsets, table_wf,
};
use crate::mapper::{
    class_source, find_source, receiver,
};
use crate::mapping::{opt_bytes, ProguardMapping, ProguardRecord, RecordModel};
use crate::text::str_eq;

verus! {

/// Where the members of a class stand: its first member record and their
/// number.
pub struct SpanModel {
    pub first: int,
    pub len: int,
}

/// The number of method records in `rs[..n]`.
pub open spec fn method_count(rs: Seq<RecordModel>, n: int) -> int
    decreases n,
{
    if n <= 0 {
        0
    } else {
        method_count(rs, n - 1) + if rs[n - 1] is Method {
            1int
        } else {
            0int
        }
    }
}

/// Where the members of each class of `rs[..n]` stand.
pub open spec fn span_table(rs: Seq<RecordModel>, n: int) -> Seq<SpanModel>
    decreases n,
{
    if n <= 0 {
        Seq::empty()
    } else {
        let p = span_table(rs, n - 1);
        if rs[n - 1] is Class {
            p.push(SpanModel { first: method_count(rs, n - 1), len: 0 })
        } else if rs[n - 1] is Method && p.len() > 0 {
            p.update(p.len() - 1, SpanModel { first: p.last().first, len: p.last().len + 1 })
        } else {
            p
        }
    }
}

/// Where the members of each class that the records declare stand.
pub open spec fn spec_spans(rs: Seq<RecordModel>) -> Seq<SpanModel> {
    if orphan_method(rs) {
        Seq::empty()
    } else {
        span_table(rs, rs.len() as int)
    }
}

/// There is one member per method record.
pub proof fn lemma_member_table_len(rs: Seq<RecordModel>, init: bool, n: int)
    requires
        0 <= n <= rs.len(),
    ensures
        member_table(rs, init, n).len() == method_count(rs, n),
    decreases n,
{
    if n > 0 {
        lemma_member_table_len(rs, init, n - 1);
    }
}

/// The members of each class lie among the members of `rs[..n]`.
pub proof fn lemma_span_bounds(rs: Seq<RecordModel>, n: int)
    requires
        0 <= n <= rs.len(),
    ensures
        forall|j: int|
            0 <= j < span_table(rs, n).len() ==> 0 <= #[trigger] span_table(rs, n)[j].first && 0
                <= span_table(rs, n)[j].len && span_table(rs, n)[j].first + span_table(rs, n)[j].len
                <= method_count(rs, n),
        method_count(rs, n) >= 0,
    decreases n,
{
    if n > 0 {
        lemma_span_bounds(rs, n - 1);
        let p = span_table(rs, n - 1);
        let q = span_table(rs, n);
        assert forall|j: int| 0 <= j < q.len() implies 0 <= #[trigger] q[j].first && 0 <= q[j].len
            && q[j].first + q[j].len <= method_count(rs, n) by {
            if j < p.len() {
                assert(0 <= p[j].first && 0 <= p[j].len && p[j].first + p[j].len <= method_count(
                    rs,
                    n - 1,
                ));
            }
        }
    }
}

/// Where the members of a class stand, as numbers of records.
#[derive(Clone, Copy)]
pub struct Span {
    pub first: usize,
    pub len: usize,
}

impl View for Span {
    type V = SpanModel;

    open spec fn view(&self) -> SpanModel {
        SpanModel { first: self.first as int, len: self.len as int }
    }
}

/// The views of spans.
pub open spec fn spans_model(v: Seq<Span>) -> Seq<SpanModel> {
    v.map_values(|s: Span| s@)
}

/// Where the members of each class stand.
pub fn class_spans<'s>(recs: &Vec<ProguardRecord<'s>>) -> (r: Vec<Span>)
    ensures
        spans_model(r@) == span_table(records_model(recs@), recs@.len() as int),
{
    let ghost rs = records_model(recs@);
    let mut spans: Vec<Span> = Vec::new();
    let mut methods: usize = 0;
    let mut i: usize = 0;
    proof {
        assert(spans_model(spans@) =~= span_table(rs, 0));
    }
    while i < recs.len()
        invariant
            i <= recs@.len(),
            rs == records_model(recs@),
            methods == method_count(rs, i as int),
            methods <= i,
            spans_model(spans@) == span_table(rs, i as int),
            forall|j: int| 0 <= j < spans@.len() ==> #[trigger] spans@[j].len <= methods,
        decreases recs@.len() - i,
    {
        proof {
            assert(rs[i as int] == recs@[i as int]@);
        }
        match &recs[i] {
            ProguardRecord::Class { .. } => {
                spans.push(Span { first: methods, len: 0 });
                proof {
                    assert(spans_model(spans@) =~= span_table(rs, i + 1));
                }
            },
            ProguardRecord::Method { .. } => {
                let n = spans.len();
                if n > 0 {
                    let l = spans[n - 1];
                    spans.set(n - 1, Span { first: l.first, len: l.len + 1 });
                }
                proof {
                    assert(spans_model(spans@) =~= span_table(rs, i + 1));
                }
                methods = methods + 1;
            },
            _ => {
                proof {
                    assert(spans_model(spans@) =~= span_table(rs, i + 1));
                }
            },
        }
        i = i + 1;
    }
    spans
}

/// Under `offsets`, string offset `off` stands for `s`: `u32::MAX` for the
/// empty string, else where the table holds `s`.
pub open spec fn refers(offsets: Map<Seq<u8>, usize>, off: u32, s: Seq<u8>) -> bool {
    if s.len() == 0 {
        off == u32::MAX
    } else {
        offsets.contains_key(s) && off == offsets[s] as u32
    }
}

/// What string offsets stand for while a table is filled.
pub open spec fn refers_fn(offsets: Map<Seq<u8>, usize>) -> spec_fn(u32, Seq<u8>) -> bool {
    |off: u32, s: Seq<u8>| refers(offsets, off, s)
}

/// What string offsets stand for in the string section `strings` of a
/// cache: `u32::MAX` for the empty string, else the string read there.
pub open spec fn table_names(strings: Seq<u8>) -> spec_fn(u32, Seq<u8>) -> bool {
    |off: u32, s: Seq<u8>|
        if s.len() == 0 {
            off == u32::MAX
        } else {
            spec_table_read(strings, off as int) == Some(s)
        }
}

/// Whether `off` stands for the optional string `o`: `u32::MAX` for none.
pub open spec fn names_opt(names: spec_fn(u32, Seq<u8>) -> bool, off: u32, o: Option<Seq<u8>>) -> bool {
    match o {
        Some(s) => names(off, s),
        None => off == u32::MAX,
    }
}

/// Whatever `f` names, `g` names too.
pub open spec fn names_within(
    f: spec_fn(u32, Seq<u8>) -> bool,
    g: spec_fn(u32, Seq<u8>) -> bool,
) -> bool {
    forall|off: u32, s: Seq<u8>| #[trigger] f(off, s) ==> g(off, s)
}

/// A table that grows keeps what its offsets stand for.
pub proof fn lemma_refers_grow(a: Map<Seq<u8>, usize>, b: Map<Seq<u8>, usize>)
    requires
        a.submap_of(b),
    ensures
        names_within(refers_fn(a), refers_fn(b)),
{
    assert forall|off: u32, s: Seq<u8>| #[trigger] refers_fn(a)(off, s) implies refers_fn(b)(off, s) by {
        if s.len() > 0 {
            assert(a.contains_key(s));
            assert(b.contains_key(s));
            assert(a[s] == b[s]);
        }
    }
}

/// Puts a string into the table and returns its offset as a `u32`.
pub fn intern(t: &mut StringTable, s: &str) -> (r: u32)
    requires
        table_wf(table_bytes(*old(t)), table_offsets(*old(t))),
    ensures
        table_wf(table_bytes(*final(t)), table_offsets(*final(t))),
        table_offsets(*old(t)).submap_of(table_offsets(*final(t))),
        refers(table_offsets(*final(t)), r, s.spec_bytes()),
        refers_fn(table_offsets(*final(t)))(r, s.spec_bytes()),
{
    let len = s.as_bytes().len();
    let ghost before = *t;
    let o = table_insert(t, s);
    proof {
        if len > 0 && !table_offsets(before).contains_key(s.spec_bytes()) {
            lemma_str_utf8(s);
            lemma_table_wf_insert(table_bytes(before), table_offsets(before), s.spec_bytes());
        }
    }
    if len == 0 {
        u32::MAX
    } else {
        #[verifier::truncate]
        (o as u32)
    }
}

/// Puts an optional string into the table and returns its offset as a
/// `u32`, `u32::MAX` for none.
pub fn intern_opt(t: &mut StringTable, s: Option<&str>) -> (r: u32)
    requires
        table_wf(table_bytes(*old(t)), table_offsets(*old(t))),
    ensures
        table_wf(table_bytes(*final(t)), table_offsets(*final(t))),
        table_offsets(*old(t)).submap_of(table_offsets(*final(t))),
        names_opt(refers_fn(table_offsets(*final(t))), r, opt_bytes(s)),
{
    match s {
        Some(x) => intern(t, x),
        None => u32::MAX,
    }
}

/// A condition or an action of a rewrite rule.
pub enum ComponentModel {
    Condition(CondModel),
    Action(ActionModel),
}

/// The components of a rule: its conditions, then its actions.
pub open spec fn rule_components(r: RuleModel) -> Seq<ComponentModel> {
    r.conditions.map_values(|c: CondModel| ComponentModel::Condition(c)) + r.actions.map_values(
        |a: ActionModel| ComponentModel::Action(a),
    )
}

/// The components of rules, one rule after the other.
pub open spec fn all_components(rules: Seq<RuleModel>) -> Seq<ComponentModel>
    decreases rules.len(),
{
    if rules.len() == 0 {
        Seq::empty()
    } else {
        all_components(rules.drop_last()) + rule_components(rules.last())
    }
}

/// The record of rule `q` of `rules`: where its conditions and actions
/// stand among the components.
pub open spec fn rule_entry(rules: Seq<RuleModel>, q: int) -> RewriteRuleEntry {
    let start = all_components(rules.subrange(0, q)).len();
    RewriteRuleEntry {
        conditions_offset: start as u32,
        conditions_len: rules[q].conditions.len() as u32,
        actions_offset: (start + rules[q].conditions.len()) as u32,
        actions_len: rules[q].actions.len() as u32,
    }
}

/// Whether a component record is written for a condition or action: a
/// `throws` condition and an action that drops frames have kind `0`, the
/// others kind `u32::MAX`; a number of frames is the value, a string is
/// named by it.
pub open spec fn component_written(
    names: spec_fn(u32, Seq<u8>) -> bool,
    c: RewriteComponent,
    e: ComponentModel,
) -> bool {
    match e {
        ComponentModel::Condition(CondModel::Throws(d)) => c.kind == 0 && names(c.value, d),
        ComponentModel::Condition(CondModel::Unknown(u)) => c.kind == u32::MAX && names(c.value, u),
        ComponentModel::Action(ActionModel::RemoveInnerFrames(n)) => c.kind == 0 && c.value == n as u32,
        ComponentModel::Action(ActionModel::Unknown(u)) => c.kind == u32::MAX && names(c.value, u),
    }
}

/// Whether the component records `cs[from..]` are written for `es`.
pub open spec fn components_written(
    names: spec_fn(u32, Seq<u8>) -> bool,
    cs: Seq<RewriteComponent>,
    from: int,
    es: Seq<ComponentModel>,
) -> bool {
    &&& cs.len() == from + es.len()
    &&& forall|c: int| 0 <= c < es.len() ==> component_written(names, #[trigger] cs[from + c], es[c])
}

/// Writes the components of one condition or action.
fn write_component(
    t: &mut StringTable,
    comps: &mut Vec<RewriteComponent>,
    kind: u32,
    value: Option<usize>,
    text: &str,
    Ghost(e): Ghost<ComponentModel>,
)
    requires
        table_wf(table_bytes(*old(t)), table_offsets(*old(t))),
        match e {
            ComponentModel::Condition(CondModel::Throws(d)) => kind == 0 && value is None && d
                == text.spec_bytes(),
            ComponentModel::Condition(CondModel::Unknown(u)) => kind == u32::MAX && value is None
                && u == text.spec_bytes(),
            ComponentModel::Action(ActionModel::RemoveInnerFrames(n)) => kind == 0 && value == Some(
                n,
            ),
            ComponentModel::Action(ActionModel::Unknown(u)) => kind == u32::MAX && value is None
                && u == text.spec_bytes(),
        },
    ensures
        table_wf(table_bytes(*final(t)), table_offsets(*final(t))),
        table_offsets(*old(t)).submap_of(table_offsets(*final(t))),
        final(comps)@.len() == old(comps)@.len() + 1,
        final(comps)@.subrange(0, old(comps)@.len() as int) == old(comps)@,
        component_written(refers_fn(table_offsets(*final(t))), final(comps)@.last(), e),
{
    let v = match value {
        Some(n) => {
            #[verifier::truncate]
            (n as u32)
        },
        None => intern(t, text),
    };
    comps.push(RewriteComponent { kind, value: v });
    proof {
        assert(final(comps)@.subrange(0, old(comps)@.len() as int) =~= old(comps)@);
    }
}

/// A table that grows keeps the component records written.
pub proof fn lemma_components_grow(
    f: spec_fn(u32, Seq<u8>) -> bool,
    g: spec_fn(u32, Seq<u8>) -> bool,
    cs: Seq<RewriteComponent>,
    from: int,
    es: Seq<ComponentModel>,
)
    requires
        names_within(f, g),
        components_written(f, cs, from, es),
    ensures
        components_written(g, cs, from, es),
{
    assert forall|c: int| 0 <= c < es.len() implies component_written(g, #[trigger] cs[from + c], es[c]) by {
        assert(component_written(f, cs[from + c], es[c]));
    }
}

/// Writing one more component record for one more component keeps the
/// records written.
proof fn lemma_component_step(
    tb: StringTable,
    t: StringTable,
    cb: Seq<RewriteComponent>,
    cs: Seq<RewriteComponent>,
    start: int,
    es: Seq<ComponentModel>,
    i: int,
)
    requires
        0 <= start <= cb.len(),
        0 <= i < es.len(),
        table_offsets(tb).submap_of(table_offsets(t)),
        components_written(refers_fn(table_offsets(tb)), cb, start, es.subrange(0, i)),
        cs.len() == cb.len() + 1,
        cs.subrange(0, cb.len() as int) == cb,
        component_written(refers_fn(table_offsets(t)), cs.last(), es[i]),
    ensures
        components_written(refers_fn(table_offsets(t)), cs, start, es.subrange(0, i + 1)),
        cs.subrange(0, start) == cb.subrange(0, start),
{
    lemma_refers_grow(table_offsets(tb), table_offsets(t));
    lemma_components_grow(
        refers_fn(table_offsets(tb)),
        refers_fn(table_offsets(t)),
        cb,
        start,
        es.subrange(0, i),
    );
    let g = refers_fn(table_offsets(t));
    let ei = es.subrange(0, i + 1);
    assert forall|c: int| 0 <= c < ei.len() implies component_written(g, #[trigger] cs[start + c], ei[c]) by {
        if c < i {
            assert(cs[start + c] == cs.subrange(0, cb.len() as int)[start + c]);
            assert(component_written(g, cb[start + c], es.subrange(0, i)[c]));
        }
    }
    assert(cs.subrange(0, start) =~= cb.subrange(0, start)) by {
        assert forall|j: int| 0 <= j < start implies cs[j] == cb[j] by {
            assert(cs[j] == cs.subrange(0, cb.len() as int)[j]);
        }
    }
}

/// Writes the components of a rule and its record.
fn write_rule(
    t: &mut StringTable,
    comps: &mut Vec<RewriteComponent>,
    entries: &mut Vec<RewriteRuleEntry>,
    rule: &RewriteRule,
)
    requires
        table_wf(table_bytes(*old(t)), table_offsets(*old(t))),
    ensures
        table_wf(table_bytes(*final(t)), table_offsets(*final(t))),
        table_offsets(*old(t)).submap_of(table_offsets(*final(t))),
        final(entries)@ == old(entries)@.push(
            RewriteRuleEntry {
                conditions_offset: old(comps)@.len() as u32,
                conditions_len: rule@.conditions.len() as u32,
                actions_offset: (old(comps)@.len() + rule@.conditions.len()) as u32,
                actions_len: rule@.actions.len() as u32,
            },
        ),
        final(comps)@.subrange(0, old(comps)@.len() as int) == old(comps)@,
        components_written(
            refers_fn(table_offsets(*final(t))),
            final(comps)@,
            old(comps)@.len() as int,
            rule_components(rule@),
        ),
{
    let ghost t0 = *t;
    let ghost c0 = comps@;
    let ghost es = rule_components(rule@);
    let start = comps.len();
    let nc = rule.conditions.len();
    let na = rule.actions.len();
    let mut i: usize = 0;
    proof {
        assert(comps@.subrange(0, start as int) =~= c0);
        assert(components_written(refers_fn(table_offsets(*t)), comps@, start as int, es.subrange(0, 0)));
    }
    while i < nc
        invariant
            start == c0.len(),
            nc == rule@.conditions.len(),
            na == rule@.actions.len(),
            es == rule_components(rule@),
            es.len() == nc + na,
            i <= nc,
            table_wf(table_bytes(*t), table_offsets(*t)),
            table_offsets(t0).submap_of(table_offsets(*t)),
            comps@.subrange(0, start as int) == c0,
            components_written(refers_fn(table_offsets(*t)), comps@, start as int, es.subrange(0, i as int)),
        decreases nc - i,
    {
        let ghost tb = *t;
        let ghost cb = comps@;
        let ghost e = es[i as int];
        proof {
            assert(e == ComponentModel::Condition(rule.conditions@[i as int]@));
        }
        match &rule.conditions[i] {
            RewriteCondition::Throws(d) => write_component(t, comps, 0, None, d, Ghost(e)),
            RewriteCondition::Unknown(u) => write_component(t, comps, u32::MAX, None, u, Ghost(e)),
        }
        proof {
            lemma_component_step(tb, *t, cb, comps@, start as int, es, i as int);
            vstd::map_lib::lemma_submap_of_trans(table_offsets(t0), table_offsets(tb), table_offsets(*t));
        }
        i = i + 1;
    }
    let middle = comps.len();
    let mut j: usize = 0;
    while j < na
        invariant
            start == c0.len(),
            nc == rule@.conditions.len(),
            na == rule@.actions.len(),
            es == rule_components(rule@),
            es.len() == nc + na,
            middle == start + nc,
            j <= na,
            table_wf(table_bytes(*t), table_offsets(*t)),
            table_offsets(t0).submap_of(table_offsets(*t)),
            comps@.subrange(0, start as int) == c0,
            components_written(
                refers_fn(table_offsets(*t)),
                comps@,
                start as int,
                es.subrange(0, nc + j),
            ),
        decreases na - j,
    {
        let ghost tb = *t;
        let ghost cb = comps@;
        let ghost e = es[nc + j];
        proof {
            assert(e == ComponentModel::Action(rule.actions@[j as int]@));
        }
        match &rule.actions[j] {
            RewriteAction::RemoveInnerFrames(n) => write_component(t, comps, 0, Some(*n), "", Ghost(e)),
            RewriteAction::Unknown(u) => write_component(t, comps, u32::MAX, None, u, Ghost(e)),
        }
        proof {
            lemma_component_step(tb, *t, cb, comps@, start as int, es, nc + j);
            vstd::map_lib::lemma_submap_of_trans(table_offsets(t0), table_offsets(tb), table_offsets(*t));
        }
        j = j + 1;
    }
    proof {
        assert(es.subrange(0, es.len() as int) =~= es);
    }
    #[verifier::truncate]
    let entry = RewriteRuleEntry {
        conditions_offset: start as u32,
        conditions_len: nc as u32,
        actions_offset: middle as u32,
        actions_len: na as u32,
    };
    entries.push(entry);
}

/// Whatever `f` names, `h` names, when `g` lies between them.
pub proof fn lemma_within_trans(
    f: spec_fn(u32, Seq<u8>) -> bool,
    g: spec_fn(u32, Seq<u8>) -> bool,
    h: spec_fn(u32, Seq<u8>) -> bool,
)
    requires
        names_within(f, g),
        names_within(g, h),
    ensures
        names_within(f, h),
{
    assert forall|off: u32, s: Seq<u8>| #[trigger] f(off, s) implies h(off, s) by {
        assert(g(off, s));
    }
}

/// The outline pair records of a member.
pub open spec fn pairs_of(m: MemberModel) -> Seq<OutlinePair> {
    match m.positions {
        Some(p) => p.map_values(
            |q: (usize, usize)| OutlinePair { outline_pos: q.0 as u32, callsite_line: q.1 as u32 },
        ),
        None => Seq::empty(),
    }
}

/// The outline pair records of members, one member after the other.
pub open spec fn all_pairs(all: Seq<MemberModel>) -> Seq<OutlinePair>
    decreases all.len(),
{
    if all.len() == 0 {
        Seq::empty()
    } else {
        all_pairs(all.drop_last()) + pairs_of(all.last())
    }
}

/// The rewrite rules of members, one member after the other.
pub open spec fn all_rules(all: Seq<MemberModel>) -> Seq<RuleModel>
    decreases all.len(),
{
    if all.len() == 0 {
        Seq::empty()
    } else {
        all_rules(all.drop_last()) + all.last().rules
    }
}

/// `1` for true, `0` for false.
pub open spec fn flag(b: bool) -> u8 {
    if b {
        1
    } else {
        0
    }
}

/// Whether a member record is written for member `m` of `ms`, whose
/// outline pairs and rules start at `pairs_first` and `rules_first`.
pub open spec fn member_written(
    names: spec_fn(u32, Seq<u8>) -> bool,
    r: RawMember,
    cs: Seq<ClassModel>,
    ms: Seq<MemberModel>,
    m: MemberModel,
    pairs_first: int,
    rules_first: int,
) -> bool {
    &&& names(r.obfuscated_name_offset, m.obfuscated)
    &&& r.startline == m.startline as u32
    &&& r.endline == m.endline as u32
    &&& names_opt(names, r.original_class_offset, m.original_class)
    &&& names_opt(names, r.original_file_offset, class_source(cs, receiver(m)))
    &&& names(r.original_name_offset, m.original)
    &&& r.original_startline == m.original_startline as u32
    &&& r.original_endline == match m.original_endline {
        Some(l) => l as u32,
        None => u32::MAX,
    }
    &&& names(r.params_offset, m.arguments)
    &&& r.outline_pairs_offset == pairs_first as u32
    &&& r.outline_pairs_len == pairs_of(m).len() as u32
    &&& r.rewrite_rules_offset == rules_first as u32
    &&& r.rewrite_rules_len == m.rules.len() as u32
    &&& r.is_synthesized == flag(m.synthesized_here)
    &&& r.is_outline == flag(m.outline_here)
    &&& r.is_by_params == flag(m.by_params)
}

/// Whether the outline pair, rule and component sections are written for
/// the members `p`.
pub open spec fn sections_written(
    names: spec_fn(u32, Seq<u8>) -> bool,
    pairs: Seq<OutlinePair>,
    entries: Seq<RewriteRuleEntry>,
    comps: Seq<RewriteComponent>,
    p: Seq<MemberModel>,
) -> bool {
    let rules = all_rules(p);
    &&& pairs == all_pairs(p)
    &&& entries == Seq::new(rules.len(), |q: int| rule_entry(rules, q))
    &&& components_written(names, comps, 0, all_components(rules))
}

/// Writing the components of one more rule keeps the components written.
proof fn lemma_components_concat(
    f: spec_fn(u32, Seq<u8>) -> bool,
    cs: Seq<RewriteComponent>,
    n: int,
    a: Seq<ComponentModel>,
    b: Seq<ComponentModel>,
)
    requires
        0 <= n <= cs.len(),
        components_written(f, cs.subrange(0, n), 0, a),
        components_written(f, cs, n, b),
    ensures
        components_written(f, cs, 0, a + b),
{
    assert forall|c: int| 0 <= c < (a + b).len() implies component_written(f, #[trigger] cs[0 + c], (a + b)[c]) by {
        if c < a.len() {
            assert(cs.subrange(0, n)[0 + c] == cs[c]);
        } else {
            assert(cs[n + (c - a.len())] == cs[c]);
        }
    }
}

/// Writes the rules of a member and their components.
fn write_rules(
    t: &mut StringTable,
    entries: &mut Vec<RewriteRuleEntry>,
    comps: &mut Vec<RewriteComponent>,
    rules: &Vec<RewriteRule>,
    Ghost(before): Ghost<Seq<RuleModel>>,
)
    requires
        table_wf(table_bytes(*old(t)), table_offsets(*old(t))),
        old(entries)@ == Seq::new(before.len(), |q: int| rule_entry(before, q)),
        components_written(refers_fn(table_offsets(*old(t))), old(comps)@, 0, all_components(before)),
    ensures
        table_wf(table_bytes(*final(t)), table_offsets(*final(t))),
        table_offsets(*old(t)).submap_of(table_offsets(*final(t))),
        final(entries)@ == Seq::new(
            (before + rules_model(rules@)).len(),
            |q: int| rule_entry(before + rules_model(rules@), q),
        ),
        components_written(
            refers_fn(table_offsets(*final(t))),
            final(comps)@,
            0,
            all_components(before + rules_model(rules@)),
        ),
{
    let ghost t0 = *t;
    let ghost rs = rules_model(rules@);
    let mut q: usize = 0;
    proof {
        assert(before + rs.subrange(0, 0) =~= before);
    }
    while q < rules.len()
        invariant
            q <= rules@.len(),
            rs == rules_model(rules@),
            table_wf(table_bytes(*t), table_offsets(*t)),
            table_offsets(t0).submap_of(table_offsets(*t)),
            entries@ == Seq::new(
                (before + rs.subrange(0, q as int)).len(),
                |i: int| rule_entry(before + rs.subrange(0, q as int), i),
            ),
            components_written(
                refers_fn(table_offsets(*t)),
                comps@,
                0,
                all_components(before + rs.subrange(0, q as int)),
            ),
        decreases rules@.len() - q,
    {
        let ghost tb = *t;
        let ghost cb = comps@;
        let ghost eb = entries@;
        let ghost done = before + rs.subrange(0, q as int);
        let ghost next = before + rs.subrange(0, q + 1);
        write_rule(t, comps, entries, &rules[q]);
        proof {
            vstd::map_lib::lemma_submap_of_trans(table_offsets(t0), table_offsets(tb), table_offsets(*t));
            lemma_refers_grow(table_offsets(tb), table_offsets(*t));
            lemma_components_grow(
                refers_fn(table_offsets(tb)),
                refers_fn(table_offsets(*t)),
                cb,
                0,
                all_components(done),
            );
            assert(next =~= done.push(rs[q as int]));
            assert(next.drop_last() =~= done);
            assert(rs[q as int] == rules@[q as int]@);
            lemma_components_concat(
                refers_fn(table_offsets(*t)),
                comps@,
                cb.len() as int,
                all_components(done),
                rule_components(rs[q as int]),
            );
            assert(all_components(next) == all_components(done) + rule_components(rs[q as int]));
            assert forall|i: int| 0 <= i < next.len() implies #[trigger] rule_entry(next, i) == entries@[i] by {
                assert(next.subrange(0, i) =~= if i < done.len() {
                    done.subrange(0, i)
                } else {
                    done
                });
                if i < done.len() {
                    assert(rule_entry(done, i) == eb[i]);
                }
            }
            assert(entries@ =~= Seq::new(next.len(), |i: int| rule_entry(next, i)));
        }
        q = q + 1;
    }
    proof {
        assert(rs.subrange(0, rules@.len() as int) =~= rs);
    }
}

/// Writes the record of member `k`, with its outline pairs and rules.
fn resolve_mapping(
    t: &mut StringTable,
    pairs: &mut Vec<OutlinePair>,
    entries: &mut Vec<RewriteRuleEntry>,
    comps: &mut Vec<RewriteComponent>,
    classes: &Vec<ClassEntry>,
    members: &Vec<MemberEntry>,
    k: usize,
    Ghost(p): Ghost<Seq<MemberModel>>,
) -> (r: RawMember)
    requires
        k < members@.len(),
        table_wf(table_bytes(*old(t)), table_offsets(*old(t))),
        sections_written(
            refers_fn(table_offsets(*old(t))),
            old(pairs)@,
            old(entries)@,
            old(comps)@,
            p,
        ),
    ensures
        table_wf(table_bytes(*final(t)), table_offsets(*final(t))),
        table_offsets(*old(t)).submap_of(table_offsets(*final(t))),
        sections_written(
            refers_fn(table_offsets(*final(t))),
            final(pairs)@,
            final(entries)@,
            final(comps)@,
            p.push(members@[k as int]@),
        ),
        member_written(
            refers_fn(table_offsets(*final(t))),
            r,
            classes_model(classes@),
            members_model(members@),
            members@[k as int]@,
            old(pairs)@.len() as int,
            old(entries)@.len() as int,
        ),
{
    let m = &members[k];
    let ghost t0 = *t;
    let obf = intern(t, m.obfuscated);
    let ghost t1 = *t;
    let recv = match m.original_class {
        Some(c) => c,
        None => m.class_original,
    };
    let src = find_source(classes, recv);
    let file = intern_opt(t, src);
    let ghost t2 = *t;
    let name = intern(t, m.original);
    let ghost t3 = *t;
    let class = intern_opt(t, m.original_class);
    let ghost t4 = *t;
    let params = intern(t, m.arguments);
    let ghost t5 = *t;
    proof {
        lemma_refers_grow(table_offsets(t0), table_offsets(t1));
        lemma_refers_grow(table_offsets(t1), table_offsets(t2));
        lemma_refers_grow(table_offsets(t2), table_offsets(t3));
        lemma_refers_grow(table_offsets(t3), table_offsets(t4));
        lemma_refers_grow(table_offsets(t4), table_offsets(t5));
        let f0 = refers_fn(table_offsets(t0));
        let f1 = refers_fn(table_offsets(t1));
        let f2 = refers_fn(table_offsets(t2));
        let f3 = refers_fn(table_offsets(t3));
        let f4 = refers_fn(table_offsets(t4));
        let f5 = refers_fn(table_offsets(t5));
        lemma_within_trans(f3, f4, f5);
        lemma_within_trans(f2, f3, f5);
        lemma_within_trans(f1, f2, f5);
        lemma_within_trans(f0, f1, f5);
        vstd::map_lib::lemma_submap_of_trans(table_offsets(t0), table_offsets(t1), table_offsets(t2));
        vstd::map_lib::lemma_submap_of_trans(table_offsets(t0), table_offsets(t2), table_offsets(t3));
        vstd::map_lib::lemma_submap_of_trans(table_offsets(t0), table_offsets(t3), table_offsets(t4));
        vstd::map_lib::lemma_submap_of_trans(table_offsets(t0), table_offsets(t4), table_offsets(t5));
        lemma_components_grow(f0, f5, comps@, 0, all_components(all_rules(p)));
        assert(f5(obf, m.obfuscated.spec_bytes()));
        assert(names_opt(f5, file, opt_bytes(src)));
        assert(f5(name, m.original.spec_bytes()));
        assert(names_opt(f5, class, opt_bytes(m.original_class)));
    }
    let pairs_first = pairs.len();
    let ghost pb = pairs@;
    match &m.positions {
        Some(ps) => {
            let mut i: usize = 0;
            while i < ps.len()
                invariant
                    i <= ps@.len(),
                    pairs@ == pb + ps@.subrange(0, i as int).map_values(
                        |q: (usize, usize)|
                            OutlinePair { outline_pos: q.0 as u32, callsite_line: q.1 as u32 },
                    ),
                decreases ps@.len() - i,
            {
                let (pos, line) = ps[i];
                #[verifier::truncate]
                let pair = OutlinePair { outline_pos: pos as u32, callsite_line: line as u32 };
                pairs.push(pair);
                proof {
                    assert(ps@.subrange(0, i + 1).map_values(
                        |q: (usize, usize)|
                            OutlinePair { outline_pos: q.0 as u32, callsite_line: q.1 as u32 },
                    ) =~= ps@.subrange(0, i as int).map_values(
                        |q: (usize, usize)|
                            OutlinePair { outline_pos: q.0 as u32, callsite_line: q.1 as u32 },
                    ).push(pair));
                }
                i = i + 1;
            }
            proof {
                assert(ps@.subrange(0, ps@.len() as int) =~= ps@);
            }
        },
        None => {
            proof {
                assert(pairs@ =~= pb + pairs_of(m@));
            }
        },
    }
    let rules_first = entries.len();
    write_rules(t, entries, comps, &m.rules, Ghost(all_rules(p)));
    proof {
        let f5 = refers_fn(table_offsets(t5));
        let ff = refers_fn(table_offsets(*t));
        lemma_refers_grow(table_offsets(t5), table_offsets(*t));
        vstd::map_lib::lemma_submap_of_trans(table_offsets(t0), table_offsets(t5), table_offsets(*t));
        assert(ff(obf, m.obfuscated.spec_bytes()));
        assert(ff(name, m.original.spec_bytes()));
        assert(ff(params, m.arguments.spec_bytes()));
        assert(names_opt(ff, file, opt_bytes(src)));
        assert(names_opt(ff, class, opt_bytes(m.original_class)));
        let q = p.push(m@);
        assert(q.drop_last() =~= p);
        assert(all_rules(q) == all_rules(p) + rules_model(m.rules@));
        assert(all_pairs(q) == all_pairs(p) + pairs_of(m@));
        assert(members_model(members@)[k as int] == m@);
    }
    #[verifier::truncate]
    let r = RawMember {
        obfuscated_name_offset: obf,
        startline: m.startline as u32,
        endline: m.endline as u32,
        original_class_offset: class,
        original_file_offset: file,
        original_name_offset: name,
        original_startline: m.original_startline as u32,
        original_endline: match m.original_endline {
            Some(l) => l as u32,
            None => u32::MAX,
        },
        params_offset: params,
        outline_pairs_offset: pairs_first as u32,
        outline_pairs_len: (pairs.len() - pairs_first) as u32,
        rewrite_rules_offset: rules_first as u32,
        rewrite_rules_len: m.rules.len() as u32,
        is_synthesized: if m.synthesized_here { 1 } else { 0 },
        is_outline: if m.outline_here { 1 } else { 0 },
        is_by_params: if m.by_params { 1 } else { 0 },
    };
    r
}

/// There is one span per class record.
pub proof fn lemma_span_len(rs: Seq<RecordModel>, n: int)
    requires
        0 <= n <= rs.len(),
    ensures
        span_table(rs, n).len() == class_table(rs, n).len(),
    decreases n,
{
    if n > 0 {
        lemma_span_len(rs, n - 1);
    }
}

/// The members that map frames by their parameters, in order.
pub open spec fn params_members(ms: Seq<MemberModel>) -> Seq<MemberModel>
    decreases ms.len(),
{
    if ms.len() == 0 {
        Seq::empty()
    } else {
        let p = params_members(ms.drop_last());
        if ms.last().by_params {
            p.push(ms.last())
        } else {
            p
        }
    }
}

/// The number of members among `ms[..n]` that map frames by parameters.
pub open spec fn params_before(ms: Seq<MemberModel>, n: int) -> int {
    params_members(ms.subrange(0, n)).len() as int
}

/// The members of a prefix that map by parameters are a prefix of those
/// of the whole.
pub proof fn lemma_params_prefix(ms: Seq<MemberModel>, k: int)
    requires
        0 <= k <= ms.len(),
    ensures
        params_members(ms.subrange(0, k)).len() <= params_members(ms).len(),
        params_members(ms.subrange(0, k)) == params_members(ms).subrange(
            0,
            params_members(ms.subrange(0, k)).len() as int,
        ),
    decreases ms.len(),
{
    if k == ms.len() {
        assert(ms.subrange(0, k) =~= ms);
        assert(params_members(ms).subrange(0, params_members(ms).len() as int) =~= params_members(ms));
    } else {
        let dl = ms.drop_last();
        assert(ms.subrange(0, k) =~= dl.subrange(0, k));
        lemma_params_prefix(dl, k);
        let a = params_members(dl.subrange(0, k));
        assert(params_members(ms).subrange(0, a.len() as int) =~= params_members(dl).subrange(
            0,
            a.len() as int,
        ));
    }
}

/// Whether a class record is written for class `c` of `cs`, whose members
/// among `ms` stand at `sp`.
pub open spec fn class_written(
    names: spec_fn(u32, Seq<u8>) -> bool,
    r: RawClass,
    cs: Seq<ClassModel>,
    ms: Seq<MemberModel>,
    c: ClassModel,
    sp: SpanModel,
) -> bool {
    &&& names(r.obfuscated_name_offset, c.obfuscated)
    &&& names(r.original_name_offset, c.original)
    &&& names_opt(names, r.file_name_offset, c.source_file)
    &&& r.members_offset == sp.first as u32
    &&& r.members_len == sp.len as u32
    &&& r.members_by_params_offset == params_before(ms, sp.first) as u32
    &&& r.members_by_params_len == (params_before(ms, sp.first + sp.len) - params_before(
        ms,
        sp.first,
    )) as u32
    &&& r.is_synthesized == flag(c.synthesized)
}

/// A table that grows keeps a member record written.
pub proof fn lemma_member_grow(
    f: spec_fn(u32, Seq<u8>) -> bool,
    g: spec_fn(u32, Seq<u8>) -> bool,
    r: RawMember,
    cs: Seq<ClassModel>,
    ms: Seq<MemberModel>,
    m: MemberModel,
    a: int,
    b: int,
)
    requires
        names_within(f, g),
        member_written(f, r, cs, ms, m, a, b),
    ensures
        member_written(g, r, cs, ms, m, a, b),
{
    assert(g(r.obfuscated_name_offset, m.obfuscated));
    assert(g(r.original_name_offset, m.original));
    assert(g(r.params_offset, m.arguments));
    if let Some(c) = m.original_class {
        assert(g(r.original_class_offset, c));
    }
    if let Some(c) = class_source(cs, receiver(m)) {
        assert(g(r.original_file_offset, c));
    }
}

/// A table that grows keeps a class record written.
pub proof fn lemma_class_grow(
    f: spec_fn(u32, Seq<u8>) -> bool,
    g: spec_fn(u32, Seq<u8>) -> bool,
    r: RawClass,
    cs: Seq<ClassModel>,
    ms: Seq<MemberModel>,
    c: ClassModel,
    sp: SpanModel,
)
    requires
        names_within(f, g),
        class_written(f, r, cs, ms, c, sp),
    ensures
        class_written(g, r, cs, ms, c, sp),
{
    assert(g(r.obfuscated_name_offset, c.obfuscated));
    assert(g(r.original_name_offset, c.original));
    if let Some(x) = c.source_file {
        assert(g(r.file_name_offset, x));
    }
}

/// In a well-formed table no larger than `u32::MAX` bytes, string offsets
/// stand for what is read there.
pub proof fn lemma_refers_read(bytes: Seq<u8>, offsets: Map<Seq<u8>, usize>)
    requires
        table_wf(bytes, offsets),
        bytes.len() <= u32::MAX,
    ensures
        names_within(refers_fn(offsets), table_names(bytes)),
{
    assert forall|off: u32, s: Seq<u8>| #[trigger] refers_fn(offsets)(off, s) implies table_names(
        bytes,
    )(off, s) by {
        if s.len() > 0 {
            assert(offsets.contains_key(s));
            let e = leb_encode(s.len() as u64) + s;
            assert((offsets[s] as u32) as int == offsets[s] as int);
            lemma_table_read(bytes, offsets, s, Seq::empty());
            assert(bytes + Seq::<u8>::empty() =~= bytes);
        }
    }
}

/// Whether the member records `raws` are written for members `ms` (those
/// at the start of `all`), and `params` for the members that map by
/// parameters (which follow them in `all`).
pub open spec fn members_written(
    names: spec_fn(u32, Seq<u8>) -> bool,
    raws: Seq<RawMember>,
    params: Seq<RawMember>,
    cs: Seq<ClassModel>,
    ms: Seq<MemberModel>,
    bp: Seq<MemberModel>,
) -> bool {
    let all = ms + bp;
    &&& raws.len() == ms.len()
    &&& forall|k: int|
        0 <= k < ms.len() ==> member_written(
            names,
            #[trigger] raws[k],
            cs,
            ms,
            ms[k],
            all_pairs(all.subrange(0, k)).len() as int,
            all_rules(all.subrange(0, k)).len() as int,
        )
    &&& params.len() == bp.len()
    &&& forall|j: int|
        0 <= j < bp.len() ==> member_written(
            names,
            #[trigger] params[j],
            cs,
            ms,
            bp[j],
            all_pairs(all.subrange(0, ms.len() + j)).len() as int,
            all_rules(all.subrange(0, ms.len() + j)).len() as int,
        )
}

/// A table that grows keeps the member records written.
pub proof fn lemma_members_grow(
    f: spec_fn(u32, Seq<u8>) -> bool,
    g: spec_fn(u32, Seq<u8>) -> bool,
    raws: Seq<RawMember>,
    params: Seq<RawMember>,
    cs: Seq<ClassModel>,
    ms: Seq<MemberModel>,
    bp: Seq<MemberModel>,
)
    requires
        names_within(f, g),
        members_written(f, raws, params, cs, ms, bp),
    ensures
        members_written(g, raws, params, cs, ms, bp),
{
    let all = ms + bp;
    assert forall|k: int| 0 <= k < ms.len() implies member_written(
        g,
        #[trigger] raws[k],
        cs,
        ms,
        ms[k],
        all_pairs(all.subrange(0, k)).len() as int,
        all_rules(all.subrange(0, k)).len() as int,
    ) by {
        lemma_member_grow(
            f,
            g,
            raws[k],
            cs,
            ms,
            ms[k],
            all_pairs(all.subrange(0, k)).len() as int,
            all_rules(all.subrange(0, k)).len() as int,
        );
    }
    assert forall|j: int| 0 <= j < bp.len() implies member_written(
        g,
        #[trigger] params[j],
        cs,
        ms,
        bp[j],
        all_pairs(all.subrange(0, ms.len() + j)).len() as int,
        all_rules(all.subrange(0, ms.len() + j)).len() as int,
    ) by {
        lemma_member_grow(
            f,
            g,
            params[j],
            cs,
            ms,
            bp[j],
            all_pairs(all.subrange(0, ms.len() + j)).len() as int,
            all_rules(all.subrange(0, ms.len() + j)).len() as int,
        );
    }
}

/// The records of all members, then of those that map by parameters, with
/// their outline pairs, rules and components; and for each `n`, how many
/// of the first `n` members map by parameters.
fn write_members(t: &mut StringTable, classes: &Vec<ClassEntry>, members: &Vec<MemberEntry>) -> (r: (
    Vec<RawMember>,
    Vec<RawMember>,
    Vec<OutlinePair>,
    Vec<RewriteRuleEntry>,
    Vec<RewriteComponent>,
    Vec<usize>,
))
    requires
        table_wf(table_bytes(*old(t)), table_offsets(*old(t))),
    ensures
        table_wf(table_bytes(*final(t)), table_offsets(*final(t))),
        table_offsets(*old(t)).submap_of(table_offsets(*final(t))),
        members_written(
            refers_fn(table_offsets(*final(t))),
            r.0@,
            r.1@,
            classes_model(classes@),
            members_model(members@),
            params_members(members_model(members@)),
        ),
        sections_written(
            refers_fn(table_offsets(*final(t))),
            r.2@,
            r.3@,
            r.4@,
            members_model(members@) + params_members(members_model(members@)),
        ),
        r.5@.len() == members@.len() + 1,
        forall|i: int|
            0 <= i <= members@.len() ==> #[trigger] r.5@[i] == params_before(
                members_model(members@),
                i,
            ),
{
    let ghost t0 = *t;
    let ghost cs = classes_model(classes@);
    let ghost ms = members_model(members@);
    let mut raws: Vec<RawMember> = Vec::new();
    let mut pairs: Vec<OutlinePair> = Vec::new();
    let mut entries: Vec<RewriteRuleEntry> = Vec::new();
    let mut comps: Vec<RewriteComponent> = Vec::new();
    let mut k: usize = 0;
    proof {
        assert(ms.subrange(0, 0) =~= Seq::<MemberModel>::empty());
        assert(entries@ =~= Seq::new(0, |q: int| rule_entry(Seq::empty(), q)));
    }
    while k < members.len()
        invariant
            k <= members@.len(),
            ms == members_model(members@),
            cs == classes_model(classes@),
            table_wf(table_bytes(*t), table_offsets(*t)),
            table_offsets(t0).submap_of(table_offsets(*t)),
            sections_written(
                refers_fn(table_offsets(*t)),
                pairs@,
                entries@,
                comps@,
                ms.subrange(0, k as int),
            ),
            raws@.len() == k,
            forall|j: int|
                0 <= j < k ==> member_written(
                    refers_fn(table_offsets(*t)),
                    #[trigger] raws@[j],
                    cs,
                    ms,
                    ms[j],
                    all_pairs(ms.subrange(0, j)).len() as int,
                    all_rules(ms.subrange(0, j)).len() as int,
                ),
        decreases members@.len() - k,
    {
        let ghost tb = *t;
        let ghost rb = raws@;
        let raw = resolve_mapping(
            t,
            &mut pairs,
            &mut entries,
            &mut comps,
            classes,
            members,
            k,
            Ghost(ms.subrange(0, k as int)),
        );
        raws.push(raw);
        proof {
            vstd::map_lib::lemma_submap_of_trans(table_offsets(t0), table_offsets(tb), table_offsets(*t));
            lemma_refers_grow(table_offsets(tb), table_offsets(*t));
            assert(ms.subrange(0, k as int).push(members@[k as int]@) =~= ms.subrange(0, k + 1));
            assert(ms[k as int] == members@[k as int]@);
            assert forall|j: int| 0 <= j < k + 1 implies member_written(
                refers_fn(table_offsets(*t)),
                #[trigger] raws@[j],
                cs,
                ms,
                ms[j],
                all_pairs(ms.subrange(0, j)).len() as int,
                all_rules(ms.subrange(0, j)).len() as int,
            ) by {
                if j < k {
                    assert(raws@[j] == rb[j]);
                    lemma_member_grow(
                        refers_fn(table_offsets(tb)),
                        refers_fn(table_offsets(*t)),
                        rb[j],
                        cs,
                        ms,
                        ms[j],
                        all_pairs(ms.subrange(0, j)).len() as int,
                        all_rules(ms.subrange(0, j)).len() as int,
                    );
                }
            }
        }
        k = k + 1;
    }
    let mut params: Vec<RawMember> = Vec::new();
    let mut before: Vec<usize> = Vec::new();
    let mut count: usize = 0;
    before.push(0);
    let mut k: usize = 0;
    proof {
        assert(ms.subrange(0, members@.len() as int) =~= ms);
        assert(ms + params_members(ms.subrange(0, 0)) =~= ms);
    }
    while k < members.len()
        invariant
            k <= members@.len(),
            ms == members_model(members@),
            cs == classes_model(classes@),
            table_wf(table_bytes(*t), table_offsets(*t)),
            table_offsets(t0).submap_of(table_offsets(*t)),
            count == params_members(ms.subrange(0, k as int)).len(),
            count <= k,
            sections_written(
                refers_fn(table_offsets(*t)),
                pairs@,
                entries@,
                comps@,
                ms + params_members(ms.subrange(0, k as int)),
            ),
            members_written(
                refers_fn(table_offsets(*t)),
                raws@,
                params@,
                cs,
                ms,
                params_members(ms.subrange(0, k as int)),
            ),
            before@.len() == k + 1,
            forall|i: int| 0 <= i <= k ==> #[trigger] before@[i] == params_before(ms, i),
        decreases members@.len() - k,
    {
        let ghost tb = *t;
        let ghost pm = params_members(ms.subrange(0, k as int));
        let ghost pn = params_members(ms.subrange(0, k + 1));
        let ghost pb = params@;
        proof {
            assert(ms.subrange(0, k + 1).drop_last() =~= ms.subrange(0, k as int));
            assert(ms.subrange(0, k + 1).last() == ms[k as int]);
            assert(ms[k as int] == members@[k as int]@);
        }
        if members[k].by_params {
            let raw = resolve_mapping(
                t,
                &mut pairs,
                &mut entries,
                &mut comps,
                classes,
                members,
                k,
                Ghost(ms + pm),
            );
            params.push(raw);
            count = count + 1;
            proof {
                assert(pn == pm.push(ms[k as int]));
                assert((ms + pm).push(members@[k as int]@) =~= ms + pn);
                vstd::map_lib::lemma_submap_of_trans(table_offsets(t0), table_offsets(tb), table_offsets(*t));
                lemma_refers_grow(table_offsets(tb), table_offsets(*t));
                lemma_members_grow(
                    refers_fn(table_offsets(tb)),
                    refers_fn(table_offsets(*t)),
                    raws@,
                    pb,
                    cs,
                    ms,
                    pm,
                );
                let f = refers_fn(table_offsets(*t));
                assert forall|k2: int| 0 <= k2 < ms.len() implies member_written(
                    f,
                    #[trigger] raws@[k2],
                    cs,
                    ms,
                    ms[k2],
                    all_pairs((ms + pn).subrange(0, k2)).len() as int,
                    all_rules((ms + pn).subrange(0, k2)).len() as int,
                ) by {
                    assert((ms + pn).subrange(0, k2) =~= (ms + pm).subrange(0, k2));
                }
                assert forall|j: int| 0 <= j < pn.len() implies member_written(
                    f,
                    #[trigger] params@[j],
                    cs,
                    ms,
                    pn[j],
                    all_pairs((ms + pn).subrange(0, ms.len() + j)).len() as int,
                    all_rules((ms + pn).subrange(0, ms.len() + j)).len() as int,
                ) by {
                    if j < pm.len() {
                        assert((ms + pn).subrange(0, ms.len() + j) =~= (ms + pm).subrange(
                            0,
                            ms.len() + j,
                        ));
                        assert(params@[j] == pb[j]);
                    } else {
                        assert((ms + pn).subrange(0, ms.len() + j) =~= ms + pm);
                    }
                }
            }
        } else {
            proof {
                assert(pn == pm);
            }
        }
        before.push(count);
        proof {
            assert forall|i: int| 0 <= i <= k + 1 implies #[trigger] before@[i] == params_before(ms, i) by {
                if i == k + 1 {
                    assert(params_before(ms, i) == pn.len());
                }
            }
        }
        k = k + 1;
    }
    proof {
        assert(ms.subrange(0, members@.len() as int) =~= ms);
    }
    (raws, params, pairs, entries, comps, before)
}

/// The record of class `i`.
fn write_class(
    t: &mut StringTable,
    classes: &Vec<ClassEntry>,
    members: &Vec<MemberEntry>,
    sp: Span,
    before: &Vec<usize>,
    i: usize,
) -> (r: RawClass)
    requires
        i < classes@.len(),
        table_wf(table_bytes(*old(t)), table_offsets(*old(t))),
        sp.first + sp.len <= members@.len(),
        before@.len() == members@.len() + 1,
        forall|j: int|
            0 <= j <= members@.len() ==> #[trigger] before@[j] == params_before(
                members_model(members@),
                j,
            ),
    ensures
        table_wf(table_bytes(*final(t)), table_offsets(*final(t))),
        table_offsets(*old(t)).submap_of(table_offsets(*final(t))),
        class_written(
            refers_fn(table_offsets(*final(t))),
            r,
            classes_model(classes@),
            members_model(members@),
            classes@[i as int]@,
            sp@,
        ),
{
    let ghost ms = members_model(members@);
    let c = &classes[i];
    let ghost t0 = *t;
    let obf = intern(t, c.obfuscated);
    let ghost t1 = *t;
    let orig = intern(t, c.original);
    let ghost t2 = *t;
    let file = intern_opt(t, c.source_file);
    let synthesized = c.synthesized;
    let n = members.len();
    assert(sp.first + sp.len <= n);
    let pf = before[sp.first];
    let pe = before[sp.first + sp.len];
    proof {
        lemma_params_mono(ms, sp.first as int, (sp.first + sp.len) as int);
        lemma_refers_grow(table_offsets(t0), table_offsets(t1));
        lemma_refers_grow(table_offsets(t1), table_offsets(t2));
        lemma_refers_grow(table_offsets(t2), table_offsets(*t));
        let f0 = refers_fn(table_offsets(t0));
        let f1 = refers_fn(table_offsets(t1));
        let f2 = refers_fn(table_offsets(t2));
        let f = refers_fn(table_offsets(*t));
        lemma_within_trans(f1, f2, f);
        vstd::map_lib::lemma_submap_of_trans(table_offsets(t0), table_offsets(t1), table_offsets(t2));
        vstd::map_lib::lemma_submap_of_trans(table_offsets(t0), table_offsets(t2), table_offsets(*t));
        assert(f(obf, c.obfuscated.spec_bytes()));
        assert(f(orig, c.original.spec_bytes()));
    }
    #[verifier::truncate]
    let raw = RawClass {
        obfuscated_name_offset: obf,
        original_name_offset: orig,
        file_name_offset: file,
        members_offset: sp.first as u32,
        members_len: sp.len as u32,
        members_by_params_offset: pf as u32,
        members_by_params_len: (pe - pf) as u32,
        is_synthesized: if synthesized { 1 } else { 0 },
    };
    raw
}

/// The class records.
fn write_classes(
    t: &mut StringTable,
    classes: &Vec<ClassEntry>,
    members: &Vec<MemberEntry>,
    spans: &Vec<Span>,
    before: &Vec<usize>,
) -> (r: Vec<RawClass>)
    requires
        table_wf(table_bytes(*old(t)), table_offsets(*old(t))),
        spans@.len() == classes@.len(),
        forall|i: int|
            0 <= i < spans@.len() ==> #[trigger] spans@[i].first + spans@[i].len <= members@.len(),
        before@.len() == members@.len() + 1,
        forall|i: int|
            0 <= i <= members@.len() ==> #[trigger] before@[i] == params_before(
                members_model(members@),
                i,
            ),
    ensures
        table_wf(table_bytes(*final(t)), table_offsets(*final(t))),
        table_offsets(*old(t)).submap_of(table_offsets(*final(t))),
        r@.len() == classes@.len(),
        forall|i: int|
            0 <= i < classes@.len() ==> class_written(
                refers_fn(table_offsets(*final(t))),
                #[trigger] r@[i],
                classes_model(classes@),
                members_model(members@),
                classes_model(classes@)[i],
                spans_model(spans@)[i],
            ),
{
    let ghost t0 = *t;
    let ghost cs = classes_model(classes@);
    let ghost ms = members_model(members@);
    let ghost sm = spans_model(spans@);
    let mut out: Vec<RawClass> = Vec::new();
    let mut i: usize = 0;
    while i < classes.len()
        invariant
            i <= classes@.len(),
            cs == classes_model(classes@),
            ms == members_model(members@),
            sm == spans_model(spans@),
            spans@.len() == classes@.len(),
            forall|j: int|
                0 <= j < spans@.len() ==> #[trigger] spans@[j].first + spans@[j].len
                    <= members@.len(),
            before@.len() == members@.len() + 1,
            forall|j: int| 0 <= j <= members@.len() ==> #[trigger] before@[j] == params_before(ms, j),
            table_wf(table_bytes(*t), table_offsets(*t)),
            table_offsets(t0).submap_of(table_offsets(*t)),
            out@.len() == i,
            forall|j: int|
                0 <= j < i ==> class_written(
                    refers_fn(table_offsets(*t)),
                    #[trigger] out@[j],
                    cs,
                    ms,
                    cs[j],
                    sm[j],
                ),
        decreases classes@.len() - i,
    {
        let ghost tb = *t;
        let ghost ob = out@;
        let sp = spans[i];
        proof {
            assert(spans@[i as int] == sp);
        }
        let raw = write_class(t, classes, members, sp, before, i);
        out.push(raw);
        proof {
            lemma_refers_grow(table_offsets(tb), table_offsets(*t));
            vstd::map_lib::lemma_submap_of_trans(table_offsets(t0), table_offsets(tb), table_offsets(*t));
            let fb = refers_fn(table_offsets(tb));
            let f = refers_fn(table_offsets(*t));
            assert(cs[i as int] == classes@[i as int]@);
            assert(sm[i as int] == sp@);
            assert forall|j: int| 0 <= j < i + 1 implies class_written(
                f,
                #[trigger] out@[j],
                cs,
                ms,
                cs[j],
                sm[j],
            ) by {
                if j < i {
                    assert(out@[j] == ob[j]);
                    lemma_class_grow(fb, f, ob[j], cs, ms, cs[j], sm[j]);
                }
            }
        }
        i = i + 1;
    }
    out
}

/// Counting members that map by parameters grows with the prefix.
pub proof fn lemma_params_mono(ms: Seq<MemberModel>, a: int, b: int)
    requires
        0 <= a <= b <= ms.len(),
    ensures
        params_before(ms, a) <= params_before(ms, b),
    decreases b - a,
{
    if a < b {
        lemma_params_mono(ms, a, b - 1);
        assert(ms.subrange(0, b).drop_last() =~= ms.subrange(0, b - 1));
    }
}

/// Whether a cache holds, under `names`, the records written for classes
/// `cs` (whose members stand at `spans`) and members `ms`: all members,
/// then again those that map by parameters, with their outline pairs,
/// rules and components.
pub open spec fn cache_holds(
    names: spec_fn(u32, Seq<u8>) -> bool,
    m: CacheModel,
    cs: Seq<ClassModel>,
    ms: Seq<MemberModel>,
    spans: Seq<SpanModel>,
) -> bool {
    &&& m.classes.len() == cs.len()
    &&& spans.len() == cs.len()
    &&& forall|i: int|
        0 <= i < cs.len() ==> class_written(names, #[trigger] m.classes[i], cs, ms, cs[i], spans[i])
    &&& members_written(names, m.members, m.members_by_params, cs, ms, params_members(ms))
    &&& sections_written(
        names,
        m.outline_pairs,
        m.rewrite_rule_entries,
        m.rewrite_rule_components,
        ms + params_members(ms),
    )
}

/// The members that a cache of a mapping with the records `rs` holds: its
/// members, read for mapping by parameters too, but for those without line
/// information of a method that has a line range.
pub open spec fn cache_members_of(rs: Seq<RecordModel>) -> Seq<MemberModel> {
    cached_members(spec_members(rs, true))
}

/// Where the members of each class of a mapping with the records `rs`
/// stand among the members that its cache holds.
pub open spec fn cache_spans_of(rs: Seq<RecordModel>) -> Seq<SpanModel> {
    cached_spans(spec_members(rs, true), spec_spans(rs))
}

/// Whether a cache holds the records written for the mapping `source`:
/// its classes and its members (read for mapping by parameters too).
pub open spec fn spec_cache_of(m: CacheModel, source: Seq<u8>) -> bool {
    let rs = mapping_records(source);
    cache_holds(
        table_names(m.string_bytes),
        m,
        spec_classes(rs),
        cache_members_of(rs),
        cache_spans_of(rs),
    )
}

/// Where the members of each class stand, for the classes and members that
/// the records declare.
fn spans_for<'s>(recs: &Vec<ProguardRecord<'s>>, classes: &Vec<ClassEntry<'s>>, members: &Vec<MemberEntry<'s>>) -> (r: Vec<Span>)
    requires
        classes_model(classes@) == spec_classes(records_model(recs@)),
        members_model(members@) == spec_members(records_model(recs@), true),
    ensures
        spans_model(r@) == spec_spans(records_model(recs@)),
        r@.len() == classes@.len(),
        forall|i: int| 0 <= i < r@.len() ==> #[trigger] r@[i].first + r@[i].len <= members@.len(),
{
    let ghost rs = records_model(recs@);
    let spans: Vec<Span> = if classes.len() == 0 {
        Vec::new()
    } else {
        class_spans(recs)
    };
    proof {
        lemma_span_len(rs, rs.len() as int);
        lemma_span_bounds(rs, rs.len() as int);
        lemma_member_table_len(rs, true, rs.len() as int);
        assert(classes_model(classes@).len() == classes@.len());
        assert(members_model(members@).len() == members@.len());
        if classes@.len() == 0 {
            assert(spans_model(spans@) =~= spec_spans(rs));
        } else {
            assert(spec_classes(rs).len() > 0);
            assert(!orphan_method(rs));
            assert(spec_members(rs, true) == member_table(rs, true, rs.len() as int));
        }
        assert(spans_model(spans@) == spec_spans(rs));
        assert forall|i: int| 0 <= i < spans@.len() implies #[trigger] spans@[i].first
            + spans@[i].len <= members@.len() by {
            assert(spans_model(spans@)[i] == spans@[i]@);
            if classes@.len() > 0 {
                assert(spec_spans(rs)[i] == span_table(rs, rs.len() as int)[i]);
                let sp = span_table(rs, rs.len() as int)[i];
                assert(sp.first + sp.len <= method_count(rs, rs.len() as int));
                assert(member_table(rs, true, rs.len() as int).len() == members@.len());
            }
        }
    }
    spans
}

/// What a cache holds under `f` it holds under any `g` that names at least
/// as much.
pub proof fn lemma_cache_holds_grow(
    f: spec_fn(u32, Seq<u8>) -> bool,
    g: spec_fn(u32, Seq<u8>) -> bool,
    m: CacheModel,
    cs: Seq<ClassModel>,
    ms: Seq<MemberModel>,
    spans: Seq<SpanModel>,
)
    requires
        names_within(f, g),
        cache_holds(f, m, cs, ms, spans),
    ensures
        cache_holds(g, m, cs, ms, spans),
{
    lemma_members_grow(f, g, m.members, m.members_by_params, cs, ms, params_members(ms));
    lemma_components_grow(
        f,
        g,
        m.rewrite_rule_components,
        0,
        all_components(all_rules(ms + params_members(ms))),
    );
    assert forall|i: int| 0 <= i < cs.len() implies class_written(
        g,
        #[trigger] m.classes[i],
        cs,
        ms,
        cs[i],
        spans[i],
    ) by {
        lemma_class_grow(f, g, m.classes[i], cs, ms, cs[i], spans[i]);
    }
}

/// Whether `out` is a cache file that holds `m`: its header, with the
/// magic, the version and the counts of `m` as `u32`s, four bytes of
/// padding, its records and its strings.
pub open spec fn cache_file(out: Seq<u8>, m: CacheModel) -> bool {
    &&& out == layout(
        m.header,
        m.classes,
        m.members,
        m.members_by_params,
        m.outline_pairs,
        m.rewrite_rule_entries,
        m.rewrite_rule_components,
        m.string_bytes,
    )
    &&& m.header.magic == cache_magic()
    &&& m.header.version == cache_version()
    &&& m.header.num_classes == m.classes.len() as u32
    &&& m.header.num_members == m.members.len() as u32
    &&& m.header.num_members_by_params == m.members_by_params.len() as u32
    &&& m.header.num_outline_pairs == m.outline_pairs.len() as u32
    &&& m.header.num_rewrite_rule_entries == m.rewrite_rule_entries.len() as u32
    &&& m.header.num_rewrite_rule_components == m.rewrite_rule_components.len() as u32
    &&& m.header.string_bytes == m.string_bytes.len() as u32
}

/// Whether `out` is a cache file written for the mapping `source`: it
/// holds the records written for its classes and members, with their
/// strings in a string table, at the offsets that the table gives; the
/// string section holds those strings and nothing else.
pub open spec fn spec_written(out: Seq<u8>, source: Seq<u8>) -> bool {
    let rs = mapping_records(source);
    exists|m: CacheModel, offsets: Map<Seq<u8>, usize>|
        #![trigger cache_file(out, m), table_wf(m.string_bytes, offsets)]
        cache_file(out, m) && table_wf(m.string_bytes, offsets) && cache_holds(
            refers_fn(offsets),
            m,
            spec_classes(rs),
            cache_members_of(rs),
            cache_spans_of(rs),
        )
}

/// A cache file written for a mapping, of at most `u32::MAX` bytes, reads
/// back to what was written: the records of the mapping's classes and
/// members, whose string offsets name their strings.
pub proof fn law_written_cache_reads_back(out: Seq<u8>, source: Seq<u8>)
    requires
        spec_written(out, source),
        out.len() <= u32::MAX,
    ensures
        spec_parse(out) matches Ok(m) && spec_cache_of(m, source),
{
    let rs = mapping_records(source);
    let (m, offsets) = choose|m: CacheModel, offsets: Map<Seq<u8>, usize>|
        cache_file(out, m) && table_wf(m.string_bytes, offsets) && cache_holds(
            refers_fn(offsets),
            m,
            spec_classes(rs),
            cache_members_of(rs),
            cache_spans_of(rs),
        );
    lemma_counts(
        m.header,
        m.classes,
        m.members,
        m.members_by_params,
        m.outline_pairs,
        m.rewrite_rule_entries,
        m.rewrite_rule_components,
        m.string_bytes,
    );
    lemma_parse_layout(
        m.header,
        m.classes,
        m.members,
        m.members_by_params,
        m.outline_pairs,
        m.rewrite_rule_entries,
        m.rewrite_rule_components,
        m.string_bytes,
    );
    assert(m == CacheModel {
        header: m.header,
        classes: m.classes,
        members: m.members,
        members_by_params: m.members_by_params,
        outline_pairs: m.outline_pairs,
        rewrite_rule_entries: m.rewrite_rule_entries,
        rewrite_rule_components: m.rewrite_rule_components,
        string_bytes: m.string_bytes,
    });
    lemma_refers_read(m.string_bytes, offsets);
    lemma_cache_holds_grow(
        refers_fn(offsets),
        table_names(m.string_bytes),
        m,
        spec_classes(rs),
        cache_members_of(rs),
        cache_spans_of(rs),
    );
}

/// The counts of a header of a cache file of at most `u32::MAX` bytes are
/// the lengths of its sections.
proof fn lemma_counts(
    header: Header,
    classes: Seq<RawClass>,
    members: Seq<RawMember>,
    params: Seq<RawMember>,
    pairs: Seq<OutlinePair>,
    entries: Seq<RewriteRuleEntry>,
    comps: Seq<RewriteComponent>,
    strings: Seq<u8>,
)
    requires
        header.num_classes == classes.len() as u32,
        header.num_members == members.len() as u32,
        header.num_members_by_params == params.len() as u32,
        header.num_outline_pairs == pairs.len() as u32,
        header.num_rewrite_rule_entries == entries.len() as u32,
        header.num_rewrite_rule_components == comps.len() as u32,
        header.string_bytes == strings.len() as u32,
        layout(header, classes, members, params, pairs, entries, comps, strings).len() <= u32::MAX,
    ensures
        header.num_classes == classes.len(),
        header.num_members == members.len(),
        header.num_members_by_params == params.len(),
        header.num_outline_pairs == pairs.len(),
        header.num_rewrite_rule_entries == entries.len(),
        header.num_rewrite_rule_components == comps.len(),
        header.string_bytes == strings.len(),
{
    header.lemma_size();
    lemma_encode_all_len(classes);
    lemma_encode_all_len(members);
    lemma_encode_all_len(params);
    lemma_encode_all_len(pairs);
    lemma_encode_all_len(entries);
    lemma_encode_all_len(comps);
    let n = layout(header, classes, members, params, pairs, entries, comps, strings).len();
    assert(n == 40 + 32 * classes.len() + 56 * members.len() + 56 * params.len() + 8 * pairs.len()
        + 16 * entries.len() + 8 * comps.len() + strings.len());
    assert(pairs.len() <= u32::MAX);
    assert(comps.len() <= u32::MAX);
}

/// The bytes of a cache file.
fn assemble(
    header: &Header,
    classes: &Vec<RawClass>,
    members: &Vec<RawMember>,
    params: &Vec<RawMember>,
    pairs: &Vec<OutlinePair>,
    entries: &Vec<RewriteRuleEntry>,
    comps: &Vec<RewriteComponent>,
    strings: Vec<u8>,
) -> (out: Vec<u8>)
    ensures
        out@ == layout(*header, classes@, members@, params@, pairs@, entries@, comps@, strings@),
{
    let mut out: Vec<u8> = Vec::new();
    header.write(&mut out);
    out.push(0u8);
    out.push(0u8);
    out.push(0u8);
    out.push(0u8);
    write_all(&mut out, classes);
    write_all(&mut out, members);
    write_all(&mut out, params);
    write_all(&mut out, pairs);
    write_all(&mut out, entries);
    write_all(&mut out, comps);
    let ghost sb = strings@;
    let mut strings = strings;
    out.append(&mut strings);
    proof {
        assert(out@ =~= layout(*header, classes@, members@, params@, pairs@, entries@, comps@, sb));
    }
    out
}

/// The members that a cache of the records holds, and where those of each
/// class stand among them.
fn cache_tables<'s>(recs: &Vec<ProguardRecord<'s>>, classes: &Vec<ClassEntry<'s>>, all_members: Vec<MemberEntry<'s>>) -> (r: (
    Vec<MemberEntry<'s>>,
    Vec<Span>,
))
    requires
        classes_model(classes@) == spec_classes(records_model(recs@)),
        members_model(all_members@) == spec_members(records_model(recs@), true),
    ensures
        members_model(r.0@) == cache_members_of(records_model(recs@)),
        spans_model(r.1@) == cache_spans_of(records_model(recs@)),
        r.1@.len() == classes@.len(),
        forall|i: int| 0 <= i < r.1@.len() ==> #[trigger] r.1@[i].first + r.1@[i].len <= r.0@.len(),
{
    let all_spans = spans_for(recs, classes, &all_members);
    let ghost all = members_model(all_members@);
    let spans = cache_spans(&all_members, &all_spans);
    let members = cache_members(all_members);
    (members, spans)
}

impl<'data> ProguardCache<'data> {
    /// Writes a mapping in the cache format.
    ///
    /// The cache holds the records of the mapping's classes and members,
    /// but for members without line information of a method that has a line
    /// range; a cache of at most `u32::MAX` bytes reads back to them.
    #[verifier::spinoff_prover]
    #[verifier::rlimit(60)]
    pub fn write(mapping: &ProguardMapping) -> (out: Vec<u8>)
        ensures
            spec_written(out@, mapping@),
            out@.len() <= u32::MAX ==> (spec_parse(out@) matches Ok(m) && spec_cache_of(
                m,
                mapping@,
            )),
    {
        let recs = collect_records(mapping);
        let (classes, all_members) = read_tables(&recs, true);
        let (members, spans) = cache_tables(&recs, &classes, all_members);
        let mut t = table_new();
        proof {
            assert(table_wf(table_bytes(t), table_offsets(t))) by {
                reveal(table_covered);
                assert forall|x: Seq<u8>| !table_offsets(t).contains_key(x) by {
                    assert(!table_offsets(t).dom().contains(x));
                }
            }
        }
        let (raw_members, raw_params, pairs, entries, comps, before) = write_members(
            &mut t,
            &classes,
            &members,
        );
        let ghost t1 = t;
        let raw_classes = write_classes(&mut t, &classes, &members, &spans, &before);
        let ghost offsets = table_offsets(t);
        let strings = table_into_bytes(t);
        #[verifier::truncate]
        let header = Header {
            magic: 0x43475250,
            version: PRGCACHE_VERSION,
            num_classes: raw_classes.len() as u32,
            num_members: raw_members.len() as u32,
            num_members_by_params: raw_params.len() as u32,
            num_outline_pairs: pairs.len() as u32,
            num_rewrite_rule_entries: entries.len() as u32,
            num_rewrite_rule_components: comps.len() as u32,
            string_bytes: strings.len() as u32,
        };
        let ghost sb = strings@;
        let out = assemble(
            &header,
            &raw_classes,
            &raw_members,
            &raw_params,
            &pairs,
            &entries,
            &comps,
            strings,
        );
        proof {
            let m = CacheModel {
                header,
                classes: raw_classes@,
                members: raw_members@,
                members_by_params: raw_params@,
                outline_pairs: pairs@,
                rewrite_rule_entries: entries@,
                rewrite_rule_components: comps@,
                string_bytes: sb,
            };
            let cs = classes_model(classes@);
            let ms = members_model(members@);
            let sp = spans_model(spans@);
            lemma_refers_grow(table_offsets(t1), offsets);
            lemma_members_grow(
                refers_fn(table_offsets(t1)),
                refers_fn(offsets),
                raw_members@,
                raw_params@,
                cs,
                ms,
                params_members(ms),
            );
            lemma_components_grow(
                refers_fn(table_offsets(t1)),
                refers_fn(offsets),
                comps@,
                0,
                all_components(all_rules(ms + params_members(ms))),
            );
            assert(cache_holds(refers_fn(offsets), m, cs, ms, sp));
            assert(cache_file(out@, m));
            assert(table_wf(m.string_bytes, offsets));
            if out@.len() <= u32::MAX {
                law_written_cache_reads_back(out@, mapping@);
            }
        }
        out
    }
}

/// The number of members of the first `i` spans.
pub open spec fn span_sum(sp: Seq<SpanModel>, i: int) -> int
    decreases i,
{
    if i <= 0 {
        0
    } else {
        span_sum(sp, i - 1) + sp[i - 1].len
    }
}

/// Sums over equal spans are equal.
proof fn lemma_span_sum_same(p: Seq<SpanModel>, q: Seq<SpanModel>, i: int)
    requires
        0 <= i <= p.len(),
        i <= q.len(),
        forall|j: int| 0 <= j < i ==> #[trigger] q[j] == p[j],
    ensures
        span_sum(q, i) == span_sum(p, i),
    decreases i,
{
    if i > 0 {
        lemma_span_sum_same(p, q, i - 1);
    }
}

/// After a class record, there are spans.
proof fn lemma_spans_nonempty(rs: Seq<RecordModel>, i: int)
    requires
        0 <= i <= rs.len(),
        last_class(rs, i) >= 0,
    ensures
        span_table(rs, i).len() > 0,
    decreases i,
{
    if i > 0 && !(rs[i - 1] is Class) {
        lemma_spans_nonempty(rs, i - 1);
    }
}

/// Without a method record before the first class record, the members of
/// each class follow those of the class before it, and all of them are
/// those of the method records.
pub proof fn lemma_span_contiguous(rs: Seq<RecordModel>, n: int)
    requires
        0 <= n <= rs.len(),
        forall|j: int| 0 <= j < n && rs[j] is Method ==> last_class(rs, j) >= 0,
    ensures
        forall|i: int|
            0 <= i < span_table(rs, n).len() ==> #[trigger] span_table(rs, n)[i].first == span_sum(
                span_table(rs, n),
                i,
            ),
        span_sum(span_table(rs, n), span_table(rs, n).len() as int) == method_count(rs, n),
    decreases n,
{
    if n > 0 {
        lemma_span_contiguous(rs, n - 1);
        let p = span_table(rs, n - 1);
        let q = span_table(rs, n);
        if rs[n - 1] is Class {
            assert forall|j: int| 0 <= j < p.len() implies #[trigger] q[j] == p[j] by {}
            lemma_span_sum_same(p, q, p.len() as int);
            assert forall|i: int| 0 <= i < q.len() implies #[trigger] q[i].first == span_sum(q, i) by {
                if i < p.len() {
                    lemma_span_sum_same(p, q, i);
                    assert(q[i] == p[i]);
                }
            }
        } else if rs[n - 1] is Method {
            lemma_spans_nonempty(rs, n - 1);
            let k = p.len() - 1;
            assert forall|j: int| 0 <= j < k implies #[trigger] q[j] == p[j] by {}
            lemma_span_sum_same(p, q, k);
            assert forall|i: int| 0 <= i < q.len() implies #[trigger] q[i].first == span_sum(q, i) by {
                lemma_span_sum_same(p, q, if i < k { i } else { k });
                if i < k {
                    assert(q[i] == p[i]);
                } else {
                    assert(q[i].first == p[i].first);
                }
            }
        } else {
            assert(q == p);
        }
    }
}

} // verus!

//! Tables of the classes and members that a mapping file declares.
//!
//! The records of a mapping are read in order. A class record opens a
//! section and the method records after it belong to that class. The header
//! records right after a class or a method (R8 headers and the source file
//! header) are attached to it.

use vstd::prelude::*;
use vstd::string::*;
use vstd::utf8::*;

use crate::mapping::{
    opt_bytes, pairs_bytes, result_view, spec_records, strs_bytes, LineMapping, ProguardMapping,
    ProguardRecord, R8Header, R8HeaderModel, RecordModel,
};
use crate::text::{bytes_eq, parse_usize_chars, parse_usize_str, split_at_ascii, str_eq};

verus! {

// ---------------------------------------------------------------------------
// Frame rewrite rules
// ---------------------------------------------------------------------------

/// A condition of a frame rewrite rule.
#[derive(Clone, Copy, Debug, PartialEq)]
pub enum RewriteCondition<'s> {
    /// The rule applies when the exception has this descriptor.
    Throws(&'s str),
    /// A condition that is not understood; it never holds.
    Unknown(&'s str),
}

/// An action of a frame rewrite rule.
#[derive(Clone, Copy, Debug, PartialEq)]
pub enum RewriteAction<'s> {
    /// Drop this many of the innermost frames.
    RemoveInnerFrames(usize),
    /// An action that is not understood; it does nothing.
    Unknown(&'s str),
}

/// A rule that rewrites the frames of a method when its conditions hold.
#[derive(Clone, Debug, PartialEq)]
pub struct RewriteRule<'s> {
    /// All of these must hold.
    pub conditions: Vec<RewriteCondition<'s>>,
    /// Applied in order.
    pub actions: Vec<RewriteAction<'s>>,
}

/// A rule condition, by bytes.
pub enum CondModel {
    Throws(Seq<u8>),
    Unknown(Seq<u8>),
}

/// A rule action, by bytes.
pub enum ActionModel {
    RemoveInnerFrames(usize),
    Unknown(Seq<u8>),
}

/// A rewrite rule, by bytes.
pub struct RuleModel {
    pub conditions: Seq<CondModel>,
    pub actions: Seq<ActionModel>,
}

impl<'s> View for RewriteCondition<'s> {
    type V = CondModel;

    open spec fn view(&self) -> CondModel {
        match self {
            RewriteCondition::Throws(d) => CondModel::Throws(d.spec_bytes()),
            RewriteCondition::Unknown(s) => CondModel::Unknown(s.spec_bytes()),
        }
    }
}

impl<'s> View for RewriteAction<'s> {
    type V = ActionModel;

    open spec fn view(&self) -> ActionModel {
        match self {
            RewriteAction::RemoveInnerFrames(n) => ActionModel::RemoveInnerFrames(*n),
            RewriteAction::Unknown(s) => ActionModel::Unknown(s.spec_bytes()),
        }
    }
}

impl<'s> View for RewriteRule<'s> {
    type V = RuleModel;

    open spec fn view(&self) -> RuleModel {
        RuleModel {
            conditions: self.conditions@.map_values(|c: RewriteCondition| c@),
            actions: self.actions@.map_values(|a: RewriteAction| a@),
        }
    }
}

/// The bytes `throws(`.
pub open spec fn throws_prefix() -> Seq<u8> {
    seq![116u8, 104u8, 114u8, 111u8, 119u8, 115u8, 40u8]
}

/// The bytes `removeInnerFrames(`.
pub open spec fn remove_prefix() -> Seq<u8> {
    seq![
        114u8, 101u8, 109u8, 111u8, 118u8, 101u8, 73u8, 110u8, 110u8, 101u8, 114u8, 70u8, 114u8,
        97u8, 109u8, 101u8, 115u8, 40u8,
    ]
}

/// The text between `prefix` and a closing `)` that ends `s`, if `s` has that form.
pub open spec fn call_argument(s: Seq<u8>, prefix: Seq<u8>) -> Option<Seq<u8>> {
    if s.len() > prefix.len() && s.subrange(0, prefix.len() as int) == prefix && s.last() == 41 {
        Some(s.subrange(prefix.len() as int, s.len() - 1))
    } else {
        None
    }
}

/// A rule condition as written: `throws(descriptor)`, or anything else.
pub open spec fn spec_condition(s: Seq<u8>) -> CondModel {
    match call_argument(s, throws_prefix()) {
        Some(d) => CondModel::Throws(d),
        None => CondModel::Unknown(s),
    }
}

/// A rule action as written: `removeInnerFrames(count)`, or anything else.
pub open spec fn spec_action(s: Seq<u8>) -> ActionModel {
    match call_argument(s, remove_prefix()) {
        Some(n) => match parse_usize_chars(decode_utf8(n)) {
            Some(count) => ActionModel::RemoveInnerFrames(count),
            None => ActionModel::Unknown(s),
        },
        None => ActionModel::Unknown(s),
    }
}

/// The rule that a rewrite header writes down.
pub open spec fn spec_rule(conditions: Seq<Seq<u8>>, actions: Seq<Seq<u8>>) -> RuleModel {
    RuleModel {
        conditions: conditions.map_values(|c: Seq<u8>| spec_condition(c)),
        actions: actions.map_values(|a: Seq<u8>| spec_action(a)),
    }
}

proof fn lemma_prefix_bytes()
    ensures
        "throws(".spec_bytes() == throws_prefix(),
        "removeInnerFrames(".spec_bytes() == remove_prefix(),
{
    reveal_strlit("throws(");
    reveal_strlit("removeInnerFrames(");
    broadcast use is_ascii_spec_bytes;
    assert(is_ascii("throws("));
    assert(is_ascii("removeInnerFrames("));
    assert("throws(".spec_bytes() =~= throws_prefix());
    assert("removeInnerFrames(".spec_bytes() =~= remove_prefix());
}

/// Whether `s` starts with `prefix`.
fn starts_with_bytes(s: &[u8], prefix: &[u8]) -> (r: bool)
    ensures
        r == (prefix@.len() <= s@.len() && s@.subrange(0, prefix@.len() as int) == prefix@),
{
    if prefix.len() > s.len() {
        return false;
    }
    let mut i: usize = 0;
    while i < prefix.len()
        invariant
            prefix@.len() <= s@.len(),
            i <= prefix@.len(),
            forall|k: int| 0 <= k < i ==> s@[k] == prefix@[k],
        decreases prefix@.len() - i,
    {
        if s[i] != prefix[i] {
            assert(s@.subrange(0, prefix@.len() as int)[i as int] != prefix@[i as int]);
            return false;
        }
        i = i + 1;
    }
    assert(s@.subrange(0, prefix@.len() as int) =~= prefix@);
    true
}

/// The argument of `prefix(...)` when `s` has that form.
fn parse_call<'a>(s: &'a str, prefix: &str) -> (r: Option<&'a str>)
    requires
        prefix.spec_bytes().len() > 0,
        prefix.spec_bytes().last() == 40,
    ensures
        opt_bytes(r) == call_argument(s.spec_bytes(), prefix.spec_bytes()),
{
    let b = s.as_bytes();
    let p = prefix.as_bytes();
    if b.len() > p.len() && starts_with_bytes(b, p) && b[b.len() - 1] == 41 {
        proof {
            assert(b@[p@.len() - 1] == s.spec_bytes().subrange(0, p@.len() as int)[p@.len() - 1]);
        }
        let (_head, rest) = split_at_ascii(s, p.len());
        let rb = rest.as_bytes();
        proof {
            assert(rb@[rb@.len() - 1] == b@[b@.len() - 1]);
        }
        let (arg, _close) = split_at_ascii(rest, rb.len() - 1);
        proof {
            assert(arg.spec_bytes() =~= s.spec_bytes().subrange(
                p@.len() as int,
                s.spec_bytes().len() - 1,
            ));
        }
        Some(arg)
    } else {
        None
    }
}

/// Reads a rule condition.
fn parse_condition<'s>(s: &'s str) -> (r: RewriteCondition<'s>)
    ensures
        r@ == spec_condition(s.spec_bytes()),
{
    proof {
        lemma_prefix_bytes();
    }
    match parse_call(s, "throws(") {
        Some(d) => RewriteCondition::Throws(d),
        None => RewriteCondition::Unknown(s),
    }
}

/// Reads a rule action.
fn parse_action<'s>(s: &'s str) -> (r: RewriteAction<'s>)
    ensures
        r@ == spec_action(s.spec_bytes()),
{
    proof {
        lemma_prefix_bytes();
    }
    match parse_call(s, "removeInnerFrames(") {
        Some(n) => {
            proof {
                encode_utf8_decode_utf8(n@);
            }
            match parse_usize_str(n) {
                Some(count) => RewriteAction::RemoveInnerFrames(count),
                None => RewriteAction::Unknown(s),
            }
        },
        None => RewriteAction::Unknown(s),
    }
}

/// Reads the rule that a rewrite header writes down.
fn parse_rule<'s>(conditions: &Vec<&'s str>, actions: &Vec<&'s str>) -> (r: RewriteRule<'s>)
    ensures
        r@ == spec_rule(strs_bytes(conditions@), strs_bytes(actions@)),
{
    let mut cs: Vec<RewriteCondition<'s>> = Vec::new();
    let mut i: usize = 0;
    while i < conditions.len()
        invariant
            i <= conditions@.len(),
            cs@.len() == i,
            forall|k: int| 0 <= k < i ==> #[trigger] cs@[k]@ == spec_condition(conditions@[k].spec_bytes()),
        decreases conditions@.len() - i,
    {
        cs.push(parse_condition(conditions[i]));
        i = i + 1;
    }
    let mut acts: Vec<RewriteAction<'s>> = Vec::new();
    let mut j: usize = 0;
    while j < actions.len()
        invariant
            j <= actions@.len(),
            acts@.len() == j,
            forall|k: int| 0 <= k < j ==> #[trigger] acts@[k]@ == spec_action(actions@[k].spec_bytes()),
        decreases actions@.len() - j,
    {
        acts.push(parse_action(actions[j]));
        j = j + 1;
    }
    let r = RewriteRule { conditions: cs, actions: acts };
    proof {
        assert(r@.conditions =~= spec_rule(strs_bytes(conditions@), strs_bytes(actions@)).conditions);
        assert(r@.actions =~= spec_rule(strs_bytes(conditions@), strs_bytes(actions@)).actions);
    }
    r
}

// ---------------------------------------------------------------------------
// The records of a mapping
// ---------------------------------------------------------------------------

/// The records among parse results, in order; lines that are not records are left out.
pub open spec fn ok_records(rs: Seq<Result<RecordModel, Seq<u8>>>) -> Seq<RecordModel>
    decreases rs.len(),
{
    if rs.len() == 0 {
        Seq::empty()
    } else {
        let head = match rs[0] {
            Ok(r) => seq![r],
            Err(_) => Seq::empty(),
        };
        head + ok_records(rs.drop_first())
    }
}

/// The models of records.
pub open spec fn records_model(v: Seq<ProguardRecord>) -> Seq<RecordModel> {
    v.map_values(|r: ProguardRecord| r@)
}

/// The records of a mapping, in order.
pub open spec fn mapping_records(b: Seq<u8>) -> Seq<RecordModel> {
    ok_records(spec_records(b))
}

/// Reads all records of a mapping, leaving out the lines that are not records.
pub fn collect_records<'s>(mapping: &ProguardMapping<'s>) -> (r: Vec<ProguardRecord<'s>>)
    ensures
        records_model(r@) == mapping_records(mapping@),
{
    let mut out: Vec<ProguardRecord<'s>> = Vec::new();
    let mut iter = mapping.iter();
    loop
        invariant
            mapping_records(mapping@) == records_model(out@) + ok_records(spec_records(iter@)),
        ensures
            mapping_records(mapping@) == records_model(out@),
        decreases iter@.len(),
    {
        let ghost before = iter@;
        match iter.next() {
            None => {
                proof {
                    assert(spec_records(iter@) =~= Seq::<Result<RecordModel, Seq<u8>>>::empty());
                    assert(records_model(out@) + ok_records(spec_records(iter@)) =~= records_model(out@));
                }
                break;
            },
            Some(res) => {
                proof {
                    let all = spec_records(before);
                    assert(all.drop_first() =~= spec_records(iter@));
                    assert(all[0] == result_view(res));
                }
                match res {
                    Ok(rec) => {
                        out.push(rec);
                        proof {
                            assert(records_model(out@) =~= records_model(out@.drop_last()) + seq![rec@]);
                        }
                    },
                    Err(_) => {},
                }
                proof {
                    assert(mapping_records(mapping@) =~= records_model(out@) + ok_records(spec_records(iter@)));
                }
            },
        }
    }
    out
}

// ---------------------------------------------------------------------------
// Headers attached to a class or a method
// ---------------------------------------------------------------------------

/// The bytes `sourceFile`.
pub open spec fn source_file_key() -> Seq<u8> {
    seq![115u8, 111u8, 117u8, 114u8, 99u8, 101u8, 70u8, 105u8, 108u8, 101u8]
}

proof fn lemma_source_file_key()
    ensures
        "sourceFile".spec_bytes() == source_file_key(),
{
    reveal_strlit("sourceFile");
    broadcast use is_ascii_spec_bytes;
    assert(is_ascii("sourceFile"));
    assert("sourceFile".spec_bytes() =~= source_file_key());
}

/// The file that a source file header names.
pub open spec fn source_file_of(r: RecordModel) -> Option<Seq<u8>> {
    match r {
        RecordModel::Header { key, value: Some(v) } => if key == source_file_key() {
            Some(v)
        } else {
            None
        },
        _ => None,
    }
}

/// Whether a record is attached to the class or method before it.
pub open spec fn attachable(r: RecordModel) -> bool {
    r is R8Header || source_file_of(r) is Some
}

/// The end of the run of attachable records that starts at `j`.
pub open spec fn run_end(recs: Seq<RecordModel>, j: int) -> int
    decreases recs.len() - j,
{
    if j < 0 || j >= recs.len() || !attachable(recs[j]) {
        j
    } else {
        run_end(recs, j + 1)
    }
}

/// The last source file named in `recs[lo..j]`.
pub open spec fn run_source(recs: Seq<RecordModel>, lo: int, j: int) -> Option<Seq<u8>>
    decreases j - lo,
{
    if j <= lo {
        None
    } else {
        match source_file_of(recs[j - 1]) {
            Some(v) => Some(v),
            None => run_source(recs, lo, j - 1),
        }
    }
}

/// Whether `recs[lo..j]` says that the class or method was synthesized.
pub open spec fn run_synthesized(recs: Seq<RecordModel>, lo: int, j: int) -> bool
    decreases j - lo,
{
    if j <= lo {
        false
    } else {
        recs[j - 1] matches RecordModel::R8Header(R8HeaderModel::Synthesized) || run_synthesized(
            recs,
            lo,
            j - 1,
        )
    }
}

/// Whether `recs[lo..j]` says that the method is an outline.
pub open spec fn run_outline(recs: Seq<RecordModel>, lo: int, j: int) -> bool
    decreases j - lo,
{
    if j <= lo {
        false
    } else {
        recs[j - 1] matches RecordModel::R8Header(R8HeaderModel::Outline) || run_outline(
            recs,
            lo,
            j - 1,
        )
    }
}

/// The outline positions that parse as numbers, with the lines they map to.
pub open spec fn parse_positions(ps: Seq<(Seq<u8>, usize)>) -> Seq<(usize, usize)>
    decreases ps.len(),
{
    if ps.len() == 0 {
        Seq::empty()
    } else {
        let prev = parse_positions(ps.drop_last());
        match parse_usize_chars(decode_utf8(ps.last().0)) {
            Some(k) => prev.push((k, ps.last().1)),
            None => prev,
        }
    }
}

/// The positions of the last outline callsite header in `recs[lo..j]` that has any.
pub open spec fn run_positions(recs: Seq<RecordModel>, lo: int, j: int) -> Option<Seq<(usize, usize)>>
    decreases j - lo,
{
    if j <= lo {
        None
    } else {
        match recs[j - 1] {
            RecordModel::R8Header(R8HeaderModel::OutlineCallsite { positions, .. }) => if parse_positions(
                positions,
            ).len() > 0 {
                Some(parse_positions(positions))
            } else {
                run_positions(recs, lo, j - 1)
            },
            _ => run_positions(recs, lo, j - 1),
        }
    }
}

/// The rewrite rules in `recs[lo..j]`, in order.
pub open spec fn run_rules(recs: Seq<RecordModel>, lo: int, j: int) -> Seq<RuleModel>
    decreases j - lo,
{
    if j <= lo {
        Seq::empty()
    } else {
        let prev = run_rules(recs, lo, j - 1);
        match recs[j - 1] {
            RecordModel::R8Header(R8HeaderModel::RewriteFrame { conditions, actions }) => prev.push(
                spec_rule(conditions, actions),
            ),
            _ => prev,
        }
    }
}

/// What the headers attached to a class or a method say.
pub struct RunInfo<'s> {
    pub source_file: Option<&'s str>,
    pub synthesized: bool,
    pub outline: bool,
    pub positions: Option<Vec<(usize, usize)>>,
    pub rules: Vec<RewriteRule<'s>>,
}

/// The model of optional outline positions.
pub open spec fn positions_model(p: Option<Vec<(usize, usize)>>) -> Option<Seq<(usize, usize)>> {
    match p {
        Some(v) => Some(v@),
        None => None,
    }
}

/// The models of rules.
pub open spec fn rules_model(v: Seq<RewriteRule>) -> Seq<RuleModel> {
    v.map_values(|r: RewriteRule| r@)
}

/// Whether a run's information is what `recs[lo..e]` says.
pub open spec fn run_info_matches(info: RunInfo, recs: Seq<RecordModel>, lo: int, e: int) -> bool {
    &&& opt_bytes(info.source_file) == run_source(recs, lo, e)
    &&& info.synthesized == run_synthesized(recs, lo, e)
    &&& info.outline == run_outline(recs, lo, e)
    &&& positions_model(info.positions) == run_positions(recs, lo, e)
    &&& rules_model(info.rules@) == run_rules(recs, lo, e)
}

/// Whether a record is attached to the one before it.
fn is_attachable(r: &ProguardRecord) -> (b: bool)
    ensures
        b == attachable(r@),
{
    match r {
        ProguardRecord::R8Header(_) => true,
        ProguardRecord::Header { key, value } => {
            proof {
                lemma_source_file_key();
            }
            value.is_some() && str_eq(key, "sourceFile")
        },
        _ => false,
    }
}

/// Reads the outline positions that parse as numbers.
fn read_positions(positions: &Vec<(&str, usize)>) -> (r: Vec<(usize, usize)>)
    ensures
        r@ == parse_positions(pairs_bytes(positions@)),
{
    let ghost ps = pairs_bytes(positions@);
    let mut out: Vec<(usize, usize)> = Vec::new();
    let mut k: usize = 0;
    while k < positions.len()
        invariant
            k <= positions@.len(),
            ps == pairs_bytes(positions@),
            out@ == parse_positions(ps.subrange(0, k as int)),
        decreases positions@.len() - k,
    {
        let (key, line) = positions[k];
        proof {
            assert(ps.subrange(0, k + 1).drop_last() =~= ps.subrange(0, k as int));
            assert(ps.subrange(0, k + 1).last() == (key.spec_bytes(), line));
            encode_utf8_decode_utf8(key@);
        }
        match parse_usize_str(key) {
            Some(pos) => out.push((pos, line)),
            None => {},
        }
        k = k + 1;
    }
    proof {
        assert(ps.subrange(0, positions@.len() as int) =~= ps);
    }
    out
}

/// Reads the run of headers attached to the record before `lo`; returns
/// what they say and where the run ends.
fn read_run<'s>(recs: &Vec<ProguardRecord<'s>>, lo: usize) -> (r: (RunInfo<'s>, usize))
    requires
        lo <= recs@.len(),
    ensures
        r.1 == run_end(records_model(recs@), lo as int),
        lo <= r.1 <= recs@.len(),
        run_info_matches(r.0, records_model(recs@), lo as int, r.1 as int),
{
    let ghost rs = records_model(recs@);
    let mut info = RunInfo {
        source_file: None,
        synthesized: false,
        outline: false,
        positions: None,
        rules: Vec::new(),
    };
    let mut k = lo;
    proof {
        assert(rules_model(info.rules@) =~= Seq::<RuleModel>::empty());
    }
    while k < recs.len() && is_attachable(&recs[k])
        invariant
            lo <= k <= recs@.len(),
            rs == records_model(recs@),
            run_end(rs, lo as int) == run_end(rs, k as int),
            run_info_matches(info, rs, lo as int, k as int),
        decreases recs@.len() - k,
    {
        proof {
            assert(rs[k as int] == recs@[k as int]@);
        }
        match &recs[k] {
            ProguardRecord::Header { key: _, value } => {
                info.source_file = *value;
            },
            ProguardRecord::R8Header(h) => match h {
                R8Header::Synthesized => {
                    info.synthesized = true;
                },
                R8Header::Outline => {
                    info.outline = true;
                },
                R8Header::OutlineCallsite { positions, outline: _ } => {
                    let parsed = read_positions(positions);
                    if parsed.len() > 0 {
                        info.positions = Some(parsed);
                    }
                },
                R8Header::RewriteFrame { conditions, actions } => {
                    let rule = parse_rule(conditions, actions);
                    info.rules.push(rule);
                    proof {
                        assert(rules_model(info.rules@) =~= run_rules(rs, lo as int, k + 1));
                    }
                },
                R8Header::Other => {},
            },
            _ => {},
        }
        k = k + 1;
    }
    (info, k)
}

// ---------------------------------------------------------------------------
// Classes and members
// ---------------------------------------------------------------------------

/// A class, by bytes.
pub struct ClassModel {
    pub obfuscated: Seq<u8>,
    pub original: Seq<u8>,
    pub source_file: Option<Seq<u8>>,
    pub synthesized: bool,
}

/// A class record and what its headers say.
pub struct ClassEntry<'s> {
    /// The obfuscated name.
    pub obfuscated: &'s str,
    /// The original name.
    pub original: &'s str,
    /// The source file that a header names.
    pub source_file: Option<&'s str>,
    /// Whether a header says that the class was synthesized.
    pub synthesized: bool,
}

impl<'s> View for ClassEntry<'s> {
    type V = ClassModel;

    open spec fn view(&self) -> ClassModel {
        ClassModel {
            obfuscated: self.obfuscated.spec_bytes(),
            original: self.original.spec_bytes(),
            source_file: opt_bytes(self.source_file),
            synthesized: self.synthesized,
        }
    }
}

/// A method record and what its headers say, by bytes.
pub struct MemberModel {
    pub class_obfuscated: Seq<u8>,
    pub class_original: Seq<u8>,
    pub obfuscated: Seq<u8>,
    pub original: Seq<u8>,
    pub original_class: Option<Seq<u8>>,
    pub arguments: Seq<u8>,
    pub startline: usize,
    pub endline: usize,
    pub original_startline: usize,
    pub original_endline: Option<usize>,
    pub synthesized_here: bool,
    pub outline_here: bool,
    pub positions: Option<Seq<(usize, usize)>>,
    pub rules: Seq<RuleModel>,
    pub by_params: bool,
}

/// A method record of a class and what its headers say.
pub struct MemberEntry<'s> {
    /// The obfuscated name of the class it belongs to.
    pub class_obfuscated: &'s str,
    /// The original name of the class it belongs to.
    pub class_original: &'s str,
    /// The obfuscated method name.
    pub obfuscated: &'s str,
    /// The original method name.
    pub original: &'s str,
    /// The class of a method inlined from another class.
    pub original_class: Option<&'s str>,
    /// The arguments, as written.
    pub arguments: &'s str,
    /// The first obfuscated line (0 without line information).
    pub startline: usize,
    /// The last obfuscated line (0 without line information).
    pub endline: usize,
    /// The first original line.
    pub original_startline: usize,
    /// The last original line, where known.
    pub original_endline: Option<usize>,
    /// Whether a header of this record says that the method was synthesized.
    pub synthesized_here: bool,
    /// Whether a header of this record says that the method is an outline.
    pub outline_here: bool,
    /// Outline positions and the lines they map to.
    pub positions: Option<Vec<(usize, usize)>>,
    /// Frame rewrite rules.
    pub rules: Vec<RewriteRule<'s>>,
    /// Whether the record is used to map frames by their parameters.
    pub by_params: bool,
}

impl<'s> View for MemberEntry<'s> {
    type V = MemberModel;

    open spec fn view(&self) -> MemberModel {
        MemberModel {
            class_obfuscated: self.class_obfuscated.spec_bytes(),
            class_original: self.class_original.spec_bytes(),
            obfuscated: self.obfuscated.spec_bytes(),
            original: self.original.spec_bytes(),
            original_class: opt_bytes(self.original_class),
            arguments: self.arguments.spec_bytes(),
            startline: self.startline,
            endline: self.endline,
            original_startline: self.original_startline,
            original_endline: self.original_endline,
            synthesized_here: self.synthesized_here,
            outline_here: self.outline_here,
            positions: positions_model(self.positions),
            rules: rules_model(self.rules@),
            by_params: self.by_params,
        }
    }
}

/// The models of class entries.
pub open spec fn classes_model(v: Seq<ClassEntry>) -> Seq<ClassModel> {
    v.map_values(|c: ClassEntry| c@)
}

/// The models of member entries.
pub open spec fn members_model(v: Seq<MemberEntry>) -> Seq<MemberModel> {
    v.map_values(|m: MemberEntry| m@)
}

/// The position of the last class record before position `i`, or -1.
pub open spec fn last_class(recs: Seq<RecordModel>, i: int) -> int
    decreases i,
{
    if i <= 0 {
        -1
    } else if recs[i - 1] is Class {
        i - 1
    } else {
        last_class(recs, i - 1)
    }
}

proof fn lemma_last_class(recs: Seq<RecordModel>, i: int)
    requires
        0 <= i <= recs.len(),
    ensures
        -1 <= last_class(recs, i) < i,
        last_class(recs, i) >= 0 ==> recs[last_class(recs, i)] is Class,
    decreases i,
{
    if i > 0 && !(recs[i - 1] is Class) {
        lemma_last_class(recs, i - 1);
    }
}

/// The obfuscated and original names of a class record.
pub open spec fn class_names(r: RecordModel) -> (Seq<u8>, Seq<u8>) {
    match r {
        RecordModel::Class { original, obfuscated } => (obfuscated, original),
        _ => (Seq::empty(), Seq::empty()),
    }
}

/// The class that the class record at `i` declares.
pub open spec fn class_entry(recs: Seq<RecordModel>, i: int) -> ClassModel {
    let e = run_end(recs, i + 1);
    ClassModel {
        obfuscated: class_names(recs[i]).0,
        original: class_names(recs[i]).1,
        source_file: run_source(recs, i + 1, e),
        synthesized: run_synthesized(recs, i + 1, e),
    }
}

/// The obfuscated lines that a line mapping covers; `(0, 0)` without one.
pub open spec fn line_range(lm: Option<LineMapping>) -> (usize, usize) {
    match lm {
        Some(l) => (l.startline, l.endline),
        None => (0, 0),
    }
}

/// The original lines of a line mapping: without original lines the
/// obfuscated ones stand for them; without a line mapping, line 0.
pub open spec fn original_range(lm: Option<LineMapping>) -> (usize, Option<usize>) {
    match lm {
        Some(l) => match l.original_startline {
            Some(os) => (os, l.original_endline),
            None => (l.startline, Some(l.endline)),
        },
        None => (0, None),
    }
}

/// The line mapping of a method record.
pub open spec fn record_lines(r: RecordModel) -> Option<LineMapping> {
    match r {
        RecordModel::Method { line_mapping, .. } => line_mapping,
        _ => None,
    }
}

/// A method's obfuscated name, arguments and original name.
pub open spec fn method_key(r: RecordModel) -> (Seq<u8>, Seq<u8>, Seq<u8>) {
    match r {
        RecordModel::Method { obfuscated, arguments, original, .. } => (obfuscated, arguments, original),
        _ => (Seq::empty(), Seq::empty(), Seq::empty()),
    }
}

/// Whether the method record at `i` is followed (after its headers) by a
/// method record with the same obfuscated lines: it was inlined there.
pub open spec fn inlined(recs: Seq<RecordModel>, i: int) -> bool {
    let e = run_end(recs, i + 1);
    &&& e < recs.len()
    &&& record_lines(recs[i]) matches Some(cur)
    &&& recs[e] is Method
    &&& record_lines(recs[e]) matches Some(next)
    &&& cur.startline == next.startline
    &&& cur.endline == next.endline
}

/// The keys of the methods in `recs[c + 1..i]` that were not inlined.
pub open spec fn section_keys(recs: Seq<RecordModel>, c: int, i: int) -> Seq<(Seq<u8>, Seq<u8>, Seq<u8>)>
    decreases i - c,
{
    if i <= c + 1 {
        Seq::empty()
    } else {
        let prev = section_keys(recs, c, i - 1);
        if recs[i - 1] is Method && !inlined(recs, i - 1) {
            prev.push(method_key(recs[i - 1]))
        } else {
            prev
        }
    }
}

/// A member with nothing in it.
pub open spec fn empty_member() -> MemberModel {
    MemberModel {
        class_obfuscated: Seq::empty(),
        class_original: Seq::empty(),
        obfuscated: Seq::empty(),
        original: Seq::empty(),
        original_class: None,
        arguments: Seq::empty(),
        startline: 0,
        endline: 0,
        original_startline: 0,
        original_endline: None,
        synthesized_here: false,
        outline_here: false,
        positions: None,
        rules: Seq::empty(),
        by_params: false,
    }
}

/// The member that the method record at `i` declares. With `init`, a member
/// is used for mapping by parameters unless it was inlined or an earlier
/// member of its class has the same key.
pub open spec fn member_entry(recs: Seq<RecordModel>, init: bool, i: int) -> MemberModel {
    let c = last_class(recs, i);
    let e = run_end(recs, i + 1);
    match recs[i] {
        RecordModel::Method { original, obfuscated, arguments, original_class, line_mapping, .. } => {
            MemberModel {
                class_obfuscated: class_names(recs[c]).0,
                class_original: class_names(recs[c]).1,
                obfuscated,
                original,
                original_class,
                arguments,
                startline: line_range(line_mapping).0,
                endline: line_range(line_mapping).1,
                original_startline: original_range(line_mapping).0,
                original_endline: original_range(line_mapping).1,
                synthesized_here: run_synthesized(recs, i + 1, e),
                outline_here: run_outline(recs, i + 1, e),
                positions: run_positions(recs, i + 1, e),
                rules: run_rules(recs, i + 1, e),
                by_params: init && !inlined(recs, i) && !section_keys(recs, c, i).contains(
                    method_key(recs[i]),
                ),
            }
        },
        _ => empty_member(),
    }
}

/// The classes of `recs[..n]`, in order.
pub open spec fn class_table(recs: Seq<RecordModel>, n: int) -> Seq<ClassModel>
    decreases n,
{
    if n <= 0 {
        Seq::empty()
    } else if recs[n - 1] is Class {
        class_table(recs, n - 1).push(class_entry(recs, n - 1))
    } else {
        class_table(recs, n - 1)
    }
}

/// The members of `recs[..n]`, in order.
pub open spec fn member_table(recs: Seq<RecordModel>, init: bool, n: int) -> Seq<MemberModel>
    decreases n,
{
    if n <= 0 {
        Seq::empty()
    } else if recs[n - 1] is Method {
        member_table(recs, init, n - 1).push(member_entry(recs, init, n - 1))
    } else {
        member_table(recs, init, n - 1)
    }
}

/// Whether a method record comes before any class record; such a mapping
/// declares nothing.
pub open spec fn orphan_method(recs: Seq<RecordModel>) -> bool {
    exists|i: int| 0 <= i < recs.len() && recs[i] is Method && last_class(recs, i) < 0
}

/// The classes that the records declare.
pub open spec fn spec_classes(recs: Seq<RecordModel>) -> Seq<ClassModel> {
    if orphan_method(recs) {
        Seq::empty()
    } else {
        class_table(recs, recs.len() as int)
    }
}

/// The members that the records declare.
pub open spec fn spec_members(recs: Seq<RecordModel>, init: bool) -> Seq<MemberModel> {
    if orphan_method(recs) {
        Seq::empty()
    } else {
        member_table(recs, init, recs.len() as int)
    }
}

/// The byte model of method keys.
pub open spec fn keys_model(v: Seq<(&str, &str, &str)>) -> Seq<(Seq<u8>, Seq<u8>, Seq<u8>)> {
    v.map_values(|k: (&str, &str, &str)| (k.0.spec_bytes(), k.1.spec_bytes(), k.2.spec_bytes()))
}

/// Whether `keys` holds the given key.
fn contains_key(keys: &Vec<(&str, &str, &str)>, obfuscated: &str, arguments: &str, original: &str) -> (r: bool)
    ensures
        r == keys_model(keys@).contains(
            (obfuscated.spec_bytes(), arguments.spec_bytes(), original.spec_bytes()),
        ),
{
    let ghost key = (obfuscated.spec_bytes(), arguments.spec_bytes(), original.spec_bytes());
    let mut k: usize = 0;
    while k < keys.len()
        invariant
            k <= keys@.len(),
            key == (obfuscated.spec_bytes(), arguments.spec_bytes(), original.spec_bytes()),
            forall|j: int| 0 <= j < k ==> keys_model(keys@)[j] != key,
        decreases keys@.len() - k,
    {
        let (o, a, n) = keys[k];
        assert(keys_model(keys@)[k as int] == (o.spec_bytes(), a.spec_bytes(), n.spec_bytes()));
        if str_eq(o, obfuscated) && str_eq(a, arguments) && str_eq(n, original) {
            assert(keys_model(keys@)[k as int] == key);
            return true;
        }
        k = k + 1;
    }
    false
}

/// Whether the method record at `i`, whose headers end at `end`, was inlined.
fn is_inlined(recs: &Vec<ProguardRecord>, i: usize, end: usize) -> (r: bool)
    requires
        i < recs@.len(),
        end == run_end(records_model(recs@), i + 1),
    ensures
        r == inlined(records_model(recs@), i as int),
{
    let ghost rs = records_model(recs@);
    if end >= recs.len() {
        return false;
    }
    proof {
        assert(rs[i as int] == recs@[i as int]@);
        assert(rs[end as int] == recs@[end as int]@);
    }
    let cur = match &recs[i] {
        ProguardRecord::Method { line_mapping, .. } => *line_mapping,
        _ => None,
    };
    match cur {
        Some(cur) => match &recs[end] {
            ProguardRecord::Method { line_mapping: Some(next), .. } => cur.startline
                == next.startline && cur.endline == next.endline,
            _ => false,
        },
        None => false,
    }
}

/// Reads the classes and members that the records declare.
pub fn read_tables<'s>(recs: &Vec<ProguardRecord<'s>>, init: bool) -> (r: (
    Vec<ClassEntry<'s>>,
    Vec<MemberEntry<'s>>,
))
    ensures
        classes_model(r.0@) == spec_classes(records_model(recs@)),
        members_model(r.1@) == spec_members(records_model(recs@), init),
{
    let ghost rs = records_model(recs@);
    let mut classes: Vec<ClassEntry<'s>> = Vec::new();
    let mut members: Vec<MemberEntry<'s>> = Vec::new();
    let mut current: Option<(&'s str, &'s str)> = None;
    let mut keys: Vec<(&'s str, &'s str, &'s str)> = Vec::new();
    let mut i: usize = 0;
    proof {
        assert(classes_model(classes@) =~= class_table(rs, 0));
        assert(members_model(members@) =~= member_table(rs, init, 0));
        assert(keys_model(keys@) =~= section_keys(rs, last_class(rs, 0), 0));
    }
    while i < recs.len()
        invariant
            i <= recs@.len(),
            rs == records_model(recs@),
            classes_model(classes@) == class_table(rs, i as int),
            members_model(members@) == member_table(rs, init, i as int),
            forall|j: int| 0 <= j < i && rs[j] is Method ==> last_class(rs, j) >= 0,
            current is None <==> last_class(rs, i as int) < 0,
            current matches Some(c) ==> class_names(rs[last_class(rs, i as int)]) == (
                c.0.spec_bytes(),
                c.1.spec_bytes(),
            ),
            keys_model(keys@) == section_keys(rs, last_class(rs, i as int), i as int),
        decreases recs@.len() - i,
    {
        proof {
            assert(rs[i as int] == recs@[i as int]@);
            lemma_last_class(rs, i as int);
        }
        match &recs[i] {
            ProguardRecord::Class { original, obfuscated } => {
                let (run, _end) = read_run(recs, i + 1);
                let entry = ClassEntry {
                    obfuscated: *obfuscated,
                    original: *original,
                    source_file: run.source_file,
                    synthesized: run.synthesized,
                };
                classes.push(entry);
                current = Some((*obfuscated, *original));
                keys = Vec::new();
                proof {
                    assert(classes_model(classes@) =~= class_table(rs, i + 1));
                    assert(keys_model(keys@) =~= section_keys(rs, last_class(rs, i + 1), i + 1));
                }
            },
            ProguardRecord::Method {
                ty: _,
                original,
                obfuscated,
                arguments,
                original_class,
                line_mapping,
            } => {
                let (cls_obf, cls_orig) = match current {
                    Some(c) => c,
                    None => {
                        proof {
                            assert(rs[i as int] is Method && last_class(rs, i as int) < 0);
                            assert(orphan_method(rs));
                        }
                        return (Vec::new(), Vec::new());
                    },
                };
                let (run, end) = read_run(recs, i + 1);
                let inl = is_inlined(recs, i, end);
                let seen = contains_key(&keys, *obfuscated, *arguments, *original);
                let (startline, endline) = match line_mapping {
                    Some(l) => (l.startline, l.endline),
                    None => (0, 0),
                };
                let (original_startline, original_endline) = match line_mapping {
                    Some(l) => match l.original_startline {
                        Some(os) => (os, l.original_endline),
                        None => (l.startline, Some(l.endline)),
                    },
                    None => (0, None),
                };
                let entry = MemberEntry {
                    class_obfuscated: cls_obf,
                    class_original: cls_orig,
                    obfuscated: *obfuscated,
                    original: *original,
                    original_class: *original_class,
                    arguments: *arguments,
                    startline,
                    endline,
                    original_startline,
                    original_endline,
                    synthesized_here: run.synthesized,
                    outline_here: run.outline,
                    positions: run.positions,
                    rules: run.rules,
                    by_params: init && !inl && !seen,
                };
                proof {
                    assert(entry@ == member_entry(rs, init, i as int));
                }
                members.push(entry);
                if !inl {
                    keys.push((*obfuscated, *arguments, *original));
                }
                proof {
                    assert(members_model(members@) =~= member_table(rs, init, i + 1));
                    assert(keys_model(keys@) =~= section_keys(rs, last_class(rs, i + 1), i + 1));
                }
            },
            _ => {
                proof {
                    assert(keys_model(keys@) =~= section_keys(rs, last_class(rs, i + 1), i + 1));
                }
            },
        }
        i = i + 1;
    }
    proof {
        assert(!orphan_method(rs));
    }
    (classes, members)
}

} // verus!

//! Re-mapping of obfuscated classes, methods, frames and whole stack traces.
//!
//! A [`ProguardMapper`] holds the classes and members that a mapping
//! declares. Every query is specified over that model: a class is found by its
//! obfuscated name (the last class of that name wins), and the members of an
//! obfuscated method are the method records of that name under classes of
//! that obfuscated name, in the order of the file.

use vstd::prelude::*;
use vstd::string::*;

use crate::builder::{
    ActionModel, CondModel, RewriteAction, RewriteCondition, class_names, collect_records, mapping_records, members_model, read_tables, rules_model,
    spec_classes, spec_members, ClassEntry, ClassModel, MemberEntry, MemberModel, RewriteRule,
    RuleModel, classes_model,
};
use crate::mapping::{opt_bytes, ProguardMapping};
use crate::mapping::strip_prefix;
use crate::stacktrace::{
    parse_frame, parse_throwable, split_lines, starts_with_caused_by, lines_bytes, frame_string, frames_model, frames_string, lit, opt_throwable, spec_lines, spec_parse_frame,
    spec_parse_throwable, throwable_string, FrameModel, StackFrame, StackTrace, Throwable,
    ThrowableModel, TraceModel,
};
use crate::text::caused_by_bytes;
use crate::utils::dots_to_slashes;
use crate::text::{lemma_caused_by_bytes, new_string, push_str, split_at_ascii, str_eq, string_bytes};
use crate::utils::class_name_to_descriptor;
use crate::utils::{
    extract_class_name, spec_extract_class_name, spec_synthesize_source_file,
    synthesize_source_file,
};

verus! {

/// What a mapper knows: the classes and members of a mapping, by bytes.
pub struct MapperModel {
    pub classes: Seq<ClassModel>,
    pub members: Seq<MemberModel>,
}

/// The model of a mapping that `ProguardMapper` reads: its records, and
/// whether members are prepared for mapping by parameters.
pub open spec fn spec_mapper(source: Seq<u8>, init: bool) -> MapperModel {
    let recs = mapping_records(source);
    MapperModel { classes: spec_classes(recs), members: spec_members(recs, init) }
}

/// The last class with obfuscated name `c`.
pub open spec fn find_class(cs: Seq<ClassModel>, c: Seq<u8>) -> Option<ClassModel>
    decreases cs.len(),
{
    if cs.len() == 0 {
        None
    } else if cs.last().obfuscated == c {
        Some(cs.last())
    } else {
        find_class(cs.drop_last(), c)
    }
}

/// The source file of the last class with original name `name`.
pub open spec fn class_source(cs: Seq<ClassModel>, name: Seq<u8>) -> Option<Seq<u8>>
    decreases cs.len(),
{
    if cs.len() == 0 {
        None
    } else if cs.last().original == name {
        cs.last().source_file
    } else {
        class_source(cs.drop_last(), name)
    }
}

/// The class whose method a member is: its own class, or the class it was inlined from.
pub open spec fn receiver(m: MemberModel) -> Seq<u8> {
    match m.original_class {
        Some(c) => c,
        None => m.class_original,
    }
}

/// Whether two members are records of the same original method.
pub open spec fn same_method(a: MemberModel, b: MemberModel) -> bool {
    &&& receiver(a) == receiver(b)
    &&& a.original == b.original
    &&& a.arguments == b.arguments
}

/// Whether any record of the member's method says that it was synthesized.
pub open spec fn method_synthesized(ms: Seq<MemberModel>, m: MemberModel) -> bool {
    exists|k: int| 0 <= k < ms.len() && same_method(ms[k], m) && ms[k].synthesized_here
}

/// Whether any record of the member's method says that it is an outline.
pub open spec fn method_outline(ms: Seq<MemberModel>, m: MemberModel) -> bool {
    exists|k: int| 0 <= k < ms.len() && same_method(ms[k], m) && ms[k].outline_here
}

/// The file name that marks a synthesized class.
pub open spec fn synthetic_file() -> Seq<u8> {
    "R8$$SyntheticClass".spec_bytes()
}

/// The source file that the mapping gives for a member's receiver class:
/// its file, or, for a synthesized class, the receiver's outer class name.
pub open spec fn known_file(cs: Seq<ClassModel>, m: MemberModel) -> Option<Seq<u8>> {
    let recv = receiver(m);
    match class_source(cs, recv) {
        Some(f) => Some(
            if f == synthetic_file() {
                spec_extract_class_name(recv)
            } else {
                f
            },
        ),
        None => None,
    }
}

/// The source file inferred for a method inlined from a class whose file
/// the mapping does not give, where it gives the file of the class it was
/// inlined into: one made up from the receiver's name, with the extension
/// of that file.
pub open spec fn inferred_file(cs: Seq<ClassModel>, m: MemberModel) -> Option<Seq<u8>> {
    match known_file(cs, m) {
        Some(_) => None,
        None => match class_source(cs, m.class_original) {
            Some(o) => Some(spec_synthesize_source_file(receiver(m), Some(o))),
            None => None,
        },
    }
}

/// The file that R8 writes into frames whose source file it removed.
pub open spec fn placeholder_file() -> Seq<u8> {
    "SourceFile".spec_bytes()
}

/// A file name made up from the receiver's outer class name, as a Java file.
pub open spec fn guessed_file(m: MemberModel) -> Seq<u8> {
    spec_extract_class_name(receiver(m)) + ".java".spec_bytes()
}

/// The source file of a frame that a member maps a frame with file `file`
/// to. Where the mapping gives or implies a file, that one. Otherwise a
/// frame without a file stays without one; a frame with the placeholder
/// file keeps it, but has none in a method inlined from another class; and
/// a frame with any other file gets a name made up from the receiver.
pub open spec fn frame_file(cs: Seq<ClassModel>, m: MemberModel, file: Option<Seq<u8>>) -> Option<Seq<u8>> {
    match known_file(cs, m) {
        Some(k) => Some(k),
        None => match inferred_file(cs, m) {
            Some(i) => Some(i),
            None => match file {
                None => None,
                Some(f) => if f == placeholder_file() {
                    if m.original_class is Some {
                        None
                    } else {
                        Some(f)
                    }
                } else {
                    Some(guessed_file(m))
                },
            },
        },
    }
}

/// The error type of formatting; writing into a `String` never fails.
#[verifier::external_type_specification]
#[verifier::external_body]
pub struct ExFmtError(core::fmt::Error);

/// What the mapper knows of each member beyond its record.
pub struct Resolution {
    synthesized: bool,
    outline: bool,
    known: Option<String>,
    inferred: Option<String>,
    guessed: String,
}

/// A Proguard Remapper.
///
/// This can remap class names, stack frames one at a time, or the complete
/// raw stacktrace.
pub struct ProguardMapper<'s> {
    classes: Vec<ClassEntry<'s>>,
    members: Vec<MemberEntry<'s>>,
    resolved: Vec<Resolution>,
}

impl<'s> View for ProguardMapper<'s> {
    type V = MapperModel;

    closed spec fn view(&self) -> MapperModel {
        MapperModel { classes: classes_model(self.classes@), members: members_model(self.members@) }
    }
}

/// Whether `r` is what the mapper knows of member `k`.
pub closed spec fn resolution_ok(mm: MapperModel, k: int, r: Resolution) -> bool {
    &&& r.synthesized == method_synthesized(mm.members, mm.members[k])
    &&& r.outline == method_outline(mm.members, mm.members[k])
    &&& opt_string_bytes(r.known) == known_file(mm.classes, mm.members[k])
    &&& opt_string_bytes(r.inferred) == inferred_file(mm.classes, mm.members[k])
    &&& string_bytes(r.guessed) == guessed_file(mm.members[k])
}

/// The bytes of an optional owned string.
pub open spec fn opt_string_bytes(o: Option<String>) -> Option<Seq<u8>> {
    match o {
        Some(s) => Some(string_bytes(s)),
        None => None,
    }
}

/// An owned copy of a string slice.
fn owned(s: &str) -> (r: String)
    ensures
        string_bytes(r) == s.spec_bytes(),
{
    let mut out = new_string();
    push_str(&mut out, s);
    out
}

/// The source file of the last class with original name `name`.
pub(crate) fn find_source<'s>(classes: &Vec<ClassEntry<'s>>, name: &str) -> (r: Option<&'s str>)
    ensures
        opt_bytes(r) == class_source(classes_model(classes@), name.spec_bytes()),
{
    let ghost cs = classes_model(classes@);
    let mut k = classes.len();
    proof {
        assert(cs.subrange(0, k as int) =~= cs);
    }
    while k > 0
        invariant
            k <= classes@.len(),
            cs == classes_model(classes@),
            class_source(cs, name.spec_bytes()) == class_source(cs.subrange(0, k as int), name.spec_bytes()),
        decreases k,
    {
        proof {
            assert(cs.subrange(0, k as int).drop_last() =~= cs.subrange(0, k - 1));
            assert(cs.subrange(0, k as int).last() == classes@[k - 1]@);
        }
        if str_eq(classes[k - 1].original, name) {
            return classes[k - 1].source_file;
        }
        k = k - 1;
    }
    None
}

/// The source files that frames of a member may name.
fn resolve_file(classes: &Vec<ClassEntry>, m: &MemberEntry) -> (r: (Option<String>, Option<String>, String))
    ensures
        opt_string_bytes(r.0) == known_file(classes_model(classes@), m@),
        opt_string_bytes(r.1) == inferred_file(classes_model(classes@), m@),
        string_bytes(r.2) == guessed_file(m@),
{
    let recv = match m.original_class {
        Some(c) => c,
        None => m.class_original,
    };
    let outer = extract_class_name(recv).unwrap();
    let mut guessed = new_string();
    push_str(&mut guessed, outer);
    push_str(&mut guessed, ".java");
    let known = match find_source(classes, recv) {
        Some(f) => {
            if str_eq(f, "R8$$SyntheticClass") {
                Some(owned(outer))
            } else {
                Some(owned(f))
            }
        },
        None => None,
    };
    let inferred = match known {
        Some(_) => None,
        None => match find_source(classes, m.class_original) {
            Some(o) => Some(synthesize_source_file(recv, Some(o)).unwrap()),
            None => None,
        },
    };
    (known, inferred, guessed)
}

/// Whether two member entries are records of the same original method.
fn same_method_exec(a: &MemberEntry, b: &MemberEntry) -> (r: bool)
    ensures
        r == same_method(a@, b@),
{
    let ra = match a.original_class {
        Some(c) => c,
        None => a.class_original,
    };
    let rb = match b.original_class {
        Some(c) => c,
        None => b.class_original,
    };
    str_eq(ra, rb) && str_eq(a.original, b.original) && str_eq(a.arguments, b.arguments)
}

/// What the mapper knows of member `k` beyond its record.
fn resolve_mapping(classes: &Vec<ClassEntry>, members: &Vec<MemberEntry>, k: usize) -> (r: Resolution)
    requires
        k < members@.len(),
    ensures
        resolution_ok(
            MapperModel { classes: classes_model(classes@), members: members_model(members@) },
            k as int,
            r,
        ),
{
    let ghost ms = members_model(members@);
    let mut synthesized = false;
    let mut outline = false;
    let mut j: usize = 0;
    while j < members.len()
        invariant
            j <= members@.len(),
            k < members@.len(),
            ms == members_model(members@),
            synthesized <==> exists|i: int|
                0 <= i < j && same_method(ms[i], ms[k as int]) && ms[i].synthesized_here,
            outline <==> exists|i: int|
                0 <= i < j && same_method(ms[i], ms[k as int]) && ms[i].outline_here,
        decreases members@.len() - j,
    {
        proof {
            assert(ms[j as int] == members@[j as int]@);
            assert(ms[k as int] == members@[k as int]@);
        }
        let same = same_method_exec(&members[j], &members[k]);
        if same && members[j].synthesized_here {
            synthesized = true;
        }
        if same && members[j].outline_here {
            outline = true;
        }
        j = j + 1;
    }
    let (known, inferred, guessed) = resolve_file(classes, &members[k]);
    Resolution { synthesized, outline, known, inferred, guessed }
}

impl<'s> ProguardMapper<'s> {
    /// Every member is resolved.
    #[verifier::type_invariant]
    closed spec fn wf(self) -> bool {
        &&& self.resolved@.len() == self.members@.len()
        &&& forall|k: int|
            0 <= k < self.members@.len() ==> #[trigger] resolution_ok(self@, k, self.resolved@[k])
    }

    fn create_proguard_mapper(mapping: ProguardMapping<'s>, init: bool) -> (r: Self)
        ensures
            r@ == spec_mapper(mapping@, init),
    {
        let recs = collect_records(&mapping);
        let (classes, members) = read_tables(&recs, init);
        Self::from_tables(classes, members)
    }

    /// A mapper of the given classes and members.
    pub(crate) fn from_tables(classes: Vec<ClassEntry<'s>>, members: Vec<MemberEntry<'s>>) -> (r: Self)
        ensures
            r@ == (MapperModel { classes: classes_model(classes@), members: members_model(members@) }),
    {
        let ghost mm = MapperModel {
            classes: classes_model(classes@),
            members: members_model(members@),
        };
        let mut resolved: Vec<Resolution> = Vec::new();
        let mut k: usize = 0;
        while k < members.len()
            invariant
                k <= members@.len(),
                resolved@.len() == k,
                mm == (MapperModel { classes: classes_model(classes@), members: members_model(members@) }),
                forall|i: int| 0 <= i < k ==> #[trigger] resolution_ok(mm, i, resolved@[i]),
            decreases members@.len() - k,
        {
            let r = resolve_mapping(&classes, &members, k);
            resolved.push(r);
            k = k + 1;
        }
        ProguardMapper { classes, members, resolved }
    }

    /// Create a new ProguardMapper.
    pub fn new(mapping: ProguardMapping<'s>) -> (r: Self)
        ensures
            r@ == spec_mapper(mapping@, false),
    {
        Self::create_proguard_mapper(mapping, false)
    }

    /// Create a new ProguardMapper with the extra mappings_by_params.
    /// This is useful when we want to deobfuscate frames with missing
    /// line information
    pub fn new_with_param_mapping(mapping: ProguardMapping<'s>, initialize_param_mapping: bool) -> (r:
        Self)
        ensures
            r@ == spec_mapper(mapping@, initialize_param_mapping),
    {
        Self::create_proguard_mapper(mapping, initialize_param_mapping)
    }

    /// Creates a mapper from the text of a mapping file.
    pub fn from(s: &'s str) -> (r: Self)
        ensures
            r@ == spec_mapper(s.spec_bytes(), false),
    {
        Self::new(ProguardMapping::new(s.as_bytes()))
    }

    /// The index of the last class with obfuscated name `c`.
    fn class_index(&self, c: &str) -> (r: Option<usize>)
        ensures
            r is None ==> find_class(self@.classes, c.spec_bytes()) is None,
            r matches Some(k) ==> k < self@.classes.len() && find_class(self@.classes, c.spec_bytes())
                == Some(self@.classes[k as int]),
    {
        let ghost cs = self@.classes;
        let mut k = self.classes.len();
        proof {
            assert(cs.subrange(0, k as int) =~= cs);
        }
        while k > 0
            invariant
                k <= self.classes@.len(),
                cs == self@.classes,
                cs.len() == self.classes@.len(),
                find_class(cs, c.spec_bytes()) == find_class(cs.subrange(0, k as int), c.spec_bytes()),
            decreases k,
        {
            proof {
                assert(cs.subrange(0, k as int).drop_last() =~= cs.subrange(0, k - 1));
                assert(cs.subrange(0, k as int).last() == cs[k - 1]);
                assert(cs[k - 1] == self.classes@[k - 1]@);
            }
            if str_eq(self.classes[k - 1].obfuscated, c) {
                return Some(k - 1);
            }
            k = k - 1;
        }
        proof {
            assert(cs.subrange(0, 0) =~= Seq::<ClassModel>::empty());
        }
        None
    }

    /// The indices of the members of obfuscated method `meth` under classes
    /// with obfuscated name `c`, in order.
    fn group_indices(&self, c: &str, meth: &str) -> (r: Vec<usize>)
        ensures
            indices_below(r@, self@.members.len() as int),
            pick(self@.members, r@) == group(self@.members, c.spec_bytes(), meth.spec_bytes()),
    {
        let ghost ms = self@.members;
        let mut out: Vec<usize> = Vec::new();
        let mut k: usize = 0;
        while k < self.members.len()
            invariant
                k <= self.members@.len(),
                ms == self@.members,
                ms.len() == self.members@.len(),
                indices_below(out@, ms.len() as int),
                pick(ms, out@) == group(ms.subrange(0, k as int), c.spec_bytes(), meth.spec_bytes()),
            decreases self.members@.len() - k,
        {
            proof {
                assert(ms.subrange(0, k + 1).drop_last() =~= ms.subrange(0, k as int));
                assert(ms.subrange(0, k + 1).last() == ms[k as int]);
                assert(ms[k as int] == self.members@[k as int]@);
            }
            if str_eq(self.members[k].class_obfuscated, c) && str_eq(self.members[k].obfuscated, meth) {
                out.push(k);
                proof {
                    assert(pick(ms, out@) =~= pick(ms, out@.drop_last()).push(ms[k as int]));
                }
            }
            k = k + 1;
        }
        proof {
            assert(ms.subrange(0, ms.len() as int) =~= ms);
        }
        out
    }

    /// The indices among `idx` of members that map frames with parameters `p`.
    fn params_indices(&self, idx: &Vec<usize>, p: &str) -> (r: Vec<usize>)
        requires
            indices_below(idx@, self@.members.len() as int),
        ensures
            indices_below(r@, self@.members.len() as int),
            pick(self@.members, r@) == by_params(pick(self@.members, idx@), p.spec_bytes()),
    {
        let ghost ms = self@.members;
        let ghost g = pick(ms, idx@);
        let mut out: Vec<usize> = Vec::new();
        let mut j: usize = 0;
        while j < idx.len()
            invariant
                j <= idx@.len(),
                ms == self@.members,
                ms.len() == self.members@.len(),
                g == pick(ms, idx@),
                indices_below(idx@, ms.len() as int),
                indices_below(out@, ms.len() as int),
                pick(ms, out@) == by_params(g.subrange(0, j as int), p.spec_bytes()),
            decreases idx@.len() - j,
        {
            let k = idx[j];
            proof {
                assert(g.subrange(0, j + 1).drop_last() =~= g.subrange(0, j as int));
                assert(g.subrange(0, j + 1).last() == ms[k as int]);
                assert(ms[k as int] == self.members@[k as int]@);
            }
            if self.members[k].by_params && str_eq(self.members[k].arguments, p) {
                out.push(k);
                proof {
                    assert(pick(ms, out@) =~= pick(ms, out@.drop_last()).push(ms[k as int]));
                }
            }
            j = j + 1;
        }
        proof {
            assert(g.subrange(0, idx@.len() as int) =~= g);
        }
        out
    }

    /// The frame that member `k` maps a frame with a line to.
    fn map_member_with_lines<'a>(&'a self, k: usize, cls: &'a str, frame: &StackFrame<'a>) -> (r: StackFrame<'a>)
        requires
            k < self@.members.len(),
        ensures
            r@ == frame_with_lines(self@, frame@, cls.spec_bytes(), self@.members[k as int]),
    {
        proof {
            use_type_invariant(self);
            assert(resolution_ok(self@, k as int, self.resolved@[k as int]));
            assert(self@.members[k as int] == self.members@[k as int]@);
        }
        let m = &self.members[k];
        let res = &self.resolved[k];
        let class = match m.original_class {
            Some(c) => c,
            None => cls,
        };
        let line = match m.original_endline {
            None => m.original_startline,
            Some(oe) => if oe == m.original_startline {
                m.original_startline
            } else {
                m.original_startline.wrapping_add(frame.line().wrapping_sub(m.startline))
            },
        };
        let file: Option<&'a str> = match &res.known {
            Some(f) => Some(f.as_str()),
            None => match &res.inferred {
                Some(f) => Some(f.as_str()),
                None => match frame.file() {
                    None => None,
                    Some(f) => {
                        if str_eq(f, "SourceFile") {
                            if m.original_class.is_some() {
                                None
                            } else {
                                Some(f)
                            }
                        } else {
                            Some(res.guessed.as_str())
                        }
                    },
                },
            },
        };
        StackFrame::from_parts(class, m.original, line, file, frame.parameters(), res.synthesized)
    }

    /// The frame that member `k` maps a frame with parameters to.
    fn map_member_without_lines<'a>(&'a self, k: usize, cls: &'a str, frame: &StackFrame<'a>) -> (r: StackFrame<'a>)
        requires
            k < self@.members.len(),
        ensures
            r@ == frame_without_lines(self@, frame@, cls.spec_bytes(), self@.members[k as int]),
    {
        proof {
            use_type_invariant(self);
            assert(resolution_ok(self@, k as int, self.resolved@[k as int]));
            assert(self@.members[k as int] == self.members@[k as int]@);
        }
        let m = &self.members[k];
        let class = match m.original_class {
            Some(c) => c,
            None => cls,
        };
        StackFrame::from_parts(class, m.original, 0, None, frame.parameters(), self.resolved[k].synthesized)
    }

    /// Whether any of the members that `idx` picks has line information.
    fn any_line_info(&self, idx: &Vec<usize>) -> (r: bool)
        requires
            indices_below(idx@, self@.members.len() as int),
        ensures
            r == has_line_info(pick(self@.members, idx@)),
    {
        let ghost ms = self@.members;
        let ghost g = pick(ms, idx@);
        let mut j: usize = 0;
        while j < idx.len()
            invariant
                j <= idx@.len(),
                ms == self@.members,
                ms.len() == self.members@.len(),
                g == pick(ms, idx@),
                indices_below(idx@, ms.len() as int),
                forall|i: int| 0 <= i < j ==> !(#[trigger] g[i].endline > 0),
            decreases idx@.len() - j,
        {
            proof {
                assert(g[j as int] == ms[idx@[j as int] as int]);
                assert(ms[idx@[j as int] as int] == self.members@[idx@[j as int] as int]@);
            }
            if self.members[idx[j]].endline > 0 {
                assert(g[j as int].endline > 0);
                return true;
            }
            j = j + 1;
        }
        false
    }

    /// The frames that the members `idx` pick map a frame with a line to, and their rules.
    fn collect_with_lines<'a>(&'a self, idx: &Vec<usize>, cls: &'a str, frame: &StackFrame<'a>) -> (r: (
        Vec<StackFrame<'a>>,
        Vec<&'a RewriteRule<'s>>,
    ))
        requires
            indices_below(idx@, self@.members.len() as int),
        ensures
            (frames_model(r.0@), rule_refs_model(r.1@)) == collect_lines(
                self@,
                frame@,
                cls.spec_bytes(),
                pick(self@.members, idx@),
                frame@.line > 0 && has_line_info(pick(self@.members, idx@)),
            ),
    {
        let ghost ms = self@.members;
        let ghost g = pick(ms, idx@);
        let has_lines = frame.line() > 0 && self.any_line_info(idx);
        let mut frames: Vec<StackFrame<'a>> = Vec::new();
        let mut rules: Vec<&'a RewriteRule<'s>> = Vec::new();
        proof {
            assert(frames_model(frames@) =~= Seq::<FrameModel>::empty());
            assert(rule_refs_model(rules@) =~= Seq::<RuleModel>::empty());
        }
        let mut j: usize = 0;
        while j < idx.len()
            invariant
                j <= idx@.len(),
                ms == self@.members,
                ms.len() == self.members@.len(),
                g == pick(ms, idx@),
                indices_below(idx@, ms.len() as int),
                has_lines == (frame@.line > 0 && has_line_info(g)),
                (frames_model(frames@), rule_refs_model(rules@)) == collect_lines(
                    self@,
                    frame@,
                    cls.spec_bytes(),
                    g.subrange(0, j as int),
                    has_lines,
                ),
            decreases idx@.len() - j,
        {
            let k = idx[j];
            proof {
                assert(g.subrange(0, j + 1).drop_last() =~= g.subrange(0, j as int));
                assert(g.subrange(0, j + 1).last() == ms[k as int]);
                assert(ms[k as int] == self.members@[k as int]@);
            }
            let m = &self.members[k];
            let line = frame.line();
            let skip = has_lines && m.startline == 0 && m.endline == 0;
            let covered = m.endline == 0 || (m.startline <= line && line <= m.endline);
            if !skip && covered {
                let mapped = self.map_member_with_lines(k, cls, frame);
                frames.push(mapped);
                push_rules(&mut rules, &self.members[k].rules);
                proof {
                    assert(frames_model(frames@) =~= frames_model(frames@.drop_last()).push(mapped@));
                }
            }
            j = j + 1;
        }
        proof {
            assert(g.subrange(0, idx@.len() as int) =~= g);
        }
        (frames, rules)
    }

    /// The frames that the members `idx` pick map a frame with parameters to, and their rules.
    fn collect_with_params<'a>(&'a self, idx: &Vec<usize>, cls: &'a str, frame: &StackFrame<'a>) -> (r: (
        Vec<StackFrame<'a>>,
        Vec<&'a RewriteRule<'s>>,
    ))
        requires
            indices_below(idx@, self@.members.len() as int),
        ensures
            (frames_model(r.0@), rule_refs_model(r.1@)) == collect_params(
                self@,
                frame@,
                cls.spec_bytes(),
                pick(self@.members, idx@),
            ),
    {
        let ghost ms = self@.members;
        let ghost g = pick(ms, idx@);
        let mut frames: Vec<StackFrame<'a>> = Vec::new();
        let mut rules: Vec<&'a RewriteRule<'s>> = Vec::new();
        proof {
            assert(frames_model(frames@) =~= Seq::<FrameModel>::empty());
            assert(rule_refs_model(rules@) =~= Seq::<RuleModel>::empty());
        }
        let mut j: usize = 0;
        while j < idx.len()
            invariant
                j <= idx@.len(),
                ms == self@.members,
                ms.len() == self.members@.len(),
                g == pick(ms, idx@),
                indices_below(idx@, ms.len() as int),
                (frames_model(frames@), rule_refs_model(rules@)) == collect_params(
                    self@,
                    frame@,
                    cls.spec_bytes(),
                    g.subrange(0, j as int),
                ),
            decreases idx@.len() - j,
        {
            let k = idx[j];
            proof {
                assert(g.subrange(0, j + 1).drop_last() =~= g.subrange(0, j as int));
                assert(g.subrange(0, j + 1).last() == ms[k as int]);
                assert(ms[k as int] == self.members@[k as int]@);
            }
            let mapped = self.map_member_without_lines(k, cls, frame);
            frames.push(mapped);
            push_rules(&mut rules, &self.members[k].rules);
            proof {
                assert(frames_model(frames@) =~= frames_model(frames@.drop_last()).push(mapped@));
            }
            j = j + 1;
        }
        proof {
            assert(g.subrange(0, idx@.len() as int) =~= g);
        }
        (frames, rules)
    }

    /// The frames that an obfuscated frame maps to, and the rules of the
    /// members that map it.
    fn collect_remapped_frames<'a>(&'a self, frame: &StackFrame<'a>) -> (r: (Vec<StackFrame<'a>>, Vec<&'a RewriteRule<'s>>))
        ensures
            frames_model(r.0@) == spec_collect(self@, frame@).0,
            rule_refs_model(r.1@) == spec_collect(self@, frame@).1,
    {
        let cls: &'a str = match self.class_index(frame.class()) {
            Some(k) => self.classes[k].original,
            None => {
                let frames: Vec<StackFrame<'a>> = Vec::new();
                let rules: Vec<&'a RewriteRule<'s>> = Vec::new();
                proof {
                    assert(frames_model(frames@) =~= Seq::<FrameModel>::empty());
                    assert(rule_refs_model(rules@) =~= Seq::<RuleModel>::empty());
                }
                return (frames, rules);
            },
        };
        let idx = self.group_indices(frame.class(), frame.method());
        match frame.parameters() {
            None => self.collect_with_lines(&idx, cls, frame),
            Some(p) => {
                let pidx = self.params_indices(&idx, p);
                self.collect_with_params(&pidx, cls, frame)
            },
        }
    }

    /// Remaps a single Stackframe.
    ///
    /// Returns zero or more [`StackFrame`]s, based on the information in
    /// the proguard mapping. This can return more than one frame in the case
    /// of inlined functions. In that case, frames are sorted top to bottom.
    pub fn remap_frame<'a>(&'a self, frame: &StackFrame<'a>) -> (r: RemappedFrameIter<'a>)
        ensures
            r@ == spec_remap_frame(self@, frame@),
    {
        let (frames, _rules) = self.collect_remapped_frames(frame);
        let r = RemappedFrameIter { frames, next: 0 };
        proof {
            assert(r@ =~= spec_remap_frame(self@, frame@));
        }
        r
    }

    /// Whether a frame of obfuscated method `meth` of class `c` is in an outline.
    fn is_outline(&self, c: &str, meth: &str) -> (r: bool)
        ensures
            r == is_outline_frame(self@, c.spec_bytes(), meth.spec_bytes()),
    {
        proof {
            use_type_invariant(self);
        }
        match self.class_index(c) {
            None => false,
            Some(_) => {
                let idx = self.group_indices(c, meth);
                if idx.len() == 0 {
                    false
                } else {
                    let k = idx[0];
                    proof {
                        assert(resolution_ok(self@, k as int, self.resolved@[k as int]));
                        assert(pick(self@.members, idx@)[0] == self@.members[k as int]);
                    }
                    self.resolved[k].outline
                }
            },
        }
    }

    /// The line of a call site that outline position `pos` maps to.
    fn map_outline_position(&self, f: &StackFrame, pos: usize) -> (r: Option<usize>)
        ensures
            r == outline_position(self@, f@, pos),
    {
        let ghost ms = self@.members;
        match self.class_index(f.class()) {
            None => None,
            Some(_) => {
                let idx = self.group_indices(f.class(), f.method());
                let cands = match f.parameters() {
                    Some(p) => self.params_indices(&idx, p),
                    None => idx,
                };
                let ghost cs = pick(ms, cands@);
                let line = f.line();
                let mut j: usize = 0;
                proof {
                    assert(outline_position(self@, f@, pos) == first_position(cs, line, pos, 0));
                }
                while j < cands.len()
                    invariant
                        j <= cands@.len(),
                        outline_position(self@, f@, pos) == first_position(cs, line, pos, 0),
                        ms == self@.members,
                        ms.len() == self.members@.len(),
                        cs == pick(ms, cands@),
                        indices_below(cands@, ms.len() as int),
                        line == f@.line,
                        first_position(cs, line, pos, 0) == first_position(cs, line, pos, j as int),
                    decreases cands@.len() - j,
                {
                    let k = cands[j];
                    proof {
                        assert(cs[j as int] == ms[k as int]);
                        assert(ms[k as int] == self.members@[k as int]@);
                    }
                    let m = &self.members[k];
                    if m.endline == 0 || (m.startline <= line && line <= m.endline) {
                        match &m.positions {
                            Some(ps) => {
                                let found = lookup_pos(ps, pos);
                                if found.is_some() {
                                    return found;
                                }
                            },
                            None => {},
                        }
                    }
                    j = j + 1;
                }
                None
            },
        }
    }

    /// A frame with the line that a carried outline position maps to, where it maps.
    fn prepare_frame_for_mapping<'a>(&self, f: &StackFrame<'a>, carried: Option<usize>) -> (r: StackFrame<'a>)
        ensures
            r@ == prepare_frame(self@, f@, carried),
    {
        let line = match carried {
            Some(pos) => match self.map_outline_position(f, pos) {
                Some(l) => l,
                None => f.line(),
            },
            None => f.line(),
        };
        StackFrame::from_parts(f.class(), f.method(), line, f.file(), f.parameters(), f.method_synthesized())
    }

    /// The text state after an exception line.
    fn exception_step(&self, cur: TextCursor, line: &str, t: &Throwable, prefix: &str) -> (r: TextCursor)
        ensures
            cursor_model(r) == exception_line(
                self@,
                cursor_model(cur),
                line.spec_bytes(),
                t@,
                prefix.spec_bytes(),
            ),
    {
        proof {
            lemma_newline();
        }
        let ghost st = cursor_model(cur);
        let mut cur = cur;
        let remapped = self.remap_throwable(t);
        let class = match &remapped {
            Some(x) => {
                push_str(&mut cur.out, prefix);
                let text = x.to_string();
                push_str(&mut cur.out, text.as_str());
                x.class()
            },
            None => {
                push_str(&mut cur.out, line);
                t.class()
            },
        };
        push_str(&mut cur.out, "\n");
        cur.descriptor = Some(class_name_to_descriptor(class));
        cur.can_rewrite = true;
        proof {
            assert(string_bytes(cur.out) =~= exception_line(
                self@,
                st,
                line.spec_bytes(),
                t@,
                prefix.spec_bytes(),
            ).out);
        }
        cur
    }

    /// The text state after a frame line.
    fn frame_step(&self, cur: TextCursor, line: &str, f: &StackFrame) -> (r: TextCursor)
        ensures
            cursor_model(r) == frame_line(self@, cursor_model(cur), line.spec_bytes(), f@),
    {
        proof {
            lemma_newline();
        }
        let ghost st = cursor_model(cur);
        let mut cur = cur;
        if self.is_outline(f.class(), f.method()) {
            cur.carried = Some(f.line());
            return cur;
        }
        let effective = self.prepare_frame_for_mapping(f, cur.carried);
        let (frames, rules) = self.collect_remapped_frames(&effective);
        if frames.len() > 0 {
            let start = if cur.can_rewrite {
                let d = match &cur.descriptor {
                    Some(x) => Some(x.as_str()),
                    None => None,
                };
                apply_rewrite_rules(&rules, d, Ghost(frames_model(frames@)), frames.len())
            } else {
                0
            };
            proof {
                assert(frames_model(frames@).subrange(0, frames@.len() as int) =~= frames_model(frames@));
            }
            format_frames(&mut cur.out, &frames, start);
        } else {
            push_str(&mut cur.out, line);
            push_str(&mut cur.out, "\n");
        }
        cur.carried = None;
        cur.descriptor = None;
        cur.can_rewrite = false;
        proof {
            assert(string_bytes(cur.out) =~= frame_line(self@, st, line.spec_bytes(), f@).out);
        }
        cur
    }

    /// The text state after one more line.
    fn text_step(&self, cur: TextCursor, line: &str) -> (r: TextCursor)
        ensures
            cursor_model(r) == step_text(self@, cursor_model(cur), line.spec_bytes()),
    {
        proof {
            lemma_newline();
            lemma_caused_by_bytes();
        }
        match parse_throwable(line) {
            Some(t) => {
                proof {
                    assert("".spec_bytes() =~= Seq::<u8>::empty()) by {
                        reveal_strlit("");
                    }
                }
                self.exception_step(cur, line, &t, "")
            },
            None => match parse_frame(line) {
                Some(f) => self.frame_step(cur, line, &f),
                None => {
                    let b = line.as_bytes();
                    let caused = starts_with_caused_by(b);
                    if caused {
                        let (_head, rest) = split_at_ascii(line, 11);
                        match parse_throwable(rest) {
                            Some(c) => {
                                return self.exception_step(cur, line, &c, "Caused by: ");
                            },
                            None => {},
                        }
                    }
                    let ghost st = cursor_model(cur);
                    let mut cur = cur;
                    push_str(&mut cur.out, line);
                    push_str(&mut cur.out, "\n");
                    cur.descriptor = None;
                    cur.can_rewrite = false;
                    proof {
                        assert(string_bytes(cur.out) =~= plain_line(st, line.spec_bytes()).out);
                    }
                    cur
                },
            },
        }
    }

    /// Remaps a complete Java StackTrace, similar to [`Self::remap_stacktrace_typed`] but instead works on
    /// strings as input and output.
    pub fn remap_stacktrace(&self, input: &str) -> (r: Result<String, core::fmt::Error>)
        ensures
            r matches Ok(out) && string_bytes(out) == spec_remap_stacktrace(self@, input.spec_bytes()),
    {
        let lines = split_lines(input);
        let ghost ls = lines_bytes(lines@);
        let mut cur = TextCursor { out: new_string(), carried: None, descriptor: None, can_rewrite: false };
        let mut i: usize = 0;
        while i < lines.len()
            invariant
                i <= lines@.len(),
                ls == lines_bytes(lines@),
                ls == spec_lines(input.spec_bytes()),
                cursor_model(cur) == fold_text(self@, ls, i as int),
            decreases lines@.len() - i,
        {
            proof {
                assert(ls[i as int] == lines@[i as int].spec_bytes());
            }
            cur = self.text_step(cur, lines[i]);
            i = i + 1;
        }
        Ok(cur.out)
    }

    /// The frames of a typed stack trace remapped, with the exception
    /// descriptor `d` for rewrite rules.
    fn remap_frames<'a>(&'a self, frames: &[StackFrame<'a>], d: Option<&str>) -> (r: Vec<StackFrame<'a>>)
        ensures
            frames_model(r@) == fold_frames(self@, opt_bytes(d), frames_model(frames@), frames@.len() as int).out,
    {
        let ghost fm = frames_model(frames@);
        let ghost dm = opt_bytes(d);
        let mut out: Vec<StackFrame<'a>> = Vec::new();
        let mut carried: Option<usize> = None;
        let mut can_rewrite = d.is_some();
        let mut i: usize = 0;
        proof {
            assert(frames_model(out@) =~= Seq::<FrameModel>::empty());
        }
        while i < frames.len()
            invariant
                i <= frames@.len(),
                fm == frames_model(frames@),
                dm == opt_bytes(d),
                (FramesState { out: frames_model(out@), carried, can_rewrite }) == fold_frames(
                    self@,
                    dm,
                    fm,
                    i as int,
                ),
            decreases frames@.len() - i,
        {
            let f = &frames[i];
            proof {
                assert(fm[i as int] == f@);
            }
            let ghost before = frames_model(out@);
            if self.is_outline(f.class(), f.method()) {
                carried = Some(f.line());
            } else {
                let effective = self.prepare_frame_for_mapping(f, carried);
                let (mapped, rules) = self.collect_remapped_frames(&effective);
                if mapped.len() > 0 {
                    let start = if can_rewrite {
                        apply_rewrite_rules(&rules, d, Ghost(frames_model(mapped@)), mapped.len())
                    } else {
                        0
                    };
                    let ghost kept = frames_model(mapped@).subrange(start as int, mapped@.len() as int);
                    proof {
                        assert(frames_model(mapped@).subrange(0, mapped@.len() as int) =~= frames_model(mapped@));
                    }
                    let mut j = start;
                    while j < mapped.len()
                        invariant
                            start <= j <= mapped@.len(),
                            kept == frames_model(mapped@).subrange(start as int, mapped@.len() as int),
                            frames_model(out@) == before + frames_model(mapped@).subrange(start as int, j as int),
                        decreases mapped@.len() - j,
                    {
                        let g = &mapped[j];
                        let copy = StackFrame::from_parts(
                            g.class(),
                            g.method(),
                            g.line(),
                            g.file(),
                            g.parameters(),
                            g.method_synthesized(),
                        );
                        let ghost prev = out@;
                        out.push(copy);
                        proof {
                            assert(copy@ == mapped@[j as int]@);
                            assert(out@.drop_last() =~= prev);
                            assert(frames_model(out@) =~= frames_model(prev).push(copy@));
                            assert(frames_model(mapped@).subrange(start as int, j + 1) =~= frames_model(
                                mapped@,
                            ).subrange(start as int, j as int).push(mapped@[j as int]@));
                            assert(frames_model(out@) =~= before + frames_model(mapped@).subrange(start as int, j + 1));
                        }
                        j = j + 1;
                    }
                } else {
                    let copy = StackFrame::from_parts(
                        f.class(),
                        f.method(),
                        f.line(),
                        f.file(),
                        f.parameters(),
                        f.method_synthesized(),
                    );
                    out.push(copy);
                    proof {
                        assert(frames_model(out@) =~= before + seq![f@]);
                    }
                }
                carried = None;
                can_rewrite = false;
            }
            i = i + 1;
        }
        proof {
            assert(fm.subrange(0, frames@.len() as int) =~= fm);
        }
        out
    }

    /// Remaps a complete Java StackTrace.
    pub fn remap_stacktrace_typed<'a>(&'a self, trace: &StackTrace<'a>) -> (r: StackTrace<'a>)
        ensures
            r@ == spec_remap_trace(self@, trace@),
        decreases trace_depth(trace@),
    {
        let exception = match trace.exception() {
            Some(t) => self.remap_throwable(t),
            None => None,
        };
        let descriptor = match trace.exception() {
            Some(orig) => {
                let class = match &exception {
                    Some(x) => x.class(),
                    None => orig.class(),
                };
                Some(class_name_to_descriptor(class))
            },
            None => None,
        };
        let d = match &descriptor {
            Some(x) => Some(x.as_str()),
            None => None,
        };
        let frames = self.remap_frames(trace.frames(), d);
        match trace.cause() {
            Some(c) => {
                let cause = self.remap_stacktrace_typed(c);
                StackTrace::with_cause(exception, frames, cause)
            },
            None => StackTrace::new(exception, frames),
        }
    }

    /// Remaps an obfuscated Class.
    ///
    /// This works on the fully-qualified name of the class, with its complete
    /// module prefix.
    pub fn remap_class(&self, class: &str) -> (r: Option<&'s str>)
        ensures
            opt_bytes(r) == spec_remap_class(self@, class.spec_bytes()),
    {
        match self.class_index(class) {
            Some(k) => Some(self.classes[k].original),
            None => None,
        }
    }

    /// Remaps a throwable which is the first line of a full stacktrace.
    pub fn remap_throwable<'a>(&'a self, throwable: &Throwable<'a>) -> (r: Option<Throwable<'a>>)
        ensures
            opt_throwable(r) == spec_remap_throwable(self@, throwable@),
    {
        match self.remap_class(throwable.class()) {
            Some(class) => Some(Throwable::from_parts(class, throwable.message())),
            None => None,
        }
    }

    /// Remaps an obfuscated Class Method.
    ///
    /// The `class` argument has to be the fully-qualified obfuscated name of the
    /// class, with its complete module prefix.
    ///
    /// If the `method` can be resolved unambiguously, it will be returned
    /// alongside the remapped `class`, otherwise `None` is being returned.
    pub fn remap_method(&self, class: &str, method: &str) -> (r: Option<(&'s str, &'s str)>)
        ensures
            match r {
                Some((c, m)) => spec_remap_method(self@, class.spec_bytes(), method.spec_bytes())
                    == Some((c.spec_bytes(), m.spec_bytes())),
                None => spec_remap_method(self@, class.spec_bytes(), method.spec_bytes()) is None,
            },
    {
        let ghost ms = self@.members;
        let ghost g = group(ms, class.spec_bytes(), method.spec_bytes());
        let cls = match self.class_index(class) {
            Some(k) => self.classes[k].original,
            None => {
                return None;
            },
        };
        let idx = self.group_indices(class, method);
        if idx.len() == 0 {
            return None;
        }
        let first = self.members[idx[0]].original;
        proof {
            assert(g[0] == ms[idx@[0] as int]);
            assert(ms[idx@[0] as int] == self.members@[idx@[0] as int]@);
        }
        let mut j: usize = 1;
        while j < idx.len()
            invariant
                1 <= j <= idx@.len(),
                ms == self@.members,
                ms.len() == self.members@.len(),
                g == pick(ms, idx@),
                g == group(ms, class.spec_bytes(), method.spec_bytes()),
                find_class(self@.classes, class.spec_bytes()) is Some,
                indices_below(idx@, ms.len() as int),
                first.spec_bytes() == g[0].original,
                forall|i: int| 0 <= i < j ==> #[trigger] g[i].original == g[0].original,
            decreases idx@.len() - j,
        {
            let k = idx[j];
            proof {
                assert(g[j as int] == ms[k as int]);
                assert(ms[k as int] == self.members@[k as int]@);
            }
            if !str_eq(self.members[k].original, first) {
                proof {
                    assert(g[j as int].original != g[0].original);
                }
                return None;
            }
            j = j + 1;
        }
        Some((cls, first))
    }
}

/// A throwable with its class remapped, if the class is known.
pub open spec fn spec_remap_throwable(mm: MapperModel, t: ThrowableModel) -> Option<ThrowableModel> {
    match find_class(mm.classes, t.class) {
        Some(cl) => Some(ThrowableModel { class: cl.original, message: t.message }),
        None => None,
    }
}

/// The members of obfuscated method `meth` under classes with obfuscated
/// name `c`, in order.
pub open spec fn group(ms: Seq<MemberModel>, c: Seq<u8>, meth: Seq<u8>) -> Seq<MemberModel>
    decreases ms.len(),
{
    if ms.len() == 0 {
        Seq::empty()
    } else if ms.last().class_obfuscated == c && ms.last().obfuscated == meth {
        group(ms.drop_last(), c, meth).push(ms.last())
    } else {
        group(ms.drop_last(), c, meth)
    }
}

/// The members of a group that map frames with the parameters `p`.
pub open spec fn by_params(g: Seq<MemberModel>, p: Seq<u8>) -> Seq<MemberModel>
    decreases g.len(),
{
    if g.len() == 0 {
        Seq::empty()
    } else if g.last().by_params && g.last().arguments == p {
        by_params(g.drop_last(), p).push(g.last())
    } else {
        by_params(g.drop_last(), p)
    }
}

/// The original class and method of an obfuscated method, if all of its
/// records name the same original method.
pub open spec fn spec_remap_method(mm: MapperModel, c: Seq<u8>, meth: Seq<u8>) -> Option<(Seq<u8>, Seq<u8>)> {
    let g = group(mm.members, c, meth);
    match find_class(mm.classes, c) {
        Some(cl) => if g.len() > 0 && (forall|k: int| 0 <= k < g.len() ==> #[trigger] g[k].original == g[0].original) {
            Some((cl.original, g[0].original))
        } else {
            None
        },
        None => None,
    }
}

/// The members that indices pick.
pub open spec fn pick(ms: Seq<MemberModel>, idx: Seq<usize>) -> Seq<MemberModel> {
    idx.map_values(|k: usize| ms[k as int])
}

/// Whether all indices point into a sequence of length `n`.
pub open spec fn indices_below(idx: Seq<usize>, n: int) -> bool {
    forall|i: int| 0 <= i < idx.len() ==> #[trigger] idx[i] < n
}

/// `os + line - start`, as the machine computes it: wrapping around.
pub open spec fn wrapped_line(os: usize, line: usize, start: usize) -> usize {
    vstd::wrapping::usize_specs::wrapping_add(os, vstd::wrapping::usize_specs::wrapping_sub(line, start))
}

/// The original line of obfuscated line `line` in a member: a member with
/// a range of original lines maps lines one to one from its start, any other
/// member maps every line to its original start line.
pub open spec fn mapped_line(m: MemberModel, line: usize) -> usize {
    match m.original_endline {
        None => m.original_startline,
        Some(oe) => if oe == m.original_startline {
            m.original_startline
        } else {
            wrapped_line(m.original_startline, line, m.startline)
        },
    }
}

/// Whether a member covers an obfuscated line; a member without line
/// information covers every line.
pub open spec fn covers(m: MemberModel, line: usize) -> bool {
    m.endline == 0 || (m.startline <= line && line <= m.endline)
}

/// The class that a frame of a member is in.
pub open spec fn class_of(m: MemberModel, cls: Seq<u8>) -> Seq<u8> {
    match m.original_class {
        Some(c) => c,
        None => cls,
    }
}

/// The frame that a member maps a frame with a line to.
pub open spec fn frame_with_lines(mm: MapperModel, f: FrameModel, cls: Seq<u8>, m: MemberModel) -> FrameModel {
    FrameModel {
        class: class_of(m, cls),
        method: m.original,
        line: mapped_line(m, f.line),
        file: frame_file(mm.classes, m, f.file),
        parameters: f.parameters,
        method_synthesized: method_synthesized(mm.members, m),
    }
}

/// The frame that a member maps a frame with parameters to.
pub open spec fn frame_without_lines(mm: MapperModel, f: FrameModel, cls: Seq<u8>, m: MemberModel) -> FrameModel {
    FrameModel {
        class: class_of(m, cls),
        method: m.original,
        line: 0,
        file: None,
        parameters: f.parameters,
        method_synthesized: method_synthesized(mm.members, m),
    }
}

/// Whether some member of a group has line information.
pub open spec fn has_line_info(g: Seq<MemberModel>) -> bool {
    exists|k: int| 0 <= k < g.len() && #[trigger] g[k].endline > 0
}

/// Whether a member maps obfuscated line `line`; where `skip` holds, members
/// without line information (`0:0`) are left out.
pub open spec fn maps_line(m: MemberModel, line: usize, skip: bool) -> bool {
    &&& !(skip && m.startline == 0 && m.endline == 0)
    &&& covers(m, line)
}

/// The frames that the members of a group map a frame with a line to, and
/// the rewrite rules of those members.
pub open spec fn collect_lines(mm: MapperModel, f: FrameModel, cls: Seq<u8>, g: Seq<MemberModel>, skip: bool) -> (
    Seq<FrameModel>,
    Seq<RuleModel>,
)
    decreases g.len(),
{
    if g.len() == 0 {
        (Seq::empty(), Seq::empty())
    } else {
        let prev = collect_lines(mm, f, cls, g.drop_last(), skip);
        if maps_line(g.last(), f.line, skip) {
            (prev.0.push(frame_with_lines(mm, f, cls, g.last())), prev.1 + g.last().rules)
        } else {
            prev
        }
    }
}

/// The frames that members map a frame with parameters to, and their rules.
pub open spec fn collect_params(mm: MapperModel, f: FrameModel, cls: Seq<u8>, g: Seq<MemberModel>) -> (
    Seq<FrameModel>,
    Seq<RuleModel>,
)
    decreases g.len(),
{
    if g.len() == 0 {
        (Seq::empty(), Seq::empty())
    } else {
        let prev = collect_params(mm, f, cls, g.drop_last());
        (prev.0.push(frame_without_lines(mm, f, cls, g.last())), prev.1 + g.last().rules)
    }
}

/// The frames that an obfuscated frame maps to, innermost first, and the
/// rewrite rules of the members that map it. A frame with parameters is
/// mapped by the members for those parameters, without lines. A frame with
/// a line is not mapped by `0:0` members of a method that has members with
/// line ranges.
pub open spec fn spec_collect(mm: MapperModel, f: FrameModel) -> (Seq<FrameModel>, Seq<RuleModel>) {
    match find_class(mm.classes, f.class) {
        None => (Seq::empty(), Seq::empty()),
        Some(cl) => {
            let g = group(mm.members, f.class, f.method);
            match f.parameters {
                None => collect_lines(mm, f, cl.original, g, f.line > 0 && has_line_info(g)),
                Some(p) => collect_params(mm, f, cl.original, by_params(g, p)),
            }
        },
    }
}

/// The frames that an obfuscated frame maps to, innermost first.
pub open spec fn spec_remap_frame(mm: MapperModel, f: FrameModel) -> Seq<FrameModel> {
    spec_collect(mm, f).0
}

/// The models of borrowed rules.
pub open spec fn rule_refs_model(v: Seq<&RewriteRule>) -> Seq<RuleModel> {
    v.map_values(|r: &RewriteRule| r@)
}

/// Appends borrowed rules.
fn push_rules<'a, 's>(out: &mut Vec<&'a RewriteRule<'s>>, rules: &'a Vec<RewriteRule<'s>>)
    ensures
        rule_refs_model(final(out)@) == rule_refs_model(old(out)@) + rules_model(rules@),
{
    let ghost base = rule_refs_model(out@);
    let mut i: usize = 0;
    while i < rules.len()
        invariant
            i <= rules@.len(),
            rule_refs_model(out@) == base + rules_model(rules@).subrange(0, i as int),
        decreases rules@.len() - i,
    {
        let r = &rules[i];
        let ghost before = out@;
        out.push(r);
        proof {
            assert(r@ == rules@[i as int]@);
            assert(out@.drop_last() =~= before);
            assert(rule_refs_model(out@) =~= rule_refs_model(before).push(r@));
            assert(rules_model(rules@).subrange(0, i + 1) =~= rules_model(rules@).subrange(0, i as int).push(r@));
            assert(rule_refs_model(out@) =~= base + rules_model(rules@).subrange(0, i + 1));
        }
        i = i + 1;
    }
    proof {
        assert(rules_model(rules@).subrange(0, rules@.len() as int) =~= rules_model(rules@));
    }
}

/// An Iterator over remapped StackFrames.
pub struct RemappedFrameIter<'m> {
    frames: Vec<StackFrame<'m>>,
    next: usize,
}

impl<'m> View for RemappedFrameIter<'m> {
    type V = Seq<FrameModel>;

    /// The frames that are left.
    closed spec fn view(&self) -> Seq<FrameModel> {
        frames_model(self.frames@).subrange(self.next as int, self.frames@.len() as int)
    }
}

impl<'m> RemappedFrameIter<'m> {
    #[verifier::type_invariant]
    closed spec fn wf(self) -> bool {
        self.next <= self.frames@.len()
    }

    /// The next remapped frame.
    pub fn next(&mut self) -> (r: Option<StackFrame<'m>>)
        ensures
            old(self)@.len() == 0 ==> r is None && final(self)@ == old(self)@,
            old(self)@.len() > 0 ==> (r matches Some(f) && f@ == old(self)@[0] && final(self)@
                == old(self)@.drop_first()),
    {
        proof {
            use_type_invariant(&*self);
        }
        if self.next >= self.frames.len() {
            return None;
        }
        let f = &self.frames[self.next];
        let out = StackFrame::from_parts(
            f.class(),
            f.method(),
            f.line(),
            f.file(),
            f.parameters(),
            f.method_synthesized(),
        );
        proof {
            assert(out@ == frames_model(self.frames@)[self.next as int]);
        }
        self.next = self.next + 1;
        proof {
            assert(self@ =~= old(self)@.drop_first());
        }
        Some(out)
    }
}

/// Whether a rule condition holds for the exception descriptor `d`.
pub open spec fn condition_holds(c: CondModel, d: Option<Seq<u8>>) -> bool {
    match c {
        CondModel::Throws(x) => d == Some(x),
        CondModel::Unknown(_) => false,
    }
}

/// Whether all conditions of a rule hold.
pub open spec fn rule_matches(r: RuleModel, d: Option<Seq<u8>>) -> bool {
    forall|k: int| 0 <= k < r.conditions.len() ==> #[trigger] condition_holds(r.conditions[k], d)
}

/// The frames after the actions `acts[i..]`, in order: removing inner
/// frames drops them from the front, all of them when there are not more.
pub open spec fn apply_actions(frames: Seq<FrameModel>, acts: Seq<ActionModel>, i: int) -> Seq<FrameModel>
    decreases acts.len() - i,
{
    if i < 0 || i >= acts.len() {
        frames
    } else {
        let next = match acts[i] {
            ActionModel::RemoveInnerFrames(c) => if c >= frames.len() {
                Seq::empty()
            } else {
                frames.subrange(c as int, frames.len() as int)
            },
            ActionModel::Unknown(_) => frames,
        };
        apply_actions(next, acts, i + 1)
    }
}

/// The frames after the rules `rules[i..]`: each rule whose conditions hold
/// applies its actions, until no frame is left.
pub open spec fn apply_rules(frames: Seq<FrameModel>, rules: Seq<RuleModel>, d: Option<Seq<u8>>, i: int) -> Seq<
    FrameModel,
>
    decreases rules.len() - i,
{
    if i < 0 || i >= rules.len() {
        frames
    } else if !rule_matches(rules[i], d) {
        apply_rules(frames, rules, d, i + 1)
    } else {
        let next = apply_actions(frames, rules[i].actions, 0);
        if next.len() == 0 {
            next
        } else {
            apply_rules(next, rules, d, i + 1)
        }
    }
}

/// Whether a frame is in an outline: the first member of its method is an outline.
pub open spec fn is_outline_frame(mm: MapperModel, c: Seq<u8>, meth: Seq<u8>) -> bool {
    let g = group(mm.members, c, meth);
    &&& find_class(mm.classes, c) is Some
    &&& g.len() > 0
    &&& method_outline(mm.members, g[0])
}

/// The line that the last pair for outline position `pos` maps to.
pub open spec fn lookup_position(ps: Seq<(usize, usize)>, pos: usize) -> Option<usize>
    decreases ps.len(),
{
    if ps.len() == 0 {
        None
    } else if ps.last().0 == pos {
        Some(ps.last().1)
    } else {
        lookup_position(ps.drop_last(), pos)
    }
}

/// The line that a member covering `line` maps outline position `pos` to.
pub open spec fn member_position(m: MemberModel, line: usize, pos: usize) -> Option<usize> {
    if covers(m, line) {
        match m.positions {
            Some(ps) => lookup_position(ps, pos),
            None => None,
        }
    } else {
        None
    }
}

/// The first of `cs[i..]` that maps outline position `pos` at `line`.
pub open spec fn first_position(cs: Seq<MemberModel>, line: usize, pos: usize, i: int) -> Option<usize>
    decreases cs.len() - i,
{
    if i < 0 || i >= cs.len() {
        None
    } else {
        match member_position(cs[i], line, pos) {
            Some(v) => Some(v),
            None => first_position(cs, line, pos, i + 1),
        }
    }
}

/// The line of a call site that an outline position maps to.
pub open spec fn outline_position(mm: MapperModel, f: FrameModel, pos: usize) -> Option<usize> {
    let g = group(mm.members, f.class, f.method);
    let cands = match f.parameters {
        Some(p) => by_params(g, p),
        None => g,
    };
    match find_class(mm.classes, f.class) {
        Some(_) => first_position(cands, f.line, pos, 0),
        None => None,
    }
}

/// A frame with the line that a carried outline position maps to, where it maps.
pub open spec fn prepare_frame(mm: MapperModel, f: FrameModel, carried: Option<usize>) -> FrameModel {
    match carried {
        Some(pos) => match outline_position(mm, f, pos) {
            Some(line) => FrameModel { line, ..f },
            None => f,
        },
        None => f,
    }
}

/// The JVM descriptor of a class name.
pub open spec fn descriptor_of(class: Seq<u8>) -> Seq<u8> {
    lit("L") + dots_to_slashes(class) + lit(";")
}

/// The frames of a remapped frame that are kept: with `rewrite`, after the
/// rules of the members that map it.
pub open spec fn kept_frames(fs: Seq<FrameModel>, rules: Seq<RuleModel>, d: Option<Seq<u8>>, rewrite: bool) -> Seq<
    FrameModel,
> {
    if rewrite {
        apply_rules(fs, rules, d, 0)
    } else {
        fs
    }
}

/// The state of remapping a stack trace line by line: the text so far, an
/// outline position carried to the next frame, the descriptor of the last
/// exception and whether the next frame may be rewritten.
pub struct TextState {
    pub out: Seq<u8>,
    pub carried: Option<usize>,
    pub descriptor: Option<Seq<u8>>,
    pub can_rewrite: bool,
}

/// The bytes `\n`.
pub open spec fn newline() -> Seq<u8> {
    seq![10u8]
}

/// The state after a line that is no throwable and no frame.
pub open spec fn plain_line(st: TextState, line: Seq<u8>) -> TextState {
    TextState { out: st.out + line + newline(), carried: st.carried, descriptor: None, can_rewrite: false }
}

/// The state after an exception line.
pub open spec fn exception_line(mm: MapperModel, st: TextState, line: Seq<u8>, t: ThrowableModel, prefix: Seq<u8>) -> TextState {
    let rt = spec_remap_throwable(mm, t);
    let shown = match rt {
        Some(x) => prefix + throwable_string(x),
        None => line,
    };
    let cls = match rt {
        Some(x) => x.class,
        None => t.class,
    };
    TextState {
        out: st.out + shown + newline(),
        carried: st.carried,
        descriptor: Some(descriptor_of(cls)),
        can_rewrite: true,
    }
}

/// The frames that are not of synthesized methods, in order.
pub open spec fn real_frames(fs: Seq<FrameModel>) -> Seq<FrameModel>
    decreases fs.len(),
{
    if fs.len() == 0 {
        Seq::empty()
    } else if fs.last().method_synthesized {
        real_frames(fs.drop_last())
    } else {
        real_frames(fs.drop_last()).push(fs.last())
    }
}

/// The state after a frame line: the frames it remaps to, those of
/// synthesized methods left out, or the line itself where it remaps to
/// nothing.
pub open spec fn frame_line(mm: MapperModel, st: TextState, line: Seq<u8>, f: FrameModel) -> TextState {
    if is_outline_frame(mm, f.class, f.method) {
        TextState { carried: Some(f.line), ..st }
    } else {
        let (fs, rules) = spec_collect(mm, prepare_frame(mm, f, st.carried));
        let shown = if fs.len() > 0 {
            frames_string(real_frames(kept_frames(fs, rules, st.descriptor, st.can_rewrite)))
        } else {
            line + newline()
        };
        TextState { out: st.out + shown, carried: None, descriptor: None, can_rewrite: false }
    }
}

/// The state after one more line of a stack trace.
pub open spec fn step_text(mm: MapperModel, st: TextState, line: Seq<u8>) -> TextState {
    match spec_parse_throwable(line) {
        Some(t) => exception_line(mm, st, line, t, Seq::empty()),
        None => match spec_parse_frame(line) {
            Some(f) => frame_line(mm, st, line, f),
            None => match strip_prefix(line, caused_by_bytes()) {
                Some(rest) => match spec_parse_throwable(rest) {
                    Some(c) => exception_line(mm, st, line, c, caused_by_bytes()),
                    None => plain_line(st, line),
                },
                None => plain_line(st, line),
            },
        },
    }
}

/// The state before any line.
pub open spec fn initial_text() -> TextState {
    TextState { out: Seq::empty(), carried: None, descriptor: None, can_rewrite: false }
}

/// The state after the first `n` lines.
pub open spec fn fold_text(mm: MapperModel, lines: Seq<Seq<u8>>, n: int) -> TextState
    decreases n,
{
    if n <= 0 {
        initial_text()
    } else {
        step_text(mm, fold_text(mm, lines, n - 1), lines[n - 1])
    }
}

/// A stack trace, given as text, with every line that can be remapped remapped.
pub open spec fn spec_remap_stacktrace(mm: MapperModel, input: Seq<u8>) -> Seq<u8> {
    let lines = spec_lines(input);
    fold_text(mm, lines, lines.len() as int).out
}

/// The state of remapping the frames of a typed stack trace.
pub struct FramesState {
    pub out: Seq<FrameModel>,
    pub carried: Option<usize>,
    pub can_rewrite: bool,
}

/// The state after one more frame.
pub open spec fn step_frames(mm: MapperModel, d: Option<Seq<u8>>, st: FramesState, f: FrameModel) -> FramesState {
    if is_outline_frame(mm, f.class, f.method) {
        FramesState { carried: Some(f.line), ..st }
    } else {
        let (fs, rules) = spec_collect(mm, prepare_frame(mm, f, st.carried));
        let added = if fs.len() > 0 {
            kept_frames(fs, rules, d, st.can_rewrite)
        } else {
            seq![f]
        };
        FramesState { out: st.out + added, carried: None, can_rewrite: false }
    }
}

/// The state after the first `n` frames.
pub open spec fn fold_frames(mm: MapperModel, d: Option<Seq<u8>>, frames: Seq<FrameModel>, n: int) -> FramesState
    decreases n,
{
    if n <= 0 {
        FramesState { out: Seq::empty(), carried: None, can_rewrite: d is Some }
    } else {
        step_frames(mm, d, fold_frames(mm, d, frames, n - 1), frames[n - 1])
    }
}

/// A typed stack trace with its exceptions and frames remapped; an exception
/// whose class is not known is left out.
pub open spec fn spec_remap_trace(mm: MapperModel, t: TraceModel) -> TraceModel
    decreases t,
{
    let ex = match t.exception {
        Some(e) => spec_remap_throwable(mm, e),
        None => None,
    };
    let d = match t.exception {
        Some(orig) => Some(descriptor_of(match ex {
            Some(x) => x.class,
            None => orig.class,
        })),
        None => None,
    };
    TraceModel {
        exception: ex,
        frames: fold_frames(mm, d, t.frames, t.frames.len() as int).out,
        cause: match t.cause {
            Some(c) => Some(Box::new(spec_remap_trace(mm, *c))),
            None => None,
        },
    }
}

/// Whether a rule's conditions hold for the exception descriptor `d`.
fn rule_applies(rule: &RewriteRule, d: Option<&str>) -> (r: bool)
    ensures
        r == rule_matches(rule@, opt_bytes(d)),
{
    let mut k: usize = 0;
    while k < rule.conditions.len()
        invariant
            k <= rule.conditions@.len(),
            forall|i: int| 0 <= i < k ==> #[trigger] condition_holds(rule@.conditions[i], opt_bytes(d)),
        decreases rule.conditions@.len() - k,
    {
        proof {
            assert(rule@.conditions[k as int] == rule.conditions@[k as int]@);
        }
        let holds = match rule.conditions[k] {
            RewriteCondition::Throws(x) => match d {
                Some(dd) => str_eq(x, dd),
                None => false,
            },
            RewriteCondition::Unknown(_) => false,
        };
        if !holds {
            assert(!condition_holds(rule@.conditions[k as int], opt_bytes(d)));
            return false;
        }
        k = k + 1;
    }
    true
}

/// Where the kept frames start after the actions of a rule, for the frames
/// `fs[start..]`.
fn skip_by_actions(acts: &Vec<RewriteAction>, Ghost(fs): Ghost<Seq<FrameModel>>, len: usize, start: usize) -> (r: usize)
    requires
        len == fs.len(),
        start <= fs.len(),
    ensures
        start <= r <= fs.len(),
        apply_actions(fs.subrange(start as int, fs.len() as int), acts@.map_values(|a: RewriteAction| a@), 0)
            == fs.subrange(r as int, fs.len() as int),
{
    let ghost am = acts@.map_values(|a: RewriteAction| a@);
    let n = len;
    let mut cur = start;
    let mut i: usize = 0;
    while i < acts.len()
        invariant
            i <= acts@.len(),
            start <= cur <= n,
            n == fs.len(),
            am == acts@.map_values(|a: RewriteAction| a@),
            apply_actions(fs.subrange(start as int, n as int), am, 0) == apply_actions(
                fs.subrange(cur as int, n as int),
                am,
                i as int,
            ),
        decreases acts@.len() - i,
    {
        proof {
            assert(am[i as int] == acts@[i as int]@);
        }
        let ghost before = fs.subrange(cur as int, n as int);
        match acts[i] {
            RewriteAction::RemoveInnerFrames(c) => {
                if c >= n - cur {
                    cur = n;
                    proof {
                        assert(fs.subrange(cur as int, n as int) =~= Seq::<FrameModel>::empty());
                    }
                } else {
                    cur = cur + c;
                    proof {
                        assert(before.subrange(c as int, before.len() as int) =~= fs.subrange(cur as int, n as int));
                    }
                }
            },
            RewriteAction::Unknown(_) => {},
        }
        i = i + 1;
    }
    cur
}

/// Where the kept frames start after the rules, for the frames `fs`.
fn apply_rewrite_rules(rules: &Vec<&RewriteRule>, d: Option<&str>, Ghost(fs): Ghost<Seq<FrameModel>>, len: usize) -> (r: usize)
    requires
        len == fs.len(),
    ensures
        r <= fs.len(),
        apply_rules(fs, rule_refs_model(rules@), opt_bytes(d), 0) == fs.subrange(r as int, fs.len() as int),
{
    let ghost rm = rule_refs_model(rules@);
    let mut cur: usize = 0;
    let mut i: usize = 0;
    proof {
        assert(fs.subrange(0, len as int) =~= fs);
    }
    while i < rules.len()
        invariant
            i <= rules@.len(),
            cur <= len,
            len == fs.len(),
            rm == rule_refs_model(rules@),
            apply_rules(fs, rm, opt_bytes(d), 0) == apply_rules(
                fs.subrange(cur as int, len as int),
                rm,
                opt_bytes(d),
                i as int,
            ),
        decreases rules@.len() - i,
    {
        let rule = rules[i];
        proof {
            assert(rm[i as int] == rule@);
            assert(rule@.actions == rule.actions@.map_values(|a: RewriteAction| a@));
        }
        if rule_applies(rule, d) {
            let next = skip_by_actions(&rule.actions, Ghost(fs), len, cur);
            cur = next;
            if cur == len {
                proof {
                    assert(fs.subrange(cur as int, len as int) =~= Seq::<FrameModel>::empty());
                }
                return cur;
            }
        }
        i = i + 1;
    }
    cur
}

/// Appends the text form of the frames `frames[start..]`, one indented line each.
fn format_frames(out: &mut String, frames: &Vec<StackFrame>, start: usize)
    requires
        start <= frames@.len(),
    ensures
        string_bytes(*final(out)) == string_bytes(*old(out)) + frames_string(
            real_frames(frames_model(frames@).subrange(start as int, frames@.len() as int)),
        ),
{
    let ghost base = string_bytes(*out);
    let ghost fm = frames_model(frames@);
    let mut j = start;
    proof {
        assert(fm.subrange(start as int, start as int) =~= Seq::<FrameModel>::empty());
        assert(string_bytes(*out) =~= base + frames_string(
            real_frames(fm.subrange(start as int, start as int)),
        ));
    }
    while j < frames.len()
        invariant
            start <= j <= frames@.len(),
            fm == frames_model(frames@),
            string_bytes(*out) == base + frames_string(real_frames(fm.subrange(start as int, j as int))),
        decreases frames@.len() - j,
    {
        let ghost prev = real_frames(fm.subrange(start as int, j as int));
        proof {
            assert(fm.subrange(start as int, j + 1).drop_last() =~= fm.subrange(start as int, j as int));
            assert(fm.subrange(start as int, j + 1).last() == frames@[j as int]@);
        }
        if !frames[j].method_synthesized() {
            let text = frames[j].to_string();
            push_str(out, "    ");
            push_str(out, text.as_str());
            push_str(out, "\n");
            proof {
                assert(real_frames(fm.subrange(start as int, j + 1)) == prev.push(frames@[j as int]@));
                assert(prev.push(frames@[j as int]@).drop_last() =~= prev);
                assert(base + frames_string(prev.push(frames@[j as int]@)) =~= base + frames_string(
                    prev,
                ) + lit("    ") + frame_string(frames@[j as int]@) + lit("\n"));
            }
        }
        j = j + 1;
    }
}

/// The line that the last pair for outline position `pos` maps to.
fn lookup_pos(ps: &Vec<(usize, usize)>, pos: usize) -> (r: Option<usize>)
    ensures
        r == lookup_position(ps@, pos),
{
    let mut k = ps.len();
    proof {
        assert(ps@.subrange(0, k as int) =~= ps@);
    }
    while k > 0
        invariant
            k <= ps@.len(),
            lookup_position(ps@, pos) == lookup_position(ps@.subrange(0, k as int), pos),
        decreases k,
    {
        proof {
            assert(ps@.subrange(0, k as int).drop_last() =~= ps@.subrange(0, k - 1));
        }
        let (p, line) = ps[k - 1];
        if p == pos {
            return Some(line);
        }
        k = k - 1;
    }
    None
}

/// The model of an optional owned string.
pub open spec fn opt_string(o: Option<String>) -> Option<Seq<u8>> {
    match o {
        Some(s) => Some(string_bytes(s)),
        None => None,
    }
}

/// The state of remapping a stack trace line by line.
struct TextCursor {
    out: String,
    carried: Option<usize>,
    descriptor: Option<String>,
    can_rewrite: bool,
}

/// The model of a text cursor.
spec fn cursor_model(c: TextCursor) -> TextState {
    TextState {
        out: string_bytes(c.out),
        carried: c.carried,
        descriptor: opt_string(c.descriptor),
        can_rewrite: c.can_rewrite,
    }
}

proof fn lemma_newline()
    ensures
        "\n".spec_bytes() == newline(),
{
    reveal_strlit("\n");
    broadcast use is_ascii_spec_bytes;
    assert(is_ascii("\n"));
    assert("\n".spec_bytes() =~= newline());
}

/// The depth of causes of a stack trace.
pub open spec fn trace_depth(t: TraceModel) -> nat
    decreases t,
{
    match t.cause {
        Some(c) => 1 + trace_depth(*c),
        None => 0,
    }
}

/// The original name of an obfuscated class.
pub open spec fn spec_remap_class(mm: MapperModel, c: Seq<u8>) -> Option<Seq<u8>> {
    match find_class(mm.classes, c) {
        Some(cl) => Some(cl.original),
        None => None,
    }
}

} // verus!

//! Reading the classes and members of a mapping back out of a cache, to
//! remap with them.

use vstd::prelude::*;
use vstd::string::*;

use crate::builder::{
    classes_model, members_model, positions_model, rules_model, ActionModel, ClassEntry,
    ClassModel, CondModel, MemberEntry, MemberModel, RewriteAction, RewriteCondition, RewriteRule,
    RuleModel,
};
use crate::cache::entries::{RawClass, RawMember, RewriteComponent, RewriteRuleEntry};
use crate::cache::raw::{CacheModel, ProguardCache};
use crate::cache::strings::spec_table_read;
use crate::mapper::{spec_remap_stacktrace, MapperModel, ProguardMapper};
use crate::mapping::opt_bytes;
use crate::text::string_bytes;

verus! {

/// The string at `off`, or the empty string where none can be read.
pub open spec fn text_at(m: CacheModel, off: u32) -> Seq<u8> {
    match spec_table_read(m.string_bytes, off as int) {
        Some(s) => s,
        None => Seq::empty(),
    }
}

/// The string at `off`: none for `u32::MAX` or where none can be read.
pub open spec fn opt_text_at(m: CacheModel, off: u32) -> Option<Seq<u8>> {
    if off == u32::MAX {
        None
    } else {
        spec_table_read(m.string_bytes, off as int)
    }
}

/// Whether `len` records from `off` lie among `n`.
pub open spec fn fits(off: u32, len: u32, n: nat) -> bool {
    off + len <= n
}

/// The class that a class record holds.
pub open spec fn decode_class(m: CacheModel, c: RawClass) -> ClassModel {
    ClassModel {
        obfuscated: text_at(m, c.obfuscated_name_offset),
        original: text_at(m, c.original_name_offset),
        source_file: opt_text_at(m, c.file_name_offset),
        synthesized: c.is_synthesized != 0,
    }
}

/// The condition that a component holds: kind `0` is a `throws`.
pub open spec fn decode_condition(m: CacheModel, c: RewriteComponent) -> CondModel {
    if c.kind == 0 {
        CondModel::Throws(text_at(m, c.value))
    } else {
        CondModel::Unknown(text_at(m, c.value))
    }
}

/// The action that a component holds: kind `0` drops frames.
pub open spec fn decode_action(m: CacheModel, c: RewriteComponent) -> ActionModel {
    if c.kind == 0 {
        ActionModel::RemoveInnerFrames(c.value as usize)
    } else {
        ActionModel::Unknown(text_at(m, c.value))
    }
}

/// The rule that a rule record holds; conditions or actions that lie
/// outside the components are left out.
pub open spec fn decode_rule(m: CacheModel, e: RewriteRuleEntry) -> RuleModel {
    let cs = m.rewrite_rule_components;
    RuleModel {
        conditions: if fits(e.conditions_offset, e.conditions_len, cs.len()) {
            Seq::new(
                e.conditions_len as nat,
                |j: int| decode_condition(m, cs[e.conditions_offset + j]),
            )
        } else {
            Seq::empty()
        },
        actions: if fits(e.actions_offset, e.actions_len, cs.len()) {
            Seq::new(e.actions_len as nat, |j: int| decode_action(m, cs[e.actions_offset + j]))
        } else {
            Seq::empty()
        },
    }
}

/// The rules of a member record; none where they lie outside their section.
pub open spec fn decode_rules(m: CacheModel, r: RawMember) -> Seq<RuleModel> {
    let es = m.rewrite_rule_entries;
    if fits(r.rewrite_rules_offset, r.rewrite_rules_len, es.len()) {
        Seq::new(
            r.rewrite_rules_len as nat,
            |j: int| decode_rule(m, es[r.rewrite_rules_offset + j]),
        )
    } else {
        Seq::empty()
    }
}

/// The outline positions of a member record: none without outline pairs
/// or where they lie outside their section.
pub open spec fn decode_positions(m: CacheModel, r: RawMember) -> Option<Seq<(usize, usize)>> {
    let ps = m.outline_pairs;
    if r.outline_pairs_len > 0 && fits(r.outline_pairs_offset, r.outline_pairs_len, ps.len()) {
        Some(
            Seq::new(
                r.outline_pairs_len as nat,
                |j: int|
                    (
                        ps[r.outline_pairs_offset + j].outline_pos as usize,
                        ps[r.outline_pairs_offset + j].callsite_line as usize,
                    ),
            ),
        )
    } else {
        None
    }
}

/// The member that a member record of class record `c` holds.
pub open spec fn decode_member(m: CacheModel, c: RawClass, r: RawMember) -> MemberModel {
    MemberModel {
        class_obfuscated: text_at(m, c.obfuscated_name_offset),
        class_original: text_at(m, c.original_name_offset),
        obfuscated: text_at(m, r.obfuscated_name_offset),
        original: text_at(m, r.original_name_offset),
        original_class: opt_text_at(m, r.original_class_offset),
        arguments: text_at(m, r.params_offset),
        startline: r.startline as usize,
        endline: r.endline as usize,
        original_startline: r.original_startline as usize,
        original_endline: if r.original_endline == u32::MAX {
            None
        } else {
            Some(r.original_endline as usize)
        },
        synthesized_here: r.is_synthesized != 0,
        outline_here: r.is_outline != 0,
        positions: decode_positions(m, r),
        rules: decode_rules(m, r),
        by_params: r.is_by_params != 0,
    }
}

/// The members of class record `c`; none where they lie outside their
/// section.
pub open spec fn class_members(m: CacheModel, c: RawClass) -> Seq<MemberModel> {
    if fits(c.members_offset, c.members_len, m.members.len()) {
        Seq::new(
            c.members_len as nat,
            |j: int| decode_member(m, c, m.members[c.members_offset + j]),
        )
    } else {
        Seq::empty()
    }
}

/// The members of the first `n` class records, one class after the other.
pub open spec fn decoded_members(m: CacheModel, n: int) -> Seq<MemberModel>
    decreases n,
{
    if n <= 0 {
        Seq::empty()
    } else {
        decoded_members(m, n - 1) + class_members(m, m.classes[n - 1])
    }
}

/// The classes and members that a cache holds.
pub open spec fn decoded_model(m: CacheModel) -> MapperModel {
    MapperModel {
        classes: Seq::new(m.classes.len(), |i: int| decode_class(m, m.classes[i])),
        members: decoded_members(m, m.classes.len() as int),
    }
}

impl<'data> ProguardCache<'data> {
    /// The string at `off`, or the empty string where none can be read.
    fn text(&self, off: u32) -> (r: &'data str)
        ensures
            r.spec_bytes() == text_at(self@, off),
    {
        match self.read_string(off) {
            Some(s) => s,
            None => {
                proof {
                    reveal_strlit("");
                    assert("".spec_bytes() =~= Seq::<u8>::empty());
                }
                ""
            },
        }
    }

    /// The string at `off`: none for `u32::MAX` or where none can be read.
    fn opt_text(&self, off: u32) -> (r: Option<&'data str>)
        ensures
            opt_bytes(r) == opt_text_at(self@, off),
    {
        if off == u32::MAX {
            None
        } else {
            self.read_string(off)
        }
    }

    /// The rule that a rule record holds.
    fn rule(&self, e: RewriteRuleEntry) -> (r: RewriteRule<'data>)
        ensures
            r@ == decode_rule(self@, e),
    {
        let ghost m = self@;
        let ghost cs = m.rewrite_rule_components;
        let count = self.component_count();
        let n = count as u64;
        let mut conditions: Vec<RewriteCondition<'data>> = Vec::new();
        let cond_fit = e.conditions_offset as u64 + e.conditions_len as u64 <= n;
        if cond_fit {
            let mut j: u32 = 0;
            while j < e.conditions_len
                invariant
                    m == self@,
                    cs == m.rewrite_rule_components,
                    n == cs.len(),
                    n == count,
                    e.conditions_offset + e.conditions_len <= n,
                    j <= e.conditions_len,
                    conditions@.len() == j,
                    forall|x: int|
                        0 <= x < j ==> #[trigger] conditions@[x]@ == decode_condition(
                            m,
                            cs[e.conditions_offset + x],
                        ),
                decreases e.conditions_len - j,
            {
                let k64 = e.conditions_offset as u64 + j as u64;
                assert(k64 < count);
                let c = self.component_record(k64 as usize);
                let d = if c.kind == 0 {
                    RewriteCondition::Throws(self.text(c.value))
                } else {
                    RewriteCondition::Unknown(self.text(c.value))
                };
                conditions.push(d);
                j = j + 1;
            }
        }
        let mut actions: Vec<RewriteAction<'data>> = Vec::new();
        let act_fit = e.actions_offset as u64 + e.actions_len as u64 <= n;
        if act_fit {
            let mut j: u32 = 0;
            while j < e.actions_len
                invariant
                    m == self@,
                    cs == m.rewrite_rule_components,
                    n == cs.len(),
                    n == count,
                    e.actions_offset + e.actions_len <= n,
                    j <= e.actions_len,
                    actions@.len() == j,
                    forall|x: int|
                        0 <= x < j ==> #[trigger] actions@[x]@ == decode_action(
                            m,
                            cs[e.actions_offset + x],
                        ),
                decreases e.actions_len - j,
            {
                let k64 = e.actions_offset as u64 + j as u64;
                assert(k64 < count);
                let c = self.component_record(k64 as usize);
                let d = if c.kind == 0 {
                    RewriteAction::RemoveInnerFrames(c.value as usize)
                } else {
                    RewriteAction::Unknown(self.text(c.value))
                };
                actions.push(d);
                j = j + 1;
            }
        }
        let r = RewriteRule { conditions, actions };
        proof {
            let want = decode_rule(m, e);
            assert(r@.conditions =~= want.conditions);
            assert(r@.actions =~= want.actions);
        }
        r
    }

    /// The rules of a member record.
    fn rules(&self, r: RawMember) -> (v: Vec<RewriteRule<'data>>)
        ensures
            rules_model(v@) == decode_rules(self@, r),
    {
        let ghost m = self@;
        let count = self.rule_count();
        let mut out: Vec<RewriteRule<'data>> = Vec::new();
        if r.rewrite_rules_offset as u64 + r.rewrite_rules_len as u64 <= count as u64 {
            let mut j: u32 = 0;
            while j < r.rewrite_rules_len
                invariant
                    m == self@,
                    count == m.rewrite_rule_entries.len(),
                    r.rewrite_rules_offset + r.rewrite_rules_len <= count,
                    j <= r.rewrite_rules_len,
                    out@.len() == j,
                    forall|x: int|
                        0 <= x < j ==> #[trigger] out@[x]@ == decode_rule(
                            m,
                            m.rewrite_rule_entries[r.rewrite_rules_offset + x],
                        ),
                decreases r.rewrite_rules_len - j,
            {
                let k64 = r.rewrite_rules_offset as u64 + j as u64;
                assert(k64 < count);
                let e = self.rule_record(k64 as usize);
                out.push(self.rule(e));
                j = j + 1;
            }
        }
        proof {
            assert(rules_model(out@) =~= decode_rules(m, r));
        }
        out
    }

    /// The outline positions of a member record.
    fn positions(&self, r: RawMember) -> (p: Option<Vec<(usize, usize)>>)
        ensures
            positions_model(p) == decode_positions(self@, r),
    {
        let ghost m = self@;
        let count = self.pair_count();
        if r.outline_pairs_len > 0 && r.outline_pairs_offset as u64 + r.outline_pairs_len as u64
            <= count as u64 {
            let mut out: Vec<(usize, usize)> = Vec::new();
            let mut j: u32 = 0;
            while j < r.outline_pairs_len
                invariant
                    m == self@,
                    count == m.outline_pairs.len(),
                    r.outline_pairs_offset + r.outline_pairs_len <= count,
                    j <= r.outline_pairs_len,
                    out@.len() == j,
                    forall|x: int|
                        0 <= x < j ==> #[trigger] out@[x] == (
                            m.outline_pairs[r.outline_pairs_offset + x].outline_pos as usize,
                            m.outline_pairs[r.outline_pairs_offset + x].callsite_line as usize,
                        ),
                decreases r.outline_pairs_len - j,
            {
                let k64 = r.outline_pairs_offset as u64 + j as u64;
                assert(k64 < count);
                let q = self.pair_record(k64 as usize);
                out.push((q.outline_pos as usize, q.callsite_line as usize));
                j = j + 1;
            }
            proof {
                assert(out@ =~= decode_positions(m, r)->Some_0);
            }
            Some(out)
        } else {
            None
        }
    }

    /// The member that a member record of class record `c` holds.
    fn member(&self, c: RawClass, r: RawMember) -> (e: MemberEntry<'data>)
        ensures
            e@ == decode_member(self@, c, r),
    {
        MemberEntry {
            class_obfuscated: self.text(c.obfuscated_name_offset),
            class_original: self.text(c.original_name_offset),
            obfuscated: self.text(r.obfuscated_name_offset),
            original: self.text(r.original_name_offset),
            original_class: self.opt_text(r.original_class_offset),
            arguments: self.text(r.params_offset),
            startline: r.startline as usize,
            endline: r.endline as usize,
            original_startline: r.original_startline as usize,
            original_endline: if r.original_endline == u32::MAX {
                None
            } else {
                Some(r.original_endline as usize)
            },
            synthesized_here: r.is_synthesized != 0,
            outline_here: r.is_outline != 0,
            positions: self.positions(r),
            rules: self.rules(r),
            by_params: r.is_by_params != 0,
        }
    }

    /// The classes and members that this cache holds, as a mapper.
    pub fn mapper(&self) -> (r: ProguardMapper<'data>)
        ensures
            r@ == decoded_model(self@),
    {
        let ghost m = self@;
        let nc = self.class_count();
        let nm = self.member_count();
        let mut classes: Vec<ClassEntry<'data>> = Vec::new();
        let mut members: Vec<MemberEntry<'data>> = Vec::new();
        let mut i: usize = 0;
        proof {
            assert(members_model(members@) =~= decoded_members(m, 0));
        }
        while i < nc
            invariant
                m == self@,
                nc == m.classes.len(),
                nm == m.members.len(),
                i <= nc,
                classes@.len() == i,
                forall|x: int| 0 <= x < i ==> #[trigger] classes@[x]@ == decode_class(m, m.classes[x]),
                members_model(members@) == decoded_members(m, i as int),
            decreases nc - i,
        {
            let c = self.class_record(i);
            classes.push(
                ClassEntry {
                    obfuscated: self.text(c.obfuscated_name_offset),
                    original: self.text(c.original_name_offset),
                    source_file: self.opt_text(c.file_name_offset),
                    synthesized: c.is_synthesized != 0,
                },
            );
            let ghost before = members@;
            if c.members_offset as u64 + c.members_len as u64 <= nm as u64 {
                let mut j: u32 = 0;
                while j < c.members_len
                    invariant
                        m == self@,
                        nm == m.members.len(),
                        c == m.classes[i as int],
                        c.members_offset + c.members_len <= nm,
                        j <= c.members_len,
                        members@.len() == before.len() + j,
                        members@.subrange(0, before.len() as int) == before,
                        forall|x: int|
                            0 <= x < j ==> #[trigger] members@[before.len() + x]@ == decode_member(
                                m,
                                c,
                                m.members[c.members_offset + x],
                            ),
                    decreases c.members_len - j,
                {
                    let k64 = c.members_offset as u64 + j as u64;
                    assert(k64 < nm);
                    let r = self.member_record(k64 as usize);
                    let ghost mb = members@;
                    members.push(self.member(c, r));
                    proof {
                        assert(members@.subrange(0, before.len() as int) =~= mb.subrange(
                            0,
                            before.len() as int,
                        ));
                    }
                    j = j + 1;
                }
            }
            proof {
                let cm = class_members(m, c);
                assert(members_model(members@) =~= members_model(before) + cm) by {
                    assert forall|x: int| 0 <= x < members@.len() implies #[trigger] members_model(
                        members@,
                    )[x] == (members_model(before) + cm)[x] by {
                        if x < before.len() {
                            assert(members@[x] == members@.subrange(0, before.len() as int)[x]);
                        } else {
                            assert(members@[before.len() + (x - before.len())]@ == cm[x
                                - before.len()]);
                        }
                    }
                }
                assert(decoded_members(m, i + 1) == decoded_members(m, i as int) + cm);
            }
            i = i + 1;
        }
        proof {
            assert(classes_model(classes@) =~= decoded_model(m).classes);
        }
        ProguardMapper::from_tables(classes, members)
    }

    /// Remaps a complete Java StackTrace with the classes and members that
    /// this cache holds.
    pub fn remap_stacktrace(&self, input: &str) -> (r: Result<String, core::fmt::Error>)
        ensures
            r matches Ok(out) && string_bytes(out) == spec_remap_stacktrace(
                decoded_model(self@),
                input.spec_bytes(),
            ),
    {
        self.mapper().remap_stacktrace(input)
    }
}

} // verus!

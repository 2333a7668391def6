//! Properties of remapping that hold for every mapping.

use vstd::prelude::*;

use crate::builder::{
    class_entry, class_names, class_table, mapping_records, member_entry, member_table,
    orphan_method, spec_classes, spec_members, MemberModel, RuleModel,
};
use crate::mapper::{
    apply_actions, apply_rules, by_params, collect_lines, collect_params, exception_line,
    fold_text, frame_line, frame_with_lines, frame_without_lines, group, initial_text, newline,
    plain_line, spec_collect, spec_remap_class, spec_remap_frame, spec_remap_method,
    spec_remap_stacktrace, spec_remap_throwable, step_text, MapperModel, TextState, find_class,
    fold_frames, spec_mapper, spec_remap_trace, step_frames, FramesState,
};
use crate::mapping::strip_prefix;
use crate::stacktrace::{
    spec_lines, spec_parse_frame, spec_parse_throwable, FrameModel, ThrowableModel, TraceModel,
};
use crate::stacktrace::{at_prefix, first_colon_space, frame_string, lit, throwable_string};
use crate::text::{
    caused_by_bytes, decimal_chars, digits_value, first_index_of, has_byte, is_digit_char,
    is_unsigned_number, last_index_of, lemma_encode_utf8_concat, parse_usize_chars, trim_bytes,
    trim_chars, trim_end_chars, trim_start_chars, unsigned_digits,
};
use vstd::string::*;
use vstd::utf8::*;

verus! {

/// A remapped throwable has the remapped class name and keeps its message;
/// a throwable of an unknown class is not remapped.
pub proof fn law_throwable_keeps_message(mm: MapperModel, t: ThrowableModel)
    ensures
        spec_remap_throwable(mm, t) is Some <==> spec_remap_class(mm, t.class) is Some,
        spec_remap_throwable(mm, t) matches Some(r) ==> Some(r.class) == spec_remap_class(
            mm,
            t.class,
        ) && r.message == t.message,
{
}

proof fn lemma_group_methods(mm: MapperModel, f: FrameModel, cls: Seq<u8>, g: Seq<MemberModel>, skip: bool, meth: Seq<u8>)
    requires
        forall|k: int| 0 <= k < g.len() ==> #[trigger] g[k].original == meth,
    ensures
        forall|k: int| 0 <= k < collect_lines(mm, f, cls, g, skip).0.len() ==> (#[trigger] collect_lines(
            mm,
            f,
            cls,
            g,
            skip,
        ).0[k]).method == meth,
        forall|k: int| 0 <= k < collect_params(mm, f, cls, g).0.len() ==> (#[trigger] collect_params(
            mm,
            f,
            cls,
            g,
        ).0[k]).method == meth,
    decreases g.len(),
{
    if g.len() > 0 {
        let h = g.drop_last();
        assert forall|k: int| 0 <= k < h.len() implies #[trigger] h[k].original == meth by {
            assert(h[k] == g[k]);
        }
        lemma_group_methods(mm, f, cls, h, skip, meth);
        assert(g.last() == g[g.len() - 1]);
    }
}

proof fn lemma_by_params_from(g: Seq<MemberModel>, p: Seq<u8>, meth: Seq<u8>)
    requires
        forall|k: int| 0 <= k < g.len() ==> #[trigger] g[k].original == meth,
    ensures
        forall|k: int| 0 <= k < by_params(g, p).len() ==> #[trigger] by_params(g, p)[k].original == meth,
    decreases g.len(),
{
    if g.len() > 0 {
        let h = g.drop_last();
        assert forall|k: int| 0 <= k < h.len() implies #[trigger] h[k].original == meth by {
            assert(h[k] == g[k]);
        }
        lemma_by_params_from(h, p, meth);
        assert(g.last() == g[g.len() - 1]);
    }
}

/// When an obfuscated method remaps unambiguously, every frame of it
/// remaps to frames of that original method name.
pub proof fn law_remap_method_agrees_with_frames(mm: MapperModel, f: FrameModel, class: Seq<u8>, method: Seq<u8>)
    requires
        spec_remap_method(mm, f.class, f.method) == Some((class, method)),
    ensures
        forall|k: int| 0 <= k < spec_remap_frame(mm, f).len() ==> (#[trigger] spec_remap_frame(mm, f)[k]).method
            == method,
{
    let g = group(mm.members, f.class, f.method);
    let cl = find_class(mm.classes, f.class)->0;
    assert forall|k: int| 0 <= k < g.len() implies #[trigger] g[k].original == method by {
        assert(g[k].original == g[0].original);
    }
    match f.parameters {
        None => {
            lemma_group_methods(mm, f, cl.original, g, f.line > 0 && crate::mapper::has_line_info(g), method);
        },
        Some(p) => {
            lemma_by_params_from(g, p, method);
            lemma_group_methods(mm, f, cl.original, by_params(g, p), false, method);
        },
    }
}

proof fn lemma_actions_suffix(frames: Seq<FrameModel>, acts: Seq<crate::builder::ActionModel>, i: int)
    ensures
        exists|k: int| 0 <= k <= frames.len() && #[trigger] frames.subrange(k, frames.len() as int) == apply_actions(frames, acts, i),
    decreases acts.len() - i,
{
    if i < 0 || i >= acts.len() {
        assert(frames.subrange(0, frames.len() as int) =~= frames);
    } else {
        let next = match acts[i] {
            crate::builder::ActionModel::RemoveInnerFrames(c) => if c >= frames.len() {
                Seq::empty()
            } else {
                frames.subrange(c as int, frames.len() as int)
            },
            crate::builder::ActionModel::Unknown(_) => frames,
        };
        lemma_actions_suffix(next, acts, i + 1);
        let k2 = choose|k: int| 0 <= k <= next.len() && #[trigger] next.subrange(k, next.len() as int) == apply_actions(next, acts, i + 1);
        match acts[i] {
            crate::builder::ActionModel::RemoveInnerFrames(c) => if c >= frames.len() {
                assert(frames.subrange(frames.len() as int, frames.len() as int) =~= next.subrange(k2, next.len() as int));
            } else {
                assert(frames.subrange(c + k2, frames.len() as int) =~= next.subrange(k2, next.len() as int));
            },
            crate::builder::ActionModel::Unknown(_) => {},
        }
    }
}

proof fn lemma_rules_suffix(frames: Seq<FrameModel>, rules: Seq<RuleModel>, d: Option<Seq<u8>>, i: int)
    ensures
        exists|k: int| 0 <= k <= frames.len() && #[trigger] frames.subrange(k, frames.len() as int) == apply_rules(frames, rules, d, i),
    decreases rules.len() - i,
{
    if i < 0 || i >= rules.len() {
        assert(frames.subrange(0, frames.len() as int) =~= frames);
    } else if !crate::mapper::rule_matches(rules[i], d) {
        lemma_rules_suffix(frames, rules, d, i + 1);
    } else {
        let next = apply_actions(frames, rules[i].actions, 0);
        lemma_actions_suffix(frames, rules[i].actions, 0);
        let k1 = choose|k: int| 0 <= k <= frames.len() && #[trigger] frames.subrange(k, frames.len() as int) == next;
        if next.len() == 0 {
        } else {
            lemma_rules_suffix(next, rules, d, i + 1);
            let k2 = choose|k: int| 0 <= k <= next.len() && #[trigger] next.subrange(k, next.len() as int) == apply_rules(next, rules, d, i + 1);
            assert(frames.subrange(k1 + k2, frames.len() as int) =~= next.subrange(k2, next.len() as int));
        }
    }
}

/// Frame rewrite rules only ever drop inner frames: what is left is the
/// outermost part of the frames, in order.
pub proof fn law_rewrite_keeps_outer_frames(frames: Seq<FrameModel>, rules: Seq<RuleModel>, descriptor: Option<Seq<u8>>)
    ensures
        exists|k: int| 0 <= k <= frames.len() && #[trigger] frames.subrange(k, frames.len() as int) == apply_rules(frames, rules, descriptor, 0),
{
    lemma_rules_suffix(frames, rules, descriptor, 0);
}

/// The lines of a text, each followed by a newline.
pub open spec fn with_newlines(lines: Seq<Seq<u8>>) -> Seq<u8>
    decreases lines.len(),
{
    if lines.len() == 0 {
        Seq::empty()
    } else {
        with_newlines(lines.drop_last()) + lines.last() + newline()
    }
}

proof fn lemma_fold_unknown(mm: MapperModel, lines: Seq<Seq<u8>>, n: int)
    requires
        mm.classes.len() == 0,
        0 <= n <= lines.len(),
    ensures
        fold_text(mm, lines, n).out == with_newlines(lines.subrange(0, n)),
        fold_text(mm, lines, n).carried is None,
    decreases n,
{
    if n > 0 {
        lemma_fold_unknown(mm, lines, n - 1);
        let st = fold_text(mm, lines, n - 1);
        let line = lines[n - 1];
        assert(lines.subrange(0, n).drop_last() =~= lines.subrange(0, n - 1));
        assert(lines.subrange(0, n).last() == line);
        match spec_parse_throwable(line) {
            Some(t) => {},
            None => match spec_parse_frame(line) {
                Some(f) => {
                    assert(spec_collect(mm, crate::mapper::prepare_frame(mm, f, st.carried)).0.len() == 0);
                },
                None => {},
            },
        }
    } else {
        assert(lines.subrange(0, 0) =~= Seq::<Seq<u8>>::empty());
    }
}

/// With a mapping that declares no class, remapping a stack trace changes
/// nothing: every line comes out as it was, followed by a newline.
pub proof fn law_unknown_classes_unchanged(mm: MapperModel, input: Seq<u8>)
    requires
        mm.classes.len() == 0,
    ensures
        spec_remap_stacktrace(mm, input) == with_newlines(spec_lines(input)),
{
    let lines = spec_lines(input);
    lemma_fold_unknown(mm, lines, lines.len() as int);
    assert(lines.subrange(0, lines.len() as int) =~= lines);
}

/// The position of the last class record with obfuscated name `c` before
/// position `n`, or -1.
pub open spec fn last_class_named(recs: Seq<crate::mapping::RecordModel>, c: Seq<u8>, n: int) -> int
    decreases n,
{
    if n <= 0 {
        -1
    } else if recs[n - 1] is Class && class_names(recs[n - 1]).0 == c {
        n - 1
    } else {
        last_class_named(recs, c, n - 1)
    }
}

proof fn lemma_find_class_table(recs: Seq<crate::mapping::RecordModel>, c: Seq<u8>, n: int)
    requires
        0 <= n <= recs.len(),
    ensures
        -1 <= last_class_named(recs, c, n) < n,
        last_class_named(recs, c, n) >= 0 ==> recs[last_class_named(recs, c, n)] is Class,
        find_class(class_table(recs, n), c) == if last_class_named(recs, c, n) >= 0 {
            Some(class_entry(recs, last_class_named(recs, c, n)))
        } else {
            None
        },
    decreases n,
{
    if n > 0 {
        lemma_find_class_table(recs, c, n - 1);
        if recs[n - 1] is Class {
            let t = class_table(recs, n);
            assert(t.drop_last() =~= class_table(recs, n - 1));
            assert(t.last() == class_entry(recs, n - 1));
        }
    }
}

/// A class record maps its obfuscated name back to its original name,
/// unless a later class record declares the same obfuscated name; a name
/// that no class record declares is not remapped.
pub proof fn law_class_records_remap(source: Seq<u8>, init: bool, c: Seq<u8>)
    requires
        !orphan_method(mapping_records(source)),
    ensures
        last_class_named(mapping_records(source), c, mapping_records(source).len() as int) >= 0
            ==> spec_remap_class(spec_mapper(source, init), c) == Some(
            class_names(
                mapping_records(source)[last_class_named(
                    mapping_records(source),
                    c,
                    mapping_records(source).len() as int,
                )],
            ).1,
        ),
        last_class_named(mapping_records(source), c, mapping_records(source).len() as int) < 0
            ==> spec_remap_class(spec_mapper(source, init), c) is None,
{
    let recs = mapping_records(source);
    lemma_find_class_table(recs, c, recs.len() as int);
}

/// A mapping with a method record before any class record declares
/// nothing: no class is remapped.
pub proof fn law_orphan_method_declares_nothing(source: Seq<u8>, init: bool, c: Seq<u8>)
    requires
        orphan_method(mapping_records(source)),
    ensures
        spec_remap_class(spec_mapper(source, init), c) is None,
{
}

/// A stack trace with its frames as they are and without exceptions.
pub open spec fn without_exceptions(t: TraceModel) -> TraceModel
    decreases t,
{
    TraceModel {
        exception: None,
        frames: t.frames,
        cause: match t.cause {
            Some(c) => Some(Box::new(without_exceptions(*c))),
            None => None,
        },
    }
}

proof fn lemma_fold_frames_unknown(mm: MapperModel, d: Option<Seq<u8>>, frames: Seq<FrameModel>, n: int)
    requires
        mm.classes.len() == 0,
        0 <= n <= frames.len(),
    ensures
        fold_frames(mm, d, frames, n).out == frames.subrange(0, n),
    decreases n,
{
    if n > 0 {
        lemma_fold_frames_unknown(mm, d, frames, n - 1);
        let st = fold_frames(mm, d, frames, n - 1);
        let f = frames[n - 1];
        assert(spec_collect(mm, crate::mapper::prepare_frame(mm, f, st.carried)).0.len() == 0);
        assert(frames.subrange(0, n) =~= frames.subrange(0, n - 1) + seq![f]);
    } else {
        assert(frames.subrange(0, 0) =~= Seq::<FrameModel>::empty());
    }
}

/// With a mapping that declares no class, remapping a typed stack trace
/// keeps every frame and drops the exceptions, whose classes are unknown.
pub proof fn law_unknown_classes_typed(mm: MapperModel, t: TraceModel)
    requires
        mm.classes.len() == 0,
    ensures
        spec_remap_trace(mm, t) == without_exceptions(t),
    decreases t,
{
    let d = match t.exception {
        Some(orig) => Some(crate::mapper::descriptor_of(orig.class)),
        None => None,
    };
    lemma_fold_frames_unknown(mm, d, t.frames, t.frames.len() as int);
    assert(t.frames.subrange(0, t.frames.len() as int) =~= t.frames);
    match t.cause {
        Some(c) => {
            law_unknown_classes_typed(mm, *c);
        },
        None => {},
    }
}

/// Whether two members are the same but for whether they map frames by parameters.
pub open spec fn same_but_params(a: MemberModel, b: MemberModel) -> bool {
    a == MemberModel { by_params: a.by_params, ..b }
}

/// Whether two sequences of members are the same but for mapping by parameters.
pub open spec fn pairwise_same(x: Seq<MemberModel>, y: Seq<MemberModel>) -> bool {
    &&& x.len() == y.len()
    &&& forall|k: int| 0 <= k < x.len() ==> #[trigger] same_but_params(x[k], y[k])
}

pub proof fn lemma_member_tables(recs: Seq<crate::mapping::RecordModel>, n: int)
    requires
        0 <= n <= recs.len(),
    ensures
        pairwise_same(member_table(recs, true, n), member_table(recs, false, n)),
    decreases n,
{
    if n > 0 {
        lemma_member_tables(recs, n - 1);
        let a = member_table(recs, true, n);
        let b = member_table(recs, false, n);
        if recs[n - 1] is Method {
            assert(same_but_params(member_entry(recs, true, n - 1), member_entry(recs, false, n - 1)));
            assert forall|k: int| 0 <= k < a.len() implies #[trigger] same_but_params(a[k], b[k]) by {
                if k < a.len() - 1 {
                    assert(a[k] == member_table(recs, true, n - 1)[k]);
                    assert(b[k] == member_table(recs, false, n - 1)[k]);
                }
            }
        }
    }
}

pub proof fn lemma_group_pairwise(x: Seq<MemberModel>, y: Seq<MemberModel>, c: Seq<u8>, m: Seq<u8>)
    requires
        pairwise_same(x, y),
    ensures
        pairwise_same(group(x, c, m), group(y, c, m)),
    decreases x.len(),
{
    if x.len() > 0 {
        let x1 = x.drop_last();
        let y1 = y.drop_last();
        assert forall|k: int| 0 <= k < x1.len() implies #[trigger] same_but_params(x1[k], y1[k]) by {
            assert(same_but_params(x[k], y[k]));
        }
        lemma_group_pairwise(x1, y1, c, m);
        assert(same_but_params(x[x.len() - 1], y[y.len() - 1]));
        let gx = group(x, c, m);
        let gy = group(y, c, m);
        let hx = group(x1, c, m);
        let hy = group(y1, c, m);
        if x.last().class_obfuscated == c && x.last().obfuscated == m {
            assert forall|k: int| 0 <= k < gx.len() implies #[trigger] same_but_params(gx[k], gy[k]) by {
                if k < hx.len() {
                    assert(gx[k] == hx[k]);
                    assert(gy[k] == hy[k]);
                    assert(same_but_params(hx[k], hy[k]));
                }
            }
        }
    }
}

pub proof fn lemma_synthesized_same(x: Seq<MemberModel>, y: Seq<MemberModel>, a: MemberModel, b: MemberModel)
    requires
        pairwise_same(x, y),
        same_but_params(a, b),
    ensures
        crate::mapper::method_synthesized(x, a) == crate::mapper::method_synthesized(y, b),
{
    if crate::mapper::method_synthesized(x, a) {
        let k = choose|k: int|
            0 <= k < x.len() && crate::mapper::same_method(x[k], a) && x[k].synthesized_here;
        assert(same_but_params(x[k], y[k]));
    }
    if crate::mapper::method_synthesized(y, b) {
        let k = choose|k: int|
            0 <= k < y.len() && crate::mapper::same_method(y[k], b) && y[k].synthesized_here;
        assert(same_but_params(x[k], y[k]));
    }
}

pub proof fn lemma_collect_lines_same(
    m1: MapperModel,
    m2: MapperModel,
    f: FrameModel,
    cls: Seq<u8>,
    g1: Seq<MemberModel>,
    g2: Seq<MemberModel>,
    skip: bool,
)
    requires
        m1.classes == m2.classes,
        pairwise_same(m1.members, m2.members),
        pairwise_same(g1, g2),
    ensures
        collect_lines(m1, f, cls, g1, skip) == collect_lines(m2, f, cls, g2, skip),
    decreases g1.len(),
{
    if g1.len() > 0 {
        let h1 = g1.drop_last();
        let h2 = g2.drop_last();
        assert forall|k: int| 0 <= k < h1.len() implies #[trigger] same_but_params(h1[k], h2[k]) by {
            assert(same_but_params(g1[k], g2[k]));
        }
        lemma_collect_lines_same(m1, m2, f, cls, h1, h2, skip);
        assert(same_but_params(g1[g1.len() - 1], g2[g2.len() - 1]));
        lemma_synthesized_same(m1.members, m2.members, g1.last(), g2.last());
        assert(frame_with_lines(m1, f, cls, g1.last()) == frame_with_lines(m2, f, cls, g2.last()));
    }
}

proof fn lemma_colon_space_after(class: Seq<u8>, s: Seq<u8>, i: int)
    requires
        !has_byte(class, 32),
        s.len() >= class.len() + 2,
        s.subrange(0, class.len() as int) == class,
        s[class.len() as int] == 58,
        s[class.len() as int + 1] == 32,
        0 <= i <= class.len(),
    ensures
        first_colon_space(s, i) == class.len(),
    decreases class.len() - i,
{
    if i < class.len() {
        assert(s[i] == class[i]);
        if i + 1 < class.len() {
            assert(s[i + 1] == class[i + 1]);
            assert(class[i + 1] != 32);
        }
        lemma_colon_space_after(class, s, i + 1);
    }
}

proof fn lemma_no_colon_space(s: Seq<u8>, i: int)
    requires
        !has_byte(s, 32),
        0 <= i <= s.len(),
    ensures
        first_colon_space(s, i) == s.len(),
    decreases s.len() - i,
{
    if i + 1 < s.len() {
        assert(s[i + 1] != 32);
        lemma_no_colon_space(s, i + 1);
    }
}

/// A throwable reads back from its own text when its class holds no space
/// and the text has no whitespace at either end.
pub proof fn law_throwable_text_round_trip(t: ThrowableModel)
    requires
        !has_byte(t.class, 32),
        trim_bytes(throwable_string(t)) == throwable_string(t),
    ensures
        spec_parse_throwable(throwable_string(t)) == Some(t),
{
    let s = throwable_string(t);
    match t.message {
        None => {
            assert(s =~= t.class);
            lemma_no_colon_space(s, 0);
        },
        Some(m) => {
            reveal_strlit(": ");
            broadcast use is_ascii_spec_bytes;
            assert(is_ascii(": "));
            assert(lit(": ") =~= seq![58u8, 32u8]);
            assert(s =~= t.class + seq![58u8, 32u8] + m);
            assert(s.subrange(0, t.class.len() as int) =~= t.class);
            lemma_colon_space_after(t.class, s, 0);
            assert(s.subrange(t.class.len() as int + 2, s.len() as int) =~= m);
        },
    }
}

proof fn lemma_digit_char(d: nat)
    requires
        d < 10,
    ensures
        is_digit_char(((d + 48) as u8) as char),
        (((d + 48) as u8) as char) as nat == d + 48,
{
    let b = (d + 48) as u8;
    assert(b == d + 48);
    let c = b as char;
    assert(c as u32 == b as u32);
}

proof fn lemma_decimal_chars(n: nat)
    ensures
        decimal_chars(n).len() > 0,
        forall|i: int| 0 <= i < decimal_chars(n).len() ==> is_digit_char(#[trigger] decimal_chars(n)[i]),
        digits_value(decimal_chars(n)) == n,
    decreases n,
{
    if n >= 10 {
        lemma_decimal_chars(n / 10);
        lemma_digit_char(n % 10);
        let d = decimal_chars(n);
        let c = (((n % 10) + 48) as u8) as char;
        assert(d.drop_last() =~= decimal_chars(n / 10));
        assert(d.last() == c);
        assert(forall|i: int| 0 <= i < d.len() - 1 ==> d[i] == decimal_chars(n / 10)[i]);
        assert(c as nat - 48 == n % 10);
        assert(digits_value(d) == digits_value(d.drop_last()) * 10 + ((d.last() as nat) - 48) as nat);
        assert(digits_value(d) == (n / 10) * 10 + n % 10);
        assert((n / 10) * 10 + n % 10 == n) by (nonlinear_arith);
    } else {
        lemma_digit_char(n);
        let d = decimal_chars(n);
        let c = ((n + 48) as u8) as char;
        assert(d.drop_last() =~= Seq::<char>::empty());
        assert(d.last() == c);
        assert(digits_value(d.drop_last()) == 0);
        assert(digits_value(d) == digits_value(d.drop_last()) * 10 + ((d.last() as nat) - 48) as nat);
        assert(c as nat - 48 == n);
    }
}

proof fn lemma_parse_decimal(n: usize)
    ensures
        parse_usize_chars(decimal_chars(n as nat)) == Some(n),
{
    lemma_decimal_chars(n as nat);
    let d = decimal_chars(n as nat);
    assert(d[0] != '+');
    assert(unsigned_digits(d) == d);
}

/// The decimal digits of a number, as bytes, hold no `:`.
proof fn lemma_decimal_bytes(n: nat)
    ensures
        forall|i: int|
            0 <= i < encode_utf8(decimal_chars(n)).len() ==> #[trigger] encode_utf8(
                decimal_chars(n),
            )[i] != 58,
{
    lemma_decimal_chars(n);
    let d = decimal_chars(n);
    assert(is_ascii_chars(d)) by {
        assert forall|i: int| 0 <= i < d.len() implies '\0' <= #[trigger] d[i] <= '\u{7f}' by {
            assert(is_digit_char(d[i]));
        }
    }
    is_ascii_chars_encode_utf8(d);
    assert forall|i: int| 0 <= i < encode_utf8(d).len() implies #[trigger] encode_utf8(d)[i] != 58 by {
        assert(is_digit_char(d[i]));
        assert(d[i] as u8 == encode_utf8(d)[i]);
        assert('0' <= d[i] <= '9');
        assert((d[i] as u32) >= 48 && (d[i] as u32) <= 57);
    }
}

proof fn lemma_first_index_skip(s: Seq<u8>, b: u8, i: int, j: int)
    requires
        0 <= i <= j <= s.len(),
        forall|k: int| i <= k < j ==> s[k] != b,
    ensures
        first_index_of(s, b, i) == first_index_of(s, b, j),
    decreases j - i,
{
    if i < j {
        lemma_first_index_skip(s, b, i + 1, j);
    }
}

proof fn lemma_last_index_skip(s: Seq<u8>, b: u8, i: int, j: int)
    requires
        0 <= i <= j <= s.len(),
        forall|k: int| i <= k < j ==> s[k] != b,
    ensures
        last_index_of(s, b, j) == last_index_of(s, b, i),
    decreases j - i,
{
    if i < j {
        lemma_last_index_skip(s, b, i, j - 1);
    }
}

proof fn lemma_ascii_lit(s: &str, b: Seq<u8>)
    requires
        is_ascii(s),
        s@.len() == b.len(),
        forall|i: int| 0 <= i < b.len() ==> #[trigger] b[i] == s@[i] as u8,
    ensures
        s.spec_bytes() == b,
{
    broadcast use is_ascii_spec_bytes;
    assert(s.spec_bytes() =~= b);
}

/// The text of a frame with a file, as its parts.
proof fn lemma_frame_text_parts(f: FrameModel)
    requires
        f.file is Some,
    ensures
        frame_string(f) == seq![97u8, 116u8, 32u8] + f.class + seq![46u8] + f.method + seq![40u8]
            + f.file->0 + seq![58u8] + encode_utf8(decimal_chars(f.line as nat)) + seq![41u8],
        "at ".spec_bytes() == seq![97u8, 116u8, 32u8],
{
    reveal_strlit("at ");
    reveal_strlit(".");
    reveal_strlit("(");
    reveal_strlit(":");
    reveal_strlit(")");
    lemma_ascii_lit("at ", seq![97u8, 116u8, 32u8]);
    lemma_ascii_lit(".", seq![46u8]);
    lemma_ascii_lit("(", seq![40u8]);
    lemma_ascii_lit(":", seq![58u8]);
    lemma_ascii_lit(")", seq![41u8]);
    assert(frame_string(f) =~= seq![97u8, 116u8, 32u8] + f.class + seq![46u8] + f.method + seq![
        40u8,
    ] + f.file->0 + seq![58u8] + encode_utf8(decimal_chars(f.line as nat)) + seq![41u8]);
}

/// The text of a frame has no whitespace at either end.
proof fn lemma_frame_text_trimmed(f: FrameModel)
    requires
        valid_utf8(f.class),
        valid_utf8(f.method),
        f.file matches Some(file) && valid_utf8(file),
    ensures
        trim_bytes(frame_string(f)) == frame_string(f),
{
    let file = f.file->0;
    let s = frame_string(f);
    reveal_strlit("at ");
    reveal_strlit(")");
    let a = "at "@ + decode_utf8(f.class) + "."@ + decode_utf8(f.method) + "("@ + decode_utf8(file)
        + ":"@;
    let cs = a + decimal_chars(f.line as nat) + ")"@;
    decode_utf8_encode_utf8(f.class);
    decode_utf8_encode_utf8(f.method);
    decode_utf8_encode_utf8(file);
    lemma_encode_utf8_concat("at "@, decode_utf8(f.class));
    lemma_encode_utf8_concat("at "@ + decode_utf8(f.class), "."@);
    lemma_encode_utf8_concat("at "@ + decode_utf8(f.class) + "."@, decode_utf8(f.method));
    lemma_encode_utf8_concat("at "@ + decode_utf8(f.class) + "."@ + decode_utf8(f.method), "("@);
    lemma_encode_utf8_concat(
        "at "@ + decode_utf8(f.class) + "."@ + decode_utf8(f.method) + "("@,
        decode_utf8(file),
    );
    lemma_encode_utf8_concat(
        "at "@ + decode_utf8(f.class) + "."@ + decode_utf8(f.method) + "("@ + decode_utf8(file),
        ":"@,
    );
    lemma_encode_utf8_concat(a, decimal_chars(f.line as nat));
    lemma_encode_utf8_concat(a + decimal_chars(f.line as nat), ")"@);
    assert(encode_utf8(cs) == s);
    encode_utf8_decode_utf8(cs);
    assert(cs[0] == 'a');
    assert(cs.last() == ')');
    assert(trim_start_chars(cs) == cs);
    assert(trim_end_chars(cs) == cs);
}

/// Where the class, method, file and line stand in the text of a frame.
proof fn lemma_frame_text_positions(f: FrameModel)
    requires
        f.file matches Some(file) && !has_byte(file, 58),
        !has_byte(f.class, 40),
        !has_byte(f.method, 40),
        !has_byte(f.method, 46),
    ensures
        ({
            let s = frame_string(f);
            let inner = s.subrange(3, s.len() - 1);
            let p = first_index_of(inner, 40, 0);
            let first = inner.subrange(0, p);
            let second = inner.subrange(p + 1, inner.len() as int);
            let q = last_index_of(first, 46, first.len() as int);
            let r = last_index_of(second, 58, second.len() as int);
            &&& s.len() >= 3
            &&& s.subrange(0, 3) == at_prefix()
            &&& s.last() == 41
            &&& p < inner.len()
            &&& q >= 0
            &&& 0 <= r < second.len()
            &&& first.subrange(0, q) == f.class
            &&& first.subrange(q + 1, first.len() as int) == f.method
            &&& second.subrange(0, r) == f.file->0
            &&& second.subrange(r + 1, second.len() as int) == encode_utf8(decimal_chars(f.line as nat))
        }),
{
    lemma_frame_text_parts(f);
    let file = f.file->0;
    let num = encode_utf8(decimal_chars(f.line as nat));
    let s = frame_string(f);
    let cl = f.class.len() as int;
    let ml = f.method.len() as int;
    let fl = file.len() as int;
    assert(s.subrange(0, 3) =~= at_prefix());
    let inner = s.subrange(3, s.len() - 1);
    assert(inner =~= f.class + seq![46u8] + f.method + seq![40u8] + file + seq![58u8] + num);
    let p = cl + 1 + ml;
    assert forall|k: int| 0 <= k < p implies inner[k] != 40 by {
        if k < cl {
            assert(inner[k] == f.class[k]);
        } else if k > cl {
            assert(inner[k] == f.method[k - cl - 1]);
        }
    }
    lemma_first_index_skip(inner, 40, 0, p);
    let first = inner.subrange(0, p);
    assert(first =~= f.class + seq![46u8] + f.method);
    assert forall|k: int| cl + 1 <= k < first.len() implies first[k] != 46 by {
        assert(first[k] == f.method[k - cl - 1]);
    }
    lemma_last_index_skip(first, 46, cl + 1, first.len() as int);
    assert(first.subrange(0, cl) =~= f.class);
    assert(first.subrange(cl + 1, first.len() as int) =~= f.method);
    let second = inner.subrange(p + 1, inner.len() as int);
    assert(second =~= file + seq![58u8] + num);
    lemma_file_number_split(file, f.line as nat);
}

/// In a file name without `:`, a `:` and a number, the last `:` is the one
/// before the number.
proof fn lemma_file_number_split(file: Seq<u8>, n: nat)
    requires
        !has_byte(file, 58),
    ensures
        ({
            let num = encode_utf8(decimal_chars(n));
            let second = file + seq![58u8] + num;
            let r = last_index_of(second, 58, second.len() as int);
            &&& r == file.len()
            &&& second.subrange(0, r) == file
            &&& second.subrange(r + 1, second.len() as int) == num
        }),
{
    let num = encode_utf8(decimal_chars(n));
    let second = file + seq![58u8] + num;
    let fl = file.len() as int;
    lemma_decimal_bytes(n);
    assert forall|k: int| fl + 1 <= k < second.len() implies second[k] != 58 by {
        assert(second[k] == num[k - fl - 1]);
    }
    lemma_last_index_skip(second, 58, fl + 1, second.len() as int);
    assert(second[fl] == 58u8);
    assert(second.subrange(0, fl) =~= file);
    assert(second.subrange(fl + 1, second.len() as int) =~= num);
}

/// A frame reads back from its own text when its class holds no `(`, its
/// method no `(` or `.`, its file no `:`, and it has a file, no parameters
/// and no synthesized flag.
pub proof fn law_frame_text_round_trip(f: FrameModel)
    requires
        valid_utf8(f.class),
        valid_utf8(f.method),
        f.file matches Some(file) && valid_utf8(file) && !has_byte(file, 58),
        !has_byte(f.class, 40),
        !has_byte(f.method, 40),
        !has_byte(f.method, 46),
        f.parameters is None,
        !f.method_synthesized,
    ensures
        spec_parse_frame(frame_string(f)) == Some(f),
{
    lemma_frame_text_trimmed(f);
    lemma_frame_text_positions(f);
    encode_utf8_decode_utf8(decimal_chars(f.line as nat));
    lemma_parse_decimal(f.line);
}

} // verus!

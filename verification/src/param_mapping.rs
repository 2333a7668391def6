//! Preparing a mapper for mapping by parameters changes nothing for
//! frames, classes, methods and text stack traces without parameters.

use vstd::prelude::*;

use crate::builder::{mapping_records, orphan_method, MemberModel};
use crate::mapper::{
    find_class, fold_text, group, spec_collect, spec_mapper, spec_remap_class, spec_remap_frame,
    spec_remap_method, spec_remap_stacktrace, MapperModel,
};
use crate::properties::{
    lemma_collect_lines_same, lemma_group_pairwise, lemma_member_tables, pairwise_same,
    same_but_params,
};
use crate::stacktrace::{spec_lines, spec_parse_frame, spec_parse_throwable, FrameModel};

verus! {

/// Whether two mappers are the same but for which members map frames by
/// parameters.
pub open spec fn same_but_param_mapping(m1: MapperModel, m2: MapperModel) -> bool {
    &&& m1.classes == m2.classes
    &&& pairwise_same(m1.members, m2.members)
}

/// A mapper prepared for mapping by parameters is the same as one that is
/// not, but for which members map by parameters.
proof fn lemma_param_mappers(source: Seq<u8>)
    ensures
        same_but_param_mapping(spec_mapper(source, true), spec_mapper(source, false)),
{
    let recs = mapping_records(source);
    if !orphan_method(recs) {
        lemma_member_tables(recs, recs.len() as int);
    }
}

/// Members the same but for mapping by parameters have the same groups.
proof fn lemma_groups_same(m1: MapperModel, m2: MapperModel, c: Seq<u8>, meth: Seq<u8>)
    requires
        same_but_param_mapping(m1, m2),
    ensures
        pairwise_same(group(m1.members, c, meth), group(m2.members, c, meth)),
        crate::mapper::has_line_info(group(m1.members, c, meth)) == crate::mapper::has_line_info(
            group(m2.members, c, meth),
        ),
{
    let g1 = group(m1.members, c, meth);
    let g2 = group(m2.members, c, meth);
    lemma_group_pairwise(m1.members, m2.members, c, meth);
    if crate::mapper::has_line_info(g1) {
        let k = choose|k: int| 0 <= k < g1.len() && #[trigger] g1[k].endline > 0;
        assert(same_but_params(g1[k], g2[k]));
        assert(g2[k].endline > 0);
    }
    if crate::mapper::has_line_info(g2) {
        let k = choose|k: int| 0 <= k < g2.len() && #[trigger] g2[k].endline > 0;
        assert(same_but_params(g1[k], g2[k]));
        assert(g1[k].endline > 0);
    }
}

/// Mappers the same but for mapping by parameters remap a frame without
/// parameters alike.
proof fn lemma_collect_same(m1: MapperModel, m2: MapperModel, f: FrameModel)
    requires
        same_but_param_mapping(m1, m2),
        f.parameters is None,
    ensures
        spec_collect(m1, f) == spec_collect(m2, f),
{
    match find_class(m1.classes, f.class) {
        None => {},
        Some(cl) => {
            let g1 = group(m1.members, f.class, f.method);
            let g2 = group(m2.members, f.class, f.method);
            lemma_groups_same(m1, m2, f.class, f.method);
            let skip = f.line > 0 && crate::mapper::has_line_info(g1);
            lemma_collect_lines_same(m1, m2, f, cl.original, g1, g2, skip);
        },
    }
}

/// Preparing a mapper for mapping by parameters does not change how
/// frames without parameters remap.
pub proof fn law_param_mapping_keeps_line_frames(source: Seq<u8>, f: FrameModel)
    requires
        f.parameters is None,
    ensures
        spec_remap_frame(spec_mapper(source, true), f) == spec_remap_frame(spec_mapper(source, false), f),
        spec_collect(spec_mapper(source, true), f) == spec_collect(spec_mapper(source, false), f),
{
    lemma_param_mappers(source);
    lemma_collect_same(spec_mapper(source, true), spec_mapper(source, false), f);
}

/// Whether one of two members the same but for mapping by parameters is in
/// an outline method exactly when the other is.
proof fn lemma_outline_same(x: Seq<MemberModel>, y: Seq<MemberModel>, a: MemberModel, b: MemberModel)
    requires
        pairwise_same(x, y),
        same_but_params(a, b),
    ensures
        crate::mapper::method_outline(x, a) == crate::mapper::method_outline(y, b),
{
    if crate::mapper::method_outline(x, a) {
        let k = choose|k: int|
            0 <= k < x.len() && crate::mapper::same_method(x[k], a) && x[k].outline_here;
        assert(same_but_params(x[k], y[k]));
    }
    if crate::mapper::method_outline(y, b) {
        let k = choose|k: int|
            0 <= k < y.len() && crate::mapper::same_method(y[k], b) && y[k].outline_here;
        assert(same_but_params(x[k], y[k]));
    }
}

/// Members the same but for mapping by parameters map outline positions
/// alike.
proof fn lemma_first_position_same(
    g1: Seq<MemberModel>,
    g2: Seq<MemberModel>,
    line: usize,
    pos: usize,
    i: int,
)
    requires
        pairwise_same(g1, g2),
    ensures
        crate::mapper::first_position(g1, line, pos, i) == crate::mapper::first_position(
            g2,
            line,
            pos,
            i,
        ),
    decreases g1.len() - i,
{
    if 0 <= i < g1.len() {
        assert(same_but_params(g1[i], g2[i]));
        lemma_first_position_same(g1, g2, line, pos, i + 1);
    }
}

/// Mappers the same but for mapping by parameters treat a frame without
/// parameters alike: as an outline frame or not, and with the same line for a
/// carried outline position.
proof fn lemma_frame_prep_same(m1: MapperModel, m2: MapperModel, f: FrameModel, carried: Option<usize>)
    requires
        same_but_param_mapping(m1, m2),
        f.parameters is None,
    ensures
        crate::mapper::is_outline_frame(m1, f.class, f.method) == crate::mapper::is_outline_frame(
            m2,
            f.class,
            f.method,
        ),
        crate::mapper::prepare_frame(m1, f, carried) == crate::mapper::prepare_frame(m2, f, carried),
        crate::mapper::prepare_frame(m1, f, carried).parameters is None,
{
    let g1 = group(m1.members, f.class, f.method);
    let g2 = group(m2.members, f.class, f.method);
    lemma_groups_same(m1, m2, f.class, f.method);
    if g1.len() > 0 {
        assert(same_but_params(g1[0], g2[0]));
        lemma_outline_same(m1.members, m2.members, g1[0], g2[0]);
    }
    match carried {
        Some(pos) => lemma_first_position_same(g1, g2, f.line, pos, 0),
        None => {},
    }
}

/// Mappers the same but for mapping by parameters remap the lines of a text
/// alike.
proof fn lemma_text_same(m1: MapperModel, m2: MapperModel, lines: Seq<Seq<u8>>, n: int)
    requires
        same_but_param_mapping(m1, m2),
    ensures
        fold_text(m1, lines, n) == fold_text(m2, lines, n),
    decreases n,
{
    if n > 0 {
        lemma_text_same(m1, m2, lines, n - 1);
        let st = fold_text(m1, lines, n - 1);
        let line = lines[n - 1];
        match spec_parse_throwable(line) {
            Some(t) => {},
            None => match spec_parse_frame(line) {
                Some(f) => {
                    lemma_frame_prep_same(m1, m2, f, st.carried);
                    let p = crate::mapper::prepare_frame(m1, f, st.carried);
                    lemma_collect_same(m1, m2, p);
                },
                None => {},
            },
        }
    }
}

/// Preparing a mapper for mapping by parameters changes neither how classes
/// and methods remap nor how a stack trace given as text remaps.
pub proof fn law_param_mapping_keeps_text_remapping(source: Seq<u8>, c: Seq<u8>, meth: Seq<u8>, input: Seq<u8>)
    ensures
        spec_remap_class(spec_mapper(source, true), c) == spec_remap_class(spec_mapper(source, false), c),
        spec_remap_method(spec_mapper(source, true), c, meth) == spec_remap_method(
            spec_mapper(source, false),
            c,
            meth,
        ),
        spec_remap_stacktrace(spec_mapper(source, true), input) == spec_remap_stacktrace(
            spec_mapper(source, false),
            input,
        ),
{
    let m1 = spec_mapper(source, true);
    let m2 = spec_mapper(source, false);
    lemma_param_mappers(source);
    let g1 = group(m1.members, c, meth);
    let g2 = group(m2.members, c, meth);
    lemma_groups_same(m1, m2, c, meth);
    assert forall|k: int| 0 <= k < g1.len() implies #[trigger] g1[k].original == g2[k].original by {
        assert(same_but_params(g1[k], g2[k]));
    }
    if g1.len() > 0 {
        assert(same_but_params(g1[0], g2[0]));
        if forall|k: int| 0 <= k < g1.len() ==> #[trigger] g1[k].original == g1[0].original {
            assert forall|k: int| 0 <= k < g2.len() implies #[trigger] g2[k].original == g2[0].original by {
                assert(g1[k].original == g1[0].original);
            }
        }
        if forall|k: int| 0 <= k < g2.len() ==> #[trigger] g2[k].original == g2[0].original {
            assert forall|k: int| 0 <= k < g1.len() implies #[trigger] g1[k].original == g1[0].original by {
                assert(g2[k].original == g2[0].original);
            }
        }
    }
    let lines = spec_lines(input);
    lemma_text_same(m1, m2, lines, lines.len() as int);
}

} // verus!

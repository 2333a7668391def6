//! How remapping a stack trace proceeds line by line and frame by frame.

use vstd::prelude::*;

use crate::mapper::{
    fold_frames, fold_text, is_outline_frame, kept_frames, newline, outline_position,
    prepare_frame, spec_collect, spec_remap_throwable, step_frames, step_text, MapperModel,
    TextState,
};
use crate::mapping::strip_prefix;
use crate::stacktrace::{spec_parse_frame, spec_parse_throwable, FrameModel};
use crate::text::caused_by_bytes;

verus! {

/// Remapping a line only adds to what was written before it.
pub proof fn law_text_output_grows(mm: MapperModel, st: TextState, line: Seq<u8>)
    ensures
        st.out.len() <= step_text(mm, st, line).out.len(),
        step_text(mm, st, line).out.subrange(0, st.out.len() as int) == st.out,
{
    let r = step_text(mm, st, line).out;
    assert(r.subrange(0, st.out.len() as int) =~= st.out);
}

/// A line that is no frame, and no throwable or `Caused by: ` throwable of
/// a class that the mapper knows, is copied as it is, followed by a newline.
pub proof fn law_unmapped_line_copied(mm: MapperModel, st: TextState, line: Seq<u8>)
    requires
        spec_parse_throwable(line) matches Some(t) ==> spec_remap_throwable(mm, t) is None,
        spec_parse_throwable(line) is None ==> spec_parse_frame(line) is None,
        strip_prefix(line, caused_by_bytes()) matches Some(rest) ==> (spec_parse_throwable(
            rest,
        ) matches Some(c) ==> spec_remap_throwable(mm, c) is None),
    ensures
        step_text(mm, st, line).out == st.out + line + newline(),
{
}

/// A frame line that is not in an outline and remaps to no frame is copied
/// as it is, followed by a newline.
pub proof fn law_unmapped_frame_copied(mm: MapperModel, st: TextState, line: Seq<u8>, f: FrameModel)
    requires
        spec_parse_throwable(line) is None,
        spec_parse_frame(line) == Some(f),
        !is_outline_frame(mm, f.class, f.method),
        spec_collect(mm, prepare_frame(mm, f, st.carried)).0.len() == 0,
    ensures
        step_text(mm, st, line).out == st.out + line + newline(),
{
}

/// A frame line in an outline writes nothing and carries its line, as an
/// outline position, on to the next frame, which is remapped at the line of
/// the call site that the position maps to, where it maps.
pub proof fn law_outline_frame_carries(mm: MapperModel, st: TextState, line: Seq<u8>, f: FrameModel, g: FrameModel)
    requires
        spec_parse_throwable(line) is None,
        spec_parse_frame(line) == Some(f),
        is_outline_frame(mm, f.class, f.method),
    ensures
        step_text(mm, st, line).out == st.out,
        step_text(mm, st, line).carried == Some(f.line),
        prepare_frame(mm, g, Some(f.line)) == match outline_position(mm, g, f.line) {
            Some(l) => FrameModel { line: l, ..g },
            None => g,
        },
{
}

/// Each line of a text adds to the remapped text of the lines before it.
pub proof fn law_text_fold_grows(mm: MapperModel, lines: Seq<Seq<u8>>, n: int)
    requires
        0 < n,
    ensures
        fold_text(mm, lines, n).out.subrange(0, fold_text(mm, lines, n - 1).out.len() as int)
            == fold_text(mm, lines, n - 1).out,
{
    law_text_output_grows(mm, fold_text(mm, lines, n - 1), lines[n - 1]);
}

/// The frames of a typed stack trace remap one after the other: a frame not
/// in an outline adds the frames it remaps to (the first after an exception
/// possibly shortened by rewrite rules), or itself where it remaps to none.
pub proof fn law_typed_frames_concatenate(mm: MapperModel, d: Option<Seq<u8>>, frames: Seq<FrameModel>, n: int)
    requires
        0 < n <= frames.len(),
        !is_outline_frame(mm, frames[n - 1].class, frames[n - 1].method),
    ensures
        ({
            let before = fold_frames(mm, d, frames, n - 1);
            let f = frames[n - 1];
            let (fs, rules) = spec_collect(mm, prepare_frame(mm, f, before.carried));
            fold_frames(mm, d, frames, n).out == before.out + if fs.len() > 0 {
                kept_frames(fs, rules, d, before.can_rewrite)
            } else {
                seq![f]
            }
        }),
{
}

} // verus!

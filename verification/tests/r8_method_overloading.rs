use proguard::{ProguardMapper, RemappedFrameIter, StackFrame};

fn collect_frames<'a>(mut frames: RemappedFrameIter<'a>) -> Vec<StackFrame<'a>> {
    let mut out = Vec::new();
    while let Some(frame) = frames.next() {
        out.push(frame);
    }
    out
}

fn assert_remap_stacktrace(mapping: &str, input: &str, expected: &str) {
    let mapper = ProguardMapper::from(mapping);
    let actual = mapper.remap_stacktrace(input).unwrap();
    assert_eq!(actual.trim_end(), expected.trim_end());
}




const OVERLOAD_SAME_LINE_MAPPING: &str = r#"com.android.tools.r8.naming.retrace.Main -> foo.a:
    1:1:void overload():7:7 -> overload
    1:1:void overload(java.lang.String):13:13 -> overload
    1:1:void overload(int):15:15 -> overload
"#;


#[test]
fn test_overload_same_line_stacktrace() {
    let input = r#"Exception in thread "main" java.lang.NullPointerException
	at foo.a.overload(Main.java:1)
"#;

    // Upstream emits 3 alternatives (one per overload) for the same minified position.
    // This crate emits alternatives as duplicate frames (no `<OR>` markers).
    let expected = r#"Exception in thread "main" java.lang.NullPointerException
    at com.android.tools.r8.naming.retrace.Main.overload(Main.java:7)
    at com.android.tools.r8.naming.retrace.Main.overload(Main.java:13)
    at com.android.tools.r8.naming.retrace.Main.overload(Main.java:15)
"#;

    assert_remap_stacktrace(OVERLOAD_SAME_LINE_MAPPING, input, expected);
}

const RETRACE_MAPPING_WITH_OVERLOADS_MAPPING: &str = r#"some.Class -> A:
    java.util.List select(java.util.List) -> a
    3:3:void sync():425:425 -> a
    4:5:void sync():427:428 -> a
    void cancel(java.lang.String[]) -> a
"#;


#[test]
fn test_retrace_mapping_with_overloads_api_has_2_candidates_no_position() {
    let mapper = ProguardMapper::from(RETRACE_MAPPING_WITH_OVERLOADS_MAPPING);

    // For stacktrace remapping with no position (line == 0), align with R8's
    // "no position" semantics: do not include line-ranged mappings.
    let frame = StackFrame::new("A", "a", 0);
    let remapped: Vec<_> = collect_frames(mapper.remap_frame(&frame));
    assert_eq!(remapped.len(), 2);
}

#[test]
fn test_retrace_mapping_with_overloads_api_includes_sync_with_line() {
    let mapper = ProguardMapper::from(RETRACE_MAPPING_WITH_OVERLOADS_MAPPING);

    // When the minified line hits the `sync()` mapping range, it should produce a `sync` candidate.
    let frame = StackFrame::new("A", "a", 3);
    let remapped: Vec<_> = collect_frames(mapper.remap_frame(&frame));
    assert!(remapped.iter().any(|f| f.method() == "sync"));
}



use proguard::{ProguardMapper, StackFrame, StackTrace, Throwable};

#[test]
fn rewrite_frame_typed_stacktrace() {
    let mapping = "\
some.Class -> a:
    4:4:void other.Class.inlinee():23:23 -> a
    4:4:void caller(other.Class):7 -> a
    # {\"id\":\"com.android.tools.r8.rewriteFrame\",\"conditions\":[\"throws(Ljava/lang/NullPointerException;)\"],\"actions\":[\"removeInnerFrames(1)\"]}
";
    let trace = StackTrace::new(
        Some(Throwable::with_message("java.lang.NullPointerException", "Boom")),
        vec![StackFrame::with_file("a", "a", 4, "SourceFile")],
    );

    let mapper = ProguardMapper::from(mapping);
    let remapped = mapper.remap_stacktrace_typed(&trace);

    assert_eq!(remapped.frames().len(), 1);
    assert_eq!(remapped.frames()[0].class(), "some.Class");
    assert_eq!(remapped.frames()[0].method(), "caller");
    assert_eq!(remapped.frames()[0].line(), 7);
}

#[test]
fn remap_frame_without_mapping_keeps_original_line() {
    let mapping = "\
some.Class -> a:
    1:1:void some.Class.existing():10:10 -> a
";
    let mapper = ProguardMapper::from(mapping);

    let input = "\
java.lang.RuntimeException: boom
    at a.missing(SourceFile:42)
";
    let expected = "\
java.lang.RuntimeException: boom
    at a.missing(SourceFile:42)
";

    assert_eq!(mapper.remap_stacktrace(input).unwrap(), expected);
}

const ROCKET_MAPPING: &str = "\
com.example.MainFragment$EngineFailureException -> com.example.MainFragment$d:
com.example.MainFragment$RocketException -> com.example.MainFragment$e:
com.example.MainFragment$onActivityCreated$4 -> com.example.MainFragment$g:
    1:1:void com.example.MainFragment$Rocket.startEngines():90:90 -> onClick
    1:1:void com.example.MainFragment$Rocket.fly():83 -> onClick
    1:1:void onClick(android.view.View):65 -> onClick
    2:2:void com.example.MainFragment$Rocket.fly():85:85 -> onClick
    2:2:void onClick(android.view.View):65 -> onClick
    ";

#[test]
fn stacktrace() {
    let stacktrace = StackTrace::with_cause(
        Some(Throwable::with_message("com.example.MainFragment$e", "Crash!")),
        vec![
            StackFrame::with_file("com.example.MainFragment$g", "onClick", 2, "SourceFile"),
            StackFrame::with_file("android.view.View", "performClick", 7393, "View.java"),
        ],
        StackTrace::new(
            Some(Throwable::with_message("com.example.MainFragment$d", "Engines overheating")),
            vec![StackFrame::with_file("com.example.MainFragment$g", "onClick", 1, "SourceFile")],
        ),
    );
    let expect = "\
com.example.MainFragment$RocketException: Crash!
    at com.example.MainFragment$Rocket.fly(<unknown>:85)
    at com.example.MainFragment$onActivityCreated$4.onClick(SourceFile:65)
    at android.view.View.performClick(View.java:7393)
Caused by: com.example.MainFragment$EngineFailureException: Engines overheating
    at com.example.MainFragment$Rocket.startEngines(<unknown>:90)
    at com.example.MainFragment$Rocket.fly(<unknown>:83)
    at com.example.MainFragment$onActivityCreated$4.onClick(SourceFile:65)\n";

    let mapper = ProguardMapper::from(ROCKET_MAPPING);

    assert_eq!(mapper.remap_stacktrace_typed(&stacktrace).to_string(), expect);
}

#[test]
fn stacktrace_str() {
    let stacktrace = "\
com.example.MainFragment$e: Crash!
    at com.example.MainFragment$g.onClick(SourceFile:2)
    at android.view.View.performClick(View.java:7393)
Caused by: com.example.MainFragment$d: Engines overheating
    at com.example.MainFragment$g.onClick(SourceFile:1)
    ... 13 more";
    let expect = "\
com.example.MainFragment$RocketException: Crash!
    at com.example.MainFragment$Rocket.fly(<unknown>:85)
    at com.example.MainFragment$onActivityCreated$4.onClick(SourceFile:65)
    at android.view.View.performClick(View.java:7393)
Caused by: com.example.MainFragment$EngineFailureException: Engines overheating
    at com.example.MainFragment$Rocket.startEngines(<unknown>:90)
    at com.example.MainFragment$Rocket.fly(<unknown>:83)
    at com.example.MainFragment$onActivityCreated$4.onClick(SourceFile:65)
    ... 13 more\n";

    let mapper = ProguardMapper::from(ROCKET_MAPPING);

    assert_eq!(mapper.remap_stacktrace(stacktrace).unwrap(), expect);
}

const REWRITE_MAPPING: &str = "\
some.Class -> a:
    4:4:void other.Class.inlinee():23:23 -> a
    4:4:void caller(other.Class):7 -> a
    # {\"id\":\"com.android.tools.r8.rewriteFrame\",\"conditions\":[\"throws(Ljava/lang/NullPointerException;)\"],\"actions\":[\"removeInnerFrames(1)\"]}
";

#[test]
fn rewrite_frame_remove_inner_frame() {
    let stacktrace = "\
java.lang.NullPointerException: Boom
    at a.a(SourceFile:4)";
    let expect = "\
java.lang.NullPointerException: Boom
    at some.Class.caller(SourceFile:7)
";

    let mapper = ProguardMapper::from(REWRITE_MAPPING);

    assert_eq!(mapper.remap_stacktrace(stacktrace).unwrap(), expect);
}

#[test]
fn rewrite_frame_condition_mismatch() {
    let stacktrace = "\
java.lang.IllegalStateException: Boom
    at a.a(SourceFile:4)";
    let expect = "\
java.lang.IllegalStateException: Boom
    at other.Class.inlinee(<unknown>:23)
    at some.Class.caller(SourceFile:7)
";

    let mapper = ProguardMapper::from(REWRITE_MAPPING);

    assert_eq!(mapper.remap_stacktrace(stacktrace).unwrap(), expect);
}

#[test]
fn rewrite_frame_multiple_rules_or_semantics() {
    let mapping = "\
some.Class -> a:
    4:4:void other.Class.inlinee():23:23 -> call
    4:4:void outer():7 -> call
    # {\"id\":\"com.android.tools.r8.rewriteFrame\",\"conditions\":[\"throws(Ljava/lang/NullPointerException;)\"],\"actions\":[\"removeInnerFrames(1)\"]}
    # {\"id\":\"com.android.tools.r8.rewriteFrame\",\"conditions\":[\"throws(Ljava/lang/IllegalStateException;)\"],\"actions\":[\"removeInnerFrames(1)\"]}
";
    let mapper = ProguardMapper::from(mapping);

    let input_npe = "\
java.lang.NullPointerException: Boom
    at a.call(SourceFile:4)";
    let expected_npe = "\
java.lang.NullPointerException: Boom
    at some.Class.outer(SourceFile:7)
";
    assert_eq!(mapper.remap_stacktrace(input_npe).unwrap(), expected_npe);

    let input_ise = "\
java.lang.IllegalStateException: Boom
    at a.call(SourceFile:4)";
    let expected_ise = "\
java.lang.IllegalStateException: Boom
    at some.Class.outer(SourceFile:7)
";
    assert_eq!(mapper.remap_stacktrace(input_ise).unwrap(), expected_ise);
}

#[test]
fn rewrite_rules_apply_to_first_frame_only() {
    let mapper = ProguardMapper::from(REWRITE_MAPPING);
    let input = "java.lang.NullPointerException: Boom\n    at a.a(SourceFile:4)\n    at a.a(SourceFile:4)";
    assert_eq!(
        mapper.remap_stacktrace(input).unwrap(),
        "java.lang.NullPointerException: Boom\n    at some.Class.caller(SourceFile:7)\n    at other.Class.inlinee(<unknown>:23)\n    at some.Class.caller(SourceFile:7)\n"
    );
}

use proguard::{
    class_name_to_descriptor, deobfuscate_bytecode_signature, ProguardMapper, ProguardMapping,
    RemappedFrameIter, StackFrame, StackTrace, Throwable,
};

fn collect_frames<'a>(mut frames: RemappedFrameIter<'a>) -> Vec<StackFrame<'a>> {
    let mut out = Vec::new();
    while let Some(frame) = frames.next() {
        out.push(frame);
    }
    out
}

const SAFE_ITERABLE_MAP: &str = r#"
android.arch.core.internal.SafeIterableMap -> a.a.a.b.c:
    13:13:java.util.Map$Entry eldest():168:168 -> a
"#;

#[test]
fn remap_class_and_frame_of_a_small_mapping() {
    let mapper = ProguardMapper::from(SAFE_ITERABLE_MAP);

    assert_eq!(
        mapper.remap_class("a.a.a.b.c"),
        Some("android.arch.core.internal.SafeIterableMap")
    );
    assert_eq!(mapper.remap_class("a.a.a.b.d"), None);

    let frames = collect_frames(mapper.remap_frame(&StackFrame::new("a.a.a.b.c", "a", 13)));
    assert_eq!(frames.len(), 1);
    assert_eq!(frames[0].class(), "android.arch.core.internal.SafeIterableMap");
    assert_eq!(frames[0].method(), "eldest");
    assert_eq!(frames[0].line(), 168);
    assert_eq!(frames[0].file(), None);

    // A line outside the member's range maps to nothing.
    let frames = collect_frames(mapper.remap_frame(&StackFrame::new("a.a.a.b.c", "a", 14)));
    assert!(frames.is_empty());
}

#[test]
fn remapped_frame_iter_ends() {
    let mapper = ProguardMapper::from(SAFE_ITERABLE_MAP);
    let frame = StackFrame::new("a.a.a.b.c", "a", 13);
    let mut iter = mapper.remap_frame(&frame);
    assert!(iter.next().is_some());
    assert!(iter.next().is_none());
    assert!(iter.next().is_none());
}

#[test]
fn remap_throwable_keeps_message() {
    let mapper = ProguardMapper::from("com.example.Mapper -> a.b:");

    let throwable = Throwable::try_parse(b"a.b: Crash").unwrap();
    assert_eq!(
        mapper.remap_throwable(&throwable),
        Some(Throwable::with_message("com.example.Mapper", "Crash"))
    );
    let unknown = Throwable::new("x.y");
    assert_eq!(mapper.remap_throwable(&unknown), None);
}

#[test]
fn later_class_record_wins() {
    let mapper = ProguardMapper::from("first.Name -> a:\nsecond.Name -> a:\nother.Name -> b:\n");
    assert_eq!(mapper.remap_class("a"), Some("second.Name"));
    assert_eq!(mapper.remap_class("b"), Some("other.Name"));
}

#[test]
fn method_before_any_class_declares_nothing() {
    let mapper = ProguardMapper::from("    void foo() -> a\nsome.Class -> b:\n");
    assert_eq!(mapper.remap_class("b"), None);
}

#[test]
fn is_valid_and_has_line_info() {
    let valid = ProguardMapping::new(b"a -> b:\n    void method() -> b");
    assert!(valid.is_valid());

    let invalid = ProguardMapping::new(
        br#"
# looks: like
a -> proguard:
  mapping but(is) -> not
"#,
    );
    assert!(!invalid.is_valid());

    let with = ProguardMapping::new(b"a -> b:\n    1:1:void method() -> a");
    assert!(with.has_line_info());

    let without = ProguardMapping::new(b"a -> b:\n    void method() -> b");
    assert!(!without.has_line_info());
}

#[test]
fn summary_reads_headers_and_counts() {
    let mapping = ProguardMapping::new(
        b"# compiler: R8\n# compiler_version: 1.3.49\n# min_api: 15\na -> b:\n    void m() -> a\n    int f -> b\nc -> d:\n    1:2:void n():3:4 -> c\n",
    );
    let summary = mapping.summary();
    assert_eq!(summary.compiler(), Some("R8"));
    assert_eq!(summary.compiler_version(), Some("1.3.49"));
    assert_eq!(summary.min_api(), Some(15));
    assert_eq!(summary.class_count(), 2);
    assert_eq!(summary.method_count(), 2);
}

#[test]
fn uuid_of_mapping() {
    let mapping = ProguardMapping::new(b"a -> b:\n    void method() -> b");
    assert_eq!(
        mapping.uuid_bytes(),
        [0, 153, 212, 172, 125, 168, 94, 249, 186, 214, 67, 194, 111, 5, 46, 152]
    );
    assert_eq!(
        mapping.uuid().to_string(),
        "0099d4ac-7da8-5ef9-bad6-43c26f052e98"
    );
    let empty = ProguardMapping::new(b"");
    assert_eq!(
        empty.uuid().to_string(),
        "0e71d76c-5067-5a02-a5d9-7e81070eb125"
    );
}

#[test]
fn throwable_text_round_trip() {
    let throwable = Throwable::with_message("com.example.Error", "something: failed");
    let text = throwable.to_string();
    assert_eq!(text, "com.example.Error: something: failed");
    assert_eq!(Throwable::try_parse(text.as_bytes()), Some(throwable));

    let bare = Throwable::new("com.example.Error");
    assert_eq!(Throwable::try_parse(bare.to_string().as_bytes()), Some(bare));
}

#[test]
fn frame_text_round_trip() {
    let frame = StackFrame::with_file("com.example.Outer$Inner", "run", 1234, "Outer.kt");
    let text = frame.to_string();
    assert_eq!(text, "at com.example.Outer$Inner.run(Outer.kt:1234)");
    assert_eq!(StackFrame::try_parse(text.as_bytes()), Some(frame));
}

#[test]
fn frames_without_a_line_number_have_line_zero() {
    assert_eq!(
        StackFrame::try_parse(b"at a.b(File.java)"),
        Some(StackFrame::with_file("a", "b", 0, "File.java"))
    );
    assert_eq!(
        StackFrame::try_parse(b"at a.b(File.java:x)"),
        Some(StackFrame::with_file("a", "b", 0, "File.java"))
    );
    assert_eq!(
        StackFrame::try_parse(b"at a.b(:foo::bar:1)"),
        Some(StackFrame::with_file("a", "b", 1, ":foo::bar"))
    );
}

#[test]
fn parse_rejects_bad_lines() {
    assert_eq!(StackFrame::try_parse(b"at ab(File.java:1)"), None);
    assert_eq!(StackFrame::try_parse(b"at a.b File.java:1"), None);
    assert_eq!(StackFrame::try_parse(b"a.b(File.java:1)"), None);
    assert_eq!(StackFrame::try_parse(&[0xff, 0xfe]), None);
    assert_eq!(Throwable::try_parse(b"not a throwable: at all"), None);
    assert_eq!(StackTrace::try_parse(&[0xc3]), None);
}

#[test]
fn unknown_classes_are_left_unchanged() {
    let mapper = ProguardMapper::from("");
    let input = "java.lang.Error: boom\r\n    at a.b(C.java:1)\nCaused by: x.y: z\n    ... 3 more";
    let expected = "java.lang.Error: boom\n    at a.b(C.java:1)\nCaused by: x.y: z\n    ... 3 more\n";
    assert_eq!(mapper.remap_stacktrace(input).unwrap(), expected);

    let trace = StackTrace::new(
        Some(Throwable::with_message("java.lang.Error", "boom")),
        vec![StackFrame::with_file("a", "b", 1, "C.java")],
    );
    let remapped = mapper.remap_stacktrace_typed(&trace);
    assert_eq!(remapped.exception(), None);
    assert_eq!(remapped.frames(), trace.frames());
}

#[test]
fn caused_by_lines_are_remapped() {
    let mapper = ProguardMapper::from("com.example.Failure -> a:\n");
    let input = "a: top\nCaused by: a: inner\n";
    let expected = "com.example.Failure: top\nCaused by: com.example.Failure: inner\n";
    assert_eq!(mapper.remap_stacktrace(input).unwrap(), expected);
}

const REWRITE_MAPPING: &str = "\
some.Class -> a:
    4:4:void other.Class.inlinee():23:23 -> a
    4:4:void caller(other.Class):7 -> a
    # {\"id\":\"com.android.tools.r8.rewriteFrame\",\"conditions\":[\"throws(Ljava/lang/NullPointerException;)\"],\"actions\":[\"removeInnerFrames(1)\"]}
";

#[test]
fn rewrite_rules_drop_inner_frames_only_for_their_exception() {
    let mapper = ProguardMapper::from(REWRITE_MAPPING);

    let npe = "java.lang.NullPointerException: Boom\n    at a.a(SourceFile:4)";
    assert_eq!(
        mapper.remap_stacktrace(npe).unwrap(),
        "java.lang.NullPointerException: Boom\n    at some.Class.caller(SourceFile:7)\n"
    );

    let other = "java.lang.IllegalStateException: Boom\n    at a.a(SourceFile:4)";
    assert_eq!(
        mapper.remap_stacktrace(other).unwrap(),
        "java.lang.IllegalStateException: Boom\n    at other.Class.inlinee(<unknown>:23)\n    at some.Class.caller(SourceFile:7)\n"
    );

    // Without an exception line the rule does not apply.
    let frames_only = "    at a.a(SourceFile:4)";
    assert_eq!(
        mapper.remap_stacktrace(frames_only).unwrap(),
        "    at other.Class.inlinee(<unknown>:23)\n    at some.Class.caller(SourceFile:7)\n"
    );
}

#[test]
fn remap_method_agrees_with_frames() {
    let mapper = ProguardMapper::from(
        "com.example.Main -> a:\n    1:1:void run():10:10 -> b\n    2:3:void run():20:21 -> b\n    4:4:void other():5:5 -> c\n    4:4:void run():6 -> c\n",
    );
    assert_eq!(mapper.remap_method("a", "b"), Some(("com.example.Main", "run")));
    assert_eq!(mapper.remap_method("a", "c"), None);
    assert_eq!(mapper.remap_method("a", "d"), None);
    assert_eq!(mapper.remap_method("z", "b"), None);

    let frames = collect_frames(mapper.remap_frame(&StackFrame::new("a", "b", 3)));
    assert_eq!(frames.len(), 1);
    assert_eq!(frames[0].method(), "run");
    assert_eq!(frames[0].line(), 21);
}

#[test]
fn param_mapping_keeps_frames_with_lines() {
    let text = "com.example.Main -> a:\n    1:1:void run(int):10:10 -> b\n    1:1:void outer():3 -> b\n    2:2:void run(long):12:12 -> b\n";
    let plain = ProguardMapper::new(ProguardMapping::new(text.as_bytes()));
    let params = ProguardMapper::new_with_param_mapping(ProguardMapping::new(text.as_bytes()), true);

    let frame = StackFrame::new("a", "b", 1);
    let from_plain = collect_frames(plain.remap_frame(&frame));
    let from_params = collect_frames(params.remap_frame(&frame));
    assert_eq!(from_plain, from_params);
    assert_eq!(from_plain.len(), 2);

    // By parameters: the inlined `run(int)` is left out, `run(long)` is found.
    let by_long = collect_frames(params.remap_frame(&StackFrame::with_parameters("a", "b", "long")));
    assert_eq!(by_long.len(), 1);
    assert_eq!(by_long[0].method(), "run");
    assert_eq!(by_long[0].line(), 0);
    assert_eq!(by_long[0].file(), None);
    assert_eq!(by_long[0].parameters(), Some("long"));

    let by_int = collect_frames(params.remap_frame(&StackFrame::with_parameters("a", "b", "int")));
    assert!(by_int.is_empty());

    // Without the parameter mapping, no member maps frames by parameters.
    let none = collect_frames(plain.remap_frame(&StackFrame::with_parameters("a", "b", "long")));
    assert!(none.is_empty());
}

#[test]
fn synthesized_members_are_flagged() {
    let mapper = ProguardMapper::from(
        "com.example.Main -> a:\n    1:1:void lambda$run$0():10:10 -> b\n    # {\"id\":\"com.android.tools.r8.synthesized\"}\n    2:2:void run():20:20 -> c\n",
    );
    let frames = collect_frames(mapper.remap_frame(&StackFrame::new("a", "b", 1)));
    assert_eq!(frames.len(), 1);
    assert!(frames[0].method_synthesized());
    let frames = collect_frames(mapper.remap_frame(&StackFrame::new("a", "c", 2)));
    assert!(!frames[0].method_synthesized());
}

#[test]
fn source_files_of_classes() {
    let mapper = ProguardMapper::from(
        "com.example.Main -> a:\n# {\"id\":\"sourceFile\",\"fileName\":\"Main.kt\"}\n    1:1:void run():10:10 -> b\ncom.example.Gen -> c:\n# {\"id\":\"sourceFile\",\"fileName\":\"R8$$SyntheticClass\"}\n    1:1:void go():3:3 -> d\n",
    );
    let frames = collect_frames(mapper.remap_frame(&StackFrame::new("a", "b", 1)));
    assert_eq!(frames[0].file(), Some("Main.kt"));
    let frames = collect_frames(mapper.remap_frame(&StackFrame::new("c", "d", 1)));
    assert_eq!(frames[0].file(), Some("Gen"));
}

#[test]
fn line_offsets_within_a_range() {
    let mapper = ProguardMapper::from("com.example.Main -> a:\n    10:19:void run():100:109 -> b\n");
    for line in 10..=19 {
        let frames = collect_frames(mapper.remap_frame(&StackFrame::new("a", "b", line)));
        assert_eq!(frames.len(), 1);
        assert_eq!(frames[0].line(), 90 + line);
    }
}

#[test]
fn descriptor_of_class_name() {
    assert_eq!(
        class_name_to_descriptor("java.lang.NullPointerException"),
        "Ljava/lang/NullPointerException;"
    );
    assert_eq!(class_name_to_descriptor(""), "L;");
}

#[test]
fn deobfuscate_signatures() {
    let mapper = ProguardMapper::from("com.example.Thing -> a.b:\n");
    assert_eq!(
        deobfuscate_bytecode_signature("(La/b;[IJ)La/b;", &mapper),
        Some((
            vec![
                "com.example.Thing".to_string(),
                "int[]".to_string(),
                "long".to_string()
            ],
            "com.example.Thing".to_string()
        ))
    );
    assert_eq!(deobfuscate_bytecode_signature("(I", &mapper), None);
    assert_eq!(deobfuscate_bytecode_signature("I)V", &mapper), None);
    assert_eq!(deobfuscate_bytecode_signature("(La/b)V", &mapper), None);

    let signature = mapper.deobfuscate_signature("(ZLx/y;)[D").unwrap();
    assert_eq!(signature.return_type(), "double[]");
    assert_eq!(signature.parameters_types(), vec!["boolean", "x.y"]);
    assert_eq!(signature.format_signature(), "(boolean, x.y): double[]");
}

#[test]
fn param_mapping_keeps_text_remapping() {
    let source = b"some.Class -> a:
    1:1:void foo(int):10:10 -> a
    2:2:void bar(java.lang.String):20:20 -> a
    void baz() -> b
";
    let with = ProguardMapper::new_with_param_mapping(ProguardMapping::new(source), true);
    let without = ProguardMapper::new_with_param_mapping(ProguardMapping::new(source), false);
    let input = "java.lang.RuntimeException: x\n    at a.a(SourceFile:1)\n    at a.a(SourceFile:2)\n    at a.b(SourceFile:5)\n";
    assert_eq!(with.remap_stacktrace(input).unwrap(), without.remap_stacktrace(input).unwrap());
    assert_eq!(
        with.remap_stacktrace(input).unwrap(),
        "java.lang.RuntimeException: x\n    at some.Class.foo(SourceFile:10)\n    at some.Class.bar(SourceFile:20)\n    at some.Class.baz(SourceFile:0)\n"
    );
    for (c, m) in [("a", "a"), ("a", "b"), ("b", "a")] {
        assert_eq!(with.remap_method(c, m), without.remap_method(c, m));
        assert_eq!(with.remap_class(c), without.remap_class(c));
    }
    assert_eq!(with.remap_method("a", "b"), Some(("some.Class", "baz")));
    assert_eq!(with.remap_method("a", "a"), None);
}

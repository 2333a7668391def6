use proguard::{
    LineMapping, ProguardMapper, ProguardMapping, ProguardRecord, StackFrame, StackTrace,
    Throwable,
};

#[test]
fn example_remap_class() {
    let mapping = r#"android.arch.core.executor.ArchTaskExecutor -> a.a.a.a.c:"#;
    let mapper = ProguardMapper::from(mapping);

    let mapped = mapper.remap_class("a.a.a.a.c");
    assert_eq!(mapped, Some("android.arch.core.executor.ArchTaskExecutor"));
}

#[test]
fn example_remap_throwable() {
    let mapping = "com.example.Mapper -> a.b:";
    let mapper = ProguardMapper::from(mapping);

    let throwable = Throwable::try_parse(b"a.b: Crash").unwrap();
    let mapped = mapper.remap_throwable(&throwable);

    assert_eq!(
        Some(Throwable::with_message("com.example.Mapper", "Crash")),
        mapped
    );
}

#[test]
fn example_is_valid() {
    let valid = ProguardMapping::new(b"a -> b:\n    void method() -> b");
    assert_eq!(valid.is_valid(), true);

    let invalid = ProguardMapping::new(
        br#"
# looks: like
a -> proguard:
  mapping but(is) -> not
"#,
    );
    assert_eq!(invalid.is_valid(), false);
}

#[test]
fn example_has_line_info() {
    let with = ProguardMapping::new(b"a -> b:\n    1:1:void method() -> a");
    assert_eq!(with.has_line_info(), true);

    let without = ProguardMapping::new(b"a -> b:\n    void method() -> b");
    assert_eq!(without.has_line_info(), false);
}

#[test]
fn example_record_try_parse() {
    let parsed = ProguardRecord::try_parse(b"# compiler: R8");
    assert_eq!(
        parsed,
        Ok(ProguardRecord::Header {
            key: "compiler",
            value: Some("R8")
        })
    );

    let parsed =
        ProguardRecord::try_parse(b"android.arch.core.executor.ArchTaskExecutor -> a.a.a.a.c:");
    assert_eq!(
        parsed,
        Ok(ProguardRecord::Class {
            original: "android.arch.core.executor.ArchTaskExecutor",
            obfuscated: "a.a.a.a.c"
        })
    );

    let parsed = ProguardRecord::try_parse(
        b"    android.arch.core.executor.ArchTaskExecutor sInstance -> a",
    );
    assert_eq!(
        parsed,
        Ok(ProguardRecord::Field {
            ty: "android.arch.core.executor.ArchTaskExecutor",
            original: "sInstance",
            obfuscated: "a",
        })
    );

    let parsed = ProguardRecord::try_parse(
        b"    java.lang.Object putIfAbsent(java.lang.Object,java.lang.Object) -> b",
    );
    assert_eq!(
        parsed,
        Ok(ProguardRecord::Method {
            ty: "java.lang.Object",
            original: "putIfAbsent",
            obfuscated: "b",
            arguments: "java.lang.Object,java.lang.Object",
            original_class: None,
            line_mapping: None,
        })
    );

    let parsed = ProguardRecord::try_parse(
        b"    1016:1016:void com.example1.domain.MyBean.doWork():16:16 -> buttonClicked",
    );
    assert_eq!(
        parsed,
        Ok(ProguardRecord::Method {
            ty: "void",
            original: "doWork",
            obfuscated: "buttonClicked",
            arguments: "",
            original_class: Some("com.example1.domain.MyBean"),
            line_mapping: Some(LineMapping {
                startline: 1016,
                endline: 1016,
                original_startline: Some(16),
                original_endline: Some(16),
            }),
        })
    );
}

#[test]
fn example_stack_frame_try_parse() {
    let parsed = StackFrame::try_parse(b"    at some.Klass.method(Klass.java:1234)");
    assert_eq!(
        parsed,
        Some(StackFrame::with_file(
            "some.Klass",
            "method",
            1234,
            "Klass.java"
        ))
    );
}

#[test]
fn example_throwable_try_parse() {
    let parsed = Throwable::try_parse(b"some.CustomException: Crash!");
    assert_eq!(
        parsed,
        Some(Throwable::with_message("some.CustomException", "Crash!")),
    )
}

#[test]
fn example_stack_trace_try_parse() {
    let stacktrace = "\
some.CustomException: Crashed!
    at some.Klass.method(Klass.java:1234)
Caused by: some.InnerException
    at some.Klass2.method2(Klass2.java:5678)
";
    let parsed = StackTrace::try_parse(stacktrace.as_bytes());
    assert_eq!(
        parsed,
        Some(StackTrace::with_cause(
            Some(Throwable::with_message("some.CustomException", "Crashed!")),
            vec![StackFrame::with_file(
                "some.Klass",
                "method",
                1234,
                "Klass.java",
            )],
            StackTrace::new(
                Some(Throwable::new("some.InnerException")),
                vec![StackFrame::with_file(
                    "some.Klass2",
                    "method2",
                    5678,
                    "Klass2.java",
                )]
            )
        ))
    );
}

#[test]
fn example_crate_docs() {
    let mapping = r#"
android.arch.core.internal.SafeIterableMap -> a.a.a.b.c:
    13:13:java.util.Map$Entry eldest():168:168 -> a
"#;
    let mapper = ProguardMapper::from(mapping);

    assert_eq!(
        mapper.remap_class("a.a.a.b.c"),
        Some("android.arch.core.internal.SafeIterableMap"),
    );

    let frame = StackFrame::new("a.a.a.b.c", "a", 13);
    let mut frames = mapper.remap_frame(&frame);
    let mut remapped = Vec::new();
    while let Some(f) = frames.next() {
        remapped.push(f);
    }
    assert_eq!(
        remapped,
        vec![StackFrame::new("android.arch.core.internal.SafeIterableMap", "eldest", 168)],
    );
}

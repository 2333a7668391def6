use proguard::{ProguardCache, ProguardMapper, ProguardMapping};

const AMBIGUOUS_INLINE_FRAMES_MAPPING: &str = "\
com.android.tools.r8.R8 -> a.a:
    1:1:void foo(int):42:44 -> a
    1:1:void bar(int, int):32 -> a
    1:1:void baz(int, int):10 -> a
";

#[test]
fn test_ambiguous_inline_frames_stacktrace() {
    let input = "\
com.android.tools.r8.CompilationException:
    at a.a.a(Unknown Source:1)
";

    let expected = "\
com.android.tools.r8.CompilationException:
    at com.android.tools.r8.R8.foo(R8.java:42)
    at com.android.tools.r8.R8.bar(R8.java:32)
    at com.android.tools.r8.R8.baz(R8.java:10)
";

    let mapper = ProguardMapper::from(AMBIGUOUS_INLINE_FRAMES_MAPPING);
    let actual = mapper.remap_stacktrace(input).unwrap();
    assert_eq!(actual.trim(), expected.trim());

    let mapping = ProguardMapping::new(AMBIGUOUS_INLINE_FRAMES_MAPPING.as_bytes());
    let buf = ProguardCache::write(&mapping);
    let cache = ProguardCache::parse(&buf).unwrap();
    assert!(cache.test());

    let actual = cache.remap_stacktrace(input).unwrap();
    assert_eq!(actual.trim(), expected.trim());
}




const AMBIGUOUS_STACKTRACE_MAPPING: &str = "\
com.android.tools.r8.R8 -> a.a:
    void foo(int) -> a
    void bar(int, int) -> a
";

#[test]
fn test_ambiguous_stacktrace() {
    let input = "\
com.android.tools.r8.CompilationException: foo[parens](Source:3)
    at a.a.a(Unknown Source)
    at a.a.a(Unknown Source)
    at com.android.tools.r8.R8.main(Unknown Source)
Caused by: com.android.tools.r8.CompilationException: foo[parens](Source:3)
    at a.a.a(Unknown Source)
    ... 42 more
";

    let expected = "\
com.android.tools.r8.CompilationException: foo[parens](Source:3)
    at com.android.tools.r8.R8.foo(R8.java:0)
    at com.android.tools.r8.R8.bar(R8.java:0)
    at com.android.tools.r8.R8.foo(R8.java:0)
    at com.android.tools.r8.R8.bar(R8.java:0)
    at com.android.tools.r8.R8.main(Unknown Source)
Caused by: com.android.tools.r8.CompilationException: foo[parens](Source:3)
    at com.android.tools.r8.R8.foo(R8.java:0)
    at com.android.tools.r8.R8.bar(R8.java:0)
    ... 42 more
";

    let mapper = ProguardMapper::from(AMBIGUOUS_STACKTRACE_MAPPING);
    let actual = mapper.remap_stacktrace(input).unwrap();
    assert_eq!(actual.trim(), expected.trim());

    let mapping = ProguardMapping::new(AMBIGUOUS_STACKTRACE_MAPPING.as_bytes());
    let buf = ProguardCache::write(&mapping);
    let cache = ProguardCache::parse(&buf).unwrap();
    assert!(cache.test());

    let actual = cache.remap_stacktrace(input).unwrap();
    assert_eq!(actual.trim(), expected.trim());
}

const AMBIGUOUS_MISSING_LINE_MAPPING: &str = "\
com.android.tools.r8.R8 -> a.a:
    void foo(int) -> a
    void bar(int, int) -> a
";

#[test]
fn test_ambiguous_missing_line_stacktrace() {
    let input = "\
com.android.tools.r8.CompilationException: foo[parens](Source:3)
    at a.a.a(Unknown Source:7)
    at a.a.a(Unknown Source:8)
    at com.android.tools.r8.R8.main(Unknown Source)
Caused by: com.android.tools.r8.CompilationException: foo[parens](Source:3)
    at a.a.a(Unknown Source:9)
    ... 42 more
";

    let expected = "\
com.android.tools.r8.CompilationException: foo[parens](Source:3)
    at com.android.tools.r8.R8.foo(R8.java:0)
    at com.android.tools.r8.R8.bar(R8.java:0)
    at com.android.tools.r8.R8.foo(R8.java:0)
    at com.android.tools.r8.R8.bar(R8.java:0)
    at com.android.tools.r8.R8.main(Unknown Source)
Caused by: com.android.tools.r8.CompilationException: foo[parens](Source:3)
    at com.android.tools.r8.R8.foo(R8.java:0)
    at com.android.tools.r8.R8.bar(R8.java:0)
    ... 42 more
";

    let mapper = ProguardMapper::from(AMBIGUOUS_MISSING_LINE_MAPPING);
    let actual = mapper.remap_stacktrace(input).unwrap();
    assert_eq!(actual.trim(), expected.trim());

    let mapping = ProguardMapping::new(AMBIGUOUS_MISSING_LINE_MAPPING.as_bytes());
    let buf = ProguardCache::write(&mapping);
    let cache = ProguardCache::parse(&buf).unwrap();
    assert!(cache.test());

    let actual = cache.remap_stacktrace(input).unwrap();
    assert_eq!(actual.trim(), expected.trim());
}











use proguard::{
    deobfuscate_bytecode_signature, deobfuscate_bytecode_signature_cache, CacheErrorKind,
    ProguardCache, ProguardMapper, ProguardMapping, PRGCACHE_VERSION,
};

const SLF4J: &[u8] = b"org.slf4j.helpers.Util$ClassContextSecurityManager -> org.a.b.g$a:
    65:65:void <init>() -> <init>";

const INLINED: &[u8] = b"# {\"id\":\"com.android.tools.r8.mapping\",\"version\":\"2.0\"}
com.example.Main -> a:
# {\"id\":\"sourceFile\",\"fileName\":\"Main.kt\"}
    1:1:void run():10:10 -> a
    2:3:void inner():20:21 -> a
    2:3:void run():11 -> a
    4:4:void other(int) -> b
com.example.Other -> b:
    1:1:int get() -> c
";

fn header(magic: u32, version: u32, counts: [u32; 7]) -> Vec<u8> {
    let mut out = Vec::new();
    out.extend_from_slice(&magic.to_le_bytes());
    out.extend_from_slice(&version.to_le_bytes());
    for c in counts {
        out.extend_from_slice(&c.to_le_bytes());
    }
    out
}

#[test]
fn cache_starts_with_magic_and_version() {
    let buf = ProguardCache::write(&ProguardMapping::new(SLF4J));
    assert_eq!(&buf[0..4], b"PRGC");
    assert_eq!(u32::from_le_bytes([buf[4], buf[5], buf[6], buf[7]]), PRGCACHE_VERSION);
    assert_eq!(PRGCACHE_VERSION, 4);
}

#[test]
fn cache_remaps_classes_like_mapper() {
    let mapping = ProguardMapping::new(INLINED);
    let buf = ProguardCache::write(&mapping);
    let cache = ProguardCache::parse(&buf).unwrap();
    assert!(cache.test());
    let mapper = ProguardMapper::new(mapping);
    for name in ["a", "b", "c", "com.example.Main", ""] {
        assert_eq!(cache.remap_class(name), mapper.remap_class(name));
    }
    assert_eq!(cache.remap_class("a"), Some("com.example.Main"));
    assert_eq!(cache.remap_class("b"), Some("com.example.Other"));
    assert_eq!(cache.remap_class("c"), None);
}

#[test]
fn cache_of_empty_mapping() {
    let buf = ProguardCache::write(&ProguardMapping::new(b""));
    assert_eq!(buf.len(), 40);
    let cache = ProguardCache::parse(&buf).unwrap();
    assert!(cache.test());
    assert_eq!(cache.remap_class("a"), None);
    assert!(cache.debug_classes().is_empty());
    assert!(cache.debug_members().is_empty());
}

#[test]
fn cache_debug_records() {
    let buf = ProguardCache::write(&ProguardMapping::new(INLINED));
    let cache = ProguardCache::parse(&buf).unwrap();
    let classes = cache.debug_classes();
    assert_eq!(classes.len(), 2);
    assert_eq!(classes[0].obfuscated_name, Some("a"));
    assert_eq!(classes[0].original_name, Some("com.example.Main"));
    assert_eq!(classes[0].file_name, Some("Main.kt"));
    assert_eq!(classes[1].obfuscated_name, Some("b"));
    assert_eq!(classes[1].file_name, None);

    let members = cache.debug_members();
    assert_eq!(members.len(), 5);
    assert_eq!(members[0].obfuscated_name, Some("a"));
    assert_eq!(members[0].original_name, Some("run"));
    assert_eq!((members[0].startline, members[0].endline), (1, 1));
    assert_eq!((members[0].original_startline, members[0].original_endline), (10, 10));
    assert_eq!(members[0].original_file, Some("Main.kt"));
    assert_eq!(members[0].original_class, None);
    assert_eq!(members[0].params, None);
    assert_eq!(members[1].original_name, Some("inner"));
    assert_eq!((members[2].original_startline, members[2].original_endline), (11, u32::MAX));
    assert_eq!(members[3].original_name, Some("other"));
    assert_eq!(members[3].params, Some("int"));
    assert_eq!((members[3].original_startline, members[3].original_endline), (4, 4));
    assert_eq!(members[4].obfuscated_name, Some("c"));
    assert_eq!(members[4].original_file, None);
}

#[test]
fn cache_deobfuscates_signatures_like_mapper() {
    let mapping = ProguardMapping::new(SLF4J);
    let buf = ProguardCache::write(&mapping);
    let cache = ProguardCache::parse(&buf).unwrap();
    let mapper = ProguardMapper::new(mapping);
    let cases = [
        "()V",
        "([I)V",
        "(III)V",
        "([Ljava/lang/String;)V",
        "([[J)V",
        "(I)I",
        "([B)V",
        "(Ljava/lang/String;Ljava/lang/String;)Ljava/lang/String;",
        "(Lorg/a/b/g$a;)V",
        "",
        "()",
        "(L)",
    ];
    for sig in cases {
        assert_eq!(
            deobfuscate_bytecode_signature_cache(sig, &cache),
            deobfuscate_bytecode_signature(sig, &mapper)
        );
    }
    assert_eq!(
        deobfuscate_bytecode_signature_cache("(Lorg/a/b/g$a;)V", &cache),
        Some((
            vec!["org.slf4j.helpers.Util$ClassContextSecurityManager".to_string()],
            "void".to_string()
        ))
    );
    assert_eq!(deobfuscate_bytecode_signature_cache("(L)", &cache), None);
}

#[test]
fn cache_parse_invalid_header() {
    let err = ProguardCache::parse(b"PRGC").unwrap_err();
    assert_eq!(err.kind(), CacheErrorKind::InvalidHeader);
}

#[test]
fn cache_parse_wrong_format() {
    let buf = header(0x1234_5678, 4, [0; 7]);
    let err = ProguardCache::parse(&buf).unwrap_err();
    assert_eq!(err.kind(), CacheErrorKind::WrongFormat);
}

#[test]
fn cache_parse_wrong_endianness() {
    let buf = header(0x5052_4743, 4, [0; 7]);
    let err = ProguardCache::parse(&buf).unwrap_err();
    assert_eq!(err.kind(), CacheErrorKind::WrongEndianness);
}

#[test]
fn cache_parse_wrong_version() {
    let buf = header(0x4347_5250, 3, [0; 7]);
    let err = ProguardCache::parse(&buf).unwrap_err();
    assert_eq!(err.kind(), CacheErrorKind::WrongVersion);
}

#[test]
fn cache_parse_invalid_classes() {
    let buf = header(0x4347_5250, 4, [0; 7]);
    let err = ProguardCache::parse(&buf).unwrap_err();
    assert_eq!(err.kind(), CacheErrorKind::InvalidClasses);

    let mut buf = header(0x4347_5250, 4, [1, 0, 0, 0, 0, 0, 0]);
    buf.extend_from_slice(&[0; 4 + 31]);
    let err = ProguardCache::parse(&buf).unwrap_err();
    assert_eq!(err.kind(), CacheErrorKind::InvalidClasses);
}

#[test]
fn cache_parse_invalid_members() {
    let mut buf = header(0x4347_5250, 4, [0, 1, 0, 0, 0, 0, 0]);
    buf.extend_from_slice(&[0; 4 + 55]);
    let err = ProguardCache::parse(&buf).unwrap_err();
    assert_eq!(err.kind(), CacheErrorKind::InvalidMembers);

    let mut buf = header(0x4347_5250, 4, [0, 0, 0, 0, 0, 1, 0]);
    buf.extend_from_slice(&[0; 4 + 7]);
    let err = ProguardCache::parse(&buf).unwrap_err();
    assert_eq!(err.kind(), CacheErrorKind::InvalidMembers);
}

#[test]
fn cache_parse_unexpected_string_bytes() {
    let mut buf = header(0x4347_5250, 4, [0, 0, 0, 0, 0, 0, 5]);
    buf.extend_from_slice(&[0; 4 + 3]);
    let err = ProguardCache::parse(&buf).unwrap_err();
    assert_eq!(
        err.kind(),
        CacheErrorKind::UnexpectedStringBytes {
            expected: 5,
            found: 3
        }
    );
}

#[test]
fn cache_test_rejects_unreadable_strings() {
    let mut buf = header(0x4347_5250, 4, [1, 0, 0, 0, 0, 0, 0]);
    buf.extend_from_slice(&[0; 4]);
    // One class whose names point past the string section.
    for v in [7u32, 7, u32::MAX, 0, 0, 0, 0] {
        buf.extend_from_slice(&v.to_le_bytes());
    }
    buf.extend_from_slice(&[0; 4]);
    let cache = ProguardCache::parse(&buf).unwrap();
    assert!(!cache.test());
    assert_eq!(cache.remap_class("a"), None);
    let classes = cache.debug_classes();
    assert_eq!(classes[0].obfuscated_name, None);
}

#[test]
fn cache_test_accepts_readable_strings() {
    let mut buf = header(0x4347_5250, 4, [1, 0, 0, 0, 0, 0, 4]);
    buf.extend_from_slice(&[0; 4]);
    for v in [0u32, 2, u32::MAX, 0, 0, 0, 0] {
        buf.extend_from_slice(&v.to_le_bytes());
    }
    buf.extend_from_slice(&[0; 4]);
    buf.extend_from_slice(&[1, b'a', 1, b'A']);
    let cache = ProguardCache::parse(&buf).unwrap();
    assert!(cache.test());
    assert_eq!(cache.remap_class("a"), Some("A"));
}

#[test]
fn cache_remaps_stacktraces_like_param_mapper() {
    let mapping = ProguardMapping::new(INLINED);
    let buf = ProguardCache::write(&mapping);
    let cache = ProguardCache::parse(&buf).unwrap();
    let mapper = ProguardMapper::new_with_param_mapping(mapping, true);
    let input = "java.lang.RuntimeException: boom
    at a.a(SourceFile:2)
    at a.a(SourceFile:1)
    at a.b(SourceFile:4)
    at b.c(SourceFile:1)
    at x.y(Unknown Source)
";
    let from_cache = cache.remap_stacktrace(input).unwrap();
    assert_eq!(from_cache, mapper.remap_stacktrace(input).unwrap());
    assert_eq!(
        from_cache,
        "java.lang.RuntimeException: boom
    at com.example.Main.inner(Main.kt:20)
    at com.example.Main.run(Main.kt:11)
    at com.example.Main.run(Main.kt:10)
    at com.example.Main.other(Main.kt:4)
    at com.example.Other.get(SourceFile:1)
    at x.y(Unknown Source)
"
    );
}

const ZERO_LINE: &[u8] = b"androidx.compose.ui.graphics.shadow.AndroidShadowContext -> h2.a:
    0:0:android.graphics.Paint obtainDropShadowRenderer-eZhPAX0(long):68:68 -> b
    1:4:android.graphics.Paint obtainDropShadowRenderer-eZhPAX0(long):70:70 -> b
    5:7:android.graphics.Paint obtainDropShadowRenderer-eZhPAX0(long):71:71 -> b
";

#[test]
fn zero_zero_mapping_yields_to_line_mappings() {
    let frame = proguard::StackFrame::new("h2.a", "b", 3);
    let mapper = ProguardMapper::new(ProguardMapping::new(ZERO_LINE));
    let mut mapped = mapper.remap_frame(&frame);
    let first = mapped.next().unwrap();
    assert_eq!(first.class(), "androidx.compose.ui.graphics.shadow.AndroidShadowContext");
    assert_eq!(first.method(), "obtainDropShadowRenderer-eZhPAX0");
    assert_eq!(first.line(), 70);
    assert!(mapped.next().is_none());

    let buf = ProguardCache::write(&ProguardMapping::new(ZERO_LINE));
    let cache = ProguardCache::parse(&buf).unwrap();
    assert!(cache.test());
    let decoded = cache.mapper();
    let mut mapped = decoded.remap_frame(&frame);
    let first = mapped.next().unwrap();
    assert_eq!(first.line(), 70);
    assert!(mapped.next().is_none());
}

#[test]
fn cache_drops_zero_zero_records_of_methods_with_lines() {
    let mapping = ProguardMapping::new(
        b"some.Class -> a:\n    0:0:void m():68:68 -> b\n    1:4:void m():70:70 -> b\n    0:0:void n():5:5 -> c\n",
    );
    let w = ProguardCache::write(&mapping);
    assert_eq!(&w[0..4], b"PRGC");
    assert_eq!(u32::from_le_bytes([w[4], w[5], w[6], w[7]]), 4);
    assert_eq!(u32::from_le_bytes([w[8], w[9], w[10], w[11]]), 1);
    // b keeps only its 1:4 record; c has no line range, so its 0:0 record stays.
    assert_eq!(u32::from_le_bytes([w[12], w[13], w[14], w[15]]), 2);
    let cache = ProguardCache::parse(&w).unwrap();
    assert!(cache.test());
    let members = cache.debug_members();
    assert_eq!(members.len(), 2);
    assert_eq!(members[0].obfuscated_name, Some("b"));
    assert_eq!(members[0].startline, 1);
    assert_eq!(members[1].obfuscated_name, Some("c"));
}

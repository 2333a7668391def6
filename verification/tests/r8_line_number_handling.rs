use proguard::ProguardMapper;

fn assert_remap_stacktrace(mapping: &str, input: &str, expected: &str) {
    let mapper = ProguardMapper::from(mapping);
    let actual = mapper.remap_stacktrace(input).unwrap();
    assert_eq!(actual.trim_end(), expected.trim_end());
}

const OBFUSCATED_RANGE_TO_SINGLE_LINE_MAPPING: &str = r#"foo.bar.Baz -> a:
    1:10:void qux():27:27 -> a
    11:15:void qux():42 -> a
    1337:1400:void foo.bar.Baz.quux():113:113 -> b
    1337:1400:void quuz():72 -> b
"#;


#[test]
fn test_obfuscated_range_to_single_line_stacktrace() {
    let input = r#"UnknownException: This is just a fake exception
  at a.a(:8)
  at a.a(:13)
  at a.b(:1399)
"#;

    let expected = r#"UnknownException: This is just a fake exception
    at foo.bar.Baz.qux(Baz.java:27)
    at foo.bar.Baz.qux(Baz.java:42)
    at foo.bar.Baz.quux(Baz.java:113)
    at foo.bar.Baz.quuz(Baz.java:72)
"#;

    assert_remap_stacktrace(OBFUSCATED_RANGE_TO_SINGLE_LINE_MAPPING, input, expected);
}




















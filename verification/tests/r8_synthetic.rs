use proguard::{ProguardCache, ProguardMapper, ProguardMapping, StackFrame};





const MOVED_SYNTHETIZED_INFO_MAPPING: &str = "\
# { id: 'com.android.tools.r8.mapping', version: '2.2' }
com.android.tools.r8.BaseCommand$Builder -> foo.bar:
    1:1:void inlinee(java.util.Collection):0:0 -> inlinee$synthetic
    1:1:void inlinee$synthetic(java.util.Collection):0:0 -> inlinee$synthetic
    2:2:void inlinee(java.util.Collection):206:206 -> inlinee$synthetic
    2:2:void inlinee$synthetic(java.util.Collection):0:0 -> inlinee$synthetic
      # {\"id\":\"com.android.tools.r8.synthesized\"}
    4:4:void inlinee(java.util.Collection):208:208 -> inlinee$synthetic
    4:4:void inlinee$synthetic(java.util.Collection):0 -> inlinee$synthetic
    7:7:void error(origin.Origin,java.lang.Throwable):363:363 -> inlinee$synthetic
    7:7:void inlinee(java.util.Collection):210 -> inlinee$synthetic
    7:7:void inlinee$synthetic(java.util.Collection):0:0 -> inlinee$synthetic
";

#[test]
fn test_moved_synthetized_info_stacktrace() {
    let input = "\
java.lang.RuntimeException: foobar
	at foo.bar.inlinee$synthetic(BaseCommand.java:2)
";

    let expected = "\
java.lang.RuntimeException: foobar
    at com.android.tools.r8.BaseCommand$Builder.inlinee(BaseCommand.java:206)
";

    let mapper = ProguardMapper::from(MOVED_SYNTHETIZED_INFO_MAPPING);
    let actual = mapper.remap_stacktrace(input).unwrap();
    assert_eq!(actual.trim(), expected.trim());

    let mapping = ProguardMapping::new(MOVED_SYNTHETIZED_INFO_MAPPING.as_bytes());
    let buf = ProguardCache::write(&mapping);
    let cache = ProguardCache::parse(&buf).unwrap();
    assert!(cache.test());

    let actual = cache.remap_stacktrace(input).unwrap();
    assert_eq!(actual.trim(), expected.trim());
}

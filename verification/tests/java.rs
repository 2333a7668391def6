use proguard::{byte_code_type_to_java_type, ProguardMapper, ProguardMapping};
use std::collections::HashMap;

#[test]
fn test_byte_code_type_to_java_type() {
    let proguard_source = b"org.slf4j.helpers.Util$ClassContextSecurityManager -> org.a.b.g$a:
    65:65:void <init>() -> <init>";

    let mapping = ProguardMapping::new(proguard_source);
    let mapper = ProguardMapper::new(mapping);

    let tests = HashMap::from([
        ("[I", "int[]"),
        ("I", "int"),
        ("[Ljava/lang/String;", "java.lang.String[]"),
        ("[[J", "long[][]"),
        ("[B", "byte[]"),
        (
            // Obfuscated class type
            "Lorg/a/b/g$a;",
            "org.slf4j.helpers.Util$ClassContextSecurityManager",
        ),
    ]);

    // invalid types
    let tests_invalid = vec!["", "L", ""];

    for (ty, expected) in tests {
        assert_eq!(
            byte_code_type_to_java_type(ty, &mapper).unwrap(),
            expected.to_string()
        );
    }

    for ty in tests_invalid {
        let java_type = byte_code_type_to_java_type(ty, &mapper);
        assert!(java_type.is_none());
    }
}

#[test]
fn test_format_signature() {
    let proguard_source = b"org.slf4j.helpers.Util$ClassContextSecurityManager -> org.a.b.g$a:
    65:65:void <init>() -> <init>";

    let mapping = ProguardMapping::new(proguard_source);
    let mapper = ProguardMapper::new(mapping);

    let tests_valid = HashMap::from([
        // valid signatures
        ("()V", "()"),
        ("([I)V", "(int[])"),
        ("(III)V", "(int, int, int)"),
        ("([Ljava/lang/String;)V", "(java.lang.String[])"),
        ("([[J)V", "(long[][])"),
        ("(I)I", "(int): int"),
        ("([B)V", "(byte[])"),
        (
            "(Ljava/lang/String;Ljava/lang/String;)Ljava/lang/String;",
            "(java.lang.String, java.lang.String): java.lang.String",
        ),
        (
            // Obfuscated class type
            "(Lorg/a/b/g$a;)V",
            "(org.slf4j.helpers.Util$ClassContextSecurityManager)",
        ),
    ]);

    // invalid signatures
    let tests_invalid = vec!["", "()", "(L)"];

    for (obfuscated, expected) in tests_valid {
        let signature = mapper.deobfuscate_signature(obfuscated);
        assert_eq!(signature.unwrap().format_signature(), expected.to_string());
    }

    for obfuscated in tests_invalid {
        let signature = mapper.deobfuscate_signature(obfuscated);
        assert!(signature.is_none());
    }
}

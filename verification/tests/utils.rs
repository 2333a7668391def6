use proguard::synthesize_source_file;

#[test]
fn kotlin_top_level_class_uses_kt_extension() {
    assert_eq!(
        synthesize_source_file("com.example.MainKt", None).as_deref(),
        Some("Main.kt")
    );
}

#[test]
fn kt_suffix_takes_precedence_over_reference_file() {
    assert_eq!(
        synthesize_source_file("com.example.MainKt", Some("Other.java")).as_deref(),
        Some("Main.kt")
    );
}

#[test]
fn reference_file_extension_is_used_when_no_kt_suffix() {
    assert_eq!(
        synthesize_source_file("com.example.Main", Some("Other.kt")).as_deref(),
        Some("Main.kt")
    );
}

#[test]
fn non_kotlin_inner_class_falls_back_to_outer_java() {
    assert_eq!(
        synthesize_source_file("com.example.Main$Inner", None).as_deref(),
        Some("Main.java")
    );
}

#[test]
fn composable_singletons_wrapper_uses_inner_kt_segment() {
    assert_eq!(
        synthesize_source_file("com.example.ComposableSingletons$MainKt", None).as_deref(),
        Some("Main.kt")
    );
}

#[test]
fn bare_kt_segment_is_not_a_kotlin_marker() {
    // Degenerate "Kt" alone (length 2) must not strip to an empty base.
    assert_eq!(
        synthesize_source_file("com.example.Foo$Kt", None).as_deref(),
        Some("Foo.java")
    );
}

#[test]
fn default_extension_is_java() {
    assert_eq!(
        synthesize_source_file("com.example.Main", None).as_deref(),
        Some("Main.java")
    );
}

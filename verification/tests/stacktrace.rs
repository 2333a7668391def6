use proguard::{StackFrame, StackTrace, Throwable};

#[test]
fn print_stack_trace() {
    let trace = StackTrace::with_cause(
        Some(Throwable::with_message("com.example.MainFragment", "Crash")),
        vec![StackFrame::with_file("com.example.Util", "show", 5, "Util.java")],
        StackTrace::new(
            Some(Throwable::with_message("com.example.Other", "Invalid data")),
            vec![StackFrame::new("com.example.Parser", "parse", 115)],
        ),
    );
    let expect = "\
com.example.MainFragment: Crash
    at com.example.Util.show(Util.java:5)
Caused by: com.example.Other: Invalid data
    at com.example.Parser.parse(<unknown>:115)\n";

    assert_eq!(expect, trace.to_string());
}

#[test]
fn stack_frame() {
    let line = "at com.example.MainFragment.onClick(SourceFile:1)";
    let stack_frame = StackFrame::try_parse(line.as_bytes());
    let expect = Some(StackFrame::with_file(
        "com.example.MainFragment",
        "onClick",
        1,
        "SourceFile",
    ));

    assert_eq!(expect, stack_frame);

    let line = "    at com.example.MainFragment.onClick(SourceFile:1)";
    let stack_frame = StackFrame::try_parse(line.as_bytes());

    assert_eq!(expect, stack_frame);

    let line = "\tat com.example.MainFragment.onClick(SourceFile:1)";
    let stack_frame = StackFrame::try_parse(line.as_bytes());

    assert_eq!(expect, stack_frame);
}

#[test]
fn print_stack_frame() {
    let frame = StackFrame::new("com.example.MainFragment", "onClick", 1);

    assert_eq!(
        "at com.example.MainFragment.onClick(<unknown>:1)",
        frame.to_string()
    );

    let frame = StackFrame::with_file("com.example.MainFragment", "onClick", 1, "SourceFile");

    assert_eq!(
        "at com.example.MainFragment.onClick(SourceFile:1)",
        frame.to_string()
    );
}

#[test]
fn throwable() {
    let line = "com.example.MainFragment: Crash!";
    let throwable = Throwable::try_parse(line.as_bytes());
    let expect = Some(Throwable::with_message("com.example.MainFragment", "Crash!"));

    assert_eq!(expect, throwable);
}

#[test]
fn print_throwable() {
    let throwable = Throwable::new("com.example.MainFragment");

    assert_eq!("com.example.MainFragment", throwable.to_string());

    let throwable = Throwable::with_message("com.example.MainFragment", "Crash");

    assert_eq!("com.example.MainFragment: Crash", throwable.to_string());
}

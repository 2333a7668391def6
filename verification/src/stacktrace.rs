//! A parser for Java stack traces, and their text form.
//!
//! All specifications are stated over UTF-8 bytes.

use vstd::prelude::*;
use vstd::string::*;
use vstd::utf8::*;

use crate::mapping::{opt_bytes, strip_prefix};
use crate::text::{
    ascii_boundary, decimal_chars, find_byte, first_index_of, has_byte, last_index_of,
    lemma_first_index_of, lemma_last_index_of, new_string, parse_usize_chars, parse_usize_str,
    push_str, rfind_byte, split_at_ascii, string_bytes, trim, trim_bytes, usize_to_string,
    contains_byte, caused_by_bytes,
};

verus! {

/// What a stack frame holds, by bytes.
pub struct FrameModel {
    pub class: Seq<u8>,
    pub method: Seq<u8>,
    pub line: usize,
    pub file: Option<Seq<u8>>,
    pub parameters: Option<Seq<u8>>,
    pub method_synthesized: bool,
}

/// What a throwable holds, by bytes.
pub struct ThrowableModel {
    pub class: Seq<u8>,
    pub message: Option<Seq<u8>>,
}

/// What a stack trace holds, by bytes.
pub struct TraceModel {
    pub exception: Option<ThrowableModel>,
    pub frames: Seq<FrameModel>,
    pub cause: Option<Box<TraceModel>>,
}

/// A Java StackFrame.
///
/// Basically a Rust version of the Java `StackTraceElement`.
#[derive(Clone, Debug, PartialEq)]
pub struct StackFrame<'s> {
    class: &'s str,
    method: &'s str,
    line: usize,
    file: Option<&'s str>,
    parameters: Option<&'s str>,
    method_synthesized: bool,
}

impl<'s> View for StackFrame<'s> {
    type V = FrameModel;

    closed spec fn view(&self) -> FrameModel {
        FrameModel {
            class: self.class.spec_bytes(),
            method: self.method.spec_bytes(),
            line: self.line,
            file: opt_bytes(self.file),
            parameters: opt_bytes(self.parameters),
            method_synthesized: self.method_synthesized,
        }
    }
}

/// A Java Throwable: the first line of a printed stack trace.
#[derive(Clone, Debug, PartialEq)]
pub struct Throwable<'s> {
    class: &'s str,
    message: Option<&'s str>,
}

impl<'s> View for Throwable<'s> {
    type V = ThrowableModel;

    closed spec fn view(&self) -> ThrowableModel {
        ThrowableModel { class: self.class.spec_bytes(), message: opt_bytes(self.message) }
    }
}

/// A full Java StackTrace as printed by `Throwable.printStackTrace()`.
#[derive(Debug, PartialEq)]
pub struct StackTrace<'s> {
    exception: Option<Throwable<'s>>,
    frames: Vec<StackFrame<'s>>,
    cause: Option<Box<StackTrace<'s>>>,
}

/// The models of a sequence of frames.
pub open spec fn frames_model(v: Seq<StackFrame>) -> Seq<FrameModel> {
    v.map_values(|f: StackFrame| f@)
}

/// The model of an optional throwable.
pub open spec fn opt_throwable(t: Option<Throwable>) -> Option<ThrowableModel> {
    match t {
        Some(t) => Some(t@),
        None => None,
    }
}

/// The model of a stack trace.
pub closed spec fn trace_model(t: StackTrace) -> TraceModel
    decreases t,
{
    TraceModel {
        exception: opt_throwable(t.exception),
        frames: frames_model(t.frames@),
        cause: match t.cause {
            Some(c) => Some(Box::new(trace_model(*c))),
            None => None,
        },
    }
}

impl<'s> View for StackTrace<'s> {
    type V = TraceModel;

    open spec fn view(&self) -> TraceModel {
        trace_model(*self)
    }
}

impl<'s> StackFrame<'s> {
    /// A frame with every part given.
    pub(crate) fn from_parts(
        class: &'s str,
        method: &'s str,
        line: usize,
        file: Option<&'s str>,
        parameters: Option<&'s str>,
        method_synthesized: bool,
    ) -> (r: Self)
        ensures
            r@ == (FrameModel {
                class: class.spec_bytes(),
                method: method.spec_bytes(),
                line,
                file: opt_bytes(file),
                parameters: opt_bytes(parameters),
                method_synthesized,
            }),
    {
        StackFrame { class, method, line, file, parameters, method_synthesized }
    }

    /// Create a new StackFrame.
    pub fn new(class: &'s str, method: &'s str, line: usize) -> (r: Self)
        ensures
            r@ == (FrameModel {
                class: class.spec_bytes(),
                method: method.spec_bytes(),
                line,
                file: None,
                parameters: None,
                method_synthesized: false,
            }),
    {
        StackFrame { class, method, line, file: None, parameters: None, method_synthesized: false }
    }

    /// Create a new StackFrame with file information.
    pub fn with_file(class: &'s str, method: &'s str, line: usize, file: &'s str) -> (r: Self)
        ensures
            r@ == (FrameModel {
                class: class.spec_bytes(),
                method: method.spec_bytes(),
                line,
                file: Some(file.spec_bytes()),
                parameters: None,
                method_synthesized: false,
            }),
    {
        StackFrame {
            class,
            method,
            line,
            file: Some(file),
            parameters: None,
            method_synthesized: false,
        }
    }

    /// Create a new StackFrame with the argument types of its method, for
    /// remapping without line information.
    pub fn with_parameters(class: &'s str, method: &'s str, parameters: &'s str) -> (r: Self)
        ensures
            r@ == (FrameModel {
                class: class.spec_bytes(),
                method: method.spec_bytes(),
                line: 0,
                file: None,
                parameters: Some(parameters.spec_bytes()),
                method_synthesized: false,
            }),
    {
        StackFrame {
            class,
            method,
            line: 0,
            file: None,
            parameters: Some(parameters),
            method_synthesized: false,
        }
    }

    /// Parses a StackFrame from a line of a Java StackTrace.
    pub fn try_parse(line: &'s [u8]) -> (r: Option<Self>)
        ensures
            !valid_utf8(line@) ==> r is None,
            valid_utf8(line@) ==> opt_frame(r) == spec_parse_frame(line@),
    {
        match crate::text::str_from_utf8(line) {
            Some(text) => parse_frame(text),
            None => None,
        }
    }

    /// The class of the StackFrame.
    pub fn class(&self) -> (r: &'s str)
        ensures
            r.spec_bytes() == self@.class,
    {
        self.class
    }

    /// The method of the StackFrame.
    pub fn method(&self) -> (r: &'s str)
        ensures
            r.spec_bytes() == self@.method,
    {
        self.method
    }

    /// The fully qualified method name, including the class.
    pub fn full_method(&self) -> (r: String)
        ensures
            string_bytes(r) == self@.class + lit(".") + self@.method,
    {
        let mut out = new_string();
        push_str(&mut out, self.class);
        push_str(&mut out, ".");
        push_str(&mut out, self.method);
        proof {
            assert(Seq::<u8>::empty() + self@.class + lit(".") + self@.method =~= self@.class + lit(
                ".",
            ) + self@.method);
        }
        out
    }

    /// The file of the StackFrame.
    pub fn file(&self) -> (r: Option<&'s str>)
        ensures
            opt_bytes(r) == self@.file,
    {
        self.file
    }

    /// The line of the StackFrame, 1-based.
    pub fn line(&self) -> (r: usize)
        ensures
            r == self@.line,
    {
        self.line
    }

    /// The argument types of the frame's method, if known.
    pub fn parameters(&self) -> (r: Option<&'s str>)
        ensures
            opt_bytes(r) == self@.parameters,
    {
        self.parameters
    }

    /// Whether the frame's method was synthesized by the compiler.
    pub fn method_synthesized(&self) -> (r: bool)
        ensures
            r == self@.method_synthesized,
    {
        self.method_synthesized
    }

    /// The text form of the frame: `at class.method(file:line)`.
    pub fn to_string(&self) -> (r: String)
        ensures
            string_bytes(r) == frame_string(self@),
    {
        let mut out = new_string();
        push_str(&mut out, "at ");
        push_str(&mut out, self.class);
        push_str(&mut out, ".");
        push_str(&mut out, self.method);
        push_str(&mut out, "(");
        match self.file {
            Some(f) => push_str(&mut out, f),
            None => push_str(&mut out, "<unknown>"),
        }
        push_str(&mut out, ":");
        let n = usize_to_string(self.line);
        push_str(&mut out, n.as_str());
        push_str(&mut out, ")");
        proof {
            let file = match self@.file {
                Some(f) => f,
                None => lit("<unknown>"),
            };
            assert(string_bytes(out) =~= frame_string(self@));
        }
        out
    }
}

/// The UTF-8 bytes of a string literal's characters.
pub open spec fn lit(s: &str) -> Seq<u8> {
    s.spec_bytes()
}

/// The text form of a frame.
pub open spec fn frame_string(f: FrameModel) -> Seq<u8> {
    let file = match f.file {
        Some(file) => file,
        None => lit("<unknown>"),
    };
    lit("at ") + f.class + lit(".") + f.method + lit("(") + file + lit(":") + encode_utf8(
        decimal_chars(f.line as nat),
    ) + lit(")")
}

/// The text form of a throwable.
pub open spec fn throwable_string(t: ThrowableModel) -> Seq<u8> {
    let tail = match t.message {
        Some(m) => lit(": ") + m,
        None => Seq::empty(),
    };
    t.class + tail
}

/// The text form of frames: one indented line each.
pub open spec fn frames_string(fs: Seq<FrameModel>) -> Seq<u8>
    decreases fs.len(),
{
    if fs.len() == 0 {
        Seq::empty()
    } else {
        frames_string(fs.drop_last()) + lit("    ") + frame_string(fs.last()) + lit("\n")
    }
}

/// The text form of a stack trace.
pub open spec fn trace_string(t: TraceModel) -> Seq<u8>
    decreases t,
{
    let head = match t.exception {
        Some(e) => throwable_string(e) + lit("\n"),
        None => Seq::empty(),
    };
    let tail = match t.cause {
        Some(c) => lit("Caused by: ") + trace_string(*c),
        None => Seq::empty(),
    };
    head + frames_string(t.frames) + tail
}

/// The model of an optional frame.
pub open spec fn opt_frame(f: Option<StackFrame>) -> Option<FrameModel> {
    match f {
        Some(f) => Some(f@),
        None => None,
    }
}

impl<'s> Throwable<'s> {
    /// Create a new Throwable.
    pub fn new(class: &'s str) -> (r: Self)
        ensures
            r@ == (ThrowableModel { class: class.spec_bytes(), message: None }),
    {
        Throwable { class, message: None }
    }

    /// A throwable with every part given.
    pub(crate) fn from_parts(class: &'s str, message: Option<&'s str>) -> (r: Self)
        ensures
            r@ == (ThrowableModel { class: class.spec_bytes(), message: opt_bytes(message) }),
    {
        Throwable { class, message }
    }

    /// Create a new Throwable with message.
    pub fn with_message(class: &'s str, message: &'s str) -> (r: Self)
        ensures
            r@ == (ThrowableModel { class: class.spec_bytes(), message: Some(message.spec_bytes()) }),
    {
        Throwable { class, message: Some(message) }
    }

    /// Parses a Throwable from the a line of a full Java StackTrace.
    pub fn try_parse(line: &'s [u8]) -> (r: Option<Self>)
        ensures
            !valid_utf8(line@) ==> r is None,
            valid_utf8(line@) ==> opt_throwable(r) == spec_parse_throwable(line@),
    {
        match crate::text::str_from_utf8(line) {
            Some(text) => parse_throwable(text),
            None => None,
        }
    }

    /// The class of this Throwable.
    pub fn class(&self) -> (r: &'s str)
        ensures
            r.spec_bytes() == self@.class,
    {
        self.class
    }

    /// The optional message of this Throwable.
    pub fn message(&self) -> (r: Option<&'s str>)
        ensures
            opt_bytes(r) == self@.message,
    {
        self.message
    }

    /// The text form of the throwable: `class[: message]`.
    pub fn to_string(&self) -> (r: String)
        ensures
            string_bytes(r) == throwable_string(self@),
    {
        let mut out = new_string();
        push_str(&mut out, self.class);
        match self.message {
            Some(m) => {
                push_str(&mut out, ": ");
                push_str(&mut out, m);
            },
            None => {},
        }
        proof {
            assert(string_bytes(out) =~= throwable_string(self@));
        }
        out
    }
}

// ---------------------------------------------------------------------------
// Parsing frames and throwables
// ---------------------------------------------------------------------------

/// The bytes `at `.
pub open spec fn at_prefix() -> Seq<u8> {
    seq![97u8, 116u8, 32u8]
}

/// The frame that a line of a stack trace describes, if any:
/// `at class.method(file:line)`, surrounding whitespace aside. The file
/// ends at the last `:`; without one, or without a number after it, the
/// line is 0, as in `(Unknown Source)` or `(Main.java:)`.
pub open spec fn spec_parse_frame(line: Seq<u8>) -> Option<FrameModel> {
    let t = trim_bytes(line);
    if t.len() >= 3 && t.subrange(0, 3) == at_prefix() && t.last() == 41 {
        let inner = t.subrange(3, t.len() - 1);
        let p = first_index_of(inner, 40, 0);
        if p >= inner.len() {
            None
        } else {
            let first = inner.subrange(0, p);
            let second = inner.subrange(p + 1, inner.len() as int);
            let q = last_index_of(first, 46, first.len() as int);
            if q < 0 {
                None
            } else {
                let r = last_index_of(second, 58, second.len() as int);
                Some(
                    FrameModel {
                        class: first.subrange(0, q),
                        method: first.subrange(q + 1, first.len() as int),
                        line: if r < 0 {
                            0
                        } else {
                            match parse_usize_chars(
                                decode_utf8(second.subrange(r + 1, second.len() as int)),
                            ) {
                                Some(n) => n,
                                None => 0,
                            }
                        },
                        file: Some(
                            if r < 0 {
                                second
                            } else {
                                second.subrange(0, r)
                            },
                        ),
                        parameters: None,
                        method_synthesized: false,
                    },
                )
            }
        }
    } else {
        None
    }
}

/// Parses a single line from a Java StackTrace.
pub(crate) fn parse_frame<'a>(line: &'a str) -> (r: Option<StackFrame<'a>>)
    ensures
        opt_frame(r) == spec_parse_frame(line.spec_bytes()),
{
    let t = trim(line);
    let tb = t.as_bytes();
    if !(tb.len() >= 3 && tb[0] == 97 && tb[1] == 116 && tb[2] == 32 && tb[tb.len() - 1] == 41) {
        proof {
            if tb@.len() >= 3 && tb@.subrange(0, 3) == at_prefix() {
                assert(tb@.subrange(0, 3)[0] == 97u8);
                assert(tb@.subrange(0, 3)[1] == 116u8);
                assert(tb@.subrange(0, 3)[2] == 32u8);
            }
        }
        return None;
    }
    proof {
        assert(tb@.subrange(0, 3) =~= at_prefix());
    }
    let (_at, rest) = split_at_ascii(t, 3);
    let rb = rest.as_bytes();
    let (inner, _close) = split_at_ascii(rest, rb.len() - 1);
    let ghost innerb = tb@.subrange(3, tb@.len() - 1);
    proof {
        assert(inner.spec_bytes() =~= innerb);
    }
    let ib = inner.as_bytes();
    let p = find_byte(ib, 40);
    proof {
        lemma_first_index_of(ib@, 40, 0);
    }
    if p >= ib.len() {
        return None;
    }
    let (first, paren_rest) = split_at_ascii(inner, p);
    let (_paren, second) = split_at_ascii(paren_rest, 1);
    proof {
        assert(second.spec_bytes() =~= innerb.subrange(p + 1, innerb.len() as int));
    }
    let fb = first.as_bytes();
    proof {
        lemma_last_index_of(fb@, 46, fb@.len() as int);
    }
    let q = match rfind_byte(fb, 46) {
        Some(q) => q,
        None => return None,
    };
    let (class, dot_rest) = split_at_ascii(first, q);
    let (_dot, method) = split_at_ascii(dot_rest, 1);
    proof {
        assert(method.spec_bytes() =~= fb@.subrange(q + 1, fb@.len() as int));
    }
    let sb = second.as_bytes();
    proof {
        lemma_last_index_of(sb@, 58, sb@.len() as int);
    }
    match rfind_byte(sb, 58) {
        None => Some(StackFrame::from_parts(class, method, 0, Some(second), None, false)),
        Some(r) => {
            let (file, colon_rest) = split_at_ascii(second, r);
            let (_colon, number) = split_at_ascii(colon_rest, 1);
            proof {
                assert(file.spec_bytes() =~= sb@.subrange(0, r as int));
                assert(number.spec_bytes() =~= sb@.subrange(r + 1, sb@.len() as int));
                encode_utf8_decode_utf8(number@);
            }
            let n = match parse_usize_str(number) {
                Some(n) => n,
                None => 0,
            };
            Some(StackFrame::from_parts(class, method, n, Some(file), None, false))
        },
    }
}

/// The first position at or after `i` where `: ` starts, else the end.
pub open spec fn first_colon_space(s: Seq<u8>, i: int) -> int
    decreases s.len() - i,
{
    if i < 0 || i + 1 >= s.len() {
        s.len() as int
    } else if s[i] == 58 && s[i + 1] == 32 {
        i
    } else {
        first_colon_space(s, i + 1)
    }
}

proof fn lemma_first_colon_space(s: Seq<u8>, i: int)
    requires
        0 <= i <= s.len(),
    ensures
        i <= first_colon_space(s, i) <= s.len(),
        first_colon_space(s, i) < s.len() ==> first_colon_space(s, i) + 1 < s.len()
            && s[first_colon_space(s, i)] == 58 && s[first_colon_space(s, i) + 1] == 32,
    decreases s.len() - i,
{
    if i + 1 < s.len() && !(s[i] == 58 && s[i + 1] == 32) {
        lemma_first_colon_space(s, i + 1);
    }
}

/// The throwable that a line describes, if any: `class[: message]`,
/// surrounding whitespace aside, where the class holds no space.
pub open spec fn spec_parse_throwable(line: Seq<u8>) -> Option<ThrowableModel> {
    let t = trim_bytes(line);
    let p = first_colon_space(t, 0);
    let class = if p < t.len() {
        t.subrange(0, p)
    } else {
        t
    };
    let message = if p < t.len() {
        Some(t.subrange(p + 2, t.len() as int))
    } else {
        None
    };
    if has_byte(class, 32) {
        None
    } else {
        Some(ThrowableModel { class, message })
    }
}

/// Parses the first line of a Java StackTrace, the text form of a throwable.
pub(crate) fn parse_throwable<'a>(line: &'a str) -> (r: Option<Throwable<'a>>)
    ensures
        opt_throwable(r) == spec_parse_throwable(line.spec_bytes()),
{
    let t = trim(line);
    let tb = t.as_bytes();
    let mut i: usize = 0;
    while i < tb.len() && i + 1 < tb.len() && !(tb[i] == 58 && tb[i + 1] == 32)
        invariant
            i <= tb@.len(),
            first_colon_space(tb@, i as int) == first_colon_space(tb@, 0),
        decreases tb@.len() - i,
    {
        i = i + 1;
    }
    let p = if i < tb.len() && i + 1 < tb.len() {
        i
    } else {
        tb.len()
    };
    proof {
        lemma_first_colon_space(tb@, 0);
    }
    let (class, message) = if p < tb.len() {
        let (class, rest) = split_at_ascii(t, p);
        let (_sep, message) = split_at_ascii(rest, 2);
        proof {
            assert(message.spec_bytes() =~= tb@.subrange(p + 2, tb@.len() as int));
        }
        (class, Some(message))
    } else {
        (t, None)
    };
    if contains_byte(class.as_bytes(), 32) {
        None
    } else {
        Some(Throwable { class, message })
    }
}

impl<'s> StackTrace<'s> {
    /// Create a new StackTrace.
    pub fn new(exception: Option<Throwable<'s>>, frames: Vec<StackFrame<'s>>) -> (r: Self)
        ensures
            r@ == (TraceModel {
                exception: opt_throwable(exception),
                frames: frames_model(frames@),
                cause: None,
            }),
    {
        StackTrace { exception, frames, cause: None }
    }

    /// Create a new StackTrace with cause information.
    pub fn with_cause(
        exception: Option<Throwable<'s>>,
        frames: Vec<StackFrame<'s>>,
        cause: StackTrace<'s>,
    ) -> (r: Self)
        ensures
            r@ == (TraceModel {
                exception: opt_throwable(exception),
                frames: frames_model(frames@),
                cause: Some(Box::new(cause@)),
            }),
    {
        StackTrace { exception, frames, cause: Some(Box::new(cause)) }
    }

    /// Parses a StackTrace from a full Java StackTrace.
    pub fn try_parse(stacktrace: &'s [u8]) -> (r: Option<Self>)
        ensures
            !valid_utf8(stacktrace@) ==> r is None,
            valid_utf8(stacktrace@) ==> opt_trace(r) == spec_parse_stacktrace(stacktrace@),
    {
        match crate::text::str_from_utf8(stacktrace) {
            Some(text) => parse_stacktrace(text),
            None => None,
        }
    }

    /// The exception at the top of the StackTrace, if present.
    pub fn exception(&self) -> (r: Option<&Throwable<'s>>)
        ensures
            opt_throwable_ref(r) == self@.exception,
    {
        match &self.exception {
            Some(e) => Some(e),
            None => None,
        }
    }

    /// All StackFrames following the exception.
    pub fn frames(&self) -> (r: &[StackFrame<'s>])
        ensures
            frames_model(r@) == self@.frames,
    {
        self.frames.as_slice()
    }

    /// An optional cause describing the inner exception.
    pub fn cause(&self) -> (r: Option<&StackTrace<'s>>)
        ensures
            r matches Some(c) ==> self@.cause == Some(Box::new(c@)),
            r is None ==> self@.cause is None,
    {
        match &self.cause {
            Some(c) => Some(&**c),
            None => None,
        }
    }

    /// The text form of the stack trace, as `Throwable.printStackTrace()` prints it.
    pub fn to_string(&self) -> (r: String)
        ensures
            string_bytes(r) == trace_string(self@),
        decreases self,
    {
        let mut out = new_string();
        match &self.exception {
            Some(e) => {
                let text = e.to_string();
                push_str(&mut out, text.as_str());
                push_str(&mut out, "\n");
            },
            None => {},
        }
        let ghost head = string_bytes(out);
        let ghost fs = frames_model(self.frames@);
        let mut i: usize = 0;
        while i < self.frames.len()
            invariant
                i <= self.frames@.len(),
                fs == frames_model(self.frames@),
                string_bytes(out) == head + frames_string(fs.subrange(0, i as int)),
            decreases self.frames@.len() - i,
        {
            let text = self.frames[i].to_string();
            push_str(&mut out, "    ");
            push_str(&mut out, text.as_str());
            push_str(&mut out, "\n");
            proof {
                assert(fs.subrange(0, i + 1).drop_last() =~= fs.subrange(0, i as int));
                assert(head + frames_string(fs.subrange(0, i + 1)) =~= head + frames_string(
                    fs.subrange(0, i as int),
                ) + lit("    ") + frame_string(fs[i as int]) + lit("\n"));
            }
            i = i + 1;
        }
        proof {
            assert(fs.subrange(0, i as int) =~= fs);
        }
        match &self.cause {
            Some(c) => {
                push_str(&mut out, "Caused by: ");
                let text = c.to_string();
                push_str(&mut out, text.as_str());
            },
            None => {},
        }
        proof {
            assert(string_bytes(out) =~= trace_string(self@));
        }
        out
    }
}

/// The model of an optional borrowed throwable.
pub open spec fn opt_throwable_ref(t: Option<&Throwable>) -> Option<ThrowableModel> {
    match t {
        Some(t) => Some(t@),
        None => None,
    }
}

/// The model of an optional stack trace.
pub open spec fn opt_trace(t: Option<StackTrace>) -> Option<TraceModel> {
    match t {
        Some(t) => Some(t@),
        None => None,
    }
}

// ---------------------------------------------------------------------------
// Lines and whole stack traces
// ---------------------------------------------------------------------------

/// `l` without one trailing carriage return.
pub open spec fn strip_cr(l: Seq<u8>) -> Seq<u8> {
    if l.len() > 0 && l.last() == 13 {
        l.drop_last()
    } else {
        l
    }
}

/// The lines of `b`, as `str::lines` splits them: at `\n` or `\r\n`; a final
/// line ending is optional.
pub open spec fn spec_lines(b: Seq<u8>) -> Seq<Seq<u8>>
    decreases b.len(),
{
    if b.len() == 0 {
        Seq::empty()
    } else {
        let p = first_index_of(b, 10, 0);
        if p >= b.len() || p < 0 {
            seq![b]
        } else {
            seq![strip_cr(b.subrange(0, p))] + spec_lines(b.subrange(p + 1, b.len() as int))
        }
    }
}

/// The bytes of each string slice.
pub open spec fn lines_bytes(v: Seq<&str>) -> Seq<Seq<u8>> {
    v.map_values(|s: &str| s.spec_bytes())
}

/// Splits text into lines, as `str::lines` does.
pub fn split_lines<'a>(s: &'a str) -> (r: Vec<&'a str>)
    ensures
        lines_bytes(r@) == spec_lines(s.spec_bytes()),
{
    let mut out: Vec<&'a str> = Vec::new();
    let mut cur = s;
    loop
        invariant
            spec_lines(s.spec_bytes()) == lines_bytes(out@) + spec_lines(cur.spec_bytes()),
        decreases cur.spec_bytes().len(),
    {
        let ghost prev = lines_bytes(out@);
        let cb = cur.as_bytes();
        if cb.len() == 0 {
            proof {
                assert(prev + spec_lines(cb@) =~= prev);
            }
            return out;
        }
        let p = find_byte(cb, 10);
        proof {
            lemma_first_index_of(cb@, 10, 0);
        }
        if p >= cb.len() {
            out.push(cur);
            proof {
                assert(lines_bytes(out@) =~= prev + seq![cb@]);
            }
            return out;
        }
        let (line, rest) = split_at_ascii(cur, p);
        let (_nl, next) = split_at_ascii(rest, 1);
        proof {
            assert(next.spec_bytes() =~= cb@.subrange(p + 1, cb@.len() as int));
        }
        let lb = line.as_bytes();
        let line = if lb.len() > 0 && lb[lb.len() - 1] == 13 {
            let (body, _cr) = split_at_ascii(line, lb.len() - 1);
            proof {
                assert(body.spec_bytes() =~= lb@.drop_last());
            }
            body
        } else {
            line
        };
        out.push(line);
        proof {
            assert(lines_bytes(out@) =~= prev.push(strip_cr(cb@.subrange(0, p as int))));
            assert(prev + (seq![strip_cr(cb@.subrange(0, p as int))] + spec_lines(
                next.spec_bytes(),
            )) =~= prev.push(strip_cr(cb@.subrange(0, p as int))) + spec_lines(next.spec_bytes()));
        }
        cur = next;
    }
}

/// A part of a stack trace: a throwable and its frames.
pub type Segment = (Option<ThrowableModel>, Seq<FrameModel>);

/// Reads one line into the parts of a stack trace: a frame joins the last
/// part, `Caused by: ` starts a new one, and other lines are skipped.
pub open spec fn step_segments(segs: Seq<Segment>, line: Seq<u8>) -> Seq<Segment> {
    match spec_parse_frame(line) {
        Some(f) => segs.drop_last().push((segs.last().0, segs.last().1.push(f))),
        None => match strip_prefix(line, caused_by_bytes()) {
            Some(rest) => segs.push((spec_parse_throwable(rest), Seq::empty())),
            None => segs,
        },
    }
}

/// The parts after reading the first `n` lines.
pub open spec fn fold_segments(init: Seq<Segment>, lines: Seq<Seq<u8>>, n: int) -> Seq<Segment>
    decreases n,
{
    if n <= 0 || n > lines.len() {
        init
    } else {
        step_segments(fold_segments(init, lines, n - 1), lines[n - 1])
    }
}

/// The stack trace whose parts from `i` on are `segs`.
pub open spec fn nest(segs: Seq<Segment>, i: int) -> TraceModel
    decreases segs.len() - i,
{
    TraceModel {
        exception: segs[i].0,
        frames: segs[i].1,
        cause: if 0 <= i && i + 1 < segs.len() {
            Some(Box::new(nest(segs, i + 1)))
        } else {
            None
        },
    }
}

/// The stack trace that a text describes: an optional throwable line, then
/// frames, with `Caused by: ` lines starting inner traces; none when it has
/// neither a throwable nor a frame at the top.
pub open spec fn spec_parse_stacktrace(b: Seq<u8>) -> Option<TraceModel> {
    let lines = spec_lines(b);
    let exception = if lines.len() > 0 {
        spec_parse_throwable(lines[0])
    } else {
        None
    };
    let rest = if exception is Some {
        lines.drop_first()
    } else {
        lines
    };
    let segs = fold_segments(seq![(exception, Seq::<FrameModel>::empty())], rest, rest.len() as int);
    if exception is Some || segs[0].1.len() > 0 {
        Some(nest(segs, 0))
    } else {
        None
    }
}

/// The model of the parts of a stack trace under construction.
pub open spec fn segments_model(v: Seq<(Option<Throwable>, Vec<StackFrame>)>) -> Seq<Segment> {
    v.map_values(|p: (Option<Throwable>, Vec<StackFrame>)| (opt_throwable(p.0), frames_model(p.1@)))
}

/// Whether the bytes start with `Caused by: `.
pub(crate) fn starts_with_caused_by(b: &[u8]) -> (r: bool)
    ensures
        r == (strip_prefix(b@, caused_by_bytes()) is Some),
{
    if b.len() < 11 {
        return false;
    }
    let p: [u8; 11] = [67, 97, 117, 115, 101, 100, 32, 98, 121, 58, 32];
    let mut i: usize = 0;
    while i < 11
        invariant
            b@.len() >= 11,
            p@ == caused_by_bytes(),
            i <= 11,
            forall|k: int| 0 <= k < i ==> b@[k] == caused_by_bytes()[k],
        decreases 11 - i,
    {
        if b[i] != p[i] {
            proof {
                assert(b@.subrange(0, 11)[i as int] != caused_by_bytes()[i as int]);
            }
            return false;
        }
        i = i + 1;
    }
    proof {
        assert(b@.subrange(0, 11) =~= caused_by_bytes());
    }
    true
}

/// Builds the nested stack trace from its parts.
fn nest_segments<'a>(segs: Vec<(Option<Throwable<'a>>, Vec<StackFrame<'a>>)>) -> (r: StackTrace<'a>)
    requires
        segs@.len() > 0,
    ensures
        r@ == nest(segments_model(segs@), 0),
{
    let ghost all = segments_model(segs@);
    let n = segs.len();
    let mut segs = segs;
    let mut trace: Option<StackTrace<'a>> = None;
    while segs.len() > 0
        invariant
            all.len() == n,
            n > 0,
            segs@.len() <= n,
            segments_model(segs@) == all.subrange(0, segs@.len() as int),
            segs@.len() < n ==> opt_trace(trace) == Some(nest(all, segs@.len() as int)),
            segs@.len() == n ==> trace is None,
        decreases segs@.len(),
    {
        let k = segs.len();
        let ghost old_segs = segs@;
        let (exception, frames) = match segs.pop() {
            Some(p) => p,
            None => return StackTrace::new(None, Vec::new()),
        };
        proof {
            assert(segments_model(old_segs) == all.subrange(0, k as int));
            assert forall|j: int| 0 <= j < k - 1 implies segments_model(segs@)[j] == all.subrange(
                0,
                k - 1,
            )[j] by {
                assert(segs@[j] == old_segs[j]);
                assert(segments_model(old_segs)[j] == all[j]);
            }
            assert(segments_model(segs@) =~= all.subrange(0, k - 1));
            assert(segments_model(old_segs)[k - 1] == all[k - 1]);
            assert(old_segs[k - 1] == (exception, frames));
        }
        let cause = match trace {
            Some(t) => Some(Box::new(t)),
            None => None,
        };
        trace = Some(StackTrace { exception, frames, cause });
    }
    match trace {
        Some(t) => t,
        None => StackTrace::new(None, Vec::new()),
    }
}

fn parse_stacktrace<'a>(content: &'a str) -> (r: Option<StackTrace<'a>>)
    ensures
        opt_trace(r) == spec_parse_stacktrace(content.spec_bytes()),
{
    let lines = split_lines(content);
    let ghost lb = lines_bytes(lines@);
    let exception = if lines.len() > 0 {
        parse_throwable(lines[0])
    } else {
        None
    };
    let start: usize = if exception.is_some() {
        1
    } else {
        0
    };
    let ghost rest = if exception is Some {
        lb.drop_first()
    } else {
        lb
    };
    let ghost init = seq![(opt_throwable(exception), Seq::<FrameModel>::empty())];
    let ghost top = opt_throwable(exception);
    let mut done: Vec<(Option<Throwable<'a>>, Vec<StackFrame<'a>>)> = Vec::new();
    let mut cur_exception = exception;
    let mut cur_frames: Vec<StackFrame<'a>> = Vec::new();
    let mut i: usize = start;
    proof {
        assert(rest =~= lb.subrange(start as int, lb.len() as int));
        assert(frames_model(cur_frames@) =~= Seq::<FrameModel>::empty());
        assert(segments_model(done@) =~= Seq::<Segment>::empty());
        assert(segments_model(done@) + seq![(opt_throwable(cur_exception), frames_model(cur_frames@))] =~= init);
    }
    while i < lines.len()
        invariant
            start <= i <= lines@.len(),
            lb == lines_bytes(lines@),
            rest == lb.subrange(start as int, lb.len() as int),
            fold_segments(init, rest, i - start) == segments_model(done@) + seq![
                (opt_throwable(cur_exception), frames_model(cur_frames@)),
            ],
        decreases lines@.len() - i,
    {
        let ghost before = fold_segments(init, rest, i - start);
        let line = lines[i];
        proof {
            assert(rest[i - start] == lb[i as int]);
            assert(lb[i as int] == line.spec_bytes());
            assert(fold_segments(init, rest, i - start + 1) == step_segments(before, line.spec_bytes()));
        }
        match parse_frame(line) {
            Some(f) => {
                let ghost old_frames = frames_model(cur_frames@);
                cur_frames.push(f);
                proof {
                    assert(frames_model(cur_frames@) =~= old_frames.push(f@));
                    assert(segments_model(done@) + seq![
                        (opt_throwable(cur_exception), frames_model(cur_frames@)),
                    ] =~= before.drop_last().push((before.last().0, before.last().1.push(f@))));
                }
            },
            None => {
                let lbytes = line.as_bytes();
                if starts_with_caused_by(lbytes) {
                    let (_prefix, rest_line) = split_at_ascii(line, 11);
                    proof {
                        assert(rest_line.spec_bytes() =~= lbytes@.subrange(11, lbytes@.len() as int));
                    }
                    let cause = parse_throwable(rest_line);
                    let prev_exception = cur_exception;
                    let prev_frames = cur_frames;
                    done.push((prev_exception, prev_frames));
                    cur_exception = cause;
                    cur_frames = Vec::new();
                    proof {
                        assert(segments_model(done@) =~= before);
                        assert(frames_model(cur_frames@) =~= Seq::<FrameModel>::empty());
                        assert(segments_model(done@) + seq![
                            (opt_throwable(cur_exception), frames_model(cur_frames@)),
                        ] =~= before.push((spec_parse_throwable(rest_line.spec_bytes()), Seq::empty())));
                    }
                }
            },
        }
        i = i + 1;
    }
    proof {
        assert(rest.len() == lines@.len() - start);
        assert(i - start == rest.len());
    }
    let top_has_frames = if done.len() > 0 {
        done[0].1.len() > 0
    } else {
        cur_frames.len() > 0
    };
    let has_exception = if done.len() > 0 {
        done[0].0.is_some()
    } else {
        cur_exception.is_some()
    };
    let ghost segs_before = segments_model(done@) + seq![(opt_throwable(cur_exception), frames_model(cur_frames@))];
    done.push((cur_exception, cur_frames));
    proof {
        assert(segments_model(done@) =~= segs_before);
        lemma_fold_first(init, rest, rest.len() as int);
        assert(segs_before[0] == segments_model(done@)[0]);
    }
    if has_exception || top_has_frames {
        Some(nest_segments(done))
    } else {
        None
    }
}

proof fn lemma_fold_first(init: Seq<Segment>, lines: Seq<Seq<u8>>, n: int)
    requires
        init.len() == 1,
        init[0].1.len() == 0,
    ensures
        fold_segments(init, lines, n).len() > 0,
        fold_segments(init, lines, n)[0].0 == init[0].0,
    decreases n,
{
    if 0 < n <= lines.len() {
        lemma_fold_first(init, lines, n - 1);
    }
}

} // verus!

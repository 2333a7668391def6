//! A parser for ProGuard and R8 mapping files.
//!
//! A mapping file is read line by line; every line is one record: a header
//! comment, a class, a field or a method. All specifications here are stated
//! over the bytes of the file.

use vstd::prelude::*;
use vstd::string::*;
use vstd::utf8::*;

use crate::json::{json_object, members_model, read_object, JsonModel, JsonValue};
use crate::text::{
    last_index_of, lemma_last_index_of, rfind_byte,
    parse_u32_chars, parse_u32_str, parse_usize_chars, parse_usize_str, str_eq, str_from_utf8,
    trim, trim_bytes,
};

verus! {

#[verifier::external_type_specification]
#[verifier::external_body]
pub struct ExUtf8Error(core::str::Utf8Error);

/// The specific parse error.
#[derive(Copy, Clone, Debug, PartialEq)]
pub enum ParseErrorKind {
    /// The line failed utf-8 conversion.
    Utf8Error(core::str::Utf8Error),
    /// The line failed parsing.
    ParseError(&'static str),
}

/// Error when parsing a proguard mapping line.
///
/// Since the mapping parses proguard line-by-line, an error also contains
/// the offending line.
#[derive(Copy, Clone, Debug, PartialEq)]
pub struct ParseError<'s> {
    /// The offending line.
    pub line: &'s [u8],
    /// The specific parse error.
    pub kind: ParseErrorKind,
}

/// The message of every error that a record parse reports.
pub open spec fn invalid_record_message() -> Seq<char> {
    "line is not a valid proguard record"@
}

/// Whether `e` reports an invalid record on the line `line`.
pub open spec fn is_invalid_record_error(e: ParseError, line: Seq<u8>) -> bool {
    &&& e.line@ == line
    &&& e.kind matches ParseErrorKind::ParseError(m) && m@ == invalid_record_message()
}

impl<'s> ParseError<'s> {
    /// The error for an invalid record on `line`.
    fn invalid_record(line: &'s [u8]) -> (r: Self)
        ensures
            is_invalid_record_error(r, line@),
    {
        ParseError { line, kind: ParseErrorKind::ParseError("line is not a valid proguard record") }
    }

    /// The offending line that caused the error.
    pub fn line(&self) -> (r: &[u8])
        ensures
            r@ == self.line@,
    {
        self.line
    }

    /// The specific parse error.
    pub fn kind(&self) -> (r: ParseErrorKind)
        ensures
            r == self.kind,
    {
        self.kind
    }
}

/// A proguard line mapping.
///
/// Maps start/end lines of a minified file to original start/end lines.
///
/// All line mappings are 1-based and inclusive.
#[derive(Clone, Copy, Debug, PartialEq)]
pub struct LineMapping {
    /// Start Line, 1-based.
    pub startline: usize,
    /// End Line, inclusive.
    pub endline: usize,
    /// The original Start Line.
    pub original_startline: Option<usize>,
    /// The original End Line.
    pub original_endline: Option<usize>,
}

/// A structured R8 header: a JSON comment line that R8 writes into mappings.
#[derive(Clone, Debug, PartialEq)]
pub enum R8Header<'s> {
    /// The class or method was synthesized by the compiler.
    Synthesized,
    /// The method is an outline.
    Outline,
    /// The method calls an outline; `positions` maps outline positions to lines.
    OutlineCallsite {
        /// Outline positions (as written) and the lines they map to.
        positions: Vec<(&'s str, usize)>,
        /// The outline that is called, if named.
        outline: Option<&'s str>,
    },
    /// A rule that rewrites the frames of a method when a condition holds.
    RewriteFrame {
        /// The conditions of the rule, as written.
        conditions: Vec<&'s str>,
        /// The actions of the rule, as written.
        actions: Vec<&'s str>,
    },
    /// Any other R8 header.
    Other,
}

/// A Proguard Mapping Record.
#[derive(Clone, Debug, PartialEq)]
pub enum ProguardRecord<'s> {
    /// A Proguard Header.
    Header {
        /// The Key of the Header.
        key: &'s str,
        /// Optional value if the Header is a KV pair.
        value: Option<&'s str>,
    },
    /// A structured R8 header.
    R8Header(R8Header<'s>),
    /// A Class Mapping.
    Class {
        /// Original name of the class.
        original: &'s str,
        /// Obfuscated name of the class.
        obfuscated: &'s str,
    },
    /// A Field Mapping.
    Field {
        /// Type of the field
        ty: &'s str,
        /// Original name of the field.
        original: &'s str,
        /// Obfuscated name of the field.
        obfuscated: &'s str,
    },
    /// A Method Mapping.
    Method {
        /// Return Type of the method.
        ty: &'s str,
        /// Original name of the method.
        original: &'s str,
        /// Obfuscated name of the method.
        obfuscated: &'s str,
        /// Arguments of the method as raw string.
        arguments: &'s str,
        /// Original class of a foreign inlined method.
        original_class: Option<&'s str>,
        /// Optional line mapping of the method.
        line_mapping: Option<LineMapping>,
    },
}

/// What an R8 header holds, by bytes.
pub enum R8HeaderModel {
    Synthesized,
    Outline,
    OutlineCallsite { positions: Seq<(Seq<u8>, usize)>, outline: Option<Seq<u8>> },
    RewriteFrame { conditions: Seq<Seq<u8>>, actions: Seq<Seq<u8>> },
    Other,
}

/// What a record holds, by bytes.
pub enum RecordModel {
    Header { key: Seq<u8>, value: Option<Seq<u8>> },
    R8Header(R8HeaderModel),
    Class { original: Seq<u8>, obfuscated: Seq<u8> },
    Field { ty: Seq<u8>, original: Seq<u8>, obfuscated: Seq<u8> },
    Method {
        ty: Seq<u8>,
        original: Seq<u8>,
        obfuscated: Seq<u8>,
        arguments: Seq<u8>,
        original_class: Option<Seq<u8>>,
        line_mapping: Option<LineMapping>,
    },
}

/// The bytes of an optional string slice.
pub open spec fn opt_bytes(o: Option<&str>) -> Option<Seq<u8>> {
    match o {
        Some(s) => Some(s.spec_bytes()),
        None => None,
    }
}

/// The bytes of each string slice.
pub open spec fn strs_bytes(v: Seq<&str>) -> Seq<Seq<u8>> {
    v.map_values(|s: &str| s.spec_bytes())
}

/// The bytes of each string slice, paired with its number.
pub open spec fn pairs_bytes(v: Seq<(&str, usize)>) -> Seq<(Seq<u8>, usize)> {
    v.map_values(|p: (&str, usize)| (p.0.spec_bytes(), p.1))
}

impl<'s> View for R8Header<'s> {
    type V = R8HeaderModel;

    open spec fn view(&self) -> R8HeaderModel {
        match self {
            R8Header::Synthesized => R8HeaderModel::Synthesized,
            R8Header::Outline => R8HeaderModel::Outline,
            R8Header::OutlineCallsite { positions, outline } => R8HeaderModel::OutlineCallsite {
                positions: pairs_bytes(positions@),
                outline: opt_bytes(*outline),
            },
            R8Header::RewriteFrame { conditions, actions } => R8HeaderModel::RewriteFrame {
                conditions: strs_bytes(conditions@),
                actions: strs_bytes(actions@),
            },
            R8Header::Other => R8HeaderModel::Other,
        }
    }
}

impl<'s> View for ProguardRecord<'s> {
    type V = RecordModel;

    open spec fn view(&self) -> RecordModel {
        match self {
            ProguardRecord::Header { key, value } => RecordModel::Header {
                key: key.spec_bytes(),
                value: opt_bytes(*value),
            },
            ProguardRecord::R8Header(h) => RecordModel::R8Header(h@),
            ProguardRecord::Class { original, obfuscated } => RecordModel::Class {
                original: original.spec_bytes(),
                obfuscated: obfuscated.spec_bytes(),
            },
            ProguardRecord::Field { ty, original, obfuscated } => RecordModel::Field {
                ty: ty.spec_bytes(),
                original: original.spec_bytes(),
                obfuscated: obfuscated.spec_bytes(),
            },
            ProguardRecord::Method {
                ty,
                original,
                obfuscated,
                arguments,
                original_class,
                line_mapping,
            } => RecordModel::Method {
                ty: ty.spec_bytes(),
                original: original.spec_bytes(),
                obfuscated: obfuscated.spec_bytes(),
                arguments: arguments.spec_bytes(),
                original_class: opt_bytes(*original_class),
                line_mapping: *line_mapping,
            },
        }
    }
}

// ---------------------------------------------------------------------------
// Scanning bytes
// ---------------------------------------------------------------------------

/// Whether `b` ends a line.
pub open spec fn is_newline(b: u8) -> bool {
    b == 13 || b == 10
}

/// The sets of bytes at which a scan stops.
#[derive(Clone, Copy)]
pub enum Stop {
    Space,
    SpaceOrParen,
    CloseParen,
    Colon,
    Quote,
    Newline,
    ColonOrNewline,
}

/// Whether the scan `stop` stops at `b`.
pub open spec fn stop_at(stop: Stop, b: u8) -> bool {
    match stop {
        Stop::Space => b == 32,
        Stop::SpaceOrParen => b == 32 || b == 40,
        Stop::CloseParen => b == 41,
        Stop::Colon => b == 58,
        Stop::Quote => b == 34,
        Stop::Newline => is_newline(b),
        Stop::ColonOrNewline => b == 58 || is_newline(b),
    }
}

/// The first position at or after `i` where `stop` (or, with `nl`, a newline) stops, else the end.
pub open spec fn find_stop(s: Seq<u8>, i: int, stop: Stop, nl: bool) -> int
    decreases s.len() - i,
{
    if i < 0 || i >= s.len() {
        s.len() as int
    } else if stop_at(stop, s[i]) || (nl && is_newline(s[i])) {
        i
    } else {
        find_stop(s, i + 1, stop, nl)
    }
}

proof fn lemma_find_stop(s: Seq<u8>, i: int, stop: Stop, nl: bool)
    requires
        0 <= i <= s.len(),
    ensures
        i <= find_stop(s, i, stop, nl) <= s.len(),
        forall|k: int|
            i <= k < find_stop(s, i, stop, nl) ==> !(stop_at(stop, #[trigger] s[k]) || (nl
                && is_newline(s[k]))),
        find_stop(s, i, stop, nl) < s.len() ==> (stop_at(stop, s[find_stop(s, i, stop, nl)]) || (
        nl && is_newline(s[find_stop(s, i, stop, nl)]))),
    decreases s.len() - i,
{
    if i < s.len() && !(stop_at(stop, s[i]) || (nl && is_newline(s[i]))) {
        lemma_find_stop(s, i + 1, stop, nl);
    }
}

fn stops(stop: Stop, nl: bool, b: u8) -> (r: bool)
    ensures
        r == (stop_at(stop, b) || (nl && is_newline(b))),
{
    let hit = match stop {
        Stop::Space => b == 32,
        Stop::SpaceOrParen => b == 32 || b == 40,
        Stop::CloseParen => b == 41,
        Stop::Colon => b == 58,
        Stop::Quote => b == 34,
        Stop::Newline => b == 13 || b == 10,
        Stop::ColonOrNewline => b == 58 || b == 13 || b == 10,
    };
    hit || (nl && (b == 13 || b == 10))
}

/// The position where a scan for `stop` stops in `s`.
fn scan(s: &[u8], stop: Stop, nl: bool) -> (p: usize)
    ensures
        p == find_stop(s@, 0, stop, nl),
{
    let mut i: usize = 0;
    while i < s.len()
        invariant
            i <= s@.len(),
            find_stop(s@, i as int, stop, nl) == find_stop(s@, 0, stop, nl),
        decreases s@.len() - i,
    {
        if stops(stop, nl, s[i]) {
            return i;
        }
        i = i + 1;
    }
    i
}

/// `s` without its leading newlines.
pub open spec fn skip_newlines(s: Seq<u8>) -> Seq<u8> {
    s.subrange(first_non_newline(s, 0), s.len() as int)
}

/// The first position at or after `i` that does not hold a newline, else the end.
pub open spec fn first_non_newline(s: Seq<u8>, i: int) -> int
    decreases s.len() - i,
{
    if i < 0 || i >= s.len() {
        s.len() as int
    } else if !is_newline(s[i]) {
        i
    } else {
        first_non_newline(s, i + 1)
    }
}

proof fn lemma_first_non_newline(s: Seq<u8>, i: int)
    requires
        0 <= i <= s.len(),
    ensures
        i <= first_non_newline(s, i) <= s.len(),
    decreases s.len() - i,
{
    if i < s.len() && is_newline(s[i]) {
        lemma_first_non_newline(s, i + 1);
    }
}

fn consume_leading_newlines(s: &[u8]) -> (r: &[u8])
    ensures
        r@.len() <= s@.len(),
        r@ == skip_newlines(s@),
{
    let mut i: usize = 0;
    while i < s.len() && (s[i] == 13 || s[i] == 10)
        invariant
            i <= s@.len(),
            first_non_newline(s@, i as int) == first_non_newline(s@, 0),
        decreases s@.len() - i,
    {
        i = i + 1;
    }
    proof {
        lemma_first_non_newline(s@, i as int);
    }
    s.split_at(i).1
}

/// The first line of `s` with its newline, and what follows it.
pub open spec fn split_line(s: Seq<u8>) -> (Seq<u8>, Seq<u8>) {
    let p = find_stop(s, 0, Stop::Newline, false);
    let q = if p < s.len() {
        p + 1
    } else {
        s.len() as int
    };
    (s.subrange(0, q), s.subrange(q, s.len() as int))
}

fn split_first_line(s: &[u8]) -> (r: (&[u8], &[u8]))
    ensures
        (r.0@, r.1@) == split_line(s@),
{
    let p = scan(s, Stop::Newline, false);
    proof {
        lemma_find_stop(s@, 0, Stop::Newline, false);
    }
    let q = if p < s.len() {
        p + 1
    } else {
        s.len()
    };
    s.split_at(q)
}

/// `s` without `prefix`, when it starts with `prefix`.
pub open spec fn strip_prefix(s: Seq<u8>, prefix: Seq<u8>) -> Option<Seq<u8>> {
    if prefix.len() <= s.len() && s.subrange(0, prefix.len() as int) == prefix {
        Some(s.subrange(prefix.len() as int, s.len() as int))
    } else {
        None
    }
}

fn parse_prefix<'a>(s: &'a [u8], prefix: &[u8]) -> (r: Option<&'a [u8]>)
    ensures
        r matches Some(rest) ==> rest@.len() <= s@.len() - prefix@.len(),
        r matches Some(rest) ==> strip_prefix(s@, prefix@) == Some(rest@),
        r is None ==> strip_prefix(s@, prefix@) is None,
{
    if prefix.len() > s.len() {
        return None;
    }
    let mut i: usize = 0;
    while i < prefix.len()
        invariant
            prefix@.len() <= s@.len(),
            i <= prefix@.len(),
            forall|k: int| 0 <= k < i ==> s@[k] == prefix@[k],
        decreases prefix@.len() - i,
    {
        if s[i] != prefix[i] {
            proof {
                assert(s@.subrange(0, prefix@.len() as int)[i as int] != prefix@[i as int]);
            }
            return None;
        }
        i = i + 1;
    }
    proof {
        assert(s@.subrange(0, prefix@.len() as int) =~= prefix@);
    }
    Some(s.split_at(prefix.len()).1)
}

/// The text of `s` up to where `stop` stops, and the rest, when that text is UTF-8.
pub open spec fn until(s: Seq<u8>, stop: Stop) -> Option<(Seq<u8>, Seq<u8>)> {
    let p = find_stop(s, 0, stop, false);
    if valid_utf8(s.subrange(0, p)) {
        Some((s.subrange(0, p), s.subrange(p, s.len() as int)))
    } else {
        None
    }
}

/// As `until`, but failing when a newline comes first.
pub open spec fn until_no_newline(s: Seq<u8>, stop: Stop) -> Option<(Seq<u8>, Seq<u8>)> {
    let p = find_stop(s, 0, stop, true);
    if p < s.len() && is_newline(s[p]) {
        None
    } else if valid_utf8(s.subrange(0, p)) {
        Some((s.subrange(0, p), s.subrange(p, s.len() as int)))
    } else {
        None
    }
}

/// The bytes of a parsed piece and the bytes that follow it.
pub open spec fn piece_view(r: Option<(&str, &[u8])>) -> Option<(Seq<u8>, Seq<u8>)> {
    match r {
        Some((v, rest)) => Some((v.spec_bytes(), rest@)),
        None => None,
    }
}

fn parse_until<'a>(s: &'a [u8], stop: Stop) -> (r: Option<(&'a str, &'a [u8])>)
    ensures
        r matches Some((_, rest)) ==> rest@.len() <= s@.len(),
        piece_view(r) == until(s@, stop),
{
    let p = scan(s, stop, false);
    proof {
        lemma_find_stop(s@, 0, stop, false);
    }
    let (slice, rest) = s.split_at(p);
    match str_from_utf8(slice) {
        Some(v) => Some((v, rest)),
        None => None,
    }
}

fn parse_until_no_newline<'a>(s: &'a [u8], stop: Stop) -> (r: Option<(&'a str, &'a [u8])>)
    ensures
        r matches Some((_, rest)) ==> rest@.len() <= s@.len(),
        piece_view(r) == until_no_newline(s@, stop),
{
    let p = scan(s, stop, true);
    proof {
        lemma_find_stop(s@, 0, stop, true);
    }
    if p < s.len() && (s[p] == 13 || s[p] == 10) {
        return None;
    }
    let (slice, rest) = s.split_at(p);
    match str_from_utf8(slice) {
        Some(v) => Some((v, rest)),
        None => None,
    }
}

/// Whether the byte `b`, read as a Latin-1 character, is numeric (`char::is_numeric`):
/// a decimal digit, or one of `²`, `³`, `¹`, `¼`, `½`, `¾`.
pub open spec fn is_numeric_byte(b: u8) -> bool {
    (48 <= b && b <= 57) || b == 0xb2 || b == 0xb3 || b == 0xb9 || b == 0xbc || b == 0xbd || b
        == 0xbe
}

/// The first position at or after `i` that is not numeric, else the end.
pub open spec fn first_non_numeric(s: Seq<u8>, i: int) -> int
    decreases s.len() - i,
{
    if i < 0 || i >= s.len() {
        s.len() as int
    } else if !is_numeric_byte(s[i]) {
        i
    } else {
        first_non_numeric(s, i + 1)
    }
}

proof fn lemma_first_non_numeric(s: Seq<u8>, i: int)
    requires
        0 <= i <= s.len(),
    ensures
        i <= first_non_numeric(s, i) <= s.len(),
    decreases s.len() - i,
{
    if i < s.len() && is_numeric_byte(s[i]) {
        lemma_first_non_numeric(s, i + 1);
    }
}

/// The number that `s` starts with, and the rest.
pub open spec fn number(s: Seq<u8>) -> Option<(usize, Seq<u8>)> {
    let p = first_non_numeric(s, 0);
    let digits = s.subrange(0, p);
    if valid_utf8(digits) {
        match parse_usize_chars(decode_utf8(digits)) {
            Some(v) => Some((v, s.subrange(p, s.len() as int))),
            None => None,
        }
    } else {
        None
    }
}

/// A number and the bytes that follow it.
pub open spec fn number_view(r: Option<(usize, &[u8])>) -> Option<(usize, Seq<u8>)> {
    match r {
        Some((v, rest)) => Some((v, rest@)),
        None => None,
    }
}

fn is_numeric(b: u8) -> (r: bool)
    ensures
        r == is_numeric_byte(b),
{
    (48 <= b && b <= 57) || b == 0xb2 || b == 0xb3 || b == 0xb9 || b == 0xbc || b == 0xbd || b
        == 0xbe
}

fn parse_usize(s: &[u8]) -> (r: Option<(usize, &[u8])>)
    ensures
        r matches Some((_, rest)) ==> rest@.len() <= s@.len(),
        number_view(r) == number(s@),
{
    let mut i: usize = 0;
    while i < s.len() && is_numeric(s[i])
        invariant
            i <= s@.len(),
            first_non_numeric(s@, i as int) == first_non_numeric(s@, 0),
        decreases s@.len() - i,
    {
        i = i + 1;
    }
    proof {
        lemma_first_non_numeric(s@, i as int);
    }
    let (digits, rest) = s.split_at(i);
    match str_from_utf8(digits) {
        Some(text) => {
            proof {
                encode_utf8_decode_utf8(text@);
            }
            match parse_usize_str(text) {
                Some(v) => Some((v, rest)),
                None => None,
            }
        },
        None => None,
    }
}

// ---------------------------------------------------------------------------
// Fixed byte strings
// ---------------------------------------------------------------------------

pub open spec fn four_spaces() -> Seq<u8> {
    seq![32u8, 32u8, 32u8, 32u8]
}

pub open spec fn arrow() -> Seq<u8> {
    seq![32u8, 45u8, 62u8, 32u8]
}

pub open spec fn one_byte(b: u8) -> Seq<u8> {
    seq![b]
}

fn strip_byte<'a>(s: &'a [u8], b: u8) -> (r: Option<&'a [u8]>)
    ensures
        r matches Some(rest) ==> rest@.len() == s@.len() - 1,
        r matches Some(rest) ==> strip_prefix(s@, one_byte(b)) == Some(rest@),
        r is None ==> strip_prefix(s@, one_byte(b)) is None,
{
    if s.len() >= 1 && s[0] == b {
        proof {
            assert(s@.subrange(0, 1) =~= one_byte(b));
        }
        Some(s.split_at(1).1)
    } else {
        proof {
            if 1 <= s@.len() {
                assert(s@.subrange(0, 1)[0] != one_byte(b)[0]);
            }
        }
        None
    }
}

fn strip_four_spaces<'a>(s: &'a [u8]) -> (r: Option<&'a [u8]>)
    ensures
        r matches Some(rest) ==> rest@.len() == s@.len() - 4,
        r matches Some(rest) ==> strip_prefix(s@, four_spaces()) == Some(rest@),
        r is None ==> strip_prefix(s@, four_spaces()) is None,
{
    let p: [u8; 4] = [32, 32, 32, 32];
    proof {
        assert(p@ =~= four_spaces());
    }
    parse_prefix(s, p.as_slice())
}

fn strip_arrow<'a>(s: &'a [u8]) -> (r: Option<&'a [u8]>)
    ensures
        r matches Some(rest) ==> rest@.len() == s@.len() - 4,
        r matches Some(rest) ==> strip_prefix(s@, arrow()) == Some(rest@),
        r is None ==> strip_prefix(s@, arrow()) is None,
{
    let p: [u8; 4] = [32, 45, 62, 32];
    proof {
        assert(p@ =~= arrow());
    }
    parse_prefix(s, p.as_slice())
}

// ---------------------------------------------------------------------------
// Class records: `original -> obfuscated:`
// ---------------------------------------------------------------------------

/// A class record at the start of `s`, and the bytes after it.
pub open spec fn spec_class(s: Seq<u8>) -> Option<(RecordModel, Seq<u8>)> {
    match until_no_newline(s, Stop::Space) {
        None => None,
        Some((original, s1)) => match strip_prefix(s1, arrow()) {
            None => None,
            Some(s2) => match until_no_newline(s2, Stop::Colon) {
                None => None,
                Some((obfuscated, s3)) => match strip_prefix(s3, one_byte(58)) {
                    None => None,
                    Some(s4) => Some(
                        (RecordModel::Class { original, obfuscated }, skip_newlines(s4)),
                    ),
                },
            },
        },
    }
}

/// A record and the bytes that follow it.
pub open spec fn record_view(r: Option<(ProguardRecord, &[u8])>) -> Option<(RecordModel, Seq<u8>)> {
    match r {
        Some((rec, rest)) => Some((rec@, rest@)),
        None => None,
    }
}

fn parse_proguard_class<'a>(s: &'a [u8]) -> (r: Option<(ProguardRecord<'a>, &'a [u8])>)
    ensures
        r matches Some((_, rest)) ==> rest@.len() < s@.len(),
        record_view(r) == spec_class(s@),
{
    let (original, s1) = match parse_until_no_newline(s, Stop::Space) {
        Some(v) => v,
        None => return None,
    };
    let s2 = match strip_arrow(s1) {
        Some(v) => v,
        None => return None,
    };
    let (obfuscated, s3) = match parse_until_no_newline(s2, Stop::Colon) {
        Some(v) => v,
        None => return None,
    };
    let s4 = match strip_byte(s3, 58) {
        Some(v) => v,
        None => return None,
    };
    Some((ProguardRecord::Class { original, obfuscated }, consume_leading_newlines(s4)))
}

// ---------------------------------------------------------------------------
// Field and method records:
// `[startline:endline:]type [class.]name[(arguments)[:origstart[:origend]]] -> obfuscated`
// ---------------------------------------------------------------------------

/// The optional leading `startline:endline:` of a member line.
pub open spec fn spec_member_lines(s: Seq<u8>) -> Option<(Option<usize>, Option<usize>, Seq<u8>)> {
    match number(s) {
        None => Some((None, None, s)),
        Some((start, s1)) => match strip_prefix(s1, one_byte(58)) {
            None => None,
            Some(s2) => match number(s2) {
                None => None,
                Some((end, s3)) => match strip_prefix(s3, one_byte(58)) {
                    None => None,
                    Some(s4) => Some((Some(start), Some(end), s4)),
                },
            },
        },
    }
}

/// Two optional numbers and the bytes that follow them.
pub open spec fn lines_view(r: Option<(Option<usize>, Option<usize>, &[u8])>) -> Option<
    (Option<usize>, Option<usize>, Seq<u8>),
> {
    match r {
        Some((a, b, rest)) => Some((a, b, rest@)),
        None => None,
    }
}

fn parse_member_lines<'a>(s: &'a [u8]) -> (r: Option<(Option<usize>, Option<usize>, &'a [u8])>)
    ensures
        r matches Some((_, _, rest)) ==> rest@.len() <= s@.len(),
        lines_view(r) == spec_member_lines(s@),
{
    let (start, s1) = match parse_usize(s) {
        Some(v) => v,
        None => return Some((None, None, s)),
    };
    let s2 = match strip_byte(s1, 58) {
        Some(v) => v,
        None => return None,
    };
    let (end, s3) = match parse_usize(s2) {
        Some(v) => v,
        None => return None,
    };
    let s4 = match strip_byte(s3, 58) {
        Some(v) => v,
        None => return None,
    };
    Some((Some(start), Some(end), s4))
}

/// The type, the name and the optional arguments of a member line.
pub open spec fn spec_member_signature(s: Seq<u8>) -> Option<
    (Seq<u8>, Seq<u8>, Option<Seq<u8>>, Seq<u8>),
> {
    match until_no_newline(s, Stop::Space) {
        None => None,
        Some((ty, s1)) => match strip_prefix(s1, one_byte(32)) {
            None => None,
            Some(s2) => match until_no_newline(s2, Stop::SpaceOrParen) {
                None => None,
                Some((original, s3)) => match strip_prefix(s3, one_byte(40)) {
                    None => Some((ty, original, None, s3)),
                    Some(s4) => match until_no_newline(s4, Stop::CloseParen) {
                        None => None,
                        Some((arguments, s5)) => match strip_prefix(s5, one_byte(41)) {
                            None => None,
                            Some(s6) => Some((ty, original, Some(arguments), s6)),
                        },
                    },
                },
            },
        },
    }
}

/// A member signature, by bytes, and the bytes that follow it.
pub open spec fn signature_view(r: Option<(&str, &str, Option<&str>, &[u8])>) -> Option<
    (Seq<u8>, Seq<u8>, Option<Seq<u8>>, Seq<u8>),
> {
    match r {
        Some((ty, original, arguments, rest)) => Some(
            (ty.spec_bytes(), original.spec_bytes(), opt_bytes(arguments), rest@),
        ),
        None => None,
    }
}

fn parse_member_signature<'a>(s: &'a [u8]) -> (r: Option<
    (&'a str, &'a str, Option<&'a str>, &'a [u8]),
>)
    ensures
        r matches Some((_, _, _, rest)) ==> rest@.len() < s@.len(),
        signature_view(r) == spec_member_signature(s@),
{
    let (ty, s1) = match parse_until_no_newline(s, Stop::Space) {
        Some(v) => v,
        None => return None,
    };
    let s2 = match strip_byte(s1, 32) {
        Some(v) => v,
        None => return None,
    };
    let (original, s3) = match parse_until_no_newline(s2, Stop::SpaceOrParen) {
        Some(v) => v,
        None => return None,
    };
    let s4 = match strip_byte(s3, 40) {
        Some(v) => v,
        None => return Some((ty, original, None, s3)),
    };
    let (arguments, s5) = match parse_until_no_newline(s4, Stop::CloseParen) {
        Some(v) => v,
        None => return None,
    };
    let s6 = match strip_byte(s5, 41) {
        Some(v) => v,
        None => return None,
    };
    Some((ty, original, Some(arguments), s6))
}

/// The optional `:origstart[:origend]` after the arguments of a method.
pub open spec fn spec_original_lines(has_arguments: bool, s: Seq<u8>) -> Option<
    (Option<usize>, Option<usize>, Seq<u8>),
> {
    if !has_arguments {
        Some((None, None, s))
    } else {
        match strip_prefix(s, one_byte(58)) {
            None => Some((None, None, s)),
            Some(s1) => match number(s1) {
                None => None,
                Some((start, s2)) => match strip_prefix(s2, one_byte(58)) {
                    None => Some((Some(start), None, s2)),
                    Some(s3) => match number(s3) {
                        None => None,
                        Some((end, s4)) => Some((Some(start), Some(end), s4)),
                    },
                },
            },
        }
    }
}

fn parse_original_lines<'a>(has_arguments: bool, s: &'a [u8]) -> (r: Option<
    (Option<usize>, Option<usize>, &'a [u8]),
>)
    ensures
        r matches Some((_, _, rest)) ==> rest@.len() <= s@.len(),
        lines_view(r) == spec_original_lines(has_arguments, s@),
{
    if !has_arguments {
        return Some((None, None, s));
    }
    let s1 = match strip_byte(s, 58) {
        Some(v) => v,
        None => return Some((None, None, s)),
    };
    let (start, s2) = match parse_usize(s1) {
        Some(v) => v,
        None => return None,
    };
    let s3 = match strip_byte(s2, 58) {
        Some(v) => v,
        None => return Some((Some(start), None, s2)),
    };
    let (end, s4) = match parse_usize(s3) {
        Some(v) => v,
        None => return None,
    };
    Some((Some(start), Some(end), s4))
}

/// A method's name and, when the name is qualified, its class: split at the last `.`.
pub open spec fn split_qualified(original: Seq<u8>) -> (Seq<u8>, Option<Seq<u8>>) {
    let p = last_index_of(original, 46, original.len() as int);
    if p < 0 {
        (original, None)
    } else {
        (original.subrange(p + 1, original.len() as int), Some(original.subrange(0, p)))
    }
}

fn split_method_name<'a>(original: &'a str) -> (r: (&'a str, Option<&'a str>))
    ensures
        (r.0.spec_bytes(), opt_bytes(r.1)) == split_qualified(original.spec_bytes()),
{
    let bytes = original.as_bytes();
    proof {
        lemma_last_index_of(bytes@, 46, bytes@.len() as int);
    }
    match rfind_byte(bytes, 46) {
        None => (original, None),
        Some(p) => {
        let (class, rest) = crate::text::split_at_ascii(original, p);
        let (_dot, name) = crate::text::split_at_ascii(rest, 1);
        proof {
            assert(name.spec_bytes() =~= original.spec_bytes().subrange(
                p + 1,
                original.spec_bytes().len() as int,
            ));
        }
        (name, Some(class))
        }
    }
}

/// The line mapping of a method, when both of its lines are given and positive.
pub open spec fn spec_line_mapping(
    startline: Option<usize>,
    endline: Option<usize>,
    original_startline: Option<usize>,
    original_endline: Option<usize>,
) -> Option<LineMapping> {
    match (startline, endline) {
        (Some(startline), Some(endline)) => if startline > 0 && endline > 0 {
            Some(LineMapping { startline, endline, original_startline, original_endline })
        } else {
            None
        },
        _ => None,
    }
}

/// The record of a member line, from its parts.
pub open spec fn spec_member_record(
    startline: Option<usize>,
    endline: Option<usize>,
    ty: Seq<u8>,
    original: Seq<u8>,
    arguments: Option<Seq<u8>>,
    original_startline: Option<usize>,
    original_endline: Option<usize>,
    obfuscated: Seq<u8>,
) -> RecordModel {
    match arguments {
        Some(arguments) => RecordModel::Method {
            ty,
            original: split_qualified(original).0,
            obfuscated,
            arguments,
            original_class: split_qualified(original).1,
            line_mapping: spec_line_mapping(
                startline,
                endline,
                original_startline,
                original_endline,
            ),
        },
        None => RecordModel::Field { ty, original, obfuscated },
    }
}

/// A field or method record at the start of `s`, and the bytes after it.
pub open spec fn spec_member(s: Seq<u8>) -> Option<(RecordModel, Seq<u8>)> {
    match strip_prefix(s, four_spaces()) {
        None => None,
        Some(s0) => match spec_member_lines(s0) {
            None => None,
            Some((startline, endline, s1)) => match spec_member_signature(s1) {
                None => None,
                Some((ty, original, arguments, s2)) => match spec_original_lines(
                    arguments is Some,
                    s2,
                ) {
                    None => None,
                    Some((original_startline, original_endline, s3)) => match strip_prefix(
                        s3,
                        arrow(),
                    ) {
                        None => None,
                        Some(s4) => match until(s4, Stop::Newline) {
                            None => None,
                            Some((obfuscated, s5)) => Some(
                                (
                                    spec_member_record(
                                        startline,
                                        endline,
                                        ty,
                                        original,
                                        arguments,
                                        original_startline,
                                        original_endline,
                                        obfuscated,
                                    ),
                                    skip_newlines(s5),
                                ),
                            ),
                        },
                    },
                },
            },
        },
    }
}

fn parse_proguard_field_or_method<'a>(s: &'a [u8]) -> (r: Option<(ProguardRecord<'a>, &'a [u8])>)
    ensures
        r matches Some((_, rest)) ==> rest@.len() < s@.len(),
        record_view(r) == spec_member(s@),
{
    let s0 = match strip_four_spaces(s) {
        Some(v) => v,
        None => return None,
    };
    let (startline, endline, s1) = match parse_member_lines(s0) {
        Some(v) => v,
        None => return None,
    };
    let (ty, original, arguments, s2) = match parse_member_signature(s1) {
        Some(v) => v,
        None => return None,
    };
    let (original_startline, original_endline, s3) = match parse_original_lines(
        arguments.is_some(),
        s2,
    ) {
        Some(v) => v,
        None => return None,
    };
    let s4 = match strip_arrow(s3) {
        Some(v) => v,
        None => return None,
    };
    let (obfuscated, s5) = match parse_until(s4, Stop::Newline) {
        Some(v) => v,
        None => return None,
    };
    let record = match arguments {
        Some(arguments) => {
            let (name, original_class) = split_method_name(original);
            let line_mapping = match (startline, endline) {
                (Some(startline), Some(endline)) => if startline > 0 && endline > 0 {
                    Some(LineMapping { startline, endline, original_startline, original_endline })
                } else {
                    None
                },
                _ => None,
            };
            ProguardRecord::Method {
                ty,
                original: name,
                obfuscated,
                arguments,
                original_class,
                line_mapping,
            }
        },
        None => ProguardRecord::Field { ty, original, obfuscated },
    };
    Some((record, consume_leading_newlines(s5)))
}

// ---------------------------------------------------------------------------
// Header records: `# key: value` and R8's `# {json}`
// ---------------------------------------------------------------------------

/// The UTF-8 bytes of a string literal's characters.
pub open spec fn lit(s: &str) -> Seq<u8> {
    s.spec_bytes()
}

/// The first value under `key` among `members`, from position `i` on.
pub open spec fn lookup(members: Seq<(Seq<u8>, JsonModel)>, key: Seq<u8>, i: int) -> Option<
    JsonModel,
>
    decreases members.len() - i,
{
    if i < 0 || i >= members.len() {
        None
    } else if members[i].0 == key {
        Some(members[i].1)
    } else {
        lookup(members, key, i + 1)
    }
}

fn find_member<'a, 'b>(members: &'b Vec<(&'a str, JsonValue<'a>)>, key: &str) -> (r: Option<
    &'b JsonValue<'a>,
>)
    ensures
        r matches Some(v) ==> lookup(members_model(members@), key.spec_bytes(), 0) == Some(v@),
        r is None ==> lookup(members_model(members@), key.spec_bytes(), 0) is None,
{
    let ghost m = members_model(members@);
    let mut i: usize = 0;
    while i < members.len()
        invariant
            i <= members@.len(),
            m == members_model(members@),
            lookup(m, key.spec_bytes(), i as int) == lookup(m, key.spec_bytes(), 0),
        decreases members@.len() - i,
    {
        if str_eq(members[i].0, key) {
            return Some(&members[i].1);
        }
        i = i + 1;
    }
    None
}

/// The record that an R8 JSON header with `members` stands for, if it is well formed.
pub open spec fn spec_r8_record(members: Seq<(Seq<u8>, JsonModel)>) -> Option<RecordModel> {
    match lookup(members, lit("id"), 0) {
        Some(JsonModel::Str(id)) => if id == lit("com.android.tools.r8.synthesized") {
            Some(RecordModel::R8Header(R8HeaderModel::Synthesized))
        } else if id == lit("com.android.tools.r8.outline") {
            Some(RecordModel::R8Header(R8HeaderModel::Outline))
        } else if id == lit("com.android.tools.r8.outlineCallsite") {
            match lookup(members, lit("positions"), 0) {
                Some(JsonModel::NumObject(positions)) => match lookup(members, lit("outline"), 0) {
                    None => Some(
                        RecordModel::R8Header(
                            R8HeaderModel::OutlineCallsite { positions, outline: None },
                        ),
                    ),
                    Some(JsonModel::Lit) => Some(
                        RecordModel::R8Header(
                            R8HeaderModel::OutlineCallsite { positions, outline: None },
                        ),
                    ),
                    Some(JsonModel::Str(o)) => Some(
                        RecordModel::R8Header(
                            R8HeaderModel::OutlineCallsite { positions, outline: Some(o) },
                        ),
                    ),
                    _ => None,
                },
                _ => None,
            }
        } else if id == lit("com.android.tools.r8.rewriteFrame") {
            match (lookup(members, lit("conditions"), 0), lookup(members, lit("actions"), 0)) {
                (Some(JsonModel::StrArray(conditions)), Some(JsonModel::StrArray(actions))) => Some(
                    RecordModel::R8Header(R8HeaderModel::RewriteFrame { conditions, actions }),
                ),
                _ => None,
            }
        } else if id == lit("sourceFile") {
            match lookup(members, lit("fileName"), 0) {
                Some(JsonModel::Str(f)) => Some(
                    RecordModel::Header { key: lit("sourceFile"), value: Some(f) },
                ),
                _ => None,
            }
        } else {
            Some(RecordModel::R8Header(R8HeaderModel::Other))
        },
        _ => None,
    }
}

/// A copy of a vector of plain values.
pub fn copy_vec<T: Copy>(v: &Vec<T>) -> (r: Vec<T>)
    ensures
        r@ == v@,
{
    let mut r: Vec<T> = Vec::new();
    let mut i: usize = 0;
    while i < v.len()
        invariant
            i <= v@.len(),
            r@ == v@.subrange(0, i as int),
        decreases v@.len() - i,
    {
        r.push(v[i]);
        proof {
            assert(r@ =~= v@.subrange(0, i + 1));
        }
        i = i + 1;
    }
    proof {
        assert(r@ =~= v@);
    }
    r
}

fn r8_record<'a>(members: &Vec<(&'a str, JsonValue<'a>)>) -> (r: Option<ProguardRecord<'a>>)
    ensures
        r matches Some(rec) ==> spec_r8_record(members_model(members@)) == Some(rec@),
        r is None ==> spec_r8_record(members_model(members@)) is None,
{
    let id = match find_member(members, "id") {
        Some(JsonValue::Str(id)) => *id,
        _ => return None,
    };
    if str_eq(id, "com.android.tools.r8.synthesized") {
        Some(ProguardRecord::R8Header(R8Header::Synthesized))
    } else if str_eq(id, "com.android.tools.r8.outline") {
        Some(ProguardRecord::R8Header(R8Header::Outline))
    } else if str_eq(id, "com.android.tools.r8.outlineCallsite") {
        let positions = match find_member(members, "positions") {
            Some(JsonValue::NumObject(p)) => copy_vec(p),
            _ => return None,
        };
        let outline = match find_member(members, "outline") {
            None => None,
            Some(JsonValue::Lit) => None,
            Some(JsonValue::Str(o)) => Some(*o),
            _ => return None,
        };
        Some(ProguardRecord::R8Header(R8Header::OutlineCallsite { positions, outline }))
    } else if str_eq(id, "com.android.tools.r8.rewriteFrame") {
        let conditions = match find_member(members, "conditions") {
            Some(JsonValue::StrArray(c)) => copy_vec(c),
            _ => return None,
        };
        let actions = match find_member(members, "actions") {
            Some(JsonValue::StrArray(a)) => copy_vec(a),
            _ => return None,
        };
        Some(ProguardRecord::R8Header(R8Header::RewriteFrame { conditions, actions }))
    } else if str_eq(id, "sourceFile") {
        match find_member(members, "fileName") {
            Some(JsonValue::Str(f)) => Some(ProguardRecord::Header { key: "sourceFile", value: Some(*f) }),
            _ => None,
        }
    } else {
        Some(ProguardRecord::R8Header(R8Header::Other))
    }
}

/// The prefix of R8's source file header after `#`: ` {"id":"sourceFile","fileName":"`.
pub open spec fn source_file_prefix() -> Seq<u8> {
    seq![
        32u8, 123u8, 34u8, 105u8, 100u8, 34u8, 58u8, 34u8, 115u8, 111u8, 117u8, 114u8, 99u8, 101u8,
        70u8, 105u8, 108u8, 101u8, 34u8, 44u8, 34u8, 102u8, 105u8, 108u8, 101u8, 78u8, 97u8, 109u8,
        101u8, 34u8, 58u8, 34u8,
    ]
}

/// A `key[: value]` header after `#`, trimmed, and the bytes after it.
pub open spec fn spec_key_value_header(s: Seq<u8>) -> Option<(RecordModel, Seq<u8>)> {
    match until(s, Stop::ColonOrNewline) {
        None => None,
        Some((key, s1)) => match strip_prefix(s1, one_byte(58)) {
            Some(s2) => match until(s2, Stop::Newline) {
                None => None,
                Some((value, s3)) => Some(
                    (
                        RecordModel::Header { key: trim_bytes(key), value: Some(trim_bytes(value)) },
                        skip_newlines(s3),
                    ),
                ),
            },
            None => Some(
                (RecordModel::Header { key: trim_bytes(key), value: None }, skip_newlines(s1)),
            ),
        },
    }
}

/// A header record, given the bytes after its `#`, and the bytes after it.
pub open spec fn spec_header(s: Seq<u8>) -> Option<(RecordModel, Seq<u8>)> {
    match strip_prefix(s, source_file_prefix()) {
        Some(s1) => match until(s1, Stop::Quote) {
            None => None,
            Some((value, s2)) => match strip_prefix(s2, seq![34u8, 125u8]) {
                None => None,
                Some(s3) => Some(
                    (
                        RecordModel::Header { key: lit("sourceFile"), value: Some(value) },
                        skip_newlines(s3),
                    ),
                ),
            },
        },
        None => {
            let p = find_stop(s, 0, Stop::Newline, false);
            let json = match json_object(s.subrange(0, p)) {
                Some(members) => spec_r8_record(members),
                None => None,
            };
            match json {
                Some(rec) => Some((rec, skip_newlines(s.subrange(p, s.len() as int)))),
                None => spec_key_value_header(s),
            }
        },
    }
}

fn parse_key_value_header<'a>(s: &'a [u8]) -> (r: Option<(ProguardRecord<'a>, &'a [u8])>)
    ensures
        r matches Some((_, rest)) ==> rest@.len() <= s@.len(),
        record_view(r) == spec_key_value_header(s@),
{
    let (key, s1) = match parse_until(s, Stop::ColonOrNewline) {
        Some(v) => v,
        None => return None,
    };
    match strip_byte(s1, 58) {
        Some(s2) => {
            let (value, s3) = match parse_until(s2, Stop::Newline) {
                Some(v) => v,
                None => return None,
            };
            Some(
                (
                    ProguardRecord::Header { key: trim(key), value: Some(trim(value)) },
                    consume_leading_newlines(s3),
                ),
            )
        },
        None => Some(
            (ProguardRecord::Header { key: trim(key), value: None }, consume_leading_newlines(s1)),
        ),
    }
}

fn parse_proguard_header<'a>(s: &'a [u8]) -> (r: Option<(ProguardRecord<'a>, &'a [u8])>)
    ensures
        r matches Some((_, rest)) ==> rest@.len() <= s@.len(),
        record_view(r) == spec_header(s@),
{
    let prefix: [u8; 32] = [
        32, 123, 34, 105, 100, 34, 58, 34, 115, 111, 117, 114, 99, 101, 70, 105, 108, 101, 34, 44,
        34, 102, 105, 108, 101, 78, 97, 109, 101, 34, 58, 34,
    ];
    proof {
        assert(prefix@ =~= source_file_prefix());
    }
    match parse_prefix(s, prefix.as_slice()) {
        Some(s1) => {
            let (value, s2) = match parse_until(s1, Stop::Quote) {
                Some(v) => v,
                None => return None,
            };
            let close: [u8; 2] = [34, 125];
            proof {
                assert(close@ =~= seq![34u8, 125u8]);
            }
            let s3 = match parse_prefix(s2, close.as_slice()) {
                Some(v) => v,
                None => return None,
            };
            Some(
                (
                    ProguardRecord::Header { key: "sourceFile", value: Some(value) },
                    consume_leading_newlines(s3),
                ),
            )
        },
        None => {
            let p = scan(s, Stop::Newline, false);
            proof {
                lemma_find_stop(s@, 0, Stop::Newline, false);
            }
            let (line, after) = s.split_at(p);
            let json = match read_object(line) {
                Some(members) => r8_record(&members),
                None => None,
            };
            match json {
                Some(rec) => Some((rec, consume_leading_newlines(after))),
                None => parse_key_value_header(s),
            }
        },
    }
}

// ---------------------------------------------------------------------------
// Records
// ---------------------------------------------------------------------------

/// The first position at or after `i` that is not a space, else the end.
pub open spec fn first_non_space(s: Seq<u8>, i: int) -> int
    decreases s.len() - i,
{
    if i < 0 || i >= s.len() {
        s.len() as int
    } else if s[i] != 32 {
        i
    } else {
        first_non_space(s, i + 1)
    }
}

proof fn lemma_first_non_space(s: Seq<u8>, i: int)
    requires
        0 <= i <= s.len(),
    ensures
        i <= first_non_space(s, i) <= s.len(),
    decreases s.len() - i,
{
    if i < s.len() && s[i] == 32 {
        lemma_first_non_space(s, i + 1);
    }
}

/// Whether the line at the start of `s` is a comment: spaces, then `#`.
pub open spec fn is_comment(s: Seq<u8>) -> bool {
    let k = first_non_space(s, 0);
    k < s.len() && s[k] == 35
}

/// A record at the start of `s` (newlines skipped first), or the error line,
/// and the bytes after it.
#[verifier::opaque]
pub open spec fn spec_parse_record(b: Seq<u8>) -> (Result<RecordModel, Seq<u8>>, Seq<u8>) {
    let s = skip_newlines(b);
    let parsed = if is_comment(s) {
        spec_header(s.subrange(first_non_space(s, 0) + 1, s.len() as int))
    } else if strip_prefix(s, four_spaces()) is Some {
        spec_member(s)
    } else {
        spec_class(s)
    };
    match parsed {
        Some((rec, rest)) => (Ok(rec), rest),
        None => (Err(split_line(s).0), split_line(s).1),
    }
}

/// A record or the error line.
pub open spec fn result_view(r: Result<ProguardRecord, ParseError>) -> Result<RecordModel, Seq<u8>> {
    match r {
        Ok(rec) => Ok(rec@),
        Err(e) => Err(e.line@),
    }
}

/// Whether `r` is an error, it reports an invalid record.
pub open spec fn errors_are_invalid_record(r: Result<ProguardRecord, ParseError>) -> bool {
    r matches Err(e) ==> is_invalid_record_error(e, e.line@)
}

proof fn lemma_skip_newlines_len(s: Seq<u8>)
    ensures
        skip_newlines(s).len() <= s.len(),
{
    lemma_first_non_newline(s, 0);
}

proof fn lemma_split_line_shorter(s: Seq<u8>)
    ensures
        split_line(s).1.len() <= s.len(),
        s.len() > 0 ==> split_line(s).1.len() < s.len(),
{
    lemma_find_stop(s, 0, Stop::Newline, false);
}

/// Parses one record at the start of `b`.
fn parse_proguard_record<'a>(b: &'a [u8]) -> (r: (Result<ProguardRecord<'a>, ParseError<'a>>, &'a [u8]))
    ensures
        (result_view(r.0), r.1@) == spec_parse_record(b@),
        errors_are_invalid_record(r.0),
        r.1@.len() <= b@.len(),
        b@.len() > 0 ==> r.1@.len() < b@.len(),
{
    reveal(spec_parse_record);
    let s = consume_leading_newlines(b);
    let k = {
        let mut i: usize = 0;
        while i < s.len() && s[i] == 32
            invariant
                i <= s@.len(),
                first_non_space(s@, i as int) == first_non_space(s@, 0),
            decreases s@.len() - i,
        {
            i = i + 1;
        }
        proof {
            lemma_first_non_space(s@, i as int);
        }
        i
    };
    let parsed = if k < s.len() && s[k] == 35 {
        let after = s.split_at(k + 1).1;
        parse_proguard_header(after)
    } else if strip_four_spaces(s).is_some() {
        parse_proguard_field_or_method(s)
    } else {
        parse_proguard_class(s)
    };
    proof {
        lemma_skip_newlines_len(b@);
        lemma_split_line_shorter(s@);
        lemma_first_non_newline(b@, 0);
    }
    match parsed {
        Some((rec, rest)) => (Ok(rec), rest),
        None => {
            let (line, rest) = split_first_line(s);
            (Err(ParseError::invalid_record(line)), rest)
        },
    }
}

/// The result of parsing one whole line as a record.
pub open spec fn spec_try_parse(line: Seq<u8>) -> Result<RecordModel, Seq<u8>> {
    match spec_parse_record(line) {
        (Err(l), _) => Err(l),
        (Ok(rec), rest) => if rest.len() > 0 {
            Err(line)
        } else {
            Ok(rec)
        },
    }
}

impl<'s> ProguardRecord<'s> {
    /// Parses a line from a proguard mapping file.
    ///
    /// The whole line must make up one record; newlines after it are allowed.
    pub fn try_parse(line: &'s [u8]) -> (r: Result<Self, ParseError<'s>>)
        ensures
            result_view(r) == spec_try_parse(line@),
            errors_are_invalid_record(r),
    {
        let (result, rest) = parse_proguard_record(line);
        match result {
            Err(err) => Err(err),
            Ok(record) => if rest.len() > 0 {
                Err(ParseError::invalid_record(line))
            } else {
                Ok(record)
            },
        }
    }
}

/// The records of a mapping file, in order, or the lines that are not records.
pub open spec fn spec_records(b: Seq<u8>) -> Seq<Result<RecordModel, Seq<u8>>>
    decreases b.len(),
{
    if b.len() == 0 {
        Seq::empty()
    } else {
        let (r, rest) = spec_parse_record(b);
        if rest.len() < b.len() {
            seq![r] + spec_records(rest)
        } else {
            seq![r]
        }
    }
}

/// A Proguard Mapping file.
#[derive(Clone, Copy, Default)]
pub struct ProguardMapping<'s> {
    source: &'s [u8],
}

impl<'s> View for ProguardMapping<'s> {
    type V = Seq<u8>;

    closed spec fn view(&self) -> Seq<u8> {
        self.source@
    }
}

/// An iterator yielding [`ProguardRecord`]s, created by [`ProguardMapping::iter`].
#[derive(Clone, Copy, Default)]
pub struct ProguardRecordIter<'s> {
    slice: &'s [u8],
}

impl<'s> View for ProguardRecordIter<'s> {
    type V = Seq<u8>;

    /// The bytes that are left to parse.
    closed spec fn view(&self) -> Seq<u8> {
        self.slice@
    }
}

impl<'s> ProguardRecordIter<'s> {
    /// The next record, or the next line that is not a record.
    pub fn next(&mut self) -> (r: Option<Result<ProguardRecord<'s>, ParseError<'s>>>)
        ensures
            old(self)@.len() == 0 ==> r is None && final(self)@ == old(self)@,
            old(self)@.len() > 0 ==> (r matches Some(res) && (result_view(res), final(self)@)
                == spec_parse_record(old(self)@)),
            old(self)@.len() > 0 ==> spec_records(old(self)@) == seq![result_view(r->0)]
                + spec_records(final(self)@),
            r matches Some(res) ==> errors_are_invalid_record(res),
            old(self)@.len() > 0 ==> final(self)@.len() < old(self)@.len(),
    {
        if self.slice.len() == 0 {
            return None;
        }
        let (result, rest) = parse_proguard_record(self.slice);
        self.slice = rest;
        Some(result)
    }
}

/// Whether a parsed record is a class.
pub open spec fn is_class_record(r: Result<RecordModel, Seq<u8>>) -> bool {
    r matches Ok(RecordModel::Class { .. })
}

/// Whether a parsed record is a field or a method.
pub open spec fn is_member_record(r: Result<RecordModel, Seq<u8>>) -> bool {
    r matches Ok(RecordModel::Field { .. }) || r matches Ok(RecordModel::Method { .. })
}

/// Whether a parsed record is a method.
pub open spec fn is_method_record(r: Result<RecordModel, Seq<u8>>) -> bool {
    r matches Ok(RecordModel::Method { .. })
}

/// Whether a parsed record is a method with line information.
pub open spec fn has_line_mapping(r: Result<RecordModel, Seq<u8>>) -> bool {
    r matches Ok(RecordModel::Method { line_mapping: Some(_), .. })
}

/// Whether, among the first 50 records, a field or method follows a class.
pub open spec fn spec_is_valid(recs: Seq<Result<RecordModel, Seq<u8>>>) -> bool {
    exists|i: int, j: int|
        0 <= j < i < recs.len() && i < 50 && is_class_record(#[trigger] recs[j])
            && is_member_record(#[trigger] recs[i])
}

/// Whether some method record has line information.
pub open spec fn spec_has_line_info(recs: Seq<Result<RecordModel, Seq<u8>>>) -> bool {
    exists|i: int| 0 <= i < recs.len() && has_line_mapping(#[trigger] recs[i])
}

/// The value of the last header with key `key` among the first `n` records, if any.
pub open spec fn last_header_value(recs: Seq<Result<RecordModel, Seq<u8>>>, key: Seq<u8>, n: int) -> Option<
    Option<Seq<u8>>,
>
    decreases n,
{
    if n <= 0 || n > recs.len() {
        None
    } else {
        match recs[n - 1] {
            Ok(RecordModel::Header { key: k, value }) => if k == key {
                Some(value)
            } else {
                last_header_value(recs, key, n - 1)
            },
            _ => last_header_value(recs, key, n - 1),
        }
    }
}

/// The value of the last header with key `key`, or nothing.
pub open spec fn header_value(recs: Seq<Result<RecordModel, Seq<u8>>>, key: Seq<u8>) -> Option<Seq<u8>> {
    match last_header_value(recs, key, recs.len() as int) {
        Some(v) => v,
        None => None,
    }
}

/// The number of class records among the first `n` records.
pub open spec fn count_classes(recs: Seq<Result<RecordModel, Seq<u8>>>, n: int) -> nat
    decreases n,
{
    if n <= 0 || n > recs.len() {
        0
    } else {
        count_classes(recs, n - 1) + if is_class_record(recs[n - 1]) {
            1nat
        } else {
            0nat
        }
    }
}

/// The number of method records among the first `n` records.
pub open spec fn count_methods(recs: Seq<Result<RecordModel, Seq<u8>>>, n: int) -> nat
    decreases n,
{
    if n <= 0 || n > recs.len() {
        0
    } else {
        count_methods(recs, n - 1) + if is_method_record(recs[n - 1]) {
            1nat
        } else {
            0nat
        }
    }
}

/// What a mapping summary holds.
pub struct SummaryModel {
    pub compiler: Option<Seq<u8>>,
    pub compiler_version: Option<Seq<u8>>,
    pub min_api: Option<u32>,
    pub class_count: nat,
    pub method_count: nat,
}

/// The `u32` that the header value `v` spells, if any.
pub open spec fn spec_min_api(v: Option<Seq<u8>>) -> Option<u32> {
    match v {
        Some(v) => parse_u32_chars(decode_utf8(v)),
        None => None,
    }
}

/// The summary of the records `recs`.
pub open spec fn spec_summary(recs: Seq<Result<RecordModel, Seq<u8>>>) -> SummaryModel {
    SummaryModel {
        compiler: header_value(recs, lit("compiler")),
        compiler_version: header_value(recs, lit("compiler_version")),
        min_api: spec_min_api(header_value(recs, lit("min_api"))),
        class_count: count_classes(recs, recs.len() as int),
        method_count: count_methods(recs, recs.len() as int),
    }
}

/// Summary of a mapping file.
pub struct MappingSummary<'s> {
    compiler: Option<&'s str>,
    compiler_version: Option<&'s str>,
    min_api: Option<u32>,
    class_count: usize,
    method_count: usize,
}

impl<'s> View for MappingSummary<'s> {
    type V = SummaryModel;

    closed spec fn view(&self) -> SummaryModel {
        SummaryModel {
            compiler: opt_bytes(self.compiler),
            compiler_version: opt_bytes(self.compiler_version),
            min_api: self.min_api,
            class_count: self.class_count as nat,
            method_count: self.method_count as nat,
        }
    }
}

impl<'s> MappingSummary<'s> {
    /// Returns the name of the compiler that created the proguard mapping.
    pub fn compiler(&self) -> (r: Option<&str>)
        ensures
            opt_bytes(r) == self@.compiler,
    {
        self.compiler
    }

    /// Returns the version of the compiler.
    pub fn compiler_version(&self) -> (r: Option<&str>)
        ensures
            opt_bytes(r) == self@.compiler_version,
    {
        self.compiler_version
    }

    /// Returns the min-api value.
    pub fn min_api(&self) -> (r: Option<u32>)
        ensures
            r == self@.min_api,
    {
        self.min_api
    }

    /// Returns the number of classes in the mapping file.
    pub fn class_count(&self) -> (r: usize)
        ensures
            r == self@.class_count,
    {
        self.class_count
    }

    /// Returns the number of methods in the mapping file.
    pub fn method_count(&self) -> (r: usize)
        ensures
            r == self@.method_count,
    {
        self.method_count
    }
}

proof fn lemma_records_step(b: Seq<u8>)
    requires
        b.len() > 0,
        spec_parse_record(b).1.len() < b.len(),
    ensures
        spec_records(b) == seq![spec_parse_record(b).0] + spec_records(spec_parse_record(b).1),
{
}

#[verifier::external_type_specification]
#[verifier::external_body]
pub struct ExUuid(uuid::Uuid);

/// The 16 bytes of the version 5 UUID of `name` in the namespace whose
/// UUID has the bytes `namespace`.
pub uninterp spec fn uuid_v5(namespace: Seq<u8>, name: Seq<u8>) -> Seq<u8>;

/// The version 5 UUID of `name` in a namespace, as 16 bytes.
///
/// Trusted: calls `uuid::Uuid::new_v5`, which hashes the namespace's bytes
/// and the name with SHA-1, so that its result depends on them alone; the
/// namespace goes in through `Uuid::from_bytes` and the result comes out
/// through `Uuid::as_bytes`, which keep the bytes as they are.
#[verifier::external_body]
fn new_v5_bytes(namespace: [u8; 16], name: &[u8]) -> (r: [u8; 16])
    ensures
        r@ == uuid_v5(namespace@, name@),
{
    *uuid::Uuid::new_v5(&uuid::Uuid::from_bytes(namespace), name).as_bytes()
}

/// The UUID whose 16 bytes are `bytes`.
pub uninterp spec fn uuid_with_bytes(bytes: Seq<u8>) -> uuid::Uuid;

/// A UUID with the given bytes.
///
/// Trusted: calls `uuid::Uuid::from_bytes`, which wraps the bytes as they
/// are, so that its result depends on them alone.
#[verifier::external_body]
fn uuid_from_bytes(bytes: [u8; 16]) -> (r: uuid::Uuid)
    ensures
        r == uuid_with_bytes(bytes@),
{
    uuid::Uuid::from_bytes(bytes)
}

/// The bytes of the DNS namespace UUID, `6ba7b810-9dad-11d1-80b4-00c04fd430c8`.
pub open spec fn dns_namespace() -> Seq<u8> {
    seq![
        0x6bu8, 0xa7u8, 0xb8u8, 0x10u8, 0x9du8, 0xadu8, 0x11u8, 0xd1u8, 0x80u8, 0xb4u8, 0x00u8, 0xc0u8,
        0x4fu8, 0xd4u8, 0x30u8, 0xc8u8,
    ]
}

/// The bytes `guardsquare.com`.
pub open spec fn guardsquare_name() -> Seq<u8> {
    seq![
        103u8, 117u8, 97u8, 114u8, 100u8, 115u8, 113u8, 117u8, 97u8, 114u8, 101u8, 46u8, 99u8, 111u8,
        109u8,
    ]
}

/// The bytes of the UUID of a mapping file: the version 5 UUID of its bytes
/// in the namespace named `guardsquare.com` in the DNS namespace.
pub open spec fn spec_mapping_uuid(source: Seq<u8>) -> Seq<u8> {
    uuid_v5(uuid_v5(dns_namespace(), guardsquare_name()), source)
}

impl<'s> ProguardMapping<'s> {
    /// The bytes of the UUID of the mapping file.
    ///
    /// The UUID is generated from a file checksum.
    pub fn uuid_bytes(&self) -> (r: [u8; 16])
        ensures
            r@ == spec_mapping_uuid(self@),
    {
        let dns: [u8; 16] = [
            0x6b, 0xa7, 0xb8, 0x10, 0x9d, 0xad, 0x11, 0xd1, 0x80, 0xb4, 0x00, 0xc0, 0x4f, 0xd4, 0x30,
            0xc8,
        ];
        let name: [u8; 15] = [
            103, 117, 97, 114, 100, 115, 113, 117, 97, 114, 101, 46, 99, 111, 109,
        ];
        proof {
            assert(dns@ =~= dns_namespace());
            assert(name@ =~= guardsquare_name());
        }
        let namespace = new_v5_bytes(dns, name.as_slice());
        new_v5_bytes(namespace, self.source)
    }

    /// Calculates the UUID of the mapping file.
    ///
    /// The UUID is generated from a file checksum; its bytes are those of
    /// [`ProguardMapping::uuid_bytes`].
    pub fn uuid(&self) -> (r: uuid::Uuid)
        ensures
            r == uuid_with_bytes(spec_mapping_uuid(self@)),
    {
        uuid_from_bytes(self.uuid_bytes())
    }

    /// Create a new Proguard Mapping.
    pub fn new(source: &'s [u8]) -> (r: Self)
        ensures
            r@ == source@,
    {
        Self { source }
    }

    /// Create an iterator over the records of the mapping.
    pub fn iter(&self) -> (r: ProguardRecordIter<'s>)
        ensures
            r@ == self@,
    {
        ProguardRecordIter { slice: self.source }
    }

    /// Whether the mapping file is indeed valid: among its first 50 records a
    /// field or method follows a class.
    pub fn is_valid(&self) -> (r: bool)
        ensures
            r == spec_is_valid(spec_records(self@)),
    {
        let ghost all = spec_records(self.source@);
        let ghost mut done: Seq<Result<RecordModel, Seq<u8>>> = Seq::empty();
        let mut cur = self.source;
        let mut n: usize = 0;
        let mut has_class_line = false;
        while n < 50 && cur.len() > 0
            invariant
                all == spec_records(self@),
                all == done + spec_records(cur@),
                n == done.len(),
                n <= 50,
                has_class_line == exists|j: int| 0 <= j < done.len() && is_class_record(
                    #[trigger] done[j],
                ),
                !exists|i: int, j: int|
                    0 <= j < i < done.len() && is_class_record(#[trigger] done[j])
                        && is_member_record(#[trigger] done[i]),
            decreases cur@.len(),
        {
            let (result, rest) = parse_proguard_record(cur);
            proof {
                lemma_records_step(cur@);
                assert(all == done.push(result_view(result)) + spec_records(rest@)) by {
                    assert(done + (seq![result_view(result)] + spec_records(rest@)) =~= done.push(
                        result_view(result),
                    ) + spec_records(rest@));
                }
            }
            let is_class = match &result {
                Ok(ProguardRecord::Class { .. }) => true,
                _ => false,
            };
            let is_member = match &result {
                Ok(ProguardRecord::Field { .. }) => true,
                Ok(ProguardRecord::Method { .. }) => true,
                _ => false,
            };
            if is_member && has_class_line {
                proof {
                    let d2 = done.push(result_view(result));
                    let j = choose|j: int| 0 <= j < done.len() && is_class_record(#[trigger] done[j]);
                    assert(d2[j] == done[j]);
                    assert(d2[done.len() as int] == result_view(result));
                    assert(is_class_record(d2[j]) && is_member_record(d2[done.len() as int]));
                    assert(all[j] == d2[j]);
                    assert(all[done.len() as int] == d2[done.len() as int]);
                    assert(spec_is_valid(all));
                }
                return true;
            }
            proof {
                let d2 = done.push(result_view(result));
                assert forall|i: int, j: int|
                    0 <= j < i < d2.len() && is_class_record(#[trigger] d2[j]) implies !is_member_record(
                    #[trigger] d2[i],
                ) by {
                    if i < done.len() {
                        assert(d2[i] == done[i] && d2[j] == done[j]);
                    } else {
                        assert(d2[j] == done[j]);
                    }
                }
                if is_class {
                    assert(is_class_record(d2[done.len() as int]));
                }
                if has_class_line {
                    let j = choose|j: int| 0 <= j < done.len() && is_class_record(#[trigger] done[j]);
                    assert(d2[j] == done[j]);
                }
                assert forall|j: int| 0 <= j < d2.len() && is_class_record(#[trigger] d2[j]) implies (
                j < done.len() && is_class_record(done[j])) || is_class by {
                    if j < done.len() {
                        assert(d2[j] == done[j]);
                    }
                }
                done = d2;
            }
            if is_class {
                has_class_line = true;
            }
            cur = rest;
            n = n + 1;
        }
        proof {
            assert forall|i: int, j: int|
                0 <= j < i < all.len() && i < 50 && is_class_record(#[trigger] all[j])
                    implies !is_member_record(#[trigger] all[i]) by {
                if cur@.len() == 0 {
                    assert(spec_records(cur@) =~= Seq::<Result<RecordModel, Seq<u8>>>::empty());
                    assert(all =~= done);
                }
                assert(i < done.len());
                assert(all[i] == done[i] && all[j] == done[j]);
            }
        }
        false
    }

    /// Returns a summary of the file.
    pub fn summary(&self) -> (r: MappingSummary<'s>)
        ensures
            r@ == spec_summary(spec_records(self@)),
    {
        let ghost all = spec_records(self.source@);
        let ghost mut done: Seq<Result<RecordModel, Seq<u8>>> = Seq::empty();
        let mut cur = self.source;
        let mut compiler: Option<&'s str> = None;
        let mut compiler_version: Option<&'s str> = None;
        let mut min_api: Option<Option<&'s str>> = None;
        let mut class_count: usize = 0;
        let mut method_count: usize = 0;
        let total = self.source.len();
        while cur.len() > 0
            invariant
                all == spec_records(self@),
                all == done + spec_records(cur@),
                total == self.source@.len(),
                done.len() + cur@.len() <= total,
                opt_bytes(compiler) == header_value(done, lit("compiler")),
                opt_bytes(compiler_version) == header_value(done, lit("compiler_version")),
                match min_api {
                    None => last_header_value(done, lit("min_api"), done.len() as int) is None,
                    Some(v) => last_header_value(done, lit("min_api"), done.len() as int) == Some(
                        opt_bytes(v),
                    ),
                },
                class_count == count_classes(done, done.len() as int),
                method_count == count_methods(done, done.len() as int),
                class_count <= done.len(),
                method_count <= done.len(),
            decreases cur@.len(),
        {
            let (result, rest) = parse_proguard_record(cur);
            let ghost d2 = done.push(result_view(result));
            proof {
                lemma_records_step(cur@);
                assert(all == d2 + spec_records(rest@)) by {
                    assert(done + (seq![result_view(result)] + spec_records(rest@)) =~= d2
                        + spec_records(rest@));
                }
                lemma_prefix_counts(done, result_view(result));
            }
            match result {
                Ok(ProguardRecord::Header { key, value }) => {
                    proof {
                        lemma_prefix_header(done, result_view(result), lit("compiler"));
                        lemma_prefix_header(done, result_view(result), lit("compiler_version"));
                        lemma_prefix_header(done, result_view(result), lit("min_api"));
                        lemma_summary_keys_differ();
                    }
                    if str_eq(key, "compiler") {
                        compiler = value;
                    } else if str_eq(key, "compiler_version") {
                        compiler_version = value;
                    } else if str_eq(key, "min_api") {
                        min_api = Some(value);
                    }
                },
                Ok(ProguardRecord::Class { .. }) => {
                    proof {
                        lemma_prefix_other(done, result_view(result), lit("compiler"));
                        lemma_prefix_other(done, result_view(result), lit("compiler_version"));
                        lemma_prefix_other(done, result_view(result), lit("min_api"));
                    }
                    class_count = class_count + 1;
                },
                Ok(ProguardRecord::Method { .. }) => {
                    proof {
                        lemma_prefix_other(done, result_view(result), lit("compiler"));
                        lemma_prefix_other(done, result_view(result), lit("compiler_version"));
                        lemma_prefix_other(done, result_view(result), lit("min_api"));
                    }
                    method_count = method_count + 1;
                },
                _ => {
                    proof {
                        lemma_prefix_other(done, result_view(result), lit("compiler"));
                        lemma_prefix_other(done, result_view(result), lit("compiler_version"));
                        lemma_prefix_other(done, result_view(result), lit("min_api"));
                    }
                },
            }
            proof {
                done = d2;
            }
            cur = rest;
        }
        proof {
            assert(spec_records(cur@) =~= Seq::<Result<RecordModel, Seq<u8>>>::empty());
            assert(all =~= done);
        }
        let min_api = match min_api {
            Some(Some(v)) => {
                proof {
                    encode_utf8_decode_utf8(v@);
                }
                parse_u32_str(v)
            },
            _ => None,
        };
        MappingSummary { compiler, compiler_version, min_api, class_count, method_count }
    }

    /// Whether the mapping file contains line info.
    pub fn has_line_info(&self) -> (r: bool)
        ensures
            r == spec_has_line_info(spec_records(self@)),
    {
        let ghost all = spec_records(self.source@);
        let ghost mut done: Seq<Result<RecordModel, Seq<u8>>> = Seq::empty();
        let mut cur = self.source;
        while cur.len() > 0
            invariant
                all == spec_records(self@),
                all == done + spec_records(cur@),
                !spec_has_line_info(done),
            decreases cur@.len(),
        {
            let (result, rest) = parse_proguard_record(cur);
            let ghost d2 = done.push(result_view(result));
            proof {
                lemma_records_step(cur@);
                assert(all == d2 + spec_records(rest@)) by {
                    assert(done + (seq![result_view(result)] + spec_records(rest@)) =~= d2
                        + spec_records(rest@));
                }
            }
            if let Ok(ProguardRecord::Method { line_mapping: Some(_), .. }) = result {
                proof {
                    assert(d2[done.len() as int] == result_view(result));
                    assert(all[done.len() as int] == d2[done.len() as int]);
                    assert(has_line_mapping(all[done.len() as int]));
                    assert(spec_has_line_info(all));
                }
                return true;
            }
            proof {
                assert forall|i: int| 0 <= i < d2.len() implies !has_line_mapping(#[trigger] d2[i]) by {
                    if i < done.len() {
                        assert(d2[i] == done[i]);
                    }
                }
                done = d2;
            }
            cur = rest;
        }
        proof {
            assert(spec_records(cur@) =~= Seq::<Result<RecordModel, Seq<u8>>>::empty());
            assert(all =~= done);
        }
        false
    }
}

proof fn lemma_summary_keys_differ()
    ensures
        lit("compiler") != lit("compiler_version"),
        lit("compiler") != lit("min_api"),
        lit("compiler_version") != lit("min_api"),
{
    reveal_strlit("compiler");
    reveal_strlit("compiler_version");
    reveal_strlit("min_api");
    crate::text::lemma_bytes_eq_iff_chars_eq("compiler"@, "compiler_version"@);
    crate::text::lemma_bytes_eq_iff_chars_eq("compiler"@, "min_api"@);
    crate::text::lemma_bytes_eq_iff_chars_eq("compiler_version"@, "min_api"@);
}

proof fn lemma_prefix_counts(done: Seq<Result<RecordModel, Seq<u8>>>, r: Result<RecordModel, Seq<u8>>)
    ensures
        count_classes(done.push(r), done.len() + 1 as int) == count_classes(done, done.len() as int) + if is_class_record(r) { 1nat } else { 0nat },
        count_methods(done.push(r), done.len() + 1 as int) == count_methods(done, done.len() as int) + if is_method_record(r) { 1nat } else { 0nat },
{
    lemma_counts_prefix(done, r, done.len() as int);
}

proof fn lemma_counts_prefix(done: Seq<Result<RecordModel, Seq<u8>>>, r: Result<RecordModel, Seq<u8>>, n: int)
    requires
        0 <= n <= done.len(),
    ensures
        count_classes(done.push(r), n) == count_classes(done, n),
        count_methods(done.push(r), n) == count_methods(done, n),
    decreases n,
{
    if n > 0 {
        lemma_counts_prefix(done, r, n - 1);
        assert(done.push(r)[n - 1] == done[n - 1]);
    }
}

proof fn lemma_header_prefix(done: Seq<Result<RecordModel, Seq<u8>>>, r: Result<RecordModel, Seq<u8>>, key: Seq<u8>, n: int)
    requires
        0 <= n <= done.len(),
    ensures
        last_header_value(done.push(r), key, n) == last_header_value(done, key, n),
    decreases n,
{
    if n > 0 {
        lemma_header_prefix(done, r, key, n - 1);
        assert(done.push(r)[n - 1] == done[n - 1]);
    }
}

proof fn lemma_prefix_header(done: Seq<Result<RecordModel, Seq<u8>>>, r: Result<RecordModel, Seq<u8>>, key: Seq<u8>)
    requires
        r matches Ok(RecordModel::Header { .. }),
    ensures
        (r matches Ok(RecordModel::Header { key: k, value }) && (k == key ==> last_header_value(done.push(r), key, done.len() + 1 as int) == Some(value))
            && (k != key ==> last_header_value(done.push(r), key, done.len() + 1 as int) == last_header_value(done, key, done.len() as int))),
{
    lemma_header_prefix(done, r, key, done.len() as int);
}

proof fn lemma_prefix_other(done: Seq<Result<RecordModel, Seq<u8>>>, r: Result<RecordModel, Seq<u8>>, key: Seq<u8>)
    requires
        !(r matches Ok(RecordModel::Header { .. })),
    ensures
        last_header_value(done.push(r), key, done.len() + 1 as int) == last_header_value(done, key, done.len() as int),
{
    lemma_header_prefix(done, r, key, done.len() as int);
}

} // verus!

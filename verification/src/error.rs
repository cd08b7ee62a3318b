//! Rendering errors, carrying the 1-based source line where one is known.

use vstd::prelude::*;
use crate::text::{decimal, push_decimal, push_str_chars, string_from};

verus! {

/// Anything that can go wrong turning a template into bytes.
#[derive(Debug, Clone, PartialEq, Eq)]
#[non_exhaustive]
pub enum Error {
    /// A `{...}` directive was not recognized.
    UnknownDirective { line: usize, name: String },
    /// A directive was recognized but its arguments did not parse.
    BadDirective { line: usize, name: String, detail: String },
    /// `{v N}` named a format version this build does not implement.
    UnsupportedVersion { line: usize, requested: u32 },
    /// A `{size WxH}` outside 1..=8.
    SizeOutOfRange { line: usize, w: u8, h: u8 },
    /// A row had a different number of cells than the active `{cols}` spec.
    ColumnCountMismatch { line: usize, expected: usize, found: usize },
    /// A `{cols}` spec is wider than the paper at the current magnification.
    ColumnsTooWide { line: usize, requested: u16, available: u16 },
    /// Content overflowed a right-aligned column, which must never wrap.
    RightColumnOverflow { line: usize, column: usize, width: u16, content: String },
    /// A `{raw ...}` payload was not valid hex, or had odd length.
    BadHex { line: usize, detail: String },
    /// A QR symbol would be wider than the paper at its module size.
    QrTooWide { line: usize, module: u8, needed_dots: u16, available_dots: u16 },
    /// A QR payload exceeds what a version-40 symbol can carry.
    QrTooLong { line: usize, bytes: usize, max_bytes: u16 },
    /// A character has no representation in the profile's code page.
    Unrepresentable { ch: char },
}

/// The content of an [`Error`], with its strings as sequences.
pub enum ErrorV {
    UnknownDirective { line: usize, name: Seq<char> },
    BadDirective { line: usize, name: Seq<char>, detail: Seq<char> },
    UnsupportedVersion { line: usize, requested: u32 },
    SizeOutOfRange { line: usize, w: u8, h: u8 },
    ColumnCountMismatch { line: usize, expected: usize, found: usize },
    ColumnsTooWide { line: usize, requested: u16, available: u16 },
    RightColumnOverflow { line: usize, column: usize, width: u16, content: Seq<char> },
    BadHex { line: usize, detail: Seq<char> },
    QrTooWide { line: usize, module: u8, needed_dots: u16, available_dots: u16 },
    QrTooLong { line: usize, bytes: usize, max_bytes: u16 },
    Unrepresentable { ch: char },
}

impl View for Error {
    type V = ErrorV;

    open spec fn view(&self) -> ErrorV {
        match self {
            Error::UnknownDirective { line, name } => ErrorV::UnknownDirective {
                line: *line,
                name: name@,
            },
            Error::BadDirective { line, name, detail } => ErrorV::BadDirective {
                line: *line,
                name: name@,
                detail: detail@,
            },
            Error::UnsupportedVersion { line, requested } => ErrorV::UnsupportedVersion {
                line: *line,
                requested: *requested,
            },
            Error::SizeOutOfRange { line, w, h } => ErrorV::SizeOutOfRange {
                line: *line,
                w: *w,
                h: *h,
            },
            Error::ColumnCountMismatch { line, expected, found } => ErrorV::ColumnCountMismatch {
                line: *line,
                expected: *expected,
                found: *found,
            },
            Error::ColumnsTooWide { line, requested, available } => ErrorV::ColumnsTooWide {
                line: *line,
                requested: *requested,
                available: *available,
            },
            Error::RightColumnOverflow { line, column, width, content } => {
                ErrorV::RightColumnOverflow {
                    line: *line,
                    column: *column,
                    width: *width,
                    content: content@,
                }
            },
            Error::BadHex { line, detail } => ErrorV::BadHex { line: *line, detail: detail@ },
            Error::QrTooWide { line, module, needed_dots, available_dots } => ErrorV::QrTooWide {
                line: *line,
                module: *module,
                needed_dots: *needed_dots,
                available_dots: *available_dots,
            },
            Error::QrTooLong { line, bytes, max_bytes } => ErrorV::QrTooLong {
                line: *line,
                bytes: *bytes,
                max_bytes: *max_bytes,
            },
            Error::Unrepresentable { ch } => ErrorV::Unrepresentable { ch: *ch },
        }
    }
}


/// What `Debug` writes for a string: the quoted, escaped form.
pub uninterp spec fn debug_str(s: Seq<char>) -> Seq<char>;

/// What `Debug` writes for a character: the quoted, escaped form.
pub uninterp spec fn debug_char(c: char) -> Seq<char>;

/// Calls `<str as Debug>::fmt` through `format!("{:?}")`.
///
/// The result is named by `debug_str`; std documents no more than that it is the string
/// quoted and escaped, so nothing else is claimed.
#[verifier::external_body]
fn debug_string(s: &str) -> (r: String)
    ensures
        r@ == debug_str(s@),
{
    format!("{:?}", s)
}

/// Calls `<char as Debug>::fmt` through `format!("{:?}")`.
///
/// The result is named by `debug_char`; nothing else is claimed.
#[verifier::external_body]
fn debug_char_string(c: char) -> (r: String)
    ensures
        r@ == debug_char(c),
{
    format!("{:?}", c)
}

/// `line N: `, the prefix of every message that has a source line.
pub open spec fn at_line(line: usize) -> Seq<char> {
    "line "@ + decimal(line as nat) + ": "@
}

/// The message an error reads as, naming its line where it has one.
pub open spec fn message_spec(e: ErrorV) -> Seq<char> {
    match e {
        ErrorV::UnknownDirective { line, name } => at_line(line) + "unknown directive `{"@ + name
            + "}`"@,
        ErrorV::BadDirective { line, name, detail } => at_line(line) + "bad `{"@ + name
            + "}` directive: "@ + detail,
        ErrorV::UnsupportedVersion { line, requested } => at_line(line)
            + "template format version "@ + decimal(requested as nat)
            + " is newer than this build supports"@,
        ErrorV::SizeOutOfRange { line, w, h } => at_line(line) + "size "@ + decimal(w as nat)
            + "x"@ + decimal(h as nat) + " outside the supported range 1..=8"@,
        ErrorV::ColumnCountMismatch { line, expected, found } => at_line(line)
            + "active {cols} spec has "@ + decimal(expected as nat) + " columns but the row has "@
            + decimal(found as nat),
        ErrorV::ColumnsTooWide { line, requested, available } => at_line(line)
            + "columns total "@ + decimal(requested as nat) + " chars but only "@ + decimal(
            available as nat,
        ) + " fit at the current size"@,
        ErrorV::RightColumnOverflow { line, column, width, content } => at_line(line)
            + debug_str(content) + " overflows right-aligned column "@ + decimal(column as nat)
            + " (width "@ + decimal(width as nat) + "); right-aligned columns never wrap"@,
        ErrorV::BadHex { line, detail } => at_line(line) + "bad `{raw}` payload: "@ + detail,
        ErrorV::QrTooWide { line, module, needed_dots, available_dots } => at_line(line)
            + "QR symbol needs "@ + decimal(needed_dots as nat) + " dots at module size "@
            + decimal(module as nat) + " but only "@ + decimal(available_dots as nat)
            + " are available; reduce `{qrmod}` or shorten the payload"@,
        ErrorV::QrTooLong { line, bytes, max_bytes } => at_line(line) + "QR payload is "@
            + decimal(bytes as nat) + " bytes, over the "@ + decimal(max_bytes as nat)
            + "-byte ceiling for a version-40 symbol"@,
        ErrorV::Unrepresentable { ch } => "character "@ + debug_char(ch)
            + " has no encoding in the target code page"@,
    }
}

fn push_at_line(out: &mut Vec<char>, line: usize)
    ensures
        final(out)@ == old(out)@ + at_line(line),
{
    let ghost start = out@;
    push_str_chars(out, "line ");
    push_decimal(out, line as u64);
    push_str_chars(out, ": ");
    assert(out@ =~= start + at_line(line));
}

fn push_string(out: &mut Vec<char>, s: &String)
    ensures
        final(out)@ == old(out)@ + s@,
{
    push_str_chars(out, s.as_str());
}

impl Error {
    /// The message this error reads as, for whoever edits the template: it names the
    /// source line where one is known.
    pub fn message(&self) -> (r: String)
        ensures
            r@ == message_spec(self@),
    {
        let mut out: Vec<char> = Vec::new();
        match self {
            Error::UnknownDirective { line, name } => {
                push_at_line(&mut out, *line);
                push_str_chars(&mut out, "unknown directive `{");
                push_string(&mut out, name);
                push_str_chars(&mut out, "}`");
            },
            Error::BadDirective { line, name, detail } => {
                push_at_line(&mut out, *line);
                push_str_chars(&mut out, "bad `{");
                push_string(&mut out, name);
                push_str_chars(&mut out, "}` directive: ");
                push_string(&mut out, detail);
            },
            Error::UnsupportedVersion { line, requested } => {
                push_at_line(&mut out, *line);
                push_str_chars(&mut out, "template format version ");
                push_decimal(&mut out, *requested as u64);
                push_str_chars(&mut out, " is newer than this build supports");
            },
            Error::SizeOutOfRange { line, w, h } => {
                push_at_line(&mut out, *line);
                push_str_chars(&mut out, "size ");
                push_decimal(&mut out, *w as u64);
                push_str_chars(&mut out, "x");
                push_decimal(&mut out, *h as u64);
                push_str_chars(&mut out, " outside the supported range 1..=8");
            },
            Error::ColumnCountMismatch { line, expected, found } => {
                push_at_line(&mut out, *line);
                push_str_chars(&mut out, "active {cols} spec has ");
                push_decimal(&mut out, *expected as u64);
                push_str_chars(&mut out, " columns but the row has ");
                push_decimal(&mut out, *found as u64);
            },
            Error::ColumnsTooWide { line, requested, available } => {
                push_at_line(&mut out, *line);
                push_str_chars(&mut out, "columns total ");
                push_decimal(&mut out, *requested as u64);
                push_str_chars(&mut out, " chars but only ");
                push_decimal(&mut out, *available as u64);
                push_str_chars(&mut out, " fit at the current size");
            },
            Error::RightColumnOverflow { line, column, width, content } => {
                push_at_line(&mut out, *line);
                let quoted = debug_string(content.as_str());
                push_string(&mut out, &quoted);
                push_str_chars(&mut out, " overflows right-aligned column ");
                push_decimal(&mut out, *column as u64);
                push_str_chars(&mut out, " (width ");
                push_decimal(&mut out, *width as u64);
                push_str_chars(&mut out, "); right-aligned columns never wrap");
            },
            Error::BadHex { line, detail } => {
                push_at_line(&mut out, *line);
                push_str_chars(&mut out, "bad `{raw}` payload: ");
                push_string(&mut out, detail);
            },
            Error::QrTooWide { line, module, needed_dots, available_dots } => {
                push_at_line(&mut out, *line);
                push_str_chars(&mut out, "QR symbol needs ");
                push_decimal(&mut out, *needed_dots as u64);
                push_str_chars(&mut out, " dots at module size ");
                push_decimal(&mut out, *module as u64);
                push_str_chars(&mut out, " but only ");
                push_decimal(&mut out, *available_dots as u64);
                push_str_chars(&mut out, " are available; reduce `{qrmod}` or shorten the payload");
            },
            Error::QrTooLong { line, bytes, max_bytes } => {
                push_at_line(&mut out, *line);
                push_str_chars(&mut out, "QR payload is ");
                push_decimal(&mut out, *bytes as u64);
                push_str_chars(&mut out, " bytes, over the ");
                push_decimal(&mut out, *max_bytes as u64);
                push_str_chars(&mut out, "-byte ceiling for a version-40 symbol");
            },
            Error::Unrepresentable { ch } => {
                push_str_chars(&mut out, "character ");
                let quoted = debug_char_string(*ch);
                push_string(&mut out, &quoted);
                push_str_chars(&mut out, " has no encoding in the target code page");
            },
        }
        assert(out@ =~= message_spec(self@));
        string_from(out.as_slice())
    }
}
} // verus!

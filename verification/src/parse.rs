//! Template text into a block AST. The cheap part.
//!
//! The parser resolves *syntax* only: `{cols 20,10:r}` becomes a spec of two columns in
//! characters, and what that means in dots is entirely the layout pass's problem.
//!
//! Content lines and cells are trimmed at both ends, so whitespace is never load-bearing;
//! `\` makes the next character literal.

use vstd::prelude::*;
use vstd::utf8::encode_utf8;
use crate::error::{Error, ErrorV};
use crate::ir::Align;
use crate::qr;
use crate::text::{
    chars_of, copy_range, decimal, is_whitespace, is_ws, push_decimal, push_str_chars, range_is,
    string_from, trim, trim_range, trim_start, trim_start_range,
};

verus! {

/// A parsed block with the 1-based source line it came from.
#[derive(Debug, Clone, PartialEq, Eq)]
pub struct Node {
    /// 1-based source line.
    pub line: usize,
    pub block: Block,
}

/// One structural element of a template.
#[derive(Debug, Clone, PartialEq, Eq)]
pub enum Block {
    /// `{v N}` — format version.
    Version(u32),
    /// `{left}` `{center}` `{right}` — sticky until changed.
    Justify(Align),
    /// `{size WxH}` — magnification, 1..=8 each. Sticky.
    Size { w: u8, h: u8 },
    /// `{cols A,B:r,C:c}` — widths in characters. Sticky until `{/cols}` or the next `{cols}`.
    Cols(Vec<ColSpec>),
    /// `{/cols}` — leave column mode.
    ColsEnd,
    /// `---` — full-width separator.
    Rule,
    /// `{feed N}`.
    Feed(u8),
    /// `{cut}`.
    Cut,
    /// `{raw 1D564200}` — already hex-decoded.
    Raw(Vec<u8>),
    /// `{qr DATA}` — the payload with `\` escapes resolved.
    Qr(String),
    /// `{qrmod N}` — QR module size in dots, 1..=16. Sticky.
    QrModule(u8),
    /// An empty source line.
    Blank,
    /// A content line: one cell outside column mode, otherwise one per column.
    Line(Vec<Cell>),
}

/// One column of an active `{cols}` spec.
#[derive(Debug, Clone, Copy, PartialEq, Eq)]
pub struct ColSpec {
    /// Width in characters at the current magnification.
    pub width_chars: u16,
    /// `:l` (default), `:r`, or `:c`.
    pub align: Align,
}

/// The contents of one cell: a sequence of attributed text runs.
#[derive(Debug, Clone, PartialEq, Eq)]
pub struct Cell {
    pub spans: Vec<Span>,
}

/// A run of text sharing one set of inline attributes.
#[derive(Debug, Clone, PartialEq, Eq)]
pub struct Span {
    pub text: String,
    pub bold: bool,
    pub underline: bool,
}

impl Default for Cell {
    fn default() -> (c: Self)
        ensures
            c@.spans.len() == 0,
    {
        Cell { spans: Vec::new() }
    }
}

impl Default for Span {
    fn default() -> (s: Self)
        ensures
            s@.text.len() == 0,
            !s.bold,
            !s.underline,
    {
        Span { text: String::new(), bold: false, underline: false }
    }
}

/// The format version assumed when a template omits `{v N}`.
pub const DEFAULT_VERSION: u32 = 1;

/// The highest format version this build implements.
pub const MAX_VERSION: u32 = 1;

/// The content of a [`Span`].
pub struct SpanV {
    pub text: Seq<char>,
    pub bold: bool,
    pub underline: bool,
}

/// The content of a [`Cell`].
pub struct CellV {
    pub spans: Seq<SpanV>,
}

/// The content of a [`Block`].
pub enum BlockV {
    Version(u32),
    Justify(Align),
    Size { w: u8, h: u8 },
    Cols(Seq<ColSpec>),
    ColsEnd,
    Rule,
    Feed(u8),
    Cut,
    Raw(Seq<u8>),
    Qr(Seq<char>),
    QrModule(u8),
    Blank,
    Line(Seq<CellV>),
}

/// The content of a [`Node`].
pub struct NodeV {
    pub line: usize,
    pub block: BlockV,
}

impl View for Span {
    type V = SpanV;

    open spec fn view(&self) -> SpanV {
        SpanV { text: self.text@, bold: self.bold, underline: self.underline }
    }
}

impl View for Cell {
    type V = CellV;

    open spec fn view(&self) -> CellV {
        CellV { spans: self.spans@.map_values(|s: Span| s@) }
    }
}

impl View for Block {
    type V = BlockV;

    open spec fn view(&self) -> BlockV {
        match self {
            Block::Version(v) => BlockV::Version(*v),
            Block::Justify(a) => BlockV::Justify(*a),
            Block::Size { w, h } => BlockV::Size { w: *w, h: *h },
            Block::Cols(s) => BlockV::Cols(s@),
            Block::ColsEnd => BlockV::ColsEnd,
            Block::Rule => BlockV::Rule,
            Block::Feed(n) => BlockV::Feed(*n),
            Block::Cut => BlockV::Cut,
            Block::Raw(b) => BlockV::Raw(b@),
            Block::Qr(d) => BlockV::Qr(d@),
            Block::QrModule(n) => BlockV::QrModule(*n),
            Block::Blank => BlockV::Blank,
            Block::Line(cells) => BlockV::Line(cells@.map_values(|c: Cell| c@)),
        }
    }
}

impl View for Node {
    type V = NodeV;

    open spec fn view(&self) -> NodeV {
        NodeV { line: self.line, block: self.block@ }
    }
}

/// The view of a node sequence.
pub open spec fn nodes_view(nodes: Seq<Node>) -> Seq<NodeV> {
    nodes.map_values(|n: Node| n@)
}


// --- the grammar, as specifications ------------------------------------------------

/// The parser's state: the nodes so far and the active column spec, which decides whether
/// `|` separates cells.
pub struct PState {
    pub nodes: Seq<NodeV>,
    pub cols: Option<Seq<ColSpec>>,
}

pub open spec fn push_s(st: PState, line: usize, block: BlockV) -> PState {
    PState {
        nodes: st.nodes.push(NodeV { line, block }),
        cols: match block {
            BlockV::Cols(specs) => Some(specs),
            BlockV::ColsEnd => None,
            _ => st.cols,
        },
    }
}


pub proof fn lemma_next_newline(t: Seq<char>, i: int)
    requires
        0 <= i,
    ensures
        i <= next_newline(t, i) || (i > t.len() && next_newline(t, i) == t.len()),
        next_newline(t, i) <= t.len(),
        next_newline(t, i) < t.len() ==> t[next_newline(t, i)] == '\n',
        forall|k: int| i <= k < next_newline(t, i) ==> t[k] != '\n',
    decreases t.len() - i,
{
    if i < t.len() && t[i] != '\n' {
        lemma_next_newline(t, i + 1);
    }
}

pub proof fn lemma_first_of(s: Seq<char>, i: int, c: char, d: char)
    requires
        0 <= i,
    ensures
        first_of_from(s, i, c, d) matches Some(k) ==> i <= k < s.len() && (s[k] == c || s[k] == d)
            && forall|j: int| i <= j < k ==> s[j] != c && s[j] != d,
        first_of_from(s, i, c, d) is None ==> forall|j: int| i <= j < s.len() ==> s[j] != c && s[j] != d,
    decreases s.len() - i,
{
    if i < s.len() && s[i] != c && s[i] != d {
        lemma_first_of(s, i + 1, c, d);
    }
}

pub proof fn lemma_trim_start_len(s: Seq<char>)
    ensures
        trim_start(s).len() <= s.len(),
    decreases s.len(),
{
    if s.len() > 0 && is_ws(s[0]) {
        lemma_trim_start_len(s.drop_first());
    }
}

/// Index of the first `\n` at or after `i`, or the end.
pub open spec fn next_newline(t: Seq<char>, i: int) -> int
    decreases t.len() - i,
{
    if i >= t.len() || i < 0 {
        t.len() as int
    } else if t[i] == '\n' {
        i
    } else {
        next_newline(t, i + 1)
    }
}

/// The line from `i` to the newline at `j`, with the `\r` of a `\r\n` ending removed.
pub open spec fn line_text(t: Seq<char>, i: int, j: int) -> Seq<char> {
    let raw = t.subrange(i, j);
    if j < t.len() && raw.len() > 0 && raw.last() == '\r' {
        raw.drop_last()
    } else {
        raw
    }
}

/// `s` without leading byte-order marks.
pub open spec fn strip_bom(s: Seq<char>) -> Seq<char>
    decreases s.len(),
{
    if s.len() > 0 && s[0] == '\u{feff}' {
        strip_bom(s.drop_first())
    } else {
        s
    }
}

/// `s` without leading `{`.
pub open spec fn strip_braces(s: Seq<char>) -> Seq<char>
    decreases s.len(),
{
    if s.len() > 0 && s[0] == '{' {
        strip_braces(s.drop_first())
    } else {
        s
    }
}

/// Index of the `}` closing a directive that starts at the front of `s`, honoring `\`.
pub open spec fn dir_end_from(s: Seq<char>, i: int, escaped: bool) -> Option<int>
    decreases s.len() - i,
{
    if i >= s.len() || i < 0 {
        None
    } else if escaped {
        dir_end_from(s, i + 1, false)
    } else if s[i] == '\\' {
        dir_end_from(s, i + 1, true)
    } else if s[i] == '}' {
        Some(i)
    } else {
        dir_end_from(s, i + 1, false)
    }
}

pub proof fn lemma_dir_end_from(s: Seq<char>, i: int, escaped: bool)
    requires
        0 <= i,
    ensures
        dir_end_from(s, i, escaped) matches Some(k) ==> i <= k < s.len(),
    decreases s.len() - i,
{
    if i < s.len() {
        lemma_dir_end_from(s, i + 1, false);
        lemma_dir_end_from(s, i + 1, true);
    }
}

pub open spec fn directive_end(s: Seq<char>) -> Option<int> {
    dir_end_from(s, 0, false)
}

/// Index of the first whitespace character in `s`.
pub open spec fn first_ws_from(s: Seq<char>, i: int) -> Option<int>
    decreases s.len() - i,
{
    if i >= s.len() || i < 0 {
        None
    } else if is_ws(s[i]) {
        Some(i)
    } else {
        first_ws_from(s, i + 1)
    }
}

/// Index of the first `c` or `d` in `s`.
pub open spec fn first_of_from(s: Seq<char>, i: int, c: char, d: char) -> Option<int>
    decreases s.len() - i,
{
    if i >= s.len() || i < 0 {
        None
    } else if s[i] == c || s[i] == d {
        Some(i)
    } else {
        first_of_from(s, i + 1, c, d)
    }
}

/// Whether every character of `s` is an ASCII digit.
pub open spec fn all_digits(s: Seq<char>) -> bool {
    forall|i: int| 0 <= i < s.len() ==> '0' <= #[trigger] s[i] <= '9'
}

/// The value of a string of ASCII digits.
pub open spec fn digits_value(s: Seq<char>) -> int
    decreases s.len(),
{
    if s.len() == 0 {
        0
    } else {
        digits_value(s.drop_last()) * 10 + (s.last() as int - '0' as int)
    }
}

/// Rust's unsigned integer syntax (`str::parse` for `u8`, `u16`, `u32`): one optional `+`,
/// then one or more ASCII digits, with a value at most `max`.
pub open spec fn parse_unsigned(s: Seq<char>, max: int) -> Option<int> {
    let d = if s.len() > 0 && s[0] == '+' { s.drop_first() } else { s };
    if d.len() > 0 && all_digits(d) && digits_value(d) <= max {
        Some(digits_value(d))
    } else {
        None
    }
}

/// Whether `c` is an ASCII hex digit.
pub open spec fn is_hex(c: char) -> bool {
    ('0' <= c <= '9') || ('a' <= c <= 'f') || ('A' <= c <= 'F')
}

pub open spec fn hex_value(c: char) -> int {
    if '0' <= c <= '9' {
        c as int - '0' as int
    } else if 'a' <= c <= 'f' {
        c as int - 'a' as int + 10
    } else {
        c as int - 'A' as int + 10
    }
}

/// The byte a pair of characters spells in hex: both must be hex digits, the first the
/// high nibble.
pub open spec fn hex_pair(a: char, b: char) -> Option<u8> {
    if is_hex(a) && is_hex(b) {
        Some((hex_value(a) * 16 + hex_value(b)) as u8)
    } else {
        None
    }
}

/// Whether `c` is encoded in a single UTF-8 byte.
pub open spec fn is_ascii_char(c: char) -> bool {
    (c as u32) < 0x80
}

/// How decoding the hex digits `d` from position `i` ends.
pub enum HexEnd {
    /// All pairs decoded.
    Bytes(Seq<u8>),
    /// These characters, where a pair was expected, are not a hex byte.
    BadPair(Seq<char>),
}

/// Decode hex digit pairs, stopping at the first bad pair. A character outside ASCII is
/// never a hex digit: the pair it starts, or ends, is reported with the characters it
/// touches, even where its two bytes would end inside that character.
pub open spec fn hex_from(d: Seq<char>, i: int, acc: Seq<u8>) -> HexEnd
    decreases d.len() - i,
{
    if i >= d.len() || i < 0 {
        HexEnd::Bytes(acc)
    } else if !is_ascii_char(d[i]) {
        HexEnd::BadPair(seq![d[i]])
    } else if i + 1 >= d.len() {
        HexEnd::Bytes(acc)
    } else if !is_ascii_char(d[i + 1]) {
        HexEnd::BadPair(seq![d[i], d[i + 1]])
    } else {
        match hex_pair(d[i], d[i + 1]) {
            None => HexEnd::BadPair(seq![d[i], d[i + 1]]),
            Some(b) => hex_from(d, i + 2, acc.push(b)),
        }
    }
}

/// The non-whitespace characters of `s`.
pub open spec fn non_ws(s: Seq<char>) -> Seq<char>
    decreases s.len(),
{
    if s.len() == 0 {
        seq![]
    } else if is_ws(s.last()) {
        non_ws(s.drop_last())
    } else {
        non_ws(s.drop_last()).push(s.last())
    }
}

/// A `{raw}` payload: whitespace between digits is ignored.
pub open spec fn hex_s(args: Seq<char>, line: usize) -> Result<Seq<u8>, ErrorV> {
    let d = non_ws(args);
    let bytes = encode_utf8(d).len() as usize;
    if d.len() == 0 {
        Err(ErrorV::BadHex { line, detail: "no bytes given"@ })
    } else if bytes % 2 != 0 {
        Err(ErrorV::BadHex { line, detail: "odd number of hex digits ("@ + decimal(bytes as nat) + ")"@ })
    } else {
        match hex_from(d, 0, seq![]) {
            HexEnd::Bytes(b) => Ok(b),
            HexEnd::BadPair(p) => Err(ErrorV::BadHex { line, detail: "`"@ + p + "` is not a hex byte"@ }),
        }
    }
}

/// Resolve `\` escapes: a backslash makes the next character literal, and a trailing
/// backslash is itself.
pub open spec fn unescape_s(s: Seq<char>) -> Seq<char>
    decreases s.len(),
{
    if s.len() == 0 {
        seq![]
    } else if s[0] == '\\' {
        if s.len() >= 2 {
            seq![s[1]] + unescape_s(s.skip(2))
        } else {
            seq!['\\']
        }
    } else {
        seq![s[0]] + unescape_s(s.drop_first())
    }
}

pub open spec fn bad_s(line: usize, name: Seq<char>, detail: Seq<char>) -> ErrorV {
    ErrorV::BadDirective { line, name, detail }
}

/// One `{cols}` column: `W` or `W:a` with `a` one of `l`, `r`, `c`.
pub open spec fn col_spec_s(part: Seq<char>, line: usize, name: Seq<char>) -> Result<ColSpec, ErrorV> {
    let (width, align) = match first_of_from(part, 0, ':', ':') {
        Some(k) => {
            let a = trim(part.skip(k + 1));
            let al = if a == "l"@ {
                Some(Align::Left)
            } else if a == "r"@ {
                Some(Align::Right)
            } else if a == "c"@ {
                Some(Align::Center)
            } else {
                None
            };
            (trim(part.take(k)), al)
        },
        None => (part, Some(Align::Left)),
    };
    match align {
        None => Err(bad_s(line, name, "unknown column alignment `:"@ + trim(part.skip(first_of_from(part, 0, ':', ':')->0 + 1)) + "` \u{2014} expected `:l`, `:r`, or `:c`"@)),
        Some(al) => match parse_unsigned(width, u16::MAX as int) {
            None => Err(bad_s(line, name, "column width `"@ + width + "` is not a number"@)),
            Some(w) => if w == 0 {
                Err(bad_s(line, name, "column width must be at least 1"@))
            } else {
                Ok(ColSpec { width_chars: w as u16, align: al })
            },
        },
    }
}

/// The pieces of `s` between commas.
pub open spec fn split_commas(s: Seq<char>) -> Seq<Seq<char>>
    decreases s.len(),
{
    match first_of_from(s, 0, ',', ',') {
        Some(k) => {
            proof {
                lemma_first_of(s, 0, ',', ',');
            }
            seq![s.take(k)] + split_commas(s.skip(k + 1))
        },
        None => seq![s],
    }
}

/// The columns of a `{cols}` argument list, or the first bad column's error.
pub open spec fn col_specs_s(parts: Seq<Seq<char>>, line: usize, name: Seq<char>) -> Result<Seq<ColSpec>, ErrorV>
    decreases parts.len(),
{
    if parts.len() == 0 {
        Ok(seq![])
    } else {
        match col_spec_s(trim(parts[0]), line, name) {
            Err(x) => Err(x),
            Ok(c) => match col_specs_s(parts.drop_first(), line, name) {
                Err(x) => Err(x),
                Ok(rest) => Ok(seq![c] + rest),
            },
        }
    }
}

/// The directive name: everything before the first whitespace.
pub open spec fn dname(inner: Seq<char>) -> Seq<char> {
    match first_ws_from(inner, 0) {
        Some(k) => inner.take(k),
        None => inner,
    }
}

/// The directive arguments: everything after the name, trimmed.
pub open spec fn dargs(inner: Seq<char>) -> Seq<char> {
    match first_ws_from(inner, 0) {
        Some(k) => trim(inner.skip(k)),
        None => seq![],
    }
}

/// One directive, given its trimmed text between the braces.
pub open spec fn directive_s(st: PState, line: usize, inner: Seq<char>) -> Result<BlockV, ErrorV> {
    let name = dname(inner);
    let args = dargs(inner);
    if name == "v"@ {
        if st.nodes.len() > 0 {
            Err(bad_s(line, name, "must be the first directive in the template"@))
        } else {
            match parse_unsigned(args, u32::MAX as int) {
                None => Err(bad_s(line, name, "expected a version number, as in `{v 1}`"@)),
                Some(n) => if n > MAX_VERSION {
                    Err(ErrorV::UnsupportedVersion { line, requested: n as u32 })
                } else {
                    Ok(BlockV::Version(n as u32))
                },
            }
        }
    } else if name == "left"@ {
        Ok(BlockV::Justify(Align::Left))
    } else if name == "center"@ {
        Ok(BlockV::Justify(Align::Center))
    } else if name == "right"@ {
        Ok(BlockV::Justify(Align::Right))
    } else if name == "size"@ {
        match first_of_from(args, 0, 'x', 'X') {
            None => Err(bad_s(line, name, "expected WxH, as in `{size 2x2}`"@)),
            Some(k) => match parse_unsigned(trim(args.take(k)), u8::MAX as int) {
                None => Err(bad_s(line, name, "width must be a number 1..=8"@)),
                Some(w) => match parse_unsigned(trim(args.skip(k + 1)), u8::MAX as int) {
                    None => Err(bad_s(line, name, "height must be a number 1..=8"@)),
                    Some(h) => if 1 <= w <= 8 && 1 <= h <= 8 {
                        Ok(BlockV::Size { w: w as u8, h: h as u8 })
                    } else {
                        Err(ErrorV::SizeOutOfRange { line, w: w as u8, h: h as u8 })
                    },
                },
            },
        }
    } else if name == "cols"@ {
        if args.len() == 0 {
            Err(bad_s(line, name, "expected at least one column, as in `{cols 20,28:r}`"@))
        } else {
            match col_specs_s(split_commas(args), line, name) {
                Err(x) => Err(x),
                Ok(specs) => Ok(BlockV::Cols(specs)),
            }
        }
    } else if name == "/cols"@ {
        Ok(BlockV::ColsEnd)
    } else if name == "feed"@ {
        match parse_unsigned(args, u8::MAX as int) {
            None => Err(bad_s(line, name, "expected a line count, as in `{feed 4}`"@)),
            Some(n) => Ok(BlockV::Feed(n as u8)),
        }
    } else if name == "cut"@ {
        if args.len() == 0 {
            Ok(BlockV::Cut)
        } else {
            Err(bad_s(line, name, "takes no arguments"@))
        }
    } else if name == "raw"@ {
        match hex_s(args, line) {
            Err(x) => Err(x),
            Ok(b) => Ok(BlockV::Raw(b)),
        }
    } else if name == "qr"@ {
        if args.len() == 0 {
            Err(bad_s(line, name, "expected data, as in `{qr https://example.com}`"@))
        } else {
            Ok(BlockV::Qr(unescape_s(args)))
        }
    } else if name == "qrmod"@ {
        match parse_unsigned(args, u8::MAX as int) {
            None => Err(bad_s(line, name, "expected a module size, as in `{qrmod 6}`"@)),
            Some(n) => if qr::MIN_MODULE <= n <= qr::MAX_MODULE {
                Ok(BlockV::QrModule(n as u8))
            } else {
                Err(bad_s(line, name, "module size must be "@ + decimal(1) + "..="@ + decimal(16) + ", got "@ + decimal(n as nat)))
            },
        }
    } else {
        Err(ErrorV::UnknownDirective { line, name })
    }
}

/// The name reported for an unterminated directive: up to 16 characters after the braces.
pub open spec fn unterminated_name(rest: Seq<char>) -> Seq<char> {
    let s = strip_braces(rest);
    if s.len() > 16 { s.take(16) } else { s }
}

/// The directives prefixing a line. Returns the state after them, the rest of the line,
/// and whether there was any directive.
pub open spec fn directives_s(st: PState, line: usize, rest: Seq<char>, had: bool) -> Result<(PState, Seq<char>, bool), ErrorV>
    decreases rest.len(),
{
    if rest.len() > 0 && rest[0] == '{' {
        match directive_end(rest) {
            None => Err(bad_s(line, unterminated_name(rest), "unterminated directive \u{2014} missing `}`"@)),
            Some(end) => {
                if end < 1 || end >= rest.len() {
                    Ok((st, rest, had))
                } else {
                    match directive_s(st, line, trim(rest.subrange(1, end))) {
                        Err(x) => Err(x),
                        Ok(block) => {
                            proof {
                                lemma_trim_start_len(rest.subrange(end + 1, rest.len() as int));
                            }
                            directives_s(push_s(st, line, block), line, trim_start(rest.subrange(end + 1, rest.len() as int)), true)
                        },
                    }
                }
            },
        }
    } else {
        Ok((st, rest, had))
    }
}

/// A separator: three or more dashes and nothing else.
pub open spec fn is_rule_s(s: Seq<char>) -> bool {
    s.len() >= 3 && forall|i: int| 0 <= i < s.len() ==> #[trigger] s[i] == '-'
}

/// Split a row on unescaped `|`, leaving escapes in place.
pub open spec fn split_from(s: Seq<char>, i: int, start: int, escaped: bool, acc: Seq<Seq<char>>) -> Seq<Seq<char>>
    decreases s.len() - i,
{
    if i >= s.len() || i < 0 {
        acc.push(s.subrange(start, s.len() as int))
    } else if escaped {
        split_from(s, i + 1, start, false, acc)
    } else if s[i] == '\\' {
        split_from(s, i + 1, start, true, acc)
    } else if s[i] == '|' {
        split_from(s, i + 1, i + 1, false, acc.push(s.subrange(start, i)))
    } else {
        split_from(s, i + 1, start, false, acc)
    }
}

pub open spec fn split_cells_s(s: Seq<char>) -> Seq<Seq<char>> {
    split_from(s, 0, 0, false, seq![])
}

/// Close the pending run of a cell, if it has any text.
pub open spec fn flush_s(spans: Seq<SpanV>, buf: Seq<char>, bold: bool, underline: bool) -> Seq<SpanV> {
    if buf.len() > 0 {
        spans.push(SpanV { text: buf, bold, underline })
    } else {
        spans
    }
}

/// Inline markup of one cell: `**` toggles bold, `__` toggles underline, `\` makes the
/// next character literal. Attributes end with the cell.
pub open spec fn cell_from(s: Seq<char>, i: int, spans: Seq<SpanV>, buf: Seq<char>, bold: bool, underline: bool) -> Seq<SpanV>
    decreases s.len() - i,
{
    if i >= s.len() || i < 0 {
        flush_s(spans, buf, bold, underline)
    } else if s[i] == '\\' {
        if i + 1 < s.len() {
            cell_from(s, i + 2, spans, buf.push(s[i + 1]), bold, underline)
        } else {
            cell_from(s, i + 1, spans, buf.push('\\'), bold, underline)
        }
    } else if s[i] == '*' && i + 1 < s.len() && s[i + 1] == '*' {
        cell_from(s, i + 2, flush_s(spans, buf, bold, underline), seq![], !bold, underline)
    } else if s[i] == '_' && i + 1 < s.len() && s[i + 1] == '_' {
        cell_from(s, i + 2, flush_s(spans, buf, bold, underline), seq![], bold, !underline)
    } else {
        cell_from(s, i + 1, spans, buf.push(s[i]), bold, underline)
    }
}

/// One cell, trimmed, as attributed runs.
pub open spec fn parse_cell_s(s: Seq<char>) -> CellV {
    CellV { spans: cell_from(trim(s), 0, seq![], seq![], false, false) }
}

/// The content of a line after its directives.
pub open spec fn content_s(st: PState, line: usize, rest: Seq<char>, had: bool) -> Result<PState, ErrorV> {
    if rest.len() == 0 {
        Ok(if had { st } else { push_s(st, line, BlockV::Blank) })
    } else if is_rule_s(rest) {
        Ok(push_s(st, line, BlockV::Rule))
    } else {
        match st.cols {
            Some(specs) => {
                let cells = split_cells_s(rest);
                if cells.len() != specs.len() {
                    Err(ErrorV::ColumnCountMismatch { line, expected: specs.len() as usize, found: cells.len() as usize })
                } else {
                    Ok(push_s(st, line, BlockV::Line(cells.map_values(|c: Seq<char>| parse_cell_s(c)))))
                }
            },
            None => Ok(push_s(st, line, BlockV::Line(seq![parse_cell_s(rest)]))),
        }
    }
}

/// One source line.
pub open spec fn line_s(st: PState, line: usize, raw: Seq<char>) -> Result<PState, ErrorV> {
    match directives_s(st, line, trim(raw), false) {
        Err(x) => Err(x),
        Ok((st2, rest, had)) => content_s(st2, line, rest, had),
    }
}

/// The text of the line starting at `pos`, which is line number `n` (from 0).
pub open spec fn raw_line(t: Seq<char>, pos: int, n: int) -> Seq<char> {
    let l = line_text(t, pos, next_newline(t, pos));
    if n == 0 { strip_bom(l) } else { l }
}

/// All lines from position `pos` on, the first being line number `n` (from 0).
pub open spec fn lines_from(t: Seq<char>, pos: int, n: int, st: PState) -> Result<PState, ErrorV>
    decreases t.len() + 1 - pos,
{
    if pos >= t.len() || pos < 0 {
        Ok(st)
    } else {
        match line_s(st, (n + 1) as usize, raw_line(t, pos, n)) {
            Err(x) => Err(x),
            Ok(st2) => {
                proof {
                    lemma_next_newline(t, pos);
                }
                lines_from(t, next_newline(t, pos) + 1, n + 1, st2)
            },
        }
    }
}

pub open spec fn init_pstate() -> PState {
    PState { nodes: seq![], cols: None }
}

/// The block AST a template parses to, or the first error.
pub open spec fn parse_spec(t: Seq<char>) -> Result<Seq<NodeV>, ErrorV> {
    match lines_from(t, 0, 0, init_pstate()) {
        Ok(st) => Ok(st.nodes),
        Err(x) => Err(x),
    }
}



// --- scanning ----------------------------------------------------------------------

/// Index of the first `\n` in `t` at or after `i`, or the end.
fn find_newline(t: &Vec<char>, i: usize) -> (r: usize)
    requires
        i <= t.len(),
    ensures
        r as int == next_newline(t@, i as int),
{
    let mut j = i;
    while j < t.len() && t[j] != '\n'
        invariant
            i <= j <= t.len(),
            next_newline(t@, i as int) == next_newline(t@, j as int),
        decreases t.len() - j,
    {
        j = j + 1;
    }
    j
}

/// Absolute index of the `}` closing the directive that starts at `lo`.
fn find_directive_end(t: &Vec<char>, lo: usize, hi: usize) -> (r: Option<usize>)
    requires
        lo <= hi <= t.len(),
    ensures
        match r {
            Some(k) => lo <= k < hi && directive_end(t@.subrange(lo as int, hi as int)) == Some(k - lo),
            None => directive_end(t@.subrange(lo as int, hi as int)) is None,
        },
{
    let ghost sub = t@.subrange(lo as int, hi as int);
    let mut escaped = false;
    let mut i = lo;
    while i < hi
        invariant
            lo <= i <= hi <= t.len(),
            sub == t@.subrange(lo as int, hi as int),
            directive_end(sub) == dir_end_from(sub, i - lo, escaped),
        decreases hi - i,
    {
        assert(sub[i - lo] == t@[i as int]);
        if escaped {
            escaped = false;
        } else if t[i] == '\\' {
            escaped = true;
        } else if t[i] == '}' {
            return Some(i);
        }
        i = i + 1;
    }
    None
}

/// Absolute index of the first whitespace in `t[lo..hi]`.
fn find_ws(t: &Vec<char>, lo: usize, hi: usize) -> (r: Option<usize>)
    requires
        lo <= hi <= t.len(),
    ensures
        match r {
            Some(k) => lo <= k < hi && first_ws_from(t@.subrange(lo as int, hi as int), 0) == Some(k - lo),
            None => first_ws_from(t@.subrange(lo as int, hi as int), 0) is None,
        },
{
    let ghost sub = t@.subrange(lo as int, hi as int);
    let mut i = lo;
    while i < hi
        invariant
            lo <= i <= hi <= t.len(),
            sub == t@.subrange(lo as int, hi as int),
            first_ws_from(sub, 0) == first_ws_from(sub, i - lo),
        decreases hi - i,
    {
        assert(sub[i - lo] == t@[i as int]);
        if is_whitespace(t[i]) {
            return Some(i);
        }
        i = i + 1;
    }
    None
}

/// Absolute index of the first `c` or `d` in `t[lo..hi]`.
fn find_either(t: &Vec<char>, lo: usize, hi: usize, c: char, d: char) -> (r: Option<usize>)
    requires
        lo <= hi <= t.len(),
    ensures
        match r {
            Some(k) => lo <= k < hi && first_of_from(t@.subrange(lo as int, hi as int), 0, c, d) == Some(k - lo),
            None => first_of_from(t@.subrange(lo as int, hi as int), 0, c, d) is None,
        },
{
    let ghost sub = t@.subrange(lo as int, hi as int);
    let mut i = lo;
    while i < hi
        invariant
            lo <= i <= hi <= t.len(),
            sub == t@.subrange(lo as int, hi as int),
            first_of_from(sub, 0, c, d) == first_of_from(sub, i - lo, c, d),
        decreases hi - i,
    {
        assert(sub[i - lo] == t@[i as int]);
        if t[i] == c || t[i] == d {
            return Some(i);
        }
        i = i + 1;
    }
    None
}

proof fn lemma_digits_value_nonneg(s: Seq<char>)
    requires
        all_digits(s),
    ensures
        digits_value(s) >= 0,
    decreases s.len(),
{
    if s.len() > 0 {
        assert(all_digits(s.drop_last())) by {
            assert forall|i: int| 0 <= i < s.drop_last().len() implies '0' <= #[trigger] s.drop_last()[i] <= '9' by {
                assert(s.drop_last()[i] == s[i]);
            }
        }
        lemma_digits_value_nonneg(s.drop_last());
    }
}

proof fn lemma_digits_value_grows(s: Seq<char>, k: int)
    requires
        all_digits(s),
        0 <= k <= s.len(),
    ensures
        digits_value(s.take(k)) <= digits_value(s),
    decreases s.len() - k,
{
    if k < s.len() {
        let t = s.take(k + 1);
        assert(all_digits(t)) by {
            assert forall|i: int| 0 <= i < t.len() implies '0' <= #[trigger] t[i] <= '9' by {
                assert(t[i] == s[i]);
            }
        }
        assert(t.drop_last() =~= s.take(k));
        assert(all_digits(s.take(k))) by {
            assert forall|i: int| 0 <= i < s.take(k).len() implies '0' <= #[trigger] s.take(k)[i] <= '9' by {
                assert(s.take(k)[i] == s[i]);
            }
        }
        lemma_digits_value_nonneg(s.take(k));
        lemma_digits_value_grows(s, k + 1);
    } else {
        assert(s.take(k) =~= s);
    }
}

/// `t[lo..hi]` as an unsigned number at most `max`, in Rust's integer syntax.
fn parse_num(t: &Vec<char>, lo: usize, hi: usize, max: u64) -> (r: Option<u64>)
    requires
        lo <= hi <= t.len(),
        max <= u32::MAX,
    ensures
        match r {
            Some(v) => parse_unsigned(t@.subrange(lo as int, hi as int), max as int) == Some(v as int),
            None => parse_unsigned(t@.subrange(lo as int, hi as int), max as int) is None,
        },
{
    let ghost sub = t@.subrange(lo as int, hi as int);
    let a = if lo < hi && t[lo] == '+' { lo + 1 } else { lo };
    let ghost d = t@.subrange(a as int, hi as int);
    assert(d =~= (if sub.len() > 0 && sub[0] == '+' { sub.drop_first() } else { sub }));
    if a == hi {
        return None;
    }
    let mut v: u64 = 0;
    let mut i = a;
    assert(d.take(0) =~= Seq::<char>::empty());
    while i < hi
        invariant
            a <= i <= hi <= t.len(),
            max <= u32::MAX,
            sub == t@.subrange(lo as int, hi as int),
            d =~= (if sub.len() > 0 && sub[0] == '+' { sub.drop_first() } else { sub }),
            d == t@.subrange(a as int, hi as int),
            all_digits(d.take(i - a)),
            v as int == digits_value(d.take(i - a)),
            v <= max,
        decreases hi - i,
    {
        let c = t[i];
        assert(d[i - a] == c);
        if c < '0' || c > '9' {
            assert(!all_digits(d));
            return None;
        }
        assert(d.take(i - a + 1).drop_last() =~= d.take(i - a));
        assert(all_digits(d.take(i - a + 1))) by {
            assert forall|k: int| 0 <= k < d.take(i - a + 1).len() implies '0' <= #[trigger] d.take(i - a + 1)[k] <= '9' by {
                if k < i - a {
                    assert(d.take(i - a + 1)[k] == d.take(i - a)[k]);
                }
            }
        }
        v = v * 10 + (c as u32 - 48) as u64;
        i = i + 1;
        if v > max {
            proof {
                if all_digits(d) {
                    lemma_digits_value_grows(d, i - a);
                }
            }
            return None;
        }
    }
    assert(d.take(i - a) =~= d);
    Some(v)
}

/// Resolve `\` escapes in `t[lo..hi]`.
fn unescape(t: &Vec<char>, lo: usize, hi: usize) -> (r: Vec<char>)
    requires
        lo <= hi <= t.len(),
    ensures
        r@ == unescape_s(t@.subrange(lo as int, hi as int)),
{
    let mut out: Vec<char> = Vec::new();
    let mut i = lo;
    while i < hi
        invariant
            lo <= i <= hi <= t.len(),
            unescape_s(t@.subrange(lo as int, hi as int)) == out@ + unescape_s(t@.subrange(i as int, hi as int)),
        decreases hi - i,
    {
        let ghost rest = t@.subrange(i as int, hi as int);
        let ghost before = out@;
        if t[i] == '\\' {
            if i + 1 < hi {
                out.push(t[i + 1]);
                assert(rest.skip(2) =~= t@.subrange(i + 2, hi as int));
                assert(out@ + unescape_s(t@.subrange(i + 2, hi as int)) =~= before + unescape_s(rest));
                i = i + 2;
            } else {
                out.push('\\');
                assert(t@.subrange(i + 1, hi as int) =~= Seq::<char>::empty());
                assert(out@ + unescape_s(t@.subrange(i + 1, hi as int)) =~= before + unescape_s(rest));
                i = i + 1;
            }
        } else {
            out.push(t[i]);
            assert(rest.drop_first() =~= t@.subrange(i + 1, hi as int));
            assert(out@ + unescape_s(t@.subrange(i + 1, hi as int)) =~= before + unescape_s(rest));
            i = i + 1;
        }
    }
    assert(t@.subrange(i as int, hi as int) =~= Seq::<char>::empty());
    assert(out@ + unescape_s(t@.subrange(i as int, hi as int)) =~= out@);
    out
}


fn hex_digit(c: char) -> (r: Option<u8>)
    ensures
        match r {
            Some(v) => is_hex(c) && v as int == hex_value(c),
            None => !is_hex(c),
        },
{
    if '0' <= c && c <= '9' {
        Some((c as u32 - '0' as u32) as u8)
    } else if 'a' <= c && c <= 'f' {
        Some((c as u32 - 'a' as u32 + 10) as u8)
    } else if 'A' <= c && c <= 'F' {
        Some((c as u32 - 'A' as u32 + 10) as u8)
    } else {
        None
    }
}

fn hex_byte(a: char, b: char) -> (r: Option<u8>)
    ensures
        r == hex_pair(a, b),
{
    match (hex_digit(a), hex_digit(b)) {
        (Some(x), Some(y)) => Some(x * 16 + y),
        _ => None,
    }
}

/// The `BadHex` error for a pair that is not a hex byte.
fn bad_pair(line: usize, pair: &Vec<char>) -> (r: Error)
    ensures
        r@ == (ErrorV::BadHex { line, detail: "`"@ + pair@ + "` is not a hex byte"@ }),
{
    let mut d: Vec<char> = Vec::new();
    push_str_chars(&mut d, "`");
    let mut i: usize = 0;
    let ghost start = d@;
    while i < pair.len()
        invariant
            i <= pair.len(),
            d@ =~= start + pair@.take(i as int),
        decreases pair.len() - i,
    {
        d.push(pair[i]);
        i = i + 1;
    }
    assert(pair@.take(i as int) =~= pair@);
    push_str_chars(&mut d, "` is not a hex byte");
    Error::BadHex { line, detail: string_from(d.as_slice()) }
}

/// Decode a `{raw}` payload in `t[lo..hi]`.
fn hex(t: &Vec<char>, lo: usize, hi: usize, line: usize) -> (r: Result<Vec<u8>, Error>)
    requires
        lo <= hi <= t.len(),
    ensures
        match r {
            Ok(b) => hex_s(t@.subrange(lo as int, hi as int), line) == Ok::<Seq<u8>, ErrorV>(b@),
            Err(e) => hex_s(t@.subrange(lo as int, hi as int), line) == Err::<Seq<u8>, ErrorV>(e@),
        },
{
    let ghost sub = t@.subrange(lo as int, hi as int);
    let mut digits: Vec<char> = Vec::new();
    let mut i = lo;
    assert(sub.take(0) =~= Seq::<char>::empty());
    while i < hi
        invariant
            lo <= i <= hi <= t.len(),
            sub == t@.subrange(lo as int, hi as int),
            digits@ == non_ws(sub.take(i - lo)),
        decreases hi - i,
    {
        assert(sub.take(i - lo + 1).drop_last() =~= sub.take(i - lo));
        assert(sub[i - lo] == t@[i as int]);
        if !is_whitespace(t[i]) {
            digits.push(t[i]);
        }
        i = i + 1;
    }
    assert(sub.take(i - lo) =~= sub);
    let ghost d = digits@;
    if digits.len() == 0 {
        return Err(Error::BadHex { line, detail: "no bytes given".to_owned() });
    }
    let packed = string_from(digits.as_slice());
    let nbytes = packed.as_str().len();
    if nbytes % 2 != 0 {
        let mut msg: Vec<char> = Vec::new();
        push_str_chars(&mut msg, "odd number of hex digits (");
        push_decimal(&mut msg, nbytes as u64);
        push_str_chars(&mut msg, ")");
        return Err(Error::BadHex { line, detail: string_from(msg.as_slice()) });
    }
    let mut out: Vec<u8> = Vec::new();
    let mut k: usize = 0;
    while k < digits.len()
        invariant
            d == digits@,
            sub == t@.subrange(lo as int, hi as int),
            d == non_ws(sub),
            d.len() > 0,
            (encode_utf8(d).len() as usize) % 2 == 0,
            k <= d.len(),
            hex_from(d, 0, seq![]) == hex_from(d, k as int, out@),
        ensures
            hex_from(d, 0, seq![]) == HexEnd::Bytes(out@),
        decreases digits.len() - k,
    {
        let c1 = digits[k];
        if (c1 as u32) >= 0x80 {
            let mut pair: Vec<char> = Vec::new();
            pair.push(c1);
            assert(pair@ =~= seq![c1]);
            return Err(bad_pair(line, &pair));
        }
        if k + 1 >= digits.len() {
            break;
        }
        let c2 = digits[k + 1];
        if (c2 as u32) >= 0x80 {
            let mut pair: Vec<char> = Vec::new();
            pair.push(c1);
            pair.push(c2);
            assert(pair@ =~= seq![c1, c2]);
            return Err(bad_pair(line, &pair));
        }
        match hex_byte(c1, c2) {
            None => {
                let mut pair: Vec<char> = Vec::new();
                pair.push(c1);
                pair.push(c2);
                assert(pair@ =~= seq![c1, c2]);
                return Err(bad_pair(line, &pair));
            },
            Some(b) => {
                out.push(b);
                k = k + 2;
            },
        }
    }
    Ok(out)
}


/// Append `t[lo..hi]`.
fn push_range(out: &mut Vec<char>, t: &Vec<char>, lo: usize, hi: usize)
    requires
        lo <= hi <= t.len(),
    ensures
        final(out)@ == old(out)@ + t@.subrange(lo as int, hi as int),
{
    let ghost start = out@;
    let mut i = lo;
    while i < hi
        invariant
            lo <= i <= hi <= t.len(),
            out@ =~= start + t@.subrange(lo as int, i as int),
        decreases hi - i,
    {
        out.push(t[i]);
        i = i + 1;
    }
}

/// A `BadDirective` error.
fn bad(line: usize, name: &Vec<char>, detail: &Vec<char>) -> (r: Error)
    ensures
        r@ == bad_s(line, name@, detail@),
{
    Error::BadDirective {
        line,
        name: string_from(name.as_slice()),
        detail: string_from(detail.as_slice()),
    }
}

/// A `BadDirective` error with a fixed message.
fn bad_lit(line: usize, name: &Vec<char>, detail: &str) -> (r: Error)
    ensures
        r@ == bad_s(line, name@, detail@),
{
    let d = chars_of(detail);
    bad(line, name, &d)
}

/// One `{cols}` column in `t[lo..hi]`.
fn col_spec(t: &Vec<char>, lo: usize, hi: usize, line: usize, name: &Vec<char>) -> (r: Result<ColSpec, Error>)
    requires
        lo <= hi <= t.len(),
    ensures
        match r {
            Ok(c) => col_spec_s(t@.subrange(lo as int, hi as int), line, name@) == Ok::<ColSpec, ErrorV>(c),
            Err(e) => col_spec_s(t@.subrange(lo as int, hi as int), line, name@) == Err::<ColSpec, ErrorV>(e@),
        },
{
    let ghost part = t@.subrange(lo as int, hi as int);
    let (wlo, whi, align) = match find_either(t, lo, hi, ':', ':') {
        Some(k) => {
            let (alo, ahi) = trim_range(t, k + 1, hi);
            assert(part.skip(k - lo + 1) =~= t@.subrange(k + 1, hi as int));
            assert(part.take(k - lo) =~= t@.subrange(lo as int, k as int));
            let align = if range_is(t, alo, ahi, "l") {
                Align::Left
            } else if range_is(t, alo, ahi, "r") {
                Align::Right
            } else if range_is(t, alo, ahi, "c") {
                Align::Center
            } else {
                let mut d: Vec<char> = Vec::new();
                push_str_chars(&mut d, "unknown column alignment `:");
                push_range(&mut d, t, alo, ahi);
                push_str_chars(&mut d, "` \u{2014} expected `:l`, `:r`, or `:c`");
                return Err(bad(line, name, &d));
            };
            let (wlo, whi) = trim_range(t, lo, k);
            (wlo, whi, align)
        },
        None => (lo, hi, Align::Left),
    };
    match parse_num(t, wlo, whi, 65535) {
        None => {
            let mut d: Vec<char> = Vec::new();
            push_str_chars(&mut d, "column width `");
            push_range(&mut d, t, wlo, whi);
            push_str_chars(&mut d, "` is not a number");
            Err(bad(line, name, &d))
        },
        Some(w) => {
            if w == 0 {
                Err(bad_lit(line, name, "column width must be at least 1"))
            } else {
                Ok(ColSpec { width_chars: w as u16, align })
            }
        },
    }
}

/// `r` with `acc` in front of its columns.
pub open spec fn prepend_specs(acc: Seq<ColSpec>, r: Result<Seq<ColSpec>, ErrorV>) -> Result<Seq<ColSpec>, ErrorV> {
    match r {
        Ok(rest) => Ok(acc + rest),
        Err(x) => Err(x),
    }
}

/// The comma-separated columns of `t[lo..hi]`.
fn col_specs(t: &Vec<char>, lo: usize, hi: usize, line: usize, name: &Vec<char>) -> (r: Result<Vec<ColSpec>, Error>)
    requires
        lo <= hi <= t.len(),
    ensures
        match r {
            Ok(v) => col_specs_s(split_commas(t@.subrange(lo as int, hi as int)), line, name@) == Ok::<Seq<ColSpec>, ErrorV>(v@),
            Err(e) => col_specs_s(split_commas(t@.subrange(lo as int, hi as int)), line, name@) == Err::<Seq<ColSpec>, ErrorV>(e@),
        },
{
    let ghost goal = col_specs_s(split_commas(t@.subrange(lo as int, hi as int)), line, name@);
    let mut out: Vec<ColSpec> = Vec::new();
    let mut start = lo;
    assert(prepend_specs(out@, goal) =~= goal);
    loop
        invariant
            lo <= start <= hi <= t.len(),
            goal == col_specs_s(split_commas(t@.subrange(lo as int, hi as int)), line, name@),
            goal == prepend_specs(out@, col_specs_s(split_commas(t@.subrange(start as int, hi as int)), line, name@)),
        decreases hi + 1 - start,
    {
        let ghost rest = t@.subrange(start as int, hi as int);
        match find_either(t, start, hi, ',', ',') {
            Some(k) => {
                let ghost parts = split_commas(rest);
                assert(rest.take(k - start) =~= t@.subrange(start as int, k as int));
                assert(rest.skip(k - start + 1) =~= t@.subrange(k + 1, hi as int));
                assert(parts.drop_first() =~= split_commas(t@.subrange(k + 1, hi as int)));
                let (plo, phi) = trim_range(t, start, k);
                match col_spec(t, plo, phi, line, name) {
                    Err(e) => {
                        return Err(e);
                    },
                    Ok(c) => {
                        let ghost before = out@;
                        out.push(c);
                        proof {
                            match col_specs_s(split_commas(t@.subrange(k + 1, hi as int)), line, name@) {
                                Ok(r2) => {
                                    assert(before + (seq![c] + r2) =~= out@ + r2);
                                },
                                Err(_) => {},
                            }
                        }
                        start = k + 1;
                    },
                }
            },
            None => {
                let (plo, phi) = trim_range(t, start, hi);
                match col_spec(t, plo, phi, line, name) {
                    Err(e) => {
                        return Err(e);
                    },
                    Ok(c) => {
                        let ghost before = out@;
                        out.push(c);
                        proof {
                            let parts = split_commas(rest);
                            assert(parts =~= seq![rest]);
                            assert(parts.drop_first() =~= Seq::<Seq<char>>::empty());
                            assert(col_specs_s(parts.drop_first(), line, name@) == Ok::<Seq<ColSpec>, ErrorV>(Seq::<ColSpec>::empty()));
                            assert(trim(parts[0]) == t@.subrange(plo as int, phi as int));
                            assert(col_specs_s(parts, line, name@) == Ok::<Seq<ColSpec>, ErrorV>(seq![c] + Seq::<ColSpec>::empty()));
                            assert(before + (seq![c] + Seq::<ColSpec>::empty()) =~= out@);
                        }
                        return Ok(out);
                    },
                }
            },
        }
    }
}


/// The parser: the nodes so far and the active column spec.
struct Parser {
    nodes: Vec<Node>,
    cols: Option<Vec<ColSpec>>,
}

/// A fresh vector of the same column specs.
pub(crate) fn copy_specs(v: &Vec<ColSpec>) -> (r: Vec<ColSpec>)
    ensures
        r@ == v@,
{
    let mut out: Vec<ColSpec> = Vec::new();
    let mut i: usize = 0;
    while i < v.len()
        invariant
            i <= v.len(),
            out@ =~= v@.take(i as int),
        decreases v.len() - i,
    {
        out.push(v[i]);
        i = i + 1;
    }
    assert(v@.take(i as int) =~= v@);
    out
}

impl Parser {
    spec fn pv(&self) -> PState {
        PState {
            nodes: nodes_view(self.nodes@),
            cols: match self.cols {
                Some(v) => Some(v@),
                None => None,
            },
        }
    }

    fn push(&mut self, line: usize, block: Block)
        ensures
            final(self).pv() == push_s(old(self).pv(), line, block@),
    {
        match &block {
            Block::Cols(specs) => {
                self.cols = Some(copy_specs(specs));
            },
            Block::ColsEnd => {
                self.cols = None;
            },
            _ => {},
        }
        let ghost before = self.nodes@;
        self.nodes.push(Node { line, block });
        assert(nodes_view(self.nodes@) =~= nodes_view(before).push(NodeV { line, block: block@ }));
    }

    /// One directive; `t[lo..hi]` is its trimmed text between the braces.
    fn directive(&self, t: &Vec<char>, lo: usize, hi: usize, line: usize) -> (r: Result<Block, Error>)
        requires
            lo <= hi <= t.len(),
        ensures
            match r {
                Ok(b) => directive_s(self.pv(), line, t@.subrange(lo as int, hi as int)) == Ok::<BlockV, ErrorV>(b@),
                Err(e) => directive_s(self.pv(), line, t@.subrange(lo as int, hi as int)) == Err::<BlockV, ErrorV>(e@),
            },
    {
        proof {
            reveal_strlit("v");
            reveal_strlit("left");
            reveal_strlit("center");
            reveal_strlit("right");
            reveal_strlit("size");
            reveal_strlit("cols");
            reveal_strlit("/cols");
            reveal_strlit("feed");
            reveal_strlit("cut");
            reveal_strlit("raw");
            reveal_strlit("qr");
            reveal_strlit("qrmod");
        }
        let ghost inner = t@.subrange(lo as int, hi as int);
        let (nend, alo, ahi) = match find_ws(t, lo, hi) {
            Some(k) => {
                let (a, b) = trim_range(t, k, hi);
                assert(inner.take(k - lo) =~= t@.subrange(lo as int, k as int));
                assert(inner.skip(k - lo) =~= t@.subrange(k as int, hi as int));
                (k, a, b)
            },
            None => {
                assert(t@.subrange(hi as int, hi as int) =~= Seq::<char>::empty());
                assert(inner =~= t@.subrange(lo as int, hi as int));
                (hi, hi, hi)
            },
        };
        assert(dname(inner) == t@.subrange(lo as int, nend as int));
        assert(dargs(inner) == t@.subrange(alo as int, ahi as int));
        let name = copy_range(t, lo, nend);
        let ghost args = dargs(inner);
        if range_is(t, lo, nend, "v") {
            if self.nodes.len() > 0 {
                return Err(bad_lit(line, &name, "must be the first directive in the template"));
            }
            match parse_num(t, alo, ahi, u32::MAX as u64) {
                None => Err(bad_lit(line, &name, "expected a version number, as in `{v 1}`")),
                Some(n) => {
                    if n > MAX_VERSION as u64 {
                        Err(Error::UnsupportedVersion { line, requested: n as u32 })
                    } else {
                        Ok(Block::Version(n as u32))
                    }
                },
            }
        } else if range_is(t, lo, nend, "left") {
            Ok(Block::Justify(Align::Left))
        } else if range_is(t, lo, nend, "center") {
            Ok(Block::Justify(Align::Center))
        } else if range_is(t, lo, nend, "right") {
            Ok(Block::Justify(Align::Right))
        } else if range_is(t, lo, nend, "size") {
            match find_either(t, alo, ahi, 'x', 'X') {
                None => Err(bad_lit(line, &name, "expected WxH, as in `{size 2x2}`")),
                Some(k) => {
                    assert(args.take(k - alo) =~= t@.subrange(alo as int, k as int));
                    assert(args.skip(k - alo + 1) =~= t@.subrange(k + 1, ahi as int));
                    let (wl, wh) = trim_range(t, alo, k);
                    match parse_num(t, wl, wh, 255) {
                        None => Err(bad_lit(line, &name, "width must be a number 1..=8")),
                        Some(w) => {
                            let (hl, hh) = trim_range(t, k + 1, ahi);
                            match parse_num(t, hl, hh, 255) {
                                None => Err(bad_lit(line, &name, "height must be a number 1..=8")),
                                Some(h) => {
                                    if 1 <= w && w <= 8 && 1 <= h && h <= 8 {
                                        Ok(Block::Size { w: w as u8, h: h as u8 })
                                    } else {
                                        Err(Error::SizeOutOfRange { line, w: w as u8, h: h as u8 })
                                    }
                                },
                            }
                        },
                    }
                },
            }
        } else if range_is(t, lo, nend, "cols") {
            if alo == ahi {
                return Err(bad_lit(line, &name, "expected at least one column, as in `{cols 20,28:r}`"));
            }
            match col_specs(t, alo, ahi, line, &name) {
                Err(e) => Err(e),
                Ok(specs) => Ok(Block::Cols(specs)),
            }
        } else if range_is(t, lo, nend, "/cols") {
            Ok(Block::ColsEnd)
        } else if range_is(t, lo, nend, "feed") {
            match parse_num(t, alo, ahi, 255) {
                None => Err(bad_lit(line, &name, "expected a line count, as in `{feed 4}`")),
                Some(n) => Ok(Block::Feed(n as u8)),
            }
        } else if range_is(t, lo, nend, "cut") {
            if alo == ahi {
                Ok(Block::Cut)
            } else {
                Err(bad_lit(line, &name, "takes no arguments"))
            }
        } else if range_is(t, lo, nend, "raw") {
            match hex(t, alo, ahi, line) {
                Err(e) => Err(e),
                Ok(bytes) => Ok(Block::Raw(bytes)),
            }
        } else if range_is(t, lo, nend, "qr") {
            if alo == ahi {
                return Err(bad_lit(line, &name, "expected data, as in `{qr https://example.com}`"));
            }
            let data = unescape(t, alo, ahi);
            Ok(Block::Qr(string_from(data.as_slice())))
        } else if range_is(t, lo, nend, "qrmod") {
            match parse_num(t, alo, ahi, 255) {
                None => Err(bad_lit(line, &name, "expected a module size, as in `{qrmod 6}`")),
                Some(n) => {
                    if qr::MIN_MODULE as u64 <= n && n <= qr::MAX_MODULE as u64 {
                        Ok(Block::QrModule(n as u8))
                    } else {
                        let mut d: Vec<char> = Vec::new();
                        push_str_chars(&mut d, "module size must be ");
                        push_decimal(&mut d, qr::MIN_MODULE as u64);
                        push_str_chars(&mut d, "..=");
                        push_decimal(&mut d, qr::MAX_MODULE as u64);
                        push_str_chars(&mut d, ", got ");
                        push_decimal(&mut d, n);
                        Err(bad(line, &name, &d))
                    }
                },
            }
        } else {
            Err(Error::UnknownDirective { line, name: string_from(name.as_slice()) })
        }
    }
}


/// The text a list of ranges of `t` covers.
pub open spec fn ranges_view(t: Seq<char>, r: Seq<(usize, usize)>) -> Seq<Seq<char>> {
    r.map_values(|x: (usize, usize)| t.subrange(x.0 as int, x.1 as int))
}

/// The cells of a row in `t[lo..hi]`, split on unescaped `|`, as ranges of `t`.
fn split_cells(t: &Vec<char>, lo: usize, hi: usize) -> (r: Vec<(usize, usize)>)
    requires
        lo <= hi <= t.len(),
    ensures
        forall|k: int| 0 <= k < r.len() ==> lo <= (#[trigger] r@[k]).0 <= r@[k].1 <= hi,
        ranges_view(t@, r@) == split_cells_s(t@.subrange(lo as int, hi as int)),
{
    let ghost sub = t@.subrange(lo as int, hi as int);
    let mut out: Vec<(usize, usize)> = Vec::new();
    let mut start = lo;
    let mut escaped = false;
    let mut i = lo;
    assert(ranges_view(t@, out@) =~= Seq::<Seq<char>>::empty());
    while i < hi
        invariant
            lo <= start <= i <= hi <= t.len(),
            sub == t@.subrange(lo as int, hi as int),
            forall|k: int| 0 <= k < out.len() ==> lo <= (#[trigger] out@[k]).0 <= out@[k].1 <= hi,
            split_cells_s(sub) == split_from(sub, i - lo, start - lo, escaped, ranges_view(t@, out@)),
        decreases hi - i,
    {
        assert(sub[i - lo] == t@[i as int]);
        if escaped {
            escaped = false;
        } else if t[i] == '\\' {
            escaped = true;
        } else if t[i] == '|' {
            let ghost before = out@;
            out.push((start, i));
            assert(sub.subrange(start - lo, i - lo) =~= t@.subrange(start as int, i as int));
            assert(ranges_view(t@, out@) =~= ranges_view(t@, before).push(sub.subrange(start - lo, i - lo)));
            start = i + 1;
        }
        i = i + 1;
    }
    let ghost before = out@;
    out.push((start, hi));
    assert(sub.subrange(start - lo, sub.len() as int) =~= t@.subrange(start as int, hi as int));
    assert(ranges_view(t@, out@) =~= ranges_view(t@, before).push(sub.subrange(start - lo, sub.len() as int)));
    out
}

/// The view of a span list.
pub open spec fn spans_view(s: Seq<Span>) -> Seq<SpanV> {
    s.map_values(|x: Span| x@)
}

fn flush(spans: &mut Vec<Span>, buf: &Vec<char>, bold: bool, underline: bool)
    ensures
        spans_view(final(spans)@) == flush_s(spans_view(old(spans)@), buf@, bold, underline),
{
    if buf.len() > 0 {
        let ghost before = spans@;
        spans.push(Span { text: string_from(buf.as_slice()), bold, underline });
        assert(spans_view(spans@) =~= spans_view(before).push(SpanV { text: buf@, bold, underline }));
    }
}

/// Inline markup of the cell in `t[lo..hi]`.
fn parse_cell(t: &Vec<char>, lo: usize, hi: usize) -> (r: Cell)
    requires
        lo <= hi <= t.len(),
    ensures
        r@ == parse_cell_s(t@.subrange(lo as int, hi as int)),
{
    let (a, b) = trim_range(t, lo, hi);
    let ghost s = t@.subrange(a as int, b as int);
    let ghost goal = cell_from(s, 0, seq![], seq![], false, false);
    let mut spans: Vec<Span> = Vec::new();
    let mut buf: Vec<char> = Vec::new();
    let mut bold = false;
    let mut underline = false;
    let mut i = a;
    assert(spans_view(spans@) =~= Seq::<SpanV>::empty());
    while i < b
        invariant
            a <= i <= b <= t.len(),
            s == t@.subrange(a as int, b as int),
            goal == cell_from(s, i - a, spans_view(spans@), buf@, bold, underline),
        decreases b - i,
    {
        let c = t[i];
        assert(s[i - a] == c);
        if c == '\\' {
            if i + 1 < b {
                assert(s[i + 1 - a] == t@[i + 1]);
                buf.push(t[i + 1]);
                i = i + 2;
            } else {
                buf.push('\\');
                i = i + 1;
            }
        } else if c == '*' && i + 1 < b && t[i + 1] == '*' {
            assert(s[i + 1 - a] == t@[i + 1]);
            flush(&mut spans, &buf, bold, underline);
            buf = Vec::new();
            assert(buf@ =~= Seq::<char>::empty());
            bold = !bold;
            i = i + 2;
        } else if c == '_' && i + 1 < b && t[i + 1] == '_' {
            assert(s[i + 1 - a] == t@[i + 1]);
            flush(&mut spans, &buf, bold, underline);
            buf = Vec::new();
            assert(buf@ =~= Seq::<char>::empty());
            underline = !underline;
            i = i + 2;
        } else {
            proof {
                if i + 1 < b {
                    assert(s[i + 1 - a] == t@[i + 1]);
                }
            }
            buf.push(c);
            i = i + 1;
        }
    }
    flush(&mut spans, &buf, bold, underline);
    Cell { spans }
}


/// Whether `t[lo..hi]` is a separator line.
fn is_rule(t: &Vec<char>, lo: usize, hi: usize) -> (r: bool)
    requires
        lo <= hi <= t.len(),
    ensures
        r == is_rule_s(t@.subrange(lo as int, hi as int)),
{
    let ghost s = t@.subrange(lo as int, hi as int);
    if hi - lo < 3 {
        return false;
    }
    let mut i = lo;
    while i < hi
        invariant
            lo <= i <= hi <= t.len(),
            s == t@.subrange(lo as int, hi as int),
            forall|k: int| 0 <= k < i - lo ==> s[k] == '-',
        decreases hi - i,
    {
        if t[i] != '-' {
            assert(s[i - lo] != '-');
            return false;
        }
        i = i + 1;
    }
    true
}

impl Parser {
    /// The content of a line after its directives, in `t[a..b]`.
    fn content(&mut self, t: &Vec<char>, line: usize, a: usize, b: usize, had: bool) -> (r: Result<(), Error>)
        requires
            a <= b <= old(self).pv().nodes.len() + t.len(),
            b <= t.len(),
        ensures
            match r {
                Ok(_) => content_s(old(self).pv(), line, t@.subrange(a as int, b as int), had) == Ok::<PState, ErrorV>(final(self).pv()),
                Err(e) => content_s(old(self).pv(), line, t@.subrange(a as int, b as int), had) == Err::<PState, ErrorV>(e@),
            },
    {
        let ghost rest = t@.subrange(a as int, b as int);
        if a == b {
            if !had {
                self.push(line, Block::Blank);
            }
            return Ok(());
        }
        if is_rule(t, a, b) {
            self.push(line, Block::Rule);
            return Ok(());
        }
        let expected = match &self.cols {
            Some(specs) => Some(specs.len()),
            None => None,
        };
        match expected {
            Some(n) => {
                let ranges = split_cells(t, a, b);
                let ghost parts = split_cells_s(rest);
                if ranges.len() != n {
                    return Err(Error::ColumnCountMismatch { line, expected: n, found: ranges.len() });
                }
                let mut cells: Vec<Cell> = Vec::new();
                let mut k: usize = 0;
                while k < ranges.len()
                    invariant
                        k <= ranges.len(),
                        b <= t.len(),
                        parts == ranges_view(t@, ranges@),
                        forall|j: int| 0 <= j < ranges.len() ==> a <= (#[trigger] ranges@[j]).0 <= ranges@[j].1 <= b,
                        cells.len() == k,
                        forall|j: int| 0 <= j < k ==> (#[trigger] cells@[j])@ == parse_cell_s(parts[j]),
                    decreases ranges.len() - k,
                {
                    let (clo, chi) = ranges[k];
                    assert(parts[k as int] == t@.subrange(clo as int, chi as int));
                    cells.push(parse_cell(t, clo, chi));
                    k = k + 1;
                }
                assert(cells@.map_values(|c: Cell| c@) =~= parts.map_values(|c: Seq<char>| parse_cell_s(c)));
                self.push(line, Block::Line(cells));
                Ok(())
            },
            None => {
                let mut cells: Vec<Cell> = Vec::new();
                cells.push(parse_cell(t, a, b));
                assert(cells@.map_values(|c: Cell| c@) =~= seq![parse_cell_s(rest)]);
                self.push(line, Block::Line(cells));
                Ok(())
            },
        }
    }

    /// One source line in `t[lo..hi]`.
    fn line(&mut self, t: &Vec<char>, line: usize, lo: usize, hi: usize) -> (r: Result<(), Error>)
        requires
            lo <= hi <= t.len(),
        ensures
            match r {
                Ok(_) => line_s(old(self).pv(), line, t@.subrange(lo as int, hi as int)) == Ok::<PState, ErrorV>(final(self).pv()),
                Err(e) => line_s(old(self).pv(), line, t@.subrange(lo as int, hi as int)) == Err::<PState, ErrorV>(e@),
            },
    {
        let (a0, b) = trim_range(t, lo, hi);
        let ghost goal = directives_s(self.pv(), line, t@.subrange(a0 as int, b as int), false);
        let mut a = a0;
        let mut had = false;
        while a < b && t[a] == '{'
            invariant
                a0 <= a <= b <= t.len(),
                t@.subrange(a0 as int, b as int) == trim(t@.subrange(lo as int, hi as int)),
                goal == directives_s(old(self).pv(), line, trim(t@.subrange(lo as int, hi as int)), false),
                goal == directives_s(self.pv(), line, t@.subrange(a as int, b as int), had),
            decreases b - a,
        {
            let ghost rest = t@.subrange(a as int, b as int);
            assert(rest[0] == t@[a as int]);
            match find_directive_end(t, a, b) {
                None => {
                    let mut s0 = a;
                    while s0 < b && t[s0] == '{'
                        invariant
                            a <= s0 <= b <= t.len(),
                            strip_braces(rest) == strip_braces(t@.subrange(s0 as int, b as int)),
                        decreases b - s0,
                    {
                        assert(t@.subrange(s0 as int, b as int).drop_first() =~= t@.subrange(s0 + 1, b as int));
                        s0 = s0 + 1;
                    }
                    proof {
                        if s0 < b {
                            assert(t@.subrange(s0 as int, b as int)[0] == t@[s0 as int]);
                        }
                    }
                    let e = if b - s0 > 16 { s0 + 16 } else { b };
                    assert(t@.subrange(s0 as int, e as int) =~= unterminated_name(rest));
                    let name = copy_range(t, s0, e);
                    return Err(bad_lit(line, &name, "unterminated directive \u{2014} missing `}`"));
                },
                Some(end) => {
                    proof {
                        lemma_dir_end_from(rest, 1, false);
                        assert(directive_end(rest) == dir_end_from(rest, 1, false));
                    }
                    assert(end > a);
                    let (ilo, ihi) = trim_range(t, a + 1, end);
                    assert(rest.subrange(1, end - a) =~= t@.subrange(a + 1, end as int));
                    assert(rest.subrange(end - a + 1, rest.len() as int) =~= t@.subrange(end + 1, b as int));
                    match self.directive(t, ilo, ihi, line) {
                        Err(e) => {
                            return Err(e);
                        },
                        Ok(block) => {
                            self.push(line, block);
                        },
                    }
                    had = true;
                    a = trim_start_range(t, end + 1, b);
                },
            }
        }
        proof {
            if a < b {
                assert(t@.subrange(a as int, b as int)[0] == t@[a as int]);
            }
        }
        self.content(t, line, a, b, had)
    }
}

/// Where the line starting at `pos` (line number `n`, from 0) ends, and the bounds of its
/// text without line terminator and, on the first line, without byte-order marks.
fn line_bounds(t: &Vec<char>, pos: usize, n: usize) -> (r: (usize, usize, usize))
    requires
        pos < t.len(),
    ensures
        pos <= r.0 <= r.1 <= r.2 <= t.len(),
        r.2 as int == next_newline(t@, pos as int),
        t@.subrange(r.0 as int, r.1 as int) == raw_line(t@, pos as int, n as int),
{
    let j = find_newline(t, pos);
    proof {
        lemma_next_newline(t@, pos as int);
    }
    let mut hi = j;
    if j < t.len() && hi > pos && t[hi - 1] == '\r' {
        hi = hi - 1;
    }
    assert(t@.subrange(pos as int, hi as int) =~= line_text(t@, pos as int, j as int)) by {
        let raw = t@.subrange(pos as int, j as int);
        if j < t.len() && raw.len() > 0 && raw.last() == '\r' {
            assert(raw.drop_last() =~= t@.subrange(pos as int, hi as int));
        }
    }
    let mut lo = pos;
    if n == 0 {
        while lo < hi && t[lo] == '\u{feff}'
            invariant
                pos <= lo <= hi <= t.len(),
                strip_bom(t@.subrange(pos as int, hi as int)) == strip_bom(t@.subrange(lo as int, hi as int)),
            decreases hi - lo,
        {
            assert(t@.subrange(lo as int, hi as int).drop_first() =~= t@.subrange(lo + 1, hi as int));
            lo = lo + 1;
        }
        proof {
            if lo < hi {
                assert(t@.subrange(lo as int, hi as int)[0] == t@[lo as int]);
            }
        }
    }
    (lo, hi, j)
}

/// Parse template text into a block AST.
pub fn parse(template: &str) -> (r: Result<Vec<Node>, Error>)
    ensures
        match r {
            Ok(nodes) => parse_spec(template@) == Ok::<Seq<NodeV>, ErrorV>(nodes_view(nodes@)),
            Err(e) => parse_spec(template@) == Err::<Seq<NodeV>, ErrorV>(e@),
        },
{
    let t = chars_of(template);
    let mut p = Parser { nodes: Vec::new(), cols: None };
    assert(p.pv() =~= init_pstate()) by {
        assert(nodes_view(p.nodes@) =~= Seq::<NodeV>::empty());
    }
    let ghost goal = lines_from(t@, 0, 0, init_pstate());
    let mut pos: usize = 0;
    let mut n: usize = 0;
    while pos < t.len()
        invariant
            pos <= t.len(),
            n <= pos,
            t@ == template@,
            goal == lines_from(t@, 0, 0, init_pstate()),
            goal == lines_from(t@, pos as int, n as int, p.pv()),
        decreases t.len() - pos,
    {
        let (lo, hi, j) = line_bounds(&t, pos, n);
        let ghost before = p.pv();
        match p.line(&t, n + 1, lo, hi) {
            Err(e) => {
                return Err(e);
            },
            Ok(()) => {},
        }
        n = n + 1;
        pos = if j < t.len() { j + 1 } else { j };
        proof {
            if j == t.len() {
                assert(lines_from(t@, j + 1, n as int, p.pv()) == lines_from(t@, pos as int, n as int, p.pv()));
            }
        }
    }
    Ok(p.nodes)
}


// --- what the parser guarantees ----------------------------------------------------

/// The column spec active after `nodes`.
pub open spec fn cols_after(nodes: Seq<NodeV>) -> Option<Seq<ColSpec>>
    decreases nodes.len(),
{
    if nodes.len() == 0 {
        None
    } else {
        match nodes.last().block {
            BlockV::Cols(s) => Some(s),
            BlockV::ColsEnd => None,
            _ => cols_after(nodes.drop_last()),
        }
    }
}

/// Every content line has exactly as many cells as the column spec active where it stands
/// (one cell being the whole line outside column mode).
pub open spec fn rows_fit(nodes: Seq<NodeV>) -> bool
    decreases nodes.len(),
{
    if nodes.len() == 0 {
        true
    } else {
        rows_fit(nodes.drop_last()) && match nodes.last().block {
            BlockV::Line(cells) => match cols_after(nodes.drop_last()) {
                Some(s) => cells.len() == s.len(),
                None => cells.len() == 1,
            },
            _ => true,
        }
    }
}

/// The parser's state tracks the active spec of the nodes it has pushed, and every row
/// pushed so far fits.
pub open spec fn pstate_ok(st: PState) -> bool {
    st.cols == cols_after(st.nodes) && rows_fit(st.nodes)
}

proof fn lemma_push_ok(st: PState, line: usize, block: BlockV)
    requires
        pstate_ok(st),
        block matches BlockV::Line(cells) ==> match st.cols {
            Some(s) => cells.len() == s.len(),
            None => cells.len() == 1,
        },
    ensures
        pstate_ok(push_s(st, line, block)),
{
    let n2 = push_s(st, line, block).nodes;
    assert(n2.drop_last() =~= st.nodes);
}

proof fn lemma_directives_ok(st: PState, line: usize, rest: Seq<char>, had: bool)
    requires
        pstate_ok(st),
    ensures
        directives_s(st, line, rest, had) matches Ok((st2, _, _)) ==> pstate_ok(st2),
    decreases rest.len(),
{
    if rest.len() > 0 && rest[0] == '{' {
        match directive_end(rest) {
            None => {},
            Some(end) => {
                if end >= 1 && end < rest.len() {
                    match directive_s(st, line, trim(rest.subrange(1, end))) {
                        Err(_) => {},
                        Ok(block) => {
                            lemma_directive_not_line(st, line, trim(rest.subrange(1, end)));
                            lemma_push_ok(st, line, block);
                            lemma_trim_start_len(rest.subrange(end + 1, rest.len() as int));
                            lemma_directives_ok(push_s(st, line, block), line, trim_start(rest.subrange(end + 1, rest.len() as int)), true);
                        },
                    }
                }
            },
        }
    }
}

proof fn lemma_directive_not_line(st: PState, line: usize, inner: Seq<char>)
    ensures
        directive_s(st, line, inner) matches Ok(b) ==> !(b is Line),
{
}

proof fn lemma_lines_ok(t: Seq<char>, pos: int, n: int, st: PState)
    requires
        pstate_ok(st),
    ensures
        lines_from(t, pos, n, st) matches Ok(st2) ==> pstate_ok(st2),
    decreases t.len() + 1 - pos,
{
    if pos >= 0 && pos < t.len() {
        let raw = raw_line(t, pos, n);
        let ln = (n + 1) as usize;
        lemma_directives_ok(st, ln, trim(raw), false);
        match directives_s(st, ln, trim(raw), false) {
            Err(_) => {},
            Ok((st2, rest, had)) => {
                if rest.len() > 0 && !is_rule_s(rest) {
                    match st2.cols {
                        Some(specs) => {
                            let cells = split_cells_s(rest);
                            if cells.len() == specs.len() {
                                lemma_push_ok(st2, ln, BlockV::Line(cells.map_values(|c: Seq<char>| parse_cell_s(c))));
                            }
                        },
                        None => {
                            lemma_push_ok(st2, ln, BlockV::Line(seq![parse_cell_s(rest)]));
                        },
                    }
                } else if rest.len() == 0 && !had {
                    lemma_push_ok(st2, ln, BlockV::Blank);
                } else if rest.len() > 0 {
                    lemma_push_ok(st2, ln, BlockV::Rule);
                }
                match line_s(st, ln, raw) {
                    Err(_) => {},
                    Ok(st3) => {
                        lemma_next_newline(t, pos);
                        lemma_lines_ok(t, next_newline(t, pos) + 1, n + 1, st3);
                    },
                }
            },
        }
    }
}

/// The parser decides whether `|` separates cells by the active `{cols}` spec, so every
/// row it produces has exactly as many cells as the spec active where the row stands, and
/// a line outside column mode is one cell.
pub proof fn law_parsed_rows_fit(t: Seq<char>)
    ensures
        parse_spec(t) matches Ok(nodes) ==> rows_fit(nodes),
{
    lemma_lines_ok(t, 0, 0, init_pstate());
}

} // verus!

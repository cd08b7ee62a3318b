//! What the template grammar promises.
//!
//! A `{raw}` payload is pairs of hex digits, whitespace between them ignored. Whitespace
//! at the ends of a line or a cell is never load-bearing, so two templates whose lines
//! agree up to it parse alike. A value escaped with a backslash before each markup
//! character reads back as itself, alone or as one cell of a row of such values. A row
//! splits into one cell more than it has unescaped pipes, and the cells join back into the
//! row. `{size}`, `{qrmod}` and `{v}` are range-checked, and their refusals name the
//! directive's line.

use vstd::prelude::*;
use vstd::utf8::{encode_utf8, is_ascii_chars, is_ascii_chars_encode_utf8};
use crate::error::ErrorV;
use crate::ir::Align;
use crate::parse::{
    push_s,
    split_commas, col_specs_s,
    dargs,
    first_ws_from, first_of_from, parse_unsigned, digits_value, col_spec_s, ColSpec, all_digits,
    cell_from, dname, directive_s, flush_s, hex_from, hex_s, hex_value,
    is_ascii_char, is_hex, line_s, non_ws, parse_cell_s, split_cells_s, split_from, BlockV,
    CellV, HexEnd, PState, SpanV, MAX_VERSION, lines_from, raw_line, next_newline,
    lemma_next_newline, parse_spec, init_pstate,
};
use crate::text::{decimal, digit_char, is_ws, trim, trim_end, trim_start};

verus! {

// --- `{raw}` payloads --------------------------------------------------------------

/// Whether every character is a hex digit.
pub open spec fn all_hex(d: Seq<char>) -> bool {
    forall|k: int| 0 <= k < d.len() ==> is_hex(#[trigger] d[k])
}

/// The bytes that hex digit pairs spell, high nibble first; a lone last digit spells none.
pub open spec fn hex_bytes(d: Seq<char>) -> Seq<u8>
    decreases d.len(),
{
    if d.len() < 2 {
        seq![]
    } else {
        seq![(hex_value(d[0]) * 16 + hex_value(d[1])) as u8] + hex_bytes(d.skip(2))
    }
}

proof fn lemma_hex_value_range(c: char)
    requires
        is_hex(c),
    ensures
        0 <= hex_value(c) < 16,
{
}

proof fn lemma_hex_from_all_hex(d: Seq<char>, i: int, acc: Seq<u8>)
    requires
        0 <= i <= d.len(),
        all_hex(d.skip(i)),
    ensures
        hex_from(d, i, acc) == HexEnd::Bytes(acc + hex_bytes(d.skip(i))),
    decreases d.len() - i,
{
    let r = d.skip(i);
    if i >= d.len() {
        assert(acc + hex_bytes(r) =~= acc);
    } else {
        assert(r[0] == d[i]);
        assert(is_hex(r[0]));
        if i + 1 >= d.len() {
            assert(acc + hex_bytes(r) =~= acc);
        } else {
            assert(r[1] == d[i + 1]);
            assert(is_hex(r[1]));
            lemma_hex_value_range(d[i]);
            lemma_hex_value_range(d[i + 1]);
            let b = (hex_value(d[i]) * 16 + hex_value(d[i + 1])) as u8;
            assert(r.skip(2) =~= d.skip(i + 2));
            assert forall|k: int| 0 <= k < d.skip(i + 2).len() implies is_hex(#[trigger] d.skip(i + 2)[k]) by {
                assert(d.skip(i + 2)[k] == r[k + 2]);
            }
            lemma_hex_from_all_hex(d, i + 2, acc.push(b));
            assert(acc.push(b) + hex_bytes(d.skip(i + 2)) =~= acc + hex_bytes(r));
        }
    }
}

proof fn lemma_hex_from_bytes(d: Seq<char>, i: int, acc: Seq<u8>)
    requires
        0 <= i <= d.len(),
    ensures
        hex_from(d, i, acc) is Bytes ==> {
            &&& forall|k: int| i <= k < d.len() ==> is_ascii_char(#[trigger] d[k])
            &&& (d.len() - i) % 2 == 0 ==> all_hex(d.skip(i))
        },
    decreases d.len() - i,
{
    if i < d.len() && is_ascii_char(d[i]) && i + 1 < d.len() && is_ascii_char(d[i + 1]) {
        if let Some(b) = crate::parse::hex_pair(d[i], d[i + 1]) {
            lemma_hex_from_bytes(d, i + 2, acc.push(b));
            if hex_from(d, i, acc) is Bytes && (d.len() - i) % 2 == 0 {
                assert forall|k: int| 0 <= k < d.skip(i).len() implies is_hex(#[trigger] d.skip(i)[k]) by {
                    if k >= 2 {
                        assert(d.skip(i)[k] == d.skip(i + 2)[k - 2]);
                    }
                }
            }
        }
    }
}

proof fn lemma_ascii_char(c: char)
    requires
        is_ascii_char(c),
    ensures
        '\0' <= c <= '\u{7f}',
{
}

proof fn lemma_ascii(d: Seq<char>)
    requires
        forall|k: int| 0 <= k < d.len() ==> is_ascii_char(#[trigger] d[k]),
    ensures
        is_ascii_chars(d),
{
    assert forall|k: int| 0 <= k < d.len() implies '\0' <= #[trigger] d[k] <= '\u{7f}' by {
        lemma_ascii_char(d[k]);
    }
}

/// A number read by `parse_unsigned` is at least zero and at most its ceiling.
proof fn lemma_digits_value_nonneg(s: Seq<char>)
    requires
        crate::parse::all_digits(s),
    ensures
        crate::parse::digits_value(s) >= 0,
    decreases s.len(),
{
    if s.len() > 0 {
        lemma_digits_value_nonneg(s.drop_last());
    }
}

proof fn lemma_parse_unsigned_range(s: Seq<char>, max: int)
    ensures
        crate::parse::parse_unsigned(s, max) matches Some(n) ==> 0 <= n <= max,
{
    let d = if s.len() > 0 && s[0] == '+' { s.drop_first() } else { s };
    if d.len() > 0 && crate::parse::all_digits(d) {
        lemma_digits_value_nonneg(d);
    }
}

proof fn lemma_non_ws_len(s: Seq<char>)
    ensures
        non_ws(s).len() <= s.len(),
    decreases s.len(),
{
    if s.len() > 0 {
        lemma_non_ws_len(s.drop_last());
    }
}

/// A `{raw}` payload is read as pairs of hex digits, whitespace ignored: it decodes exactly
/// when what is left is a non-empty, even run of hex digits (a sign such as `+`, or any
/// character outside ASCII, is not a digit, whether or not a pair's two bytes would end
/// inside it), and then to the bytes the pairs spell; anything else is `BadHex` on the
/// directive's line.
pub proof fn law_raw_payload_is_hex_pairs(args: Seq<char>, line: usize)
    requires
        args.len() <= usize::MAX,
    ensures
        ({
            let d = non_ws(args);
            &&& hex_s(args, line) is Ok <==> (d.len() > 0 && d.len() % 2 == 0 && all_hex(d))
            &&& hex_s(args, line) matches Ok(b) ==> b == hex_bytes(d)
            &&& hex_s(args, line) matches Err(x) ==> x matches ErrorV::BadHex { line: l, .. } && l == line
        }),
{
    let d = non_ws(args);
    lemma_non_ws_len(args);
    assert(d.skip(0) =~= d);
    lemma_hex_from_bytes(d, 0, seq![]);
    if d.len() > 0 && d.len() % 2 == 0 && all_hex(d) {
        assert(is_ascii_chars(d));
        is_ascii_chars_encode_utf8(d);
        lemma_hex_from_all_hex(d, 0, seq![]);
        assert(seq![] + hex_bytes(d) =~= hex_bytes(d));
    }
    if hex_s(args, line) is Ok {
        assert(hex_from(d, 0, seq![]) is Bytes);
        lemma_ascii(d);
        is_ascii_chars_encode_utf8(d);
    }
}

// --- whitespace ---------------------------------------------------------------------

proof fn lemma_trim_start_idem(s: Seq<char>)
    ensures
        trim_start(trim_start(s)) == trim_start(s),
        trim_start(s).len() == 0 || !is_ws(trim_start(s)[0]),
    decreases s.len(),
{
    if s.len() > 0 && is_ws(s[0]) {
        lemma_trim_start_idem(s.drop_first());
    }
}

proof fn lemma_trim_end_keeps_start(s: Seq<char>)
    requires
        s.len() == 0 || !is_ws(s[0]),
    ensures
        trim_end(s).len() == 0 || !is_ws(trim_end(s)[0]),
        trim_end(trim_end(s)) == trim_end(s),
        trim_end(s).len() == 0 || !is_ws(trim_end(s).last()),
    decreases s.len(),
{
    if s.len() > 0 && is_ws(s.last()) {
        let d = s.drop_last();
        if d.len() > 0 {
            assert(d[0] == s[0]);
        }
        lemma_trim_end_keeps_start(d);
    }
}

proof fn lemma_trim_idem(s: Seq<char>)
    ensures
        trim(trim(s)) == trim(s),
{
    lemma_trim_start_idem(s);
    let a = trim_start(s);
    lemma_trim_end_keeps_start(a);
    let b = trim_end(a);
    // `b` starts with no whitespace, so trimming its start leaves it.
    assert(trim_start(b) == b);
}

/// Whitespace at the ends of a line or a cell is never load-bearing: a line parses as its
/// trimmed self, and a cell reads as its trimmed self.
pub proof fn law_edge_whitespace_is_ignored(st: PState, line: usize, raw: Seq<char>, cell: Seq<char>)
    ensures
        line_s(st, line, raw) == line_s(st, line, trim(raw)),
        parse_cell_s(cell) == parse_cell_s(trim(cell)),
{
    lemma_trim_idem(raw);
    lemma_trim_idem(cell);
}

/// The lines of `t` from position `pos` on (the first being line number `n`, from 0),
/// each as the parser reads it, with its edge whitespace removed.
pub open spec fn trimmed_lines(t: Seq<char>, pos: int, n: int) -> Seq<Seq<char>>
    decreases t.len() + 1 - pos,
{
    if pos >= t.len() || pos < 0 {
        seq![]
    } else {
        proof {
            lemma_next_newline(t, pos);
        }
        seq![trim(raw_line(t, pos, n))] + trimmed_lines(t, next_newline(t, pos) + 1, n + 1)
    }
}

proof fn lemma_lines_depend_on_trimmed(t1: Seq<char>, p1: int, t2: Seq<char>, p2: int, n: int, st: PState)
    requires
        p1 >= 0,
        p2 >= 0,
        trimmed_lines(t1, p1, n) == trimmed_lines(t2, p2, n),
    ensures
        lines_from(t1, p1, n, st) == lines_from(t2, p2, n, st),
    decreases t1.len() + 1 - p1,
{
    if p1 < t1.len() {
        lemma_next_newline(t1, p1);
        assert(trimmed_lines(t1, p1, n).len() > 0);
        assert(p2 < t2.len());
        lemma_next_newline(t2, p2);
        let r1 = raw_line(t1, p1, n);
        let r2 = raw_line(t2, p2, n);
        assert(trim(r1) == trimmed_lines(t1, p1, n)[0]);
        assert(trim(r2) == trimmed_lines(t2, p2, n)[0]);
        law_edge_whitespace_is_ignored(st, (n + 1) as usize, r1, seq![]);
        law_edge_whitespace_is_ignored(st, (n + 1) as usize, r2, seq![]);
        if let Ok(st2) = crate::parse::line_s(st, (n + 1) as usize, r1) {
            assert(trimmed_lines(t1, next_newline(t1, p1) + 1, n + 1) =~= trimmed_lines(t1, p1, n).drop_first());
            assert(trimmed_lines(t2, next_newline(t2, p2) + 1, n + 1) =~= trimmed_lines(t2, p2, n).drop_first());
            lemma_lines_depend_on_trimmed(t1, next_newline(t1, p1) + 1, t2, next_newline(t2, p2) + 1, n + 1, st2);
        }
    } else {
        assert(trimmed_lines(t1, p1, n).len() == 0);
        if p2 < t2.len() {
            assert(trimmed_lines(t2, p2, n).len() > 0);
        }
    }
}

/// Whitespace at the ends of a template's lines is never load-bearing: two templates whose
/// lines, read one by one, agree once their edge whitespace is removed parse to the same
/// blocks, or fail with the same error.
pub proof fn law_template_edge_whitespace_is_ignored(t1: Seq<char>, t2: Seq<char>)
    requires
        trimmed_lines(t1, 0, 0) == trimmed_lines(t2, 0, 0),
    ensures
        parse_spec(t1) == parse_spec(t2),
{
    lemma_lines_depend_on_trimmed(t1, 0, t2, 0, 0, init_pstate());
}

// --- escaping interpolated values ------------------------------------------------------

/// The characters the template syntax gives a meaning to inside a line.
pub open spec fn is_markup_char(c: char) -> bool {
    c == '\\' || c == '|' || c == '*' || c == '_' || c == '{'
}

/// A value made safe to interpolate: a backslash before every markup character.
pub open spec fn escape_value(v: Seq<char>) -> Seq<char>
    decreases v.len(),
{
    if v.len() == 0 {
        seq![]
    } else {
        (if is_markup_char(v[0]) { seq!['\\', v[0]] } else { seq![v[0]] }) + escape_value(v.drop_first())
    }
}

proof fn lemma_escape_value_shape(v: Seq<char>)
    ensures
        escape_value(v).len() >= v.len(),
        v.len() > 0 ==> escape_value(v).last() == v.last(),
        v.len() > 0 ==> (escape_value(v)[0] == v[0] || escape_value(v)[0] == '\\'),
    decreases v.len(),
{
    if v.len() > 0 {
        lemma_escape_value_shape(v.drop_first());
    }
}

proof fn lemma_cell_reads_escaped(s: Seq<char>, i: int, w: Seq<char>, buf: Seq<char>)
    requires
        0 <= i <= s.len(),
        s.skip(i) == escape_value(w),
    ensures
        cell_from(s, i, seq![], buf, false, false) == flush_s(seq![], buf + w, false, false),
    decreases w.len(),
{
    if w.len() == 0 {
        assert(buf + w =~= buf);
        assert(s.skip(i).len() == 0);
    } else {
        let c = w[0];
        let rest = w.drop_first();
        let head: Seq<char> = if is_markup_char(c) { seq!['\\', c] } else { seq![c] };
        assert(escape_value(w) == head + escape_value(rest));
        let t = s.skip(i);
        assert(t =~= head + escape_value(rest));
        if is_markup_char(c) {
            assert(s[i] == t[0]);
            assert(s[i + 1] == t[1]);
            assert(s.skip(i + 2) =~= t.skip(2));
            assert((head + escape_value(rest)).skip(2) =~= escape_value(rest));
            lemma_cell_reads_escaped(s, i + 2, rest, buf.push(c));
        } else {
            assert(s[i] == t[0]);
            assert(s.skip(i + 1) =~= t.skip(1));
            assert((head + escape_value(rest)).skip(1) =~= escape_value(rest));
            lemma_cell_reads_escaped(s, i + 1, rest, buf.push(c));
        }
        assert(buf.push(c) + rest =~= buf + w);
    }
}

proof fn lemma_split_reads_escaped(s: Seq<char>, i: int, w: Seq<char>)
    requires
        0 <= i <= s.len(),
        s.skip(i) == escape_value(w),
    ensures
        split_from(s, i, 0, false, seq![]) == seq![s],
    decreases w.len(),
{
    if w.len() == 0 {
        assert(s.skip(i).len() == 0);
        assert(s.subrange(0, s.len() as int) =~= s);
    } else {
        let c = w[0];
        let rest = w.drop_first();
        let head: Seq<char> = if is_markup_char(c) { seq!['\\', c] } else { seq![c] };
        assert(escape_value(w) == head + escape_value(rest));
        let t = s.skip(i);
        assert(t =~= head + escape_value(rest));
        if is_markup_char(c) {
            assert(s[i] == t[0]);
            assert(s.skip(i + 2) =~= t.skip(2));
            assert((head + escape_value(rest)).skip(2) =~= escape_value(rest));
            lemma_split_reads_escaped(s, i + 2, rest);
            assert(split_from(s, i + 1, 0, true, seq![]) == split_from(s, i + 2, 0, false, seq![]));
        } else {
            assert(s[i] == t[0]);
            assert(s.skip(i + 1) =~= t.skip(1));
            assert((head + escape_value(rest)).skip(1) =~= escape_value(rest));
            lemma_split_reads_escaped(s, i + 1, rest);
        }
    }
}

/// A cell holding `v` as plain text.
pub open spec fn plain_cell(v: Seq<char>) -> CellV {
    CellV {
        spans: if v.len() == 0 {
            seq![]
        } else {
            seq![SpanV { text: v, bold: false, underline: false }]
        },
    }
}

/// Whether `v` has no whitespace at either end.
pub open spec fn no_edge_ws(v: Seq<char>) -> bool {
    v.len() == 0 || (!is_ws(v[0]) && !is_ws(v.last()))
}

/// A row of escaped values, written as the README writes one: ` | ` between cells.
pub open spec fn escaped_row(vals: Seq<Seq<char>>) -> Seq<char>
    decreases vals.len(),
{
    if vals.len() <= 1 {
        if vals.len() == 0 { seq![] } else { escape_value(vals[0]) }
    } else {
        escape_value(vals[0]) + " | "@ + escaped_row(vals.drop_first())
    }
}

/// The cells such a row splits into, the first preceded by `pre`: each escaped value with
/// the spaces around it.
pub open spec fn row_cells(pre: Seq<char>, vals: Seq<Seq<char>>) -> Seq<Seq<char>>
    decreases vals.len(),
{
    if vals.len() <= 1 {
        if vals.len() == 0 { seq![] } else { seq![pre + escape_value(vals[0])] }
    } else {
        seq![pre + escape_value(vals[0]) + seq![' ']] + row_cells(seq![' '], vals.drop_first())
    }
}

proof fn lemma_split_skips_escaped(s: Seq<char>, i: int, start: int, acc: Seq<Seq<char>>, w: Seq<char>)
    requires
        0 <= i,
        i + escape_value(w).len() <= s.len(),
        s.subrange(i, i + escape_value(w).len()) == escape_value(w),
    ensures
        split_from(s, i, start, false, acc) == split_from(s, i + escape_value(w).len(), start, false, acc),
    decreases w.len(),
{
    if w.len() > 0 {
        let c = w[0];
        let rest = w.drop_first();
        let head: Seq<char> = if is_markup_char(c) { seq!['\\', c] } else { seq![c] };
        assert(escape_value(w) == head + escape_value(rest));
        let e = escape_value(w);
        assert(s[i] == e[0]);
        let j = i + head.len();
        assert(s.subrange(j, j + escape_value(rest).len()) =~= escape_value(rest)) by {
            assert forall|k: int| 0 <= k < escape_value(rest).len() implies s.subrange(j, j + escape_value(rest).len())[k] == escape_value(rest)[k] by {
                assert(s[j + k] == s.subrange(i, i + e.len())[head.len() + k]);
            }
        }
        lemma_split_skips_escaped(s, j, start, acc, rest);
        if is_markup_char(c) {
            assert(split_from(s, i + 1, start, true, acc) == split_from(s, i + 2, start, false, acc));
        }
    }
}

proof fn lemma_split_escaped_row(s: Seq<char>, i: int, start: int, acc: Seq<Seq<char>>, pre: Seq<char>, vals: Seq<Seq<char>>)
    requires
        0 <= start <= i <= s.len(),
        vals.len() >= 1,
        s.skip(i) == escaped_row(vals),
        s.subrange(start, i) == pre,
    ensures
        split_from(s, i, start, false, acc) == acc + row_cells(pre, vals),
    decreases vals.len(),
{
    let e0 = escape_value(vals[0]);
    let i1 = i + e0.len();
    if vals.len() == 1 {
        assert(s.subrange(i, i1) =~= s.skip(i));
        lemma_split_skips_escaped(s, i, start, acc, vals[0]);
        assert(s.subrange(start, s.len() as int) =~= pre + e0);
        assert(split_from(s, s.len() as int, start, false, acc) == acc.push(s.subrange(start, s.len() as int)));
        assert(acc.push(pre + e0) =~= acc + row_cells(pre, vals));
    } else {
        let rest = vals.drop_first();
        let r = escaped_row(rest);
        assert(s.skip(i) == e0 + " | "@ + r);
        reveal_strlit(" | ");
        assert(s.subrange(i, i1) =~= e0) by {
            assert forall|k: int| 0 <= k < e0.len() implies s.subrange(i, i1)[k] == e0[k] by {
                assert(s[i + k] == s.skip(i)[k]);
            }
        }
        lemma_split_skips_escaped(s, i, start, acc, vals[0]);
        assert(s[i1] == s.skip(i)[e0.len() as int]);
        assert(s[i1 + 1] == s.skip(i)[e0.len() as int + 1]);
        assert(s[i1 + 2] == s.skip(i)[e0.len() as int + 2]);
        assert(s[i1] == ' ' && s[i1 + 1] == '|' && s[i1 + 2] == ' ');
        let cell = s.subrange(start, i1 + 1);
        assert(cell =~= pre + e0 + seq![' ']) by {
            assert forall|k: int| 0 <= k < cell.len() implies cell[k] == (pre + e0 + seq![' '])[k] by {
                if k < pre.len() {
                    assert(cell[k] == s.subrange(start, i)[k]);
                } else if k < pre.len() + e0.len() {
                    assert(cell[k] == s.subrange(i, i1)[k - pre.len()]);
                }
            }
        }
        let acc2 = acc.push(cell);
        assert(split_from(s, i1, start, false, acc) == split_from(s, i1 + 1, start, false, acc));
        assert(split_from(s, i1 + 1, start, false, acc) == split_from(s, i1 + 2, i1 + 2, false, acc2));
        assert(s.skip(i1 + 3) =~= r) by {
            assert forall|k: int| 0 <= k < r.len() implies s.skip(i1 + 3)[k] == r[k] by {
                assert(s.skip(i1 + 3)[k] == s.skip(i)[e0.len() as int + 3 + k]);
            }
        }
        assert(s.subrange(i1 + 2, i1 + 3) =~= seq![' ']);
        lemma_split_escaped_row(s, i1 + 3, i1 + 2, acc2, seq![' '], rest);
        assert(split_from(s, i1 + 2, i1 + 2, false, acc2) == split_from(s, i1 + 3, i1 + 2, false, acc2));
        assert(acc2 + row_cells(seq![' '], rest) =~= acc + row_cells(pre, vals));
    }
}

/// Escaping the values, never the template, is enough: a value with a backslash before
/// each of `\\ | * _ {` stays a single cell of a row and reads back as exactly that value,
/// plain, with no bold or underline. Edge whitespace is the one thing it cannot keep, so
/// the value has none.
pub proof fn law_escaped_values_read_back(v: Seq<char>)
    requires
        v.len() == 0 || (!is_ws(v[0]) && !is_ws(v.last())),
    ensures
        split_cells_s(escape_value(v)) == seq![escape_value(v)],
        parse_cell_s(escape_value(v)) == plain_cell(v),
{
    let s = escape_value(v);
    lemma_escape_value_shape(v);
    assert(s.skip(0) =~= s);
    lemma_split_reads_escaped(s, 0, v);
    assert(trim_start(s) == s);
    assert(trim_end(s) == s);
    lemma_cell_reads_escaped(s, 0, v, seq![]);
    assert(Seq::<char>::empty() + v =~= v);
}

proof fn lemma_row_cells_shape(pre: Seq<char>, vals: Seq<Seq<char>>)
    requires
        vals.len() >= 1,
    ensures
        row_cells(pre, vals).len() == vals.len(),
        forall|i: int| 0 <= i < vals.len() ==> #[trigger] row_cells(pre, vals)[i] == (if i == 0 {
            pre
        } else {
            seq![' ']
        }) + escape_value(vals[i]) + (if i < vals.len() - 1 { seq![' '] } else { seq![] }),
    decreases vals.len(),
{
    if vals.len() == 1 {
        assert(row_cells(pre, vals)[0] =~= pre + escape_value(vals[0]) + Seq::<char>::empty());
    } else {
        let rest = vals.drop_first();
        lemma_row_cells_shape(seq![' '], rest);
        assert forall|i: int| 0 <= i < vals.len() implies #[trigger] row_cells(pre, vals)[i] == (if i == 0 {
            pre
        } else {
            seq![' ']
        }) + escape_value(vals[i]) + (if i < vals.len() - 1 { seq![' '] } else { seq![] }) by {
            if i > 0 {
                assert(row_cells(pre, vals)[i] == row_cells(seq![' '], rest)[i - 1]);
                assert(rest[i - 1] == vals[i]);
            }
        }
    }
}

proof fn lemma_trim_padded(a: Seq<char>, e: Seq<char>, b: Seq<char>)
    requires
        a == Seq::<char>::empty() || a == seq![' '],
        b == Seq::<char>::empty() || b == seq![' '],
        e.len() == 0 || (!is_ws(e[0]) && !is_ws(e.last())),
    ensures
        trim(a + e + b) == e,
{
    let x = a + e + b;
    let y = e + b;
    if a.len() == 1 {
        assert(is_ws(x[0]));
        assert(x.drop_first() =~= y);
        assert(trim_start(x) == trim_start(y));
    } else {
        assert(x =~= y);
    }
    if e.len() > 0 {
        assert(y[0] == e[0]);
        assert(trim_start(y) == y);
        assert(trim_end(e) == e);
        if b.len() == 1 {
            assert(is_ws(y.last()));
            assert(y.drop_last() =~= e);
            assert(trim_end(y) == trim_end(e));
        } else {
            assert(y =~= e);
        }
        assert(trim(x) == trim_end(y));
    } else {
        if b.len() == 1 {
            assert(y =~= seq![' ']);
            assert(is_ws(y[0]));
            assert(y.drop_first() =~= Seq::<char>::empty());
            assert(trim_start(Seq::<char>::empty()) == Seq::<char>::empty());
            assert(trim_start(y) == trim_start(y.drop_first()));
        } else {
            assert(y =~= Seq::<char>::empty());
        }
        assert(trim_start(y) =~= Seq::<char>::empty());
        assert(trim_end(Seq::<char>::empty()) == Seq::<char>::empty());
        assert(e =~= Seq::<char>::empty());
    }
}

/// A row written from escaped values, with ` | ` between them as the README writes one,
/// has exactly one cell per value, and each cell reads back as its value, plain. Values
/// with whitespace at an end are left out, as escaping cannot keep that whitespace.
pub proof fn law_escaped_row_reads_back(vals: Seq<Seq<char>>)
    requires
        vals.len() >= 1,
        forall|i: int| 0 <= i < vals.len() ==> no_edge_ws(#[trigger] vals[i]),
    ensures
        split_cells_s(escaped_row(vals)).len() == vals.len(),
        forall|i: int| 0 <= i < vals.len() ==> parse_cell_s(#[trigger] split_cells_s(escaped_row(vals))[i])
            == plain_cell(vals[i]),
{
    let s = escaped_row(vals);
    assert(s.skip(0) =~= s);
    assert(s.subrange(0, 0) =~= Seq::<char>::empty());
    lemma_split_escaped_row(s, 0, 0, seq![], seq![], vals);
    assert(Seq::<Seq<char>>::empty() + row_cells(seq![], vals) =~= row_cells(seq![], vals));
    lemma_row_cells_shape(seq![], vals);
    assert forall|i: int| 0 <= i < vals.len() implies parse_cell_s(#[trigger] split_cells_s(s)[i])
        == plain_cell(vals[i]) by {
        let v = vals[i];
        let e = escape_value(v);
        let cell = split_cells_s(s)[i];
        assert(no_edge_ws(v));
        lemma_escape_value_shape(v);
        if v.len() > 0 {
            assert(!is_ws('\\'));
        }
        lemma_trim_padded(if i == 0 { Seq::<char>::empty() } else { seq![' '] }, e, if i < vals.len() - 1 {
            seq![' ']
        } else {
            Seq::<char>::empty()
        });
        law_edge_whitespace_is_ignored(init_pstate(), 0, seq![], cell);
        law_escaped_values_read_back(v);
    }
}

// --- splitting a row ---------------------------------------------------------------

/// Cells joined back together with `|` between them.
pub open spec fn join_cells(cs: Seq<Seq<char>>) -> Seq<char>
    decreases cs.len(),
{
    if cs.len() == 0 {
        seq![]
    } else if cs.len() == 1 {
        cs[0]
    } else {
        join_cells(cs.drop_last()) + seq!['|'] + cs.last()
    }
}

proof fn lemma_join_push(acc: Seq<Seq<char>>, x: Seq<char>)
    ensures
        join_cells(acc.push(x)) == if acc.len() == 0 { x } else { join_cells(acc) + seq!['|'] + x },
{
    assert(acc.push(x).drop_last() =~= acc);
}

proof fn lemma_split_joins(s: Seq<char>, i: int, start: int, escaped: bool, acc: Seq<Seq<char>>)
    requires
        0 <= start <= s.len(),
        start <= i || i >= s.len(),
    ensures
        join_cells(split_from(s, i, start, escaped, acc)) == join_cells(acc.push(s.subrange(start, s.len() as int))),
        split_from(s, i, start, escaped, acc).len() >= acc.len() + 1,
    decreases s.len() - i,
{
    if i >= s.len() || i < 0 {
    } else if escaped || s[i] == '\\' {
        lemma_split_joins(s, i + 1, start, if escaped { false } else { true }, acc);
    } else if s[i] == '|' {
        let left = s.subrange(start, i);
        let right = s.subrange(i + 1, s.len() as int);
        lemma_split_joins(s, i + 1, i + 1, false, acc.push(left));
        lemma_join_push(acc.push(left), right);
        lemma_join_push(acc, left);
        lemma_join_push(acc, s.subrange(start, s.len() as int));
        assert(s.subrange(start, s.len() as int) =~= left + seq!['|'] + right);
        if acc.len() > 0 {
            assert(join_cells(acc) + seq!['|'] + left + seq!['|'] + right =~= join_cells(acc) + seq!['|']
                + (left + seq!['|'] + right));
        }
    } else {
        lemma_split_joins(s, i + 1, start, false, acc);
    }
}

/// How many backslashes stand right before position `i`.
pub open spec fn backslashes_before(s: Seq<char>, i: int) -> nat
    decreases i,
{
    if i <= 0 || i > s.len() || s[i - 1] != '\\' {
        0
    } else {
        backslashes_before(s, i - 1) + 1
    }
}

/// Whether position `i` holds a `|` that no backslash escapes: one preceded by an even
/// run of backslashes.
pub open spec fn unescaped_pipe(s: Seq<char>, i: int) -> bool {
    s[i] == '|' && backslashes_before(s, i) % 2 == 0
}

/// The unescaped pipes among the first `n` characters.
pub open spec fn pipes_before(s: Seq<char>, n: int) -> nat
    decreases n,
{
    if n <= 0 {
        0
    } else {
        pipes_before(s, n - 1) + if unescaped_pipe(s, n - 1) { 1nat } else { 0nat }
    }
}

proof fn lemma_split_counts(s: Seq<char>, i: int, start: int, escaped: bool, acc: Seq<Seq<char>>)
    requires
        0 <= i <= s.len(),
        escaped == (backslashes_before(s, i) % 2 == 1),
    ensures
        split_from(s, i, start, escaped, acc).len() == acc.len() + 1 + pipes_before(s, s.len() as int)
            - pipes_before(s, i),
    decreases s.len() - i,
{
    if i < s.len() {
        let next = if escaped { false } else if s[i] == '\\' { true } else { false };
        assert(backslashes_before(s, i + 1) == if s[i] == '\\' { backslashes_before(s, i) + 1 } else { 0 });
        assert(pipes_before(s, i + 1) == pipes_before(s, i) + if unescaped_pipe(s, i) { 1nat } else { 0nat });
        if !escaped && s[i] == '|' {
            lemma_split_counts(s, i + 1, i + 1, false, acc.push(s.subrange(start, i)));
        } else {
            lemma_split_counts(s, i + 1, start, next, acc);
        }
    }
}

/// A row has one cell more than it has unescaped `|`s.
pub proof fn law_cells_count_unescaped_pipes(row: Seq<char>)
    ensures
        split_cells_s(row).len() == pipes_before(row, row.len() as int) + 1,
{
    lemma_split_counts(row, 0, 0, false, seq![]);
}

/// Splitting a row into cells loses nothing: the cells joined with `|` are the row again,
/// and there is always at least one cell.
pub proof fn law_cells_join_back_to_the_row(row: Seq<char>)
    ensures
        join_cells(split_cells_s(row)) == row,
        split_cells_s(row).len() >= 1,
{
    lemma_split_joins(row, 0, 0, false, seq![]);
    lemma_join_push(seq![], row.subrange(0, row.len() as int));
    assert(row.subrange(0, row.len() as int) =~= row);
}

// --- range-checked directives ----------------------------------------------------------

/// The line an error names, for errors raised by a directive.
pub open spec fn directive_error_line(x: ErrorV) -> Option<usize> {
    match x {
        ErrorV::BadDirective { line, .. } => Some(line),
        ErrorV::SizeOutOfRange { line, .. } => Some(line),
        ErrorV::UnsupportedVersion { line, .. } => Some(line),
        _ => None,
    }
}

/// `{size}` gives a magnification of 1..=8 in each axis or is refused; `{qrmod}` gives a
/// module size of 1..=16 or is refused; `{v}` is accepted only before any other block and
/// only up to the highest supported version. Each refusal names the directive's line.
pub proof fn law_directives_are_range_checked(st: PState, line: usize, inner: Seq<char>)
    ensures
        dname(inner) == "size"@ ==> match directive_s(st, line, inner) {
            Ok(b) => b matches BlockV::Size { w, h } && 1 <= w <= 8 && 1 <= h <= 8,
            Err(x) => directive_error_line(x) == Some(line) && (x is BadDirective || (x matches
                ErrorV::SizeOutOfRange { w, h, .. } && !(1 <= w <= 8 && 1 <= h <= 8))),
        },
        dname(inner) == "qrmod"@ ==> match directive_s(st, line, inner) {
            Ok(b) => b matches BlockV::QrModule(n) && 1 <= n <= 16,
            Err(x) => x is BadDirective && directive_error_line(x) == Some(line),
        },
        dname(inner) == "v"@ ==> match directive_s(st, line, inner) {
            Ok(b) => b matches BlockV::Version(n) && n <= MAX_VERSION && st.nodes.len() == 0,
            Err(x) => directive_error_line(x) == Some(line) && (x is BadDirective || (x matches
                ErrorV::UnsupportedVersion { requested, .. } && requested > MAX_VERSION
                && st.nodes.len() == 0)),
        },
{
    let name = dname(inner);
    let args = crate::parse::dargs(inner);
    reveal_strlit("v");
    reveal_strlit("left");
    reveal_strlit("center");
    reveal_strlit("right");
    reveal_strlit("size");
    reveal_strlit("qrmod");
    reveal_strlit("cols");
    reveal_strlit("/cols");
    reveal_strlit("feed");
    reveal_strlit("cut");
    reveal_strlit("raw");
    reveal_strlit("qr");
    if name == "size"@ {
        // Names of another length, or of this length with another first letter, differ.
        assert(("size"@).len() == 4 && ("size"@)[0] == 's' && ("v"@).len() == 1);
        assert(("left"@)[0] == 'l' && ("center"@).len() == 6 && ("right"@).len() == 5);
        assert(name != "v"@ && name != "left"@ && name != "center"@ && name != "right"@);
        if let Some(k) = crate::parse::first_of_from(args, 0, 'x', 'X') {
            lemma_parse_unsigned_range(trim(args.take(k)), u8::MAX as int);
            lemma_parse_unsigned_range(trim(args.skip(k + 1)), u8::MAX as int);
        }
    }
    if name == "qrmod"@ {
        // As above: every other name differs in length or in its first letter.
        assert(("qrmod"@).len() == 5 && ("qrmod"@)[0] == 'q');
        assert(("v"@).len() == 1 && ("center"@).len() == 6 && ("qr"@).len() == 2);
        assert(("left"@).len() == 4 && ("size"@).len() == 4 && ("cols"@).len() == 4);
        assert(("feed"@).len() == 4 && ("cut"@).len() == 3 && ("raw"@).len() == 3);
        assert(("right"@)[0] == 'r' && ("/cols"@)[0] == '/');
        assert(name != "v"@ && name != "left"@ && name != "center"@ && name != "right"@ && name
            != "size"@ && name != "cols"@ && name != "/cols"@ && name != "feed"@ && name != "cut"@
            && name != "raw"@ && name != "qr"@);
        lemma_parse_unsigned_range(args, u8::MAX as int);
    }
    if name == "v"@ {
        lemma_parse_unsigned_range(args, u32::MAX as int);
    }
}

/// The justification directives say what they name: `{left}`, `{center}` and `{right}`
/// always give left, center and right justification, in any state and on any line, and
/// never fail.
pub proof fn law_justify_directives(st: PState, line: usize, inner: Seq<char>)
    ensures
        dname(inner) == "left"@ ==> directive_s(st, line, inner) == Ok::<BlockV, ErrorV>(BlockV::Justify(Align::Left)),
        dname(inner) == "center"@ ==> directive_s(st, line, inner) == Ok::<BlockV, ErrorV>(
            BlockV::Justify(Align::Center),
        ),
        dname(inner) == "right"@ ==> directive_s(st, line, inner) == Ok::<BlockV, ErrorV>(BlockV::Justify(Align::Right)),
{
    reveal_strlit("v");
    reveal_strlit("left");
    reveal_strlit("center");
    reveal_strlit("right");
    // Every name differs from the others in length or in its first letter.
    assert(("v"@).len() == 1 && ("left"@).len() == 4 && ("center"@).len() == 6 && ("right"@).len() == 5);
}

proof fn lemma_one_digit(c: char)
    requires
        '0' <= c <= '9',
    ensures
        parse_unsigned(seq![c], u8::MAX as int) == Some(c as int - '0' as int),
        parse_unsigned(seq![c], u16::MAX as int) == Some(c as int - '0' as int),
        trim(seq![c]) == seq![c],
{
    let d = seq![c];
    assert(d.drop_last() =~= Seq::<char>::empty());
    assert(digits_value(Seq::<char>::empty()) == 0);
    assert(d.last() == c);
    assert(digits_value(d) == digits_value(d.drop_last()) * 10 + (c as int - '0' as int));
    assert(digits_value(d) == c as int - '0' as int);
    assert(!is_ws(c));
    assert(trim_start(d) == d);
    assert(trim_end(d) == d);
}

/// `{size WxH}` reads the number before the `x` (or `X`) as the width and the one after it
/// as the height: `{size 2x1}` is twice as wide, not twice as tall.
pub proof fn law_size_directive_reads_width_then_height(st: PState, line: usize, cw: char, x: char, ch: char)
    requires
        '1' <= cw <= '8',
        '1' <= ch <= '8',
        x == 'x' || x == 'X',
    ensures
        directive_s(st, line, "size "@ + seq![cw, x, ch]) == Ok::<BlockV, ErrorV>(
            BlockV::Size { w: (cw as int - '0' as int) as u8, h: (ch as int - '0' as int) as u8 },
        ),
{
    reveal_strlit("size ");
    reveal_strlit("size");
    reveal_strlit("v");
    reveal_strlit("left");
    reveal_strlit("center");
    reveal_strlit("right");
    let inner = "size "@ + seq![cw, x, ch];
    assert(inner.len() == 8);
    assert(inner[0] == 's' && inner[1] == 'i' && inner[2] == 'z' && inner[3] == 'e' && inner[4] == ' ');
    assert(inner[5] == cw && inner[6] == x && inner[7] == ch);
    assert(first_ws_from(inner, 4) == Some(4int));
    assert(first_ws_from(inner, 3) == Some(4int));
    assert(first_ws_from(inner, 2) == Some(4int));
    assert(first_ws_from(inner, 1) == Some(4int));
    assert(first_ws_from(inner, 0) == Some(4int));
    let name = inner.take(4);
    assert(name =~= "size"@);
    let rest = inner.skip(4);
    assert(rest =~= seq![' ', cw, x, ch]);
    assert(rest.drop_first() =~= seq![cw, x, ch]);
    assert(trim_start(rest) == trim_start(seq![cw, x, ch]));
    assert(!is_ws(cw) && !is_ws(ch));
    let args = seq![cw, x, ch];
    assert(trim_start(args) == args);
    assert(trim_end(args) == args);
    assert(first_of_from(args, 1, 'x', 'X') == Some(1int));
    assert(first_of_from(args, 0, 'x', 'X') == Some(1int));
    assert(args.take(1) =~= seq![cw]);
    assert(args.skip(2) =~= seq![ch]);
    lemma_one_digit(cw);
    lemma_one_digit(ch);
    assert(("v"@).len() == 1 && ("left"@).len() == 4 && ("center"@).len() == 6 && ("right"@).len() == 5);
    assert(("left"@)[0] == 'l' && ("size"@)[0] == 's');
}

/// A `{cols}` entry is a width, read in decimal, and an optional alignment: none or `:l`
/// is left, `:r` right and `:c` centered.
pub proof fn law_column_entries_read_their_alignment(d: Seq<char>, line: usize, name: Seq<char>)
    requires
        d.len() > 0,
        all_digits(d),
        1 <= digits_value(d) <= u16::MAX,
    ensures
        col_spec_s(d, line, name) == Ok::<ColSpec, ErrorV>(ColSpec { width_chars: digits_value(d) as u16, align: Align::Left }),
        col_spec_s(d + ":l"@, line, name) == Ok::<ColSpec, ErrorV>(ColSpec { width_chars: digits_value(d) as u16, align: Align::Left }),
        col_spec_s(d + ":r"@, line, name) == Ok::<ColSpec, ErrorV>(ColSpec { width_chars: digits_value(d) as u16, align: Align::Right }),
        col_spec_s(d + ":c"@, line, name) == Ok::<ColSpec, ErrorV>(ColSpec { width_chars: digits_value(d) as u16, align: Align::Center }),
{
    reveal_strlit(":l");
    reveal_strlit(":r");
    reveal_strlit(":c");
    reveal_strlit("l");
    reveal_strlit("r");
    reveal_strlit("c");
    lemma_no_colon(d, 0);
    assert(d[0] != '+');
    assert(trim_start(d) == d) by {
        assert(!is_ws(d[0]));
    }
    assert(trim_end(d) == d) by {
        assert(!is_ws(d.last()));
    }
    lemma_suffix(d, 'l');
    lemma_suffix(d, 'r');
    lemma_suffix(d, 'c');
    assert(":l"@ =~= seq![':', 'l'] && ":r"@ =~= seq![':', 'r'] && ":c"@ =~= seq![':', 'c']);
    assert("l"@ =~= seq!['l'] && "r"@ =~= seq!['r'] && "c"@ =~= seq!['c']);
    assert(seq!['r'] != "l"@ && seq!['c'] != "l"@ && seq!['c'] != "r"@) by {
        assert(seq!['r'][0] != ("l"@)[0] && seq!['c'][0] != ("l"@)[0] && seq!['c'][0] != ("r"@)[0]);
    }
}

proof fn lemma_no_colon(d: Seq<char>, i: int)
    requires
        0 <= i <= d.len(),
        all_digits(d),
    ensures
        first_of_from(d, i, ':', ':') is None,
    decreases d.len() - i,
{
    if i < d.len() {
        assert('0' <= d[i] <= '9');
        lemma_no_colon(d, i + 1);
    }
}

proof fn lemma_colon_after(d: Seq<char>, c: char, i: int)
    requires
        0 <= i <= d.len(),
        all_digits(d),
    ensures
        first_of_from(d + seq![':', c], i, ':', ':') == Some(d.len() as int),
    decreases d.len() - i,
{
    let t = d + seq![':', c];
    if i < d.len() {
        assert(t[i] == d[i]);
        assert('0' <= d[i] <= '9');
        lemma_colon_after(d, c, i + 1);
    } else {
        assert(t[i] == ':');
    }
}

proof fn lemma_suffix(d: Seq<char>, c: char)
    requires
        d.len() > 0,
        all_digits(d),
        trim(d) == d,
        c == 'l' || c == 'r' || c == 'c',
    ensures
        ({
            let t = d + seq![':', c];
            &&& first_of_from(t, 0, ':', ':') == Some(d.len() as int)
            &&& t.take(d.len() as int) == d
            &&& trim(t.skip(d.len() as int + 1)) == seq![c]
        }),
{
    let t = d + seq![':', c];
    lemma_colon_after(d, c, 0);
    assert(t.take(d.len() as int) =~= d);
    assert(t.skip(d.len() as int + 1) =~= seq![c]);
    assert(!is_ws(c));
    assert(trim_start(seq![c]) == seq![c]);
    assert(trim_end(seq![c]) == seq![c]);
}

/// Numbers the library writes read back as themselves: `decimal(n)` is all ASCII digits,
/// has no leading zero, and its decimal value is `n`.
pub proof fn law_decimal_reads_back(n: nat)
    ensures
        decimal(n).len() > 0,
        all_digits(decimal(n)),
        digits_value(decimal(n)) == n,
        decimal(n).len() > 1 ==> decimal(n)[0] != '0',
    decreases n,
{
    if n >= 10 {
        law_decimal_reads_back(n / 10);
        let d = decimal(n / 10);
        let t = decimal(n);
        assert(t.drop_last() =~= d);
        assert(t[0] == d[0]);
        assert forall|i: int| 0 <= i < t.len() implies '0' <= #[trigger] t[i] <= '9' by {
            if i < d.len() {
                assert(t[i] == d[i]);
            }
        }
        assert(digit_char((n % 10) as int) as int - '0' as int == n % 10);
        assert(t.last() == digit_char((n % 10) as int));
        assert(digits_value(t) == digits_value(d) * 10 + (t.last() as int - '0' as int));
        assert(n == (n / 10) * 10 + n % 10);
        if d.len() == 1 {
            assert(d[0] != '0') by {
                assert(n / 10 > 0);
                assert(digits_value(d) == digits_value(d.drop_last()) * 10 + (d.last() as int - '0' as int));
                assert(d.drop_last() =~= Seq::<char>::empty());
            }
        }
    } else {
        let t = decimal(n);
        assert(t.drop_last() =~= Seq::<char>::empty());
        assert(digit_char(n as int) as int - '0' as int == n);
        assert(digits_value(Seq::<char>::empty()) == 0);
        assert(digits_value(t) == digits_value(t.drop_last()) * 10 + (t.last() as int - '0' as int));
    }
}

proof fn lemma_cell_plain_run(s: Seq<char>, i: int, spans: Seq<SpanV>, buf: Seq<char>, bold: bool, underline: bool, t: Seq<char>)
    requires
        0 <= i,
        i + t.len() <= s.len(),
        s.subrange(i, i + t.len()) == t,
        forall|k: int| 0 <= k < t.len() ==> !is_markup_char(#[trigger] t[k]),
    ensures
        cell_from(s, i, spans, buf, bold, underline) == cell_from(s, i + t.len(), spans, buf + t, bold, underline),
    decreases t.len(),
{
    if t.len() == 0 {
        assert(buf + t =~= buf);
    } else {
        assert(s[i] == s.subrange(i, i + t.len())[0]);
        assert(s[i] == t[0]);
        let rest = t.drop_first();
        assert(s.subrange(i + 1, i + 1 + rest.len()) =~= rest) by {
            assert forall|k: int| 0 <= k < rest.len() implies s.subrange(i + 1, i + 1 + rest.len())[k] == rest[k] by {
                assert(s[i + 1 + k] == s.subrange(i, i + t.len())[k + 1]);
            }
        }
        lemma_cell_plain_run(s, i + 1, spans, buf.push(t[0]), bold, underline, rest);
        assert(buf.push(t[0]) + rest =~= buf + t);
    }
}

/// Inline markup means what it says: a cell that is `**text**` is `text` in bold, and one
/// that is `__text__` is `text` underlined, for any text without markup characters or edge
/// whitespace.
pub proof fn law_inline_markup(t: Seq<char>)
    requires
        t.len() > 0,
        no_edge_ws(t),
        forall|k: int| 0 <= k < t.len() ==> !is_markup_char(#[trigger] t[k]),
    ensures
        parse_cell_s(seq!['*', '*'] + t + seq!['*', '*']) == (CellV {
            spans: seq![SpanV { text: t, bold: true, underline: false }],
        }),
        parse_cell_s(seq!['_', '_'] + t + seq!['_', '_']) == (CellV {
            spans: seq![SpanV { text: t, bold: false, underline: true }],
        }),
{
    let n = t.len() as int;
    let b = seq!['*', '*'] + t + seq!['*', '*'];
    let u = seq!['_', '_'] + t + seq!['_', '_'];
    assert(trim_start(b) == b && trim_end(b) == b);
    assert(trim_start(u) == u && trim_end(u) == u);
    assert(b.subrange(2, 2 + n) =~= t);
    assert(u.subrange(2, 2 + n) =~= t);
    assert(Seq::<char>::empty() + t =~= t);
    lemma_cell_plain_run(b, 2, seq![], seq![], true, false, t);
    lemma_cell_plain_run(u, 2, seq![], seq![], false, true, t);
    assert(b[0] == '*' && b[1] == '*' && b[n + 2] == '*' && b[n + 3] == '*');
    assert(u[0] == '_' && u[1] == '_' && u[n + 2] == '_' && u[n + 3] == '_');
    assert(cell_from(b, 0, seq![], seq![], false, false) == cell_from(b, 2, seq![], seq![], true, false));
    assert(cell_from(u, 0, seq![], seq![], false, false) == cell_from(u, 2, seq![], seq![], false, true));
    let sb = seq![SpanV { text: t, bold: true, underline: false }];
    let su = seq![SpanV { text: t, bold: false, underline: true }];
    assert(cell_from(b, n + 2, seq![], t, true, false) == cell_from(b, n + 4, sb, seq![], false, false));
    assert(cell_from(u, n + 2, seq![], t, false, true) == cell_from(u, n + 4, su, seq![], false, false));
}

proof fn lemma_first_ws_after_name(name: Seq<char>, rest: Seq<char>, i: int)
    requires
        0 <= i <= name.len(),
        forall|k: int| 0 <= k < name.len() ==> !is_ws(#[trigger] name[k]),
    ensures
        first_ws_from(name + seq![' '] + rest, i) == Some(name.len() as int),
    decreases name.len() - i,
{
    let t = name + seq![' '] + rest;
    if i < name.len() {
        assert(t[i] == name[i]);
        lemma_first_ws_after_name(name, rest, i + 1);
    } else {
        assert(t[i] == ' ');
    }
}

proof fn lemma_name_and_args(name: Seq<char>, rest: Seq<char>)
    requires
        forall|k: int| 0 <= k < name.len() ==> !is_ws(#[trigger] name[k]),
        rest.len() > 0,
        !is_ws(rest[0]),
        !is_ws(rest.last()),
    ensures
        dname(name + seq![' '] + rest) == name,
        dargs(name + seq![' '] + rest) == rest,
{
    let t = name + seq![' '] + rest;
    lemma_first_ws_after_name(name, rest, 0);
    assert(t.take(name.len() as int) =~= name);
    let tail = t.skip(name.len() as int);
    assert(tail =~= seq![' '] + rest);
    assert(tail.drop_first() =~= rest);
    assert(trim_start(rest) == rest);
    assert(trim_start(tail) == rest);
    assert(trim_end(rest) == rest);
}

proof fn lemma_decimal_edges(n: nat)
    ensures
        !is_ws(decimal(n)[0]),
        !is_ws(decimal(n).last()),
        decimal(n)[0] != '+',
        parse_unsigned(decimal(n), u8::MAX as int) == (if n <= u8::MAX { Some(n as int) } else { None::<int> }),
        parse_unsigned(decimal(n), u32::MAX as int) == (if n <= u32::MAX { Some(n as int) } else { None::<int> }),
{
    law_decimal_reads_back(n);
    let d = decimal(n);
    assert('0' <= d[0] <= '9');
    assert('0' <= d[d.len() - 1] <= '9');
}

/// `{feed N}` feeds exactly N lines, and `{qrmod N}` sets exactly module size N, for every
/// N they accept, written in decimal.
pub proof fn law_count_directives(st: PState, line: usize, n: nat)
    ensures
        n <= u8::MAX ==> directive_s(st, line, "feed"@ + seq![' '] + decimal(n)) == Ok::<BlockV, ErrorV>(
            BlockV::Feed(n as u8),
        ),
        1 <= n <= 16 ==> directive_s(st, line, "qrmod"@ + seq![' '] + decimal(n)) == Ok::<BlockV, ErrorV>(
            BlockV::QrModule(n as u8),
        ),
{
    reveal_strlit("feed");
    reveal_strlit("qrmod");
    reveal_strlit("v");
    reveal_strlit("left");
    reveal_strlit("center");
    reveal_strlit("right");
    reveal_strlit("size");
    reveal_strlit("cols");
    reveal_strlit("/cols");
    reveal_strlit("cut");
    reveal_strlit("raw");
    reveal_strlit("qr");
    lemma_decimal_edges(n);
    law_decimal_reads_back(n);
    lemma_name_and_args("feed"@, decimal(n));
    lemma_name_and_args("qrmod"@, decimal(n));
    // Every other name differs in length or in its first letter.
    assert(("feed"@).len() == 4 && ("feed"@)[0] == 'f' && ("qrmod"@).len() == 5 && ("qrmod"@)[0] == 'q');
    assert(("v"@).len() == 1 && ("center"@).len() == 6 && ("qr"@).len() == 2 && ("cut"@).len() == 3);
    assert(("left"@).len() == 4 && ("left"@)[0] == 'l' && ("size"@).len() == 4 && ("size"@)[0] == 's');
    assert(("cols"@).len() == 4 && ("cols"@)[0] == 'c' && ("raw"@).len() == 3);
    assert(("right"@).len() == 5 && ("right"@)[0] == 'r' && ("/cols"@).len() == 5 && ("/cols"@)[0] == '/');
}

/// How a `{cols}` entry writes its alignment: nothing for left, `:r`, `:c`.
pub open spec fn align_suffix(a: Align) -> Seq<char> {
    match a {
        Align::Left => seq![],
        Align::Right => seq![':', 'r'],
        Align::Center => seq![':', 'c'],
    }
}

/// One `{cols}` entry: a width in decimal digits and its alignment.
pub open spec fn col_entry(e: (Seq<char>, Align)) -> Seq<char> {
    e.0 + align_suffix(e.1)
}

/// The argument of a `{cols}` directive: the entries, separated by commas.
pub open spec fn cols_args(es: Seq<(Seq<char>, Align)>) -> Seq<char>
    decreases es.len(),
{
    if es.len() <= 1 {
        if es.len() == 0 { seq![] } else { col_entry(es[0]) }
    } else {
        col_entry(es[0]) + seq![','] + cols_args(es.drop_first())
    }
}

/// Whether every entry's width is decimal digits worth 1..=65535.
pub open spec fn entries_ok(es: Seq<(Seq<char>, Align)>) -> bool {
    forall|i: int| 0 <= i < es.len() ==> {
        let d = (#[trigger] es[i]).0;
        d.len() > 0 && all_digits(d) && 1 <= digits_value(d) <= u16::MAX
    }
}

/// The column specs the entries stand for.
pub open spec fn entry_specs(es: Seq<(Seq<char>, Align)>) -> Seq<ColSpec> {
    es.map_values(|e: (Seq<char>, Align)| ColSpec { width_chars: digits_value(e.0) as u16, align: e.1 })
}

proof fn lemma_no_comma_from(x: Seq<char>, i: int)
    requires
        0 <= i <= x.len(),
        forall|k: int| 0 <= k < x.len() ==> #[trigger] x[k] != ',',
    ensures
        first_of_from(x, i, ',', ',') is None,
    decreases x.len() - i,
{
    if i < x.len() {
        lemma_no_comma_from(x, i + 1);
    }
}

proof fn lemma_comma_after(x: Seq<char>, rest: Seq<char>, i: int)
    requires
        0 <= i <= x.len(),
        forall|k: int| 0 <= k < x.len() ==> #[trigger] x[k] != ',',
    ensures
        first_of_from(x + seq![','] + rest, i, ',', ',') == Some(x.len() as int),
    decreases x.len() - i,
{
    let t = x + seq![','] + rest;
    if i < x.len() {
        assert(t[i] == x[i]);
        lemma_comma_after(x, rest, i + 1);
    } else {
        assert(t[i] == ',');
    }
}

proof fn lemma_entry_shape(e: (Seq<char>, Align))
    requires
        e.0.len() > 0,
        all_digits(e.0),
    ensures
        forall|k: int| 0 <= k < col_entry(e).len() ==> #[trigger] col_entry(e)[k] != ',',
        col_entry(e).len() > 0,
        !is_ws(col_entry(e)[0]),
        !is_ws(col_entry(e).last()),
        trim(col_entry(e)) == col_entry(e),
        col_entry(e) == e.0 || col_entry(e) == e.0 + seq![':', 'r'] || col_entry(e) == e.0 + seq![':', 'c'],
        e.1 == Align::Left ==> col_entry(e) == e.0,
        e.1 == Align::Right ==> col_entry(e) == e.0 + seq![':', 'r'],
        e.1 == Align::Center ==> col_entry(e) == e.0 + seq![':', 'c'],
{
    let x = col_entry(e);
    let d = e.0;
    assert forall|k: int| 0 <= k < x.len() implies #[trigger] x[k] != ',' by {
        if k < d.len() {
            assert(x[k] == d[k]);
            assert('0' <= d[k] <= '9');
        }
    }
    assert(x[0] == d[0]);
    assert('0' <= d[0] <= '9');
    if e.1 == Align::Left {
        assert(x =~= d);
        assert('0' <= d[d.len() - 1] <= '9');
    }
    assert(trim_start(x) == x);
    assert(trim_end(x) == x);
}

proof fn lemma_split_cols_args(es: Seq<(Seq<char>, Align)>)
    requires
        es.len() >= 1,
        entries_ok(es),
    ensures
        split_commas(cols_args(es)) == es.map_values(|e: (Seq<char>, Align)| col_entry(e)),
    decreases es.len(),
{
    assert(es[0].0.len() > 0 && all_digits(es[0].0));
    lemma_entry_shape(es[0]);
    let x = col_entry(es[0]);
    if es.len() == 1 {
        lemma_no_comma_from(x, 0);
        assert(es.map_values(|e: (Seq<char>, Align)| col_entry(e)) =~= seq![x]);
    } else {
        let rest = es.drop_first();
        assert(entries_ok(rest)) by {
            assert forall|i: int| 0 <= i < rest.len() implies {
                let d = (#[trigger] rest[i]).0;
                d.len() > 0 && all_digits(d) && 1 <= digits_value(d) <= u16::MAX
            } by {
                assert(rest[i] == es[i + 1]);
            }
        }
        lemma_split_cols_args(rest);
        let t = x + seq![','] + cols_args(rest);
        lemma_comma_after(x, cols_args(rest), 0);
        assert(t.take(x.len() as int) =~= x);
        assert(t.skip(x.len() as int + 1) =~= cols_args(rest));
        assert(es.map_values(|e: (Seq<char>, Align)| col_entry(e)) =~= seq![x] + rest.map_values(
            |e: (Seq<char>, Align)| col_entry(e),
        ));
    }
}

proof fn lemma_col_specs_entries(es: Seq<(Seq<char>, Align)>, line: usize, name: Seq<char>)
    requires
        entries_ok(es),
    ensures
        col_specs_s(es.map_values(|e: (Seq<char>, Align)| col_entry(e)), line, name) == Ok::<Seq<ColSpec>, ErrorV>(
            entry_specs(es),
        ),
    decreases es.len(),
{
    let parts = es.map_values(|e: (Seq<char>, Align)| col_entry(e));
    if es.len() == 0 {
        assert(entry_specs(es) =~= Seq::<ColSpec>::empty());
    } else {
        let e = es[0];
        assert(e.0.len() > 0 && all_digits(e.0) && 1 <= digits_value(e.0) <= u16::MAX);
        lemma_entry_shape(e);
        law_column_entries_read_their_alignment(e.0, line, name);
        assert(parts[0] == col_entry(e));
        let rest = es.drop_first();
        assert(entries_ok(rest)) by {
            assert forall|i: int| 0 <= i < rest.len() implies {
                let d = (#[trigger] rest[i]).0;
                d.len() > 0 && all_digits(d) && 1 <= digits_value(d) <= u16::MAX
            } by {
                assert(rest[i] == es[i + 1]);
            }
        }
        lemma_col_specs_entries(rest, line, name);
        assert(parts.drop_first() =~= rest.map_values(|e: (Seq<char>, Align)| col_entry(e)));
        assert(":r"@ =~= seq![':', 'r'] && ":c"@ =~= seq![':', 'c']) by {
            reveal_strlit(":r");
            reveal_strlit(":c");
        }
        assert(col_spec_s(trim(parts[0]), line, name) == Ok::<ColSpec, ErrorV>(
            ColSpec { width_chars: digits_value(e.0) as u16, align: e.1 },
        ));
        assert(entry_specs(es) =~= seq![ColSpec { width_chars: digits_value(e.0) as u16, align: e.1 }] + entry_specs(
            rest,
        ));
    }
}

/// `{cols …}` reads its entries in order, each a width in decimal and an alignment
/// (none for left, `:r` right, `:c` centered), into the column specs they name.
pub proof fn law_cols_directive(st: PState, line: usize, es: Seq<(Seq<char>, Align)>)
    requires
        es.len() >= 1,
        entries_ok(es),
    ensures
        directive_s(st, line, "cols"@ + seq![' '] + cols_args(es)) == Ok::<BlockV, ErrorV>(
            BlockV::Cols(entry_specs(es)),
        ),
    decreases es.len(),
{
    reveal_strlit("cols");
    reveal_strlit("v");
    reveal_strlit("left");
    reveal_strlit("center");
    reveal_strlit("right");
    reveal_strlit("size");
    let args = cols_args(es);
    lemma_split_cols_args(es);
    lemma_col_specs_entries(es, line, "cols"@);
    lemma_args_edges(es);
    lemma_name_and_args("cols"@, args);
    assert(("cols"@).len() == 4 && ("cols"@)[0] == 'c' && ("v"@).len() == 1 && ("left"@)[0] == 'l');
    assert(("center"@).len() == 6 && ("right"@).len() == 5 && ("size"@)[0] == 's');
}

proof fn lemma_args_edges(es: Seq<(Seq<char>, Align)>)
    requires
        es.len() >= 1,
        entries_ok(es),
    ensures
        cols_args(es).len() > 0,
        !is_ws(cols_args(es)[0]),
        !is_ws(cols_args(es).last()),
    decreases es.len(),
{
    assert(es[0].0.len() > 0 && all_digits(es[0].0));
    lemma_entry_shape(es[0]);
    let x = col_entry(es[0]);
    if es.len() > 1 {
        let rest = es.drop_first();
        assert(entries_ok(rest)) by {
            assert forall|i: int| 0 <= i < rest.len() implies {
                let d = (#[trigger] rest[i]).0;
                d.len() > 0 && all_digits(d) && 1 <= digits_value(d) <= u16::MAX
            } by {
                assert(rest[i] == es[i + 1]);
            }
        }
        lemma_args_edges(rest);
        let t = x + seq![','] + cols_args(rest);
        assert(t[0] == x[0]);
        assert(t.last() == cols_args(rest).last());
    }
}

/// `{v N}` as the first block declares format version N: accepted for every version this
/// build implements, refused as unsupported (naming N) for any later one.
pub proof fn law_version_directive(st: PState, line: usize, n: nat)
    requires
        st.nodes.len() == 0,
        n <= u32::MAX,
    ensures
        n <= MAX_VERSION ==> directive_s(st, line, "v"@ + seq![' '] + decimal(n)) == Ok::<BlockV, ErrorV>(
            BlockV::Version(n as u32),
        ),
        n > MAX_VERSION ==> directive_s(st, line, "v"@ + seq![' '] + decimal(n)) == Err::<BlockV, ErrorV>(
            ErrorV::UnsupportedVersion { line, requested: n as u32 },
        ),
{
    reveal_strlit("v");
    lemma_decimal_edges(n);
    law_decimal_reads_back(n);
    lemma_name_and_args("v"@, decimal(n));
}

/// Three or more dashes alone on a line are a rule, in any mode; one or two are text. A
/// line with nothing on it is a blank line.
pub proof fn law_rules_and_blanks(st: PState, line: usize, n: nat)
    ensures
        n >= 3 ==> line_s(st, line, Seq::new(n, |i: int| '-')) == Ok::<PState, ErrorV>(
            push_s(st, line, BlockV::Rule),
        ),
        1 <= n <= 2 && st.cols is None ==> line_s(st, line, Seq::new(n, |i: int| '-')) == Ok::<PState, ErrorV>(
            push_s(st, line, BlockV::Line(seq![plain_cell(Seq::new(n, |i: int| '-'))])),
        ),
        line_s(st, line, seq![]) == Ok::<PState, ErrorV>(push_s(st, line, BlockV::Blank)),
{
    let d = Seq::new(n, |i: int| '-');
    if n > 0 {
        assert(!is_ws(d[0]) && !is_ws(d.last()));
        assert(trim_start(d) == d);
        assert(trim_end(d) == d);
        assert(trim(d) == d);
        if n <= 2 {
            assert(forall|k: int| 0 <= k < d.len() ==> !is_markup_char(#[trigger] d[k]));
            assert(d.subrange(0, d.len() as int) =~= d);
            lemma_cell_plain_run(d, 0, seq![], seq![], false, false, d);
            assert(Seq::<char>::empty() + d =~= d);
            assert(parse_cell_s(d) == plain_cell(d));
        }
    }
    assert(trim_start(Seq::<char>::empty()) == Seq::<char>::empty());
    assert(trim(Seq::<char>::empty()) == Seq::<char>::empty());
}
} // verus!

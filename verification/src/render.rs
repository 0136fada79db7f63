//! The snippet layout engine and diagnostic renderer: it turns a diagnostic
//! and the files it points into, into a sequence of styled text segments —
//! headers, locus lines, bordered source lines with carets under the
//! labelled columns, multi-line label blocks, and bulleted notes.

use crate::config::{
    column_width, header_style_of, primary_label_style_of, ColorSpec, Config, DisplayStyle,
};
use crate::diagnostic::{first_primary, Diagnostic, Label, LabelStyle, Severity, Title};
use crate::file::FileId;
use crate::reporting::Files;
use crate::text::{
    char_index_at, dec_digits, decimal_width, is_char_boundary_at, is_line_index_of,
    lemma_line_index_of, lemma_line_starts_props, line_chars_of, line_index_of, line_start_of,
    line_starts_of, lines_of, prefix_utf8_len, push_decimal, strip_cr, utf8_len,
};
use crate::unicode::grapheme_count;
use crate::{Location, Span};
use vstd::prelude::*;

verus! {

/// One run of output text, painted with one style; `None` is the sink's
/// default style.
#[derive(Clone, Debug)]
pub struct Segment {
    pub style: Option<ColorSpec>,
    pub text: String,
}

/// The plain text of a segment sequence: the segment texts concatenated.
pub open spec fn segs_text(segs: Seq<Segment>) -> Seq<char>
    decreases segs.len(),
{
    if segs.len() == 0 {
        Seq::empty()
    } else {
        segs_text(segs.drop_last()) + segs.last().text@
    }
}

/// Appending one segment appends its text.
pub proof fn lemma_segs_text_push(segs: Seq<Segment>, seg: Segment)
    ensures
        segs_text(segs.push(seg)) == segs_text(segs) + seg.text@,
{
    assert(segs.push(seg).drop_last() =~= segs);
    assert(segs.push(seg).last() == seg);
}

/// True when a segment carries exactly the given style and text.
pub open spec fn seg_is(seg: Segment, style: Option<ColorSpec>, text: Seq<char>) -> bool {
    &&& seg.style == style
    &&& seg.text@ == text
}

/// True when `new` extends `old` by one segment with the given style and
/// text, leaving the existing segments unchanged.
pub open spec fn pushed_seg(
    old: Seq<Segment>,
    new: Seq<Segment>,
    style: Option<ColorSpec>,
    text: Seq<char>,
) -> bool {
    &&& new.len() == old.len() + 1
    &&& forall|i: int| 0 <= i < old.len() ==> #[trigger] new[i] == old[i]
    &&& seg_is(new[old.len() as int], style, text)
}

/// Append one styled segment to the output.
pub fn push_seg(out: &mut Vec<Segment>, style: Option<ColorSpec>, text: String)
    ensures
        segs_text(final(out)@) == segs_text(old(out)@) + text@,
        pushed_seg(old(out)@, final(out)@, style, text@),
{
    let seg = Segment { style, text };
    proof {
        lemma_segs_text_push(out@, seg);
    }
    out.push(seg);
}

/// Append one styled segment given as a string slice.
pub fn push_str_seg(out: &mut Vec<Segment>, style: Option<ColorSpec>, text: &str)
    ensures
        segs_text(final(out)@) == segs_text(old(out)@) + text@,
        pushed_seg(old(out)@, final(out)@, style, text@),
{
    push_seg(out, style, text.to_owned());
}

/// Append a single-character segment to the output.
pub fn push_char_seg(out: &mut Vec<Segment>, style: Option<ColorSpec>, c: char)
    ensures
        segs_text(final(out)@) == segs_text(old(out)@) + seq![c],
        pushed_seg(old(out)@, final(out)@, style, seq![c]),
{
    let mut t = String::new();
    t.push(c);
    push_seg(out, style, t);
}

/// A sequence of `n` spaces.
pub open spec fn spaces(n: int) -> Seq<char> {
    repeated(' ', n)
}

/// A sequence of `n` copies of a character.
pub open spec fn repeated(c: char, n: int) -> Seq<char>
    decreases n,
{
    if n <= 0 {
        Seq::empty()
    } else {
        repeated(c, n - 1).push(c)
    }
}

/// A string of `n` copies of a character.
pub fn make_repeated(c: char, n: usize) -> (r: String)
    ensures
        r@ == repeated(c, n as int),
{
    let mut r = String::new();
    let mut i: usize = 0;
    while i < n
        invariant
            0 <= i <= n,
            r@ == repeated(c, i as int),
        decreases n - i,
    {
        r.push(c);
        i = i + 1;
    }
    r
}

/// A string of `n` spaces.
pub fn make_spaces(n: usize) -> (r: String)
    ensures
        r@ == spaces(n as int),
{
    make_repeated(' ', n)
}

/// The lower-case name of a severity.
pub open spec fn severity_name_of(severity: Severity) -> Seq<char> {
    match severity {
        Severity::Bug => "bug"@,
        Severity::Error => "error"@,
        Severity::Warning => "warning"@,
        Severity::Note => "note"@,
        Severity::Help => "help"@,
    }
}

/// The header row of a diagnostic: the severity name, the code in brackets
/// when there is one, and the title message.
pub open spec fn header_text(severity: Severity, title: Title) -> Seq<char> {
    severity_name_of(severity) + (match title.code {
        Some(code) => seq!['['] + code@ + seq![']'],
        None => Seq::<char>::empty(),
    }) + ": "@ + title.message@ + seq!['\n']
}

/// A locus: the file name and a one-based line and column anchor.
pub open spec fn locus_text(name: Seq<char>, line: int, column: int) -> Seq<char> {
    name + seq![':'] + dec_digits(line + 1) + seq![':'] + dec_digits(column + 1)
}

/// A number rendered right-aligned in a field of `pad` columns.
pub open spec fn right_aligned(n: int, pad: int) -> Seq<char> {
    spaces(pad - dec_digits(n).len()) + dec_digits(n)
}

/// The left border of a source row: the line number (or blanks) right
/// aligned in the gutter, a space, and the border glyph.
pub open spec fn border_left_text(num: Option<int>, pad: int, left: char) -> Seq<char> {
    (match num {
        Some(n) => right_aligned(n, pad),
        None => spaces(pad),
    }) + seq![' '] + seq![left]
}

/// The top-left corner of a snippet border.
pub open spec fn border_top_left_text(pad: int, top_left: char, top: char) -> Seq<char> {
    spaces(pad + 1) + seq![top_left, top, top] + seq![' ']
}

/// The run that closes a snippet's top border.
pub open spec fn border_top_text(top: char) -> Seq<char> {
    seq![' ', top, top, top]
}

/// The rows of a note from line `i` on: each line indented past the gutter,
/// the first prefixed with the bullet glyph, the rest aligned under it.
pub open spec fn note_rows_text(lines: Seq<Seq<char>>, i: int, pad: int, bullet: char) -> Seq<char>
    decreases lines.len() - i,
    when i >= 0
{
    if i >= lines.len() {
        Seq::empty()
    } else {
        spaces(pad + 1) + (if i == 0 {
            seq![bullet]
        } else {
            seq![' ']
        }) + seq![' '] + lines[i] + seq!['\n'] + note_rows_text(lines, i + 1, pad, bullet)
    }
}

/// The full text of a note: its lines as a bulleted block.
pub open spec fn note_text(pad: int, bullet: char, message: Seq<char>) -> Seq<char> {
    note_rows_text(lines_of(message), 0, pad, bullet)
}

/// A line piece with its trailing line break (`"\n"` or `"\r\n"`) removed.
pub open spec fn strip_line_break(p: Seq<char>) -> Seq<char> {
    if p.len() > 0 && p.last() == '\n' {
        strip_cr(p.drop_last())
    } else {
        p
    }
}

/// The first `k` characters of `p` with each tab replaced by `tab` spaces.
pub open spec fn expanded_upto(p: Seq<char>, tab: int, k: int) -> Seq<char>
    decreases k,
{
    if k <= 0 {
        Seq::empty()
    } else {
        expanded_upto(p, tab, k - 1) + (if p[k - 1] == '\t' {
            spaces(tab)
        } else {
            seq![p[k - 1]]
        })
    }
}

/// A text with each tab replaced by `tab` spaces.
pub open spec fn expanded(p: Seq<char>, tab: int) -> Seq<char> {
    expanded_upto(p, tab, p.len() as int)
}

/// A column width clamped to what a `usize` can hold.
pub open spec fn sat_width(w: int) -> int {
    if w <= usize::MAX as int {
        w
    } else {
        usize::MAX as int
    }
}

/// Remove a trailing line break (`"\n"` or `"\r\n"`) from a line slice.
pub fn strip_line_break_str(t: &str) -> (r: String)
    ensures
        r@ == strip_line_break(t@),
{
    let n = t.unicode_len();
    let m = if n > 0 && t.get_char(n - 1) == '\n' {
        if n > 1 && t.get_char(n - 2) == '\r' {
            n - 2
        } else {
            n - 1
        }
    } else {
        n
    };
    let r = t.substring_char(0, m).to_owned();
    proof {
        if n > 0 && t@.last() == '\n' {
            assert(t@.drop_last() =~= t@.subrange(0, n as int - 1));
            if n > 1 && t@[n as int - 2] == '\r' {
                assert(t@.drop_last().drop_last() =~= t@.subrange(0, n as int - 2));
            }
        } else {
            assert(t@.subrange(0, n as int) =~= t@);
        }
    }
    r
}

/// Replace each tab of `t` by `tab` spaces.
pub fn expand_tabs(t: &str, tab: usize) -> (r: String)
    ensures
        r@ == expanded(t@, tab as int),
{
    let ghost p = t@;
    let n = t.unicode_len();
    let mut r = String::new();
    let mut k: usize = 0;
    while k < n
        invariant
            p == t@,
            n == p.len(),
            0 <= k <= n,
            r@ == expanded_upto(p, tab as int, k as int),
        decreases n - k,
    {
        let c = t.get_char(k);
        if c == '\t' {
            let pad = make_spaces(tab);
            r.append(pad.as_str());
        } else {
            r.push(c);
        }
        k = k + 1;
    }
    r
}

/// Error: a label's byte range cannot be resolved in its file — an endpoint
/// lies beyond the text or inside a character, or the range is inverted.
#[derive(Copy, Clone, Debug, PartialEq, Eq, Structural)]
pub struct RenderError {
    pub given: Span,
}

/// True when a label's byte range can be rendered: both endpoints are
/// character boundaries within the file, in order.
pub open spec fn label_valid(s: Seq<char>, l: Label) -> bool {
    &&& l.span.start <= l.span.end
    &&& l.span.end as int <= utf8_len(s)
    &&& is_char_boundary_at(s, l.span.start as int)
    &&& is_char_boundary_at(s, l.span.end as int)
}

/// True when the label starts and ends on the same line.
pub open spec fn label_single_line(s: Seq<char>, l: Label) -> bool {
    line_index_of(s, l.span.start as int) == line_index_of(s, l.span.end as int)
}

/// The number of lines of `s`.
pub open spec fn line_count(s: Seq<char>) -> int {
    line_starts_of(s).len() as int
}

/// The text of a source row: the line without its line break, tabs
/// expanded.
pub open spec fn line_row_text(s: Seq<char>, line: int, tab: int) -> Seq<char> {
    expanded(strip_line_break(line_chars_of(s, line)), tab)
}

/// One rendered source line: the left border with its one-based line
/// number, a space, an optional margin, and the line's text.
pub open spec fn source_row(s: Seq<char>, line: int, margin: Seq<char>, pad: int, cfg: Config) -> Seq<
    char,
> {
    border_left_text(Some(line + 1), pad, cfg.source_border_left_char) + seq![' '] + margin
        + line_row_text(s, line, cfg.tab_width as int) + seq!['\n']
}

/// The column width of line `line`'s text between the line start and byte
/// offset `b` of `s`.
pub open spec fn in_line_width(s: Seq<char>, line: int, b: int, tab: int) -> int {
    column_width(
        s.subrange(char_index_at(s, line_start_of(s, line)), char_index_at(s, b)),
        tab,
    )
}

/// The column width of the text between two byte offsets of `s`.
pub open spec fn mark_width(s: Seq<char>, from_b: int, to_b: int, tab: int) -> int {
    column_width(s.subrange(char_index_at(s, from_b), char_index_at(s, to_b)), tab)
}

/// The style that paints a label's carets and message: the severity's
/// primary-label style, or the fixed secondary style.
pub open spec fn caret_style_of(cfg: Config, style: LabelStyle, severity: Severity) -> ColorSpec {
    match style {
        LabelStyle::Primary => primary_label_style_of(cfg.styles, severity),
        LabelStyle::Secondary => cfg.styles.secondary_label,
    }
}

/// The caret glyph for a label style.
pub open spec fn caret_char_of(cfg: Config, style: LabelStyle) -> char {
    match style {
        LabelStyle::Primary => cfg.primary_caret_char,
        LabelStyle::Secondary => cfg.secondary_caret_char,
    }
}

/// A label's message appended after its carets: nothing when the message is
/// empty.
pub open spec fn mark_message_text(message: Seq<char>) -> Seq<char> {
    if message.len() == 0 {
        Seq::empty()
    } else {
        seq![' '] + message
    }
}

/// The underline row of a single-line label: blanks under the gutter, the
/// indent up to the label's first column, a caret run spanning the label's
/// columns (at least one caret), and the label's message.
pub open spec fn underline_row(s: Seq<char>, l: Label, pad: int, cfg: Config) -> Seq<char> {
    let line = line_index_of(s, l.span.start as int);
    let tab = cfg.tab_width as int;
    let indent = sat_width(in_line_width(s, line, l.span.start as int, tab));
    let w = sat_width(mark_width(s, l.span.start as int, l.span.end as int, tab));
    border_left_text(None, pad, cfg.source_border_left_char) + seq![' '] + spaces(indent)
        + repeated(
        caret_char_of(cfg, l.style),
        if w < 1 {
            1
        } else {
            w
        },
    ) + mark_message_text(l.message@) + seq!['\n']
}

/// The underline rows of the labels in `[lo, hi)` whose style matches
/// `want_primary`, in order.
pub open spec fn underline_rows_styled(
    s: Seq<char>,
    labels: Seq<Label>,
    lo: int,
    hi: int,
    want_primary: bool,
    pad: int,
    cfg: Config,
) -> Seq<char>
    decreases hi - lo,
{
    if lo < 0 || lo >= hi || hi > labels.len() {
        Seq::empty()
    } else {
        (if (labels[lo].style == LabelStyle::Primary) == want_primary {
            underline_row(s, labels[lo], pad, cfg)
        } else {
            Seq::empty()
        }) + underline_rows_styled(s, labels, lo + 1, hi, want_primary, pad, cfg)
    }
}

/// The block of a run of single-line labels sharing one line: a leading
/// context line where one exists, the source line itself, the primary
/// underline rows, the secondary underline rows, and a trailing context
/// line where one exists.
pub open spec fn single_line_block(
    s: Seq<char>,
    labels: Seq<Label>,
    lo: int,
    hi: int,
    pad: int,
    cfg: Config,
) -> Seq<char> {
    let line = line_index_of(s, labels[lo].span.start as int);
    (if line > 0 {
        source_row(s, line - 1, Seq::empty(), pad, cfg)
    } else {
        Seq::empty()
    }) + source_row(s, line, Seq::empty(), pad, cfg) + underline_rows_styled(
        s,
        labels,
        lo,
        hi,
        true,
        pad,
        cfg,
    ) + underline_rows_styled(s, labels, lo, hi, false, pad, cfg) + (if line + 1 < line_count(s) {
        source_row(s, line + 1, Seq::empty(), pad, cfg)
    } else {
        Seq::empty()
    })
}

/// The interior rows of a multi-line label block: the lines from `l1` to
/// `l2` included, each behind the vertical continuation margin.
pub open spec fn mline_rows(s: Seq<char>, l1: int, l2: int, pad: int, cfg: Config) -> Seq<char>
    decreases l2 - l1 + 1,
{
    if l1 > l2 {
        Seq::empty()
    } else {
        source_row(s, l1, seq![cfg.multiline_left_char, ' '], pad, cfg) + mline_rows(
            s,
            l1 + 1,
            l2,
            pad,
            cfg,
        )
    }
}

/// The row that closes a multi-line label block: the bottom-left corner, a
/// horizontal run up to the label's last column, the closing caret, and the
/// label's message.
pub open spec fn mline_closing_row(s: Seq<char>, l: Label, pad: int, cfg: Config) -> Seq<char> {
    let el = line_index_of(s, l.span.end as int);
    let run = sat_width(in_line_width(s, el, l.span.end as int, cfg.tab_width as int));
    let caret = match l.style {
        LabelStyle::Primary => cfg.multiline_primary_caret_char,
        LabelStyle::Secondary => cfg.multiline_secondary_caret_char,
    };
    border_left_text(None, pad, cfg.source_border_left_char) + seq![
        ' ',
        cfg.multiline_bottom_left_char,
    ] + repeated(cfg.multiline_bottom_char, run) + seq![caret] + mark_message_text(l.message@)
        + seq!['\n']
}

/// The block of a multi-line label: a leading context line where one
/// exists, the first line behind the opening corner, the remaining lines
/// behind the vertical margin, the closing row, and a trailing context line
/// where one exists.
pub open spec fn multi_line_block(s: Seq<char>, l: Label, pad: int, cfg: Config) -> Seq<char> {
    let sl = line_index_of(s, l.span.start as int);
    let el = line_index_of(s, l.span.end as int);
    (if sl > 0 {
        source_row(s, sl - 1, spaces(2), pad, cfg)
    } else {
        Seq::empty()
    }) + source_row(s, sl, seq![cfg.multiline_top_left_char, ' '], pad, cfg) + mline_rows(
        s,
        sl + 1,
        el,
        pad,
        cfg,
    ) + mline_closing_row(s, l, pad, cfg) + (if el + 1 < line_count(s) {
        source_row(s, el + 1, spaces(2), pad, cfg)
    } else {
        Seq::empty()
    })
}

/// The number of consecutive labels from `i` (up to `hi`) that are
/// single-line and lie on line `line`.
pub open spec fn same_line_run(
    s: Seq<char>,
    labels: Seq<Label>,
    i: int,
    hi: int,
    line: int,
) -> int
    decreases hi - i,
{
    if i < 0 || i >= hi || hi > labels.len() {
        0
    } else if label_single_line(s, labels[i]) && line_index_of(s, labels[i].span.start as int)
        == line {
        1 + same_line_run(s, labels, i + 1, hi, line)
    } else {
        0
    }
}

/// A run length is non-negative and stays within its bounds.
pub proof fn lemma_same_line_run_bounds(s: Seq<char>, labels: Seq<Label>, i: int, hi: int, line: int)
    requires
        0 <= i,
    ensures
        0 <= same_line_run(s, labels, i, hi, line),
        i + same_line_run(s, labels, i, hi, line) <= (if i <= hi { hi } else { i }),
    decreases hi - i,
{
    if 0 <= i < hi <= labels.len() && label_single_line(s, labels[i]) && line_index_of(
        s,
        labels[i].span.start as int,
    ) == line {
        lemma_same_line_run_bounds(s, labels, i + 1, hi, line);
    }
}

/// The blocks of the labels in `[i, hi)`: each multi-line label a block of
/// its own, and each maximal run of single-line labels sharing a line one
/// merged block.
pub open spec fn blocks_text(
    s: Seq<char>,
    labels: Seq<Label>,
    i: int,
    hi: int,
    pad: int,
    cfg: Config,
) -> Seq<char>
    decreases hi - i,
    when i >= 0
    via blocks_text_decreases
{
    if i >= hi || hi > labels.len() {
        Seq::empty()
    } else if !label_single_line(s, labels[i]) {
        multi_line_block(s, labels[i], pad, cfg) + blocks_text(s, labels, i + 1, hi, pad, cfg)
    } else {
        let n = same_line_run(s, labels, i, hi, line_index_of(s, labels[i].span.start as int));
        single_line_block(s, labels, i, i + n, pad, cfg) + blocks_text(
            s,
            labels,
            i + n,
            hi,
            pad,
            cfg,
        )
    }
}

#[via_fn]
proof fn blocks_text_decreases(
    s: Seq<char>,
    labels: Seq<Label>,
    i: int,
    hi: int,
    pad: int,
    cfg: Config,
) {
    if 0 <= i < hi <= labels.len() && label_single_line(s, labels[i]) {
        let line = line_index_of(s, labels[i].span.start as int);
        lemma_same_line_run_bounds(s, labels, i + 1, hi, line);
        assert(same_line_run(s, labels, i, hi, line) >= 1);
    }
}

/// Multi-line label law: a label that crosses a line break contributes
/// exactly one cornered block to the layout — the opening corner on its
/// first line, the vertical margin down its interior lines, and the
/// closing row with its caret and message — and no single-line caret rows
/// for the lines it spans; the remaining labels follow after the block.
pub proof fn lemma_multi_line_label_block(
    s: Seq<char>,
    labels: Seq<Label>,
    i: int,
    hi: int,
    pad: int,
    cfg: Config,
)
    requires
        0 <= i < hi <= labels.len(),
        !label_single_line(s, labels[i]),
    ensures
        blocks_text(s, labels, i, hi, pad, cfg) == multi_line_block(s, labels[i], pad, cfg)
            + blocks_text(s, labels, i + 1, hi, pad, cfg),
{
}

/// The greatest end line among the labels in `[i, hi)`.
pub open spec fn max_end_line(s: Seq<char>, labels: Seq<Label>, i: int, hi: int) -> int
    decreases hi - i,
{
    if i < 0 || i >= hi || hi > labels.len() {
        0
    } else {
        let e = line_index_of(s, labels[i].span.end as int);
        let rest = max_end_line(s, labels, i + 1, hi);
        if e >= rest {
            e
        } else {
            rest
        }
    }
}

/// The gutter width of a group: the width of the largest one-based line
/// number displayed, one line of trailing context included where the source
/// has one.
pub open spec fn group_pad(s: Seq<char>, labels: Seq<Label>, lo: int, hi: int) -> int {
    let last = line_count(s) - 1;
    let shown = max_end_line(s, labels, lo, hi) + 1;
    dec_digits((if shown <= last {
        shown
    } else {
        last
    }) + 1).len() as int
}

/// The index of the first label in `[lo, hi)` whose byte range cannot be
/// rendered, or `hi` when every label is renderable.
pub open spec fn first_invalid_label(s: Seq<char>, labels: Seq<Label>, lo: int, hi: int) -> int
    decreases hi - lo,
{
    if lo < 0 || lo >= hi || hi > labels.len() {
        hi
    } else if !label_valid(s, labels[lo]) {
        lo
    } else {
        first_invalid_label(s, labels, lo + 1, hi)
    }
}

/// A whole snippet for one file: the bordered locus row, an empty border
/// row, the label blocks, and a closing empty border row.
pub open spec fn snippet_text(
    s: Seq<char>,
    name: Seq<char>,
    labels: Seq<Label>,
    lo: int,
    hi: int,
    pad: int,
    cfg: Config,
) -> Seq<char> {
    let b0 = labels[lo].span.start as int;
    let line0 = line_index_of(s, b0);
    let col0 = grapheme_count(
        s.subrange(char_index_at(s, line_start_of(s, line0)), char_index_at(s, b0)),
    );
    border_top_left_text(pad, cfg.source_border_top_left_char, cfg.source_border_top_char)
        + locus_text(name, line0, col0) + border_top_text(cfg.source_border_top_char) + seq!['\n']
        + border_left_text(None, pad, cfg.source_border_left_char) + seq!['\n'] + blocks_text(
        s,
        labels,
        lo,
        hi,
        pad,
        cfg,
    ) + border_left_text(None, pad, cfg.source_border_left_char) + seq!['\n']
}

/// A diagnostic header: the severity and the diagnostic's title.
pub struct Header<'a> {
    pub severity: Severity,
    pub title: &'a Title,
}

impl<'a> Header<'a> {
    /// Pair a severity with a title for rendering.
    pub fn new(severity: Severity, title: &'a Title) -> (h: Header<'a>)
        ensures
            h.severity == severity,
            h.title == title,
    {
        Header { severity, title }
    }

    /// The lower-case name of this header's severity.
    pub fn severity_name(&self) -> (r: &'static str)
        ensures
            r@ == severity_name_of(self.severity),
    {
        match self.severity {
            Severity::Bug => "bug",
            Severity::Error => "error",
            Severity::Warning => "warning",
            Severity::Note => "note",
            Severity::Help => "help",
        }
    }

    /// Append the header row: the severity name and the bracketed code
    /// painted in the severity's header style, `": "` and the message in
    /// the message style, and a plain line break.
    pub fn emit(&self, out: &mut Vec<Segment>, config: &Config)
        ensures
            segs_text(final(out)@) == segs_text(old(out)@) + header_text(
                self.severity,
                *self.title,
            ),
            final(out)@.len() == old(out)@.len() + (if self.title.code is Some {
                5int
            } else {
                4int
            }),
            forall|i: int| 0 <= i < old(out)@.len() ==> #[trigger] final(out)@[i] == old(out)@[i],
            seg_is(
                final(out)@[old(out)@.len() as int],
                Some(header_style_of(config.styles, self.severity)),
                severity_name_of(self.severity),
            ),
            self.title.code is Some ==> seg_is(
                final(out)@[old(out)@.len() as int + 1],
                Some(header_style_of(config.styles, self.severity)),
                seq!['['] + self.title.code->Some_0@ + seq![']'],
            ),
            ({
                let k = old(out)@.len() as int + (if self.title.code is Some {
                    2int
                } else {
                    1int
                });
                &&& seg_is(final(out)@[k], Some(config.styles.header_message), ": "@)
                &&& seg_is(
                    final(out)@[k + 1],
                    Some(config.styles.header_message),
                    self.title.message@,
                )
                &&& seg_is(final(out)@[k + 2], None, seq!['\n'])
            }),
    {
        let style = Some(config.styles.header(self.severity));
        push_str_seg(out, style, self.severity_name());
        match &self.title.code {
            Some(code) => {
                let mut bracketed = String::new();
                bracketed.push('[');
                bracketed.append(code.as_str());
                bracketed.push(']');
                proof {
                    assert(bracketed@ =~= seq!['['] + code@ + seq![']']);
                }
                push_seg(out, style, bracketed);
            },
            None => {},
        }
        let msg_style = Some(config.styles.header_message);
        push_str_seg(out, msg_style, ": ");
        push_str_seg(out, msg_style, self.title.message.as_str());
        NewLine::new().emit(out);
        proof {
            assert(segs_text(out@) =~= segs_text(old(out)@) + header_text(
                self.severity,
                *self.title,
            ));
        }
    }
}

/// A line break in the output.
pub struct NewLine {}

impl NewLine {
    /// A line break.
    pub fn new() -> (n: NewLine) {
        NewLine {  }
    }

    /// Append a line break: one plain-styled segment.
    pub fn emit(&self, out: &mut Vec<Segment>)
        ensures
            segs_text(final(out)@) == segs_text(old(out)@) + seq!['\n'],
            pushed_seg(old(out)@, final(out)@, None, seq!['\n']),
    {
        push_char_seg(out, None, '\n');
        proof {
            assert(segs_text(out@) =~= segs_text(old(out)@) + seq!['\n']);
        }
    }
}

/// A locus: the file name and one-based line and column of an anchor
/// location.
pub struct Locus<'a> {
    pub name: &'a str,
    pub location: Location,
}

impl<'a> Locus<'a> {
    /// Pair a file name with an anchor location.
    pub fn new(name: &'a str, location: Location) -> (l: Locus<'a>)
        ensures
            l.name == name,
            l.location == location,
    {
        Locus { name, location }
    }

    /// Append the locus text: `name:line:column`, one-based.
    pub fn emit(&self, out: &mut Vec<Segment>)
        requires
            self.location.line < usize::MAX,
            self.location.column < usize::MAX,
        ensures
            segs_text(final(out)@) == segs_text(old(out)@) + locus_text(
                self.name@,
                self.location.line as int,
                self.location.column as int,
            ),
            pushed_seg(
                old(out)@,
                final(out)@,
                None,
                locus_text(self.name@, self.location.line as int, self.location.column as int),
            ),
    {
        let mut t = self.name.to_owned();
        t.push(':');
        push_decimal(&mut t, self.location.line + 1);
        t.push(':');
        push_decimal(&mut t, self.location.column + 1);
        proof {
            assert(t@ =~= locus_text(
                self.name@,
                self.location.line as int,
                self.location.column as int,
            ));
        }
        push_seg(out, None, t);
    }
}

/// The top-left corner of a snippet border.
pub struct BorderTopLeft {
    pub gutter_padding: usize,
}

impl BorderTopLeft {
    /// A corner indented past a gutter of the given width.
    pub fn new(gutter_padding: usize) -> (b: BorderTopLeft)
        ensures
            b.gutter_padding == gutter_padding,
    {
        BorderTopLeft { gutter_padding }
    }

    /// Append the corner: gutter blanks, then the corner glyph and two top
    /// glyphs painted in the border style, then a space.
    pub fn emit(&self, out: &mut Vec<Segment>, config: &Config)
        requires
            self.gutter_padding < usize::MAX,
        ensures
            segs_text(final(out)@) == segs_text(old(out)@) + border_top_left_text(
                self.gutter_padding as int,
                config.source_border_top_left_char,
                config.source_border_top_char,
            ),
            final(out)@.len() == old(out)@.len() + 3,
            forall|i: int| 0 <= i < old(out)@.len() ==> #[trigger] final(out)@[i] == old(out)@[i],
            seg_is(
                final(out)@[old(out)@.len() as int],
                None,
                spaces(self.gutter_padding as int + 1),
            ),
            seg_is(
                final(out)@[old(out)@.len() as int + 1],
                Some(config.styles.source_border),
                seq![
                    config.source_border_top_left_char,
                    config.source_border_top_char,
                    config.source_border_top_char,
                ],
            ),
            seg_is(final(out)@[old(out)@.len() as int + 2], None, seq![' ']),
    {
        let pad = make_spaces(self.gutter_padding + 1);
        push_seg(out, None, pad);
        let mut corner = String::new();
        corner.push(config.source_border_top_left_char);
        corner.push(config.source_border_top_char);
        corner.push(config.source_border_top_char);
        proof {
            assert(corner@ =~= seq![
                config.source_border_top_left_char,
                config.source_border_top_char,
                config.source_border_top_char,
            ]);
        }
        push_seg(out, Some(config.styles.source_border), corner);
        push_char_seg(out, None, ' ');
        proof {
            assert(segs_text(out@) =~= segs_text(old(out)@) + border_top_left_text(
                self.gutter_padding as int,
                config.source_border_top_left_char,
                config.source_border_top_char,
            ));
        }
    }
}

/// The run that closes a snippet's top border.
pub struct BorderTop {}

impl BorderTop {
    /// The closing run of a top border.
    pub fn new() -> (b: BorderTop) {
        BorderTop {  }
    }

    /// Append a space, then three top glyphs painted in the border style.
    pub fn emit(&self, out: &mut Vec<Segment>, config: &Config)
        ensures
            segs_text(final(out)@) == segs_text(old(out)@) + border_top_text(
                config.source_border_top_char,
            ),
            final(out)@.len() == old(out)@.len() + 2,
            forall|i: int| 0 <= i < old(out)@.len() ==> #[trigger] final(out)@[i] == old(out)@[i],
            seg_is(final(out)@[old(out)@.len() as int], None, seq![' ']),
            seg_is(
                final(out)@[old(out)@.len() as int + 1],
                Some(config.styles.source_border),
                seq![
                    config.source_border_top_char,
                    config.source_border_top_char,
                    config.source_border_top_char,
                ],
            ),
    {
        push_char_seg(out, None, ' ');
        let mut run = String::new();
        run.push(config.source_border_top_char);
        run.push(config.source_border_top_char);
        run.push(config.source_border_top_char);
        proof {
            assert(run@ =~= seq![
                config.source_border_top_char,
                config.source_border_top_char,
                config.source_border_top_char,
            ]);
        }
        push_seg(out, Some(config.styles.source_border), run);
        proof {
            assert(segs_text(out@) =~= segs_text(old(out)@) + border_top_text(
                config.source_border_top_char,
            ));
        }
    }
}

/// The left border of a source row: an optional line number right-aligned
/// in the gutter, then the border glyph.
pub struct BorderLeft {
    pub line_number: Option<usize>,
    pub gutter_padding: usize,
}

impl BorderLeft {
    /// A left border, with a one-based line number when the row shows a
    /// source line.
    pub fn new(line_number: Option<usize>, gutter_padding: usize) -> (b: BorderLeft)
        ensures
            b.line_number == line_number,
            b.gutter_padding == gutter_padding,
    {
        BorderLeft { line_number, gutter_padding }
    }

    /// Append the border: the line number (painted in the line-number
    /// style) or blanks, right-aligned in the gutter, then a space and the
    /// border glyph painted in the border style.
    pub fn emit(&self, out: &mut Vec<Segment>, config: &Config)
        ensures
            segs_text(final(out)@) == segs_text(old(out)@) + border_left_text(
                match self.line_number {
                    Some(n) => Some(n as int),
                    None => None,
                },
                self.gutter_padding as int,
                config.source_border_left_char,
            ),
            final(out)@.len() == old(out)@.len() + 3,
            forall|i: int| 0 <= i < old(out)@.len() ==> #[trigger] final(out)@[i] == old(out)@[i],
            (match self.line_number {
                Some(n) => seg_is(
                    final(out)@[old(out)@.len() as int],
                    Some(config.styles.line_number),
                    right_aligned(n as int, self.gutter_padding as int),
                ),
                None => seg_is(
                    final(out)@[old(out)@.len() as int],
                    None,
                    spaces(self.gutter_padding as int),
                ),
            }),
            seg_is(final(out)@[old(out)@.len() as int + 1], None, seq![' ']),
            seg_is(
                final(out)@[old(out)@.len() as int + 2],
                Some(config.styles.source_border),
                seq![config.source_border_left_char],
            ),
    {
        match self.line_number {
            None => {
                let pad = make_spaces(self.gutter_padding);
                push_seg(out, None, pad);
            },
            Some(n) => {
                let w = decimal_width(n);
                let mut t = if w < self.gutter_padding {
                    make_spaces(self.gutter_padding - w)
                } else {
                    String::new()
                };
                push_decimal(&mut t, n);
                proof {
                    assert(t@ =~= right_aligned(n as int, self.gutter_padding as int));
                }
                push_seg(out, Some(config.styles.line_number), t);
            },
        }
        push_char_seg(out, None, ' ');
        let mut left = String::new();
        left.push(config.source_border_left_char);
        proof {
            assert(left@ =~= seq![config.source_border_left_char]);
        }
        push_seg(out, Some(config.styles.source_border), left);
        proof {
            assert(segs_text(out@) =~= segs_text(old(out)@) + border_left_text(
                match self.line_number {
                    Some(n) => Some(n as int),
                    None => None,
                },
                self.gutter_padding as int,
                config.source_border_left_char,
            ));
        }
    }
}

/// The bullet that opens a note.
pub struct Bullet {}

impl Bullet {
    /// A note bullet.
    pub fn new() -> (b: Bullet) {
        Bullet {  }
    }

    /// Append the bullet glyph: one segment painted in the bullet style.
    pub fn emit(&self, out: &mut Vec<Segment>, config: &Config)
        ensures
            segs_text(final(out)@) == segs_text(old(out)@) + seq![config.note_bullet_char],
            pushed_seg(
                old(out)@,
                final(out)@,
                Some(config.styles.note_bullet),
                seq![config.note_bullet_char],
            ),
    {
        let mut t = String::new();
        t.push(config.note_bullet_char);
        push_seg(out, Some(config.styles.note_bullet), t);
        proof {
            assert(segs_text(out@) =~= segs_text(old(out)@) + seq![
                config.note_bullet_char,
            ]);
        }
    }
}

/// A free-standing note, rendered as a bulleted block under the snippets.
pub struct Note<'a> {
    pub gutter_padding: usize,
    pub message: &'a str,
}

impl<'a> Note<'a> {
    /// A note indented past a gutter of the given width.
    pub fn new(gutter_padding: usize, message: &'a str) -> (n: Note<'a>)
        ensures
            n.gutter_padding == gutter_padding,
            n.message == message,
    {
        Note { gutter_padding, message }
    }

    /// Append the note: each of its lines on a row of its own, the first
    /// prefixed with the bullet glyph painted in the bullet style, the rest
    /// aligned under it, internal line breaks preserved.
    pub fn emit(&self, out: &mut Vec<Segment>, config: &Config)
        requires
            self.gutter_padding < usize::MAX,
        ensures
            segs_text(final(out)@) == segs_text(old(out)@) + note_text(
                self.gutter_padding as int,
                config.note_bullet_char,
                self.message@,
            ),
            lines_of(self.message@).len() > 0 ==> final(out)@.len() > old(out)@.len() + 1
                && seg_is(
                final(out)@[old(out)@.len() as int + 1],
                Some(config.styles.note_bullet),
                seq![config.note_bullet_char],
            ),
    {
        let ghost pad = self.gutter_padding as int;
        let ghost bullet = config.note_bullet_char;
        let lines = crate::text::split_lines(self.message);
        let ghost lseq = lines.deep_view();
        let ghost base = out@;
        let mut i: usize = 0;
        while i < lines.len()
            invariant
                lseq == lines.deep_view(),
                lseq == lines_of(self.message@),
                0 <= i <= lines.len(),
                lines@.len() == lseq.len(),
                pad == self.gutter_padding as int,
                pad < usize::MAX,
                bullet == config.note_bullet_char,
                segs_text(out@) + note_rows_text(lseq, i as int, pad, bullet) =~= segs_text(base)
                    + note_rows_text(lseq, 0, pad, bullet),
                i == 0 ==> out@ == base,
                i > 0 ==> out@.len() > base.len() + 1 && seg_is(
                    out@[base.len() as int + 1],
                    Some(config.styles.note_bullet),
                    seq![config.note_bullet_char],
                ),
            decreases lines.len() - i,
        {
            let ghost before = out@;
            let indent = make_spaces(self.gutter_padding + 1);
            push_seg(out, None, indent);
            if i == 0 {
                Bullet::new().emit(out, config);
            } else {
                push_char_seg(out, None, ' ');
            }
            push_char_seg(out, None, ' ');
            push_str_seg(out, None, lines[i].as_str());
            push_char_seg(out, None, '\n');
            proof {
                assert(lines[i as int]@ == lseq[i as int]);
                assert(segs_text(out@) =~= segs_text(before) + (spaces(pad + 1) + (if i == 0 {
                    seq![bullet]
                } else {
                    seq![' ']
                }) + seq![' '] + lseq[i as int] + seq!['\n']));
                assert(note_rows_text(lseq, i as int, pad, bullet) =~= (spaces(pad + 1) + (if i
                    == 0 {
                    seq![bullet]
                } else {
                    seq![' ']
                }) + seq![' '] + lseq[i as int] + seq!['\n']) + note_rows_text(
                    lseq,
                    i as int + 1,
                    pad,
                    bullet,
                ));
                assert(segs_text(out@) + note_rows_text(lseq, i as int + 1, pad, bullet)
                    =~= segs_text(base) + note_rows_text(lseq, 0, pad, bullet));
            }
            i = i + 1;
        }
        proof {
            assert(segs_text(out@) =~= segs_text(base) + note_rows_text(lseq, 0, pad, bullet));
        }
    }
}


/// Skipping a renderable prefix does not change which label fails first.
proof fn lemma_first_invalid_skip(s: Seq<char>, labels: Seq<Label>, lo: int, mid: int, hi: int)
    requires
        0 <= lo <= mid <= hi,
        forall|j: int| lo <= j < mid ==> label_valid(s, #[trigger] labels[j]),
    ensures
        first_invalid_label(s, labels, lo, hi) == first_invalid_label(s, labels, mid, hi),
    decreases mid - lo,
{
    if lo < mid && hi <= labels.len() {
        lemma_first_invalid_skip(s, labels, lo + 1, mid, hi);
    }
}

/// Extending the range by one label takes the maximum with its end line.
proof fn lemma_max_end_line_extend(s: Seq<char>, labels: Seq<Label>, lo: int, i: int)
    requires
        0 <= lo <= i < labels.len(),
    ensures
        max_end_line(s, labels, lo, i + 1) == ({
            let prev = max_end_line(s, labels, lo, i);
            let e = line_index_of(s, labels[i].span.end as int);
            if e >= prev {
                e
            } else {
                prev
            }
        }),
    decreases i - lo,
{
    if lo < i {
        lemma_max_end_line_extend(s, labels, lo + 1, i);
    } else {
        assert(max_end_line(s, labels, i + 1, i + 1) == 0);
        lemma_line_starts_props(s);
        lemma_line_index_of(s, labels[i].span.end as int);
    }
}

/// Every end line in the range is non-negative, so the maximum is too.
proof fn lemma_max_end_line_nonneg(s: Seq<char>, labels: Seq<Label>, lo: int, hi: int)
    ensures
        max_end_line(s, labels, lo, hi) >= 0,
    decreases hi - lo,
{
    if 0 <= lo < hi && hi <= labels.len() {
        lemma_max_end_line_nonneg(s, labels, lo + 1, hi);
        lemma_line_starts_props(s);
        lemma_line_index_of(s, labels[lo].span.end as int);
    }
}

/// A scan that stops at the first label off the line measures the run.
proof fn lemma_same_line_run_is(
    s: Seq<char>,
    labels: Seq<Label>,
    i: int,
    j: int,
    hi: int,
    line: int,
)
    requires
        0 <= i <= j <= hi <= labels.len(),
        forall|m: int|
            i <= m < j ==> label_single_line(s, #[trigger] labels[m]) && line_index_of(
                s,
                labels[m].span.start as int,
            ) == line,
        j < hi ==> !(label_single_line(s, labels[j]) && line_index_of(
            s,
            labels[j].span.start as int,
        ) == line),
    ensures
        same_line_run(s, labels, i, hi, line) == j - i,
    decreases j - i,
{
    if i < j {
        lemma_same_line_run_is(s, labels, i + 1, j, hi, line);
    }
}

/// The location of the end of the text lies on the last line.
proof fn lemma_last_line(s: Seq<char>)
    ensures
        is_char_boundary_at(s, utf8_len(s)),
        line_index_of(s, utf8_len(s)) == line_count(s) - 1,
{
    lemma_line_starts_props(s);
    assert(prefix_utf8_len(s, s.len() as int) == utf8_len(s));
    assert(is_char_boundary_at(s, utf8_len(s)));
    let ls = line_starts_of(s);
    assert(is_line_index_of(s, utf8_len(s), ls.len() - 1));
    lemma_line_index_of(s, utf8_len(s));
}

/// Append one rendered source line: the bordered, tab-expanded text of line
/// `line`, behind an optional two-column margin glyph.
#[verifier::rlimit(100)]
#[verifier::spinoff_prover]
fn emit_source_row<F: Files>(
    files: &F,
    id: FileId,
    line: usize,
    margin: Option<char>,
    pad: usize,
    config: &Config,
    out: &mut Vec<Segment>,
)
    requires
        files.has_file(id),
        utf8_len(files.source_of(id)) < usize::MAX - 1,
        (line as int) < line_count(files.source_of(id)),
        pad < usize::MAX,
    ensures
        segs_text(final(out)@) == segs_text(old(out)@) + source_row(
            files.source_of(id),
            line as int,
            (match margin {
                Some(g) => seq![g, ' '],
                None => Seq::<char>::empty(),
            }),
            pad as int,
            *config,
        ),
{
    let ghost s = files.source_of(id);
    let ghost base = out@;
    proof {
        lemma_line_starts_props(s);
        crate::text::lemma_line_box(s, line as int);
        crate::text::lemma_prefix_utf8_len_mono(s, 0, s.len() as int);
    }
    let span = match files.line_span(id, line) {
        Some(span) => span,
        None => {
            proof {
                assert(false);
            }
            return ;
        },
    };
    let slice = match files.source_slice(id, span) {
        Some(t) => t,
        None => {
            proof {
                assert(false);
            }
            return ;
        },
    };
    let stripped = strip_line_break_str(slice.as_str());
    let text = expand_tabs(stripped.as_str(), config.tab_width);
    BorderLeft::new(Some(line + 1), pad).emit(out, config);
    push_char_seg(out, None, ' ');
    match margin {
        Some(g) => {
            push_char_seg(out, None, g);
            push_char_seg(out, None, ' ');
        },
        None => {},
    }
    push_seg(out, None, text);
    push_char_seg(out, None, '\n');
    proof {
        assert(segs_text(out@) =~= segs_text(base) + source_row(
            s,
            line as int,
            (match margin {
                Some(g) => seq![g, ' '],
                None => Seq::<char>::empty(),
            }),
            pad as int,
            *config,
        ));
    }
}

/// Append the underline row of a single-line label: the indent up to its
/// first column, a caret run under its columns, and its message.
#[verifier::rlimit(100)]
#[verifier::spinoff_prover]
fn emit_underline_row<F: Files>(
    files: &F,
    id: FileId,
    label: &Label,
    severity: Severity,
    pad: usize,
    config: &Config,
    out: &mut Vec<Segment>,
)
    requires
        files.has_file(id),
        label.file_id == id,
        utf8_len(files.source_of(id)) < usize::MAX - 1,
        label_valid(files.source_of(id), *label),
    ensures
        segs_text(final(out)@) == segs_text(old(out)@) + underline_row(
            files.source_of(id),
            *label,
            pad as int,
            *config,
        ),
        ({
            let s = files.source_of(id);
            let n = old(out)@.len() as int;
            let style = Some(caret_style_of(*config, label.style, severity));
            let w = sat_width(
                mark_width(s, label.span.start as int, label.span.end as int,
                config.tab_width as int),
            );
            &&& seg_is(
                final(out)@[n + 5],
                style,
                repeated(
                    caret_char_of(*config, label.style),
                    if w < 1 {
                        1
                    } else {
                        w
                    },
                ),
            )
            &&& label.message@.len() > 0 ==> seg_is(
                final(out)@[n + 7],
                style,
                label.message@,
            )
        }),
{
    let ghost s = files.source_of(id);
    let ghost base = out@;
    let ghost line = line_index_of(s, label.span.start as int);
    proof {
        lemma_line_index_of(s, label.span.start as int);
        crate::text::lemma_line_box(s, line);
        crate::text::lemma_char_index_at(s, label.span.start as int);
        crate::text::lemma_char_index_at(s, label.span.end as int);
        crate::text::lemma_prefix_utf8_len_mono(s, 0, s.len() as int);
        if char_index_at(s, label.span.start as int) < char_index_at(s, line_start_of(s, line)) {
            crate::text::lemma_prefix_utf8_len_mono(
                s,
                char_index_at(s, label.span.start as int),
                char_index_at(s, line_start_of(s, line)),
            );
        }
        if char_index_at(s, label.span.end as int) < char_index_at(s, label.span.start as int) {
            crate::text::lemma_prefix_utf8_len_mono(
                s,
                char_index_at(s, label.span.end as int),
                char_index_at(s, label.span.start as int),
            );
        }
    }
    let loc = match files.location(id, label.span.start) {
        Some(loc) => loc,
        None => {
            proof {
                assert(false);
            }
            return ;
        },
    };
    let line_span = match files.line_span(id, loc.line) {
        Some(sp) => sp,
        None => {
            proof {
                assert(false);
            }
            return ;
        },
    };
    let prefix = match files.source_slice(
        id,
        Span { start: line_span.start, end: label.span.start },
    ) {
        Some(t) => t,
        None => {
            proof {
                assert(false);
            }
            return ;
        },
    };
    let marked = match files.source_slice(id, label.span) {
        Some(t) => t,
        None => {
            proof {
                assert(false);
            }
            return ;
        },
    };
    let indent = config.width(prefix.as_str());
    let w = config.width(marked.as_str());
    let carets = if w < 1 {
        1
    } else {
        w
    };
    let (caret_char, style) = match label.style {
        LabelStyle::Primary => (config.primary_caret_char, config.styles.primary_label(severity)),
        LabelStyle::Secondary => (config.secondary_caret_char, config.styles.secondary_label),
    };
    BorderLeft::new(None, pad).emit(out, config);
    push_char_seg(out, None, ' ');
    let blanks = make_spaces(indent);
    push_seg(out, None, blanks);
    let run = make_repeated(caret_char, carets);
    push_seg(out, Some(style), run);
    if !label.message.as_str().is_empty() {
        push_char_seg(out, Some(style), ' ');
        push_str_seg(out, Some(style), label.message.as_str());
    }
    push_char_seg(out, None, '\n');
    proof {
        assert(segs_text(out@) =~= segs_text(base) + underline_row(s, *label, pad as int, *config));
    }
}

/// Append the closing row of a multi-line label: the bottom corner, a
/// horizontal run up to the label's last column, the closing caret, and the
/// label's message.
#[verifier::rlimit(100)]
#[verifier::spinoff_prover]
fn emit_mline_closing_row<F: Files>(
    files: &F,
    id: FileId,
    label: &Label,
    severity: Severity,
    pad: usize,
    config: &Config,
    out: &mut Vec<Segment>,
)
    requires
        files.has_file(id),
        label.file_id == id,
        utf8_len(files.source_of(id)) < usize::MAX - 1,
        label_valid(files.source_of(id), *label),
    ensures
        segs_text(final(out)@) == segs_text(old(out)@) + mline_closing_row(
            files.source_of(id),
            *label,
            pad as int,
            *config,
        ),
        ({
            let s = files.source_of(id);
            let n = old(out)@.len() as int;
            let style = Some(caret_style_of(*config, label.style, severity));
            let el = line_index_of(s, label.span.end as int);
            &&& seg_is(final(out)@[n + 4], style, seq![config.multiline_bottom_left_char])
            &&& seg_is(
                final(out)@[n + 5],
                style,
                repeated(
                    config.multiline_bottom_char,
                    sat_width(
                        in_line_width(s, el, label.span.end as int, config.tab_width as int),
                    ),
                ),
            )
            &&& seg_is(
                final(out)@[n + 6],
                style,
                seq![
                    match label.style {
                        LabelStyle::Primary => config.multiline_primary_caret_char,
                        LabelStyle::Secondary => config.multiline_secondary_caret_char,
                    },
                ],
            )
        }),
{
    let ghost s = files.source_of(id);
    let ghost base = out@;
    let ghost el = line_index_of(s, label.span.end as int);
    proof {
        lemma_line_index_of(s, label.span.end as int);
        crate::text::lemma_line_box(s, el);
        crate::text::lemma_char_index_at(s, label.span.end as int);
        crate::text::lemma_prefix_utf8_len_mono(s, 0, s.len() as int);
        if char_index_at(s, label.span.end as int) < char_index_at(s, line_start_of(s, el)) {
            crate::text::lemma_prefix_utf8_len_mono(
                s,
                char_index_at(s, label.span.end as int),
                char_index_at(s, line_start_of(s, el)),
            );
        }
    }
    let loc = match files.location(id, label.span.end) {
        Some(loc) => loc,
        None => {
            proof {
                assert(false);
            }
            return ;
        },
    };
    let line_span = match files.line_span(id, loc.line) {
        Some(sp) => sp,
        None => {
            proof {
                assert(false);
            }
            return ;
        },
    };
    let prefix = match files.source_slice(
        id,
        Span { start: line_span.start, end: label.span.end },
    ) {
        Some(t) => t,
        None => {
            proof {
                assert(false);
            }
            return ;
        },
    };
    let run_w = config.width(prefix.as_str());
    let (caret_char, style) = match label.style {
        LabelStyle::Primary => (
            config.multiline_primary_caret_char,
            config.styles.primary_label(severity),
        ),
        LabelStyle::Secondary => (
            config.multiline_secondary_caret_char,
            config.styles.secondary_label,
        ),
    };
    BorderLeft::new(None, pad).emit(out, config);
    push_char_seg(out, None, ' ');
    push_char_seg(out, Some(style), config.multiline_bottom_left_char);
    let run = make_repeated(config.multiline_bottom_char, run_w);
    push_seg(out, Some(style), run);
    push_char_seg(out, Some(style), caret_char);
    if !label.message.as_str().is_empty() {
        push_char_seg(out, Some(style), ' ');
        push_str_seg(out, Some(style), label.message.as_str());
    }
    push_char_seg(out, None, '\n');
    proof {
        assert(segs_text(out@) =~= segs_text(base) + mline_closing_row(
            s,
            *label,
            pad as int,
            *config,
        ));
    }
}

/// Render the block of a run of single-line labels in `[i, j)`, all on line
/// `sl` of the file: context lines where they exist, the source line, and
/// the stacked underline rows, primary labels first.
#[verifier::loop_isolation(false)]
#[verifier::rlimit(100)]
#[verifier::spinoff_prover]
fn emit_single_block<F: Files>(
    files: &F,
    id: FileId,
    labels: &Vec<Label>,
    i: usize,
    j: usize,
    sl: usize,
    last: usize,
    severity: Severity,
    pad: usize,
    config: &Config,
    out: &mut Vec<Segment>,
)
    requires
        i < j <= labels@.len(),
        files.has_file(id),
        utf8_len(files.source_of(id)) < usize::MAX - 1,
        pad < usize::MAX,
        forall|m: int| i as int <= m < j as int ==> (#[trigger] labels@[m]).file_id == id,
        forall|m: int|
            i as int <= m < j as int ==> label_valid(files.source_of(id), #[trigger] labels@[m]),
        sl as int == line_index_of(files.source_of(id), labels@[i as int].span.start as int),
        (sl as int) < line_count(files.source_of(id)),
        last as int == line_count(files.source_of(id)) - 1,
    ensures
        segs_text(final(out)@) == segs_text(old(out)@) + single_line_block(
            files.source_of(id),
            labels@,
            i as int,
            j as int,
            pad as int,
            *config,
        ),
{
    let ghost s = files.source_of(id);
    let ghost base = out@;
    if sl > 0 {
        emit_source_row(files, id, sl - 1, None, pad, config, out);
    }
    emit_source_row(files, id, sl, None, pad, config, out);
    let mut m = i;
    let ghost pre_rows = out@;
    while m < j
        invariant
            i <= m <= j,
            segs_text(out@) + underline_rows_styled(
                s,
                labels@,
                m as int,
                j as int,
                true,
                pad as int,
                *config,
            ) =~= segs_text(pre_rows) + underline_rows_styled(
                s,
                labels@,
                i as int,
                j as int,
                true,
                pad as int,
                *config,
            ),
        decreases j - m,
    {
        let l = &labels[m];
        if matches!(l.style, LabelStyle::Primary) {
            emit_underline_row(files, id, l, severity, pad, config, out);
        }
        m = m + 1;
    }
    let mut m = i;
    let ghost pre_rows2 = out@;
    while m < j
        invariant
            i <= m <= j,
            segs_text(out@) + underline_rows_styled(
                s,
                labels@,
                m as int,
                j as int,
                false,
                pad as int,
                *config,
            ) =~= segs_text(pre_rows2) + underline_rows_styled(
                s,
                labels@,
                i as int,
                j as int,
                false,
                pad as int,
                *config,
            ),
        decreases j - m,
    {
        let l = &labels[m];
        if matches!(l.style, LabelStyle::Secondary) {
            emit_underline_row(files, id, l, severity, pad, config, out);
        }
        m = m + 1;
    }
    if sl < last {
        emit_source_row(files, id, sl + 1, None, pad, config, out);
    }
    proof {
        assert(segs_text(out@) =~= segs_text(base) + single_line_block(
            s,
            labels@,
            i as int,
            j as int,
            pad as int,
            *config,
        ));
    }
}

/// Render the block of the multi-line label at `i`, spanning lines `sl` to
/// `el`: context lines where they exist, the opening corner on the first
/// line, the vertical margin down the interior lines, and the closing row.
#[verifier::loop_isolation(false)]
#[verifier::rlimit(100)]
#[verifier::spinoff_prover]
fn emit_multi_block<F: Files>(
    files: &F,
    id: FileId,
    labels: &Vec<Label>,
    i: usize,
    sl: usize,
    el: usize,
    last: usize,
    severity: Severity,
    pad: usize,
    config: &Config,
    out: &mut Vec<Segment>,
)
    requires
        (i as int) < labels@.len(),
        files.has_file(id),
        utf8_len(files.source_of(id)) < usize::MAX - 1,
        pad < usize::MAX,
        labels@[i as int].file_id == id,
        label_valid(files.source_of(id), labels@[i as int]),
        sl as int == line_index_of(files.source_of(id), labels@[i as int].span.start as int),
        el as int == line_index_of(files.source_of(id), labels@[i as int].span.end as int),
        sl < el,
        (el as int) < line_count(files.source_of(id)),
        last as int == line_count(files.source_of(id)) - 1,
    ensures
        segs_text(final(out)@) == segs_text(old(out)@) + multi_line_block(
            files.source_of(id),
            labels@[i as int],
            pad as int,
            *config,
        ),
{
    let ghost s = files.source_of(id);
    let ghost base = out@;
    proof {
        lemma_line_starts_props(s);
        crate::text::lemma_prefix_utf8_len_mono(s, 0, s.len() as int);
        assert(spaces(2) =~= seq![' ', ' ']) by {
            reveal_with_fuel(repeated, 3);
        }
    }
    let l = &labels[i];
    if sl > 0 {
        emit_source_row(files, id, sl - 1, Some(' '), pad, config, out);
    }
    emit_source_row(files, id, sl, Some(config.multiline_top_left_char), pad, config, out);
    let mut ln = sl + 1;
    let ghost pre_rows = out@;
    while ln <= el
        invariant
            sl < ln <= el + 1,
            segs_text(out@) + mline_rows(s, ln as int, el as int, pad as int, *config)
                =~= segs_text(pre_rows) + mline_rows(
                s,
                sl as int + 1,
                el as int,
                pad as int,
                *config,
            ),
        decreases el + 1 - ln,
    {
        emit_source_row(files, id, ln, Some(config.multiline_left_char), pad, config, out);
        ln = ln + 1;
    }
    emit_mline_closing_row(files, id, l, severity, pad, config, out);
    if el < last {
        emit_source_row(files, id, el + 1, Some(' '), pad, config, out);
    }
    proof {
        assert(spaces(2) =~= seq![' ', ' ']);
        assert(segs_text(out@) =~= segs_text(base) + multi_line_block(
            s,
            labels@[i as int],
            pad as int,
            *config,
        ));
    }
}


/// Resolve the labels in `[lo, hi)` to their start and end lines, and the
/// greatest end line among them. Fails at the first label whose byte range
/// cannot be resolved.
#[verifier::loop_isolation(false)]
#[verifier::rlimit(100)]
#[verifier::spinoff_prover]
fn resolve_labels<F: Files>(files: &F, labels: &Vec<Label>, lo: usize, hi: usize) -> (r: Result<
    (Vec<usize>, Vec<usize>, usize),
    RenderError,
>)
    requires
        lo < hi <= labels@.len(),
        files.has_file(labels@[lo as int].file_id),
        utf8_len(files.source_of(labels@[lo as int].file_id)) < usize::MAX - 1,
        forall|i: int|
            lo as int <= i < hi as int ==> (#[trigger] labels@[i]).file_id == labels@[lo as int].file_id,
    ensures
        ({
            let s = files.source_of(labels@[lo as int].file_id);
            match r {
                Ok(resolved) => {
                    &&& first_invalid_label(s, labels@, lo as int, hi as int) == hi as int
                    &&& forall|j: int|
                        lo as int <= j < hi as int ==> label_valid(s, #[trigger] labels@[j])
                    &&& resolved.0@.len() == hi - lo
                    &&& resolved.1@.len() == hi - lo
                    &&& forall|j: int|
                        lo as int <= j < hi as int ==> #[trigger] resolved.0@[j - lo as int] as int
                            == line_index_of(s, labels@[j].span.start as int)
                    &&& forall|j: int|
                        lo as int <= j < hi as int ==> #[trigger] resolved.1@[j - lo as int] as int
                            == line_index_of(s, labels@[j].span.end as int)
                    &&& resolved.2 as int == max_end_line(s, labels@, lo as int, hi as int)
                    &&& resolved.2 as int <= line_count(s) - 1
                },
                Err(e) => {
                    &&& first_invalid_label(s, labels@, lo as int, hi as int) < hi as int
                    &&& e.given == labels@[first_invalid_label(s, labels@, lo as int, hi as int)].span
                },
            }
        }),
{
    let ghost s = files.source_of(labels@[lo as int].file_id);
    proof {
        lemma_line_starts_props(s);
        lemma_max_end_line_nonneg(s, labels@, lo as int, lo as int);
    }
    let mut slines: Vec<usize> = Vec::new();
    let mut elines: Vec<usize> = Vec::new();
    let mut maxe: usize = 0;
    let mut i = lo;
    while i < hi
        invariant
            lo <= i <= hi,
            forall|j: int| lo as int <= j < i as int ==> label_valid(s, #[trigger] labels@[j]),
            slines@.len() == i - lo,
            elines@.len() == i - lo,
            forall|j: int|
                lo as int <= j < i as int ==> #[trigger] slines@[j - lo as int] as int
                    == line_index_of(s, labels@[j].span.start as int),
            forall|j: int|
                lo as int <= j < i as int ==> #[trigger] elines@[j - lo as int] as int
                    == line_index_of(s, labels@[j].span.end as int),
            maxe as int == max_end_line(s, labels@, lo as int, i as int),
            maxe as int <= line_count(s) - 1,
        decreases hi - i,
    {
        let l = &labels[i];
        let st = match files.location(l.file_id, l.span.start) {
            Some(loc) => loc,
            None => {
                proof {
                    lemma_first_invalid_skip(s, labels@, lo as int, i as int, hi as int);
                }
                return Err(RenderError { given: l.span });
            },
        };
        let en = match files.location(l.file_id, l.span.end) {
            Some(loc) => loc,
            None => {
                proof {
                    lemma_first_invalid_skip(s, labels@, lo as int, i as int, hi as int);
                }
                return Err(RenderError { given: l.span });
            },
        };
        if l.span.start > l.span.end {
            proof {
                lemma_first_invalid_skip(s, labels@, lo as int, i as int, hi as int);
            }
            return Err(RenderError { given: l.span });
        }
        proof {
            lemma_line_index_of(s, l.span.end as int);
            lemma_max_end_line_extend(s, labels@, lo as int, i as int);
        }
        slines.push(st.line);
        elines.push(en.line);
        if en.line > maxe {
            maxe = en.line;
        }
        i = i + 1;
    }
    proof {
        lemma_first_invalid_skip(s, labels@, lo as int, hi as int, hi as int);
    }
    Ok((slines, elines, maxe))
}

/// The opening rows of a snippet: the bordered locus row anchored at byte
/// offset `b0`, and an empty border row.
pub open spec fn snippet_header_text(
    s: Seq<char>,
    name: Seq<char>,
    b0: int,
    pad: int,
    cfg: Config,
) -> Seq<char> {
    let line0 = line_index_of(s, b0);
    let col0 = grapheme_count(
        s.subrange(char_index_at(s, line_start_of(s, line0)), char_index_at(s, b0)),
    );
    border_top_left_text(pad, cfg.source_border_top_left_char, cfg.source_border_top_char)
        + locus_text(name, line0, col0) + border_top_text(cfg.source_border_top_char) + seq!['\n']
        + border_left_text(None, pad, cfg.source_border_left_char) + seq!['\n']
}

/// Append the opening rows of a snippet: the locus border anchored at byte
/// offset `b0` of the file, then an empty border row.
#[verifier::loop_isolation(false)]
#[verifier::rlimit(100)]
#[verifier::spinoff_prover]
fn emit_snippet_header<F: Files>(
    files: &F,
    id: FileId,
    b0: usize,
    pad: usize,
    config: &Config,
    out: &mut Vec<Segment>,
)
    requires
        files.has_file(id),
        utf8_len(files.source_of(id)) < usize::MAX - 1,
        pad < usize::MAX,
        b0 as int <= utf8_len(files.source_of(id)),
        is_char_boundary_at(files.source_of(id), b0 as int),
    ensures
        segs_text(final(out)@) == segs_text(old(out)@) + snippet_header_text(
            files.source_of(id),
            files.name_of(id),
            b0 as int,
            pad as int,
            *config,
        ),
{
    let ghost s = files.source_of(id);
    let ghost base = out@;
    proof {
        lemma_line_starts_props(s);
        crate::text::lemma_prefix_utf8_len_mono(s, 0, s.len() as int);
        lemma_line_index_of(s, b0 as int);
    }
    let name = files.name(id);
    let loc0 = match files.location(id, b0) {
        Some(loc) => loc,
        None => {
            proof {
                assert(false);
            }
            return ;
        },
    };
    BorderTopLeft::new(pad).emit(out, config);
    Locus::new(name.as_str(), loc0).emit(out);
    BorderTop::new().emit(out, config);
    push_char_seg(out, None, '\n');
    BorderLeft::new(None, pad).emit(out, config);
    push_char_seg(out, None, '\n');
    proof {
        assert(segs_text(out@) =~= segs_text(base) + snippet_header_text(
            s,
            files.name_of(id),
            b0 as int,
            pad as int,
            *config,
        ));
    }
}

/// Render one snippet: the labels in `[lo, hi)` of `labels`, all pointing
/// into one file, laid out as a bordered source excerpt. Fails without
/// output when a label's byte range cannot be resolved.
#[verifier::loop_isolation(false)]
#[verifier::rlimit(100)]
#[verifier::spinoff_prover]
pub fn emit_snippet<F: Files>(
    files: &F,
    labels: &Vec<Label>,
    lo: usize,
    hi: usize,
    severity: Severity,
    config: &Config,
    out: &mut Vec<Segment>,
) -> (r: Result<(), RenderError>)
    requires
        lo < hi <= labels@.len(),
        files.has_file(labels@[lo as int].file_id),
        utf8_len(files.source_of(labels@[lo as int].file_id)) < usize::MAX - 1,
        forall|i: int|
            lo as int <= i < hi as int ==> (#[trigger] labels@[i]).file_id == labels@[lo as int].file_id,
    ensures
        ({
            let s = files.source_of(labels@[lo as int].file_id);
            let name = files.name_of(labels@[lo as int].file_id);
            match r {
                Ok(()) => {
                    &&& first_invalid_label(s, labels@, lo as int, hi as int) == hi as int
                    &&& segs_text(final(out)@) == segs_text(old(out)@) + snippet_text(
                        s,
                        name,
                        labels@,
                        lo as int,
                        hi as int,
                        group_pad(s, labels@, lo as int, hi as int),
                        *config,
                    )
                },
                Err(e) => {
                    &&& first_invalid_label(s, labels@, lo as int, hi as int) < hi as int
                    &&& e.given == labels@[first_invalid_label(s, labels@, lo as int, hi as int)].span
                    &&& final(out)@ == old(out)@
                },
            }
        }),
{
    let id = labels[lo].file_id;
    let ghost s = files.source_of(id);
    let ghost base = out@;
    proof {
        lemma_line_starts_props(s);
        crate::text::lemma_prefix_utf8_len_mono(s, 0, s.len() as int);
    }

    // Resolve every label to its start and end lines; the first label whose
    // range cannot be resolved aborts the snippet.
    let (slines, elines, maxe) = match resolve_labels(files, labels, lo, hi) {
        Ok(resolved) => resolved,
        Err(e) => {
            return Err(e);
        },
    };

    // The gutter is as wide as the largest displayed line number.
    let eof = files.source_span(id);
    let last_line = match files.location(id, eof.end) {
        Some(loc) => loc,
        None => {
            proof {
                lemma_last_line(s);
                assert(false);
            }
            return Err(RenderError { given: labels[lo].span });
        },
    };
    proof {
        lemma_last_line(s);
    }
    let last = last_line.line;
    let shown = if maxe + 1 <= last {
        maxe + 1
    } else {
        last
    };
    let pad = crate::text::decimal_width(shown + 1);
    let ghost gpad = group_pad(s, labels@, lo as int, hi as int);
    proof {
        crate::text::lemma_dec_digits_width_bound(shown as int + 1);
        assert(pad as int == gpad);
    }

    // The locus border: the file name anchored at the first label's start.
    emit_snippet_header(files, id, labels[lo].span.start, pad, config, out);
    let ghost pre_blocks = out@;

    // Lay the labels out: multi-line labels as blocks of their own, runs of
    // single-line labels sharing a line merged under one source line.
    let mut i = lo;
    while i < hi
        invariant
            lo <= i <= hi,
            segs_text(out@) + blocks_text(s, labels@, i as int, hi as int, gpad, *config)
                =~= segs_text(pre_blocks) + blocks_text(
                s,
                labels@,
                lo as int,
                hi as int,
                gpad,
                *config,
            ),
        decreases hi - i,
    {
        let ghost before = out@;
        let sl = slines[i - lo];
        let el = elines[i - lo];
        proof {
            lemma_line_index_of(s, labels@[i as int].span.start as int);
            lemma_line_index_of(s, labels@[i as int].span.end as int);
            crate::text::lemma_line_index_mono(
                s,
                labels@[i as int].span.start as int,
                labels@[i as int].span.end as int,
            );
        }
        if sl == el {
            // A run of single-line labels on this line.
            let mut j = i + 1;
            while j < hi && slines[j - lo] == sl && elines[j - lo] == sl
                invariant
                    i < j <= hi,
                    forall|m: int|
                        i as int <= m < j as int ==> #[trigger] slines@[m - lo as int] == sl
                            && elines@[m - lo as int] == sl,
                decreases hi - j,
            {
                j = j + 1;
            }
            proof {
                assert forall|m: int|
                    i as int <= m < j as int implies label_single_line(
                    s,
                    #[trigger] labels@[m],
                ) && line_index_of(s, labels@[m].span.start as int) == sl as int by {
                    assert(slines@[m - lo as int] == sl && elines@[m - lo as int] == sl);
                }
                lemma_same_line_run_is(s, labels@, i as int, j as int, hi as int, sl as int);
            }
            emit_single_block(files, id, labels, i, j, sl, last, severity, pad, config, out);
            proof {
                assert(segs_text(out@) =~= segs_text(before) + single_line_block(
                    s,
                    labels@,
                    i as int,
                    j as int,
                    gpad,
                    *config,
                ));
            }
            i = j;
        } else {
            emit_multi_block(files, id, labels, i, sl, el, last, severity, pad, config, out);
            proof {
                assert(segs_text(out@) =~= segs_text(before) + multi_line_block(
                    s,
                    labels@[i as int],
                    gpad,
                    *config,
                ));
            }
            i = i + 1;
        }
    }
    BorderLeft::new(None, pad).emit(out, config);
    push_char_seg(out, None, '\n');
    proof {
        assert(snippet_text(s, files.name_of(id), labels@, lo as int, hi as int, gpad, *config)
            =~= snippet_header_text(s, files.name_of(id), labels@[lo as int].span.start as int, gpad, *config)
            + blocks_text(s, labels@, lo as int, hi as int, gpad, *config)
            + border_left_text(None, gpad, config.source_border_left_char) + seq!['\n']);
        assert(segs_text(out@) =~= segs_text(base) + snippet_text(
            s,
            files.name_of(labels@[lo as int].file_id),
            labels@,
            lo as int,
            hi as int,
            gpad,
            *config,
        ));
    }
    Ok(())
}


/// The number of consecutive labels from `i` that point into file `fid`.
pub open spec fn file_run(labels: Seq<Label>, i: int, fid: FileId) -> int
    decreases labels.len() - i,
{
    if i < 0 || i >= labels.len() || labels[i].file_id != fid {
        0
    } else {
        1 + file_run(labels, i + 1, fid)
    }
}

/// A file run is non-negative and stays within the label list.
pub proof fn lemma_file_run_bounds(labels: Seq<Label>, i: int, fid: FileId)
    requires
        0 <= i,
    ensures
        0 <= file_run(labels, i, fid),
        i + file_run(labels, i, fid) <= (if i <= labels.len() {
            labels.len() as int
        } else {
            i
        }),
    decreases labels.len() - i,
{
    if 0 <= i < labels.len() && labels[i].file_id == fid {
        lemma_file_run_bounds(labels, i + 1, fid);
    }
}

/// A scan that stops at the first label of another file measures the run.
proof fn lemma_file_run_is(labels: Seq<Label>, i: int, j: int, fid: FileId)
    requires
        0 <= i <= j <= labels.len(),
        forall|m: int| i <= m < j ==> (#[trigger] labels[m]).file_id == fid,
        j < labels.len() ==> labels[j].file_id != fid,
    ensures
        file_run(labels, i, fid) == j - i,
    decreases j - i,
{
    if i < j {
        lemma_file_run_is(labels, i + 1, j, fid);
    }
}

/// The labels that point into one file, in encounter order.
pub open spec fn labels_of_file(labels: Seq<Label>, fid: FileId) -> Seq<Label> {
    labels.filter(|l: Label| l.file_id == fid)
}

proof fn lemma_labels_of_file_take(labels: Seq<Label>, fid: FileId, i: int)
    requires
        0 <= i < labels.len(),
    ensures
        labels_of_file(labels.take(i + 1), fid) == (if labels[i].file_id == fid {
            labels_of_file(labels.take(i), fid).push(labels[i])
        } else {
            labels_of_file(labels.take(i), fid)
        }),
{
    reveal(Seq::filter);
    assert(labels.take(i + 1).drop_last() =~= labels.take(i));
    assert(labels.take(i + 1).last() == labels[i]);
}

/// Every element of a filtered sequence is an element of the original.
proof fn lemma_filter_elem<A>(s: Seq<A>, pred: spec_fn(A) -> bool, k: int)
    requires
        0 <= k < s.filter(pred).len(),
    ensures
        s.contains(s.filter(pred)[k]),
    decreases s.len(),
{
    reveal(Seq::filter);
    if s.len() > 0 {
        let sub = s.drop_last().filter(pred);
        if k < sub.len() {
            lemma_filter_elem(s.drop_last(), pred, k);
            let m = choose|m: int| 0 <= m < s.drop_last().len() && s.drop_last()[m] == sub[k];
            assert(s[m] == s.filter(pred)[k]);
        } else {
            assert(s[s.len() - 1] == s.filter(pred)[k]);
        }
    }
}

/// The distinct files of the first `i` labels, in first-reference order.
pub open spec fn files_in_order(labels: Seq<Label>, i: int) -> Seq<FileId>
    decreases i,
{
    if i <= 0 {
        Seq::empty()
    } else {
        let prev = files_in_order(labels, i - 1);
        if prev.contains(labels[i - 1].file_id) {
            prev
        } else {
            prev.push(labels[i - 1].file_id)
        }
    }
}

/// The files of an order other than the given one, in their order.
pub open spec fn files_except(order: Seq<FileId>, pf: FileId) -> Seq<FileId> {
    order.filter(|f: FileId| f != pf)
}

proof fn lemma_files_except_take(order: Seq<FileId>, pf: FileId, i: int)
    requires
        0 <= i < order.len(),
    ensures
        files_except(order.take(i + 1), pf) == (if order[i] != pf {
            files_except(order.take(i), pf).push(order[i])
        } else {
            files_except(order.take(i), pf)
        }),
{
    reveal(Seq::filter);
    assert(order.take(i + 1).drop_last() =~= order.take(i));
    assert(order.take(i + 1).last() == order[i]);
}

/// The order in which files are rendered: the first primary label's file
/// first, then the remaining files in the order first referenced.
pub open spec fn group_order(labels: Seq<Label>) -> Seq<FileId> {
    let base = files_in_order(labels, labels.len() as int);
    if first_primary(labels, 0) < labels.len() {
        let pf = labels[first_primary(labels, 0)].file_id;
        seq![pf] + files_except(base, pf)
    } else {
        base
    }
}

/// The labels regrouped for rendering: for each file of `order` in turn,
/// that file's labels in encounter order.
pub open spec fn regrouped(labels: Seq<Label>, order: Seq<FileId>, j: int) -> Seq<Label>
    decreases order.len() - j,
    when j >= 0
{
    if j >= order.len() {
        Seq::empty()
    } else {
        labels_of_file(labels, order[j]) + regrouped(labels, order, j + 1)
    }
}

/// The labels partitioned by file for rendering: every label of one file
/// stands in that file's group, groups keep encounter order inside, and the
/// group of the first primary label's file comes first.
pub open spec fn ordered_labels(labels: Seq<Label>) -> Seq<Label> {
    regrouped(labels, group_order(labels), 0)
}

/// Every regrouped label is one of the original labels.
proof fn lemma_regrouped_elems(labels: Seq<Label>, order: Seq<FileId>, j: int)
    requires
        0 <= j,
    ensures
        forall|k: int|
            0 <= k < regrouped(labels, order, j).len() ==> labels.contains(
                #[trigger] regrouped(labels, order, j)[k],
            ),
    decreases order.len() - j,
{
    if j < order.len() {
        lemma_regrouped_elems(labels, order, j + 1);
        let chunk = labels_of_file(labels, order[j]);
        let rest = regrouped(labels, order, j + 1);
        assert forall|k: int|
            0 <= k < regrouped(labels, order, j).len() implies labels.contains(
            #[trigger] regrouped(labels, order, j)[k],
        ) by {
            if k < chunk.len() {
                lemma_filter_elem(labels, |l: Label| l.file_id == order[j], k);
                assert(regrouped(labels, order, j)[k] == chunk[k]);
            } else {
                assert(regrouped(labels, order, j)[k] == rest[k - chunk.len()]);
            }
        }
    }
}

/// Partition the labels by file for rendering: each file's labels together
/// in encounter order, the first primary label's file first, the other
/// files in first-reference order.
#[verifier::loop_isolation(false)]
#[verifier::rlimit(100)]
#[verifier::spinoff_prover]
fn regroup_labels(labels: &Vec<Label>) -> (r: Vec<Label>)
    ensures
        r@ == ordered_labels(labels@),
{
    let ghost lseq = labels@;

    // The distinct files, in first-reference order.
    let mut base: Vec<FileId> = Vec::new();
    let mut i: usize = 0;
    while i < labels.len()
        invariant
            0 <= i <= lseq.len(),
            base@ == files_in_order(lseq, i as int),
        decreases lseq.len() - i,
    {
        let fid = labels[i].file_id;
        let mut seen = false;
        let mut k: usize = 0;
        while k < base.len()
            invariant
                0 <= k <= base@.len(),
                seen <==> exists|t: int| 0 <= t < k as int && base@[t] == fid,
            decreases base@.len() - k,
        {
            if base[k] == fid {
                seen = true;
            }
            k = k + 1;
        }
        if !seen {
            base.push(fid);
        }
        i = i + 1;
    }

    // The first primary label's file opens the order.
    let mut p: usize = 0;
    while p < labels.len() && !matches!(labels[p].style, LabelStyle::Primary)
        invariant
            0 <= p <= lseq.len(),
            forall|q: int| 0 <= q < p as int ==> (#[trigger] lseq[q]).style != LabelStyle::Primary,
        decreases lseq.len() - p,
    {
        p = p + 1;
    }
    proof {
        crate::diagnostic::lemma_first_primary_skip(lseq, 0, p as int);
    }
    let mut order: Vec<FileId> = Vec::new();
    if p < labels.len() {
        let pf = labels[p].file_id;
        order.push(pf);
        let mut k: usize = 0;
        proof {
            assert(base@.take(0int) =~= Seq::<FileId>::empty());
            reveal(Seq::filter);
        }
        while k < base.len()
            invariant
                0 <= k <= base@.len(),
                order@ == seq![pf] + files_except(base@.take(k as int), pf),
            decreases base@.len() - k,
        {
            proof {
                lemma_files_except_take(base@, pf, k as int);
            }
            if !(base[k] == pf) {
                order.push(base[k]);
            }
            k = k + 1;
        }
        proof {
            assert(base@.take(base@.len() as int) =~= base@);
        }
    } else {
        order = base;
    }
    let ghost gorder = group_order(lseq);
    proof {
        assert(order@ == gorder);
    }

    // Each file's labels, in encounter order, file by file.
    let mut r: Vec<Label> = Vec::new();
    let mut j: usize = 0;
    while j < order.len()
        invariant
            0 <= j <= gorder.len(),
            gorder == order@,
            r@ + regrouped(lseq, gorder, j as int) =~= regrouped(lseq, gorder, 0),
        decreases gorder.len() - j,
    {
        let fid = order[j];
        let ghost before = r@;
        let mut m: usize = 0;
        proof {
            assert(lseq.take(0int) =~= Seq::<Label>::empty());
            reveal(Seq::filter);
        }
        while m < labels.len()
            invariant
                0 <= m <= lseq.len(),
                fid == gorder[j as int],
                r@ == before + labels_of_file(lseq.take(m as int), fid),
            decreases lseq.len() - m,
        {
            proof {
                lemma_labels_of_file_take(lseq, fid, m as int);
            }
            if labels[m].file_id == fid {
                let copied = labels[m].duplicate();
                r.push(copied);
            }
            m = m + 1;
        }
        proof {
            assert(lseq.take(lseq.len() as int) =~= lseq);
            assert(r@ + regrouped(lseq, gorder, j as int + 1) =~= regrouped(lseq, gorder, 0));
        }
        j = j + 1;
    }
    proof {
        assert(r@ =~= ordered_labels(lseq));
    }
    r
}

/// The snippets of a label list from `i` on: one snippet per maximal run of
/// consecutive labels pointing into the same file.
pub open spec fn groups_text<F: Files>(
    files: &F,
    labels: Seq<Label>,
    i: int,
    cfg: Config,
) -> Seq<char>
    decreases labels.len() - i,
    when i >= 0
    via groups_text_decreases::<F>
{
    if i >= labels.len() {
        Seq::empty()
    } else {
        let fid = labels[i].file_id;
        let n = file_run(labels, i, fid);
        snippet_text(
            files.source_of(fid),
            files.name_of(fid),
            labels,
            i,
            i + n,
            group_pad(files.source_of(fid), labels, i, i + n),
            cfg,
        ) + groups_text(files, labels, i + n, cfg)
    }
}

#[via_fn]
proof fn groups_text_decreases<F: Files>(files: &F, labels: Seq<Label>, i: int, cfg: Config) {
    if 0 <= i < labels.len() {
        lemma_file_run_bounds(labels, i + 1, labels[i].file_id);
    }
}

/// The notes of a diagnostic from `i` on, each as a bulleted block at the
/// left margin.
pub open spec fn notes_all_text(notes: Seq<String>, i: int, bullet: char) -> Seq<char>
    decreases notes.len() - i,
    when i >= 0
{
    if i >= notes.len() {
        Seq::empty()
    } else {
        note_text(0, bullet, notes[i]@) + notes_all_text(notes, i + 1, bullet)
    }
}

/// The index of the first label of `labels` (from `i` on) whose byte range
/// cannot be rendered in its own file, or the number of labels when all are
/// renderable.
pub open spec fn first_unrenderable<F: Files>(files: &F, labels: Seq<Label>, i: int) -> int
    decreases labels.len() - i,
    when i >= 0
{
    if i >= labels.len() {
        labels.len() as int
    } else if !label_valid(files.source_of(labels[i].file_id), labels[i]) {
        i
    } else {
        first_unrenderable(files, labels, i + 1)
    }
}

proof fn lemma_first_unrenderable_skip<F: Files>(
    files: &F,
    labels: Seq<Label>,
    lo: int,
    mid: int,
)
    requires
        0 <= lo <= mid <= labels.len(),
        forall|j: int|
            lo <= j < mid ==> label_valid(
                files.source_of((#[trigger] labels[j]).file_id),
                labels[j],
            ),
    ensures
        first_unrenderable(files, labels, lo) == first_unrenderable(files, labels, mid),
    decreases mid - lo,
{
    if lo < mid {
        lemma_first_unrenderable_skip(files, labels, lo + 1, mid);
    }
}

/// When every label of a run in one file is renderable, the run's first
/// failing index is the end of the run.
proof fn lemma_first_invalid_of_valid(s: Seq<char>, labels: Seq<Label>, lo: int, hi: int)
    requires
        0 <= lo <= hi <= labels.len(),
        forall|j: int| lo <= j < hi ==> label_valid(s, #[trigger] labels[j]),
    ensures
        first_invalid_label(s, labels, lo, hi) == hi,
    decreases hi - lo,
{
    if lo < hi {
        lemma_first_invalid_of_valid(s, labels, lo + 1, hi);
    }
}

/// The full rich rendering of a diagnostic: the header when it has a
/// title, one snippet per file — the labels partitioned by file in
/// encounter order, the first primary label's file first — the notes as
/// bulleted blocks, and a closing blank line.
pub open spec fn rich_text<F: Files>(files: &F, d: Diagnostic, cfg: Config) -> Seq<char> {
    (match d.title {
        Some(t) => header_text(d.severity, t) + seq!['\n'],
        None => Seq::<char>::empty(),
    }) + groups_text(files, ordered_labels(d.labels@), 0, cfg) + notes_all_text(
        d.notes@,
        0,
        cfg.note_bullet_char,
    ) + seq!['\n']
}

/// Output a richly formatted diagnostic, with source previews.
pub struct RichDiagnostic<'a, F: Files> {
    pub files: &'a F,
    pub diagnostic: &'a Diagnostic,
}

impl<'a, F: Files> RichDiagnostic<'a, F> {
    /// Pair a diagnostic with the files its labels point into.
    pub fn new(files: &'a F, diagnostic: &'a Diagnostic) -> (r: RichDiagnostic<'a, F>)
        ensures
            r.files == files,
            r.diagnostic == diagnostic,
    {
        RichDiagnostic { files, diagnostic }
    }

    /// Render the diagnostic: header, snippets, notes. Fails without output
    /// when a label's byte range cannot be resolved in its file.
    #[verifier::loop_isolation(false)]
    #[verifier::rlimit(100)]
    #[verifier::spinoff_prover]
    pub fn emit(&self, config: &Config, out: &mut Vec<Segment>) -> (r: Result<(), RenderError>)
        requires
            forall|i: int|
                0 <= i < self.diagnostic.labels@.len() ==> self.files.has_file(
                    (#[trigger] self.diagnostic.labels@[i]).file_id,
                ) && utf8_len(self.files.source_of(self.diagnostic.labels@[i].file_id))
                    < usize::MAX - 1,
        ensures
            ({
                let labels = self.diagnostic.labels@;
                match r {
                    Ok(()) => {
                        &&& first_unrenderable(self.files, labels, 0) == labels.len()
                        &&& segs_text(final(out)@) == segs_text(old(out)@) + rich_text(
                            self.files,
                            *self.diagnostic,
                            *config,
                        )
                    },
                    Err(e) => {
                        &&& first_unrenderable(self.files, labels, 0) < labels.len()
                        &&& e.given == labels[first_unrenderable(self.files, labels, 0)].span
                        &&& final(out)@ == old(out)@
                    },
                }
            }),
    {
        let files = self.files;
        let d = self.diagnostic;
        let ghost labels = d.labels@;
        let ghost base = out@;

        // Validate every label before any output is produced.
        let mut i: usize = 0;
        while i < d.labels.len()
            invariant
                0 <= i <= labels.len(),
                forall|j: int|
                    0 <= j < i as int ==> label_valid(
                        files.source_of((#[trigger] labels[j]).file_id),
                        labels[j],
                    ),
            decreases labels.len() - i,
        {
            let l = &d.labels[i];
            let valid = match files.location(l.file_id, l.span.start) {
                Some(_) => {
                    match files.location(l.file_id, l.span.end) {
                        Some(_) => l.span.start <= l.span.end,
                        None => false,
                    }
                },
                None => false,
            };
            if !valid {
                proof {
                    lemma_first_unrenderable_skip(files, labels, 0, i as int);
                }
                return Err(RenderError { given: l.span });
            }
            i = i + 1;
        }
        proof {
            lemma_first_unrenderable_skip(files, labels, 0, labels.len() as int);
        }

        // Header.
        match &d.title {
            Some(title) => {
                Header::new(d.severity, title).emit(out, config);
                NewLine::new().emit(out);
            },
            None => {},
        }
        let ghost after_header = out@;

        // Partition the labels by file, the primary label's file first, and
        // render one snippet per file.
        let ordered = regroup_labels(&d.labels);
        let ghost oseq = ordered_labels(labels);
        proof {
            lemma_regrouped_elems(labels, group_order(labels), 0);
            assert forall|k: int| 0 <= k < oseq.len() implies self.files.has_file(
                (#[trigger] oseq[k]).file_id,
            ) && utf8_len(self.files.source_of(oseq[k].file_id)) < usize::MAX - 1 && label_valid(
                self.files.source_of(oseq[k].file_id),
                oseq[k],
            ) by {
                assert(labels.contains(oseq[k]));
                let m = choose|m: int| 0 <= m < labels.len() && labels[m] == oseq[k];
                assert(labels[m].file_id == oseq[k].file_id);
            }
        }
        let mut i: usize = 0;
        while i < ordered.len()
            invariant
                0 <= i <= oseq.len(),
                oseq == ordered@,
                segs_text(out@) + groups_text(files, oseq, i as int, *config) =~= segs_text(
                    after_header,
                ) + groups_text(files, oseq, 0, *config),
            decreases oseq.len() - i,
        {
            let fid = ordered[i].file_id;
            let mut j = i + 1;
            while j < ordered.len() && ordered[j].file_id == fid
                invariant
                    i < j <= oseq.len(),
                    forall|m: int| i as int <= m < j as int ==> (#[trigger] oseq[m]).file_id == fid,
                decreases oseq.len() - j,
            {
                j = j + 1;
            }
            proof {
                lemma_file_run_is(oseq, i as int, j as int, fid);
                lemma_first_invalid_of_valid(
                    files.source_of(fid),
                    oseq,
                    i as int,
                    j as int,
                );
            }
            let ghost before = out@;
            match emit_snippet(files, &ordered, i, j, d.severity, config, out) {
                Ok(()) => {},
                Err(_) => {
                    proof {
                        assert(false);
                    }
                    return Err(RenderError { given: d.labels[0].span });
                },
            }
            i = j;
        }

        // Notes, then a closing blank line.
        let ghost after_groups = out@;
        let mut i: usize = 0;
        while i < d.notes.len()
            invariant
                0 <= i <= d.notes@.len(),
                segs_text(out@) + notes_all_text(d.notes@, i as int, config.note_bullet_char)
                    =~= segs_text(after_groups) + notes_all_text(
                    d.notes@,
                    0,
                    config.note_bullet_char,
                ),
            decreases d.notes@.len() - i,
        {
            Note::new(0, d.notes[i].as_str()).emit(out, config);
            i = i + 1;
        }
        NewLine::new().emit(out);
        proof {
            assert(segs_text(out@) =~= segs_text(base) + rich_text(files, *d, *config));
        }
        Ok(())
    }
}

/// The one-line rendering of a diagnostic: the locus of its first primary
/// label, then the header; a diagnostic without a title shows only its
/// severity name.
pub open spec fn short_text<F: Files>(files: &F, d: Diagnostic) -> Seq<char> {
    let labels = d.labels@;
    let p = first_primary(labels, 0);
    let fid = labels[p].file_id;
    let s = files.source_of(fid);
    let b = labels[p].span.start as int;
    let line = line_index_of(s, b);
    let col = grapheme_count(
        s.subrange(char_index_at(s, line_start_of(s, line)), char_index_at(s, b)),
    );
    locus_text(files.name_of(fid), line, col) + ": "@ + (match d.title {
        Some(t) => header_text(d.severity, t),
        None => severity_name_of(d.severity) + seq!['\n'],
    })
}

/// Output a short diagnostic: locus, severity, and message on one line.
pub struct ShortDiagnostic<'a, F: Files> {
    pub files: &'a F,
    pub diagnostic: &'a Diagnostic,
}

impl<'a, F: Files> ShortDiagnostic<'a, F> {
    /// Pair a diagnostic with the files its labels point into.
    ///
    /// The short form needs a primary label for its locus; a diagnostic
    /// without one is a caller error, stated as a precondition.
    pub fn new(files: &'a F, diagnostic: &'a Diagnostic) -> (r: ShortDiagnostic<'a, F>)
        ensures
            r.files == files,
            r.diagnostic == diagnostic,
    {
        ShortDiagnostic { files, diagnostic }
    }

    /// The name of the file the first primary label points into.
    pub fn file_name(&self) -> (r: String)
        requires
            first_primary(self.diagnostic.labels@, 0) < self.diagnostic.labels@.len(),
            self.files.has_file(
                self.diagnostic.labels@[first_primary(self.diagnostic.labels@, 0)].file_id,
            ),
        ensures
            r@ == self.files.name_of(
                self.diagnostic.labels@[first_primary(self.diagnostic.labels@, 0)].file_id,
            ),
    {
        let p = crate::diagnostic::first_primary_index(&self.diagnostic.labels);
        self.files.name(self.diagnostic.labels[p].file_id)
    }

    /// The location of the first primary label's start, when it can be
    /// resolved.
    pub fn primary_location(&self) -> (r: Option<Location>)
        requires
            first_primary(self.diagnostic.labels@, 0) < self.diagnostic.labels@.len(),
            self.files.has_file(
                self.diagnostic.labels@[first_primary(self.diagnostic.labels@, 0)].file_id,
            ),
        ensures
            ({
                let labels = self.diagnostic.labels@;
                let p = first_primary(labels, 0);
                let s = self.files.source_of(labels[p].file_id);
                let b = labels[p].span.start as int;
                match r {
                    Some(loc) => {
                        &&& b <= utf8_len(s)
                        &&& is_char_boundary_at(s, b)
                        &&& loc.line as int == line_index_of(s, b)
                        &&& loc.column as int <= utf8_len(s)
                        &&& loc.column as int == grapheme_count(
                            s.subrange(
                                char_index_at(s, line_start_of(s, line_index_of(s, b))),
                                char_index_at(s, b),
                            ),
                        )
                    },
                    None => !(b <= utf8_len(s) && is_char_boundary_at(s, b)),
                }
            }),
    {
        let p = crate::diagnostic::first_primary_index(&self.diagnostic.labels);
        let label = &self.diagnostic.labels[p];
        self.files.location(label.file_id, label.span.start)
    }

    /// Render the one-line form: `name:line:column: severity[code]: title`.
    pub fn emit(&self, config: &Config, out: &mut Vec<Segment>)
        requires
            ({
                let labels = self.diagnostic.labels@;
                let p = first_primary(labels, 0);
                &&& p < labels.len()
                &&& self.files.has_file(labels[p].file_id)
                &&& utf8_len(self.files.source_of(labels[p].file_id)) < usize::MAX - 1
                &&& labels[p].span.start as int <= utf8_len(self.files.source_of(labels[p].file_id))
                &&& is_char_boundary_at(
                    self.files.source_of(labels[p].file_id),
                    labels[p].span.start as int,
                )
            }),
        ensures
            segs_text(final(out)@) == segs_text(old(out)@) + short_text(
                self.files,
                *self.diagnostic,
            ),
    {
        let ghost base = out@;
        let ghost labels = self.diagnostic.labels@;
        let ghost p = first_primary(labels, 0);
        let ghost s = self.files.source_of(labels[p].file_id);
        proof {
            lemma_line_starts_props(s);
            lemma_line_index_of(s, labels[p].span.start as int);
            crate::text::lemma_prefix_utf8_len_mono(s, 0, s.len() as int);
        }
        let name = self.file_name();
        let loc = match self.primary_location() {
            Some(loc) => loc,
            None => {
                proof {
                    assert(false);
                }
                return ;
            },
        };
        Locus::new(name.as_str(), loc).emit(out);
        push_str_seg(out, None, ": ");
        match &self.diagnostic.title {
            Some(title) => {
                Header::new(self.diagnostic.severity, title).emit(out, config);
            },
            None => {
                let style = Some(config.styles.header(self.diagnostic.severity));
                push_str_seg(out, style, Header::new(self.diagnostic.severity, &Title {
                    code: None,
                    message: String::new(),
                }).severity_name());
                push_char_seg(out, None, '\n');
            },
        }
        proof {
            assert(segs_text(out@) =~= segs_text(base) + short_text(
                self.files,
                *self.diagnostic,
            ));
        }
    }
}

/// Render a diagnostic into styled segments using the configured display
/// style: a rich snippet view, or a one-line summary.
///
/// The rich view partitions the labels by file, keeping encounter order
/// within each file, and renders one snippet per file — the first primary
/// label's file first, the rest in the order first referenced.
pub fn emit<F: Files>(
    files: &F,
    config: &Config,
    diagnostic: &Diagnostic,
    out: &mut Vec<Segment>,
) -> (r: Result<(), RenderError>)
    requires
        forall|i: int|
            0 <= i < diagnostic.labels@.len() ==> files.has_file(
                (#[trigger] diagnostic.labels@[i]).file_id,
            ) && utf8_len(files.source_of(diagnostic.labels@[i].file_id)) < usize::MAX - 1,
        config.display_style == DisplayStyle::Short ==> ({
            let labels = diagnostic.labels@;
            let p = first_primary(labels, 0);
            &&& p < labels.len()
            &&& labels[p].span.start as int <= utf8_len(files.source_of(labels[p].file_id))
            &&& is_char_boundary_at(
                files.source_of(labels[p].file_id),
                labels[p].span.start as int,
            )
        }),
    ensures
        ({
            let labels = diagnostic.labels@;
            match config.display_style {
                DisplayStyle::Rich => match r {
                    Ok(()) => {
                        &&& first_unrenderable(files, labels, 0) == labels.len()
                        &&& segs_text(final(out)@) == segs_text(old(out)@) + rich_text(
                            files,
                            *diagnostic,
                            *config,
                        )
                    },
                    Err(e) => {
                        &&& first_unrenderable(files, labels, 0) < labels.len()
                        &&& e.given == labels[first_unrenderable(files, labels, 0)].span
                        &&& final(out)@ == old(out)@
                    },
                },
                DisplayStyle::Short => r is Ok && segs_text(final(out)@) == segs_text(old(out)@)
                    + short_text(files, *diagnostic),
            }
        }),
{
    match config.display_style {
        DisplayStyle::Rich => RichDiagnostic::new(files, diagnostic).emit(config, out),
        DisplayStyle::Short => {
            proof {
                crate::diagnostic::lemma_first_primary_in_range(diagnostic.labels@, 0);
            }
            ShortDiagnostic::new(files, diagnostic).emit(config, out);
            Ok(())
        },
    }
}

} // verus!

//! Rendering configuration: display style, tab width, border and caret
//! glyphs, and the color styles applied to each part of a diagnostic.

use crate::diagnostic::Severity;
use crate::unicode::{char_display_width, display_width_of_char};
use vstd::prelude::*;

verus! {

/// The colors a diagnostic renderer distinguishes.
#[derive(Copy, Clone, PartialEq, Eq, Structural, Debug)]
pub enum Color {
    Red,
    Yellow,
    Green,
    Cyan,
    Blue,
}

/// A terminal style: an optional foreground color, and bold and intense
/// flags.
#[derive(Copy, Clone, PartialEq, Eq, Structural, Debug)]
pub struct ColorSpec {
    pub fg: Option<Color>,
    pub bold: bool,
    pub intense: bool,
}

impl ColorSpec {
    /// A style with the given foreground color.
    pub fn colored(color: Color) -> (c: ColorSpec)
        ensures
            c == (ColorSpec { fg: Some(color), bold: false, intense: false }),
    {
        ColorSpec { fg: Some(color), bold: false, intense: false }
    }

    /// A bold, intense style with the given foreground color.
    pub fn header(color: Color) -> (c: ColorSpec)
        ensures
            c == (ColorSpec { fg: Some(color), bold: true, intense: true }),
    {
        ColorSpec { fg: Some(color), bold: true, intense: true }
    }
}

/// Styles to use when rendering the diagnostic.
#[derive(Copy, Clone, PartialEq, Eq, Structural, Debug)]
pub struct Styles {
    /// The style to use when rendering bug headers.
    pub header_bug: ColorSpec,
    /// The style to use when rendering error headers.
    pub header_error: ColorSpec,
    /// The style to use when rendering warning headers.
    pub header_warning: ColorSpec,
    /// The style to use when rendering note headers.
    pub header_note: ColorSpec,
    /// The style to use when rendering help headers.
    pub header_help: ColorSpec,
    /// The style to use for the main diagnostic message.
    pub header_message: ColorSpec,
    /// The style to use when rendering bug labels.
    pub primary_label_bug: ColorSpec,
    /// The style to use when rendering error labels.
    pub primary_label_error: ColorSpec,
    /// The style to use when rendering warning labels.
    pub primary_label_warning: ColorSpec,
    /// The style to use when rendering note labels.
    pub primary_label_note: ColorSpec,
    /// The style to use when rendering help labels.
    pub primary_label_help: ColorSpec,
    /// The style to use when rendering secondary labels.
    pub secondary_label: ColorSpec,
    /// The style to use when rendering the line numbers.
    pub line_number: ColorSpec,
    /// The style to use when rendering the source code borders.
    pub source_border: ColorSpec,
    /// The style to use when rendering the note bullets.
    pub note_bullet: ColorSpec,
}

/// The header style for a severity, as a function of the style table.
pub open spec fn header_style_of(styles: Styles, severity: Severity) -> ColorSpec {
    match severity {
        Severity::Bug => styles.header_bug,
        Severity::Error => styles.header_error,
        Severity::Warning => styles.header_warning,
        Severity::Note => styles.header_note,
        Severity::Help => styles.header_help,
    }
}

/// The primary-label style for a severity, as a function of the style
/// table.
pub open spec fn primary_label_style_of(styles: Styles, severity: Severity) -> ColorSpec {
    match severity {
        Severity::Bug => styles.primary_label_bug,
        Severity::Error => styles.primary_label_error,
        Severity::Warning => styles.primary_label_warning,
        Severity::Note => styles.primary_label_note,
        Severity::Help => styles.primary_label_help,
    }
}

impl Styles {
    /// The style used to mark a header at a given severity.
    pub fn header(&self, severity: Severity) -> (r: ColorSpec)
        ensures
            r == header_style_of(*self, severity),
    {
        match severity {
            Severity::Bug => self.header_bug,
            Severity::Error => self.header_error,
            Severity::Warning => self.header_warning,
            Severity::Note => self.header_note,
            Severity::Help => self.header_help,
        }
    }

    /// The style used to mark a primary label at a given severity.
    pub fn primary_label(&self, severity: Severity) -> (r: ColorSpec)
        ensures
            r == primary_label_style_of(*self, severity),
    {
        match severity {
            Severity::Bug => self.primary_label_bug,
            Severity::Error => self.primary_label_error,
            Severity::Warning => self.primary_label_warning,
            Severity::Note => self.primary_label_note,
            Severity::Help => self.primary_label_help,
        }
    }

    /// The default style table, with headers bold and intense in a color
    /// chosen by severity, labels in the same colors, and borders in the
    /// given color.
    pub fn with_blue(blue: Color) -> (r: Styles)
        ensures
            r == styles_with_blue(blue),
    {
        Styles {
            header_bug: ColorSpec::header(Color::Red),
            header_error: ColorSpec::header(Color::Red),
            header_warning: ColorSpec::header(Color::Yellow),
            header_note: ColorSpec::header(Color::Green),
            header_help: ColorSpec::header(Color::Cyan),
            header_message: ColorSpec { fg: None, bold: true, intense: true },
            primary_label_bug: ColorSpec::colored(Color::Red),
            primary_label_error: ColorSpec::colored(Color::Red),
            primary_label_warning: ColorSpec::colored(Color::Yellow),
            primary_label_note: ColorSpec::colored(Color::Green),
            primary_label_help: ColorSpec::colored(Color::Cyan),
            secondary_label: ColorSpec::colored(blue),
            line_number: ColorSpec::colored(blue),
            source_border: ColorSpec::colored(blue),
            note_bullet: ColorSpec::colored(blue),
        }
    }
}

/// The style table that `Styles::with_blue` builds: severity-colored bold
/// headers, severity-colored labels, and borders, line numbers and bullets
/// in the given color.
pub open spec fn styles_with_blue(blue: Color) -> Styles {
    Styles {
        header_bug: ColorSpec { fg: Some(Color::Red), bold: true, intense: true },
        header_error: ColorSpec { fg: Some(Color::Red), bold: true, intense: true },
        header_warning: ColorSpec { fg: Some(Color::Yellow), bold: true, intense: true },
        header_note: ColorSpec { fg: Some(Color::Green), bold: true, intense: true },
        header_help: ColorSpec { fg: Some(Color::Cyan), bold: true, intense: true },
        header_message: ColorSpec { fg: None, bold: true, intense: true },
        primary_label_bug: ColorSpec { fg: Some(Color::Red), bold: false, intense: false },
        primary_label_error: ColorSpec { fg: Some(Color::Red), bold: false, intense: false },
        primary_label_warning: ColorSpec { fg: Some(Color::Yellow), bold: false, intense: false },
        primary_label_note: ColorSpec { fg: Some(Color::Green), bold: false, intense: false },
        primary_label_help: ColorSpec { fg: Some(Color::Cyan), bold: false, intense: false },
        secondary_label: ColorSpec { fg: Some(blue), bold: false, intense: false },
        line_number: ColorSpec { fg: Some(blue), bold: false, intense: false },
        source_border: ColorSpec { fg: Some(blue), bold: false, intense: false },
        note_bullet: ColorSpec { fg: Some(blue), bold: false, intense: false },
    }
}

impl Default for Styles {
    /// The default style table, with blue borders.
    fn default() -> (r: Styles)
        ensures
            r == styles_with_blue(Color::Blue),
    {
        Styles::with_blue(Color::Blue)
    }
}

/// The display style to use when rendering diagnostics: a richly formatted
/// source preview, or a single summary line.
#[derive(Copy, Clone, PartialEq, Eq, Structural, Debug)]
pub enum DisplayStyle {
    /// Output a richly formatted diagnostic, with source code previews.
    Rich,
    /// Output a short diagnostic: locus, severity, and message on one line.
    Short,
}

/// Configures how a diagnostic is rendered.
#[derive(Copy, Clone, PartialEq, Eq, Structural, Debug)]
pub struct Config {
    /// The display style to use when rendering diagnostics.
    pub display_style: DisplayStyle,
    /// Column width of tabs.
    pub tab_width: usize,
    /// Styles to use when rendering the diagnostic.
    pub styles: Styles,
    /// The character for the top-left corner of the source border.
    pub source_border_top_left_char: char,
    /// The character for the top border of the source.
    pub source_border_top_char: char,
    /// The character for the left border of the source.
    pub source_border_left_char: char,
    /// The character that marks a primary label.
    pub primary_caret_char: char,
    /// The character that marks a secondary label.
    pub secondary_caret_char: char,
    /// The character that closes a multi-line primary label.
    pub multiline_primary_caret_char: char,
    /// The character that closes a multi-line secondary label.
    pub multiline_secondary_caret_char: char,
    /// The character for the top-left corner of a multi-line label.
    pub multiline_top_left_char: char,
    /// The character for the left margin of a multi-line label.
    pub multiline_left_char: char,
    /// The character for the horizontal run that closes a multi-line label.
    pub multiline_bottom_char: char,
    /// The character for the bottom-left corner of a multi-line label.
    pub multiline_bottom_left_char: char,
    /// The character for the note bullet.
    pub note_bullet_char: char,
}

impl Default for Config {
    /// The default configuration: rich display, four-column tabs, the
    /// default styles, and the usual box-drawing glyphs.
    fn default() -> (r: Config)
        ensures
            r.display_style == DisplayStyle::Rich,
            r.tab_width == 4,
            r.styles == styles_with_blue(Color::Blue),
            r.source_border_top_left_char == '\u{250c}',
            r.source_border_top_char == '\u{2500}',
            r.source_border_left_char == '\u{2502}',
            r.primary_caret_char == '^',
            r.secondary_caret_char == '-',
            r.multiline_primary_caret_char == '^',
            r.multiline_secondary_caret_char == '\'',
            r.multiline_top_left_char == '\u{256d}',
            r.multiline_left_char == '\u{2502}',
            r.multiline_bottom_char == '\u{2500}',
            r.multiline_bottom_left_char == '\u{2570}',
            r.note_bullet_char == '=',
    {
        Config {
            display_style: DisplayStyle::Rich,
            tab_width: 4,
            styles: Styles::with_blue(Color::Blue),
            source_border_top_left_char: '\u{250c}',
            source_border_top_char: '\u{2500}',
            source_border_left_char: '\u{2502}',
            primary_caret_char: '^',
            secondary_caret_char: '-',
            multiline_primary_caret_char: '^',
            multiline_secondary_caret_char: '\'',
            multiline_top_left_char: '\u{256d}',
            multiline_left_char: '\u{2502}',
            multiline_bottom_char: '\u{2500}',
            multiline_bottom_left_char: '\u{2570}',
            note_bullet_char: '=',
        }
    }
}

/// The column width of one character under a tab width: a tab occupies
/// `tab` columns, any other character its display width.
pub open spec fn char_column_width(c: char, tab: int) -> int {
    if c == '\t' {
        tab
    } else {
        char_display_width(c)
    }
}

/// The column width of the first `k` characters of `s` under a tab width.
pub open spec fn prefix_column_width(s: Seq<char>, tab: int, k: int) -> int
    decreases k,
{
    if k <= 0 {
        0
    } else {
        prefix_column_width(s, tab, k - 1) + char_column_width(s[k - 1], tab)
    }
}

/// The column width of a text under a tab width.
pub open spec fn column_width(s: Seq<char>, tab: int) -> int {
    prefix_column_width(s, tab, s.len() as int)
}

impl Config {
    /// Measure the column width of a string under this configuration's tab
    /// width. A width too large for `usize` saturates.
    pub fn width(&self, s: &str) -> (r: usize)
        ensures
            r as int == (if column_width(s@, self.tab_width as int) <= usize::MAX as int {
                column_width(s@, self.tab_width as int)
            } else {
                usize::MAX as int
            }),
    {
        let ghost sq = s@;
        let ghost tab = self.tab_width as int;
        let n = s.unicode_len();
        let mut acc: usize = 0;
        let mut k: usize = 0;
        while k < n
            invariant
                sq == s@,
                tab == self.tab_width as int,
                n == sq.len(),
                0 <= k <= n,
                acc as int == (if prefix_column_width(sq, tab, k as int) <= usize::MAX as int {
                    prefix_column_width(sq, tab, k as int)
                } else {
                    usize::MAX as int
                }),
                prefix_column_width(sq, tab, k as int) >= acc as int,
            decreases n - k,
        {
            let c = s.get_char(k);
            let w = if c == '\t' {
                self.tab_width
            } else {
                display_width_of_char(c)
            };
            proof {
                assert(w as int == char_column_width(sq[k as int], tab));
            }
            acc = if acc > usize::MAX - w {
                usize::MAX
            } else {
                acc + w
            };
            k = k + 1;
        }
        acc
    }

    /// The spaces that stand in for one tab character.
    pub fn tab_padding(&self) -> (r: String)
        ensures
            r@ == crate::render::spaces(self.tab_width as int),
    {
        crate::render::make_spaces(self.tab_width)
    }
}

/// The number of tab characters among the first `k` characters of `s`.
pub open spec fn prefix_tab_count(s: Seq<char>, k: int) -> int
    decreases k,
{
    if k <= 0 {
        0
    } else {
        prefix_tab_count(s, k - 1) + (if s[k - 1] == '\t' {
            1int
        } else {
            0int
        })
    }
}

proof fn lemma_width_difference(s: Seq<char>, t1: int, t2: int, k: int)
    requires
        0 <= k,
    ensures
        prefix_column_width(s, t1, k) - prefix_column_width(s, t2, k) == prefix_tab_count(s, k) * (
        t1 - t2),
        prefix_tab_count(s, k) >= 0,
    decreases k,
{
    if k > 0 {
        lemma_width_difference(s, t1, t2, k - 1);
        let c = prefix_tab_count(s, k - 1);
        if s[k - 1] == '\t' {
            assert((c + 1) * (t1 - t2) == c * (t1 - t2) + (t1 - t2)) by (nonlinear_arith);
        }
    }
}

proof fn lemma_no_tabs_count(s: Seq<char>, k: int)
    requires
        0 <= k <= s.len(),
    ensures
        prefix_tab_count(s, k) == 0 <==> (forall|i: int| 0 <= i < k ==> s[i] != '\t'),
    decreases k,
{
    if k > 0 {
        lemma_no_tabs_count(s, k - 1);
        lemma_width_difference(s, 0, 0, k - 1);
        if prefix_tab_count(s, k) == 0 {
            assert forall|i: int| 0 <= i < k implies s[i] != '\t' by {
                if i < k - 1 {
                } else {
                }
            }
        }
    }
}

/// Tab expansion law: changing the tab width changes the column width of a
/// text if and only if the text contains a tab. A caret's printed column is
/// the column width of the expanded text before it, so changing `tab_width`
/// moves a caret exactly when a tab precedes it.
pub proof fn lemma_tab_width_dependence(s: Seq<char>, t1: int, t2: int)
    requires
        t1 != t2,
    ensures
        column_width(s, t1) == column_width(s, t2) <==> (forall|i: int|
            0 <= i < s.len() ==> s[i] != '\t'),
{
    let k = s.len() as int;
    lemma_width_difference(s, t1, t2, k);
    lemma_no_tabs_count(s, k);
    let c = prefix_tab_count(s, k);
    assert(c * (t1 - t2) == 0 <==> c == 0) by (nonlinear_arith)
        requires
            t1 != t2,
    ;
}

} // verus!

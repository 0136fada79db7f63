//! Editor-protocol interop: positions counted in UTF-16 code units per
//! line, conversions between them and byte indices, and the translation of
//! a diagnostic into an editor-protocol diagnostic.

use crate::diagnostic::{first_primary, Diagnostic, Label, LabelStyle, Severity};
use crate::file::{FileId, Files, LineIndexOutOfBoundsError, LocationError, SpanOutOfBoundsError};
use crate::text::{lines_of, trimmed_end};
use crate::text::{
    char_index_at, is_char_boundary_at, is_utf16_boundary_at, lemma_char_index_at,
    lemma_line_box, lemma_line_index_of, lemma_prefix_utf16_le_utf8, lemma_prefix_utf16_len_mono,
    lemma_prefix_utf16_len_subrange, lemma_prefix_utf8_len_mono, lemma_prefix_utf8_len_subrange,
    lemma_utf16_char_index_at, line_chars_of, line_end_of, line_index_of, line_start_of,
    line_starts_of, prefix_utf16_len, prefix_utf8_len, utf16_char_index_at, utf16_len,
    utf16_width_of_char, utf8_len, utf8_width_of_char,
};
use crate::Span;
use vstd::prelude::*;

verus! {

/// A position in a text as editor protocols count it: a zero-based line,
/// and a character offset into the line counted in UTF-16 code units.
#[derive(Copy, Clone, Debug, PartialEq, Eq, Structural)]
pub struct Position {
    pub line: usize,
    pub character: usize,
}

/// A range between two protocol positions.
#[derive(Copy, Clone, Debug, PartialEq, Eq, Structural)]
pub struct Range {
    pub start: Position,
    pub end: Position,
}

/// Errors of the editor-protocol bridge.
#[derive(Debug, PartialEq, Eq)]
pub enum LspFilesError {
    /// A UTF-16 character offset lies beyond the end of its line.
    ColumnOutOfBounds { given: usize, max: usize },
    /// A requested line lies beyond the file's line count.
    LineIndexOutOfBounds(LineIndexOutOfBoundsError),
    /// A byte index could not be resolved to a location.
    Location(LocationError),
    /// A slice request reached outside the file.
    SpanOutOfBounds(SpanOutOfBoundsError),
    /// No URI could be resolved for a file referenced by a label.
    UnableToCorrelateFilename(String),
}

impl From<LineIndexOutOfBoundsError> for LspFilesError {
    fn from(e: LineIndexOutOfBoundsError) -> (r: LspFilesError) {
        LspFilesError::LineIndexOutOfBounds(e)
    }
}

impl vstd::std_specs::convert::FromSpecImpl<LineIndexOutOfBoundsError> for LspFilesError {
    open spec fn obeys_from_spec() -> bool {
        true
    }

    open spec fn from_spec(e: LineIndexOutOfBoundsError) -> LspFilesError {
        LspFilesError::LineIndexOutOfBounds(e)
    }
}

impl From<LocationError> for LspFilesError {
    fn from(e: LocationError) -> (r: LspFilesError) {
        LspFilesError::Location(e)
    }
}

impl vstd::std_specs::convert::FromSpecImpl<LocationError> for LspFilesError {
    open spec fn obeys_from_spec() -> bool {
        true
    }

    open spec fn from_spec(e: LocationError) -> LspFilesError {
        LspFilesError::Location(e)
    }
}

impl From<SpanOutOfBoundsError> for LspFilesError {
    fn from(e: SpanOutOfBoundsError) -> (r: LspFilesError) {
        LspFilesError::SpanOutOfBounds(e)
    }
}

impl vstd::std_specs::convert::FromSpecImpl<SpanOutOfBoundsError> for LspFilesError {
    open spec fn obeys_from_spec() -> bool {
        true
    }

    open spec fn from_spec(e: SpanOutOfBoundsError) -> LspFilesError {
        LspFilesError::SpanOutOfBounds(e)
    }
}

/// The text of an editor-protocol bridge error.
pub open spec fn lsp_error_message_of(e: LspFilesError) -> Seq<char> {
    match e {
        LspFilesError::ColumnOutOfBounds { given, max } => "Column out of bounds - given: "@
            + crate::text::dec_digits(given as int) + ", max: "@ + crate::text::dec_digits(
            max as int,
        ),
        LspFilesError::LineIndexOutOfBounds(inner) => crate::file::line_index_error_message_of(
            inner,
        ),
        LspFilesError::Location(inner) => crate::file::location_error_message_of(inner),
        LspFilesError::SpanOutOfBounds(inner) => crate::file::span_error_message_of(inner),
        LspFilesError::UnableToCorrelateFilename(name) => "Unable to correlate filename `"@
            + name@ + "` to url"@,
    }
}

impl LspFilesError {
    /// The error as text.
    pub fn message(&self) -> (r: String)
        ensures
            r@ == lsp_error_message_of(*self),
    {
        match self {
            LspFilesError::ColumnOutOfBounds { given, max } => {
                let mut r = "Column out of bounds - given: ".to_owned();
                crate::text::push_decimal(&mut r, *given);
                r.append(", max: ");
                crate::text::push_decimal(&mut r, *max);
                proof {
                    assert(r@ =~= lsp_error_message_of(*self));
                }
                r
            },
            LspFilesError::LineIndexOutOfBounds(inner) => inner.message(),
            LspFilesError::Location(inner) => inner.message(),
            LspFilesError::SpanOutOfBounds(inner) => inner.message(),
            LspFilesError::UnableToCorrelateFilename(name) => {
                let mut r = "Unable to correlate filename `".to_owned();
                r.append(name.as_str());
                r.append("` to url");
                proof {
                    assert(r@ =~= lsp_error_message_of(*self));
                }
                r
            },
        }
    }
}

/// True when byte offset `b` can be resolved to a protocol position: it is
/// within the text and on a character boundary.
pub open spec fn position_valid(s: Seq<char>, b: int) -> bool {
    &&& 0 <= b <= utf8_len(s)
    &&& is_char_boundary_at(s, b)
}

/// The line of the protocol position of byte offset `b`.
pub open spec fn position_line_of(s: Seq<char>, b: int) -> int {
    line_index_of(s, b)
}

/// The UTF-16 character offset of the protocol position of byte offset `b`:
/// the UTF-16 length of the text between the line's start and `b`.
pub open spec fn position_character_of(s: Seq<char>, b: int) -> int {
    prefix_utf16_len(s, char_index_at(s, b)) - prefix_utf16_len(
        s,
        char_index_at(s, line_start_of(s, position_line_of(s, b))),
    )
}

/// The error that resolving byte offset `b` of `s` to a position reports.
pub open spec fn position_error_of(s: Seq<char>, b: int) -> LspFilesError {
    if b > utf8_len(s) {
        LspFilesError::Location(
            LocationError::OutOfBounds {
                given: b as usize,
                span: Span { start: 0, end: utf8_len(s) as usize },
            },
        )
    } else {
        LspFilesError::Location(LocationError::InvalidCharBoundary { given: b as usize })
    }
}

/// True when UTF-16 offset `character` lands on a character boundary of
/// line `line` (its end included).
pub open spec fn utf16_offset_valid(s: Seq<char>, line: int, character: int) -> bool {
    is_utf16_boundary_at(line_chars_of(s, line), character)
}

/// The byte offset of the character of line `line` that starts at UTF-16
/// offset `character`; the line's end offset when `character` is the line's
/// UTF-16 length.
pub open spec fn byte_index_of(s: Seq<char>, line: int, character: int) -> int {
    line_start_of(s, line) + prefix_utf8_len(
        line_chars_of(s, line),
        utf16_char_index_at(line_chars_of(s, line), character),
    )
}

/// The error that resolving a protocol position on `s` reports: the line
/// beyond the line count, or the character offset not on a boundary of the
/// line.
pub open spec fn utf16_error_of(s: Seq<char>, line: int, character: int) -> LspFilesError {
    let ls = line_starts_of(s);
    if line >= ls.len() {
        LspFilesError::LineIndexOutOfBounds(
            LineIndexOutOfBoundsError {
                given: (if line == ls.len() {
                    line + 1
                } else {
                    line
                }) as usize,
                max: ls.len() as usize,
            },
        )
    } else {
        LspFilesError::ColumnOutOfBounds {
            given: character as usize,
            max: utf16_len(line_chars_of(s, line)) as usize,
        }
    }
}

/// Find the byte offset within `line` of the character at UTF-16 offset
/// `character`; the byte length of `line` when `character` is its total
/// UTF-16 length. Fails when `character` lands inside a surrogate pair or
/// beyond the line.
pub fn character_to_byte_offset(line: &str, character: usize) -> (r: Result<usize, LspFilesError>)
    requires
        utf8_len(line@) < usize::MAX,
    ensures
        match r {
            Ok(off) => {
                &&& is_utf16_boundary_at(line@, character as int)
                &&& off as int == prefix_utf8_len(
                    line@,
                    utf16_char_index_at(line@, character as int),
                )
            },
            Err(LspFilesError::ColumnOutOfBounds { given, max }) => {
                &&& !is_utf16_boundary_at(line@, character as int)
                &&& given == character
                &&& max as int == utf16_len(line@)
            },
            Err(_) => false,
        },
{
    let ghost s = line@;
    let n = line.unicode_len();
    let mut k: usize = 0;
    let mut off: usize = 0;
    let mut character_offset: usize = 0;
    proof {
        lemma_prefix_utf16_le_utf8(s, s.len() as int);
    }
    while k < n
        invariant
            s == line@,
            n == s.len(),
            0 <= k <= n,
            off as int == prefix_utf8_len(s, k as int),
            character_offset as int == prefix_utf16_len(s, k as int),
            utf8_len(s) < usize::MAX,
            utf16_len(s) <= utf8_len(s),
            forall|k2: int| 0 <= k2 < k as int ==> prefix_utf16_len(s, k2) != character as int,
        decreases n - k,
    {
        if character_offset == character {
            proof {
                lemma_utf16_char_index_at(s, character as int);
            }
            return Ok(off);
        }
        let c = line.get_char(k);
        let w8 = utf8_width_of_char(c);
        let w16 = utf16_width_of_char(c);
        proof {
            lemma_prefix_utf8_len_mono(s, k as int + 1, n as int);
            lemma_prefix_utf16_len_mono(s, k as int + 1, n as int);
            lemma_prefix_utf16_le_utf8(s, n as int);
        }
        off = off + w8;
        character_offset = character_offset + w16;
        k = k + 1;
    }
    if character_offset == character {
        proof {
            lemma_utf16_char_index_at(s, character as int);
        }
        Ok(off)
    } else {
        proof {
            assert forall|k2: int|
                0 <= k2 <= s.len() implies prefix_utf16_len(s, k2) != character as int by {
                if k2 < s.len() as int {
                } else {
                }
            }
        }
        Err(LspFilesError::ColumnOutOfBounds { given: character, max: character_offset })
    }
}

/// The UTF-16 length of the text of `line` before byte offset `byte`,
/// which must be a character boundary.
fn utf16_offset_upto(line: &str, byte: usize) -> (u: usize)
    requires
        is_char_boundary_at(line@, byte as int),
        utf8_len(line@) < usize::MAX,
    ensures
        u as int == prefix_utf16_len(line@, char_index_at(line@, byte as int)),
{
    let ghost s = line@;
    let ghost kt = char_index_at(s, byte as int);
    proof {
        lemma_char_index_at(s, byte as int);
        lemma_prefix_utf16_le_utf8(s, s.len() as int);
    }
    let n = line.unicode_len();
    let mut k: usize = 0;
    let mut off: usize = 0;
    let mut u: usize = 0;
    while off < byte
        invariant
            s == line@,
            n == s.len(),
            0 <= k as int <= kt <= n,
            off <= byte,
            off as int == prefix_utf8_len(s, k as int),
            u as int == prefix_utf16_len(s, k as int),
            byte as int == prefix_utf8_len(s, kt),
            utf8_len(s) < usize::MAX,
            utf16_len(s) <= utf8_len(s),
        decreases byte - off,
    {
        proof {
            if k as int == kt {
                assert(off == byte);
            }
            lemma_prefix_utf8_len_mono(s, k as int + 1, kt);
            lemma_prefix_utf8_len_mono(s, k as int + 1, n as int);
            lemma_prefix_utf16_len_mono(s, k as int + 1, n as int);
            lemma_prefix_utf16_le_utf8(s, n as int);
        }
        let c = line.get_char(k);
        let w8 = utf8_width_of_char(c);
        let w16 = utf16_width_of_char(c);
        off = off + w8;
        u = u + w16;
        k = k + 1;
    }
    proof {
        lemma_char_index_at(s, byte as int);
        assert(k as int == kt);
    }
    u
}

impl Files {
    /// Convert a byte index into a protocol position on its line: the line
    /// index, and the UTF-16 length of the line's text before the byte.
    pub fn byte_index_to_lsp_position(&self, file_id: FileId, byte_index: usize) -> (r: Result<
        Position,
        LspFilesError,
    >)
        requires
            self.has_file(file_id),
        ensures
            ({
                let s = self.source_of(file_id);
                match r {
                    Ok(pos) => {
                        &&& position_valid(s, byte_index as int)
                        &&& pos.line as int == position_line_of(s, byte_index as int)
                        &&& pos.character as int == position_character_of(s, byte_index as int)
                    },
                    Err(e) => {
                        &&& !position_valid(s, byte_index as int)
                        &&& e == position_error_of(s, byte_index as int)
                    },
                }
            }),
    {
        let ghost s = self.source_of(file_id);
        let ghost b = byte_index as int;
        let loc = match self.location(file_id, byte_index) {
            Ok(loc) => loc,
            Err(e) => {
                return Err(LspFilesError::Location(e));
            },
        };
        proof {
            lemma_line_index_of(s, b);
            lemma_line_box(s, loc.line as int);
        }
        let span = match self.line_span(file_id, loc.line) {
            Ok(sp) => sp,
            Err(_) => {
                proof {
                    assert(false);
                }
                return Err(LspFilesError::Location(LocationError::InvalidCharBoundary {
                    given: byte_index,
                }));
            },
        };
        let line_str = match self.source_slice(file_id, span) {
            Ok(t) => t,
            Err(_) => {
                proof {
                    assert(false);
                }
                return Err(LspFilesError::Location(LocationError::InvalidCharBoundary {
                    given: byte_index,
                }));
            },
        };
        let ghost line = loc.line as int;
        let ghost ka = char_index_at(s, line_start_of(s, line));
        let ghost ke = char_index_at(s, line_end_of(s, line));
        let ghost kb = char_index_at(s, b);
        proof {
            self.lemma_source_len(file_id);
            lemma_char_index_at(s, b);
            if kb < ka {
                lemma_prefix_utf8_len_mono(s, kb, ka);
            }
            if ke < kb {
                lemma_prefix_utf8_len_mono(s, ke, kb);
            }
            lemma_prefix_utf8_len_subrange(s, ka, ke, kb - ka);
            lemma_prefix_utf16_len_subrange(s, ka, ke, kb - ka);
            assert(line_str@ == line_chars_of(s, line));
            assert(prefix_utf8_len(line_str@, kb - ka) == b - line_start_of(s, line));
            assert(is_char_boundary_at(line_str@, b - line_start_of(s, line)));
            lemma_char_index_at(line_str@, b - line_start_of(s, line));
            assert(char_index_at(line_str@, b - line_start_of(s, line)) == kb - ka);
        }
        let column = byte_index - span.start;
        let character = utf16_offset_upto(line_str, column);
        Ok(Position { line: loc.line, character })
    }

    /// Convert a byte span into a protocol range: the positions of its two
    /// endpoints.
    pub fn span_to_lsp_range(&self, file_id: FileId, span: Span) -> (r: Result<
        Range,
        LspFilesError,
    >)
        requires
            self.has_file(file_id),
        ensures
            ({
                let s = self.source_of(file_id);
                match r {
                    Ok(range) => {
                        &&& position_valid(s, span.start as int)
                        &&& position_valid(s, span.end as int)
                        &&& range.start.line as int == position_line_of(s, span.start as int)
                        &&& range.start.character as int == position_character_of(
                            s,
                            span.start as int,
                        )
                        &&& range.end.line as int == position_line_of(s, span.end as int)
                        &&& range.end.character as int == position_character_of(s, span.end as int)
                    },
                    Err(e) => {
                        ||| !position_valid(s, span.start as int) && e == position_error_of(
                            s,
                            span.start as int,
                        )
                        ||| position_valid(s, span.start as int) && !position_valid(
                            s,
                            span.end as int,
                        ) && e == position_error_of(s, span.end as int)
                    },
                }
            }),
    {
        let start = match self.byte_index_to_lsp_position(file_id, span.start) {
            Ok(p) => p,
            Err(e) => {
                return Err(e);
            },
        };
        let end = match self.byte_index_to_lsp_position(file_id, span.end) {
            Ok(p) => p,
            Err(e) => {
                return Err(e);
            },
        };
        Ok(Range { start, end })
    }

    /// Convert a protocol position into the byte index of the character it
    /// denotes; the line's end offset when the position sits at the end of
    /// the line.
    pub fn lsp_position_to_byte_index(&self, file_id: FileId, position: &Position) -> (r: Result<
        usize,
        LspFilesError,
    >)
        requires
            self.has_file(file_id),
        ensures
            ({
                let s = self.source_of(file_id);
                let line = position.line as int;
                let character = position.character as int;
                match r {
                    Ok(b) => {
                        &&& line < line_starts_of(s).len()
                        &&& utf16_offset_valid(s, line, character)
                        &&& b as int == byte_index_of(s, line, character)
                    },
                    Err(e) => {
                        &&& !(line < line_starts_of(s).len() && utf16_offset_valid(
                            s,
                            line,
                            character,
                        ))
                        &&& e == utf16_error_of(s, line, character)
                    },
                }
            }),
    {
        let ghost s = self.source_of(file_id);
        let span = match self.line_span(file_id, position.line) {
            Ok(sp) => sp,
            Err(e) => {
                return Err(LspFilesError::LineIndexOutOfBounds(e));
            },
        };
        proof {
            lemma_line_box(s, position.line as int);
        }
        let line_str = match self.source_slice(file_id, span) {
            Ok(t) => t,
            Err(_) => {
                proof {
                    assert(false);
                }
                return Err(LspFilesError::ColumnOutOfBounds { given: 0, max: 0 });
            },
        };
        proof {
            self.lemma_source_len(file_id);
            let line = position.line as int;
            let ka = char_index_at(s, line_start_of(s, line));
            let ke = char_index_at(s, line_end_of(s, line));
            lemma_prefix_utf8_len_mono(s, ke, s.len() as int);
            assert(line_str@ == line_chars_of(s, line));
            assert(utf8_len(line_str@) < usize::MAX);
        }
        let off = match character_to_byte_offset(line_str, position.character) {
            Ok(o) => o,
            Err(e) => {
                return Err(e);
            },
        };
        proof {
            let lsub = line_chars_of(s, position.line as int);
            lemma_utf16_char_index_at(lsub, position.character as int);
            lemma_prefix_utf8_len_mono(
                lsub,
                utf16_char_index_at(lsub, position.character as int),
                lsub.len() as int,
            );
        }
        Ok(span.start + off)
    }

    /// Convert a protocol range into the byte span between its endpoints.
    pub fn lsp_range_to_span(&self, file_id: FileId, range: &Range) -> (r: Result<
        Span,
        LspFilesError,
    >)
        requires
            self.has_file(file_id),
        ensures
            ({
                let s = self.source_of(file_id);
                let start_ok = (range.start.line as int) < line_starts_of(s).len()
                    && utf16_offset_valid(s, range.start.line as int, range.start.character as int);
                let end_ok = (range.end.line as int) < line_starts_of(s).len() && utf16_offset_valid(
                    s,
                    range.end.line as int,
                    range.end.character as int,
                );
                match r {
                    Ok(span) => {
                        &&& start_ok
                        &&& end_ok
                        &&& span.start as int == byte_index_of(
                            s,
                            range.start.line as int,
                            range.start.character as int,
                        )
                        &&& span.end as int == byte_index_of(
                            s,
                            range.end.line as int,
                            range.end.character as int,
                        )
                    },
                    Err(e) => {
                        ||| !start_ok && e == utf16_error_of(
                            s,
                            range.start.line as int,
                            range.start.character as int,
                        )
                        ||| start_ok && !end_ok && e == utf16_error_of(
                            s,
                            range.end.line as int,
                            range.end.character as int,
                        )
                    },
                }
            }),
    {
        let start = match self.lsp_position_to_byte_index(file_id, &range.start) {
            Ok(b) => b,
            Err(e) => {
                return Err(e);
            },
        };
        let end = match self.lsp_position_to_byte_index(file_id, &range.end) {
            Ok(b) => b,
            Err(e) => {
                return Err(e);
            },
        };
        Ok(Span { start, end })
    }
}

/// Round-trip law: a byte index on a character boundary, converted to a
/// protocol position, converts back to the same byte index.
pub proof fn lemma_utf16_position_round_trip(s: Seq<char>, b: int)
    requires
        position_valid(s, b),
    ensures
        0 <= position_line_of(s, b) < line_starts_of(s).len(),
        utf16_offset_valid(s, position_line_of(s, b), position_character_of(s, b)),
        byte_index_of(s, position_line_of(s, b), position_character_of(s, b)) == b,
{
    lemma_line_index_of(s, b);
    let line = position_line_of(s, b);
    lemma_line_box(s, line);
    let start = line_start_of(s, line);
    let end = line_end_of(s, line);
    let ka = char_index_at(s, start);
    let ke = char_index_at(s, end);
    lemma_char_index_at(s, b);
    let kb = char_index_at(s, b);
    if kb < ka {
        lemma_prefix_utf8_len_mono(s, kb, ka);
    }
    if ke < kb {
        lemma_prefix_utf8_len_mono(s, ke, kb);
    }
    let lsub = line_chars_of(s, line);
    lemma_prefix_utf8_len_subrange(s, ka, ke, kb - ka);
    lemma_prefix_utf16_len_subrange(s, ka, ke, kb - ka);
    let character = position_character_of(s, b);
    assert(prefix_utf16_len(lsub, kb - ka) == character);
    assert(is_utf16_boundary_at(lsub, character));
    lemma_utf16_char_index_at(lsub, character);
    assert(utf16_char_index_at(lsub, character) == kb - ka);
}


/// The numeric severity of the editor protocol: 1 for errors (bugs
/// included), 2 for warnings, 3 for information, 4 for hints.
pub open spec fn lsp_severity_rank(s: Severity) -> int {
    match s {
        Severity::Bug => 1,
        Severity::Error => 1,
        Severity::Warning => 2,
        Severity::Note => 3,
        Severity::Help => 4,
    }
}

impl Severity {
    /// The protocol severity number of this severity.
    pub fn into_lsp_severity(self) -> (r: u8)
        ensures
            r as int == lsp_severity_rank(self),
    {
        match self {
            Severity::Bug => 1,
            Severity::Error => 1,
            Severity::Warning => 2,
            Severity::Note => 3,
            Severity::Help => 4,
        }
    }
}

/// A related location of a protocol diagnostic: the URI of the file a
/// secondary label points into, the label's range, and its message.
#[derive(Clone, Debug, PartialEq, Eq)]
pub struct LspRelatedInformation {
    pub uri: String,
    pub range: Range,
    pub message: String,
}

/// A protocol diagnostic: the primary label's range, the title's code, the
/// producer name, the numeric severity, the message with the notes appended
/// as a bulleted block, and the secondary labels as related locations.
#[derive(Clone, Debug, PartialEq, Eq)]
pub struct LspDiagnostic {
    pub range: Range,
    pub code: Option<String>,
    pub source: Option<String>,
    pub severity: u8,
    pub message: String,
    pub related_information: Vec<LspRelatedInformation>,
}

/// The rows of one note from line `i` on: each line two columns in from the
/// margin, the first behind the bullet, trailing white space trimmed from
/// every line.
pub open spec fn note_block_rows(lines: Seq<Seq<char>>, i: int) -> Seq<char>
    decreases lines.len() - i,
    when i >= 0
{
    if i >= lines.len() {
        Seq::empty()
    } else {
        seq![' ', ' '] + (if i == 0 {
            seq!['\u{2022}']
        } else {
            seq![' ']
        }) + seq![' '] + trimmed_end(lines[i]) + seq!['\n'] + note_block_rows(lines, i + 1)
    }
}

/// The bulleted block of one note.
pub open spec fn note_bullet_block(note: Seq<char>) -> Seq<char> {
    note_block_rows(lines_of(note), 0)
}

/// The bulleted blocks of the notes from `i` on.
pub open spec fn notes_blocks(notes: Seq<String>, i: int) -> Seq<char>
    decreases notes.len() - i,
    when i >= 0
{
    if i >= notes.len() {
        Seq::empty()
    } else {
        note_bullet_block(notes[i]@) + notes_blocks(notes, i + 1)
    }
}

/// The message of a protocol diagnostic: the title message, and — when
/// there are notes — a blank line and the notes as bulleted blocks.
pub open spec fn lsp_message_of(title_message: Seq<char>, notes: Seq<String>) -> Seq<char> {
    if notes.len() == 0 {
        title_message
    } else {
        title_message + seq!['\n', '\n'] + notes_blocks(notes, 0)
    }
}

/// The secondary labels of a diagnostic, in order.
pub open spec fn secondaries(labels: Seq<Label>) -> Seq<Label> {
    labels.filter(|l: Label| l.style == LabelStyle::Secondary)
}

proof fn lemma_secondaries_take(labels: Seq<Label>, i: int)
    requires
        0 <= i < labels.len(),
    ensures
        secondaries(labels.take(i + 1)) == (if labels[i].style == LabelStyle::Secondary {
            secondaries(labels.take(i)).push(labels[i])
        } else {
            secondaries(labels.take(i))
        }),
{
    reveal(Seq::filter);
    assert(labels.take(i + 1).drop_last() =~= labels.take(i));
    assert(labels.take(i + 1).last() == labels[i]);
}

/// Append the bulleted block of one note to a message: each of the note's
/// lines on a row of its own with trailing white space trimmed, the first
/// prefixed with the bullet, the rest aligned under it.
fn push_note_block(out: &mut String, note: &str)
    ensures
        final(out)@ == old(out)@ + note_bullet_block(note@),
{
    let ghost base = out@;
    let lines = crate::text::split_lines(note);
    let ghost lseq = lines.deep_view();
    let mut i: usize = 0;
    while i < lines.len()
        invariant
            lseq == lines.deep_view(),
            lseq == lines_of(note@),
            0 <= i <= lines.len(),
            lines@.len() == lseq.len(),
            out@ + note_block_rows(lseq, i as int) =~= base + note_block_rows(lseq, 0),
        decreases lines.len() - i,
    {
        let ghost before = out@;
        out.push(' ');
        out.push(' ');
        if i == 0 {
            out.push('\u{2022}');
        } else {
            out.push(' ');
        }
        out.push(' ');
        let line = crate::text::trim_end_str(lines[i].as_str());
        out.append(line.as_str());
        out.push('\n');
        proof {
            assert(lines[i as int]@ == lseq[i as int]);
            assert(out@ =~= before + (seq![' ', ' '] + (if i == 0 {
                seq!['\u{2022}']
            } else {
                seq![' ']
            }) + seq![' '] + trimmed_end(lseq[i as int]) + seq!['\n']));
            assert(note_block_rows(lseq, i as int) =~= (seq![' ', ' '] + (if i == 0 {
                seq!['\u{2022}']
            } else {
                seq![' ']
            }) + seq![' '] + trimmed_end(lseq[i as int]) + seq!['\n']) + note_block_rows(
                lseq,
                i as int + 1,
            ));
            assert(out@ + note_block_rows(lseq, i as int + 1) =~= base + note_block_rows(
                lseq,
                0,
            ));
        }
        i = i + 1;
    }
    proof {
        assert(out@ =~= base + note_bullet_block(note@));
    }
}

/// What one related location guarantees: it carries the secondary label's
/// message, the label's range resolved to protocol positions, and a URI the
/// caller's resolver returned for the label's file.
pub open spec fn related_entry_ok<F: Fn(FileId) -> Option<String>>(
    files: &Files,
    ri: LspRelatedInformation,
    l: Label,
    correlate_file_url: F,
) -> bool {
    let s = files.source_of(l.file_id);
    &&& ri.message == l.message
    &&& position_valid(s, l.span.start as int)
    &&& position_valid(s, l.span.end as int)
    &&& ri.range.start.line as int == position_line_of(s, l.span.start as int)
    &&& ri.range.start.character as int == position_character_of(s, l.span.start as int)
    &&& ri.range.end.line as int == position_line_of(s, l.span.end as int)
    &&& ri.range.end.character as int == position_character_of(s, l.span.end as int)
    &&& call_ensures(correlate_file_url, (l.file_id,), Some(ri.uri))
}

/// What a successful protocol translation guarantees: the range is the
/// primary label's, code, source, severity and message are as constructed,
/// and each secondary label became a related location whose URI the
/// caller's resolver returned.
pub open spec fn lsp_diagnostic_ok<F: Fn(FileId) -> Option<String>>(
    files: &Files,
    d: LspDiagnostic,
    source: Option<String>,
    diagnostic: Diagnostic,
    correlate_file_url: F,
) -> bool {
    let labels = diagnostic.labels@;
    let p = first_primary(labels, 0);
    let sp = files.source_of(labels[p].file_id);
    let secs = secondaries(labels);
    &&& position_valid(sp, labels[p].span.start as int)
    &&& position_valid(sp, labels[p].span.end as int)
    &&& d.range.start.line as int == position_line_of(sp, labels[p].span.start as int)
    &&& d.range.start.character as int == position_character_of(sp, labels[p].span.start as int)
    &&& d.range.end.line as int == position_line_of(sp, labels[p].span.end as int)
    &&& d.range.end.character as int == position_character_of(sp, labels[p].span.end as int)
    &&& d.severity as int == lsp_severity_rank(diagnostic.severity)
    &&& d.source == source
    &&& d.code == (match diagnostic.title {
        Some(t) => t.code,
        None => None::<String>,
    })
    &&& d.message@ == lsp_message_of(
        (match diagnostic.title {
            Some(t) => t.message@,
            None => Seq::<char>::empty(),
        }),
        diagnostic.notes@,
    )
    &&& d.related_information@.len() == secs.len()
    &&& forall|k: int|
        0 <= k < secs.len() ==> related_entry_ok(
            files,
            #[trigger] d.related_information@[k],
            secs[k],
            correlate_file_url,
        )
}

/// True when a secondary label went through: both endpoints resolved, and
/// the caller's resolver returned a URI for its file.
pub open spec fn secondary_resolved<F: Fn(FileId) -> Option<String>>(
    files: &Files,
    l: Label,
    correlate_file_url: F,
) -> bool {
    let s = files.source_of(l.file_id);
    &&& position_valid(s, l.span.start as int)
    &&& position_valid(s, l.span.end as int)
    &&& exists|u: String| call_ensures(correlate_file_url, (l.file_id,), Some(u))
}

/// What a failed protocol translation guarantees: the error came from the
/// primary label's endpoints, or from the first secondary label that could
/// not be resolved — every secondary before it went through.
pub open spec fn lsp_diagnostic_err<F: Fn(FileId) -> Option<String>>(
    files: &Files,
    e: LspFilesError,
    diagnostic: Diagnostic,
    correlate_file_url: F,
) -> bool {
    let labels = diagnostic.labels@;
    let p = first_primary(labels, 0);
    let sp = files.source_of(labels[p].file_id);
    let secs = secondaries(labels);
    ||| !position_valid(sp, labels[p].span.start as int) && e == position_error_of(
        sp,
        labels[p].span.start as int,
    )
    ||| position_valid(sp, labels[p].span.start as int) && !position_valid(
        sp,
        labels[p].span.end as int,
    ) && e == position_error_of(sp, labels[p].span.end as int)
    ||| exists|k: int|
        0 <= k < secs.len() && (forall|m: int|
            0 <= m < k ==> secondary_resolved(files, #[trigger] secs[m], correlate_file_url)) && {
            let l = #[trigger] secs[k];
            let s = files.source_of(l.file_id);
            ||| !position_valid(s, l.span.start as int) && e == position_error_of(
                s,
                l.span.start as int,
            )
            ||| !position_valid(s, l.span.end as int) && e == position_error_of(
                s,
                l.span.end as int,
            )
            ||| position_valid(s, l.span.start as int) && position_valid(s, l.span.end as int)
                && call_ensures(correlate_file_url, (l.file_id,), None::<String>) && (e matches
            LspFilesError::UnableToCorrelateFilename(n) && n@ == files.name_of(l.file_id))
        }
}

impl Files {
    /// Translate a diagnostic to an editor-protocol diagnostic.
    ///
    /// The protocol needs one range, taken from the first primary label —
    /// the caller must provide one. Secondary labels become related
    /// locations; the caller supplies the file-to-URI resolution, and a file
    /// it cannot resolve surfaces as an error naming the file. Notes are
    /// appended to the message as a bulleted block. The `code` and `source`
    /// fields are taken from the title and the `source` argument.
    #[verifier::loop_isolation(false)]
    #[verifier::rlimit(100)]
    #[verifier::spinoff_prover]
    pub fn diagnostic_to_lsp_diagnostic<F: Fn(FileId) -> Option<String>>(
        &self,
        source: Option<String>,
        diagnostic: &Diagnostic,
        correlate_file_url: &F,
    ) -> (r: Result<LspDiagnostic, LspFilesError>)
        requires
            first_primary(diagnostic.labels@, 0) < diagnostic.labels@.len(),
            forall|i: int|
                0 <= i < diagnostic.labels@.len() ==> self.has_file(
                    (#[trigger] diagnostic.labels@[i]).file_id,
                ),
            forall|id: FileId| #[trigger] correlate_file_url.requires((id,)),
        ensures
            match r {
                Ok(d) => lsp_diagnostic_ok(self, d, source, *diagnostic, *correlate_file_url),
                Err(e) => lsp_diagnostic_err(self, e, *diagnostic, *correlate_file_url),
            },
    {
        let ghost labels = diagnostic.labels@;
        let ghost p = first_primary(labels, 0);

        // The primary label gives the diagnostic its range.
        let pidx = crate::diagnostic::first_primary_index(&diagnostic.labels);
        let primary = &diagnostic.labels[pidx];
        let primary_range = match self.span_to_lsp_range(primary.file_id, primary.span) {
            Ok(range) => range,
            Err(e) => {
                return Err(e);
            },
        };

        // The message: the title message, then the notes as a bulleted block.
        let mut message: String = match &diagnostic.title {
            Some(t) => t.message.clone(),
            None => String::new(),
        };
        let ghost title_message: Seq<char> = if diagnostic.title is Some {
            diagnostic.title->Some_0.message@
        } else {
            Seq::<char>::empty()
        };
        if diagnostic.notes.len() > 0 {
            message.push('\n');
            message.push('\n');
            let ghost mid = message@;
            proof {
                assert(mid =~= title_message + seq!['\n', '\n']);
            }
            let mut i: usize = 0;
            while i < diagnostic.notes.len()
                invariant
                    0 <= i <= diagnostic.notes@.len(),
                    message@ + notes_blocks(diagnostic.notes@, i as int) =~= mid + notes_blocks(
                        diagnostic.notes@,
                        0,
                    ),
                decreases diagnostic.notes@.len() - i,
            {
                push_note_block(&mut message, diagnostic.notes[i].as_str());
                i = i + 1;
            }
            proof {
                assert(message@ + notes_blocks(diagnostic.notes@, diagnostic.notes@.len() as int)
                    =~= message@);
                assert(message@ =~= lsp_message_of(title_message, diagnostic.notes@));
            }
        }
        proof {
            assert(message@ =~= lsp_message_of(title_message, diagnostic.notes@));
        }

        // Secondary labels become related locations.
        let mut related: Vec<LspRelatedInformation> = Vec::new();
        let ghost secs = secondaries(labels);
        let mut i: usize = 0;
        proof {
            assert(labels.take(0int) =~= Seq::<Label>::empty());
            reveal(Seq::filter);
        }
        while i < diagnostic.labels.len()
            invariant
                0 <= i <= labels.len(),
                related@.len() == secondaries(labels.take(i as int)).len(),
                forall|k: int|
                    0 <= k < secondaries(labels.take(i as int)).len() ==> related_entry_ok(
                        self,
                        #[trigger] related@[k],
                        secondaries(labels.take(i as int))[k],
                        *correlate_file_url,
                    ),
            decreases labels.len() - i,
        {
            let l = &diagnostic.labels[i];
            proof {
                lemma_secondaries_take(labels, i as int);
            }
            if matches!(l.style, LabelStyle::Secondary) {
                proof {
                    lemma_secondaries_prefix_of(labels, i as int + 1);
                    assert forall|m: int|
                        0 <= m < secondaries(labels.take(i as int)).len()
                        implies secondary_resolved(
                        self,
                        #[trigger] secondaries(labels)[m],
                        *correlate_file_url,
                    ) by {
                        lemma_secondaries_prefix_of(labels, i as int);
                        assert(related_entry_ok(
                            self,
                            related@[m],
                            secondaries(labels.take(i as int))[m],
                            *correlate_file_url,
                        ));
                    }
                }
                let ghost k = secondaries(labels.take(i as int)).len() as int;
                let range = match self.span_to_lsp_range(l.file_id, l.span) {
                    Ok(range) => range,
                    Err(e) => {
                        proof {
                            assert(secondaries(labels.take(i as int + 1))[k] == *l);
                            assert(secondaries(labels)[k] == *l);
                        }
                        return Err(e);
                    },
                };
                let uri = match (correlate_file_url)(l.file_id) {
                    Some(u) => u,
                    None => {
                        proof {
                            assert(secondaries(labels.take(i as int + 1))[k] == *l);
                            assert(secondaries(labels)[k] == *l);
                        }
                        return Err(
                            LspFilesError::UnableToCorrelateFilename(self.name(l.file_id).to_owned()),
                        );
                    },
                };
                related.push(LspRelatedInformation { uri, range, message: l.message.clone() });
            }
            proof {
                let old_secs = secondaries(labels.take(i as int));
                let new_secs = secondaries(labels.take(i as int + 1));
                if labels[i as int].style == LabelStyle::Secondary {
                    assert(related@.len() == new_secs.len());
                } else {
                    assert(new_secs == old_secs);
                    assert(related@.len() == new_secs.len());
                }
                assert forall|k: int| 0 <= k < new_secs.len() implies related_entry_ok(
                    self,
                    #[trigger] related@[k],
                    new_secs[k],
                    *correlate_file_url,
                ) by {
                    if labels[i as int].style == LabelStyle::Secondary {
                        if k < old_secs.len() {
                            assert(new_secs[k] == old_secs[k]);
                        } else {
                            assert(k == old_secs.len());
                            assert(new_secs[k] == labels[i as int]);
                            assert(related@[k] == related@.last());
                        }
                    } else {
                        assert(new_secs == old_secs);
                    }
                }
            }
            i = i + 1;
        }
        proof {
            assert(labels.take(labels.len() as int) =~= labels);
            assert(forall|k: int|
                0 <= k < secs.len() ==> related_entry_ok(
                    self,
                    #[trigger] related@[k],
                    secs[k],
                    *correlate_file_url,
                ));
        }

        let code: Option<String> = match &diagnostic.title {
            Some(t) => match &t.code {
                Some(c) => Some(c.clone()),
                None => None,
            },
            None => None,
        };
        Ok(
            LspDiagnostic {
                range: primary_range,
                code,
                source,
                severity: diagnostic.severity.into_lsp_severity(),
                message,
                related_information: related,
            },
        )
    }
}

/// The secondaries of a prefix of the label list are a prefix of the whole
/// list's secondaries.
proof fn lemma_secondaries_prefix_of(labels: Seq<Label>, i: int)
    requires
        0 <= i <= labels.len(),
    ensures
        secondaries(labels.take(i)).len() <= secondaries(labels).len(),
        forall|m: int|
            0 <= m < secondaries(labels.take(i)).len() ==> #[trigger] secondaries(
                labels.take(i),
            )[m] == secondaries(labels)[m],
    decreases labels.len() - i,
{
    if i == labels.len() {
        assert(labels.take(i) =~= labels);
    } else {
        lemma_secondaries_prefix_of(labels, i + 1);
        lemma_secondaries_take(labels, i);
        assert forall|m: int|
            0 <= m < secondaries(labels.take(i)).len() implies #[trigger] secondaries(
            labels.take(i),
        )[m] == secondaries(labels)[m] by {
            assert(secondaries(labels.take(i + 1))[m] == secondaries(labels.take(i))[m]);
            assert(secondaries(labels.take(i + 1))[m] == secondaries(labels)[m]);
        }
    }
}

} // verus!

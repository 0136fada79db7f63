//! A database of source files and the position translator: byte offsets to
//! line/column locations, line spans, and source slices, with exact,
//! panic-free boundary validation.

use crate::text::{
    char_index_at, is_char_boundary_at, is_line_index_of, lemma_char_index_at, lemma_line_box,
    lemma_line_index_of, lemma_line_starts_props, lemma_prefix_utf8_len_mono, line_chars_of,
    line_end_of, line_index_of, line_start_of, line_starts_of, line_starts_upto, prefix_utf8_len,
    utf8_len, utf8_width_of_char,
};
use crate::unicode::{count_graphemes, grapheme_count};
use crate::{Location, Span};
use vstd::prelude::*;

verus! {

/// Error: a requested line index lies beyond the file's line count.
#[derive(Debug, PartialEq, Eq, Structural)]
pub struct LineIndexOutOfBoundsError {
    pub given: usize,
    pub max: usize,
}

/// Error: a byte index cannot be resolved to a location.
#[derive(Debug, PartialEq, Eq, Structural)]
pub enum LocationError {
    /// The byte index lies beyond the end of the file.
    OutOfBounds { given: usize, span: Span },
    /// The byte index falls inside a multi-byte character.
    InvalidCharBoundary { given: usize },
}

/// Error: a slice request reaches outside the file, or an endpoint falls
/// inside a multi-byte character.
#[derive(Debug, PartialEq, Eq, Structural)]
pub struct SpanOutOfBoundsError {
    pub given: Span,
    pub span: Span,
}

/// The text of a line-index error.
pub open spec fn line_index_error_message_of(e: LineIndexOutOfBoundsError) -> Seq<char> {
    "Line index out of bounds - given: "@ + crate::text::dec_digits(e.given as int) + ", max: "@
        + crate::text::dec_digits(e.max as int)
}

impl LineIndexOutOfBoundsError {
    /// The error as text, naming the given index and the largest valid one.
    pub fn message(&self) -> (r: String)
        ensures
            r@ == line_index_error_message_of(*self),
    {
        let mut r = "Line index out of bounds - given: ".to_owned();
        crate::text::push_decimal(&mut r, self.given);
        r.append(", max: ");
        crate::text::push_decimal(&mut r, self.max);
        proof {
            assert(r@ =~= line_index_error_message_of(*self));
        }
        r
    }
}

/// The text of a location error.
pub open spec fn location_error_message_of(e: LocationError) -> Seq<char> {
    match e {
        LocationError::OutOfBounds { given, span } => "Byte index out of bounds - given: "@
            + crate::text::dec_digits(given as int) + ", span: "@ + crate::span_display_of(span),
        LocationError::InvalidCharBoundary { given } => {
            "Byte index within character boundary - given: "@ + crate::text::dec_digits(
                given as int,
            )
        },
    }
}

impl LocationError {
    /// The error as text, naming the byte index that could not be resolved.
    pub fn message(&self) -> (r: String)
        ensures
            r@ == location_error_message_of(*self),
    {
        match self {
            LocationError::OutOfBounds { given, span } => {
                let mut r = "Byte index out of bounds - given: ".to_owned();
                crate::text::push_decimal(&mut r, *given);
                r.append(", span: ");
                let rendered_span = span.display_string();
                r.append(rendered_span.as_str());
                proof {
                    assert(r@ =~= location_error_message_of(*self));
                }
                r
            },
            LocationError::InvalidCharBoundary { given } => {
                let mut r = "Byte index within character boundary - given: ".to_owned();
                crate::text::push_decimal(&mut r, *given);
                proof {
                    assert(r@ =~= location_error_message_of(*self));
                }
                r
            },
        }
    }
}

/// The text of a span error.
pub open spec fn span_error_message_of(e: SpanOutOfBoundsError) -> Seq<char> {
    "Span out of bounds - given: "@ + crate::span_display_of(e.given) + ", span: "@
        + crate::span_display_of(e.span)
}

impl SpanOutOfBoundsError {
    /// The error as text, naming the requested span and the file's span.
    pub fn message(&self) -> (r: String)
        ensures
            r@ == span_error_message_of(*self),
    {
        let mut r = "Span out of bounds - given: ".to_owned();
        let given = self.given.display_string();
        r.append(given.as_str());
        r.append(", span: ");
        let whole = self.span.display_string();
        r.append(whole.as_str());
        proof {
            assert(r@ =~= span_error_message_of(*self));
        }
        r
    }
}

/// A handle that points to a file in the database.
#[derive(Copy, Clone, Debug, PartialEq, Eq, PartialOrd, Ord, Hash, Structural)]
pub struct FileId(usize);

impl FileId {
    /// The position of the file in the database.
    pub closed spec fn index(self) -> int {
        self.0 as int
    }
}

/// A file stored in the database: its name, its source text, and the byte
/// offsets at which its lines start.
struct File {
    name: String,
    source: String,
    line_starts: Vec<usize>,
    len: usize,
}

impl File {
    /// The line-start index matches the source text, and the text is small
    /// enough that every derived offset fits in a `usize`.
    #[verifier::type_invariant]
    closed spec fn wf(self) -> bool {
        &&& utf8_len(self.source@) < usize::MAX - 1
        &&& self.len as int == utf8_len(self.source@)
        &&& self.line_starts@.len() == line_starts_of(self.source@).len()
        &&& forall|j: int|
            0 <= j < self.line_starts@.len() ==> #[trigger] self.line_starts@[j] as int
                == line_starts_of(self.source@)[j]
    }

    fn new(name: String, source: String) -> (f: File)
        requires
            utf8_len(source@) < usize::MAX - 1,
        ensures
            f.name@ == name@,
            f.source@ == source@,
    {
        let (line_starts, len) = compute_line_starts(source.as_str());
        File { name, source, line_starts, len }
    }
}

/// Scan a text for `'\n'` and record the byte offset one past each, after a
/// leading offset 0; also return the total byte length of the text.
fn compute_line_starts(source: &str) -> (r: (Vec<usize>, usize))
    requires
        utf8_len(source@) < usize::MAX,
    ensures
        r.0@.len() == line_starts_of(source@).len(),
        forall|j: int|
            0 <= j < r.0@.len() ==> #[trigger] r.0@[j] as int == line_starts_of(source@)[j],
        r.1 as int == utf8_len(source@),
{
    let ghost s = source@;
    let n = source.unicode_len();
    let mut starts: Vec<usize> = Vec::new();
    starts.push(0);
    let mut i: usize = 0;
    let mut off: usize = 0;
    proof {
        assert(line_starts_upto(s, 0) =~= seq![0int]);
    }
    while i < n
        invariant
            s == source@,
            n == s.len(),
            0 <= i <= n,
            off as int == prefix_utf8_len(s, i as int),
            utf8_len(s) < usize::MAX,
            starts@.len() == line_starts_upto(s, i as int).len(),
            forall|j: int|
                0 <= j < starts@.len() ==> #[trigger] starts@[j] as int == line_starts_upto(
                    s,
                    i as int,
                )[j],
        decreases n - i,
    {
        let c = source.get_char(i);
        let w = utf8_width_of_char(c);
        proof {
            lemma_prefix_utf8_len_mono(s, i as int + 1, s.len() as int);
        }
        off = off + w;
        if c == '\n' {
            starts.push(off);
        }
        proof {
            assert(line_starts_upto(s, i as int + 1) == if s[i as int] == '\n' {
                line_starts_upto(s, i as int).push(prefix_utf8_len(s, i as int + 1))
            } else {
                line_starts_upto(s, i as int)
            });
        }
        i = i + 1;
    }
    (starts, off)
}

/// A database of source files.
pub struct Files {
    files: Vec<File>,
}

impl Files {
    /// True when `file_id` refers to a file of this database.
    pub closed spec fn has_file(&self, file_id: FileId) -> bool {
        &&& file_id.index() < self.files@.len()
        &&& utf8_len(self.files@[file_id.index()].source@) < usize::MAX - 1
    }

    /// Every stored source text is small enough that all derived offsets
    /// fit in a `usize`.
    pub proof fn lemma_source_len(&self, file_id: FileId)
        requires
            self.has_file(file_id),
        ensures
            utf8_len(self.source_of(file_id)) < usize::MAX - 1,
    {
    }

    /// The name of the file that `file_id` refers to.
    pub closed spec fn name_of(&self, file_id: FileId) -> Seq<char> {
        self.files@[file_id.index()].name@
    }

    /// The source text of the file that `file_id` refers to.
    pub closed spec fn source_of(&self, file_id: FileId) -> Seq<char> {
        self.files@[file_id.index()].source@
    }

    /// Create a new, empty database of files.
    pub fn new() -> (files: Files)
        ensures
            forall|id: FileId| !files.has_file(id),
    {
        Files { files: Vec::new() }
    }

    /// Add a file to the database, returning the handle that can be used to
    /// refer to it again. Existing files and their handles are unaffected.
    pub fn add(&mut self, name: &str, source: &str) -> (file_id: FileId)
        requires
            utf8_len(source@) < usize::MAX - 1,
        ensures
            !old(self).has_file(file_id),
            final(self).has_file(file_id),
            final(self).name_of(file_id) == name@,
            final(self).source_of(file_id) == source@,
            forall|id: FileId| #[trigger]
                old(self).has_file(id) ==> final(self).has_file(id) && final(self).name_of(id)
                    == old(self).name_of(id) && final(self).source_of(id) == old(self).source_of(
                    id,
                ),
            forall|id: FileId| #[trigger]
                final(self).has_file(id) ==> old(self).has_file(id) || id == file_id,
    {
        let file_id = FileId(self.files.len());
        self.files.push(File::new(name.to_owned(), source.to_owned()));
        file_id
    }

    /// Replace a source file in place, recomputing its line index.
    ///
    /// Any byte index computed against the old text is invalid afterwards;
    /// this is the caller's responsibility.
    pub fn update(&mut self, file_id: FileId, source: &str)
        requires
            old(self).has_file(file_id),
            utf8_len(source@) < usize::MAX - 1,
        ensures
            final(self).source_of(file_id) == source@,
            final(self).name_of(file_id) == old(self).name_of(file_id),
            forall|id: FileId|
                #[trigger] final(self).has_file(id) == old(self).has_file(id),
            forall|id: FileId|
                id != file_id && old(self).has_file(id) ==> final(self).name_of(id) == old(
                    self,
                ).name_of(id) && #[trigger] final(self).source_of(id) == old(self).source_of(id),
    {
        let i = file_id.0;
        let name = self.files[i].name.clone();
        let f = vstd::std_specs::vec::vec_index_mut(&mut self.files, i);
        *f = File::new(name, source.to_owned());
    }

    /// Get the name of a source file.
    pub fn name(&self, file_id: FileId) -> (name: &str)
        requires
            self.has_file(file_id),
        ensures
            name@ == self.name_of(file_id),
    {
        self.files[file_id.0].name.as_str()
    }

    /// Get the full source text of a file.
    pub fn source(&self, file_id: FileId) -> (source: &str)
        requires
            self.has_file(file_id),
        ensures
            source@ == self.source_of(file_id),
    {
        self.files[file_id.0].source.as_str()
    }

    /// Return the span of the full source: from offset 0 to the byte length
    /// of the text.
    pub fn source_span(&self, file_id: FileId) -> (span: Span)
        requires
            self.has_file(file_id),
        ensures
            span.start == 0,
            span.end as int == utf8_len(self.source_of(file_id)),
    {
        let f = &self.files[file_id.0];
        proof {
            use_type_invariant(f);
        }
        Span { start: 0, end: f.len }
    }

    /// Get the span of the line at the given index: from the line's start
    /// offset to the start of the next line, or to the end of the text for
    /// the last line.
    pub fn line_span(&self, file_id: FileId, line_index: usize) -> (r: Result<
        Span,
        LineIndexOutOfBoundsError,
    >)
        requires
            self.has_file(file_id),
        ensures
            ({
                let s = self.source_of(file_id);
                let ls = line_starts_of(s);
                match r {
                    Ok(span) => {
                        &&& (line_index as int) < ls.len()
                        &&& span.start as int == ls[line_index as int]
                        &&& span.end as int == (if line_index as int + 1 < ls.len() {
                            ls[line_index as int + 1]
                        } else {
                            utf8_len(s)
                        })
                    },
                    Err(e) => {
                        &&& line_index as int >= ls.len()
                        &&& e.given as int == (if line_index as int == ls.len() {
                            line_index as int + 1
                        } else {
                            line_index as int
                        })
                        &&& e.max as int == ls.len()
                    },
                }
            }),
    {
        let f = &self.files[file_id.0];
        proof {
            use_type_invariant(f);
            lemma_line_starts_props(f.source@);
            lemma_prefix_utf8_len_mono(f.source@, 0, f.source@.len() as int);
        }
        let n = f.line_starts.len();
        if line_index < n {
            let start = f.line_starts[line_index];
            let end = if line_index + 1 < n {
                f.line_starts[line_index + 1]
            } else {
                f.len
            };
            Ok(Span { start, end })
        } else if line_index == n {
            Err(LineIndexOutOfBoundsError { given: line_index + 1, max: n })
        } else {
            Err(LineIndexOutOfBoundsError { given: line_index, max: n })
        }
    }

    /// Resolve a byte index to a location: the line containing it, and the
    /// column counted in grapheme clusters from the line's start.
    pub fn location(&self, file_id: FileId, byte_index: usize) -> (r: Result<
        Location,
        LocationError,
    >)
        requires
            self.has_file(file_id),
        ensures
            ({
                let s = self.source_of(file_id);
                match r {
                    Ok(loc) => {
                        &&& byte_index as int <= utf8_len(s)
                        &&& is_char_boundary_at(s, byte_index as int)
                        &&& loc.line as int == line_index_of(s, byte_index as int)
                        &&& loc.column as int <= utf8_len(s)
                        &&& loc.column as int == grapheme_count(
                            s.subrange(
                                char_index_at(
                                    s,
                                    line_starts_of(s)[line_index_of(s, byte_index as int)],
                                ),
                                char_index_at(s, byte_index as int),
                            ),
                        )
                    },
                    Err(LocationError::OutOfBounds { given, span }) => {
                        &&& given == byte_index
                        &&& byte_index as int > utf8_len(s)
                        &&& span.start == 0
                        &&& span.end as int == utf8_len(s)
                    },
                    Err(LocationError::InvalidCharBoundary { given }) => {
                        &&& given == byte_index
                        &&& byte_index as int <= utf8_len(s)
                        &&& !is_char_boundary_at(s, byte_index as int)
                    },
                }
            }),
    {
        let f = &self.files[file_id.0];
        proof {
            use_type_invariant(f);
            lemma_line_starts_props(f.source@);
        }
        let ghost s = f.source@;
        if byte_index > f.len {
            return Err(LocationError::OutOfBounds {
                given: byte_index,
                span: Span { start: 0, end: f.len },
            });
        }
        let line = greatest_start_le(&f.line_starts, byte_index);
        let line_start = f.line_starts[line];
        proof {
            assert(is_line_index_of(s, byte_index as int, line as int));
            lemma_line_index_of(s, byte_index as int);
            assert(is_char_boundary_at(s, line_start as int));
        }
        let ka = match find_char_index(f.source.as_str(), 0, 0, line_start) {
            Some(k) => k,
            None => {
                proof {
                    lemma_char_index_at(s, line_start as int);
                    assert(false);
                }
                0
            },
        };
        let kb_opt = find_char_index(f.source.as_str(), ka, line_start, byte_index);
        match kb_opt {
            Some(kb) => {
                proof {
                    lemma_char_index_at(s, line_start as int);
                    lemma_char_index_at(s, byte_index as int);
                    if kb < ka {
                        lemma_prefix_utf8_len_mono(s, kb as int, ka as int);
                    }
                    lemma_prefix_utf8_len_mono(s, 0, s.len() as int);
                }
                let line_str = f.source.as_str().substring_char(ka, kb);
                let column = count_graphemes(line_str);
                Ok(Location { line, column })
            },
            None => {
                proof {
                    assert forall|k: int|
                        0 <= k <= s.len() implies prefix_utf8_len(s, k) != byte_index as int by {
                        if k < ka as int {
                            lemma_prefix_utf8_len_mono(s, k, ka as int);
                        }
                    }
                }
                Err(LocationError::InvalidCharBoundary { given: byte_index })
            },
        }
    }

    /// Return the exact slice of the source inside `span`. Fails when the
    /// span reaches outside the text, is inverted, or when an endpoint falls
    /// inside a multi-byte character.
    pub fn source_slice(&self, file_id: FileId, span: Span) -> (r: Result<
        &str,
        SpanOutOfBoundsError,
    >)
        requires
            self.has_file(file_id),
        ensures
            ({
                let s = self.source_of(file_id);
                let valid = {
                    &&& span.start <= span.end
                    &&& span.end as int <= utf8_len(s)
                    &&& is_char_boundary_at(s, span.start as int)
                    &&& is_char_boundary_at(s, span.end as int)
                };
                match r {
                    Ok(t) => valid && t@ == s.subrange(
                        char_index_at(s, span.start as int),
                        char_index_at(s, span.end as int),
                    ),
                    Err(e) => {
                        &&& !valid
                        &&& e.given == span
                        &&& e.span.start == 0
                        &&& e.span.end as int == utf8_len(s)
                    },
                }
            }),
    {
        let f = &self.files[file_id.0];
        proof {
            use_type_invariant(f);
        }
        let ghost s = f.source@;
        let whole = Span { start: 0, end: f.len };
        if span.start > span.end || span.end > f.len {
            return Err(SpanOutOfBoundsError { given: span, span: whole });
        }
        let ka = match find_char_index(f.source.as_str(), 0, 0, span.start) {
            Some(k) => k,
            None => {
                return Err(SpanOutOfBoundsError { given: span, span: whole });
            },
        };
        let kb = match find_char_index(f.source.as_str(), ka, span.start, span.end) {
            Some(k) => k,
            None => {
                proof {
                    assert forall|k: int|
                        0 <= k <= s.len() implies prefix_utf8_len(s, k) != span.end as int by {
                        if k < ka as int {
                            lemma_prefix_utf8_len_mono(s, k, ka as int);
                        }
                    }
                }
                return Err(SpanOutOfBoundsError { given: span, span: whole });
            },
        };
        proof {
            lemma_char_index_at(s, span.start as int);
            lemma_char_index_at(s, span.end as int);
            if kb < ka {
                lemma_prefix_utf8_len_mono(s, kb as int, ka as int);
            }
        }
        Ok(f.source.as_str().substring_char(ka, kb))
    }
}

/// Find the index of the character of `source` that starts at byte offset
/// `target`, walking forward from character `from_char` (which starts at
/// byte offset `from_off`). Returns `None` when `target` is not a character
/// boundary at or after the starting point.
fn find_char_index(source: &str, from_char: usize, from_off: usize, target: usize) -> (r: Option<
    usize,
>)
    requires
        from_char as int <= source@.len(),
        from_off as int == prefix_utf8_len(source@, from_char as int),
        from_off <= target,
        utf8_len(source@) < usize::MAX,
    ensures
        match r {
            Some(k) => {
                &&& from_char <= k
                &&& k as int <= source@.len()
                &&& prefix_utf8_len(source@, k as int) == target as int
            },
            None => forall|k: int|
                from_char as int <= k <= source@.len() ==> prefix_utf8_len(source@, k)
                    != target as int,
        },
{
    let ghost s = source@;
    let n = source.unicode_len();
    let mut k = from_char;
    let mut off = from_off;
    while off < target && k < n
        invariant
            s == source@,
            n == s.len(),
            from_char <= k <= n,
            off as int == prefix_utf8_len(s, k as int),
            utf8_len(s) < usize::MAX,
            forall|k2: int| from_char as int <= k2 < k as int ==> prefix_utf8_len(s, k2) < target,
        decreases n - k,
    {
        let c = source.get_char(k);
        let w = utf8_width_of_char(c);
        proof {
            lemma_prefix_utf8_len_mono(s, k as int + 1, n as int);
        }
        off = off + w;
        k = k + 1;
    }
    if off == target {
        Some(k)
    } else {
        proof {
            assert forall|k2: int|
                from_char as int <= k2 <= s.len() implies prefix_utf8_len(s, k2)
                != target as int by {
                if k as int <= k2 {
                    lemma_prefix_utf8_len_mono(s, k as int, k2);
                }
            }
        }
        None
    }
}

/// The index of the last entry of `starts` that is at most `b`; entries are
/// strictly increasing and begin at 0.
fn greatest_start_le(starts: &Vec<usize>, b: usize) -> (r: usize)
    requires
        starts@.len() >= 1,
        starts@[0] == 0,
        forall|j1: int, j2: int|
            #![trigger starts@[j1], starts@[j2]]
            0 <= j1 < j2 < starts@.len() ==> starts@[j1] < starts@[j2],
    ensures
        (r as int) < starts@.len(),
        starts@[r as int] <= b,
        r as int + 1 < starts@.len() ==> b < starts@[r as int + 1],
{
    let mut lo: usize = 0;
    let mut hi: usize = starts.len() - 1;
    while lo < hi
        invariant
            lo <= hi,
            (hi as int) < starts@.len(),
            starts@.len() >= 1,
            starts@[lo as int] <= b,
            hi as int + 1 < starts@.len() ==> b < starts@[hi as int + 1],
            forall|j1: int, j2: int|
                #![trigger starts@[j1], starts@[j2]]
                0 <= j1 < j2 < starts@.len() ==> starts@[j1] < starts@[j2],
        decreases hi - lo,
    {
        let mid = lo + (hi - lo) / 2 + 1;
        if starts[mid] <= b {
            lo = mid;
        } else {
            hi = mid - 1;
        }
    }
    lo
}

/// The lines of `s` from line `j` on, concatenated: each line's characters
/// as `source_slice` of its `line_span` returns them.
pub open spec fn line_slices_from(s: Seq<char>, j: int) -> Seq<char>
    decreases line_starts_of(s).len() - j,
    when 0 <= j <= line_starts_of(s).len()
{
    if j >= line_starts_of(s).len() {
        Seq::empty()
    } else {
        line_chars_of(s, j) + line_slices_from(s, j + 1)
    }
}

proof fn lemma_line_slices_suffix(s: Seq<char>, j: int)
    requires
        0 <= j <= line_starts_of(s).len(),
    ensures
        line_slices_from(s, j) =~= s.skip(
            if j < line_starts_of(s).len() {
                char_index_at(s, line_start_of(s, j))
            } else {
                s.len() as int
            },
        ),
    decreases line_starts_of(s).len() - j,
{
    lemma_line_starts_props(s);
    if j < line_starts_of(s).len() {
        lemma_line_slices_suffix(s, j + 1);
        lemma_line_box(s, j);
        if j + 1 < line_starts_of(s).len() {
            lemma_line_box(s, j + 1);
            assert(line_end_of(s, j) == line_start_of(s, j + 1));
        } else {
            assert(prefix_utf8_len(s, s.len() as int) == utf8_len(s));
            lemma_char_index_at(s, utf8_len(s));
            assert(char_index_at(s, line_end_of(s, j)) == s.len());
        }
    }
}

/// Line spans cover the text: concatenating the slices of
/// `line_span(0), line_span(1), ...` up to the last line losslessly
/// reconstructs the source.
pub proof fn lemma_line_spans_reconstruct(s: Seq<char>)
    ensures
        line_slices_from(s, 0) == s,
{
    lemma_line_starts_props(s);
    lemma_line_slices_suffix(s, 0);
    assert(prefix_utf8_len(s, 0) == 0);
    lemma_char_index_at(s, 0);
    assert(char_index_at(s, line_start_of(s, 0)) == 0);
    assert(s.skip(0) =~= s);
}

/// A resolved location points into its own line: for a byte offset on a
/// character boundary, the offset lies between the start and the end of the
/// line that `location` reports, and the text whose grapheme clusters the
/// column counts is exactly a prefix of the slice that
/// `source_slice(line_span(line))` returns.
pub proof fn lemma_location_in_line(s: Seq<char>, b: int)
    requires
        0 <= b <= utf8_len(s),
        is_char_boundary_at(s, b),
    ensures
        ({
            let line = line_index_of(s, b);
            let ka = char_index_at(s, line_start_of(s, line));
            let kb = char_index_at(s, b);
            &&& 0 <= line < line_starts_of(s).len()
            &&& line_start_of(s, line) <= b <= line_end_of(s, line)
            &&& ka <= kb <= char_index_at(s, line_end_of(s, line))
            &&& s.subrange(ka, kb) == line_chars_of(s, line).take(kb - ka)
        }),
{
    lemma_line_starts_props(s);
    lemma_line_index_of(s, b);
    let line = line_index_of(s, b);
    lemma_line_box(s, line);
    lemma_char_index_at(s, b);
    let ka = char_index_at(s, line_start_of(s, line));
    let ke = char_index_at(s, line_end_of(s, line));
    let kb = char_index_at(s, b);
    assert(b <= line_end_of(s, line));
    if kb < ka {
        lemma_prefix_utf8_len_mono(s, kb, ka);
    }
    if ke < kb {
        lemma_prefix_utf8_len_mono(s, ke, kb);
    }
    assert(s.subrange(ka, kb) =~= line_chars_of(s, line).take(kb - ka));
}

} // verus!

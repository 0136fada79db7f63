//! The file-backend interface that the renderer depends on: any database
//! that can name a file, resolve lines and locations, and slice source text
//! can back the snippet layout engine. The concrete `Files` database is the
//! reference implementation.

use crate::file::FileId;
use crate::text::{char_index_at, is_char_boundary_at, line_index_of, line_starts_of, utf8_len};
use crate::unicode::grapheme_count;
use crate::Location;
use vstd::prelude::*;

verus! {

/// A byte range: the renderer only needs its two endpoints.
pub trait Span {
    /// The starting byte index as a mathematical value.
    spec fn start_spec(&self) -> int;

    /// The ending byte index as a mathematical value.
    spec fn end_spec(&self) -> int;

    /// The starting byte index.
    fn start(&self) -> (r: usize)
        ensures
            r as int == self.start_spec(),
    ;

    /// The ending byte index.
    fn end(&self) -> (r: usize)
        ensures
            r as int == self.end_spec(),
    ;
}

impl Span for crate::Span {
    open spec fn start_spec(&self) -> int {
        self.start as int
    }

    open spec fn end_spec(&self) -> int {
        self.end as int
    }

    fn start(&self) -> (r: usize)
        ensures
            r as int == self.start_spec(),
    {
        self.start
    }

    fn end(&self) -> (r: usize)
        ensures
            r as int == self.end_spec(),
    {
        self.end
    }
}

/// A database of source files, as the renderer sees it: each file a name
/// and a text, lines and locations resolved against that text.
pub trait Files {
    /// True when `id` refers to a file of this database.
    spec fn has_file(&self, id: FileId) -> bool;

    /// The name of the file that `id` refers to.
    spec fn name_of(&self, id: FileId) -> Seq<char>;

    /// The source text of the file that `id` refers to.
    spec fn source_of(&self, id: FileId) -> Seq<char>;

    /// Get the name of a source file.
    fn name(&self, id: FileId) -> (r: String)
        requires
            self.has_file(id),
        ensures
            r@ == self.name_of(id),
    ;

    /// Get the span of the line at the given index, or `None` when the
    /// index lies beyond the file's line count.
    fn line_span(&self, id: FileId, line_index: usize) -> (r: Option<crate::Span>)
        requires
            self.has_file(id),
        ensures
            ({
                let s = self.source_of(id);
                let ls = line_starts_of(s);
                match r {
                    Some(span) => {
                        &&& (line_index as int) < ls.len()
                        &&& span.start as int == ls[line_index as int]
                        &&& span.end as int == (if line_index as int + 1 < ls.len() {
                            ls[line_index as int + 1]
                        } else {
                            utf8_len(s)
                        })
                    },
                    None => line_index as int >= ls.len(),
                }
            }),
    ;

    /// Resolve a byte index to a line and a grapheme-cluster column, or
    /// `None` when it lies beyond the file or inside a character.
    fn location(&self, id: FileId, byte_index: usize) -> (r: Option<Location>)
        requires
            self.has_file(id),
        ensures
            ({
                let s = self.source_of(id);
                match r {
                    Some(loc) => {
                        &&& byte_index as int <= utf8_len(s)
                        &&& is_char_boundary_at(s, byte_index as int)
                        &&& loc.line as int == line_index_of(s, byte_index as int)
                        &&& loc.column as int <= utf8_len(s)
                        &&& loc.column as int == grapheme_count(
                            s.subrange(
                                char_index_at(
                                    s,
                                    line_starts_of(s)[line_index_of(s, byte_index as int)],
                                ),
                                char_index_at(s, byte_index as int),
                            ),
                        )
                    },
                    None => !(byte_index as int <= utf8_len(s) && is_char_boundary_at(
                        s,
                        byte_index as int,
                    )),
                }
            }),
    ;

    /// The span of the full source text.
    fn source_span(&self, id: FileId) -> (r: crate::Span)
        requires
            self.has_file(id),
        ensures
            r.start == 0,
            r.end as int == utf8_len(self.source_of(id)),
    ;

    /// The exact slice of the source inside `span`, or `None` when the span
    /// reaches outside the text, is inverted, or has an endpoint inside a
    /// character.
    fn source_slice(&self, id: FileId, span: crate::Span) -> (r: Option<String>)
        requires
            self.has_file(id),
        ensures
            ({
                let s = self.source_of(id);
                let valid = {
                    &&& span.start <= span.end
                    &&& span.end as int <= utf8_len(s)
                    &&& is_char_boundary_at(s, span.start as int)
                    &&& is_char_boundary_at(s, span.end as int)
                };
                match r {
                    Some(t) => valid && t@ == s.subrange(
                        char_index_at(s, span.start as int),
                        char_index_at(s, span.end as int),
                    ),
                    None => !valid,
                }
            }),
    ;
}

impl Files for crate::file::Files {
    open spec fn has_file(&self, id: FileId) -> bool {
        crate::file::Files::has_file(self, id)
    }

    open spec fn name_of(&self, id: FileId) -> Seq<char> {
        crate::file::Files::name_of(self, id)
    }

    open spec fn source_of(&self, id: FileId) -> Seq<char> {
        crate::file::Files::source_of(self, id)
    }

    fn name(&self, id: FileId) -> (r: String) {
        crate::file::Files::name(self, id).to_owned()
    }

    fn line_span(&self, id: FileId, line_index: usize) -> (r: Option<crate::Span>) {
        match crate::file::Files::line_span(self, id, line_index) {
            Ok(span) => Some(span),
            Err(_) => None,
        }
    }

    fn location(&self, id: FileId, byte_index: usize) -> (r: Option<Location>) {
        match crate::file::Files::location(self, id, byte_index) {
            Ok(loc) => Some(loc),
            Err(_) => None,
        }
    }

    fn source_span(&self, id: FileId) -> (r: crate::Span) {
        crate::file::Files::source_span(self, id)
    }

    fn source_slice(&self, id: FileId, span: crate::Span) -> (r: Option<String>) {
        match crate::file::Files::source_slice(self, id, span) {
            Ok(t) => Some(t.to_owned()),
            Err(_) => None,
        }
    }
}

} // verus!

//! Tests of the source-file database and the position translator: line
//! spans, locations, slices, and the UTF-16 editor-protocol conversions.

use codespan::file::{Files, LineIndexOutOfBoundsError, LocationError, SpanOutOfBoundsError};
use codespan::lsp::{LspFilesError, Position};
use codespan::{Location, Span};

const TEST_SOURCE: &str = "foo\nbar\r\n\nbaz";

#[test]
fn line_starts() {
    let mut files = Files::new();
    let file_id = files.add("test", TEST_SOURCE);

    let starts: Vec<usize> = (0..4)
        .map(|line| files.line_span(file_id, line).unwrap().start)
        .collect();
    assert_eq!(
        starts,
        vec![
            0,  // "foo\n"
            4,  // "bar\r\n"
            9,  // ""
            10, // "baz"
        ],
    );
}

#[test]
fn line_span_sources() {
    let mut files = Files::new();
    let file_id = files.add("test", TEST_SOURCE);

    let line_sources = (0..4)
        .map(|line| {
            let line_span = files.line_span(file_id, line).unwrap();
            files.source_slice(file_id, line_span)
        })
        .collect::<Vec<_>>();

    assert_eq!(
        line_sources,
        [Ok("foo\n"), Ok("bar\r\n"), Ok("\n"), Ok("baz")],
    );
}

#[test]
fn line_span_out_of_bounds() {
    let mut files = Files::new();
    let file_id = files.add("test", TEST_SOURCE);

    assert_eq!(files.line_span(file_id, 3), Ok(Span::new(10, 13)));
    assert_eq!(
        files.line_span(file_id, 4),
        Err(LineIndexOutOfBoundsError { given: 5, max: 4 }),
    );
    assert_eq!(
        files.line_span(file_id, 7),
        Err(LineIndexOutOfBoundsError { given: 7, max: 4 }),
    );
}

#[test]
fn locations() {
    let mut files = Files::new();
    let file_id = files.add("test", TEST_SOURCE);

    assert_eq!(files.location(file_id, 0), Ok(Location::new(0, 0)));
    assert_eq!(files.location(file_id, 7), Ok(Location::new(1, 3)));
    assert_eq!(files.location(file_id, 8), Ok(Location::new(1, 4)));
    assert_eq!(files.location(file_id, 9), Ok(Location::new(2, 0)));
    assert_eq!(
        files.location(file_id, 100),
        Err(LocationError::OutOfBounds {
            given: 100,
            span: Span::new(0, 13),
        }),
    );
}

#[test]
fn location_inside_character() {
    let mut files = Files::new();
    // "ä" takes two bytes, so offset 1 splits it.
    let file_id = files.add("unicode", "\u{e4}b");

    assert_eq!(
        files.location(file_id, 1),
        Err(LocationError::InvalidCharBoundary { given: 1 }),
    );
    assert_eq!(files.location(file_id, 2), Ok(Location::new(0, 1)));
}

#[test]
fn location_counts_grapheme_clusters() {
    let mut files = Files::new();
    // "a" followed by a combining candrabindu forms one grapheme cluster of
    // two characters (three bytes); "e" starts at byte 3 but at column 1.
    let file_id = files.add("combining", "a\u{310}e");

    assert_eq!(files.location(file_id, 3), Ok(Location::new(0, 1)));
}

#[test]
fn source_and_name() {
    let mut files = Files::new();
    let file_id = files.add("test", "hello world!");

    assert_eq!(files.name(file_id), "test");
    assert_eq!(files.source(file_id), "hello world!");
    assert_eq!(files.source_span(file_id), Span::new(0, 12));
}

#[test]
fn source_slice_bounds() {
    let mut files = Files::new();
    let file_id = files.add("test", "hello world!");

    assert_eq!(files.source_slice(file_id, Span::new(0, 5)), Ok("hello"));
    assert_eq!(
        files.source_slice(file_id, Span::new(0, 100)),
        Err(SpanOutOfBoundsError {
            given: Span::new(0, 100),
            span: Span::new(0, 12),
        }),
    );
}

#[test]
fn update_replaces_text() {
    let mut files = Files::new();
    let file_id = files.add("test", "foo");
    files.update(file_id, "bar\nbaz");

    assert_eq!(files.name(file_id), "test");
    assert_eq!(files.source(file_id), "bar\nbaz");
    assert_eq!(files.line_span(file_id, 1), Ok(Span::new(4, 7)));
}

#[test]
fn position() {
    let text = r#"
let test = 2
let test1 = ""
test
"#;
    let mut files = Files::new();
    let file_id = files.add("test", text);
    let pos = files
        .lsp_position_to_byte_index(
            file_id,
            &Position {
                line: 3,
                character: 2,
            },
        )
        .unwrap();
    assert_eq!(Location::new(3, 2), files.location(file_id, pos).unwrap());
}

// The protocol specifies that each `character` in a position is a UTF-16
// code unit. This means that `å` and `ä` here count as 1 while `𠀀` counts
// as 2.
const UNICODE: &str = "\u{e5}\u{e4} t\u{20000}b";

#[test]
fn unicode_get_byte_index() {
    let mut files = Files::new();
    let file_id = files.add("unicode", UNICODE);

    let result = files.lsp_position_to_byte_index(
        file_id,
        &Position {
            line: 0,
            character: 3,
        },
    );
    assert_eq!(result, Ok(5));

    let result = files.lsp_position_to_byte_index(
        file_id,
        &Position {
            line: 0,
            character: 6,
        },
    );
    assert_eq!(result, Ok(10));
}

#[test]
fn unicode_get_position() {
    let mut files = Files::new();
    let file_id = files.add("unicode", UNICODE);

    let result = files.byte_index_to_lsp_position(file_id, 5);
    assert_eq!(
        result,
        Ok(Position {
            line: 0,
            character: 3,
        })
    );

    let result = files.byte_index_to_lsp_position(file_id, 10);
    assert_eq!(
        result,
        Ok(Position {
            line: 0,
            character: 6,
        })
    );
}

#[test]
fn utf16_round_trips() {
    let mut files = Files::new();
    let file_id = files.add("unicode", UNICODE);

    // Every character boundary survives the round trip through a protocol
    // position.
    for byte in [0usize, 2, 4, 5, 6, 10, 11] {
        let pos = files.byte_index_to_lsp_position(file_id, byte).unwrap();
        let back = files.lsp_position_to_byte_index(file_id, &pos).unwrap();
        assert_eq!(back, byte);
    }
}

#[test]
fn utf16_column_out_of_bounds() {
    let mut files = Files::new();
    let file_id = files.add("test", "ab\ncd");

    let result = files.lsp_position_to_byte_index(
        file_id,
        &Position {
            line: 0,
            character: 9,
        },
    );
    assert_eq!(
        result,
        Err(LspFilesError::ColumnOutOfBounds { given: 9, max: 3 }),
    );

    let result = files.lsp_position_to_byte_index(
        file_id,
        &Position {
            line: 9,
            character: 0,
        },
    );
    assert_eq!(
        result,
        Err(LspFilesError::LineIndexOutOfBounds(
            LineIndexOutOfBoundsError { given: 9, max: 2 }
        )),
    );
}

#[test]
fn error_messages() {
    assert_eq!(
        LineIndexOutOfBoundsError { given: 5, max: 4 }.message(),
        "Line index out of bounds - given: 5, max: 4",
    );
    assert_eq!(
        LocationError::OutOfBounds {
            given: 100,
            span: Span::new(0, 13),
        }
        .message(),
        "Byte index out of bounds - given: 100, span: [0, 13)",
    );
    assert_eq!(
        LocationError::InvalidCharBoundary { given: 1 }.message(),
        "Byte index within character boundary - given: 1",
    );
    assert_eq!(
        SpanOutOfBoundsError {
            given: Span::new(0, 100),
            span: Span::new(0, 12),
        }
        .message(),
        "Span out of bounds - given: [0, 100), span: [0, 12)",
    );
    assert_eq!(
        LspFilesError::ColumnOutOfBounds { given: 3, max: 3 }.message(),
        "Column out of bounds - given: 3, max: 3",
    );
    assert_eq!(
        LspFilesError::UnableToCorrelateFilename("a".to_owned()).message(),
        "Unable to correlate filename `a` to url",
    );
    assert_eq!(Span::new(2, 7).display_string(), "[2, 7)");
}

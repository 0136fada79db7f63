//! Tests of the diagnostic model and the snippet renderer: exact rendered
//! text for single-line, multi-line and tabbed sources, the short display
//! style, and the translation to editor-protocol diagnostics.

use codespan::config::{Color, ColorSpec, Config, DisplayStyle};
use codespan::diagnostic::{Diagnostic, Label, LabelStyle, Severity, Title};
use codespan::file::{FileId, Files};
use codespan::lsp::{LspFilesError, Position, Range};
use codespan::render::{emit, Segment};
use codespan::Span;

fn rendered(segments: &[Segment]) -> String {
    let mut out = String::new();
    for segment in segments {
        out.push_str(&segment.text);
    }
    out
}

#[test]
fn severity_is_ordered() {
    assert!(Severity::Bug > Severity::Error);
    assert!(Severity::Error > Severity::Warning);
    assert!(Severity::Warning > Severity::Note);
    assert!(Severity::Note > Severity::Help);
    // The order is transitive across the whole chain.
    assert!(Severity::Bug > Severity::Help);
    assert!(!(Severity::Help > Severity::Bug));
    assert!(!(Severity::Error > Severity::Error));
}

#[test]
fn severity_ranks() {
    assert_eq!(Severity::Bug.to_cmp_int(), 5);
    assert_eq!(Severity::Error.to_cmp_int(), 4);
    assert_eq!(Severity::Warning.to_cmp_int(), 3);
    assert_eq!(Severity::Note.to_cmp_int(), 2);
    assert_eq!(Severity::Help.to_cmp_int(), 1);
}

#[test]
fn builders_fill_fields() {
    let mut files = Files::new();
    let file_id = files.add("test", "squawk");

    let title = Title::new("unexpected type").with_code("E0001");
    assert_eq!(title.message, "unexpected type");
    assert_eq!(title.code, Some("E0001".to_owned()));

    let diagnostic = Diagnostic::error()
        .with_title(title)
        .with_labels(vec![
            Label::primary(file_id, Span::new(0, 6), "here"),
            Label::secondary(file_id, Span::new(0, 1), "start"),
        ])
        .with_notes(vec!["a note".to_owned()]);

    assert_eq!(diagnostic.severity, Severity::Error);
    assert_eq!(diagnostic.labels.len(), 2);
    assert_eq!(diagnostic.labels[0].style, LabelStyle::Primary);
    assert_eq!(diagnostic.labels[1].style, LabelStyle::Secondary);
    assert_eq!(diagnostic.labels[0].message, "here");
    assert_eq!(diagnostic.notes, vec!["a note".to_owned()]);
    assert_eq!(Diagnostic::bug().severity, Severity::Bug);
    assert_eq!(Diagnostic::warning().severity, Severity::Warning);
    assert_eq!(Diagnostic::note().severity, Severity::Note);
    assert_eq!(Diagnostic::help().severity, Severity::Help);
}

#[test]
fn width_counts_tabs_and_wide_characters() {
    let config = Config::default();
    assert_eq!(config.width("abc"), 3);
    assert_eq!(config.width("\tab"), 6);
    // A fullwidth character occupies two columns; a combining mark none.
    assert_eq!(config.width("\u{4f60}"), 2);
    assert_eq!(config.width("a\u{301}"), 1);

    let narrow = Config { tab_width: 3, ..Config::default() };
    assert_eq!(narrow.width("\tab"), 5);
    assert_eq!(narrow.tab_padding(), "   ");
}

#[test]
fn single_line_labels_stack_under_one_source_line() {
    let mut files = Files::new();
    let file_id = files.add("f", "hello");
    let diagnostic = Diagnostic::warning()
        .with_title(Title::new("t"))
        .with_labels(vec![
            Label::primary(file_id, Span::new(0, 2), "p"),
            Label::secondary(file_id, Span::new(3, 5), "s"),
        ]);

    let mut out: Vec<Segment> = Vec::new();
    emit(&files, &Config::default(), &diagnostic, &mut out).unwrap();
    assert_eq!(
        rendered(&out),
        "warning: t\n\
         \n  \u{250c}\u{2500}\u{2500} f:1:1 \u{2500}\u{2500}\u{2500}\n\
         \x20 \u{2502}\n\
         1 \u{2502} hello\n\
         \x20 \u{2502} ^^ p\n\
         \x20 \u{2502}    -- s\n\
         \x20 \u{2502}\n\
         \n",
    );
}

#[test]
fn multi_line_label_uses_corners_and_margin() {
    let mut files = Files::new();
    let file_id = files.add("test", "ab\ncd");
    let diagnostic = Diagnostic::error()
        .with_title(Title::new("t"))
        .with_labels(vec![Label::primary(file_id, Span::new(1, 4), "m")]);

    let mut out: Vec<Segment> = Vec::new();
    emit(&files, &Config::default(), &diagnostic, &mut out).unwrap();
    assert_eq!(
        rendered(&out),
        "error: t\n\
         \n  \u{250c}\u{2500}\u{2500} test:1:2 \u{2500}\u{2500}\u{2500}\n\
         \x20 \u{2502}\n\
         1 \u{2502} \u{256d} ab\n\
         2 \u{2502} \u{2502} cd\n\
         \x20 \u{2502} \u{2570}\u{2500}^ m\n\
         \x20 \u{2502}\n\
         \n",
    );
}

#[test]
fn carets_follow_tab_expansion() {
    let mut files = Files::new();
    let file_id = files.add("t", "\ta");
    let diagnostic = Diagnostic::warning()
        .with_title(Title::new("t"))
        .with_labels(vec![Label::primary(file_id, Span::new(1, 2), "m")]);

    let mut wide: Vec<Segment> = Vec::new();
    emit(&files, &Config::default(), &diagnostic, &mut wide).unwrap();
    assert_eq!(
        rendered(&wide),
        "warning: t\n\
         \n  \u{250c}\u{2500}\u{2500} t:1:2 \u{2500}\u{2500}\u{2500}\n\
         \x20 \u{2502}\n\
         1 \u{2502}     a\n\
         \x20 \u{2502}     ^ m\n\
         \x20 \u{2502}\n\
         \n",
    );

    // With a narrower tab the caret moves left exactly as far as the tab
    // shrinks, staying under the labelled character.
    let config = Config { tab_width: 3, ..Config::default() };
    let mut narrow: Vec<Segment> = Vec::new();
    emit(&files, &config, &diagnostic, &mut narrow).unwrap();
    assert_eq!(
        rendered(&narrow),
        "warning: t\n\
         \n  \u{250c}\u{2500}\u{2500} t:1:2 \u{2500}\u{2500}\u{2500}\n\
         \x20 \u{2502}\n\
         1 \u{2502}    a\n\
         \x20 \u{2502}    ^ m\n\
         \x20 \u{2502}\n\
         \n",
    );
}

#[test]
fn notes_render_as_bulleted_block() {
    let files = Files::new();
    let diagnostic = Diagnostic::note()
        .with_title(Title::new("t"))
        .with_notes(vec!["x\ny".to_owned()]);

    let mut out: Vec<Segment> = Vec::new();
    emit(&files, &Config::default(), &diagnostic, &mut out).unwrap();
    assert_eq!(rendered(&out), "note: t\n\n = x\n   y\n\n");
}

#[test]
fn short_mode_is_one_line() {
    let mut files = Files::new();
    let file_id = files.add("f", "hello");
    let diagnostic = Diagnostic::warning()
        .with_title(Title::new("t").with_code("W1"))
        .with_labels(vec![Label::primary(file_id, Span::new(3, 5), "p")]);

    let config = Config { display_style: DisplayStyle::Short, ..Config::default() };
    let mut out: Vec<Segment> = Vec::new();
    emit(&files, &config, &diagnostic, &mut out).unwrap();
    assert_eq!(rendered(&out), "f:1:4: warning[W1]: t\n");
}

#[test]
fn emit_rejects_unresolvable_labels() {
    let mut files = Files::new();
    let file_id = files.add("f", "hi");
    let diagnostic = Diagnostic::error()
        .with_title(Title::new("t"))
        .with_labels(vec![Label::primary(file_id, Span::new(0, 99), "p")]);

    let mut out: Vec<Segment> = Vec::new();
    let result = emit(&files, &Config::default(), &diagnostic, &mut out);
    assert!(result.is_err());
    assert_eq!(result.unwrap_err().given, Span::new(0, 99));
    assert!(out.is_empty());
}

#[test]
fn lsp_severities() {
    assert_eq!(Severity::Bug.into_lsp_severity(), 1);
    assert_eq!(Severity::Error.into_lsp_severity(), 1);
    assert_eq!(Severity::Warning.into_lsp_severity(), 2);
    assert_eq!(Severity::Note.into_lsp_severity(), 3);
    assert_eq!(Severity::Help.into_lsp_severity(), 4);
}

#[test]
fn diagnostic_to_lsp() {
    let mut files = Files::new();
    let file_id = files.add("a", "foo\nbar");
    let diagnostic = Diagnostic::error()
        .with_title(Title::new("msg").with_code("E1"))
        .with_labels(vec![
            Label::primary(file_id, Span::new(4, 7), "here"),
            Label::secondary(file_id, Span::new(0, 3), "ctx"),
        ])
        .with_notes(vec!["n1\nn2".to_owned()]);

    let resolve = |_: FileId| Some("file:///a".to_owned());
    let result = files
        .diagnostic_to_lsp_diagnostic(Some("me".to_owned()), &diagnostic, &resolve)
        .unwrap();

    assert_eq!(
        result.range,
        Range {
            start: Position { line: 1, character: 0 },
            end: Position { line: 1, character: 3 },
        },
    );
    assert_eq!(result.code, Some("E1".to_owned()));
    assert_eq!(result.source, Some("me".to_owned()));
    assert_eq!(result.severity, 1);
    assert_eq!(result.message, "msg\n\n  \u{2022} n1\n    n2\n");
    assert_eq!(result.related_information.len(), 1);
    assert_eq!(result.related_information[0].uri, "file:///a");
    assert_eq!(result.related_information[0].message, "ctx");
    assert_eq!(
        result.related_information[0].range,
        Range {
            start: Position { line: 0, character: 0 },
            end: Position { line: 0, character: 3 },
        },
    );
}

#[test]
fn diagnostic_to_lsp_unresolved_uri() {
    let mut files = Files::new();
    let file_id = files.add("a", "foo");
    let diagnostic = Diagnostic::error()
        .with_title(Title::new("msg"))
        .with_labels(vec![
            Label::primary(file_id, Span::new(0, 3), "here"),
            Label::secondary(file_id, Span::new(0, 1), "ctx"),
        ]);

    let resolve = |_: FileId| None;
    let result = files.diagnostic_to_lsp_diagnostic(None, &diagnostic, &resolve);
    assert_eq!(
        result,
        Err(LspFilesError::UnableToCorrelateFilename("a".to_owned())),
    );
}

#[test]
fn empty_span_renders_one_caret() {
    let mut files = Files::new();
    let file_id = files.add("hello", "Hello world!\nBye world!");
    let diagnostic = Diagnostic::note()
        .with_title(Title::new("middle"))
        .with_labels(vec![Label::primary(file_id, Span::new(6, 6), "middle")]);

    let mut out: Vec<Segment> = Vec::new();
    emit(&files, &Config::default(), &diagnostic, &mut out).unwrap();
    assert_eq!(
        rendered(&out),
        "note: middle\n\
         \n  \u{250c}\u{2500}\u{2500} hello:1:7 \u{2500}\u{2500}\u{2500}\n\
         \x20 \u{2502}\n\
         1 \u{2502} Hello world!\n\
         \x20 \u{2502}       ^ middle\n\
         2 \u{2502} Bye world!\n\
         \x20 \u{2502}\n\
         \n",
    );
}

#[test]
fn labels_in_two_files_render_two_snippets() {
    let mut files = Files::new();
    let first = files.add("first", "one");
    let second = files.add("second", "two");
    let diagnostic = Diagnostic::error()
        .with_title(Title::new("t"))
        .with_labels(vec![
            Label::primary(second, Span::new(0, 3), "p"),
            Label::secondary(first, Span::new(0, 3), "s"),
        ]);

    let mut out: Vec<Segment> = Vec::new();
    emit(&files, &Config::default(), &diagnostic, &mut out).unwrap();
    let text = rendered(&out);
    let at_second = text.find("second:1:1").unwrap();
    let at_first = text.find("first:1:1").unwrap();
    // The snippet of the primary label's file comes first.
    assert!(at_second < at_first);
    assert!(text.contains("1 \u{2502} two"));
    assert!(text.contains("1 \u{2502} one"));
}

#[test]
fn interleaved_files_are_partitioned() {
    let mut files = Files::new();
    let first = files.add("first", "one");
    let second = files.add("second", "two");
    // Labels interleave the two files; the engine partitions them: the
    // primary label's file renders first, and each file gets one snippet.
    let diagnostic = Diagnostic::error()
        .with_title(Title::new("t"))
        .with_labels(vec![
            Label::secondary(first, Span::new(0, 1), "a"),
            Label::primary(second, Span::new(0, 3), "p"),
            Label::secondary(first, Span::new(2, 3), "b"),
        ]);

    let mut out: Vec<Segment> = Vec::new();
    emit(&files, &Config::default(), &diagnostic, &mut out).unwrap();
    let text = rendered(&out);
    let at_second = text.find("second:1:1").unwrap();
    let at_first = text.find("first:1:1").unwrap();
    assert!(at_second < at_first);
    // One snippet per file: each locus and each source line appears once,
    // and both labels of the first file stack under its one source line.
    assert_eq!(text.matches("first:1:1").count(), 1);
    assert_eq!(text.matches("1 \u{2502} one").count(), 1);
    assert_eq!(text.matches("1 \u{2502} two").count(), 1);
    assert!(text.contains("- a"));
    assert!(text.contains("- b"));
    assert!(text.contains("^^^ p"));
}

#[test]
fn note_lines_are_trimmed_in_protocol_message() {
    let mut files = Files::new();
    let file_id = files.add("a", "foo");
    let diagnostic = Diagnostic::error()
        .with_title(Title::new("m"))
        .with_labels(vec![Label::primary(file_id, Span::new(0, 3), "p")])
        .with_notes(vec!["x  \ny\t".to_owned()]);

    let resolve = |_: FileId| Some("file:///a".to_owned());
    let result = files
        .diagnostic_to_lsp_diagnostic(None, &diagnostic, &resolve)
        .unwrap();
    assert_eq!(result.message, "m\n\n  \u{2022} x\n    y\n");
}

#[test]
fn segments_carry_their_styles() {
    let mut files = Files::new();
    let file_id = files.add("f", "hello");
    let diagnostic = Diagnostic::error()
        .with_title(Title::new("t"))
        .with_labels(vec![
            Label::primary(file_id, Span::new(0, 2), "p"),
            Label::secondary(file_id, Span::new(3, 5), "s"),
        ])
        .with_notes(vec!["n".to_owned()]);

    let mut out: Vec<Segment> = Vec::new();
    emit(&files, &Config::default(), &diagnostic, &mut out).unwrap();

    let header = ColorSpec { fg: Some(Color::Red), bold: true, intense: true };
    let message = ColorSpec { fg: None, bold: true, intense: true };
    let primary = ColorSpec { fg: Some(Color::Red), bold: false, intense: false };
    let blue = ColorSpec { fg: Some(Color::Blue), bold: false, intense: false };

    assert_eq!(out[0].text, "error");
    assert_eq!(out[0].style, Some(header));
    assert_eq!(out[2].text, "t");
    assert_eq!(out[2].style, Some(message));
    let carets = out.iter().find(|s| s.text == "^^").unwrap();
    assert_eq!(carets.style, Some(primary));
    let dashes = out.iter().find(|s| s.text == "--").unwrap();
    assert_eq!(dashes.style, Some(blue));
    let bullet = out.iter().find(|s| s.text == "=").unwrap();
    assert_eq!(bullet.style, Some(blue));
    let border = out.iter().find(|s| s.text == "\u{250c}\u{2500}\u{2500}").unwrap();
    assert_eq!(border.style, Some(blue));
}

//! Diagnostic data structures: severity levels, labels anchored to byte
//! ranges of source files, and the diagnostics built from them.

use crate::file::FileId;
use crate::Span;
use core::cmp::Ordering;
use vstd::std_specs::cmp::PartialOrdSpec;
use vstd::prelude::*;

verus! {

/// A severity level for diagnostic messages.
///
/// Severities are totally ordered: `Bug > Error > Warning > Note > Help`.
/// The order comes from an explicit rank, not from declaration order.
#[derive(Copy, Clone, PartialEq, Eq, Structural, Hash, Debug)]
pub enum Severity {
    /// An unexpected bug.
    Bug,
    /// An error.
    Error,
    /// A warning.
    Warning,
    /// A note.
    Note,
    /// A help message.
    Help,
}

/// The rank that orders severities: bugs are the most severe, then errors,
/// and so on down to help messages.
pub open spec fn severity_rank(s: Severity) -> int {
    match s {
        Severity::Bug => 5,
        Severity::Error => 4,
        Severity::Warning => 3,
        Severity::Note => 2,
        Severity::Help => 1,
    }
}

impl Severity {
    /// The rank used for comparisons: bugs are the maximum severity, errors
    /// next, and so on.
    pub fn to_cmp_int(self) -> (r: u8)
        ensures
            r as int == severity_rank(self),
    {
        match self {
            Severity::Bug => 5,
            Severity::Error => 4,
            Severity::Warning => 3,
            Severity::Note => 2,
            Severity::Help => 1,
        }
    }
}

impl PartialOrd for Severity {
    fn partial_cmp(&self, other: &Severity) -> (r: Option<Ordering>) {
        let a = self.to_cmp_int();
        let b = other.to_cmp_int();
        if a < b {
            Some(Ordering::Less)
        } else if a == b {
            Some(Ordering::Equal)
        } else {
            Some(Ordering::Greater)
        }
    }
}

impl vstd::std_specs::cmp::PartialOrdSpecImpl for Severity {
    open spec fn obeys_partial_cmp_spec() -> bool {
        true
    }

    open spec fn partial_cmp_spec(&self, other: &Severity) -> Option<Ordering> {
        if severity_rank(*self) < severity_rank(*other) {
            Some(Ordering::Less)
        } else if severity_rank(*self) == severity_rank(*other) {
            Some(Ordering::Equal)
        } else {
            Some(Ordering::Greater)
        }
    }
}

/// Severity ordering law: every comparison of two severities is decided by
/// their ranks, `Bug > Error > Warning > Note > Help` holds for each
/// neighbouring pair, and the order is transitive.
pub proof fn lemma_severity_order()
    ensures
        forall|a: Severity, b: Severity|
            #[trigger] a.partial_cmp_spec(&b) == Some(Ordering::Greater) <==> severity_rank(a)
                > severity_rank(b),
        Severity::Bug.partial_cmp_spec(&Severity::Error) == Some(Ordering::Greater),
        Severity::Error.partial_cmp_spec(&Severity::Warning) == Some(Ordering::Greater),
        Severity::Warning.partial_cmp_spec(&Severity::Note) == Some(Ordering::Greater),
        Severity::Note.partial_cmp_spec(&Severity::Help) == Some(Ordering::Greater),
        forall|a: Severity, b: Severity, c: Severity|
            #[trigger] a.partial_cmp_spec(&b) == Some(Ordering::Greater) && #[trigger] b
                .partial_cmp_spec(&c) == Some(Ordering::Greater) ==> a.partial_cmp_spec(&c)
                == Some(Ordering::Greater),
{
}

/// A diagnostic title: the main message, and an optional code that
/// identifies the diagnostic.
#[derive(Clone, Debug)]
pub struct Title {
    /// An optional code that identifies this diagnostic.
    pub code: Option<String>,
    /// The main message associated with this diagnostic.
    ///
    /// It should not include line breaks.
    pub message: String,
}

impl Title {
    /// Create a new diagnostic title with the given message and no code.
    pub fn new(message: &str) -> (t: Title)
        ensures
            t.message@ == message@,
            t.code is None,
    {
        Title { message: message.to_owned(), code: None }
    }

    /// Add an error code to the diagnostic title.
    pub fn with_code(self, code: &str) -> (t: Title)
        ensures
            t.message == self.message,
            t.code matches Some(c) && c@ == code@,
    {
        Title { code: Some(code.to_owned()), ..self }
    }
}

/// The role of a label: primary labels mark the cause of the diagnostic,
/// secondary labels add context.
#[derive(Copy, Clone, PartialEq, Eq, Structural, Debug)]
pub enum LabelStyle {
    /// Labels that describe the primary cause of a diagnostic.
    Primary,
    /// Labels that provide additional context for a diagnostic.
    Secondary,
}

/// A label describing an underlined region of code associated with a
/// diagnostic.
#[derive(Clone, Debug)]
pub struct Label {
    /// The style of the label.
    pub style: LabelStyle,
    /// The file that the label points into.
    pub file_id: FileId,
    /// The byte range of the labelled region.
    pub span: Span,
    /// A message giving additional information for the underlined code.
    ///
    /// It should not include line breaks.
    pub message: String,
}

impl Label {
    /// Create a new label.
    pub fn new(style: LabelStyle, file_id: FileId, span: Span, message: &str) -> (l: Label)
        ensures
            l.style == style,
            l.file_id == file_id,
            l.span == span,
            l.message@ == message@,
    {
        Label { style, file_id, span, message: message.to_owned() }
    }

    /// Create a new primary label.
    pub fn primary(file_id: FileId, span: Span, message: &str) -> (l: Label)
        ensures
            l.style == LabelStyle::Primary,
            l.file_id == file_id,
            l.span == span,
            l.message@ == message@,
    {
        Label::new(LabelStyle::Primary, file_id, span, message)
    }

    /// A copy of this label, equal to it.
    pub fn duplicate(&self) -> (l: Label)
        ensures
            l == *self,
    {
        Label {
            style: self.style,
            file_id: self.file_id,
            span: self.span,
            message: self.message.clone(),
        }
    }

    /// Create a new secondary label.
    pub fn secondary(file_id: FileId, span: Span, message: &str) -> (l: Label)
        ensures
            l.style == LabelStyle::Secondary,
            l.file_id == file_id,
            l.span == span,
            l.message@ == message@,
    {
        Label::new(LabelStyle::Secondary, file_id, span, message)
    }
}

/// A diagnostic message: a severity, an optional title, any number of
/// labelled source regions, and free-standing notes.
#[derive(Clone, Debug)]
pub struct Diagnostic {
    /// The overall severity of the diagnostic.
    pub severity: Severity,
    /// The title of the diagnostic, if any.
    pub title: Option<Title>,
    /// Source labels that describe the cause of the diagnostic.
    pub labels: Vec<Label>,
    /// Notes associated with the diagnostic. These may include line breaks
    /// for improved formatting.
    pub notes: Vec<String>,
}

impl Diagnostic {
    /// Create a new diagnostic with no title, labels or notes.
    pub fn new(severity: Severity) -> (d: Diagnostic)
        ensures
            d.severity == severity,
            d.title is None,
            d.labels@ =~= Seq::<Label>::empty(),
            d.notes@ =~= Seq::<String>::empty(),
    {
        Diagnostic { severity, title: None, labels: Vec::new(), notes: Vec::new() }
    }

    /// Create a new diagnostic with a severity of `Severity::Bug`.
    pub fn bug() -> (d: Diagnostic)
        ensures
            d.severity == Severity::Bug,
            d.title is None,
            d.labels@ =~= Seq::<Label>::empty(),
            d.notes@ =~= Seq::<String>::empty(),
    {
        Diagnostic::new(Severity::Bug)
    }

    /// Create a new diagnostic with a severity of `Severity::Error`.
    pub fn error() -> (d: Diagnostic)
        ensures
            d.severity == Severity::Error,
            d.title is None,
            d.labels@ =~= Seq::<Label>::empty(),
            d.notes@ =~= Seq::<String>::empty(),
    {
        Diagnostic::new(Severity::Error)
    }

    /// Create a new diagnostic with a severity of `Severity::Warning`.
    pub fn warning() -> (d: Diagnostic)
        ensures
            d.severity == Severity::Warning,
            d.title is None,
            d.labels@ =~= Seq::<Label>::empty(),
            d.notes@ =~= Seq::<String>::empty(),
    {
        Diagnostic::new(Severity::Warning)
    }

    /// Create a new diagnostic with a severity of `Severity::Note`.
    pub fn note() -> (d: Diagnostic)
        ensures
            d.severity == Severity::Note,
            d.title is None,
            d.labels@ =~= Seq::<Label>::empty(),
            d.notes@ =~= Seq::<String>::empty(),
    {
        Diagnostic::new(Severity::Note)
    }

    /// Create a new diagnostic with a severity of `Severity::Help`.
    pub fn help() -> (d: Diagnostic)
        ensures
            d.severity == Severity::Help,
            d.title is None,
            d.labels@ =~= Seq::<Label>::empty(),
            d.notes@ =~= Seq::<String>::empty(),
    {
        Diagnostic::new(Severity::Help)
    }

    /// Add a title to the diagnostic.
    pub fn with_title(self, title: Title) -> (d: Diagnostic)
        ensures
            d.severity == self.severity,
            d.title == Some(title),
            d.labels == self.labels,
            d.notes == self.notes,
    {
        Diagnostic { title: Some(title), ..self }
    }

    /// Replace the labels of the diagnostic.
    pub fn with_labels(self, labels: Vec<Label>) -> (d: Diagnostic)
        ensures
            d.severity == self.severity,
            d.title == self.title,
            d.labels == labels,
            d.notes == self.notes,
    {
        Diagnostic { labels, ..self }
    }

    /// Replace the notes of the diagnostic.
    pub fn with_notes(self, notes: Vec<String>) -> (d: Diagnostic)
        ensures
            d.severity == self.severity,
            d.title == self.title,
            d.labels == self.labels,
            d.notes == notes,
    {
        Diagnostic { notes, ..self }
    }
}

/// The index of the first primary label from `i` on, or the number of
/// labels when there is none.
pub open spec fn first_primary(labels: Seq<Label>, i: int) -> int
    decreases labels.len() - i,
    when i >= 0
{
    if i >= labels.len() {
        labels.len() as int
    } else if labels[i].style == LabelStyle::Primary {
        i
    } else {
        first_primary(labels, i + 1)
    }
}

/// A first-primary index lies within the label list.
pub proof fn lemma_first_primary_in_range(labels: Seq<Label>, i: int)
    requires
        0 <= i,
    ensures
        i <= first_primary(labels, i) <= labels.len() || first_primary(labels, i)
            == labels.len() as int,
    decreases labels.len() - i,
{
    if 0 <= i < labels.len() && labels[i].style != LabelStyle::Primary {
        lemma_first_primary_in_range(labels, i + 1);
    }
}

/// A prefix without primary labels does not change which label is the first
/// primary one.
pub proof fn lemma_first_primary_skip(labels: Seq<Label>, lo: int, mid: int)
    requires
        0 <= lo <= mid <= labels.len(),
        forall|j: int| lo <= j < mid ==> (#[trigger] labels[j]).style != LabelStyle::Primary,
    ensures
        first_primary(labels, lo) == first_primary(labels, mid),
    decreases mid - lo,
{
    if lo < mid {
        lemma_first_primary_skip(labels, lo + 1, mid);
    }
}

/// The index of the first primary label of a list that holds one.
pub fn first_primary_index(labels: &Vec<Label>) -> (p: usize)
    requires
        first_primary(labels@, 0) < labels@.len(),
    ensures
        p as int == first_primary(labels@, 0),
        (p as int) < labels@.len(),
        labels@[p as int].style == LabelStyle::Primary,
{
    let ghost lseq = labels@;
    let mut p: usize = 0;
    loop
        invariant
            0 <= p <= lseq.len(),
            lseq == labels@,
            first_primary(lseq, 0) < lseq.len(),
            forall|j: int| 0 <= j < p as int ==> (#[trigger] lseq[j]).style != LabelStyle::Primary,
        decreases lseq.len() - p,
    {
        proof {
            lemma_first_primary_skip(lseq, 0, p as int);
        }
        if p >= labels.len() {
            proof {
                assert(false);
            }
            return 0;
        }
        if matches!(labels[p].style, LabelStyle::Primary) {
            return p;
        }
        p = p + 1;
    }
}

} // verus!

use vstd::prelude::*;

verus! {

/// A half-open byte range `start..end` in the source text.
#[derive(Debug, Clone, Copy, PartialEq, Eq, Structural)]
pub struct Span {
    pub start: usize,
    pub end: usize,
}

impl Span {
    pub fn new(start: usize, end: usize) -> (r: Self)
        ensures
            r.start == start,
            r.end == end,
    {
        Self { start, end }
    }

    /// The empty span at `offset`.
    pub fn at(offset: usize) -> (r: Self)
        ensures
            r.start == offset,
            r.end == offset,
    {
        Self { start: offset, end: offset }
    }

    /// Number of bytes covered by the span.
    pub fn len(self) -> (r: usize)
        requires
            self.start <= self.end,
        ensures
            r == self.end - self.start,
    {
        self.end - self.start
    }

    pub fn is_empty(self) -> (r: bool)
        ensures
            r == (self.start == self.end),
    {
        self.start == self.end
    }
}

/// A location in the source text.
#[derive(Debug, Clone, Copy, PartialEq, Eq, Structural)]
pub struct Position {
    pub offset: usize,
    pub line: usize,
    pub column: usize,
}

impl Position {
    pub fn new(offset: usize, line: usize, column: usize) -> (r: Self)
        ensures
            r.offset == offset,
            r.line == line,
            r.column == column,
    {
        Self { offset, line, column }
    }
}

#[derive(Debug, Clone, Copy, PartialEq, Eq, Structural)]
pub enum Severity {
    Error,
    Warning,
    Note,
}

#[derive(Debug, Clone, PartialEq, Eq)]
pub struct Diagnostic {
    pub severity: Severity,
    pub code: &'static str,
    pub message: String,
    pub span: Span,
    pub notes: Vec<DiagnosticNote>,
}

impl Diagnostic {
    /// An error diagnostic without notes.
    pub fn error(code: &'static str, message: String, span: Span) -> (r: Self)
        ensures
            r.severity == Severity::Error,
            r.code == code,
            r.message@ == message@,
            r.span == span,
            r.notes@.len() == 0,
    {
        Self { severity: Severity::Error, code, message, span, notes: Vec::new() }
    }

    /// A warning diagnostic without notes.
    pub fn warning(code: &'static str, message: String, span: Span) -> (r: Self)
        ensures
            r.severity == Severity::Warning,
            r.code == code,
            r.message@ == message@,
            r.span == span,
            r.notes@.len() == 0,
    {
        Self { severity: Severity::Warning, code, message, span, notes: Vec::new() }
    }

    /// Appends a note to the diagnostic, keeping everything else.
    pub fn with_note(self, message: String, span: Option<Span>) -> (r: Self)
        ensures
            r.severity == self.severity,
            r.code == self.code,
            r.message@ == self.message@,
            r.span == self.span,
            r.notes@.len() == self.notes@.len() + 1,
            forall|i: int| 0 <= i < self.notes@.len() ==> r.notes@[i] == self.notes@[i],
            r.notes@.last().message@ == message@,
            r.notes@.last().span == span,
    {
        let mut this = self;
        this.notes.push(DiagnosticNote { message, span });
        this
    }
}

#[derive(Debug, Clone, PartialEq, Eq)]
pub struct DiagnosticNote {
    pub message: String,
    pub span: Option<Span>,
}


/// What a note says.
pub struct NoteView {
    pub message: Seq<char>,
    pub span: Option<Span>,
}

/// What a diagnostic says.
pub struct DiagView {
    pub severity: Severity,
    pub code: Seq<char>,
    pub message: Seq<char>,
    pub span: Span,
    pub notes: Seq<NoteView>,
}

impl View for DiagnosticNote {
    type V = NoteView;

    open spec fn view(&self) -> NoteView {
        NoteView { message: self.message@, span: self.span }
    }
}

impl View for Diagnostic {
    type V = DiagView;

    open spec fn view(&self) -> DiagView {
        DiagView {
            severity: self.severity,
            code: self.code@,
            message: self.message@,
            span: self.span,
            notes: self.notes@.map_values(|n: DiagnosticNote| n@),
        }
    }
}

/// What each diagnostic of `ds` says.
pub open spec fn diag_views(ds: Seq<Diagnostic>) -> Seq<DiagView> {
    ds.map_values(|d: Diagnostic| d@)
}

/// An error with the given code, message and span and no notes.
pub open spec fn error_view(code: Seq<char>, message: Seq<char>, span: Span) -> DiagView {
    DiagView { severity: Severity::Error, code, message, span, notes: seq![] }
}

} // verus!

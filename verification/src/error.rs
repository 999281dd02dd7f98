//! The diagnostic model: a structured, renderable description of a
//! failure, with one primary span and zero or more secondary labeled
//! spans.  An error is built up by chained attachment of its message,
//! span and labels, and is then either returned to the caller as a
//! value or rendered against the source text (the rendering itself is
//! I/O and lives outside this library).

use vstd::prelude::*;

use crate::parser::{PosView, SourcePos};

verus! {

/// The classes of failure the diagnostic model distinguishes.
/// `InvalidSyntax` covers every lexical or structural malformation;
/// `FreeIdentifier` and `TypeMismatch` belong to the evaluator, and
/// `CommandFailed` to the argument matcher, but all share this model.
#[derive(Debug, Clone, Copy, PartialEq, Eq, Structural)]
pub enum ErrorKind {
    InvalidSyntax,
    FreeIdentifier,
    TypeMismatch,
    CommandFailed,
}

/// The short per-kind identifier shown in a rendered report.
pub open spec fn code_of(kind: ErrorKind) -> Seq<char> {
    match kind {
        ErrorKind::InvalidSyntax => "E01"@,
        ErrorKind::FreeIdentifier => "E02"@,
        ErrorKind::TypeMismatch => "E03"@,
        ErrorKind::CommandFailed => "E04"@,
    }
}

/// The kind's display name, as it appears in `Error::to_text`.
pub open spec fn kind_name(kind: ErrorKind) -> Seq<char> {
    match kind {
        ErrorKind::InvalidSyntax => "InvalidSyntax"@,
        ErrorKind::FreeIdentifier => "FreeIdentifier"@,
        ErrorKind::TypeMismatch => "TypeMismatch"@,
        ErrorKind::CommandFailed => "CommandFailed"@,
    }
}

impl ErrorKind {
    pub fn to_error_code(&self) -> (r: &str)
        ensures
            r@ == code_of(*self),
    {
        match self {
            Self::InvalidSyntax => "E01",
            Self::FreeIdentifier => "E02",
            Self::TypeMismatch => "E03",
            Self::CommandFailed => "E04",
        }
    }
}

/// A half-open range of absolute source offsets anchoring a diagnostic.
#[derive(Debug, Clone, Copy, PartialEq, Eq, Structural)]
pub struct Span {
    pub start: usize,
    pub end: usize,
}

/// The emphasis a renderer should give a labeled span.
#[derive(Debug, Clone, Copy, PartialEq, Eq, Structural)]
pub enum DiagColor {
    Red,
    Cyan,
    Fixed(u8),
}

/// A secondary annotated span: where it points, what it says, how it is
/// emphasised, and its place in the rendering order.
#[derive(Debug)]
pub struct DiagLabel {
    pub src_id: String,
    pub span: Span,
    pub message: String,
    pub color: DiagColor,
    pub order: i32,
}

/// The mathematical value of a `DiagLabel`.
#[verifier::ext_equal]
pub struct LabelView {
    pub src_id: Seq<char>,
    pub span: Span,
    pub message: Seq<char>,
    pub color: DiagColor,
    pub order: i32,
}

impl View for DiagLabel {
    type V = LabelView;

    open spec fn view(&self) -> LabelView {
        LabelView {
            src_id: self.src_id@,
            span: self.span,
            message: self.message@,
            color: self.color,
            order: self.order,
        }
    }
}

/// The mathematical value of an `Error`.
#[verifier::ext_equal]
pub struct ErrView {
    pub kind: ErrorKind,
    pub message: Seq<char>,
    pub span: Span,
    pub labels: Seq<LabelView>,
    pub anchor: PosView,
    pub anchor_label: Seq<char>,
}

/// A structured failure: its kind, top-level message, primary span,
/// ordered secondary labels, and the anchor position and label text a
/// renderer attaches to the primary span.
#[derive(Debug)]
pub struct Error {
    kind: ErrorKind,
    message: String,
    span: Span,
    labels: Vec<DiagLabel>,
    anchor: SourcePos,
    anchor_label: String,
}

impl View for Error {
    type V = ErrView;

    closed spec fn view(&self) -> ErrView {
        ErrView {
            kind: self.kind,
            message: self.message@,
            span: self.span,
            labels: Seq::new(self.labels@.len(), |i: int| self.labels@[i]@),
            anchor: self.anchor@,
            anchor_label: self.anchor_label@,
        }
    }
}

impl Error {
    /// An empty error of the given kind: no message, a zero-length
    /// span, no labels.
    pub fn new(kind: ErrorKind) -> (r: Self)
        ensures
            r@.kind == kind,
            r@.message == Seq::<char>::empty(),
            r@.span == (Span { start: 0, end: 0 }),
            r@.labels == Seq::<LabelView>::empty(),
            r@.anchor == (PosView { ln: 0, col: 0, idx: 0 }),
            r@.anchor_label == Seq::<char>::empty(),
    {
        Self {
            kind,
            message: String::new(),
            span: Span { start: 0, end: 0 },
            labels: Vec::new(),
            anchor: SourcePos(0, 0, 0),
            anchor_label: String::new(),
        }
    }

    pub fn kind(&self) -> (r: ErrorKind)
        ensures
            r == self@.kind,
    {
        self.kind
    }

    pub fn message(&self) -> (r: &String)
        ensures
            r@ == self@.message,
    {
        &self.message
    }

    pub fn span(&self) -> (r: Span)
        ensures
            r == self@.span,
    {
        self.span
    }

    pub fn labels(&self) -> (r: &Vec<DiagLabel>)
        ensures
            r@.len() == self@.labels.len(),
            forall|i: int| 0 <= i < r@.len() ==> r@[i]@ == self@.labels[i],
    {
        &self.labels
    }

    pub fn anchor(&self) -> (r: SourcePos)
        ensures
            r@ == self@.anchor,
    {
        self.anchor
    }

    pub fn anchor_label(&self) -> (r: &String)
        ensures
            r@ == self@.anchor_label,
    {
        &self.anchor_label
    }

    /// Attach a secondary label; labels keep their attachment order.
    pub fn with_label(self, label: DiagLabel) -> (r: Self)
        ensures
            r@ == (ErrView { labels: self@.labels.push(label@), ..self@ }),
    {
        let mut this = self;
        this.labels.push(label);
        assert(this@.labels =~= self@.labels.push(label@));
        this
    }

    /// Replace the top-level message.
    pub fn with_message(self, content: String) -> (r: Self)
        ensures
            r@ == (ErrView { message: content@, ..self@ }),
    {
        let mut this = self;
        this.message = content;
        assert(this@.labels =~= self@.labels);
        this
    }

    /// Replace the primary span.
    pub fn with_span(self, span: Span) -> (r: Self)
        ensures
            r@ == (ErrView { span: span, ..self@ }),
    {
        let mut this = self;
        this.span = span;
        assert(this@.labels =~= self@.labels);
        this
    }

    /// Record the anchor position and the primary label text, and hand
    /// the error back as a value for the caller to recover from or to
    /// render later.  This is the return-as-diagnostic consumption
    /// mode; the report-and-exit mode renders the same fields.
    pub fn return_error(self, pos: SourcePos, label: String) -> (r: Self)
        ensures
            r@ == (ErrView { anchor: pos@, anchor_label: label@, ..self@ }),
    {
        let mut this = self;
        this.anchor = pos;
        this.anchor_label = label;
        assert(this@.labels =~= self@.labels);
        this
    }

    /// The error in one line, kind and message: the form a plain
    /// string rendering uses.
    pub fn to_text(&self) -> (r: String)
        ensures
            r@ == kind_name(self@.kind) + ": "@ + self@.message,
    {
        let mut s = String::from_str(match self.kind {
            ErrorKind::InvalidSyntax => "InvalidSyntax",
            ErrorKind::FreeIdentifier => "FreeIdentifier",
            ErrorKind::TypeMismatch => "TypeMismatch",
            ErrorKind::CommandFailed => "CommandFailed",
        });
        s.append(": ");
        s.append(self.message.as_str());
        s
    }
}

} // verus!

//! The errors that parsing, lowering, checking and reading TOML report.
use vstd::prelude::*;
use crate::source_map::FileId;
use crate::state::{FieldId, RegId};

verus! {

/// A syntax error in an annotation: message, line, and the columns
/// `start..end` of the line that it covers.
#[derive(Debug)]
pub struct ParseError {
    pub message: String,
    pub line: usize,
    pub start: usize,
    pub end: usize,
    pub file: FileId,
}

impl ParseError {
    pub fn new(message: String, line: usize, start: usize, end: usize, file: FileId) -> (r: Self)
        ensures
            r.message@ == message@,
            r.line == line,
            r.start == start,
            r.end == end,
            r.file == file,
    {
        ParseError { message, line, start, end, file }
    }
}

/// An annotation that parsed but does not describe a register or field.
#[derive(Debug)]
pub struct LoweringError {
    pub message: String,
    pub line: usize,
    pub file: FileId,
}

impl LoweringError {
    pub fn new(message: String, line: usize, file: FileId) -> (r: Self)
        ensures
            r.message@ == message@,
            r.line == line,
            r.file == file,
    {
        LoweringError { message, line, file }
    }
}

/// A rule that a set of well-formed registers breaks.
#[derive(Debug, Clone, Copy, PartialEq, Eq, Structural)]
pub enum CheckError {
    FieldOverlap { first: FieldId, other: FieldId },
    RegNameCollision { first: RegId, other: RegId },
    FieldNameCollision { first: FieldId, other: FieldId },
}

/// An error in a TOML description: message, optional byte span, and
/// optional file.
#[derive(Debug)]
pub struct TomlError {
    pub message: String,
    pub span: Option<(usize, usize)>,
    pub file: Option<FileId>,
}

impl TomlError {
    pub fn msg(message: String) -> (r: Self)
        ensures
            r.message@ == message@,
            r.span is None,
            r.file is None,
    {
        TomlError { message, span: None, file: None }
    }

    pub fn with_file(self, file: FileId) -> (r: Self)
        ensures
            r.message@ == self.message@,
            r.span == self.span,
            r.file == Some(file),
    {
        TomlError { message: self.message, span: self.span, file: Some(file) }
    }

    pub fn with_span(self, start: usize, end: usize) -> (r: Self)
        ensures
            r.message@ == self.message@,
            r.span == Some((start, end)),
            r.file == self.file,
    {
        TomlError { message: self.message, span: Some((start, end)), file: self.file }
    }
}

/// Any error the library reports.
#[derive(Debug)]
pub enum LatchError {
    Parse(ParseError),
    Lowering(LoweringError),
    Check(CheckError),
    Toml(TomlError),
}

/// The mathematical content of a [`LatchError`].
pub enum LatchErrorView {
    Parse { message: Seq<char>, line: int, start: int, end: int, file: FileId },
    Lowering { message: Seq<char>, line: int, file: FileId },
    Check(CheckError),
    Toml { message: Seq<char>, span: Option<(usize, usize)>, file: Option<FileId> },
}

impl View for LatchError {
    type V = LatchErrorView;

    open spec fn view(&self) -> LatchErrorView {
        match self {
            LatchError::Parse(e) => LatchErrorView::Parse {
                message: e.message@,
                line: e.line as int,
                start: e.start as int,
                end: e.end as int,
                file: e.file,
            },
            LatchError::Lowering(e) => LatchErrorView::Lowering {
                message: e.message@,
                line: e.line as int,
                file: e.file,
            },
            LatchError::Check(e) => LatchErrorView::Check(*e),
            LatchError::Toml(e) => LatchErrorView::Toml { message: e.message@, span: e.span, file: e.file },
        }
    }
}

pub open spec fn errors_view(v: Seq<LatchError>) -> Seq<LatchErrorView> {
    v.map_values(|e: LatchError| e@)
}

impl From<ParseError> for LatchError {
    fn from(e: ParseError) -> (r: Self) {
        LatchError::Parse(e)
    }
}

impl vstd::std_specs::convert::FromSpecImpl<ParseError> for LatchError {
    open spec fn obeys_from_spec() -> bool {
        true
    }

    open spec fn from_spec(e: ParseError) -> Self {
        LatchError::Parse(e)
    }
}

impl From<LoweringError> for LatchError {
    fn from(e: LoweringError) -> (r: Self) {
        LatchError::Lowering(e)
    }
}

impl vstd::std_specs::convert::FromSpecImpl<LoweringError> for LatchError {
    open spec fn obeys_from_spec() -> bool {
        true
    }

    open spec fn from_spec(e: LoweringError) -> Self {
        LatchError::Lowering(e)
    }
}

impl From<CheckError> for LatchError {
    fn from(e: CheckError) -> (r: Self) {
        LatchError::Check(e)
    }
}

impl vstd::std_specs::convert::FromSpecImpl<CheckError> for LatchError {
    open spec fn obeys_from_spec() -> bool {
        true
    }

    open spec fn from_spec(e: CheckError) -> Self {
        LatchError::Check(e)
    }
}

} // verus!

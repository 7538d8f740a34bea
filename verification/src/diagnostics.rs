//! What each error is reported as: a message and labelled places.
use vstd::prelude::*;
use crate::error::{CheckError, LatchError, LatchErrorView};
use crate::source_map::FileId;
use crate::state::{FieldId, Location, RegId, State};

verus! {

/// Whether a label marks the main place of an error or a related one.
#[derive(Debug, Clone, Copy, PartialEq, Eq, Structural)]
pub enum LabelStyle {
    Primary,
    Secondary,
}

/// The place a label marks.
#[derive(Debug, Clone, Copy, PartialEq, Eq, Structural)]
pub enum LabelSpan {
    /// A whole line.
    Line(usize),
    /// The characters `start..end` of a line.
    Columns { line: usize, start: usize, end: usize },
    /// The bytes `start..end` of the file.
    Bytes { start: usize, end: usize },
}

/// A labelled place in a file.
#[derive(Debug)]
pub struct Label {
    pub style: LabelStyle,
    pub file: FileId,
    pub span: LabelSpan,
    pub message: Option<String>,
}

/// An error report: its message and labels.
#[derive(Debug)]
pub struct Diagnostic {
    pub message: String,
    pub labels: Vec<Label>,
}

pub struct LabelView {
    pub style: LabelStyle,
    pub file: FileId,
    pub span: LabelSpan,
    pub message: Option<Seq<char>>,
}

pub struct DiagnosticView {
    pub message: Seq<char>,
    pub labels: Seq<LabelView>,
}

impl View for Label {
    type V = LabelView;

    open spec fn view(&self) -> LabelView {
        LabelView {
            style: self.style,
            file: self.file,
            span: self.span,
            message: match self.message {
                Some(m) => Some(m@),
                None => None,
            },
        }
    }
}

impl View for Diagnostic {
    type V = DiagnosticView;

    open spec fn view(&self) -> DiagnosticView {
        DiagnosticView { message: self.message@, labels: self.labels@.map_values(|l: Label| l@) }
    }
}

pub open spec fn line_label(style: LabelStyle, loc: Location, message: Seq<char>) -> LabelView {
    LabelView { style, file: loc.file, span: LabelSpan::Line(loc.line), message: Some(message) }
}

/// Whether every place that reporting the error needs is recorded: for a
/// rule broken by two fields or registers, the lines they were read from.
pub open spec fn can_report(e: LatchErrorView, st: State) -> bool {
    match e {
        LatchErrorView::Check(CheckError::FieldOverlap { first, other }) => st.field_locs().dom().contains(first.0)
            && st.field_locs().dom().contains(other.0),
        LatchErrorView::Check(CheckError::FieldNameCollision { first, other }) => st.field_locs().dom().contains(
            first.0,
        ) && st.field_locs().dom().contains(other.0),
        LatchErrorView::Check(CheckError::RegNameCollision { first, other }) => st.reg_locs().dom().contains(first.0)
            && st.reg_locs().dom().contains(other.0),
        _ => true,
    }
}

/// The report of each error.
pub open spec fn spec_diagnostic(e: LatchErrorView, st: State) -> DiagnosticView {
    match e {
        LatchErrorView::Parse { message, line, start, end, file } => DiagnosticView {
            message,
            labels: seq![
                LabelView {
                    style: LabelStyle::Primary,
                    file,
                    span: LabelSpan::Columns { line: line as usize, start: start as usize, end: end as usize },
                    message: None,
                },
            ],
        },
        LatchErrorView::Lowering { message, line, file } => DiagnosticView {
            message,
            labels: seq![
                LabelView {
                    style: LabelStyle::Primary,
                    file,
                    span: LabelSpan::Line(line as usize),
                    message: Some("lowering error occured here"@),
                },
            ],
        },
        LatchErrorView::Check(CheckError::FieldNameCollision { first, other }) => DiagnosticView {
            message: "Two field names are colliding within the same @reg block!"@,
            labels: seq![
                line_label(
                    LabelStyle::Primary,
                    st.field_locs()[other.0],
                    "this fields name collides with another field in the same register"@,
                ),
                line_label(LabelStyle::Secondary, st.field_locs()[first.0], "first defined here"@),
            ],
        },
        LatchErrorView::Check(CheckError::FieldOverlap { first, other }) => DiagnosticView {
            message: "Two fields have overlapping bit ranges!"@,
            labels: seq![
                line_label(LabelStyle::Primary, st.field_locs()[first.0], "overlap encountered here"@),
                line_label(LabelStyle::Secondary, st.field_locs()[other.0], "overlap encountered here"@),
            ],
        },
        LatchErrorView::Check(CheckError::RegNameCollision { first, other }) => DiagnosticView {
            message: "Two registers have the same name!"@,
            labels: seq![
                line_label(LabelStyle::Primary, st.reg_locs()[other.0], "Name collision encountered here"@),
                line_label(LabelStyle::Secondary, st.reg_locs()[first.0], "first declared here"@),
            ],
        },
        LatchErrorView::Toml { message, span, file } => DiagnosticView {
            message,
            labels: match (file, span) {
                (Some(f), Some((s, e))) => seq![
                    LabelView {
                        style: LabelStyle::Primary,
                        file: f,
                        span: LabelSpan::Bytes { start: s, end: e },
                        message: Some("TOML error occoured here"@),
                    },
                ],
                _ => Seq::empty(),
            },
        },
    }
}

fn labels_of(labels: Vec<Label>, Ghost(expected): Ghost<Seq<LabelView>>) -> (r: Vec<Label>)
    requires
        labels@.map_values(|l: Label| l@) =~= expected,
    ensures
        r@.map_values(|l: Label| l@) == expected,
{
    labels
}

fn line_label_exec(style: LabelStyle, loc: &Location, message: String) -> (r: Label)
    ensures
        r@ == line_label(style, *loc, message@),
{
    Label { style, file: loc.file, span: LabelSpan::Line(loc.line), message: Some(message) }
}

fn field_loc(state: &State, id: FieldId) -> (r: &Location)
    requires
        state.field_locs().dom().contains(id.0),
    ensures
        *r == state.field_locs()[id.0],
{
    match state.get_field_loc(id) {
        Some(l) => l,
        None => {
            assert(false);
            state.get_field_loc(id).unwrap()
        },
    }
}

fn reg_loc(state: &State, id: RegId) -> (r: &Location)
    requires
        state.reg_locs().dom().contains(id.0),
    ensures
        *r == state.reg_locs()[id.0],
{
    match state.get_reg_loc(id) {
        Some(l) => l,
        None => {
            assert(false);
            state.get_reg_loc(id).unwrap()
        },
    }
}

fn check_diagnostic(error: CheckError, state: &State) -> (r: Diagnostic)
    requires
        can_report(LatchErrorView::Check(error), *state),
    ensures
        r@ == spec_diagnostic(LatchErrorView::Check(error), *state),
{
    match error {
        CheckError::FieldNameCollision { first, other } => {
            let first_loc = field_loc(state, first);
            let other_loc = field_loc(state, other);
            let a = line_label_exec(
                LabelStyle::Primary,
                other_loc,
                String::from_str("this fields name collides with another field in the same register"),
            );
            let b = line_label_exec(LabelStyle::Secondary, first_loc, String::from_str("first defined here"));
            let ghost expected = spec_diagnostic(LatchErrorView::Check(error), *state).labels;
            let labels = labels_of(vec![a, b], Ghost(expected));
            Diagnostic {
                message: String::from_str("Two field names are colliding within the same @reg block!"),
                labels,
            }
        },
        CheckError::FieldOverlap { first, other } => {
            let first_loc = field_loc(state, first);
            let other_loc = field_loc(state, other);
            let a = line_label_exec(LabelStyle::Primary, first_loc, String::from_str("overlap encountered here"));
            let b = line_label_exec(LabelStyle::Secondary, other_loc, String::from_str("overlap encountered here"));
            let ghost expected = spec_diagnostic(LatchErrorView::Check(error), *state).labels;
            let labels = labels_of(vec![a, b], Ghost(expected));
            Diagnostic { message: String::from_str("Two fields have overlapping bit ranges!"), labels }
        },
        CheckError::RegNameCollision { first, other } => {
            let first_loc = reg_loc(state, first);
            let other_loc = reg_loc(state, other);
            let a = line_label_exec(LabelStyle::Primary, other_loc, String::from_str("Name collision encountered here"));
            let b = line_label_exec(LabelStyle::Secondary, first_loc, String::from_str("first declared here"));
            let ghost expected = spec_diagnostic(LatchErrorView::Check(error), *state).labels;
            let labels = labels_of(vec![a, b], Ghost(expected));
            Diagnostic { message: String::from_str("Two registers have the same name!"), labels }
        },
    }
}

/// Whether a label marks the whole line of a location.
pub open spec fn marks(l: LabelView, loc: Location) -> bool {
    l.file == loc.file && l.span == LabelSpan::Line(loc.line)
}

/// The locations of the two registers or fields a broken rule names, the
/// one its report points at first: the later declaration for a name
/// collision, the first field for an overlap.
pub open spec fn check_places(e: CheckError, st: State) -> (Location, Location) {
    match e {
        CheckError::FieldNameCollision { first, other } => (st.field_locs()[other.0], st.field_locs()[first.0]),
        CheckError::FieldOverlap { first, other } => (st.field_locs()[first.0], st.field_locs()[other.0]),
        CheckError::RegNameCollision { first, other } => (st.reg_locs()[other.0], st.reg_locs()[first.0]),
    }
}

/// The report of a broken rule locates both registers or fields it names:
/// it has two labels, each marking the whole line of one of them, the
/// primary one at the place the rule is broken (the later of two colliding
/// names, the first of two overlapping fields), the secondary one at the
/// other place.
pub proof fn lemma_check_report_marks_both(e: CheckError, st: State)
    requires
        can_report(LatchErrorView::Check(e), st),
    ensures
        ({
            let d = spec_diagnostic(LatchErrorView::Check(e), st);
            let (main, related) = check_places(e, st);
            &&& d.labels.len() == 2
            &&& exists|i: int| 0 <= i < 2 && d.labels[i].style == LabelStyle::Primary && marks(#[trigger] d.labels[i], main)
            &&& exists|j: int| 0 <= j < 2 && d.labels[j].style == LabelStyle::Secondary && marks(#[trigger] d.labels[j], related)
        }),
{
    let d = spec_diagnostic(LatchErrorView::Check(e), st);
    let (main, related) = check_places(e, st);
    assert(marks(d.labels[0], main));
    assert(marks(d.labels[1], related));
}

/// The report of an error, as [`spec_diagnostic`] states.
pub fn to_diagnostic(error: LatchError, state: &State) -> (r: Diagnostic)
    requires
        can_report(error@, *state),
    ensures
        r@ == spec_diagnostic(error@, *state),
{
    let ghost ev = error@;
    match error {
        LatchError::Parse(e) => {
            let label = Label {
                style: LabelStyle::Primary,
                file: e.file,
                span: LabelSpan::Columns { line: e.line, start: e.start, end: e.end },
                message: None,
            };
            let labels = labels_of(vec![label], Ghost(spec_diagnostic(ev, *state).labels));
            Diagnostic { message: e.message, labels }
        },
        LatchError::Lowering(e) => {
            let label = Label {
                style: LabelStyle::Primary,
                file: e.file,
                span: LabelSpan::Line(e.line),
                message: Some(String::from_str("lowering error occured here")),
            };
            let labels = labels_of(vec![label], Ghost(spec_diagnostic(ev, *state).labels));
            Diagnostic { message: e.message, labels }
        },
        LatchError::Check(e) => check_diagnostic(e, state),
        LatchError::Toml(e) => {
            let labels = match (e.file, e.span) {
                (Some(f), Some((s, end))) => {
                    let label = Label {
                        style: LabelStyle::Primary,
                        file: f,
                        span: LabelSpan::Bytes { start: s, end },
                        message: Some(String::from_str("TOML error occoured here")),
                    };
                    labels_of(vec![label], Ghost(spec_diagnostic(ev, *state).labels))
                },
                _ => labels_of(Vec::new(), Ghost(spec_diagnostic(ev, *state).labels)),
            };
            Diagnostic { message: e.message, labels }
        },
    }
}

} // verus!

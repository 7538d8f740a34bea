//! Rendering error reports as text, and checking a source file end to end.
//!
//! A report's labels mark byte ranges of the source files; `codespan-reporting`
//! renders them. The byte ranges are computed here from the files' texts.
use vstd::prelude::*;
use codespan_reporting::diagnostic::{Diagnostic as CodespanReport, Label as CodespanLabel, LabelStyle as CodespanStyle};
use codespan_reporting::files::SimpleFiles;
use codespan_reporting::term::{Config as CodespanConfig, emit_to_string};
use crate::diagnostics::{Diagnostic, DiagnosticView, Label, LabelSpan, LabelStyle, LabelView, can_report, spec_diagnostic, to_diagnostic};
use crate::error::{CheckError, LatchError, LatchErrorView, errors_view};
use crate::check::{
    all_pairs, check_errors_view, check_registers, fields_stored, field_name_errors, field_name_pred, lemma_all_pairs, overlap_errors, overlap_pred,
    per_reg_errors, reg_name_errors, reg_name_pred, spec_check_errors,
};
use crate::ir::{spec_field_from_kv, spec_register_from_kv};
use crate::kv::kv_message;
use crate::lower::{
    FieldModel, LowerModel, RegModel, fields_match, lowering_error, msg_lone_field, msg_no_fields, msg_not_adjacent,
    only_added, reg_matches, spec_flush, spec_lower_all, spec_lower_step,
};
use crate::parser::{parse, parse_fits, spec_parse_file, spec_parse_stops};
use crate::scanner::{RawAnnotationView, spec_pre_offset, spec_scan};
use crate::source_map::FileId;
use crate::state::{FieldId, RegId};
use crate::state::{SourceFile, State};

verus! {

// ---------------------------------------------------------------------------
// Bytes of a text

/// The number of bytes UTF-8 takes for a character, as `char::len_utf8`
/// gives it.
pub open spec fn utf8_len(c: char) -> nat {
    if (c as u32) < 0x80 {
        1
    } else if (c as u32) < 0x800 {
        2
    } else if (c as u32) < 0x10000 {
        3
    } else {
        4
    }
}

/// The number of bytes UTF-8 takes for a text.
pub open spec fn byte_len(s: Seq<char>) -> nat
    decreases s.len(),
{
    if s.len() == 0 {
        0
    } else {
        byte_len(s.drop_last()) + utf8_len(s.last())
    }
}

/// Whether `b` is the byte offset of a character boundary of `s`.
pub open spec fn is_boundary(s: Seq<char>, b: int) -> bool {
    exists|k: int| 0 <= k <= s.len() && #[trigger] byte_len(s.take(k)) == b
}

/// A prefix takes no more bytes than the whole text.
pub proof fn lemma_byte_len_prefix(s: Seq<char>, k: int)
    requires
        0 <= k <= s.len(),
    ensures
        byte_len(s.take(k)) <= byte_len(s),
    decreases s.len(),
{
    if k < s.len() {
        lemma_byte_len_prefix(s.drop_last(), k);
        assert(s.drop_last().take(k) =~= s.take(k));
    } else {
        assert(s.take(k) =~= s);
    }
}

fn utf8_len_exec(c: char) -> (n: usize)
    ensures
        n == utf8_len(c),
{
    let u = c as u32;
    if u < 0x80 {
        1
    } else if u < 0x800 {
        2
    } else if u < 0x10000 {
        3
    } else {
        4
    }
}

/// The byte offset of the character at index `k`.
fn byte_offset(s: &[char], k: usize) -> (r: usize)
    requires
        k <= s@.len(),
        byte_len(s@) <= usize::MAX,
    ensures
        r == byte_len(s@.take(k as int)),
{
    let mut acc: usize = 0;
    let mut i: usize = 0;
    assert(s@.take(0) =~= Seq::<char>::empty());
    while i < k
        invariant
            i <= k <= s@.len(),
            byte_len(s@) <= usize::MAX,
            acc == byte_len(s@.take(i as int)),
        decreases k - i,
    {
        proof {
            lemma_byte_len_prefix(s@, i + 1);
            assert(s@.take(i + 1).drop_last() =~= s@.take(i as int));
            assert(s@.take(i + 1).last() == s@[i as int]);
        }
        acc = acc + utf8_len_exec(s[i]);
        i = i + 1;
    }
    acc
}

// ---------------------------------------------------------------------------
// Lines

/// The character index at which line `l` starts, counting from index `i`
/// where `l` lines are still to be passed: a line ends after each `\n`. Past
/// the last line, the text's length.
pub open spec fn line_start_from(s: Seq<char>, l: nat, i: int) -> int
    decreases s.len() - i,
{
    if l == 0 || i < 0 {
        i
    } else if i >= s.len() {
        s.len() as int
    } else if s[i] == '\n' {
        line_start_from(s, (l - 1) as nat, i + 1)
    } else {
        line_start_from(s, l, i + 1)
    }
}

/// The character index at which line `l` of a text starts (lines counted
/// as `codespan-reporting` counts them: a new one after each `\n`); the
/// text's length for a line past the last.
pub open spec fn line_start(s: Seq<char>, l: nat) -> int {
    line_start_from(s, l, 0)
}

proof fn lemma_line_start_from_bounds(s: Seq<char>, l: nat, i: int)
    requires
        0 <= i <= s.len(),
    ensures
        i <= line_start_from(s, l, i) <= s.len(),
    decreases s.len() - i,
{
    if l > 0 && i < s.len() {
        if s[i] == '\n' {
            lemma_line_start_from_bounds(s, (l - 1) as nat, i + 1);
        } else {
            lemma_line_start_from_bounds(s, l, i + 1);
        }
    }
}

/// The character index at which line `l` starts.
fn line_start_exec(s: &[char], l: u128) -> (r: usize)
    ensures
        r == line_start(s@, l as nat),
        r <= s@.len(),
{
    let mut i: usize = 0;
    let mut left: u128 = l;
    proof {
        lemma_line_start_from_bounds(s@, l as nat, 0);
    }
    while left > 0 && i < s.len()
        invariant
            i <= s@.len(),
            line_start_from(s@, left as nat, i as int) == line_start(s@, l as nat),
        decreases s@.len() - i,
    {
        if s[i] == '\n' {
            left = left - 1;
        }
        i = i + 1;
    }
    i
}

/// The character index of a column of a line, or the text's length where
/// that lies past the text.
pub open spec fn column_char(s: Seq<char>, line: nat, col: nat) -> int {
    if line_start(s, line) + col >= s.len() {
        s.len() as int
    } else {
        line_start(s, line) + col
    }
}

// ---------------------------------------------------------------------------
// Rendering

/// What `codespan-reporting`'s `term::emit_to_string` writes, with the
/// default configuration, for these reports over these files, one report
/// after another. A file is a name and a text; a report is a message and its
/// labels; a label is (primary, file index, start byte, end byte, message).
pub uninterp spec fn rendered_reports(
    files: Seq<(Seq<char>, Seq<char>)>,
    reports: Seq<(Seq<char>, Seq<(bool, usize, usize, usize, Option<Seq<char>>)>)>,
) -> Seq<char>;

pub open spec fn files_view(files: Seq<(String, String)>) -> Seq<(Seq<char>, Seq<char>)> {
    files.map_values(|f: (String, String)| (f.0@, f.1@))
}

pub open spec fn opt_view(o: Option<String>) -> Option<Seq<char>> {
    match o {
        Some(s) => Some(s@),
        None => None,
    }
}

pub open spec fn label_view(l: (bool, usize, usize, usize, Option<String>)) -> (bool, usize, usize, usize, Option<Seq<char>>) {
    (l.0, l.1, l.2, l.3, opt_view(l.4))
}

pub open spec fn report_view(r: (String, Vec<(bool, usize, usize, usize, Option<String>)>)) -> (
    Seq<char>,
    Seq<(bool, usize, usize, usize, Option<Seq<char>>)>,
) {
    (r.0@, r.1@.map_values(|l: (bool, usize, usize, usize, Option<String>)| label_view(l)))
}

pub open spec fn reports_view(v: Seq<(String, Vec<(bool, usize, usize, usize, Option<String>)>)>) -> Seq<
    (Seq<char>, Seq<(bool, usize, usize, usize, Option<Seq<char>>)>),
> {
    v.map_values(|r: (String, Vec<(bool, usize, usize, usize, Option<String>)>)| report_view(r))
}

/// A label marks a file that is there, between character boundaries of its
/// text.
pub open spec fn label_fits(files: Seq<(Seq<char>, Seq<char>)>, l: (bool, usize, usize, usize, Option<Seq<char>>)) -> bool {
    &&& l.1 < files.len()
    &&& is_boundary(files[l.1 as int].1, l.2 as int)
    &&& is_boundary(files[l.1 as int].1, l.3 as int)
}

/// `codespan-reporting`'s `term::emit_to_string` with the default
/// configuration, once per report, into one string, over the files held in a
/// `SimpleFiles`. Its result is named by [`rendered_reports`], a function
/// of the files and reports alone. Every label's file must be there and its
/// byte range lie on character boundaries of that file's text, so that
/// rendering meets no error.
#[verifier::external_body]
pub(crate) fn render_reports(
    files: &Vec<(String, String)>,
    reports: &Vec<(String, Vec<(bool, usize, usize, usize, Option<String>)>)>,
) -> (r: String)
    requires
        forall|i: int, j: int|
            0 <= i < reports@.len() && 0 <= j < reports@[i].1@.len() ==> label_fits(
                files_view(files@),
                #[trigger] label_view(reports@[i].1@[j]),
            ),
    ensures
        r@ == rendered_reports(files_view(files@), reports_view(reports@)),
{
    let mut db = SimpleFiles::new();
    for (name, text) in files.iter() {
        db.add(name.clone(), text.clone());
    }
    let mut out = String::new();
    for (message, labels) in reports.iter() {
        let labels = labels.iter().map(|(p, f, s, e, m)| {
            let style = if *p { CodespanStyle::Primary } else { CodespanStyle::Secondary };
            CodespanLabel::new(style, *f, *s..*e).with_message(m.clone().unwrap_or_default())
        }).collect();
        let report = CodespanReport::error().with_message(message.clone()).with_labels(labels);
        emit_to_string(&mut out, &CodespanConfig::default(), &db, &report).unwrap();
    }
    out
}

// ---------------------------------------------------------------------------
// Reports of errors

/// The byte range that a label's span marks in a text: a whole line (its
/// `\n` included), or the columns of a line, or the bytes given.
pub open spec fn span_bytes(s: Seq<char>, span: LabelSpan) -> (int, int) {
    match span {
        LabelSpan::Line(l) => (
            (byte_len(s.take(line_start(s, l as nat)))) as int,
            (byte_len(s.take(line_start(s, l as nat + 1)))) as int,
        ),
        LabelSpan::Columns { line, start, end } => (
            (byte_len(s.take(column_char(s, line as nat, start as nat)))) as int,
            (byte_len(s.take(column_char(s, line as nat, end as nat)))) as int,
        ),
        LabelSpan::Bytes { start, end } => (start as int, end as int),
    }
}

/// A label as rendering takes it: (primary, file index, start byte, end
/// byte, message).
pub open spec fn label_of(files: Seq<SourceFile>, l: LabelView) -> (bool, usize, usize, usize, Option<Seq<char>>) {
    let r = span_bytes(files[l.file.0 as int].text(), l.span);
    (l.style == LabelStyle::Primary, l.file.0 as usize, r.0 as usize, r.1 as usize, l.message)
}

/// A report as rendering takes it: its message and labels.
pub open spec fn report_of(files: Seq<SourceFile>, d: DiagnosticView) -> (
    Seq<char>,
    Seq<(bool, usize, usize, usize, Option<Seq<char>>)>,
) {
    (d.message, d.labels.map_values(|l: LabelView| label_of(files, l)))
}

/// The reports of the errors, in order.
pub open spec fn reports_of(st: State, errors: Seq<LatchErrorView>) -> Seq<
    (Seq<char>, Seq<(bool, usize, usize, usize, Option<Seq<char>>)>),
> {
    errors.map_values(|e: LatchErrorView| report_of(st.files(), spec_diagnostic(e, st)))
}

/// The files as rendering takes them: name and text.
pub open spec fn source_files_view(files: Seq<SourceFile>) -> Seq<(Seq<char>, Seq<char>)> {
    files.map_values(|f: SourceFile| (f.name_view(), f.text()))
}

/// A file of the state whose text's bytes can be counted in a `usize`.
pub open spec fn file_ok(st: State, f: FileId) -> bool {
    &&& f.0 < st.files().len()
    &&& byte_len(st.files()[f.0 as int].text()) <= usize::MAX
}

/// An error that can be rendered: it names a file of the state, or, for a
/// broken rule, registers or fields whose lines are recorded in such files.
pub open spec fn error_renders(e: LatchErrorView, st: State) -> bool {
    match e {
        LatchErrorView::Parse { file, .. } => file_ok(st, file),
        LatchErrorView::Lowering { file, .. } => file_ok(st, file),
        LatchErrorView::Check(c) => can_report(e, st) && match c {
            CheckError::FieldOverlap { first, other } => file_ok(st, st.field_locs()[first.0].file) && file_ok(
                st,
                st.field_locs()[other.0].file,
            ),
            CheckError::FieldNameCollision { first, other } => file_ok(st, st.field_locs()[first.0].file) && file_ok(
                st,
                st.field_locs()[other.0].file,
            ),
            CheckError::RegNameCollision { first, other } => file_ok(st, st.reg_locs()[first.0].file) && file_ok(
                st,
                st.reg_locs()[other.0].file,
            ),
        },
        LatchErrorView::Toml { .. } => false,
    }
}

fn label_tuple(label: &Label, state: &State) -> (r: (bool, usize, usize, usize, Option<String>))
    requires
        file_ok(*state, label.file),
        !(label.span is Bytes),
    ensures
        label_view(r) == label_of(state.files(), label@),
        label_fits(source_files_view(state.files()), label_view(r)),
{
    let text = state.get_file(label.file).chars();
    let ghost s = text@;
    let n = text.len();
    let (a, b): (usize, usize) = match label.span {
        LabelSpan::Line(l) => {
            let wide: u128 = l as u128;
            (line_start_exec(text, wide), line_start_exec(text, wide + 1))
        },
        LabelSpan::Columns { line, start, end } => {
            let ls = line_start_exec(text, line as u128);
            let a = if start >= n - ls {
                n
            } else {
                ls + start
            };
            let b = if end >= n - ls {
                n
            } else {
                ls + end
            };
            (a, b)
        },
        LabelSpan::Bytes { .. } => (0, 0),
    };
    let start = byte_offset(text, a);
    let end = byte_offset(text, b);
    let message = match &label.message {
        Some(m) => Some(m.clone()),
        None => None,
    };
    let primary = match label.style {
        LabelStyle::Primary => true,
        LabelStyle::Secondary => false,
    };
    let r = (primary, label.file.0 as usize, start, end, message);
    proof {
        assert(byte_len(s.take(a as int)) == start);
        assert(byte_len(s.take(b as int)) == end);
        assert(source_files_view(state.files())[label.file.0 as int].1 == s);
    }
    r
}

/// Every label of an error's report names a file of the state, and none
/// gives bytes.
proof fn lemma_error_labels(e: LatchErrorView, st: State)
    requires
        error_renders(e, st),
    ensures
        forall|j: int|
            0 <= j < spec_diagnostic(e, st).labels.len() ==> file_ok(st, (#[trigger] spec_diagnostic(e, st).labels[j]).file)
                && !(spec_diagnostic(e, st).labels[j].span is Bytes),
{
}

fn report_tuple(d: &Diagnostic, state: &State) -> (r: (String, Vec<(bool, usize, usize, usize, Option<String>)>))
    requires
        forall|j: int| 0 <= j < d@.labels.len() ==> file_ok(*state, (#[trigger] d@.labels[j]).file) && !(d@.labels[j].span is Bytes),
    ensures
        report_view(r) == report_of(state.files(), d@),
        forall|j: int| 0 <= j < r.1@.len() ==> label_fits(source_files_view(state.files()), #[trigger] label_view(r.1@[j])),
{
    let mut labels: Vec<(bool, usize, usize, usize, Option<String>)> = Vec::new();
    let mut i: usize = 0;
    while i < d.labels.len()
        invariant
            i <= d.labels@.len(),
            d@.labels == d.labels@.map_values(|l: Label| l@),
            forall|j: int| 0 <= j < d@.labels.len() ==> file_ok(*state, (#[trigger] d@.labels[j]).file) && !(d@.labels[j].span is Bytes),
            labels@.len() == i,
            forall|j: int| 0 <= j < i ==> #[trigger] label_view(labels@[j]) == label_of(state.files(), d@.labels[j]),
            forall|j: int| 0 <= j < i ==> label_fits(source_files_view(state.files()), #[trigger] label_view(labels@[j])),
        decreases d.labels@.len() - i,
    {
        assert(d@.labels[i as int] == d.labels@[i as int]@);
        let t = label_tuple(&d.labels[i], state);
        labels.push(t);
        i = i + 1;
    }
    let r = (d.message.clone(), labels);
    assert(report_view(r).1 =~= report_of(state.files(), d@).1);
    r
}

/// Renders the reports of the errors, as [`reports_of`] and
/// [`rendered_reports`] state.
pub fn render_errors(errors: Vec<LatchError>, state: &State) -> (r: String)
    requires
        forall|i: int| 0 <= i < errors@.len() ==> error_renders(#[trigger] errors@[i]@, *state),
    ensures
        r@ == rendered_reports(source_files_view(state.files()), reports_of(*state, errors_view(errors@))),
{
    let ghost ev = errors_view(errors@);
    let source_files = state.get_files();
    let mut files: Vec<(String, String)> = Vec::new();
    let mut i: usize = 0;
    while i < source_files.len()
        invariant
            i <= source_files@.len(),
            source_files@ == state.files(),
            files_view(files@) == source_files_view(source_files@.take(i as int)),
        decreases source_files@.len() - i,
    {
        let f = &source_files[i];
        let ghost before = files@;
        files.push((f.name().clone(), f.source().clone()));
        proof {
            let want = source_files_view(source_files@.take(i + 1));
            let had = source_files_view(source_files@.take(i as int));
            assert(files_view(before).len() == before.len());
            assert(had.len() == i);
            assert(files@.len() == before.len() + 1);
            assert(files_view(files@).len() == files@.len());
            assert(want.len() == i + 1);
            assert(files_view(files@).len() == want.len());
            assert forall|j: int| 0 <= j < want.len() implies files_view(files@)[j] == want[j] by {
                if j < i {
                    assert(files_view(before)[j] == source_files_view(source_files@.take(i as int))[j]);
                }
            }
            assert(files_view(files@) =~= want);
        }
        i = i + 1;
    }
    assert(source_files@.take(i as int) =~= source_files@);
    let mut rest = errors;
    let mut reports: Vec<(String, Vec<(bool, usize, usize, usize, Option<String>)>)> = Vec::new();
    let n = rest.len();
    while rest.len() > 0
        invariant
            n == ev.len(),
            reports@.len() + rest@.len() == n,
            forall|j: int| 0 <= j < rest@.len() ==> (#[trigger] rest@[j])@ == ev[reports@.len() + j],
            forall|j: int| 0 <= j < ev.len() ==> error_renders(#[trigger] ev[j], *state),
            forall|j: int| 0 <= j < reports@.len() ==> #[trigger] report_view(reports@[j]) == reports_of(*state, ev)[j],
            forall|j: int, k: int|
                0 <= j < reports@.len() && 0 <= k < reports@[j].1@.len() ==> label_fits(
                    source_files_view(state.files()),
                    #[trigger] label_view(reports@[j].1@[k]),
                ),
        decreases rest@.len(),
    {
        let ghost k = reports@.len() as int;
        let ghost rest0 = rest@;
        let e = rest.remove(0);
        assert(e@ == ev[k]);
        proof {
            lemma_error_labels(e@, *state);
        }
        let d = to_diagnostic(e, state);
        let t = report_tuple(&d, state);
        reports.push(t);
        proof {
            assert forall|j: int| 0 <= j < rest@.len() implies (#[trigger] rest@[j])@ == ev[reports@.len() + j] by {
                assert(rest@[j] == rest0[j + 1]);
            }
        }
    }
    assert(reports_view(reports@) =~= reports_of(*state, ev));
    render_reports(&files, &reports)
}

// ---------------------------------------------------------------------------
// Which errors can be rendered

/// An error that reading names the file `file` in.
pub open spec fn in_file(e: LatchErrorView, file: FileId) -> bool {
    match e {
        LatchErrorView::Parse { file: f, .. } => f == file,
        LatchErrorView::Lowering { file: f, .. } => f == file,
        _ => false,
    }
}

pub open spec fn all_in_file(es: Seq<LatchErrorView>, file: FileId) -> bool {
    forall|i: int| 0 <= i < es.len() ==> in_file(#[trigger] es[i], file)
}

proof fn lemma_push_in_file(es: Seq<LatchErrorView>, e: LatchErrorView, file: FileId)
    requires
        all_in_file(es, file),
        in_file(e, file),
    ensures
        all_in_file(es.push(e), file),
{
    assert forall|i: int| 0 <= i < es.push(e).len() implies in_file(#[trigger] es.push(e)[i], file) by {
        if i < es.len() {
            assert(es.push(e)[i] == es[i]);
        }
    }
}

proof fn lemma_flush_in_file(m: LowerModel, file: FileId)
    requires
        all_in_file(m.errors, file),
    ensures
        all_in_file(spec_flush(m, file).errors, file),
{
    if m.mode is Active {
        lemma_push_in_file(m.errors, lowering_error(msg_no_fields(), m.mode->reg.line, file), file);
    }
}

proof fn lemma_step_in_file(m: LowerModel, a: RawAnnotationView, file: FileId)
    requires
        all_in_file(m.errors, file),
    ensures
        all_in_file(spec_lower_step(m, a, file).errors, file),
{
    lemma_flush_in_file(m, file);
    let m1 = spec_flush(m, file);
    match crate::kv::spec_parse_kv(a.content) {
        Err(err) => {
            let e = LatchErrorView::Parse {
                message: kv_message(err.0),
                line: a.line,
                start: spec_pre_offset(a.kind) + err.1,
                end: err.2,
                file,
            };
            lemma_push_in_file(m.errors, e, file);
        },
        Ok(ps) => {
            match spec_register_from_kv(ps) {
                Err(message) => lemma_push_in_file(m1.errors, lowering_error(message, a.line, file), file),
                _ => {},
            }
            lemma_push_in_file(m.errors, lowering_error(msg_lone_field(), a.line, file), file);
            lemma_push_in_file(m.errors, lowering_error(msg_not_adjacent(), a.line, file), file);
            match spec_field_from_kv(ps) {
                Err(message) => lemma_push_in_file(m.errors, lowering_error(message, a.line, file), file),
                _ => {},
            }
        },
    }
}

proof fn lemma_lower_all_in_file(anns: Seq<RawAnnotationView>, file: FileId)
    ensures
        all_in_file(spec_lower_all(anns, file).errors, file),
    decreases anns.len(),
{
    if anns.len() > 0 {
        lemma_lower_all_in_file(anns.drop_last(), file);
        lemma_step_in_file(spec_lower_all(anns.drop_last(), file), anns.last(), file);
    }
}

/// Every error that reading a file reports names that file.
pub proof fn lemma_parse_errors_in_file(src: Seq<char>, file: FileId)
    ensures
        all_in_file(spec_flush(spec_lower_all(spec_scan(src), file), file).errors, file),
{
    lemma_lower_all_in_file(spec_scan(src), file);
    lemma_flush_in_file(spec_lower_all(spec_scan(src), file), file);
}

/// A rule broken by fields whose lines are recorded in `file` can be
/// rendered.
proof fn lemma_field_errors_render(st: State, fs: Seq<FieldId>, fms: Seq<FieldModel>, file: FileId)
    requires
        fields_match(st, fs, fms, file),
        file_ok(st, file),
    ensures
        forall|j: int|
            0 <= j < overlap_errors(st, fs).len() ==> error_renders(
                LatchErrorView::Check(#[trigger] overlap_errors(st, fs)[j]),
                st,
            ),
        forall|j: int|
            0 <= j < field_name_errors(st, fs).len() ==> error_renders(
                LatchErrorView::Check(#[trigger] field_name_errors(st, fs)[j]),
                st,
            ),
{
    let n = fs.len() as int;
    lemma_all_pairs(n, n, overlap_pred(st, fs));
    lemma_all_pairs(n, n, field_name_pred(st, fs));
    assert forall|j: int| 0 <= j < overlap_errors(st, fs).len() implies error_renders(
        LatchErrorView::Check(#[trigger] overlap_errors(st, fs)[j]),
        st,
    ) by {
        let x = all_pairs(n, n, overlap_pred(st, fs))[j];
        assert(all_pairs(n, n, overlap_pred(st, fs)).contains(x));
        assert(fs[x.0] == fs[x.0] && fs[x.1] == fs[x.1]);
    }
    assert forall|j: int| 0 <= j < field_name_errors(st, fs).len() implies error_renders(
        LatchErrorView::Check(#[trigger] field_name_errors(st, fs)[j]),
        st,
    ) by {
        let x = all_pairs(n, n, field_name_pred(st, fs))[j];
        assert(all_pairs(n, n, field_name_pred(st, fs)).contains(x));
        assert(fs[x.0] == fs[x.0] && fs[x.1] == fs[x.1]);
    }
}

proof fn lemma_per_reg_errors_render(st: State, ids: Seq<RegId>, regs: Seq<RegModel>, file: FileId, k: int)
    requires
        0 <= k <= ids.len() == regs.len(),
        forall|i: int| #![trigger ids[i]] 0 <= i < ids.len() ==> reg_matches(st, ids[i].0, regs[i], file),
        file_ok(st, file),
    ensures
        forall|j: int|
            0 <= j < per_reg_errors(st, ids, k).len() ==> error_renders(
                LatchErrorView::Check(#[trigger] per_reg_errors(st, ids, k)[j]),
                st,
            ),
    decreases k,
{
    if k > 0 {
        lemma_per_reg_errors_render(st, ids, regs, file, k - 1);
        let fs = st.regs()[ids[k - 1].0]@.fields;
        assert(reg_matches(st, ids[k - 1].0, regs[k - 1], file));
        lemma_field_errors_render(st, fs, regs[k - 1].fields, file);
        let a = per_reg_errors(st, ids, k - 1);
        let b = overlap_errors(st, fs);
        let c = field_name_errors(st, fs);
        assert(per_reg_errors(st, ids, k) == a + b + c);
        assert forall|j: int| 0 <= j < (a + b + c).len() implies error_renders(
            LatchErrorView::Check(#[trigger] (a + b + c)[j]),
            st,
        ) by {
            if j < a.len() {
                assert((a + b + c)[j] == a[j]);
            } else if j < a.len() + b.len() {
                assert((a + b + c)[j] == b[j - a.len()]);
            } else {
                assert((a + b + c)[j] == c[j - a.len() - b.len()]);
            }
        }
    }
}

/// Every rule that registers read from `file` break can be rendered.
pub proof fn lemma_check_errors_render(st: State, ids: Seq<RegId>, regs: Seq<RegModel>, file: FileId)
    requires
        ids.len() == regs.len(),
        forall|i: int| #![trigger ids[i]] 0 <= i < ids.len() ==> reg_matches(st, ids[i].0, regs[i], file),
        file_ok(st, file),
    ensures
        forall|j: int|
            0 <= j < check_errors_view(spec_check_errors(st, ids)).len() ==> error_renders(
                #[trigger] check_errors_view(spec_check_errors(st, ids))[j],
                st,
            ),
{
    let n = ids.len() as int;
    lemma_all_pairs(n, n, reg_name_pred(st, ids));
    lemma_per_reg_errors_render(st, ids, regs, file, n);
    let a = reg_name_errors(st, ids);
    let b = per_reg_errors(st, ids, n);
    assert forall|j: int| 0 <= j < check_errors_view(spec_check_errors(st, ids)).len() implies error_renders(
        #[trigger] check_errors_view(spec_check_errors(st, ids))[j],
        st,
    ) by {
        assert(check_errors_view(spec_check_errors(st, ids))[j] == LatchErrorView::Check((a + b)[j]));
        if j < a.len() {
            assert((a + b)[j] == a[j]);
            let x = all_pairs(n, n, reg_name_pred(st, ids))[j];
            assert(all_pairs(n, n, reg_name_pred(st, ids)).contains(x));
            assert(reg_matches(st, ids[x.0].0, regs[x.0], file));
            assert(reg_matches(st, ids[x.1].0, regs[x.1], file));
        } else {
            assert((a + b)[j] == b[j - a.len()]);
        }
    }
}

// ---------------------------------------------------------------------------
// Checking a file

/// What checking gives for these errors: their rendered reports, or, where
/// there are none, the line that says so.
pub open spec fn check_text(st: State, errors: Seq<LatchErrorView>) -> Seq<char> {
    if errors.len() == 0 {
        "Check done - 0 errors found"@
    } else {
        rendered_reports(source_files_view(st.files()), reports_of(st, errors))
    }
}

/// Reads the registers of a stored file and checks them, giving the
/// rendered reports of the errors reading meets; where it meets none, of the
/// rules the registers break; where they break none, the line
/// "Check done - 0 errors found".
pub fn check_source(state: &mut State, file: FileId) -> (r: String)
    requires
        old(state).wf(),
        file.0 < old(state).files().len(),
        parse_fits(*old(state), old(state).files()[file.0 as int].text()),
        !spec_parse_stops(old(state).files()[file.0 as int].text(), file),
        byte_len(old(state).files()[file.0 as int].text()) <= usize::MAX,
    ensures
        final(state).wf(),
        final(state).extends(old(state)),
        ({
            let src = old(state).files()[file.0 as int].text();
            match spec_parse_file(src, file) {
                Err(errs) => r@ == check_text(*final(state), errs),
                Ok(regs) => exists|ids: Seq<RegId>|
                    {
                        &&& ids.len() == regs.len()
                        &&& forall|i: int|
                            #![trigger ids[i]]
                            0 <= i < ids.len() ==> reg_matches(*final(state), ids[i].0, regs[i], file)
                        &&& only_added(*old(state), *final(state), ids, Seq::empty())
                        &&& r@ == check_text(*final(state), check_errors_view(spec_check_errors(*final(state), ids)))
                    },
            }
        }),
{
    let ghost src = old(state).files()[file.0 as int].text();
    match parse(state, file) {
        Err(errors) => {
            proof {
                lemma_parse_errors_in_file(src, file);
                assert(state.files() == old(state).files());
                assert(file_ok(*state, file));
                assert forall|i: int| 0 <= i < errors@.len() implies error_renders(#[trigger] errors@[i]@, *state) by {
                    assert(errors_view(errors@)[i] == errors@[i]@);
                }
            }
            render_errors(errors, state)
        },
        Ok(regs) => {
            let ghost ids = regs@;
            let ghost models = spec_parse_file(src, file)->Ok_0;
            proof {
                assert(state.files() == old(state).files());
                assert(file_ok(*state, file));
                assert forall|i: int| 0 <= i < ids.len() implies state.regs().dom().contains(#[trigger] ids[i].0)
                    && fields_stored(*state, state.regs()[ids[i].0]@.fields) by {
                    assert(reg_matches(*state, ids[i].0, models[i], file));
                    let fs = state.regs()[ids[i].0]@.fields;
                    assert forall|j: int| 0 <= j < fs.len() implies state.field_map().dom().contains(#[trigger] fs[j].0) by {
                        assert(fields_match(*state, fs, models[i].fields, file));
                    }
                }
            }
            match check_registers(regs.as_slice(), state) {
                Ok(()) => {
                    let r = String::from_str("Check done - 0 errors found");
                    assert(check_errors_view(spec_check_errors(*state, ids)).len() == 0);
                    r
                },
                Err(errs) => {
                    proof {
                        lemma_check_errors_render(*state, ids, models, file);
                        assert forall|i: int| 0 <= i < errs@.len() implies error_renders(#[trigger] errs@[i]@, *state) by {
                            assert(errors_view(errs@)[i] == errs@[i]@);
                        }
                    }
                    render_errors(errs, state)
                },
            }
        },
    }
}

} // verus!

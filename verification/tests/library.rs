use latch_rs::diagnostics::{to_diagnostic, LabelSpan, LabelStyle};
use latch_rs::error::{LatchError, TomlError};
use latch_rs::kv::{parse_kv_pairs, Access, BitRange, KvErrorKind, Value};
use latch_rs::parser::parse;
use latch_rs::scanner::{scan, AnnotationKind};
use latch_rs::source_map::FileId;
use latch_rs::state::State;
use codespan_reporting::diagnostic::{Diagnostic as CsDiagnostic, Label as CsLabel};
use codespan_reporting::files::SimpleFiles;
use codespan_reporting::term::{emit_to_string, Config};

fn chars(s: &str) -> Vec<char> {
    s.chars().collect()
}

#[test]
fn pairs_of_every_kind() {
    let pairs = parse_kv_pairs(&chars("name=ctrl offset=0x04 bits=1:3 access=RW enum=\"a,b\" n=0b101")).unwrap();
    assert_eq!(pairs.len(), 6);
    assert_eq!(pairs[0].key, "name");
    assert_eq!(pairs[0].value.as_string().map(|s| s.as_str()), Some("ctrl"));
    assert_eq!(pairs[1].value.as_u64(), Some(4));
    assert_eq!(pairs[2].value.as_bit_range(), Some(BitRange::Span(1, 3)));
    assert_eq!(pairs[3].value.as_access(), Some(Access::RW));
    assert_eq!(
        pairs[4].value.as_vec_string(),
        Some(&vec!["a".to_string(), "b".to_string()])
    );
    assert_eq!(pairs[5].value.as_u64(), Some(5));
    assert!(matches!(pairs[0].value, Value::Bare(_)));
}

#[test]
fn pair_errors() {
    assert_eq!(parse_kv_pairs(&chars("=x")).unwrap_err().kind, KvErrorKind::ExpectedKey);
    assert_eq!(parse_kv_pairs(&chars("name")).unwrap_err().kind, KvErrorKind::ExpectedEquals);
    assert_eq!(parse_kv_pairs(&chars("name=")).unwrap_err().kind, KvErrorKind::ExpectedValue);
    assert_eq!(parse_kv_pairs(&chars("a=\"x,y")).unwrap_err().kind, KvErrorKind::UnterminatedQuote);
    assert_eq!(parse_kv_pairs(&chars("a=1:z")).unwrap_err().kind, KvErrorKind::InvalidBitRange);
    assert_eq!(
        parse_kv_pairs(&chars("a=18446744073709551616")).unwrap_err().kind,
        KvErrorKind::NumberTooLarge
    );
    assert_eq!(parse_kv_pairs(&chars("a=x,y")).unwrap_err().kind, KvErrorKind::InvalidValue);
    assert_eq!(parse_kv_pairs(&chars("a=\"x\"b=1")).unwrap_err().kind, KvErrorKind::ExpectedWhitespace);
    assert_eq!(KvErrorKind::ExpectedEquals.message(), "expected `=` after the key");
}

#[test]
fn error_positions() {
    let e = parse_kv_pairs(&chars("name=ctrl offset")).unwrap_err();
    assert_eq!((e.start, e.end), (16, 17));
    let e = parse_kv_pairs(&chars("a=1:z")).unwrap_err();
    assert_eq!((e.start, e.end), (2, 5));
}

#[test]
fn largest_number_fits() {
    let pairs = parse_kv_pairs(&chars("a=0xffffffffffffffff")).unwrap();
    assert_eq!(pairs[0].value.as_u64(), Some(u64::MAX));
}

#[test]
fn scanner_finds_annotations_by_line() {
    let anns = scan(&chars("x\n-- @reg name=a\n// @field bits=0\n--@reg no\n  -- @reg indented\n"));
    assert_eq!(anns.len(), 2);
    assert_eq!(anns[0].line, 1);
    assert_eq!(anns[0].kind, AnnotationKind::Reg);
    assert_eq!(anns[1].line, 2);
    assert_eq!(anns[1].kind, AnnotationKind::Field);
    assert_eq!(anns[0].pre_offset(), 7);
    assert_eq!(anns[1].pre_offset(), 9);
}

#[test]
fn lowering_error_diagnostic() {
    let mut state = State::default();
    let id = state.add_file("f".to_string(), "-- @reg name=ctrl\n".to_string());
    let errors = parse(&mut state, id).unwrap_err();
    assert_eq!(errors.len(), 1);
    let d = to_diagnostic(errors.into_iter().next().unwrap(), &state);
    assert_eq!(d.message, "Require an offset key.");
    assert_eq!(d.labels.len(), 1);
    assert_eq!(d.labels[0].style, LabelStyle::Primary);
    assert_eq!(d.labels[0].file, id);
    assert_eq!(d.labels[0].span, LabelSpan::Line(0));
    assert_eq!(d.labels[0].message.as_deref(), Some("lowering error occured here"));
}

#[test]
fn syntax_error_diagnostic() {
    let mut state = State::default();
    let id = state.add_file("f".to_string(), "-- @reg name\n".to_string());
    let errors = parse(&mut state, id).unwrap_err();
    let d = to_diagnostic(errors.into_iter().next().unwrap(), &state);
    assert_eq!(d.message, "expected `=` after the key");
    assert_eq!(d.labels.len(), 1);
    assert_eq!(d.labels[0].span, LabelSpan::Columns { line: 0, start: 12, end: 6 });
    assert_eq!(d.labels[0].message, None);
}

#[test]
fn check_error_diagnostic() {
    let mut state = State::default();
    let src = "-- @reg name=r offset=0\n-- @field name=a bits=0:3\n-- @field name=b bits=2\n";
    let id = state.add_file("f".to_string(), src.to_string());
    let regs = parse(&mut state, id).unwrap();
    let errors = latch_rs::check::check_registers(&regs, &state).unwrap_err();
    let d = to_diagnostic(errors.into_iter().next().unwrap(), &state);
    assert_eq!(d.message, "Two fields have overlapping bit ranges!");
    assert_eq!(d.labels.len(), 2);
    assert_eq!(d.labels[0].span, LabelSpan::Line(1));
    assert_eq!(d.labels[0].style, LabelStyle::Primary);
    assert_eq!(d.labels[1].span, LabelSpan::Line(2));
    assert_eq!(d.labels[1].style, LabelStyle::Secondary);
    assert_eq!(d.labels[1].message.as_deref(), Some("overlap encountered here"));
}

#[test]
fn toml_error_diagnostic() {
    let state = State::default();
    let with_place = TomlError::msg("bad".to_string()).with_span(3, 5).with_file(FileId(0));
    let d = to_diagnostic(LatchError::Toml(with_place), &state);
    assert_eq!(d.message, "bad");
    assert_eq!(d.labels.len(), 1);
    assert_eq!(d.labels[0].span, LabelSpan::Bytes { start: 3, end: 5 });
    assert_eq!(d.labels[0].message.as_deref(), Some("TOML error occoured here"));
    let without = TomlError::msg("bad".to_string());
    let d = to_diagnostic(LatchError::Toml(without), &state);
    assert_eq!(d.labels.len(), 0);
}

#[test]
fn files_keep_name_and_text() {
    let mut state = State::default();
    let a = state.add_file("a.vhd".to_string(), "x\ny".to_string());
    let b = state.add_file("b.vhd".to_string(), "".to_string());
    assert_eq!(a, FileId(0));
    assert_eq!(b, FileId(1));
    assert_eq!(state.get_file(a).name(), "a.vhd");
    assert_eq!(state.get_file(a).source(), "x\ny");
    assert_eq!(state.get_files().len(), 2);
}

#[test]
fn state_counts_and_lists_what_it_stores() {
    let mut state = State::default();
    let id = state.add_file(
        "f".to_string(),
        "-- @reg name=r offset=0\n-- @field name=a bits=0\n-- @field name=b bits=1\n".to_string(),
    );
    parse(&mut state, id).unwrap();
    assert_eq!(state.reg_count(), 1);
    assert_eq!(state.field_count(), 2);
    let mut names: Vec<String> = state.get_fields().iter().map(|f| f.name.clone()).collect();
    names.sort();
    assert_eq!(names, vec!["a".to_string(), "b".to_string()]);
    assert_eq!(state.get_regs()[0].get_name(), "r");
}

fn codespan_render(name: &str, text: &str, message: &str, labels: Vec<(bool, std::ops::Range<usize>, &str)>) -> String {
    let mut files = SimpleFiles::new();
    files.add(name.to_string(), text.to_string());
    let mut d = CsDiagnostic::error().with_message(message);
    for (primary, range, m) in labels {
        let l = if primary { CsLabel::primary(0usize, range) } else { CsLabel::secondary(0usize, range) };
        d = d.with_label(l.with_message(m));
    }
    let mut out = String::new();
    emit_to_string(&mut out, &Config::default(), &files, &d).unwrap();
    out
}

#[test]
fn check_source_reports_success() {
    let mut state = State::default();
    let id = state.add_file("f".to_string(), "-- @reg name=r offset=0\n-- @field name=a bits=0\n".to_string());
    assert_eq!(latch_rs::report::check_source(&mut state, id), "Check done - 0 errors found");
}

#[test]
fn check_source_renders_a_lowering_error() {
    let text = "x\n-- @reg name=ctrl\n";
    let mut state = State::default();
    let id = state.add_file("f.vhd".to_string(), text.to_string());
    let out = latch_rs::report::check_source(&mut state, id);
    let expected = codespan_render("f.vhd", text, "Require an offset key.", vec![(true, 2..20, "lowering error occured here")]);
    assert_eq!(out, expected);
}

#[test]
fn check_source_renders_broken_rules_by_line() {
    let text = "-- @reg name=r offset=0\n-- @field name=a bits=0:3 descr=\"é\"\n-- @field name=b bits=2\n";
    let mut state = State::default();
    let id = state.add_file("f.vhd".to_string(), text.to_string());
    let out = latch_rs::report::check_source(&mut state, id);
    let line1 = 24..(24 + "-- @field name=a bits=0:3 descr=\"é\"\n".len());
    let line2 = line1.end..text.len();
    let expected = codespan_render(
        "f.vhd",
        text,
        "Two fields have overlapping bit ranges!",
        vec![(true, line1, "overlap encountered here"), (false, line2, "overlap encountered here")],
    );
    assert_eq!(out, expected);
}

#[test]
fn check_source_renders_a_syntax_error() {
    let text = "-- @reg name\n";
    let mut state = State::default();
    let id = state.add_file("f.vhd".to_string(), text.to_string());
    let out = latch_rs::report::check_source(&mut state, id);
    assert!(out.contains("expected `=` after the key"));
}

#[test]
fn field_stored_answers_for_each_id() {
    let mut state = State::default();
    let id = state.add_file("f".to_string(), "-- @reg name=r offset=0\n-- @field name=a bits=0\n".to_string());
    let regs = parse(&mut state, id).unwrap();
    let f = state.get_reg(regs[0]).get_fields()[0];
    assert!(state.field_stored(f));
}

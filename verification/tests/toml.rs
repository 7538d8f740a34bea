use latch_rs::kv::{Access, BitRange};
use latch_rs::parser::parse;
use latch_rs::source_map::FileId;
use latch_rs::state::State;
use latch_rs::toml_doc::{TomlField, TomlValue};
use latch_rs::toml_model::{
    access_from_toml, bits_from_str, bits_from_toml, bits_string, from_toml, from_toml_checked, TomlFile,
};
use serde::Deserialize;

fn state_from_src(src: &str) -> State {
    let mut state = State::default();
    let id = state.add_file("test".to_string(), src.to_string());
    parse(&mut state, id).expect("annotation parse failed");
    state
}

/// The TOML text of every stored register, written with `toml`'s own tables.
fn to_toml(state: &State) -> String {
    let file = TomlFile::from_state(state);
    let mut doc = toml::Table::new();
    for (name, reg) in file.registers.iter() {
        let mut t = toml::Table::new();
        t.insert("offset".to_string(), toml::Value::Integer(reg.offset as i64));
        if let Some(d) = &reg.description {
            t.insert("description".to_string(), toml::Value::String(d.clone()));
        }
        for (f_name, f) in reg.fields.iter() {
            let mut ft = toml::Table::new();
            let bits = bits_string(f.bits);
            ft.insert("bits".to_string(), toml::Value::String(bits));
            if !f.access.is_read_only() {
                ft.insert("access".to_string(), toml::Value::String(format!("{:?}", f.access)));
            }
            if let Some(d) = &f.description {
                ft.insert("description".to_string(), toml::Value::String(d.clone()));
            }
            if let Some(vs) = &f.enum_values {
                let items = vs.iter().map(|v| toml::Value::String(v.clone())).collect();
                ft.insert("enum".to_string(), toml::Value::Array(items));
            }
            t.insert(f_name.clone(), toml::Value::Table(ft));
        }
        doc.insert(name.clone(), toml::Value::Table(t));
    }
    toml::to_string_pretty(&doc).expect("serialization failed")
}

fn round_trip_structure() {
    let state1 = state_from_src(
        "-- @reg name=ctrl offset=0x00\n\
         -- @field name=enable bits=0 access=RW\n\
         -- @field name=mode bits=1:3 access=RO",
    );
    let toml_str = to_toml(&state1);

    let mut state2 = State::default();
    from_toml(&mut state2, &toml_str, FileId(0)).expect("deserialization failed");

    let regs = state2.get_regs();
    assert_eq!(regs.len(), 1);
    let reg = regs[0];
    assert_eq!(reg.get_name(), "ctrl");
    assert_eq!(reg.get_offset(), 0x00);
    assert_eq!(reg.get_fields().len(), 2);

    let fields: Vec<_> = reg
        .get_fields()
        .iter()
        .map(|id| state2.get_field(*id))
        .collect();
    let enable = fields
        .iter()
        .find(|f| f.name == "enable")
        .expect("enable field missing");
    let mode = fields
        .iter()
        .find(|f| f.name == "mode")
        .expect("mode field missing");
    assert_eq!(enable.bits, BitRange::Single(0));
    assert_eq!(enable.access, Access::RW);
    assert_eq!(mode.bits, BitRange::Span(1, 3));
    assert_eq!(mode.access, Access::RO);
}

fn round_trip_string_stability() {
    let state1 = state_from_src(
        "-- @reg name=ctrl offset=0x00\n\
         -- @field name=enable bits=0 access=RW\n\
         -- @field name=mode bits=1:3 access=RO",
    );
    let toml1 = to_toml(&state1);

    let mut state2 = State::default();
    from_toml(&mut state2, &toml1, FileId(0)).expect("deserialization failed");
    let toml2 = to_toml(&state2);

    assert_eq!(toml1, toml2);
}

#[test]
fn test_test_round_trip_structure() {
    round_trip_structure();
}

#[test]
fn toml_test_round_trip_structure() {
    round_trip_structure();
}

#[test]
fn test_test_round_trip_string_stability() {
    round_trip_string_stability();
}

#[test]
fn toml_test_round_trip_string_stability() {
    round_trip_string_stability();
}

fn load(src: &str) -> Result<State, (String, Option<(usize, usize)>)> {
    let mut state = State::default();
    match from_toml(&mut state, src, FileId(0)) {
        Ok(_) => Ok(state),
        Err(e) => Err((e.message, e.span)),
    }
}

fn load_err(src: &str) -> String {
    load(src).err().expect("expected an error").0
}

#[test]
fn registers_come_in_document_order() {
    let mut state = State::default();
    let ids = from_toml(
        &mut state,
        "[zeta]\noffset = 8\n[alpha]\noffset = 4\ndescription = \"first\"\n[alpha.f]\nbits = \"0:3\"\nenum = [\"a\", \"b\"]\n",
        FileId(0),
    )
    .unwrap();
    assert_eq!(ids.len(), 2);
    let a = state.get_reg(ids[0]);
    let z = state.get_reg(ids[1]);
    assert_eq!(a.get_name(), "alpha");
    assert_eq!(a.get_offset(), 4);
    assert_eq!(a.get_description().as_deref(), Some("first"));
    assert_eq!(z.get_name(), "zeta");
    assert_eq!(z.get_offset(), 8);
    let f = state.get_field(a.get_fields()[0]);
    assert_eq!(f.name, "f");
    assert_eq!(f.bits, BitRange::Span(0, 3));
    assert_eq!(f.access, Access::RO);
    assert_eq!(f.enum_values, Some(vec!["a".to_string(), "b".to_string()]));
}

#[test]
fn negative_offset_wraps() {
    let state = load("[r]\noffset = -1\n").unwrap();
    assert_eq!(state.get_regs()[0].get_offset(), u64::MAX);
}

#[test]
fn other_strings_and_integers_are_passed_over() {
    let state = load("[r]\noffset = 2\nowner = \"me\"\nwidth = 32\n").unwrap();
    let regs = state.get_regs();
    assert_eq!(regs[0].get_offset(), 2);
    assert_eq!(regs[0].get_description(), &None);
    assert_eq!(regs[0].get_fields().len(), 0);
}

#[test]
fn syntax_error_has_span_and_leaves_state() {
    let mut state = State::default();
    let e = from_toml(&mut state, "[r\noffset = 1\n", FileId(0)).unwrap_err();
    assert!(e.span.is_some());
    assert_eq!(e.file, Some(FileId(0)));
    assert!(!e.message.is_empty());
    assert_eq!(state.get_regs().len(), 0);
}

#[test]
fn missing_offset_is_error() {
    assert_eq!(load_err("[r]\ndescription = \"x\"\n"), "Register requires an offset member");
}

#[test]
fn register_must_be_a_table() {
    assert_eq!(load_err("r = 1\n"), "Register must be a table");
}

#[test]
fn register_keys_of_other_kinds_are_errors() {
    let m = "Register must contain only keys of type Table, String or Integer";
    assert_eq!(load_err("[r]\noffset = 1\nx = 1.5\n"), m);
    assert_eq!(load_err("[r]\noffset = 1\nx = true\n"), m);
    assert_eq!(load_err("[r]\noffset = 1\nx = [1]\n"), m);
    assert_eq!(load_err("[r]\noffset = 1\nx = 1979-05-27\n"), m);
}

#[test]
fn document_must_be_a_table() {
    let e = TomlFile::try_from(&TomlValue::Integer(3)).unwrap_err();
    assert_eq!(e.message, "latch-rs toml file may only contain top level tables");
}

#[test]
fn field_must_be_a_table() {
    let e = TomlField::try_from(&TomlValue::Boolean(true)).unwrap_err();
    assert_eq!(e.message, "Expected a value table.");
}

#[test]
fn field_errors() {
    assert_eq!(load_err("[r]\noffset = 1\n[r.f]\naccess = \"RW\"\n"), "field is missing required member 'bits'");
    assert_eq!(load_err("[r]\noffset = 1\n[r.f]\nbits = \"0\"\ndescription = 3\n"), "description member must be a string");
    assert_eq!(load_err("[r]\noffset = 1\n[r.f]\nbits = \"0\"\nenum = \"a\"\n"), "enum values must be an array");
    assert_eq!(load_err("[r]\noffset = 1\n[r.f]\nbits = \"0\"\nenum = [\"a\", 2]\n"), "enum values must be strings");
}

#[test]
fn bits_strings() {
    assert_eq!(bits_from_str(&"7".to_string()), Ok(BitRange::Single(7)));
    assert_eq!(bits_from_str(&"+7".to_string()), Ok(BitRange::Single(7)));
    assert_eq!(bits_from_str(&"2:5".to_string()), Ok(BitRange::Span(2, 5)));
    assert_eq!(bits_from_str(&"".to_string()).unwrap_err(), "cannot parse integer from empty string\n");
    assert_eq!(bits_from_str(&"+".to_string()).unwrap_err(), "invalid digit found in string\n");
    assert_eq!(bits_from_str(&"0x3".to_string()).unwrap_err(), "invalid digit found in string\n");
    assert_eq!(bits_from_str(&"1:2:3".to_string()).unwrap_err(), "invalid digit found in string\n");
    assert_eq!(bits_from_str(&":3".to_string()).unwrap_err(), "cannot parse integer from empty string\n");
    assert_eq!(
        bits_from_str(&"18446744073709551616".to_string()).unwrap_err(),
        "number too large to fit in target type\n"
    );
    assert_eq!(bits_from_str(&"18446744073709551615".to_string()), Ok(BitRange::Single(u64::MAX)));
}

#[test]
fn bits_messages_match_the_parser() {
    for s in ["", "+", "-1", "x", "1:", "1:2:3", "99999999999999999999a", "12ab"] {
        let ours = bits_from_str(&s.to_string()).unwrap_err();
        let lo_hi = s.split_once(':');
        let std_msg = match lo_hi {
            None => s.parse::<u64>().unwrap_err().to_string(),
            Some((lo, hi)) => match lo.parse::<u64>() {
                Err(e) => e.to_string(),
                Ok(_) => hi.parse::<u64>().unwrap_err().to_string(),
            },
        };
        assert_eq!(ours, format!("{}\n", std_msg), "for {:?}", s);
    }
}

#[test]
fn bits_of_other_kinds_match_serde() {
    let cases: Vec<(TomlValue, toml::Value)> = vec![
        (TomlValue::Integer(5), toml::Value::Integer(5)),
        (TomlValue::Integer(-120), toml::Value::Integer(-120)),
        (TomlValue::Integer(i64::MIN), toml::Value::Integer(i64::MIN)),
        (TomlValue::Boolean(true), toml::Value::Boolean(true)),
        (TomlValue::Boolean(false), toml::Value::Boolean(false)),
        (TomlValue::Array(vec![]), toml::Value::Array(vec![])),
        (TomlValue::Table(vec![]), toml::Value::Table(toml::Table::new())),
    ];
    for (ours, theirs) in cases {
        let expected = String::deserialize(theirs).unwrap_err().to_string();
        assert_eq!(bits_from_toml(&ours).unwrap_err(), expected);
    }
    let date: toml::value::Datetime = "1979-05-27".parse().unwrap();
    assert_eq!(
        bits_from_toml(&TomlValue::Datetime(toml::Value::Datetime(date))).unwrap_err(),
        "invalid digit found in string\n"
    );
    assert_eq!(
        bits_from_toml(&TomlValue::Float(toml::Value::Float(1.5))).unwrap_err(),
        "invalid type: floating point `1.5`, expected a string\n"
    );
    assert_eq!(
        bits_from_toml(&TomlValue::String("4:6".to_string())),
        Ok(BitRange::Span(4, 6))
    );
}

#[test]
fn access_values() {
    let s = |x: &str| TomlValue::String(x.to_string());
    assert_eq!(access_from_toml(&s("RW")), Ok(Access::RW));
    assert_eq!(access_from_toml(&s("RO")), Ok(Access::RO));
    assert_eq!(access_from_toml(&s("WO")), Ok(Access::WO));
    assert_eq!(
        access_from_toml(&s("rw")).unwrap_err(),
        "unknown variant `rw`, expected one of `RW`, `RO`, `WO`\n"
    );
    assert_eq!(
        access_from_toml(&TomlValue::Integer(1)).unwrap_err(),
        "invalid type: unit variant, expected string only\n"
    );
    let one = |k: &str, v: TomlValue| TomlValue::Table(vec![(k.to_string(), v)]);
    assert_eq!(access_from_toml(&one("WO", TomlValue::Array(vec![]))), Ok(Access::WO));
    assert_eq!(access_from_toml(&one("RW", TomlValue::Table(vec![]))), Ok(Access::RW));
    assert_eq!(
        access_from_toml(&one("RW", TomlValue::Integer(1))).unwrap_err(),
        "expected table, found integer\n"
    );
    assert_eq!(
        access_from_toml(&one("RW", TomlValue::Array(vec![TomlValue::Integer(1)]))).unwrap_err(),
        "expected empty array\n"
    );
    assert_eq!(
        access_from_toml(&one("XX", TomlValue::Array(vec![]))).unwrap_err(),
        "unknown variant `XX`, expected one of `RW`, `RO`, `WO`\n"
    );
    assert_eq!(
        access_from_toml(&TomlValue::Table(vec![])).unwrap_err(),
        "wanted exactly 1 element, found 0 elements\n"
    );
}

#[test]
fn access_in_a_document() {
    let state = load("[r]\noffset = 1\n[r.f]\nbits = \"0\"\naccess = \"WO\"\n").unwrap();
    let f = state.get_field(state.get_regs()[0].get_fields()[0]);
    assert_eq!(f.access, Access::WO);
    assert_eq!(
        load_err("[r]\noffset = 1\n[r.f]\nbits = \"0\"\naccess = \"XY\"\n"),
        "unknown variant `XY`, expected one of `RW`, `RO`, `WO`\n"
    );
}

#[test]
fn checked_load_fits_small_documents() {
    let mut state = State::default();
    let r = from_toml_checked(&mut state, "[r]\noffset = 1\n[r.f]\nbits = \"0\"\n", FileId(0));
    let ids = r.expect("fits").expect("reads");
    assert_eq!(ids.len(), 1);
    assert_eq!(state.get_reg(ids[0]).get_fields().len(), 1);
}

#[test]
fn written_bits_read_back() {
    for b in [BitRange::Single(0), BitRange::Single(u64::MAX), BitRange::Span(3, 17), BitRange::Span(9, 2)] {
        assert_eq!(bits_from_str(&bits_string(b)), Ok(b));
    }
}

#[test]
fn export_lists_every_register_once() {
    let state = state_from_src(
        "-- @reg name=a offset=0\n-- @field name=x bits=0\n-- @reg name=b offset=4\n-- @field name=y bits=1\n",
    );
    let file = TomlFile::from_state(&state);
    let mut names: Vec<String> = file.registers.keys().cloned().collect();
    names.sort();
    assert_eq!(names, vec!["a".to_string(), "b".to_string()]);
}

#[test]
fn document_errors_name_the_file() {
    let mut state = State::default();
    let e = from_toml(&mut state, "[r]\ndescription = \"x\"\n", FileId(3)).unwrap_err();
    assert_eq!(e.message, "Register requires an offset member");
    assert_eq!(e.file, Some(FileId(3)));
    assert_eq!(e.span, None);
}

#[test]
fn bits_are_written_in_decimal() {
    assert_eq!(bits_string(BitRange::Single(7)), "7");
    assert_eq!(bits_string(BitRange::Span(0, 15)), "0:15");
    assert_eq!(bits_string(BitRange::Single(u64::MAX)), "18446744073709551615");
}

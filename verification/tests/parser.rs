use latch_rs::ir::{Field, Register};
use latch_rs::kv::{Access, BitRange};
use latch_rs::parser::{parse, parse_stop_message, parse_would_fit};
use latch_rs::state::State;

fn ok_registers(state: &mut State, input: &str) -> Vec<Register> {
    let id = state.add_file("ok_reg".to_string(), input.to_string());
    parse(state, id)
        .unwrap_or_else(|errors| panic!("expected successful parse:\n{:?}", errors))
        .iter()
        .map(|reg| state.get_reg(*reg))
        .cloned()
        .collect()
}

fn err_count(input: &str) -> usize {
    let mut state = State::default();
    let id = state.add_file("err_count".to_string(), input.to_string());
    match parse(&mut state, id) {
        Ok(_) => panic!("expected parse errors but got Ok"),
        Err(e) => e.len(),
    }
}

#[test]
fn empty_input_yields_no_registers() {
    let mut state = State::default();
    assert_eq!(ok_registers(&mut state, "").len(), 0);
}

#[test]
fn register_with_two_fields() {
    let src = "\
-- @reg offset=0x04 name=status\n\
-- @field bits=0 name=tx_en access=RW\n\
-- @field bits=1 name=rx_en access=RO\n";
    let mut state = State::default();
    let registers = ok_registers(&mut state, src);
    let field_ids = registers[0].get_fields().to_vec();
    let field_0 = state.get_field(field_ids[0]).clone();
    let field_1 = state.get_field(field_ids[1]).clone();
    assert_eq!(registers.len(), 1);
    assert_eq!(registers[0].get_fields().len(), 2);
    assert_eq!(field_0.name, "tx_en");
    assert_eq!(field_0.bits, BitRange::Single(0));
    assert_eq!(field_0.access, Access::RW);
    assert_eq!(field_1.name, "rx_en");
    assert_eq!(field_1.bits, BitRange::Single(1));
    assert_eq!(field_1.access, Access::RO);
}

#[test]
fn two_consecutive_registers() {
    let src = "\
-- @reg offset=0x00 name=ctrl\n\
-- @field bits=0:6 name=rx_in access=RO\n\
-- @reg offset=0x04 name=status\n\
-- @field bits=0:6 name=tx_out access=WO\n\
-- @field bits=7 name=rx_in access=RW\n";
    let mut state = State::default();
    let registers = ok_registers(&mut state, src);
    let reg0_fields: Vec<Field> = registers[0]
        .get_fields()
        .iter()
        .map(|&id| state.get_field(id).clone())
        .collect();
    let reg1_fields: Vec<Field> = registers[1]
        .get_fields()
        .iter()
        .map(|&id| state.get_field(id).clone())
        .collect();
    assert_eq!(registers.len(), 2);
    assert_eq!(registers[0].get_fields().len(), 1);
    assert_eq!(registers[1].get_fields().len(), 2);
    assert_eq!(reg0_fields[0].name, "rx_in");
    assert_eq!(reg0_fields[0].bits, BitRange::Span(0, 6));
    assert_eq!(reg0_fields[0].access, Access::RO);
    assert_eq!(reg1_fields[0].name, "tx_out");
    assert_eq!(reg1_fields[0].bits, BitRange::Span(0, 6));
    assert_eq!(reg1_fields[0].access, Access::WO);
    assert_eq!(reg1_fields[1].name, "rx_in");
    assert_eq!(reg1_fields[1].bits, BitRange::Single(7));
    assert_eq!(reg1_fields[1].access, Access::RW);
}

#[test]
fn single_register_exists_in_source_map() {
    let src = "\
-- @reg offset=0x04 name=status\n\
-- @field bits=0 name=tx_en access=RW\n\
-- @field bits=1 name=rx_en access=RO\n";
    let mut state = State::default();
    let id = state.add_file("single_reg_exists".to_string(), src.to_string());
    let reg_ids = parse(&mut state, id).unwrap();
    let field_ids = state.get_reg(reg_ids[0]).get_fields().to_vec();
    assert_eq!(reg_ids.len(), 1);
    assert_eq!(field_ids.len(), 2);
    assert_eq!(state.get_reg_loc(reg_ids[0]).map(|l| l.line), Some(0));
    assert_eq!(state.get_field_loc(field_ids[0]).map(|l| l.line), Some(1));
    assert_eq!(state.get_field_loc(field_ids[1]).map(|l| l.line), Some(2));
}

#[test]
fn multiple_registers_exist_in_source_map() {
    let src = "\
-- @reg offset=0x00 name=ctrl\n\
-- @field bits=0:6 name=rx_in access=RO\n\
-- @reg offset=0x04 name=status\n\
-- @field bits=0:6 name=tx_out access=WO\n\
-- @field bits=7 name=rx_in access=RW\n";
    let mut state = State::default();
    let id = state.add_file("multiple_registers_source_map".to_string(), src.to_string());
    let reg_ids = parse(&mut state, id).unwrap();
    let reg1_field_ids = state.get_reg(reg_ids[1]).get_fields().to_vec();
    assert_eq!(reg_ids.len(), 2);
    assert_eq!(state.get_reg_loc(reg_ids[0]).map(|l| l.line), Some(0));
    assert_eq!(state.get_reg_loc(reg_ids[1]).map(|l| l.line), Some(2));
    assert_eq!(
        state.get_field_loc(reg1_field_ids[0]).map(|l| l.line),
        Some(3)
    );
    assert_eq!(
        state.get_field_loc(reg1_field_ids[1]).map(|l| l.line),
        Some(4)
    );
}

#[test]
fn bit_spec_fields_different_number_formats() {
    let src = "\
-- @reg offset=0x04 name=status\n\
-- @field bits=0x00 name=tx_en access=RW\n\
-- @field bits=0x01:0x03 name=tx_en access=RW\n\
-- @field bits=0b100 name=tx_en access=RW\n\
-- @field bits=0b101:8 name=tx_en access=RW\n\
-- @field bits=0x09:0b1100 name=rx_en access=RO\n\
-- @field bits=13:0x10 name=tx_en access=RW\n";
    let mut state = State::default();
    let registers = ok_registers(&mut state, src);
    let field_ids = registers[0].get_fields();
    let field_0 = state.get_field(field_ids[0]);
    let field_1 = state.get_field(field_ids[1]);
    let field_2 = state.get_field(field_ids[2]);
    let field_3 = state.get_field(field_ids[3]);
    let field_4 = state.get_field(field_ids[4]);
    let field_5 = state.get_field(field_ids[5]);

    assert_eq!(registers.len(), 1);
    assert_eq!(registers[0].get_fields().len(), 6);
    assert_eq!(field_0.bits, BitRange::Single(0));
    assert_eq!(field_1.bits, BitRange::Span(1, 3));
    assert_eq!(field_2.bits, BitRange::Single(4));
    assert_eq!(field_3.bits, BitRange::Span(5, 8));
    assert_eq!(field_4.bits, BitRange::Span(9, 12));
    assert_eq!(field_5.bits, BitRange::Span(13, 16));
}

#[test]
fn single_register_no_fields() {
    let src = "-- @reg offset=0x00 name=ctrl\n";
    let mut state = State::default();
    let id = state.add_file("test".to_string(), src.to_string());
    assert!(parse(&mut state, id).is_err());
}

#[test]
fn field_without_preceding_register_is_error() {
    let src = "-- @field bits=0 name=en access=RW\n";
    let mut state = State::default();
    let id = state.add_file("test".to_string(), src.to_string());
    assert!(parse(&mut state, id).is_err());
}

#[test]
fn register_missing_offset_is_error() {
    let src = "-- @reg name=ctrl\n";
    let mut state = State::default();
    let id = state.add_file("test".to_string(), src.to_string());
    assert!(parse(&mut state, id).is_err());
}

#[test]
fn register_missing_name_is_error() {
    let src = "-- @reg offset=0x00\n";
    let mut state = State::default();
    let id = state.add_file("test".to_string(), src.to_string());
    assert!(parse(&mut state, id).is_err());
}

#[test]
fn field_missing_name_is_error() {
    let src = "\
-- @reg offset=0x00 name=ctrl\n\
-- @field bits=0 access=RW\n";
    let mut state = State::default();
    let id = state.add_file("test".to_string(), src.to_string());
    assert!(parse(&mut state, id).is_err());
}

#[test]
fn field_missing_bits_is_error() {
    let src = "\
-- @reg offset=0x00 name=ctrl\n\
-- @field name=en access=RW\n";
    let mut state = State::default();
    let id = state.add_file("test".to_string(), src.to_string());
    assert!(parse(&mut state, id).is_err());
}

#[test]
fn non_adjacent_field_is_error() {
    let src = "\
-- @reg offset=0x00 name=ctrl\n\
\n\
-- @field bits=0 name=en\n";
    assert_eq!(err_count(src), 2);
}

#[test]
fn non_annotation_lines_are_ignored() {
    let src = "\
signal s_foo : std_logic;\n\
-- @reg offset=0x00 name=ctrl\n\
-- some unrelated comment\n\
-- @field bits=0 name=en access=RW\n";
    let mut state = State::default();
    let id = state.add_file("test".to_string(), src.to_string());
    assert!(parse(&mut state, id).is_err());
}

#[test]
fn ordinary_inputs_do_not_stop_the_parse() {
    let mut state = State::default();
    let id = state.add_file(
        "t".to_string(),
        "-- @reg offset=0x00 name=ctrl\n-- @field bits=0 name=en\n".to_string(),
    );
    assert!(parse_would_fit(&state, id));
    assert_eq!(parse_stop_message(&state, id), None);
}

#[test]
fn a_word_where_an_offset_belongs_stops_the_parse() {
    let mut state = State::default();
    let id = state.add_file(
        "t".to_string(),
        "-- @reg offset=abc name=ctrl\n-- @field bits=0 name=en\n".to_string(),
    );
    assert_eq!(parse_stop_message(&state, id), Some("Expecting offset to be of number value.".to_string()));
}

fn stop_message_of(src: &str) -> Option<String> {
    let mut state = State::default();
    let id = state.add_file("t".to_string(), src.to_string());
    parse_stop_message(&state, id)
}

#[test]
fn a_number_where_a_register_name_belongs_stops_the_parse() {
    assert_eq!(
        stop_message_of("-- @reg offset=0 name=0x10\n-- @field bits=0 name=en\n"),
        Some("Expecting name to be a bare value.".to_string())
    );
}

#[test]
fn ill_typed_field_values_stop_the_parse_in_order() {
    assert_eq!(
        stop_message_of("-- @reg offset=0 name=r\n-- @field bits=x name=en access=maybe\n"),
        Some("Access must be either RO, RW or WO. If absent it is replaced by RO per default".to_string())
    );
    assert_eq!(
        stop_message_of("-- @reg offset=0 name=r\n-- @field bits=x name=en\n"),
        Some("Expecting a bit range.".to_string())
    );
    assert_eq!(
        stop_message_of("-- @reg offset=0 name=r\n-- @field bits=0 name=7\n"),
        Some("Expecting a name.".to_string())
    );
}

#[test]
fn the_first_stopping_annotation_gives_the_message() {
    assert_eq!(
        stop_message_of("-- @reg offset=0 name=r\n-- @field bits=0 name=7\n-- @reg offset=x name=s\n-- @field bits=0 name=a\n"),
        Some("Expecting a name.".to_string())
    );
}

#[test]
fn parse_stores_exactly_the_registers_it_returns() {
    let src = "\
-- @reg offset=0x00 name=ctrl\n\
-- @field bits=0 name=a\n\
-- @field bits=1 name=b\n\
-- @reg offset=0x04 name=status\n\
-- @field bits=0 name=c\n";
    let mut state = State::default();
    let id = state.add_file("t".to_string(), src.to_string());
    let ids = parse(&mut state, id).unwrap();
    assert_eq!(ids.len(), 2);
    assert_eq!(state.reg_count(), 2);
    assert_eq!(state.field_count(), 3);
}

#[test]
fn registers_read_before_an_error_stay_stored() {
    let src = "\
-- @reg offset=0x00 name=ctrl\n\
-- @field bits=0 name=a\n\
-- @reg offset=0x04\n";
    let mut state = State::default();
    let id = state.add_file("t".to_string(), src.to_string());
    assert!(parse(&mut state, id).is_err());
    assert_eq!(state.reg_count(), 1);
    assert_eq!(state.get_regs()[0].get_name(), "ctrl");
    assert_eq!(state.field_count(), 1);
}

#[test]
fn a_syntax_error_discards_the_open_register_but_not_its_fields() {
    let src = "\
-- @reg offset=0x00 name=ctrl\n\
-- @field bits=0 name=a\n\
-- @reg name\n";
    let mut state = State::default();
    let id = state.add_file("t".to_string(), src.to_string());
    assert!(parse(&mut state, id).is_err());
    assert_eq!(state.reg_count(), 0);
    assert_eq!(state.field_count(), 1);
}

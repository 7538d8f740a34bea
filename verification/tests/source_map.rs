use latch_rs::source_map::{FileId, SourceMap};

#[test]
fn empty_map_has_no_lines() {
    let sm = SourceMap::default();
    assert_eq!(sm.register_line(FileId(0), 0), None);
    assert_eq!(sm.field_line(FileId(0), 0, 0), None);
}

#[test]
fn read_gives_back_what_was_written() {
    let mut sm = SourceMap::new();
    sm.insert_register(FileId(1), 2, 17);
    sm.insert_field(FileId(1), 2, 0, 18);
    assert_eq!(sm.register_line(FileId(1), 2), Some(17));
    assert_eq!(sm.field_line(FileId(1), 2, 0), Some(18));
    assert_eq!(sm.register_line(FileId(0), 2), None);
    assert_eq!(sm.field_line(FileId(1), 2, 1), None);
}

#[test]
fn a_second_write_replaces_the_first() {
    let mut sm = SourceMap::new();
    sm.insert_register(FileId(0), 0, 3);
    sm.insert_register(FileId(0), 0, 9);
    sm.insert_field(FileId(0), 0, 1, 4);
    sm.insert_field(FileId(0), 0, 1, 10);
    assert_eq!(sm.register_line(FileId(0), 0), Some(9));
    assert_eq!(sm.field_line(FileId(0), 0, 1), Some(10));
}

#[test]
fn extend_keeps_both_and_prefers_the_other() {
    let mut a = SourceMap::new();
    a.insert_register(FileId(0), 0, 1);
    a.insert_register(FileId(0), 1, 5);
    a.insert_field(FileId(0), 0, 0, 2);
    let mut b = SourceMap::new();
    b.insert_register(FileId(0), 1, 50);
    b.insert_register(FileId(1), 0, 7);
    b.insert_field(FileId(1), 0, 0, 8);
    a.extend(b);
    assert_eq!(a.register_line(FileId(0), 0), Some(1));
    assert_eq!(a.register_line(FileId(0), 1), Some(50));
    assert_eq!(a.register_line(FileId(1), 0), Some(7));
    assert_eq!(a.field_line(FileId(0), 0, 0), Some(2));
    assert_eq!(a.field_line(FileId(1), 0, 0), Some(8));
}

#[test]
fn keys_at_the_limits_stay_apart() {
    let mut sm = SourceMap::new();
    sm.insert_register(FileId(u32::MAX), usize::MAX, 1);
    sm.insert_register(FileId(0), usize::MAX, 2);
    sm.insert_register(FileId(1), 0, 3);
    sm.insert_field(FileId(u32::MAX), usize::MAX, usize::MAX, 4);
    sm.insert_field(FileId(u32::MAX), usize::MAX, 0, 5);
    sm.insert_field(FileId(0), usize::MAX, usize::MAX, 6);
    assert_eq!(sm.register_line(FileId(u32::MAX), usize::MAX), Some(1));
    assert_eq!(sm.register_line(FileId(0), usize::MAX), Some(2));
    assert_eq!(sm.register_line(FileId(1), 0), Some(3));
    assert_eq!(sm.register_line(FileId(0), 0), None);
    assert_eq!(sm.field_line(FileId(u32::MAX), usize::MAX, usize::MAX), Some(4));
    assert_eq!(sm.field_line(FileId(u32::MAX), usize::MAX, 0), Some(5));
    assert_eq!(sm.field_line(FileId(0), usize::MAX, usize::MAX), Some(6));
    assert_eq!(sm.field_line(FileId(1), 0, 0), None);
}

#[test]
fn extend_merges_the_fields_of_one_register() {
    let mut a = SourceMap::new();
    a.insert_field(FileId(0), 0, 0, 1);
    a.insert_field(FileId(0), 0, 1, 2);
    let mut b = SourceMap::new();
    b.insert_field(FileId(0), 0, 1, 20);
    b.insert_field(FileId(0), 0, 2, 30);
    a.extend(b);
    assert_eq!(a.field_line(FileId(0), 0, 0), Some(1));
    assert_eq!(a.field_line(FileId(0), 0, 1), Some(20));
    assert_eq!(a.field_line(FileId(0), 0, 2), Some(30));
}

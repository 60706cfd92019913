use jep106_build::table::{build_table, BuildError, Table};

fn chars(s: &str) -> Vec<char> {
    s.chars().collect()
}

fn name_at(t: &Table, bank: usize, slot: usize) -> Option<String> {
    t.banks[bank][slot].as_ref().map(|n| n.iter().collect())
}

#[test]
fn non_row_lines_leave_the_table_unchanged() {
    let mut t = Table::new();
    t.feed_line(&chars("1 First 0 0 0 0 0 0 0 0 01 ")).unwrap();
    let before: Vec<Vec<Option<Vec<char>>>> = t.banks.clone();
    for line in ["", "Header text", "2 Second 0 0 0 0 0 0 0 0 02", "12"] {
        assert_eq!(t.feed_line(&chars(line)), Ok(()));
        assert_eq!(t.banks, before);
    }
}

#[test]
fn code_01_starts_a_bank_of_128_empty_slots() {
    let mut t = Table::new();
    assert_eq!(t.num_banks(), 0);
    t.feed_line(&chars("1 First 0 0 0 0 0 0 0 0 01 ")).unwrap();
    assert_eq!(t.num_banks(), 1);
    assert_eq!(t.banks[0].len(), 128);
    assert_eq!(name_at(&t, 0, 1), Some("First".to_string()));
    for s in (0..128).filter(|s| *s != 1) {
        assert_eq!(name_at(&t, 0, s), None);
    }
    t.feed_line(&chars("1 Second 0 0 0 0 0 0 0 0 01 ")).unwrap();
    assert_eq!(t.num_banks(), 2);
    assert_eq!(name_at(&t, 0, 1), Some("First".to_string()));
    assert_eq!(name_at(&t, 1, 1), Some("Second".to_string()));
}

#[test]
fn code_81_writes_the_slot_of_01() {
    let mut t = Table::new();
    t.feed_line(&chars("1 First 0 0 0 0 0 0 0 0 01 ")).unwrap();
    t.feed_line(&chars("2 Folded 1 0 0 0 0 0 0 0 81 ")).unwrap();
    assert_eq!(t.num_banks(), 1);
    assert_eq!(name_at(&t, 0, 1), Some("Folded".to_string()));
    t.feed_line(&chars("3 High 1 1 1 1 1 1 1 1 FE ")).unwrap();
    assert_eq!(name_at(&t, 0, 0x7E), Some("High".to_string()));
}

#[test]
fn row_before_any_bank_is_an_error() {
    let mut t = Table::new();
    assert_eq!(t.feed_line(&chars("2 Early 0 0 0 0 0 0 0 0 02 ")), Err(BuildError::NoCurrentBank));
    assert_eq!(t.num_banks(), 0);
    assert_eq!(
        build_table(&chars("title\n2 Early 0 0 0 0 0 0 0 0 02 \n1 Late 0 0 0 0 0 0 0 0 01 \n")).err(),
        Some(BuildError::NoCurrentBank)
    );
}

#[test]
fn document_lines_are_folded_in_order() {
    let text = "JEP106 header\r\n1 A 0 0 0 0 0 0 0 0 01 \r\n2 B 0 0 0 0 0 0 0 0 02 \n\
                page 2\n1 C 0 0 0 0 0 0 0 0 01 \n7F D 0 0 0 0 0 0 0 0 7F \n3 E 0 0 0 0 0 0 0 0 03 ";
    let t = build_table(&chars(text)).unwrap();
    assert_eq!(t.num_banks(), 2);
    assert_eq!(name_at(&t, 0, 1), Some("A".to_string()));
    assert_eq!(name_at(&t, 0, 2), Some("B".to_string()));
    assert_eq!(name_at(&t, 1, 1), Some("C".to_string()));
    assert_eq!(name_at(&t, 1, 3), Some("E".to_string()));
    assert_eq!(name_at(&t, 1, 0x7F), None);
}

#[test]
fn crlf_ending_is_removed_before_matching() {
    let t = build_table(&chars("1 A 0 0 0 0 0 0 0 0 01\r\n")).unwrap();
    assert_eq!(t.num_banks(), 0);
    let t = build_table(&chars("1 A 0 0 0 0 0 0 0 0 01\r")).unwrap();
    assert_eq!(t.num_banks(), 1);
}

#[test]
fn text_without_rows_gives_no_banks() {
    assert_eq!(build_table(&chars("")).unwrap().num_banks(), 0);
    assert_eq!(build_table(&chars("a\nb\n\n")).unwrap().num_banks(), 0);
}

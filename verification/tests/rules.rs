use rustcuts::rules::{line_to_rule, load_data, WidthError, EITHER, ONE, ZERO};

#[test]
fn line_to_rule_keeps_the_symbols_in_order() {
    assert_eq!(line_to_rule("01_"), vec![ZERO, ONE, EITHER]);
    assert_eq!(line_to_rule("0 1\t_x2\r"), vec![ZERO, ONE, EITHER]);
    assert_eq!(line_to_rule(""), Vec::<u8>::new());
    assert_eq!(line_to_rule("abc 23"), Vec::<u8>::new());
    assert_eq!(line_to_rule("01_"), b"01_".to_vec());
}

#[test]
fn line_to_rule_keeps_all_104_symbols_of_a_line() {
    let line =
        "110000001010100000000001________ 00001010________________________ ________________ 0000000001010000 00000111";
    let rule = line_to_rule(line);
    assert_eq!(rule.len(), 104);
    assert_eq!(rule[0], ONE);
    assert_eq!(rule[24], EITHER);
    assert_eq!(rule[103], ONE);
    let symbols: String = line.chars().filter(|c| *c != ' ').collect();
    assert_eq!(rule, symbols.as_bytes().to_vec());
}

#[test]
fn load_data_reads_one_rule_from_each_line() {
    let set = load_data("0101\n1_1_\n____\n", 4).unwrap();
    assert_eq!(set.width(), 4);
    assert_eq!(set.len(), 3);
    assert_eq!(set.rule(0), b"0101");
    assert_eq!(set.rule(1), b"1_1_");
    assert_eq!(set.rule(2), b"____");
}

#[test]
fn load_data_takes_a_last_line_without_line_feed() {
    let set = load_data("01 01\r\n1 _ 1 _", 4).unwrap();
    assert_eq!(set.len(), 2);
    assert_eq!(set.rule(0), b"0101");
    assert_eq!(set.rule(1), b"1_1_");
}

#[test]
fn load_data_of_nothing_is_an_empty_rule_set() {
    let set = load_data("", 104).unwrap();
    assert_eq!(set.len(), 0);
    assert_eq!(set.width(), 104);
}

#[test]
fn load_data_names_the_first_line_of_another_width() {
    assert_eq!(
        load_data("0101\n011\n01\n", 4).err(),
        Some(WidthError { line: 1, symbols: 3 })
    );
    assert_eq!(
        load_data("0101\n01011\n", 4).err(),
        Some(WidthError { line: 1, symbols: 5 })
    );
    assert_eq!(
        load_data("0101\n\n0101\n", 4).err(),
        Some(WidthError { line: 1, symbols: 0 })
    );
    assert_eq!(load_data("\n", 0).map(|set| set.len()), Ok(1));
}

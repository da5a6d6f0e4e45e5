use parapin::{parse_config, ParaPin, PinError};

fn default_pin() -> ParaPin {
    ParaPin::default()
}

#[test]
fn hello_translates_with_default_table() {
    assert_eq!(default_pin().pin("hello"), Ok("32556".to_string()));
}

#[test]
fn surrounding_spaces_are_trimmed() {
    assert_eq!(default_pin().pin("  cab "), Ok("100".to_string()));
}

#[test]
fn tabs_and_newlines_are_trimmed() {
    assert_eq!(default_pin().pin("\t hello \n"), Ok("32556".to_string()));
}

#[test]
fn unicode_white_space_is_trimmed() {
    assert_eq!(default_pin().pin("\u{3000}ab\u{00A0}"), Ok("00".to_string()));
}

#[test]
fn inner_space_is_unknown() {
    assert_eq!(
        default_pin().pin(" a b "),
        Err(PinError::UnknownCharacter(' '))
    );
}

#[test]
fn uppercase_is_unknown_in_default_table() {
    assert_eq!(
        default_pin().pin("Hi!"),
        Err(PinError::UnknownCharacter('H'))
    );
}

#[test]
fn first_unknown_character_is_reported() {
    assert_eq!(
        default_pin().pin("ab1c!"),
        Err(PinError::UnknownCharacter('1'))
    );
}

#[test]
fn empty_message_gives_empty_pin() {
    assert_eq!(default_pin().pin(""), Ok(String::new()));
    assert_eq!(default_pin().pin("   "), Ok(String::new()));
}

#[test]
fn pin_length_matches_trimmed_message() {
    let msg = "  thequickbrownfoxjumpsoverthelazydog  ";
    let out = default_pin().pin(msg).unwrap();
    assert_eq!(out.chars().count(), msg.trim().chars().count());
}

#[test]
fn whole_default_alphabet() {
    assert_eq!(
        default_pin().pin("abcdefghijklmnopqrstuvwxyz"),
        Ok("00112233444555666777888999".to_string())
    );
}

#[test]
fn pin_is_deterministic() {
    let p = default_pin();
    assert_eq!(p.pin("zebra"), p.pin("zebra"));
    assert_eq!(p.pin("zebra!"), p.pin("zebra!"));
}

#[test]
fn translate_known_and_unknown() {
    let p = default_pin();
    assert_eq!(p.translate(&'k'), Ok(4));
    assert_eq!(p.translate(&'z'), Ok(9));
    assert_eq!(p.translate(&'7'), Err(PinError::UnknownCharacter('7')));
}

#[test]
fn default_translate_map_has_every_letter() {
    let m = parapin::default_translate_map();
    assert_eq!(m.len(), 26);
    assert_eq!(m.get(&('a' as u32)), Some(&0));
    assert_eq!(m.get(&('q' as u32)), Some(&6));
    assert_eq!(m.get(&('z' as u32)), Some(&9));
}

#[test]
fn valid_config_builds_table() {
    let p = ParaPin::from(vec![(9, vec!['x', 'Y']), (0, vec!['!']), (5, vec![])]).unwrap();
    assert_eq!(p.translate(&'x'), Ok(9));
    assert_eq!(p.translate(&'Y'), Ok(9));
    assert_eq!(p.translate(&'!'), Ok(0));
    assert_eq!(p.translate(&'a'), Err(PinError::UnknownCharacter('a')));
    assert_eq!(p.pin(" Yx! "), Ok("990".to_string()));
}

#[test]
fn empty_config_builds_empty_table() {
    let p = ParaPin::from(vec![]).unwrap();
    assert_eq!(p.pin("a"), Err(PinError::UnknownCharacter('a')));
    assert_eq!(p.pin(""), Ok(String::new()));
}

#[test]
fn digit_above_nine_is_rejected() {
    assert_eq!(
        ParaPin::from(vec![(11, vec!['z'])]).err(),
        Some(PinError::InvalidDigit(11))
    );
    assert_eq!(
        ParaPin::from(vec![(10, vec![])]).err(),
        Some(PinError::InvalidDigit(10))
    );
}

#[test]
fn same_digit_listed_twice_with_same_char() {
    assert_eq!(
        ParaPin::from(vec![(0, vec!['a']), (0, vec!['a'])]).err(),
        Some(PinError::DuplicateCharacter('a'))
    );
}

#[test]
fn char_under_two_digits_is_rejected() {
    assert_eq!(
        ParaPin::from(vec![(1, vec!['b', 'a']), (2, vec!['c', 'a'])]).err(),
        Some(PinError::DuplicateCharacter('a'))
    );
}

#[test]
fn char_repeated_in_one_entry_is_rejected() {
    assert_eq!(
        ParaPin::from(vec![(3, vec!['q', 'q'])]).err(),
        Some(PinError::DuplicateCharacter('q'))
    );
}

#[test]
fn first_problem_in_scan_order_is_reported() {
    assert_eq!(
        ParaPin::from(vec![(0, vec!['a']), (1, vec!['a']), (12, vec![])]).err(),
        Some(PinError::DuplicateCharacter('a'))
    );
    assert_eq!(
        ParaPin::from(vec![(12, vec![]), (0, vec!['a', 'a'])]).err(),
        Some(PinError::InvalidDigit(12))
    );
}

#[test]
fn yaml_config_is_read_in_digit_order() {
    let text = "1: [c, d]\n0: [a, b]\n";
    assert_eq!(
        parse_config(text),
        Ok(vec![(0, vec!['a', 'b']), (1, vec!['c', 'd'])])
    );
}

#[test]
fn yaml_config_builds_working_table() {
    let raw = parse_config("0: [a]\n7: [s, t]\n").unwrap();
    let p = ParaPin::from(raw).unwrap();
    assert_eq!(p.pin("sat"), Ok("707".to_string()));
}

#[test]
fn yaml_digit_above_nine_is_rejected_by_build() {
    let raw = parse_config("11: [z]\n").unwrap();
    assert_eq!(ParaPin::from(raw).err(), Some(PinError::InvalidDigit(11)));
}

#[test]
fn malformed_yaml_is_a_parse_error() {
    assert_eq!(parse_config("0: [a, b"), Err(PinError::Parse));
    assert_eq!(parse_config("zero: [a]\n"), Err(PinError::Parse));
    assert_eq!(parse_config("0: [ab]\n"), Err(PinError::Parse));
    assert_eq!(parse_config("-1: [a]\n"), Err(PinError::Parse));
}

#[test]
fn pin_byte_length_matches_trimmed_message() {
    let msg = " \u{3000}zebra\t";
    let out = default_pin().pin(msg).unwrap();
    assert_eq!(out.len(), msg.trim().chars().count());
    assert_eq!(out, "92070");
}

#[test]
fn default_translate_map_keys_are_lowercase_letters() {
    let m = parapin::default_translate_map();
    for (k, d) in m.iter() {
        assert!((97..=122).contains(k));
        assert!(*d <= 9);
    }
    assert_eq!(m.get(&('H' as u32)), None);
}

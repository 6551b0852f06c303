use modelflat_bot::util::modify_message;

#[test]
fn test_modify_message_modifies_message_by_exactly_1_char() {
    let mut message = "message".to_string();
    let original_len = message.chars().count();

    modify_message(&mut message, 0);
    assert_eq!(message.chars().count(), original_len + 1);
    modify_message(&mut message, 1);
    assert_eq!(message.chars().count(), original_len + 2);
    modify_message(&mut message, 123123123);
    assert_eq!(message.chars().count(), original_len + 3);
}

#[test]
fn test_modify_message_modifies_message_by_no_more_than_4_bytes() {
    let mut message = "message".to_string();
    let original_len = message.len();

    modify_message(&mut message, 0);
    assert!(message.len() <= original_len + 4);
    modify_message(&mut message, 1);
    assert!(message.len() <= original_len + 8);
    modify_message(&mut message, 123123123);
    assert!(message.len() <= original_len + 12);
}

#[test]
fn the_suffix_is_the_character_that_the_salt_selects() {
    let mut first = "hi".to_string();
    modify_message(&mut first, 0);
    assert_eq!(first, "hi\u{e0000}");
    let mut second = "hi".to_string();
    modify_message(&mut second, 1);
    assert_eq!(second, "hi\u{e0002}");
    let mut last = "hi".to_string();
    modify_message(&mut last, 30);
    assert_eq!(last, "hi\u{e001f}");
    let mut wrapped = "hi".to_string();
    modify_message(&mut wrapped, 31);
    assert_eq!(wrapped, "hi\u{e0000}");
    let mut large = String::new();
    modify_message(&mut large, 123123123);
    assert_eq!(large.chars().next(), Some(char::from_u32(0xE0001 + 123123123 % 31).unwrap()));
}

#[test]
fn every_suffix_is_a_reserved_tag_character() {
    for salt in 0..100usize {
        let mut message = String::new();
        modify_message(&mut message, salt);
        assert_eq!(message.len(), 4);
        let code = message.chars().next().unwrap() as u32;
        assert!(code == 0xE0000 || (0xE0002..=0xE001F).contains(&code));
    }
}

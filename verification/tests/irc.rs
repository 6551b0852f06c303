use modelflat_bot::irc::{Message, MessageBuilder, ParseError, Prefix};

#[test]
fn test_msg_parse() {
    let parsed = Message::parse("CAP LS").expect("Failed to parse message");
    assert_eq!(parsed.command.name, "CAP");
    assert_eq!(parsed.command.args.len(), 1);
    assert_eq!(parsed.command.args.first().unwrap(), &"LS");
}

#[test]
fn test_msg_parse_with_host_prefix() {
    let parsed = Message::parse(":host.com CAP LS").expect("Failed to parse message");
    match parsed.prefix {
        Prefix::Host(host) => {
            assert_eq!(host, "host.com");
        }
        _ => assert!(false),
    };
}

#[test]
fn test_msg_parse_with_full_prefix() {
    let parsed = Message::parse(":nick!user@host.com CAP LS").expect("Failed to parse message");
    match parsed.prefix {
        Prefix::Full { nick, user, host } => {
            assert_eq!(nick, "nick");
            assert_eq!(user, "user");
            assert_eq!(host, "host.com");
        }
        _ => assert!(false),
    };
}

#[test]
fn test_msg_parse_single_tag() {
    let parsed = Message::parse("@aaa=a_value :host.com CAP LS").expect("Failed to parse message");
    assert!(!parsed.tags.is_empty());
    assert_eq!(
        parsed.tags.get("aaa").expect("Expected key is not present").unwrap(),
        "a_value"
    );
}

#[test]
fn test_msg_parse_multiple_tags() {
    let parsed = Message::parse("@a=a_value;b;c=c_value :host.com CAP LS").expect("Failed to parse message");
    assert!(!parsed.tags.is_empty());
    assert_eq!(
        parsed.tags.get("a").expect("Expected key is not present").unwrap(),
        "a_value"
    );
    assert!(parsed.tags.get("b").expect("Expected key is not present").is_none());
    assert_eq!(
        parsed.tags.get("c").expect("Expected key is not present").unwrap(),
        "c_value"
    );
}

#[test]
fn test_msg_parse_trailing() {
    let parsed = Message::parse(":host.com CAP LS :trailing").expect("Failed to parse message");
    assert_eq!(parsed.trailing.expect("Trailing should not be None"), "trailing");
}

#[test]
fn test_msg_build_simple() {
    let message = MessageBuilder::new("CAP")
        .with_arg("arg1")
        .with_arg("arg2")
        .with_trailing("message")
        .with_prefix(Prefix::Host("tmi.twitch.tv"))
        .with_tag("color", Some("blue"))
        .string();

    assert_eq!(message, "@color=blue :tmi.twitch.tv CAP arg1 arg2 :message");
}

#[test]
fn test_msg_build_tags_are_properly_constructed() {
    let message = MessageBuilder::new("CAP")
        .with_trailing("message")
        .with_prefix(Prefix::Host("tmi.twitch.tv"))
        .with_tag("ak", Some("av"))
        .with_tag("bk", Some("bv"))
        .with_tag("ck", None)
        .string();

    let tags = Message::parse(&message).expect("message is unparseable").tags;

    assert_eq!(tags.get("ak").expect("no key ak").expect("should have value"), "av");
    assert_eq!(tags.get("bk").expect("no key bk").expect("should have value"), "bv");
    assert!(tags.get("ck").expect("no key ck").is_none());
}

#[test]
fn parse_reports_each_failure() {
    assert_eq!(Message::parse("").err(), Some(ParseError::UnexpectedEnd));
    assert_eq!(Message::parse("@a=b").err(), Some(ParseError::UnexpectedEnd));
    assert_eq!(Message::parse("@a=b ").err(), Some(ParseError::UnexpectedEnd));
    assert_eq!(Message::parse(":host").err(), Some(ParseError::UnexpectedEnd));
    assert_eq!(Message::parse(":host ").err(), Some(ParseError::CommandExpected));
    assert_eq!(Message::parse(" :text").err(), Some(ParseError::CommandExpected));
}

#[test]
fn codec_scenario_parses_every_part() {
    let line = "@a=1;b;c=3 :nick!user@host PRIVMSG #ch :hello";
    let parsed = Message::parse(line).expect("the line parses");
    assert_eq!(parsed.tags.len(), 3);
    assert_eq!(parsed.tags.get("a"), Some(Some("1")));
    assert_eq!(parsed.tags.get("b"), Some(None));
    assert_eq!(parsed.tags.get("c"), Some(Some("3")));
    assert_eq!(parsed.tags.get("d"), None);
    match parsed.prefix {
        Prefix::Full { nick, user, host } => {
            assert_eq!(nick, "nick");
            assert_eq!(user, "user");
            assert_eq!(host, "host");
        }
        _ => panic!("a full prefix was expected"),
    }
    assert_eq!(parsed.command.name, "PRIVMSG");
    assert_eq!(parsed.command.args, vec!["#ch"]);
    assert_eq!(parsed.trailing, Some("hello"));
    assert_eq!(parsed.to_string(), line);
}

#[test]
fn written_lines_parse_back() {
    let lines = [
        "CAP LS",
        ":host.com CAP LS",
        ":user@host.com CAP LS :trailing :with more",
        "@a=a_value;b;c=c=d :n!u@h PRIVMSG #channel one two :text with  spaces",
        "@=v :!u@h X :",
        ":p @b CMD",
    ];
    for line in lines.iter() {
        let first = Message::parse(line).expect("the line parses");
        let written = first.to_string();
        assert_eq!(&written, line);
        let second = Message::parse(&written).expect("the written line parses");
        assert_eq!(second.to_string(), written);
        assert_eq!(second.command.name, first.command.name);
        assert_eq!(second.command.args, first.command.args);
        assert_eq!(second.trailing, first.trailing);
        assert_eq!(second.tags.len(), first.tags.len());
    }
}

#[test]
fn extra_spaces_between_arguments_are_dropped() {
    let parsed = Message::parse("CMD  a   b ").expect("the line parses");
    assert_eq!(parsed.command.name, "CMD");
    assert_eq!(parsed.command.args, vec!["a", "b"]);
    assert_eq!(parsed.trailing, None);
    assert_eq!(parsed.to_string(), "CMD a b");
}

#[test]
fn a_repeated_tag_keeps_its_place_and_takes_the_last_value() {
    let parsed = Message::parse("@a=1;b=2;a=3 CMD").expect("the line parses");
    assert_eq!(parsed.tags.len(), 2);
    assert_eq!(parsed.tags.get("a"), Some(Some("3")));
    assert_eq!(parsed.to_string(), "@a=3;b=2 CMD");
}

#[test]
fn a_name_that_reads_as_tags_does_not_come_back() {
    let first = Message::parse("@ @b CMD").expect("the line parses");
    assert!(first.tags.is_empty());
    assert_eq!(first.command.name, "@b");
    let written = first.to_string();
    assert_eq!(written, "@b CMD");
    let second = Message::parse(&written).expect("the written line parses");
    assert_eq!(second.command.name, "CMD");
}

#[test]
fn prefixes_are_told_apart_from_the_right() {
    match Message::parse(":a@b@c X").unwrap().prefix {
        Prefix::UserHost { user, host } => {
            assert_eq!(user, "a@b");
            assert_eq!(host, "c");
        }
        _ => panic!("user and host were expected"),
    }
    match Message::parse(":a!b!c@d X").unwrap().prefix {
        Prefix::Full { nick, user, host } => {
            assert_eq!(nick, "a!b");
            assert_eq!(user, "c");
            assert_eq!(host, "d");
        }
        _ => panic!("a full prefix was expected"),
    }
    match Message::parse("X").unwrap().prefix {
        Prefix::Absent => {}
        _ => panic!("no prefix was expected"),
    }
}

#[test]
fn message_accessors() {
    let parsed = Message::parse("@k=v;e PRIVMSG ##ch :first second third").unwrap();
    assert_eq!(parsed.tag_value("k"), Some("v"));
    assert_eq!(parsed.tag_value("e"), None);
    assert_eq!(parsed.tag_value("x"), None);
    assert_eq!(parsed.first_arg_as_channel_name(), Some("ch"));
    assert_eq!(parsed.arg_split(), ("first", Some(" second third")));
    let bare = Message::parse("PING").unwrap();
    assert_eq!(bare.first_arg_as_channel_name(), None);
    assert_eq!(bare.arg_split(), ("", None));
    let one = Message::parse("PING :word").unwrap();
    assert_eq!(one.arg_split(), ("word", None));
}

#[test]
fn parse_errors_have_their_words() {
    assert_eq!(ParseError::UnexpectedEnd.message(), "Unexpected end of input");
    assert_eq!(ParseError::CommandExpected.message(), "Command expected");
}

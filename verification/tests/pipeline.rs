use modelflat_bot::banphrase::{permits, BanphraseResponse};
use modelflat_bot::cooldown::CooldownTracker;
use modelflat_bot::executor::{
    check_cooldowns, command_cooldowns, decide, settle, user_cooldown_key, CommandCooldown,
    CommandInfo, Denial, ExecutionOutcome, PreparedCommand, Verdict,
};
use modelflat_bot::irc::Message;
use modelflat_bot::messaging::{
    commit_send, deduplicate, frame_lines, login_lines, receive_line, record_sent, send_delay,
    Action, MessagingState, PreparedMessage, MODERATOR_COOLDOWN,
};
use modelflat_bot::permissions::{PermissionLevel, PermissionList};
use modelflat_bot::state::{distinct, BotState};

const SECOND: u64 = 1_000_000_000;

fn echo_info(level: PermissionLevel, command: Option<u64>, user: Option<u64>) -> CommandInfo {
    CommandInfo {
        name: "echo".to_string(),
        level,
        cooldown: CommandCooldown { command, user },
    }
}

fn state_with(commands: Vec<CommandInfo>) -> BotState {
    BotState::new(
        "bot".to_string(),
        ">>".to_string(),
        vec!["ch".to_string()],
        commands,
        PermissionList::new(vec![("Boss".to_string(), PermissionLevel::Admin)]),
    )
}

fn echo(command: &PreparedCommand, body: &str) -> ExecutionOutcome {
    let message = Message::parse(&command.message).unwrap();
    if body.is_empty() {
        ExecutionOutcome::SilentSuccess
    } else {
        ExecutionOutcome::success(
            message.first_arg_as_channel_name().unwrap().to_string(),
            body.to_string(),
        )
    }
}

/// Takes one line through receiver, executor and sender at `now`.
fn through(
    line: &str,
    state: &BotState,
    messaging: &mut MessagingState,
    global: &mut CooldownTracker,
    users: &mut CooldownTracker,
    now: u64,
) -> Option<String> {
    let command = match receive_line(line, state, messaging) {
        Action::ExecuteCommand(command) => command,
        Action::SendMessage(out) => return Some(out),
        Action::Nothing => return None,
    };
    let body = match decide(&command, state, global, users, now) {
        Verdict::Run { command: 0, body, .. } => body,
        _ => return None,
    };
    let mut message = settle(echo(&command, &body))?;
    send_delay(messaging, &message.channel, now)?;
    let text = message.message.clone();
    let fresh = deduplicate(messaging, &mut message, now)?;
    let out = commit_send(messaging, &message, now)?;
    if fresh {
        record_sent(messaging, &message.channel, text, now);
    }
    Some(out.line)
}

#[test]
fn ping_is_answered_with_pong() {
    let state = state_with(vec![]);
    let mut messaging = MessagingState::new(&vec!["ch".to_string()], SECOND, 30 * SECOND, 0);
    match receive_line("PING :tmi.twitch.tv", &state, &mut messaging) {
        Action::SendMessage(line) => assert_eq!(line, "PONG :tmi.twitch.tv"),
        other => panic!("a reply was expected, not {:?}", other),
    }
    match receive_line("PING", &state, &mut messaging) {
        Action::SendMessage(line) => assert_eq!(line, "PONG :"),
        other => panic!("a reply was expected, not {:?}", other),
    }
}

#[test]
fn echo_command_goes_through() {
    let state = state_with(vec![echo_info(PermissionLevel::User, Some(SECOND), None)]);
    let mut messaging = MessagingState::new(&vec!["ch".to_string()], SECOND, 30 * SECOND, 0);
    let mut global = CooldownTracker::new(&command_cooldowns(&state.commands), 0);
    let mut users = CooldownTracker::new(&vec![], 0);
    let out = through(
        "@display-name=U PRIVMSG #ch :>>echo hi",
        &state,
        &mut messaging,
        &mut global,
        &mut users,
        0,
    );
    assert_eq!(out, Some("PRIVMSG #ch :hi".to_string()));
    let spaced = through(
        "@display-name=U PRIVMSG #ch :>> echo hi",
        &state,
        &mut messaging,
        &mut global,
        &mut users,
        2 * SECOND,
    );
    assert_eq!(spaced, Some("PRIVMSG #ch :hi\u{e0000}".to_string()));
}

#[test]
fn repeated_messages_get_suffixes() {
    let state = state_with(vec![echo_info(PermissionLevel::User, Some(SECOND), None)]);
    let mut messaging = MessagingState::new(&vec!["ch".to_string()], SECOND, 30 * SECOND, 0);
    let mut global = CooldownTracker::new(&command_cooldowns(&state.commands), 0);
    let mut users = CooldownTracker::new(&vec![], 0);
    let line = "@display-name=U PRIVMSG #ch :>>echo hi";
    let mut sent = Vec::new();
    for round in 0..3u64 {
        sent.push(through(line, &state, &mut messaging, &mut global, &mut users, round * 2 * SECOND));
    }
    assert_eq!(
        sent,
        vec![
            Some("PRIVMSG #ch :hi".to_string()),
            Some("PRIVMSG #ch :hi\u{e0000}".to_string()),
            Some("PRIVMSG #ch :hi\u{e0002}".to_string()),
        ]
    );
    let later = through(line, &state, &mut messaging, &mut global, &mut users, 100 * SECOND);
    assert_eq!(later, Some("PRIVMSG #ch :hi".to_string()));
}

#[test]
fn a_command_on_cooldown_is_dropped() {
    let state = state_with(vec![echo_info(PermissionLevel::User, Some(SECOND), None)]);
    let mut messaging = MessagingState::new(&vec!["ch".to_string()], 0, 30 * SECOND, 0);
    let mut global = CooldownTracker::new(&command_cooldowns(&state.commands), 0);
    let mut users = CooldownTracker::new(&vec![], 0);
    let line = "@display-name=U PRIVMSG #ch :>>echo hi";
    let first = through(line, &state, &mut messaging, &mut global, &mut users, 10);
    let second = through(line, &state, &mut messaging, &mut global, &mut users, 10 + SECOND / 2);
    assert_eq!(first, Some("PRIVMSG #ch :hi".to_string()));
    assert_eq!(second, None);
    let command = PreparedCommand { message: line.to_string(), command: "echo hi".to_string() };
    match decide(&command, &state, &mut global, &mut users, 10 + SECOND / 2) {
        Verdict::Denied(Denial::CommandCooldown(left)) => assert_eq!(left, SECOND / 2),
        other => panic!("a denial was expected, not {:?}", other),
    }
}

#[test]
fn commands_are_told_from_chat() {
    let state = state_with(vec![]);
    let mut messaging = MessagingState::new(&vec!["ch".to_string()], SECOND, 30 * SECOND, 0);
    match receive_line("@display-name=U PRIVMSG #ch :@bot   echo hi", &state, &mut messaging) {
        Action::ExecuteCommand(command) => {
            assert_eq!(command.command, "echo hi");
            assert_eq!(command.message, "@display-name=U PRIVMSG #ch :@bot   echo hi");
        }
        other => panic!("a command was expected, not {:?}", other),
    }
    for line in [
        "@display-name=U PRIVMSG #ch :just talking",
        "PRIVMSG #ch",
        "ROOMSTATE #ch",
        "",
        ":broken",
    ] {
        match receive_line(line, &state, &mut messaging) {
            Action::Nothing => {}
            other => panic!("nothing was expected for '{}', not {:?}", line, other),
        }
    }
}

#[test]
fn a_moderator_gets_a_shorter_cooldown() {
    let state = state_with(vec![]);
    let mut messaging = MessagingState::new(&vec!["ch".to_string(), "other".to_string()], SECOND, 30 * SECOND, 0);
    let message = PreparedMessage { channel: "ch".to_string(), message: "x".to_string() };
    assert_eq!(commit_send(&mut messaging, &message, 0).map(|out| out.wait), Some(0));
    assert_eq!(send_delay(&messaging, "ch", 1), Some(SECOND - 1));
    match receive_line("@badges=subscriber/1,vip/1 USERSTATE #ch", &state, &mut messaging) {
        Action::Nothing => {}
        other => panic!("nothing was expected, not {:?}", other),
    }
    assert_eq!(send_delay(&messaging, "ch", 1), Some(SECOND - 1));
    receive_line("@badges=subscriber/1,moderator/1 USERSTATE #ch", &state, &mut messaging);
    assert_eq!(send_delay(&messaging, "ch", 1), Some(MODERATOR_COOLDOWN - 1));
    assert_eq!(send_delay(&messaging, "ch", MODERATOR_COOLDOWN), Some(0));
    assert_eq!(MODERATOR_COOLDOWN, 100_000_000);
    receive_line("@badges=moderator/1 USERSTATE", &state, &mut messaging);
    assert_eq!(send_delay(&messaging, "other", 0), Some(0));
    assert_eq!(send_delay(&messaging, "nowhere", 0), None);
}

#[test]
fn the_sender_waits_for_the_channel() {
    let mut messaging = MessagingState::new(&vec!["ch".to_string()], 10, 1000, 0);
    let message = PreparedMessage { channel: "ch".to_string(), message: "a b".to_string() };
    let first = commit_send(&mut messaging, &message, 5).unwrap();
    assert_eq!(first.line, "PRIVMSG #ch :a b");
    assert_eq!(first.wait, 0);
    let second = commit_send(&mut messaging, &message, 9).unwrap();
    assert_eq!(second.wait, 6);
    let third = commit_send(&mut messaging, &message, 15).unwrap();
    assert_eq!(third.wait, 0);
    let lost = PreparedMessage { channel: "gone".to_string(), message: "a".to_string() };
    assert!(commit_send(&mut messaging, &lost, 15).is_none());
    let mut unknown = lost;
    assert_eq!(deduplicate(&mut messaging, &mut unknown, 15), None);
    assert_eq!(unknown.message, "a");
}

#[test]
fn only_a_clear_answer_lets_a_message_through() {
    assert!(permits(Some(BanphraseResponse { banned: false })));
    assert!(!permits(Some(BanphraseResponse { banned: true })));
    assert!(!permits(None));
}

#[test]
fn the_handshake_comes_in_order() {
    let lines = login_lines("bot", "SECRET-REDACTED", &vec!["one".to_string(), "two".to_string()]);
    assert_eq!(
        lines,
        vec![
            "PASS oauth:SECRET-REDACTED".to_string(),
            "NICK bot".to_string(),
            "CAP REQ :twitch.tv/tags twitch.tv/commands twitch.tv/membership".to_string(),
            "JOIN #one".to_string(),
            "JOIN #two".to_string(),
        ]
    );
    assert_eq!(login_lines("b", "t", &vec![]).len(), 3);
}

#[test]
fn frames_are_cut_into_lines() {
    assert_eq!(frame_lines("a\r\nb\r\n"), vec!["a", "b"]);
    assert_eq!(frame_lines("a\r\nb"), vec!["a", "b"]);
    assert_eq!(frame_lines("a\r\n\r\nb\r\n"), vec!["a", "", "b"]);
    assert_eq!(frame_lines("a\nb\rc"), vec!["a\nb\rc"]);
    assert_eq!(frame_lines(""), Vec::<&str>::new());
    assert_eq!(frame_lines("\r\n"), vec![""]);
}

#[test]
fn every_denial_has_its_input() {
    let commands = vec![
        echo_info(PermissionLevel::Admin, Some(10), None),
        CommandInfo {
            name: "both".to_string(),
            level: PermissionLevel::User,
            cooldown: CommandCooldown { command: Some(10), user: Some(100) },
        },
        CommandInfo {
            name: "mine".to_string(),
            level: PermissionLevel::User,
            cooldown: CommandCooldown { command: None, user: Some(100) },
        },
        CommandInfo {
            name: "none".to_string(),
            level: PermissionLevel::User,
            cooldown: CommandCooldown { command: None, user: None },
        },
        CommandInfo {
            name: "lost".to_string(),
            level: PermissionLevel::User,
            cooldown: CommandCooldown { command: Some(10), user: None },
        },
    ];
    let state = state_with(commands);
    let mut global = CooldownTracker::new(
        &vec![("echo".to_string(), 10), ("both".to_string(), 10)],
        0,
    );
    let mut users = CooldownTracker::new(&vec![], 0);
    let ask = |user: &str, text: &str| PreparedCommand {
        message: format!("@display-name={} PRIVMSG #ch :>>{}", user, text),
        command: text.to_string(),
    };
    let broken = PreparedCommand { message: "".to_string(), command: "echo".to_string() };
    assert!(matches!(
        decide(&broken, &state, &mut global, &mut users, 0),
        Verdict::Denied(Denial::Malformed)
    ));
    assert!(matches!(decide(&ask("U", "what now"), &state, &mut global, &mut users, 0), Verdict::Unknown));
    assert!(matches!(
        decide(&ask("U", "echo hi"), &state, &mut global, &mut users, 0),
        Verdict::Denied(Denial::NoPermission)
    ));
    match decide(&ask("Boss", "echo hi there"), &state, &mut global, &mut users, 0) {
        Verdict::Run { command, user, body } => {
            assert_eq!(command, 0);
            assert_eq!(user, "Boss");
            assert_eq!(body, "hi there");
        }
        other => panic!("the command should run, not {:?}", other),
    }
    assert!(matches!(
        decide(&ask("U", "none"), &state, &mut global, &mut users, 0),
        Verdict::Denied(Denial::NoCooldowns)
    ));
    assert!(matches!(
        decide(&ask("U", "lost"), &state, &mut global, &mut users, 0),
        Verdict::Denied(Denial::NotTracked)
    ));
    assert!(matches!(decide(&ask("U", "mine"), &state, &mut global, &mut users, 0), Verdict::Run { command: 2, .. }));
    assert!(matches!(
        decide(&ask("U", "mine"), &state, &mut global, &mut users, 40),
        Verdict::Denied(Denial::UserCooldown(60))
    ));
    assert!(matches!(decide(&ask("V", "mine"), &state, &mut global, &mut users, 40), Verdict::Run { command: 2, .. }));
    assert!(users.contains("mine U"));
    assert!(users.contains("mine V"));
    assert_eq!(user_cooldown_key("mine", "U"), "mine U");
    assert_eq!(user_cooldown_key("", ""), " ");
}

#[test]
fn the_user_comes_before_the_command() {
    let both = CommandCooldown { command: Some(10), user: Some(100) };
    let mut global = CooldownTracker::new(&vec![("both".to_string(), 10)], 0);
    let mut users = CooldownTracker::new(&vec![], 0);
    assert_eq!(check_cooldowns(both, "both", "U", &mut global, &mut users, 0), None);
    assert_eq!(
        check_cooldowns(both, "both", "U", &mut global, &mut users, 50),
        Some(Denial::UserCooldown(50))
    );
    assert_eq!(global.peek("both", 50), Some(modelflat_bot::cooldown::CooldownState::Ready));
    assert_eq!(check_cooldowns(both, "both", "V", &mut global, &mut users, 50), None);
    assert_eq!(
        check_cooldowns(both, "both", "W", &mut global, &mut users, 55),
        Some(Denial::CommandCooldown(5))
    );
    assert_eq!(check_cooldowns(both, "both", "W", &mut global, &mut users, 60), None);
}

#[test]
fn only_a_success_is_sent() {
    assert!(settle(ExecutionOutcome::SilentSuccess).is_none());
    assert!(settle(ExecutionOutcome::Error("no".to_string())).is_none());
    let reply = settle(ExecutionOutcome::success("ch".to_string(), "hi".to_string())).unwrap();
    assert_eq!(reply.channel, "ch");
    assert_eq!(reply.message, "hi");
}

#[test]
fn commands_with_a_cooldown_of_their_own_are_listed() {
    let commands = vec![
        echo_info(PermissionLevel::User, Some(5), None),
        echo_info(PermissionLevel::User, None, Some(7)),
        CommandInfo {
            name: "bot".to_string(),
            level: PermissionLevel::User,
            cooldown: CommandCooldown { command: Some(9), user: Some(1) },
        },
    ];
    assert_eq!(command_cooldowns(&commands), vec![("echo".to_string(), 5), ("bot".to_string(), 9)]);
}

#[test]
fn the_state_knows_how_the_bot_is_addressed() {
    let state = BotState::new(
        "bot".to_string(),
        "!".to_string(),
        vec!["a".to_string(), "b".to_string(), "a".to_string()],
        vec![],
        PermissionList::new(vec![]),
    );
    assert_eq!(state.username_with_at, "@bot");
    assert_eq!(state.channels, vec!["a".to_string(), "b".to_string()]);
    let said = |text: &str| format!("PRIVMSG #a :{}", text);
    let line = said("!  \t help me ");
    assert_eq!(state.try_convert_to_command(&Message::parse(&line).unwrap()), Some("help me ".to_string()));
    let line = said("@bot help");
    assert_eq!(state.try_convert_to_command(&Message::parse(&line).unwrap()), Some("help".to_string()));
    let line = said("@botany");
    assert_eq!(state.try_convert_to_command(&Message::parse(&line).unwrap()), Some("any".to_string()));
    let line = said("hello !");
    assert_eq!(state.try_convert_to_command(&Message::parse(&line).unwrap()), None);
    assert_eq!(state.try_convert_to_command(&Message::parse("PRIVMSG #a").unwrap()), None);
    assert_eq!(distinct(vec![]), Vec::<String>::new());
}

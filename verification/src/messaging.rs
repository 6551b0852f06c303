use crate::cooldown::{
    accessed, peeked, tracked_from, updated, CooldownState, CooldownTracker, TrackerView,
};
use crate::executor::{remaining, PreparedCommand};
use crate::history::{
    empty_history, history_count, history_pushed, history_sought, History, HistoryView,
};
use crate::irc::{
    empty_message, lemma_built_line, parsed, tags_get, wire, Message, MessageBuilder, MessageView,
    TagView,
};
use crate::state::{command_body, BotState};
use crate::text::{split, split_str, starts_with, strs_view, trim_start};
use crate::util::{modify_message, suffix_for};
use vstd::prelude::*;
use vstd::string::*;

verus! {

/// The cooldown of a channel in which the bot is a moderator: 100 ms.
pub const MODERATOR_COOLDOWN: u64 = 100_000_000;

/// A message that is ready to be sent to a channel.
#[derive(Debug, Clone)]
pub struct PreparedMessage {
    pub channel: String,
    pub message: String,
}

/// What the receiver does with a line.
#[derive(Debug)]
pub enum Action {
    /// Hand the command to the executor.
    ExecuteCommand(PreparedCommand),
    /// Write this line to the socket at once.
    SendMessage(String),
    /// Nothing.
    Nothing,
}

/// An action as plain values.
pub enum ActionView {
    ExecuteCommand { message: Seq<char>, command: Seq<char> },
    SendMessage(Seq<char>),
    Nothing,
}

impl View for Action {
    type V = ActionView;

    open spec fn view(&self) -> ActionView {
        match *self {
            Action::ExecuteCommand(command) => ActionView::ExecuteCommand {
                message: command.message@,
                command: command.command@,
            },
            Action::SendMessage(line) => ActionView::SendMessage(line@),
            Action::Nothing => ActionView::Nothing,
        }
    }
}

// ---------------------------------------------------------------------------
// Logging in
// ---------------------------------------------------------------------------
/// The line that joins a channel.
pub open spec fn join_line(channel: Seq<char>) -> Seq<char> {
    "JOIN #"@ + channel
}

/// The lines that log the bot in and join its channels, in the order in
/// which they are sent.
pub open spec fn handshake(username: Seq<char>, password: Seq<char>, channels: Seq<String>) -> Seq<
    Seq<char>,
> {
    seq![
        "PASS oauth:"@ + password,
        "NICK "@ + username,
        "CAP REQ :twitch.tv/tags twitch.tv/commands twitch.tv/membership"@,
    ] + Seq::new(channels.len(), |i: int| join_line(channels[i]@))
}

/// The views of a list of strings.
pub open spec fn lines_view(lines: Seq<String>) -> Seq<Seq<char>> {
    Seq::new(lines.len(), |i: int| lines[i]@)
}

/// The lines that log the bot in and join its channels.
pub fn login_lines(username: &str, password: &str, channels: &Vec<String>) -> (lines: Vec<String>)
    ensures
        lines_view(lines@) == handshake(username@, password@, channels@),
{
    let mut lines: Vec<String> = Vec::new();
    let mut pass = String::from_str("PASS oauth:");
    pass.append(password);
    lines.push(pass);
    let mut nick = String::from_str("NICK ");
    nick.append(username);
    lines.push(nick);
    lines.push(String::from_str("CAP REQ :twitch.tv/tags twitch.tv/commands twitch.tv/membership"));
    let mut i: usize = 0;
    while i < channels.len()
        invariant
            i <= channels.len(),
            lines.len() == 3 + i,
            lines@[0]@ == "PASS oauth:"@ + password@,
            lines@[1]@ == "NICK "@ + username@,
            lines@[2]@ == "CAP REQ :twitch.tv/tags twitch.tv/commands twitch.tv/membership"@,
            forall|j: int| 0 <= j < i ==> (#[trigger] lines@[3 + j])@ == join_line(channels@[j]@),
        decreases channels.len() - i,
    {
        let mut line = String::from_str("JOIN #");
        line.append(channels[i].as_str());
        lines.push(line);
        i = i + 1;
    }
    proof {
        let want = handshake(username@, password@, channels@);
        let have = lines_view(lines@);
        assert(have.len() == want.len());
        assert forall|k: int| 0 <= k < have.len() implies have[k] == want[k] by {
            if k >= 3 {
                assert(lines@[3 + (k - 3)]@ == join_line(channels@[k - 3]@));
            }
        }
        assert(have =~= want);
    }
    lines
}

// ---------------------------------------------------------------------------
// The state of the sender
// ---------------------------------------------------------------------------
/// Each channel with the same interval.
pub open spec fn each_with(channels: Seq<String>, interval: u64) -> Seq<(String, u64)> {
    Seq::new(channels.len(), |i: int| (channels[i], interval))
}

/// What the sender keeps: the cooldown of each channel and what was sent
/// to it a short while ago.
pub struct MessagingState {
    pub cooldowns: CooldownTracker,
    pub history: History,
}

impl MessagingState {
    /// The state for the given channels, made at `now`: each channel may
    /// be written to at once, then every `initial_cooldown`; nothing has
    /// been sent; what is sent is remembered for `history_ttl`.
    pub fn new(channels: &Vec<String>, initial_cooldown: u64, history_ttl: u64, now: u64) -> (state:
        MessagingState)
        ensures
            state.cooldowns@ == tracked_from(each_with(channels@, initial_cooldown), now),
            state.history@ == empty_history(channels@),
            state.history.ttl() == history_ttl,
    {
        let mut list: Vec<(String, u64)> = Vec::new();
        let mut names: Vec<String> = Vec::new();
        let mut i: usize = 0;
        while i < channels.len()
            invariant
                i <= channels.len(),
                list@ == each_with(channels@.take(i as int), initial_cooldown),
                names@ == channels@.take(i as int),
            decreases channels.len() - i,
        {
            let ghost before = list@;
            let ghost names_before = names@;
            list.push((channels[i].clone(), initial_cooldown));
            names.push(channels[i].clone());
            proof {
                assert(list@ =~= each_with(channels@.take(i + 1), initial_cooldown));
                assert(names@ =~= channels@.take(i + 1));
            }
            i = i + 1;
        }
        assert(channels@.take(i as int) =~= channels@);
        MessagingState {
            cooldowns: CooldownTracker::new(&list, now),
            history: History::new(names, history_ttl),
        }
    }
}

// ---------------------------------------------------------------------------
// The receiver
// ---------------------------------------------------------------------------
/// The reply to a `PING` with the given trailing text.
pub open spec fn pong_line(trailing: Seq<char>) -> Seq<char> {
    "PONG"@ + seq![' ', ':'] + trailing
}

/// Whether one of the badges, which are separated by commas, begins with
/// `moderator`.
pub open spec fn names_moderator(badges: Seq<char>) -> bool {
    exists|k: int|
        0 <= k < split(badges, ',').len() && "moderator"@.is_prefix_of(
            #[trigger] split(badges, ',')[k],
        )
}

/// Whether the tags show the bot as a moderator: the `badges` tag has a
/// value that names a moderator.
pub open spec fn moderator_badge(tags: Seq<TagView>) -> bool {
    match tags_get(tags, "badges"@) {
        Some(Some(badges)) => names_moderator(badges),
        _ => false,
    }
}

/// What a line asks the receiver to do.
///
/// A `PRIVMSG` that addresses the bot becomes a command for the executor;
/// a `PING` is answered at once with a `PONG` that carries the same
/// trailing text; everything else, and every line that does not parse,
/// asks for nothing.
pub open spec fn received(line: Seq<char>, prefix: Seq<char>, mention: Seq<char>) -> ActionView {
    match parsed(line) {
        Err(_) => ActionView::Nothing,
        Ok(message) => if message.name == "PRIVMSG"@ {
            match command_body(message.trailing, prefix, mention) {
                Some(command) => ActionView::ExecuteCommand { message: line, command },
                None => ActionView::Nothing,
            }
        } else if message.name == "PING"@ {
            ActionView::SendMessage(
                pong_line(
                    match message.trailing {
                        Some(text) => text,
                        None => Seq::empty(),
                    },
                ),
            )
        } else {
            ActionView::Nothing
        },
    }
}

/// The channel whose cooldown a line lowers: the first argument of a
/// `USERSTATE` that shows the bot as a moderator, without its leading `#`.
pub open spec fn moderated(line: Seq<char>) -> Option<Seq<char>> {
    match parsed(line) {
        Err(_) => None,
        Ok(message) => if message.name == "USERSTATE"@ && message.args.len() > 0
            && moderator_badge(message.tags) {
            Some(trim_start(message.args[0], '#'))
        } else {
            None
        },
    }
}

/// The cooldowns after a line was received.
pub open spec fn cooldowns_after(cooldowns: TrackerView, line: Seq<char>) -> TrackerView {
    match moderated(line) {
        Some(channel) => updated(cooldowns, channel, MODERATOR_COOLDOWN),
        None => cooldowns,
    }
}

fn has_moderator_badge(message: &Message) -> (yes: bool)
    ensures
        yes == moderator_badge(message@.tags),
{
    match message.tag_value("badges") {
        Some(badges) => {
            let pieces = split_str(badges, ',');
            let mut k: usize = 0;
            while k < pieces.len()
                invariant
                    k <= pieces.len(),
                    tags_get(message@.tags, "badges"@) == Some(Some(badges@)),
                    strs_view(pieces@) == split(badges@, ','),
                    forall|j: int|
                        0 <= j < k ==> !"moderator"@.is_prefix_of(#[trigger] split(badges@, ',')[j]),
                decreases pieces.len() - k,
            {
                assert(strs_view(pieces@)[k as int] == pieces@[k as int]@);
                if starts_with(pieces[k], "moderator") {
                    assert(0 <= k < split(badges@, ',').len() && "moderator"@.is_prefix_of(
                        split(badges@, ',')[k as int],
                    ));
                    assert(names_moderator(badges@));
                    return true;
                }
                k = k + 1;
            }
            false
        },
        None => false,
    }
}

/// Handles one line that came from the socket: tells what is to be done
/// with it, and lowers the cooldown of a channel in which the bot turns
/// out to be a moderator.
pub fn receive_line(raw_message: &str, state: &BotState, messaging: &mut MessagingState) -> (action:
    Action)
    ensures
        action@ == received(raw_message@, state.prefix@, state.username_with_at@),
        final(messaging).cooldowns@ == cooldowns_after(old(messaging).cooldowns@, raw_message@),
        final(messaging).history == old(messaging).history,
{
    let message = match Message::parse(raw_message) {
        Ok(message) => message,
        Err(_) => {
            return Action::Nothing;
        },
    };
    let privmsg: &str = "PRIVMSG";
    let ping: &str = "PING";
    let userstate: &str = "USERSTATE";
    proof {
        reveal_strlit("PRIVMSG");
        reveal_strlit("PING");
        reveal_strlit("USERSTATE");
    }
    if *message.command.name == *privmsg {
        match state.try_convert_to_command(&message) {
            Some(command) => {
                let action = Action::ExecuteCommand(
                    PreparedCommand { message: raw_message.to_owned(), command },
                );
                assert(action@ == ActionView::ExecuteCommand {
                    message: raw_message@,
                    command: command@,
                });
                action
            },
            None => Action::Nothing,
        }
    } else if *message.command.name == *ping {
        let trailing = match message.trailing {
            Some(text) => text,
            None => {
                proof {
                    reveal_strlit("");
                }
                ""
            },
        };
        let mut builder = MessageBuilder::new("PONG");
        let line = builder.with_trailing(trailing).string();
        proof {
            lemma_pong(trailing@);
        }
        let action = Action::SendMessage(line);
        assert(action@ == ActionView::SendMessage(line@));
        action
    } else if *message.command.name == *userstate {
        match message.first_arg_as_channel_name() {
            Some(channel) => {
                if has_moderator_badge(&message) {
                    messaging.cooldowns.update(channel, MODERATOR_COOLDOWN);
                }
            },
            None => {},
        }
        Action::Nothing
    } else {
        Action::Nothing
    }
}

/// A message that has only a name and a trailing text is written as the
/// name, ` :` and the text.
pub proof fn lemma_pong(trailing: Seq<char>)
    ensures
        wire(
            MessageView {
                trailing: Some(trailing),
                ..MessageView { name: "PONG"@, ..empty_message() }
            },
        ) == pong_line(trailing),
{
    let m = MessageView {
        trailing: Some(trailing),
        ..MessageView { name: "PONG"@, ..empty_message() }
    };
    let parts = seq!["PONG"@] + Seq::<Seq<char>>::empty();
    assert(parts =~= seq!["PONG"@]);
    assert(wire(m) =~= pong_line(trailing));
}

/// The lines of a frame: what ends with a line break, and what is left
/// behind the last line break if that is not empty.
pub fn frame_lines<'a>(frame: &'a str) -> (lines: Vec<&'a str>)
    ensures
        strs_view(lines@) == crate::text::terminated_by(frame@, '\r', '\n'),
{
    crate::text::split_terminated(frame, '\r', '\n')
}

// ---------------------------------------------------------------------------
// The sender
// ---------------------------------------------------------------------------
/// The line that says `text` in a channel.
pub open spec fn privmsg_line(channel: Seq<char>, text: Seq<char>) -> Seq<char> {
    "PRIVMSG"@ + seq![' '] + (seq!['#'] + channel) + seq![' ', ':'] + text
}

/// How long the sender has to wait before it goes on with a message for a
/// channel: nothing for an unknown channel, to which nothing is sent.
pub fn send_delay(state: &MessagingState, channel: &str, now: u64) -> (wait: Option<u64>)
    ensures
        wait == match peeked(state.cooldowns@, channel@, now) {
            Some(found) => Some(remaining(found)),
            None => None,
        },
{
    match state.cooldowns.peek(channel, now) {
        Some(CooldownState::Ready) => Some(0),
        Some(CooldownState::NotReady(left)) => Some(left),
        None => None,
    }
}

/// The text as it is sent after the history has counted `count` earlier
/// findings of it: unchanged the first time, with the suffix that
/// `count - 1` selects after that.
pub open spec fn deduplicated(text: Seq<char>, count: usize) -> Seq<char> {
    if count == 0 {
        text
    } else {
        text.push(suffix_for((count - 1) as usize))
    }
}

/// Makes a message differ from what the channel's history holds: looks
/// the text up at `now` and, if it was sent a short while ago, appends a
/// suffix to it. Returns whether the text is new to the history and has
/// to be pushed once it is sent; nothing for an unknown channel.
pub fn deduplicate(state: &mut MessagingState, message: &mut PreparedMessage, now: u64) -> (fresh:
    Option<bool>)
    ensures
        final(message).channel == old(message).channel,
        final(state).cooldowns == old(state).cooldowns,
        final(state).history.ttl() == old(state).history.ttl(),
        final(state).history@ == history_sought(
            old(state).history@,
            old(message).channel@,
            old(message).message@,
            now,
            old(state).history.ttl(),
        ),
        match history_count(
            old(state).history@,
            old(message).channel@,
            old(message).message@,
            now,
            old(state).history.ttl(),
        ) {
            Some(count) => fresh == Some(count == 0) && final(message).message@ == deduplicated(
                old(message).message@,
                count,
            ),
            None => fresh is None && final(message).message@ == old(message).message@,
        },
{
    match state.history.contains(message.channel.as_str(), message.message.as_str(), now) {
        Some(count) => {
            if count == 0 {
                Some(true)
            } else {
                modify_message(&mut message.message, count - 1);
                Some(false)
            }
        },
        None => None,
    }
}

/// What is written to the socket for a message, and how long to wait
/// before writing it.
#[derive(Debug)]
pub struct Outgoing {
    pub line: String,
    pub wait: u64,
}

/// Takes the channel's turn at `now` and builds the line for a message.
/// If the channel is not ready, its cooldown is left as it is and the
/// time that is still to pass is returned with the line. Nothing for an
/// unknown channel.
pub fn commit_send(state: &mut MessagingState, message: &PreparedMessage, now: u64) -> (out: Option<
    Outgoing,
>)
    ensures
        final(state).history == old(state).history,
        final(state).cooldowns@ == accessed(old(state).cooldowns@, message.channel@, now),
        match peeked(old(state).cooldowns@, message.channel@, now) {
            Some(found) => out is Some && out->Some_0.wait == remaining(found)
                && out->Some_0.line@ == privmsg_line(message.channel@, message.message@),
            None => out is None,
        },
{
    match state.cooldowns.access(message.channel.as_str(), now) {
        Some(found) => {
            let wait = match found {
                CooldownState::Ready => 0,
                CooldownState::NotReady(left) => left,
            };
            let mut target = String::new();
            target.push('#');
            target.append(message.channel.as_str());
            assert(target@ =~= seq!['#'] + message.channel@);
            let mut builder = MessageBuilder::new("PRIVMSG");
            let line = builder.with_arg(target.as_str()).with_trailing(
                message.message.as_str(),
            ).string();
            proof {
                lemma_built_line("PRIVMSG"@, target@, message.message@);
                assert(Seq::<Seq<char>>::empty().push(target@) =~= seq![target@]);
            }
            Some(Outgoing { line, wait })
        },
        None => None,
    }
}

/// Remembers that a text was sent to a channel at `now`.
pub fn record_sent(state: &mut MessagingState, channel: &str, text: String, now: u64)
    ensures
        final(state).cooldowns == old(state).cooldowns,
        final(state).history.ttl() == old(state).history.ttl(),
        final(state).history@ == history_pushed(old(state).history@, channel@, text@, now),
{
    state.history.push(channel, text, now);
}

} // verus!

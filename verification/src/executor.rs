use crate::cooldown::{accessed, peeked, CooldownState, CooldownTracker, CooldownView, TrackerView};
use crate::irc::{parsed, tags_get, Message, MessageView, TagView};
use crate::messaging::PreparedMessage;
use crate::permissions::{level_of, PermissionLevel};
use crate::state::BotState;
use crate::text::{first_index, head_of, lemma_first_index, lemma_first_index_is, split_once, tail_of};
use vstd::prelude::*;
use vstd::string::*;

verus! {

/// The cooldowns that a command declares: one for the command as a whole,
/// one for each user of it.
#[derive(Debug, Clone, Copy)]
pub struct CommandCooldown {
    pub command: Option<u64>,
    pub user: Option<u64>,
}

/// A chat line that asks for a command: the line as it came, and the text
/// of the command in it.
#[derive(Debug, Clone)]
pub struct PreparedCommand {
    pub message: String,
    pub command: String,
}

/// How a command ended.
#[derive(Debug, Clone)]
pub enum ExecutionOutcome {
    Success(PreparedMessage),
    SilentSuccess,
    Error(String),
}

impl ExecutionOutcome {
    /// A reply for a channel.
    pub fn success(channel: String, message: String) -> (outcome: ExecutionOutcome)
        ensures
            outcome == ExecutionOutcome::Success(PreparedMessage { channel, message }),
    {
        ExecutionOutcome::Success(PreparedMessage { channel, message })
    }
}

/// What the executor has to know of a command: its name, the level it
/// asks for, and the cooldowns it declares.
#[derive(Debug, Clone)]
pub struct CommandInfo {
    pub name: String,
    pub level: PermissionLevel,
    pub cooldown: CommandCooldown,
}

/// A command as plain values.
pub struct CommandInfoView {
    pub name: Seq<char>,
    pub level: PermissionLevel,
    pub cooldown: CommandCooldown,
}

impl View for CommandInfo {
    type V = CommandInfoView;

    open spec fn view(&self) -> CommandInfoView {
        CommandInfoView { name: self.name@, level: self.level, cooldown: self.cooldown }
    }
}

/// The registry as plain values.
pub open spec fn catalog(commands: Seq<CommandInfo>) -> Seq<CommandInfoView> {
    Seq::new(commands.len(), |i: int| commands[i]@)
}

/// The names of the commands of a registry, in order.
pub open spec fn command_names(commands: Seq<CommandInfoView>) -> Seq<Seq<char>> {
    Seq::new(commands.len(), |i: int| commands[i].name)
}

/// Why a command was not run.
#[derive(Debug, Clone, Copy, PartialEq, Eq, Structural)]
pub enum Denial {
    /// The line that carried the command does not parse.
    Malformed,
    /// The user's level does not permit the command.
    NoPermission,
    /// The user has to wait this long for this command.
    UserCooldown(u64),
    /// The command has to wait this long.
    CommandCooldown(u64),
    /// The command declares a cooldown of its own, but none is tracked
    /// under its name.
    NotTracked,
    /// The command declares no cooldown at all.
    NoCooldowns,
}

/// What is to be done with a command.
#[derive(Debug, Clone)]
pub enum Verdict {
    /// Run the command at this place of the registry, for this user, with
    /// this text behind its name.
    Run { command: usize, user: String, body: String },
    /// There is no such command: nothing happens.
    Unknown,
    /// The command is not run.
    Denied(Denial),
}

/// A verdict as plain values.
pub enum VerdictView {
    Run { command: int, user: Seq<char>, body: Seq<char> },
    Unknown,
    Denied(Denial),
}

impl View for Verdict {
    type V = VerdictView;

    open spec fn view(&self) -> VerdictView {
        match *self {
            Verdict::Run { command, user, body } => VerdictView::Run {
                command: command as int,
                user: user@,
                body: body@,
            },
            Verdict::Unknown => VerdictView::Unknown,
            Verdict::Denied(denial) => VerdictView::Denied(denial),
        }
    }
}

/// The key under which the cooldown of one user for one command is
/// tracked: the command's name, a space, the user's name.
pub open spec fn user_key(name: Seq<char>, user: Seq<char>) -> Seq<char> {
    name + seq![' '] + user
}

/// Different pairs of a command name without a space and a user have
/// different keys.
pub proof fn lemma_user_key_injective(
    name: Seq<char>,
    user: Seq<char>,
    other_name: Seq<char>,
    other_user: Seq<char>,
)
    requires
        first_index(name, ' ') == name.len(),
        first_index(other_name, ' ') == other_name.len(),
        user_key(name, user) == user_key(other_name, other_user),
    ensures
        name == other_name,
        user == other_user,
{
    let key = user_key(name, user);
    let other = user_key(other_name, other_user);
    lemma_first_index(name, ' ');
    lemma_first_index(other_name, ' ');
    assert forall|j: int| 0 <= j < name.len() implies key[j] != ' ' by {
        assert(key[j] == name[j]);
    }
    assert(key[name.len() as int] == ' ');
    lemma_first_index_is(key, ' ', name.len() as int);
    assert forall|j: int| 0 <= j < other_name.len() implies other[j] != ' ' by {
        assert(other[j] == other_name[j]);
    }
    assert(other[other_name.len() as int] == ' ');
    lemma_first_index_is(other, ' ', other_name.len() as int);
    assert(key.take(name.len() as int) =~= name);
    assert(other.take(other_name.len() as int) =~= other_name);
    assert(key.skip(name.len() as int + 1) =~= user);
    assert(other.skip(other_name.len() as int + 1) =~= other_user);
}

/// The outcome of the cooldown checks for one command: whether it is
/// denied, and the two trackers afterwards.
pub struct Checked {
    pub denial: Option<Denial>,
    pub global: TrackerView,
    pub users: TrackerView,
}

/// The remaining time that a waiting state tells.
pub open spec fn remaining(state: CooldownState) -> u64 {
    match state {
        CooldownState::NotReady(left) => left,
        CooldownState::Ready => 0,
    }
}

/// The cooldown checks for a command `name` that `user` asks for at `now`.
///
/// A user cooldown that is declared gets its entry on first sight, ready
/// at once. With only one cooldown declared, that one is accessed. With
/// both, the user's comes first: while it is waiting nothing else is
/// touched; then the command's decides, and only if it is ready are both
/// reset. A command that declares none is denied.
pub open spec fn checked(
    cooldown: CommandCooldown,
    name: Seq<char>,
    user: Seq<char>,
    global: TrackerView,
    users: TrackerView,
    now: u64,
) -> Checked {
    let key = user_key(name, user);
    let seen = match cooldown.user {
        Some(interval) => if users.contains_key(key) {
            users
        } else {
            users.insert(key, CooldownView::fresh(interval, true, now))
        },
        None => users,
    };
    match (cooldown.command, cooldown.user) {
        (None, None) => Checked { denial: Some(Denial::NoCooldowns), global, users: seen },
        (None, Some(_)) => if seen[key].is_ready(now) {
            Checked { denial: None, global, users: accessed(seen, key, now) }
        } else {
            Checked {
                denial: Some(Denial::UserCooldown(remaining(seen[key].state_at(now)))),
                global,
                users: seen,
            }
        },
        (Some(_), None) => if !global.contains_key(name) {
            Checked { denial: Some(Denial::NotTracked), global, users: seen }
        } else if global[name].is_ready(now) {
            Checked { denial: None, global: accessed(global, name, now), users: seen }
        } else {
            Checked {
                denial: Some(Denial::CommandCooldown(remaining(global[name].state_at(now)))),
                global,
                users: seen,
            }
        },
        (Some(_), Some(_)) => if !seen[key].is_ready(now) {
            Checked {
                denial: Some(Denial::UserCooldown(remaining(seen[key].state_at(now)))),
                global,
                users: seen,
            }
        } else if !global.contains_key(name) {
            Checked { denial: Some(Denial::NotTracked), global, users: seen }
        } else if global[name].is_ready(now) {
            Checked {
                denial: None,
                global: accessed(global, name, now),
                users: accessed(seen, key, now),
            }
        } else {
            Checked {
                denial: Some(Denial::CommandCooldown(remaining(global[name].state_at(now)))),
                global,
                users: seen,
            }
        },
    }
}

/// The order of the two cooldowns: where a command declares both and the
/// user still has to wait, the command's cooldown is not touched; and
/// where nothing is denied, both have been accessed.
pub proof fn lemma_user_first(
    cooldown: CommandCooldown,
    name: Seq<char>,
    user: Seq<char>,
    global: TrackerView,
    users: TrackerView,
    now: u64,
)
    requires
        cooldown.command is Some,
        cooldown.user is Some,
    ensures
        users.contains_key(user_key(name, user)) && !users[user_key(name, user)].is_ready(now)
            ==> checked(cooldown, name, user, global, users, now).global == global && checked(
            cooldown,
            name,
            user,
            global,
            users,
            now,
        ).denial is Some,
        checked(cooldown, name, user, global, users, now).denial is None ==> global.contains_key(
            name,
        ) && global[name].is_ready(now) && checked(cooldown, name, user, global, users, now).global
            == accessed(global, name, now) && checked(
            cooldown,
            name,
            user,
            global,
            users,
            now,
        ).users[user_key(name, user)].last_access == now,
        checked(cooldown, name, user, global, users, now).denial is Some ==> checked(
            cooldown,
            name,
            user,
            global,
            users,
            now,
        ).global == global,
{
}

/// The user who sent a message: its `display-name` tag, or nobody.
pub open spec fn sender_of(tags: Seq<TagView>) -> Seq<char> {
    match tags_get(tags, "display-name"@) {
        Some(Some(name)) => name,
        _ => Seq::empty(),
    }
}

/// What the executor decides on a command, and the trackers afterwards.
pub struct Decision {
    pub verdict: VerdictView,
    pub global: TrackerView,
    pub users: TrackerView,
}

/// The decision on one command.
///
/// The line is parsed; the command text is cut at its first space into
/// name and body; a name that is not registered is unknown; a user whose
/// level does not permit the command is denied; then the cooldown checks
/// decide.
pub open spec fn decision(
    line: Seq<char>,
    command: Seq<char>,
    commands: Seq<CommandInfoView>,
    permissions: Seq<(String, PermissionLevel)>,
    global: TrackerView,
    users: TrackerView,
    now: u64,
) -> Decision {
    match parsed(line) {
        Err(_) => Decision { verdict: VerdictView::Denied(Denial::Malformed), global, users },
        Ok(message) => {
            let name = head_of(command, ' ');
            let body = match tail_of(command, ' ') {
                Some(rest) => rest,
                None => Seq::empty(),
            };
            let user = sender_of(message.tags);
            let at = first_index(command_names(commands), name);
            if !(0 <= at < commands.len()) {
                Decision { verdict: VerdictView::Unknown, global, users }
            } else if !level_of(permissions, user).allows(commands[at].level) {
                Decision { verdict: VerdictView::Denied(Denial::NoPermission), global, users }
            } else {
                let outcome = checked(commands[at].cooldown, name, user, global, users, now);
                match outcome.denial {
                    Some(denial) => Decision {
                        verdict: VerdictView::Denied(denial),
                        global: outcome.global,
                        users: outcome.users,
                    },
                    None => Decision {
                        verdict: VerdictView::Run { command: at, user, body },
                        global: outcome.global,
                        users: outcome.users,
                    },
                }
            }
        },
    }
}

/// The key under which the cooldown of one user for one command is
/// tracked.
pub fn user_cooldown_key(name: &str, user: &str) -> (key: String)
    ensures
        key@ == user_key(name@, user@),
{
    let mut key = String::new();
    key.append(name);
    key.push(' ');
    key.append(user);
    assert(key@ =~= user_key(name@, user@));
    key
}

/// Runs the cooldown checks for one command and returns the denial, if
/// there is one.
pub fn check_cooldowns(
    cooldown: CommandCooldown,
    name: &str,
    user: &str,
    global: &mut CooldownTracker,
    users: &mut CooldownTracker,
    now: u64,
) -> (denial: Option<Denial>)
    ensures
        denial == checked(cooldown, name@, user@, old(global)@, old(users)@, now).denial,
        final(global)@ == checked(cooldown, name@, user@, old(global)@, old(users)@, now).global,
        final(users)@ == checked(cooldown, name@, user@, old(global)@, old(users)@, now).users,
{
    let key = user_cooldown_key(name, user);
    match cooldown.user {
        Some(interval) => {
            if !users.contains(key.as_str()) {
                users.add_channel(key.clone(), interval, true, now);
            }
        },
        None => {},
    }
    match (cooldown.command, cooldown.user) {
        (None, None) => Some(Denial::NoCooldowns),
        (None, Some(_)) => match users.access(key.as_str(), now) {
            Some(CooldownState::Ready) => None,
            Some(CooldownState::NotReady(left)) => Some(Denial::UserCooldown(left)),
            None => Some(Denial::NotTracked),
        },
        (Some(_), None) => match global.access(name, now) {
            Some(CooldownState::Ready) => None,
            Some(CooldownState::NotReady(left)) => Some(Denial::CommandCooldown(left)),
            None => Some(Denial::NotTracked),
        },
        (Some(_), Some(_)) => match users.peek(key.as_str(), now) {
            Some(CooldownState::Ready) => match global.access(name, now) {
                Some(CooldownState::Ready) => {
                    users.access(key.as_str(), now);
                    None
                },
                Some(CooldownState::NotReady(left)) => Some(Denial::CommandCooldown(left)),
                None => Some(Denial::NotTracked),
            },
            Some(CooldownState::NotReady(left)) => Some(Denial::UserCooldown(left)),
            None => Some(Denial::NotTracked),
        },
    }
}

/// Decides what is to be done with a command that a user asked for.
pub fn decide(
    command: &PreparedCommand,
    state: &BotState,
    global: &mut CooldownTracker,
    users: &mut CooldownTracker,
    now: u64,
) -> (verdict: Verdict)
    ensures
        verdict@ == decision(
            command.message@,
            command.command@,
            catalog(state.commands@),
            state.permissions@,
            old(global)@,
            old(users)@,
            now,
        ).verdict,
        final(global)@ == decision(
            command.message@,
            command.command@,
            catalog(state.commands@),
            state.permissions@,
            old(global)@,
            old(users)@,
            now,
        ).global,
        final(users)@ == decision(
            command.message@,
            command.command@,
            catalog(state.commands@),
            state.permissions@,
            old(global)@,
            old(users)@,
            now,
        ).users,
{
    let message = match Message::parse(command.message.as_str()) {
        Ok(message) => message,
        Err(_) => {
            return Verdict::Denied(Denial::Malformed);
        },
    };
    let (name, rest) = split_once(command.command.as_str(), ' ');
    let body = match rest {
        Some(text) => text,
        None => {
            proof {
                reveal_strlit("");
            }
            ""
        },
    };
    let user = match message.tag_value("display-name") {
        Some(user) => user,
        None => {
            proof {
                reveal_strlit("");
            }
            ""
        },
    };
    let n = state.commands.len();
    let mut at: usize = 0;
    while at < n && !(*state.commands[at].name.as_str() == *name)
        invariant
            n == state.commands.len(),
            at <= n,
            forall|j: int| 0 <= j < at ==> state.commands@[j].name@ != name@,
        decreases n - at,
    {
        at = at + 1;
    }
    proof {
        lemma_first_index_is(command_names(catalog(state.commands@)), name@, at as int);
    }
    if at >= n {
        return Verdict::Unknown;
    }
    assert(user@ == sender_of(message@.tags));
    assert(catalog(state.commands@)[at as int] == state.commands@[at as int]@);
    if !state.permissions.get(user).permits(state.commands[at].level) {
        return Verdict::Denied(Denial::NoPermission);
    }
    assert(body@ == match tail_of(command.command@, ' ') {
        Some(rest) => rest,
        None => Seq::empty(),
    });
    match check_cooldowns(state.commands[at].cooldown, name, user, global, users, now) {
        Some(denial) => {
            let verdict = Verdict::Denied(denial);
            assert(verdict@ == VerdictView::Denied(denial));
            verdict
        },
        None => {
            let verdict = Verdict::Run { command: at, user: user.to_owned(), body: body.to_owned() };
            assert(verdict@ == VerdictView::Run { command: at as int, user: user@, body: body@ });
            verdict
        },
    }
}

/// What is sent after a command has run: the reply of a success, nothing
/// after a silent success or an error.
pub fn settle(outcome: ExecutionOutcome) -> (reply: Option<PreparedMessage>)
    ensures
        reply == match outcome {
            ExecutionOutcome::Success(message) => Some(message),
            _ => None,
        },
{
    match outcome {
        ExecutionOutcome::Success(message) => Some(message),
        ExecutionOutcome::SilentSuccess => None,
        ExecutionOutcome::Error(_) => None,
    }
}

/// The commands that declare a cooldown of their own, each with that
/// cooldown: what the tracker of command cooldowns starts from.
pub open spec fn declared(commands: Seq<CommandInfo>) -> Seq<(String, u64)>
    decreases commands.len(),
{
    if commands.len() == 0 {
        Seq::empty()
    } else {
        match commands.last().cooldown.command {
            Some(interval) => declared(commands.drop_last()).push((commands.last().name, interval)),
            None => declared(commands.drop_last()),
        }
    }
}

/// Lists the commands that declare a cooldown of their own.
pub fn command_cooldowns(commands: &Vec<CommandInfo>) -> (list: Vec<(String, u64)>)
    ensures
        list@ == declared(commands@),
{
    let mut list: Vec<(String, u64)> = Vec::new();
    let mut i: usize = 0;
    assert(commands@.take(0) =~= Seq::<CommandInfo>::empty());
    while i < commands.len()
        invariant
            i <= commands.len(),
            list@ == declared(commands@.take(i as int)),
        decreases commands.len() - i,
    {
        proof {
            let next = commands@.take(i + 1);
            assert(next.drop_last() =~= commands@.take(i as int));
            assert(next.last() == commands@[i as int]);
        }
        match commands[i].cooldown.command {
            Some(interval) => {
                list.push((commands[i].name.clone(), interval));
            },
            None => {},
        }
        i = i + 1;
    }
    assert(commands@.take(i as int) =~= commands@);
    list
}

} // verus!

use crate::executor::CommandInfo;
use crate::irc::Message;
use crate::permissions::PermissionList;
use crate::text::{starts_with, trim_space_start, trim_space_start_str};
use vstd::prelude::*;
use vstd::string::*;

verus! {

/// The text of a command in a chat line: what stands behind the command
/// prefix, or else behind the mention of the bot, without the white space
/// at its start. Nothing for a line that begins with neither.
pub open spec fn command_body(trailing: Option<Seq<char>>, prefix: Seq<char>, mention: Seq<char>) -> Option<
    Seq<char>,
> {
    match trailing {
        Some(text) => if prefix.is_prefix_of(text) {
            Some(trim_space_start(text.skip(prefix.len() as int)))
        } else if mention.is_prefix_of(text) {
            Some(trim_space_start(text.skip(mention.len() as int)))
        } else {
            None
        },
        None => None,
    }
}

/// No string occurs twice.
pub open spec fn no_duplicates(list: Seq<String>) -> bool {
    forall|i: int, j: int| 0 <= i < j < list.len() ==> list[i]@ != list[j]@
}

/// Some string of the list has these characters.
pub open spec fn lists(list: Seq<String>, text: Seq<char>) -> bool {
    exists|i: int| 0 <= i < list.len() && (#[trigger] list[i])@ == text
}

/// The strings of a list, each one once, in the order of their first
/// occurrence.
pub fn distinct(list: Vec<String>) -> (out: Vec<String>)
    ensures
        no_duplicates(out@),
        forall|text: Seq<char>| lists(out@, text) == lists(list@, text),
{
    let mut out: Vec<String> = Vec::new();
    let mut i: usize = 0;
    while i < list.len()
        invariant
            i <= list.len(),
            no_duplicates(out@),
            forall|text: Seq<char>| lists(out@, text) == lists(list@.take(i as int), text),
        decreases list.len() - i,
    {
        let mut k: usize = 0;
        while k < out.len() && !(out[k] == list[i])
            invariant
                k <= out.len(),
                i < list.len(),
                no_duplicates(out@),
                forall|text: Seq<char>| lists(out@, text) == lists(list@.take(i as int), text),
                forall|j: int| 0 <= j < k ==> out@[j]@ != list@[i as int]@,
            decreases out.len() - k,
        {
            k = k + 1;
        }
        let ghost before = out@;
        let ghost seen = list@.take(i as int);
        let ghost next = list@.take(i + 1);
        let ghost item = list@[i as int];
        assert(forall|text: Seq<char>| lists(before, text) == lists(seen, text));
        if k == out.len() {
            out.push(list[i].clone());
        }
        proof {
            assert forall|text: Seq<char>| lists(out@, text) == lists(next, text) by {
                if lists(out@, text) {
                    let w = choose|j: int| 0 <= j < out@.len() && (#[trigger] out@[j])@ == text;
                    if w < before.len() {
                        assert(before[w]@ == text);
                        assert(lists(before, text));
                        let v = choose|j: int| 0 <= j < seen.len() && (#[trigger] seen[j])@ == text;
                        assert(next[v]@ == text);
                    } else {
                        assert(next[i as int]@ == text);
                    }
                }
                if lists(next, text) {
                    let v = choose|j: int| 0 <= j < next.len() && (#[trigger] next[j])@ == text;
                    if v < i {
                        assert(seen[v]@ == text);
                        assert(lists(seen, text));
                        assert(lists(before, text));
                        let w = choose|j: int|
                            0 <= j < before.len() && (#[trigger] before[j])@ == text;
                        assert(out@[w]@ == text);
                    } else if k == before.len() {
                        assert(out@[before.len() as int]@ == text);
                    } else {
                        assert(out@[k as int]@ == text);
                    }
                }
            }
            assert forall|a: int, b: int| 0 <= a < b < out@.len() implies out@[a]@ != out@[b]@ by {
                if b < before.len() {
                    assert(out@[a] == before[a] && out@[b] == before[b]);
                } else {
                    assert(out@[a] == before[a]);
                }
            }
        }
        i = i + 1;
    }
    assert(list@.take(i as int) =~= list@);
    out
}

/// What the bot knows about itself: its name, how it is addressed, the
/// channels it has joined, its commands and who may use them.
pub struct BotState {
    pub username: String,
    pub username_with_at: String,
    pub prefix: String,
    pub channels: Vec<String>,
    pub commands: Vec<CommandInfo>,
    pub permissions: PermissionList,
}

impl BotState {
    /// The state of a bot with the given name, command prefix, channels,
    /// commands and permissions. Each channel is kept once.
    pub fn new(
        username: String,
        prefix: String,
        channels: Vec<String>,
        commands: Vec<CommandInfo>,
        permissions: PermissionList,
    ) -> (state: BotState)
        ensures
            state.username@ == username@,
            state.username_with_at@ == seq!['@'] + username@,
            state.prefix@ == prefix@,
            no_duplicates(state.channels@),
            forall|text: Seq<char>| lists(state.channels@, text) == lists(channels@, text),
            state.commands@ == commands@,
            state.permissions@ == permissions@,
    {
        let mut username_with_at = String::new();
        username_with_at.push('@');
        username_with_at.append(username.as_str());
        assert(username_with_at@ =~= seq!['@'] + username@);
        BotState {
            username_with_at,
            username,
            prefix,
            channels: distinct(channels),
            commands,
            permissions,
        }
    }

    /// The command that a chat line asks for, if it asks for one: the text
    /// behind the command prefix or behind the mention of the bot.
    pub fn try_convert_to_command(&self, message: &Message) -> (command: Option<String>)
        ensures
            match command {
                Some(text) => command_body(message@.trailing, self.prefix@, self.username_with_at@)
                    == Some(text@),
                None => command_body(message@.trailing, self.prefix@, self.username_with_at@)
                    is None,
            },
    {
        match message.trailing {
            Some(text) => {
                let n = text.unicode_len();
                if starts_with(text, self.prefix.as_str()) {
                    let rest = text.substring_char(self.prefix.as_str().unicode_len(), n);
                    assert(rest@ =~= text@.skip(self.prefix@.len() as int));
                    Some(trim_space_start_str(rest).to_owned())
                } else if starts_with(text, self.username_with_at.as_str()) {
                    let rest = text.substring_char(self.username_with_at.as_str().unicode_len(), n);
                    assert(rest@ =~= text@.skip(self.username_with_at@.len() as int));
                    Some(trim_space_start_str(rest).to_owned())
                } else {
                    None
                }
            },
            None => None,
        }
    }
}

} // verus!

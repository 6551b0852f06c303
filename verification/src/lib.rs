//! The core of a chat bot for a Twitch-style IRC service: the codec of the
//! wire format, the cooldowns and the history that decide when and how a
//! message is sent, the decisions of receiver, executor and sender, and
//! the sandbox for scripts.

pub mod banphrase;
pub mod cooldown;
pub mod executor;
pub mod history;
pub mod irc;
pub mod irc_proofs;
pub mod lua;
pub mod messaging;
pub mod permissions;
pub mod prelude;
pub mod state;
pub mod text;
pub mod util;

pub use crate::executor::{CommandCooldown, CommandInfo, ExecutionOutcome, PreparedCommand};
pub use crate::irc;
pub use crate::messaging::PreparedMessage;
pub use crate::permissions::{PermissionLevel, PermissionList};
pub use crate::state::BotState;

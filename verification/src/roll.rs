pub mod roll_command;
pub mod roll_flags;
pub mod roll_result;
mod roll_special;
pub mod roll_trigger;

pub use roll_command::RollCommand;
pub use roll_result::RollResult;

//! Core of a bot that babysits one long-lived remote browser session playing
//! an idle game on behalf of many concurrent chat commands.
//!
//! The crate holds the coordination layer: the session lifecycle state
//! machine, the bounded persistent store of save-code backups, the decision
//! logic of the periodic backup task, and the command dispatcher's rules.
//! Everything that talks to the network (the chat API, the browser driver,
//! the file system) lives outside and exchanges plain values with this crate.

pub mod backup;
pub mod clock;
pub mod codec;
pub mod commands;
pub mod cookie_clicker;
pub mod tasks;

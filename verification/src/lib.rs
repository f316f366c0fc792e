//! What an uninstall of a MixEngine home decides: where each directory is set aside, the order in
//! which everything is renamed, deleted or put back, who is in the way, and what the plan says
//! about every trace MixEngine left on a machine.

pub mod cli;
pub mod daemon;
pub mod inventory;
pub mod location;
pub mod logging;
pub mod machine;
pub mod occupants;
pub mod text;
pub mod tombstone;

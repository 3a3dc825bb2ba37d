//! Launch stacks: services that depend on each other, brought up, watched and taken
//! down together.
pub mod bring_up;
pub mod control_fifo;
pub mod dag;
pub mod detached;
pub mod env_file;
pub mod names;
pub mod pid_probe;
pub mod profile;
pub mod reaper;
pub mod redaction;
pub mod registry;
pub mod reload;
pub mod stack;
pub mod supervisor;
pub mod supervisor_registry;
pub mod trust_store;

//! Folder mirroring, file mappings and encrypted backups: the engine and the
//! screen logic of bukagu, free of any I/O.

pub mod text;
pub mod path;
pub mod sorting;
pub mod resolve;
pub mod clock;
pub mod engine;
pub mod store;
pub mod credentials;
pub mod message;
pub mod app;
pub mod backup;
pub mod theme;
pub mod ui;
pub mod cli;
pub mod session;

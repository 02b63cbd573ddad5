//! Package-update subscriptions for a chat bot: the snapshot diff engine, the
//! subscription store with its two backends, and the command dispatcher.

pub mod text;
pub mod anicca;
pub mod db;
pub mod sqlite;
pub mod keyvalue;
pub mod bot;
pub mod config;
pub mod command;
pub mod cli;

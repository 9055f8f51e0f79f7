//! Browsing, searching and safely deleting the session logs that the Codex
//! CLI keeps under `~/.codex/sessions`: reading a session's id, title,
//! project and times from the head of its log, listing sessions newest
//! first, grouping them by project, and the key-driven browser state.

pub mod app;
pub mod display;
pub mod json;
pub mod parser;
pub mod path;
pub mod scanner;
pub mod session;
pub mod text;
pub mod trash;

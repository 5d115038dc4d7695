//! Obsidian Mirror: the note-processing core of a web mirror for an Obsidian vault.
//!
//! The modules below hold the verified logic; the web server, the disk and the
//! git plumbing live in the application crate around it.
pub mod text;
pub mod keyed;
pub mod domain;
pub mod config;
pub mod order;
pub mod sidebar;
pub mod indexer;
pub mod graph;
pub mod markdown;
pub mod tags;
pub mod scanner;
pub mod sync;
pub mod insights;
pub mod error;
pub mod auth;
pub mod clock;
pub mod reading;
pub mod share;
pub mod search;
pub mod url;
pub mod embeds;
pub mod git;
pub mod snippet;
pub mod persistence;
pub mod listing;
pub mod handlers;
pub mod export;
pub mod offline;
pub mod timeline;
pub mod feed;
pub mod preview;

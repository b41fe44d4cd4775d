//! Task tracking over an append-only event log.

pub mod commands;
pub mod compact;
pub mod compensate;
pub mod complete;
pub mod config;
pub mod dep;
pub mod display;
pub mod document;
pub mod edges;
pub mod edit;
pub mod engine;
pub mod error;
pub mod fields;
pub mod forest;
pub mod gate;
pub mod graph;
pub mod guide;
pub mod history;
pub mod init;
pub mod json;
pub mod list;
pub mod messages;
pub mod model;
pub mod order;
pub mod pattern;
pub mod prime;
pub mod reach;
pub mod read;
pub mod repair;
pub mod report;
pub mod resolve;
pub mod scm;
pub mod settings;
pub mod show;
pub mod sort;
pub mod status;
pub mod store;
pub mod strmap;
pub mod template;
pub mod text;
pub mod timeline;
pub mod tree;
pub mod undo;
pub mod version;
pub mod watch;
pub mod write;

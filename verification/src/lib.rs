//! Lemmate's note logic: front matter, paths, links, daily notes, imports and merges.
#![allow(unused_imports)]

pub mod text;
pub mod frontmatter;
pub mod error;
pub mod ids;
pub mod sync;
pub mod numfmt;
pub mod daily;
pub mod projection;
pub mod yaml;
pub mod json;
pub mod attachments;
pub mod import;
pub mod vault_doc;
pub mod files;
pub mod links;
pub mod stable_ids;
pub mod vaults;
pub mod merge;
pub mod quarto;
pub mod pandoc;
pub mod mcp;
pub mod credentials;
pub mod remote;
pub mod client;
pub mod local;
pub mod store;
pub mod markdown;
pub mod config;
pub mod watcher;
pub mod export;
pub mod diff;
pub mod tables;
pub mod doc;
pub mod guarantees;

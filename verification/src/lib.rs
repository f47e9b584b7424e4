//! Local Markdown search: the verified core of the `zap` command.

pub mod api;
pub mod cli;
pub mod config;
pub mod display;
pub mod encoding;
pub mod endpoint;
pub mod globs;
pub mod index;
pub mod number;
pub mod path;
pub mod path_laws;
pub mod path_map;
pub mod places;
pub mod protocol;
pub mod remote;
pub mod scope;
pub mod scope_laws;
pub mod search;
pub mod search_laws;
pub mod text;
pub mod text_laws;
pub mod tls;
pub mod url;
pub mod view_laws;
pub mod watch;

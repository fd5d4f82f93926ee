//! The logic of a vertical sidebar for Codex tabs.
//!
//! - [`codex_file`], [`codex_entry`], [`codex_thread`], [`codex_match`] and
//!   [`codex`] read Codex transcripts and find the thread that each pane shows.
//! - [`codex_fs`], [`codex_order`] and [`line_tail`] choose what is read of the
//!   files under the directory of Codex.
//! - [`app_server`], [`native`] and [`pane_args`] ask the app servers of running
//!   agents instead.
//! - [`sidebar`], [`panes`], [`render`] and [`ansi`] keep the state of the sidebar,
//!   answer what happens in the session, and draw the screen.
//! - [`status`], [`status_file`] and [`codex_cache`] hold what is passed on, and
//!   [`text`], [`path`], [`json`], [`time`] and [`sorted_map`] what all of it is
//!   built on.

pub mod ansi;
pub mod app_server;
pub mod codex;
pub mod codex_cache;
pub mod codex_entry;
pub mod codex_file;
pub mod codex_fs;
pub mod codex_match;
pub mod codex_order;
pub mod codex_thread;
pub mod json;
pub mod line_tail;
pub mod native;
pub mod pane_args;
pub mod panes;
pub mod path;
pub mod render;
pub mod sidebar;
pub mod sorted_map;
pub mod status;
pub mod status_file;
pub mod text;
pub mod time;

//! A local Markdown viewer: the logic that decides what is shown, watched and served.
pub mod daemon;
pub mod fsutil;
pub mod launcher;
pub mod numtext;
pub mod paths;
pub mod render;
pub mod routes;
pub mod server;
pub mod text;
pub mod tree;
pub mod watcher;

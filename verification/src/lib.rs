//! A Roblox-like object model and script environment: project layouts, packed images, XML export,
//! instances, signals and the decisions behind the command line, the editor and the sync server.

pub mod census;
pub mod cli;
pub mod console;
pub mod editor;
pub mod error;
pub mod explorer;
pub mod exports;
pub mod firings;
pub mod folders;
pub mod image;
pub mod instance;
pub mod json;
pub mod laws;
pub mod layout;
pub mod loader;
pub mod loading;
pub mod lua_api;
pub mod math;
pub mod moves;
pub mod order;
pub mod origins;
pub mod path;
pub mod placement;
pub mod project;
pub mod rbxlx;
pub mod runtime;
pub mod signal;
pub mod sync;
pub mod text;
pub mod tree;

pub use cli::{Cli, Command};
pub use runtime::RuntimeMode;

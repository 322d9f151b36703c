//! The command line.

use vstd::prelude::*;

verus! {

/// What the program is asked to do.
#[derive(Clone, Debug)]
pub struct Cli {
    pub command: Command,
}

/// The commands of the program.
#[derive(Clone, Debug)]
pub enum Command {
    /// Open the desktop editor.
    Gui,
    /// Run a project or an image in server mode.
    RunServer { path: String },
    /// Run a project or an image in client emulation mode.
    EmulateClient { path: String },
    /// Pack a project directory into an image.
    Pack { project_dir: String, output_image: String },
    /// Unpack an image into a directory.
    Unpack { image: String, output_dir: String },
    /// Export a project or an image to a place file.
    ExportRbxlx { input: String, output_rbxlx: String },
    /// Export a project or an image to a model file.
    ExportRbxmx { input: String, output_rbxmx: String },
    /// Serve a folder to the plugin that keeps it in sync.
    Sync { folder: String, port: u16 },
}

/// The port that a folder is served on where none is named.
pub const DEFAULT_SYNC_PORT: u16 = 57163;

} // verus!

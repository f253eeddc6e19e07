//! Mount parameters.
//!
//! The command line is parsed outside the core; the driver consumes only
//! this finished configuration: where to mount, whether to unmount
//! automatically on exit, whether root may access the mount, and where the
//! mapping description file lives.

use vstd::prelude::*;

verus! {

/// The finished mount configuration.
#[derive(Debug)]
pub struct Args {
    /// Where the virtual tree is mounted.
    pub mountpoint: String,
    /// Unmount automatically when the process exits.
    pub auto_unmount: bool,
    /// Allow the root user to access the mounted filesystem.
    pub allow_root: bool,
    /// The file holding the mapping description.
    pub mapping_file: String,
}

} // verus!

//! A user-space proxy filesystem core: a virtual directory tree whose leaves
//! redirect reads to real files on the host.
//!
//! The crate holds the verified core of the driver: the node graph and its
//! identity table, the per-request decision logic for the kernel protocol
//! (lookup, getattr, open, read, release, readdir), and the open-file
//! registry. Host I/O, mounting and configuration loading live outside and
//! talk to this core through plain values.

pub mod args;
pub mod handler;
pub mod mapping;
pub mod inode;
pub mod order;
pub mod registry;


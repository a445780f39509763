//! File operations of Linux and Android, apart from the system calls.
//!
//! What an operation asks of the system, and what it makes of the answers, is decided here. An
//! operation that needs several calls is a value with a `step` method, or with the method of a
//! trait that has its name: the caller makes the call that it asks for and hands it the outcome.
//! Beside each stands what a whole run of it comes to, as laws.
//!
//! - [`dir`]: directories and their entries
//! - [`walk`], [`tour`]: walks of a directory tree
//! - [`remove`]: emptying a directory, removing a path
//! - [`mkdirs`]: making a directory with its parents
//! - [`link`]: links, and paths without links
//! - [`stat`]: the status and the size of a file
//! - [`mapping`]: files mapped to memory
//! - [`transfer`], [`lines`]: skipping, writing zeros, going through lines
//! - [`bytes`], [`abi`], [`error`]: C strings, the numbers of the system, failures

pub mod abi;
pub mod bytes;
pub mod dir;
pub mod error;
pub mod lines;
pub mod link;
pub mod mapping;
pub mod mkdirs;
pub mod remove;
pub mod stat;
pub mod tour;
pub mod transfer;
pub mod walk;

pub use dir::{DirEntry, DirRead, Directory};
pub use error::FileError;
pub use lines::{BufReadExt, Lines};
pub use link::{fd_path, readlink, readlink_unsafe, realpath};
pub use mapping::MappedFile;
pub use mkdirs::mkdirs;
pub use remove::rm_rf;
pub use stat::{Fd, FdExt, Stat, StatExt};
pub use transfer::{ReadExt, ReadSeekExt, SeekSkip, Skip, WriteExt, Zeros};
pub use walk::{Walk, WalkResult};

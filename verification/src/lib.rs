//! Finding files, hashing them into snapshots, comparing them with a snapshot,
//! and watching them change.
//!
//! What each command decides and reports is here; walking directories, reading
//! files and asking the kernel is up to the program around the library.
//!
//! - `find`, `hash`, `diff` and `watch` are the commands.
//! - `matcher` and `skip` say which paths they work on.
//! - `snapshot`, `catalog` and `listing` hold the snapshot file, its name, and
//!   the list of all snapshots.
//! - `fanotify` reads the kernel's events.
//! - `output` and `json` hold what is shown.
//! - The other modules hold what these are built of: texts and lines, numbers
//!   and their formats, order, time, paths and bytes.
pub mod binary64;
pub mod bytes;
pub mod catalog;
pub mod diff;
pub mod duration;
pub mod fanotify;
pub mod find;
pub mod hash;
pub mod json;
pub mod lines;
pub mod listing;
pub mod localtime;
pub mod matcher;
pub mod number;
pub mod order;
pub mod output;
pub mod path;
pub mod pathmap;
pub mod skip;
pub mod snapshot;
pub mod text;
pub mod watch;

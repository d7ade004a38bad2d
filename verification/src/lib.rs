//! Keeps live clients in step with locally edited roster files.
//!
//! - `text`: cutting, trimming and searching sequences of characters.
//! - `roster`: the roster file format and the six slots of a roster.
//! - `table`, `roster_set`: rosters by identifier.
//! - `discovery`: which files are roster files, and their identifiers.
//! - `watch`: what the watcher's loop does with a change notification.
//! - `reload`: what is published once a change has settled.
//! - `hub`: the current roster set and the backlog of each subscriber.
//! - `session`: what a subscriber session sends, and when it ends.
//! - `assets`: the names and media types of the bundled pages.
//!
//! Nothing here waits, sleeps, reads a file or writes to a socket: the
//! program around the library does, and asks the library what to do next.
//!
//! Every function is verified against its contract. One fact is taken on
//! trust: what `String::push` of the standard library does (see `text`).

pub mod assets;
pub mod discovery;
pub mod hub;
pub mod reload;
pub mod roster;
pub mod roster_set;
pub mod session;
pub mod table;
pub mod text;
pub mod watch;

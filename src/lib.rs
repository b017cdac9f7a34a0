//! Client engine for requesting and receiving packs from file-serving peers
//! on an IRC network.
//!
//! - `lines`: framing of the control connection's byte stream into lines.
//! - `announce`: recognition of keep-alive challenges and transfer
//!   announcements.
//! - `session`: the control session's decisions, from line to reply and task.
//! - `transfer`: the bookkeeping of one payload transfer, and how the
//!   outcomes of all transfers combine.
//! - `request`: the download request and its reading from the command line.
//! - `nickname`: the random nickname a session registers under.
//! - `index`: reading the pack index's search results and peer list.
//! - `search`: the selection model of the interactive search list.
pub mod lines;
pub mod announce;
pub mod session;
pub mod transfer;
pub mod nickname;
pub mod request;
pub mod index;
pub mod search;

//! Keeps fish's plain-text history file in step with atuin's history.
//!
//! The shadow log (fish's `fish_history`) is an append-only projection of the
//! primary history store: each record is written once as a three-line entry
//! that carries the record's identifier, so that later runs can tell which
//! records are already there. The file is kept under a retention bound by
//! rewriting it with its most recent entries.
//!
//! The library works on the log's text and on records as plain values; the
//! caller reads, locks, appends to and rewrites the file.

pub mod cmd;
pub mod codec;
pub mod decimal;
pub mod index;
pub mod sync;
pub mod text;
pub mod trim;

pub use cmd::{fish_follow_up, Cmd, FishFollowUp};
pub use codec::{decode_id, decode_timestamp, escape_command, format_fish_entry, History};
pub use index::{contains_string, get_last_synced_timestamp, get_synced_uuids};
pub use sync::{fetch_limit, select_unsynced, sync_entries, FishSync};
pub use trim::trim_fish_history;

//! Entmoot: a conversation-tree tracker.
//!
//! One branch per channel, auto-created on the first message. A branch keeps
//! its unpruned messages in ascending id order, a lifetime message count, the
//! time of its latest activity and the highest message id it has seen.
//! Staleness is computed on demand from an explicit `now`; `tend` surfaces the
//! branches idle past a threshold together with their earliest unpruned
//! message; `prune` clears every unpruned message up to a cursor and records
//! the decision, tagged with a disposition, in a retained history. An optional
//! per-branch cap evicts the oldest unpruned messages without a record.
//!
//! The library holds no clock and touches no file: callers pass `now`, and a
//! ledger is read and written through `Store::branch_parts` and
//! `Store::restore`.

pub mod branch;
pub mod calls;
pub mod channel;
pub mod laws;
pub mod message;
pub mod store;
pub mod text;
pub mod time;

pub use branch::{Branch, BranchParts, BranchStatus, TendEntry};
pub use channel::{ChannelId, InvalidChannelId, MAX_CHANNEL_ID_LEN};
pub use message::{Disposition, EntmootError, Message, PruneRecord};
pub use store::Store;
pub use text::{Author, ChannelName, Content, InvalidText, MAX_AUTHOR_LEN, MAX_CHANNEL_NAME_LEN, MAX_CONTENT_LEN};
pub use time::{default_stale_threshold, Span, Timestamp};

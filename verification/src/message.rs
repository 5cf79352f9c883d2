//! Messages fed into the tracker, prune decisions, and the library's errors.

use vstd::prelude::*;

use crate::channel::ChannelId;
use crate::text::{text_check, Author, Content, InvalidText, MAX_AUTHOR_LEN, MAX_CONTENT_LEN};
use crate::time::Timestamp;
use vstd::string::StringSliceAdditionalSpecFns;

verus! {

/// A single conversational event. Ordering by `id` is what makes "earliest"
/// and "latest" well defined even when timestamps collide.
#[derive(Debug, PartialEq, Eq)]
pub struct Message {
    /// Discord snowflake (or any increasing id).
    pub id: u64,
    pub timestamp: Timestamp,
    pub author: Author,
    pub content: Content,
}

/// Why a branch was pruned. Every prune carries one.
#[derive(Clone, Copy, Debug, PartialEq, Eq, Hash, Structural)]
pub enum Disposition {
    /// The branch's open loops were resolved.
    Done,
    /// The branch was deliberately abandoned.
    Dropped,
    /// The branch is intentionally deferred: "I'll come back to that."
    Parked,
}

/// One prune decision, kept in history after the messages are cleared.
#[derive(Clone, Copy, Debug, PartialEq, Eq, Structural)]
pub struct PruneRecord {
    pub channel_id: ChannelId,
    /// The cursor: every unpruned message with an id at most this was cleared.
    pub message_id: u64,
    pub disposition: Disposition,
    pub pruned_at: Timestamp,
}

/// What the library refuses.
#[derive(Clone, Copy, Debug, PartialEq, Eq, Structural)]
pub enum EntmootError {
    /// No branch exists for the channel.
    UnknownChannel(ChannelId),
    /// The branch for the channel has no messages to prune.
    NothingToPrune(ChannelId),
    /// A message's author name was refused.
    InvalidAuthor(InvalidText),
    /// A message's body was refused.
    InvalidContent(InvalidText),
}

/// The outcome of building a message from raw text: the author is checked
/// first, then the body.
pub open spec fn message_check(author: Seq<u8>, content: Seq<u8>) -> Result<(), EntmootError> {
    match text_check(author.len(), false, MAX_AUTHOR_LEN as nat) {
        Err(e) => Err(EntmootError::InvalidAuthor(e)),
        Ok(()) => match text_check(content.len(), true, MAX_CONTENT_LEN as nat) {
            Err(e) => Err(EntmootError::InvalidContent(e)),
            Ok(()) => Ok(()),
        },
    }
}

impl Message {
    /// Builds a message, validating the author name and then the body.
    pub fn new(id: u64, timestamp: Timestamp, author: &str, content: &str) -> (r: Result<
        Message,
        EntmootError,
    >)
        ensures
            match message_check(author.spec_bytes(), content.spec_bytes()) {
                Ok(()) => r matches Ok(m) && m.id == id && m.timestamp == timestamp && m.author@
                    == author@ && m.content@ == content@,
                Err(e) => r == Err::<Message, EntmootError>(e),
            },
    {
        let author = match Author::parse(author) {
            Ok(a) => a,
            Err(e) => return Err(EntmootError::InvalidAuthor(e)),
        };
        let content = match Content::parse(content) {
            Ok(c) => c,
            Err(e) => return Err(EntmootError::InvalidContent(e)),
        };
        Ok(Message { id, timestamp, author, content })
    }
}

impl Clone for Message {
    fn clone(&self) -> (r: Self)
        ensures
            r == *self,
    {
        Message {
            id: self.id,
            timestamp: self.timestamp,
            author: self.author.clone(),
            content: self.content.clone(),
        }
    }
}

impl Disposition {
    /// The disposition's name, as it is shown and stored.
    pub fn as_str(&self) -> (r: &'static str)
        ensures
            r@ == match self {
                Disposition::Done => "done"@,
                Disposition::Dropped => "dropped"@,
                Disposition::Parked => "parked"@,
            },
    {
        match self {
            Disposition::Done => "done",
            Disposition::Dropped => "dropped",
            Disposition::Parked => "parked",
        }
    }
}

} // verus!

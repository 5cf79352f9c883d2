//! Bounded text values: author names, message bodies and channel names.
//!
//! Each is validated once, at construction, so that no oversized or empty
//! value reaches the store. Lengths are measured in UTF-8 bytes, as Rust's
//! `str::len` measures them.

use vstd::prelude::*;
use vstd::string::StringSliceAdditionalSpecFns;
use vstd::utf8::encode_utf8;

verus! {

/// The longest author name accepted, in bytes.
pub const MAX_AUTHOR_LEN: usize = 128;

/// The longest message body accepted, in bytes.
pub const MAX_CONTENT_LEN: usize = 4000;

/// The longest channel name accepted, in bytes.
pub const MAX_CHANNEL_NAME_LEN: usize = 100;

/// Why a piece of text was refused.
#[derive(Clone, Copy, Debug, PartialEq, Eq, Structural)]
pub enum InvalidText {
    /// The text is empty where it may not be.
    Empty,
    /// The text is longer than its limit.
    TooLong,
}

/// The length in UTF-8 bytes of a character sequence.
pub open spec fn byte_len(chars: Seq<char>) -> nat {
    encode_utf8(chars).len()
}

/// The outcome of checking a text of `len` bytes against a limit of `max`
/// bytes, where `allow_empty` says whether the empty text passes.
pub open spec fn text_check(len: nat, allow_empty: bool, max: nat) -> Result<(), InvalidText> {
    if len == 0 && !allow_empty {
        Err(InvalidText::Empty)
    } else if len > max {
        Err(InvalidText::TooLong)
    } else {
        Ok(())
    }
}

fn check_text(s: &str, allow_empty: bool, max: usize) -> (r: Result<(), InvalidText>)
    ensures
        r == text_check(s.spec_bytes().len(), allow_empty, max as nat),
{
    let len = s.as_bytes().len();
    if len == 0 && !allow_empty {
        Err(InvalidText::Empty)
    } else if len > max {
        Err(InvalidText::TooLong)
    } else {
        Ok(())
    }
}

/// The name of a message's author: 1 to `MAX_AUTHOR_LEN` bytes.
#[derive(Debug, PartialEq, Eq, Hash)]
pub struct Author {
    text: String,
}

/// The body of a message: 0 to `MAX_CONTENT_LEN` bytes. A message with
/// attachments and no text has an empty body.
#[derive(Debug, PartialEq, Eq, Hash)]
pub struct Content {
    text: String,
}

/// The display name of a channel: 1 to `MAX_CHANNEL_NAME_LEN` bytes.
#[derive(Debug, PartialEq, Eq, Hash)]
pub struct ChannelName {
    text: String,
}

impl View for Author {
    type V = Seq<char>;

    closed spec fn view(&self) -> Seq<char> {
        self.text@
    }
}

impl View for Content {
    type V = Seq<char>;

    closed spec fn view(&self) -> Seq<char> {
        self.text@
    }
}

impl View for ChannelName {
    type V = Seq<char>;

    closed spec fn view(&self) -> Seq<char> {
        self.text@
    }
}

impl Author {
    #[verifier::type_invariant]
    spec fn bounded(self) -> bool {
        text_check(byte_len(self.text@), false, MAX_AUTHOR_LEN as nat) is Ok
    }

    /// Validates `s` as an author name: refused when empty or longer than
    /// `MAX_AUTHOR_LEN` bytes, and otherwise holding exactly `s`.
    pub fn parse(s: &str) -> (r: Result<Author, InvalidText>)
        ensures
            match text_check(s.spec_bytes().len(), false, MAX_AUTHOR_LEN as nat) {
                Ok(()) => r matches Ok(a) && a@ == s@,
                Err(e) => r == Err::<Author, InvalidText>(e),
            },
    {
        match check_text(s, false, MAX_AUTHOR_LEN) {
            Ok(()) => Ok(Author { text: s.to_owned() }),
            Err(e) => Err(e),
        }
    }

    /// The name as text, which is always 1 to `MAX_AUTHOR_LEN` bytes long.
    pub fn as_str(&self) -> (r: &str)
        ensures
            r@ == self@,
            1 <= byte_len(self@) <= MAX_AUTHOR_LEN,
    {
        proof {
            use_type_invariant(self);
        }
        self.text.as_str()
    }
}

impl Content {
    #[verifier::type_invariant]
    spec fn bounded(self) -> bool {
        text_check(byte_len(self.text@), true, MAX_CONTENT_LEN as nat) is Ok
    }

    /// Validates `s` as a message body: refused when longer than
    /// `MAX_CONTENT_LEN` bytes, and otherwise holding exactly `s`.
    pub fn parse(s: &str) -> (r: Result<Content, InvalidText>)
        ensures
            match text_check(s.spec_bytes().len(), true, MAX_CONTENT_LEN as nat) {
                Ok(()) => r matches Ok(c) && c@ == s@,
                Err(e) => r == Err::<Content, InvalidText>(e),
            },
    {
        match check_text(s, true, MAX_CONTENT_LEN) {
            Ok(()) => Ok(Content { text: s.to_owned() }),
            Err(e) => Err(e),
        }
    }

    /// The body as text, which is always at most `MAX_CONTENT_LEN` bytes long.
    pub fn as_str(&self) -> (r: &str)
        ensures
            r@ == self@,
            byte_len(self@) <= MAX_CONTENT_LEN,
    {
        proof {
            use_type_invariant(self);
        }
        self.text.as_str()
    }
}

impl ChannelName {
    #[verifier::type_invariant]
    spec fn bounded(self) -> bool {
        text_check(byte_len(self.text@), false, MAX_CHANNEL_NAME_LEN as nat) is Ok
    }

    /// Validates `s` as a channel name: refused when empty or longer than
    /// `MAX_CHANNEL_NAME_LEN` bytes, and otherwise holding exactly `s`.
    pub fn parse(s: &str) -> (r: Result<ChannelName, InvalidText>)
        ensures
            match text_check(s.spec_bytes().len(), false, MAX_CHANNEL_NAME_LEN as nat) {
                Ok(()) => r matches Ok(n) && n@ == s@,
                Err(e) => r == Err::<ChannelName, InvalidText>(e),
            },
    {
        match check_text(s, false, MAX_CHANNEL_NAME_LEN) {
            Ok(()) => Ok(ChannelName { text: s.to_owned() }),
            Err(e) => Err(e),
        }
    }

    /// The name as text, which is always 1 to `MAX_CHANNEL_NAME_LEN` bytes long.
    pub fn as_str(&self) -> (r: &str)
        ensures
            r@ == self@,
            1 <= byte_len(self@) <= MAX_CHANNEL_NAME_LEN,
    {
        proof {
            use_type_invariant(self);
        }
        self.text.as_str()
    }
}

impl Clone for Author {
    fn clone(&self) -> (r: Self)
        ensures
            r == *self,
    {
        proof {
            use_type_invariant(self);
        }
        Author { text: self.text.clone() }
    }
}

impl Clone for Content {
    fn clone(&self) -> (r: Self)
        ensures
            r == *self,
    {
        proof {
            use_type_invariant(self);
        }
        Content { text: self.text.clone() }
    }
}

impl Clone for ChannelName {
    fn clone(&self) -> (r: Self)
        ensures
            r == *self,
    {
        proof {
            use_type_invariant(self);
        }
        ChannelName { text: self.text.clone() }
    }
}

} // verus!

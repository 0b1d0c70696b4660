//! A channel: a labeled FIFO of messages with independently counted read and
//! write endpoints and a list of waiter tokens to wake on state changes.

use vstd::prelude::*;

use crate::label::Label;
use crate::types::Message;

verus! {

/// A reference count saturating at the machine limit; the limit is physically
/// unreachable, since each reference is a live value in memory.
pub open spec fn inc_count(c: u64) -> u64 {
    if c == u64::MAX {
        c
    } else {
        (c + 1) as u64
    }
}

/// The matching saturating decrement.
pub open spec fn dec_count(c: u64) -> u64 {
    if c == 0 {
        c
    } else {
        (c - 1) as u64
    }
}

/// Saturating increment of a reference count.
pub fn count_inc(c: u64) -> (r: u64)
    ensures
        r == inc_count(c),
{
    if c == u64::MAX {
        c
    } else {
        c + 1
    }
}

/// Saturating decrement of a reference count.
pub fn count_dec(c: u64) -> (r: u64)
    ensures
        r == dec_count(c),
{
    if c == 0 {
        c
    } else {
        c - 1
    }
}

/// A labeled FIFO message queue. The front of the queue is at index `0` of
/// `messages`. `reader_count` and `writer_count` track the live halves of each
/// direction; when either drops to zero the channel is orphaned in that
/// direction.
pub struct Channel {
    pub id: u64,
    pub name: String,
    pub label: Label,
    pub messages: Vec<Message>,
    pub reader_count: u64,
    pub writer_count: u64,
    pub waiters: Vec<u64>,
}

impl Channel {
    /// Whether any read half of this channel is still live.
    pub fn has_readers(&self) -> (r: bool)
        ensures
            r == (self.reader_count > 0),
    {
        self.reader_count > 0
    }

    /// Whether any write half of this channel is still live.
    pub fn has_writers(&self) -> (r: bool)
        ensures
            r == (self.writer_count > 0),
    {
        self.writer_count > 0
    }

    /// Records a token to unpark on the next enqueue or orphan transition.
    pub fn add_waiter(&mut self, token: u64)
        ensures
            (*final(self) == Channel { waiters: final(self).waiters, ..*old(self) }),
            final(self).waiters@ == old(self).waiters@.push(token),
    {
        self.waiters.push(token);
    }
}

} // verus!

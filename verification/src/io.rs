//! The boundary to the backing store: one file, explicit positional I/O.
//!
//! The arena never touches the file. It says what to do next as an
//! [`Action`], the driver does it on the pool file and hands back a
//! [`Reply`]. With the file opened cache-bypassing, the only arena bytes in
//! RAM are the ones the arena put there.

use crate::error::LoomError;
use vstd::prelude::*;

verus! {

/// What the driver has to do next.
#[derive(Debug)]
pub enum Action {
    /// Read exactly `len` bytes at `offset`. A short read past the end of the
    /// file is a failure, not zero-fill.
    Read { offset: u64, len: usize },
    /// Write all of `data` at `offset`.
    Write { offset: u64, data: Vec<u8> },
    /// Set the file's length; what is added reads as zeros.
    SetLen { len: u64 },
    /// Force everything written to stable storage.
    Sync,
}

/// How it went.
#[derive(Debug)]
pub enum Reply<'a> {
    /// The bytes that were read.
    Bytes(&'a [u8]),
    /// It is done.
    Done,
    /// It failed.
    Failed(LoomError),
}

/// Where an operation stands.
#[derive(Debug)]
pub enum Step<T> {
    /// The driver has to do this and resume the operation with the reply.
    Io(Action),
    /// The operation is complete.
    Ready(T),
    /// The operation failed.
    Failed(LoomError),
}

/// The range of the file a read covers.
pub open spec fn is_read(a: Action, offset: int, len: int) -> bool {
    a matches Action::Read { offset: o, len: n } && o == offset && n == len
}

/// The bytes a write puts down, and where.
pub open spec fn is_write(a: Action, offset: int, data: Seq<u8>) -> bool {
    a matches Action::Write { offset: o, data: d } && o == offset && d@ == data
}

/// The file after an action was carried out on it.
pub open spec fn carried_out(disk: Seq<u8>, a: Action) -> Seq<u8> {
    match a {
        Action::Write { offset, data } => crate::bytes::overlay(disk, offset as int, data@),
        Action::SetLen { len } => Seq::new(
            len as nat,
            |i: int|
                if i < disk.len() {
                    disk[i]
                } else {
                    0u8
                },
        ),
        _ => disk,
    }
}

// ---- moving a whole buffer ----------------------------------------------

/// What one positional read or write call did.
#[derive(Debug, Clone, Copy, PartialEq, Eq)]
pub enum Outcome {
    /// It moved this many bytes.
    Moved(usize),
    /// A signal interrupted it before it moved any.
    Interrupted,
    /// It failed.
    Failed,
}

/// What follows from it.
#[derive(Debug, Clone, Copy, PartialEq, Eq)]
pub enum Next {
    /// Call again for the rest.
    Again,
    /// All bytes are moved.
    Complete,
    /// The call moved nothing: the end of the file, or a device that takes no
    /// more.
    Stalled,
    /// Give up.
    Failed,
}

/// A buffer being moved in as many calls as it takes.
#[derive(Debug, Clone, Copy, PartialEq, Eq)]
pub struct Transfer {
    /// Bytes to move.
    pub len: usize,
    /// Bytes moved.
    pub done: usize,
}

impl Transfer {
    /// The transfer after a call, and what follows.
    pub open spec fn after(self, outcome: Outcome) -> (Self, Next) {
        match outcome {
            Outcome::Moved(n) => (
                Transfer { done: (self.done + n) as usize, ..self },
                if n == 0 {
                    Next::Stalled
                } else if self.done + n == self.len {
                    Next::Complete
                } else {
                    Next::Again
                },
            ),
            Outcome::Interrupted => (self, Next::Again),
            Outcome::Failed => (self, Next::Failed),
        }
    }

    /// Nothing moved yet.
    pub fn new(len: usize) -> (t: Self)
        ensures
            t.len == len,
            t.done == 0,
    {
        Transfer { len, done: 0 }
    }

    /// Nothing is left to move.
    pub fn is_complete(&self) -> (b: bool)
        ensures
            b == (self.done >= self.len),
    {
        self.done >= self.len
    }

    /// Account for one call, which was asked for the bytes that are left.
    pub fn advance(&mut self, outcome: Outcome) -> (next: Next)
        requires
            old(self).done < old(self).len,
            outcome matches Outcome::Moved(n) ==> n <= old(self).len - old(self).done,
        ensures
            (*final(self), next) == old(self).after(outcome),
    {
        match outcome {
            Outcome::Moved(n) => {
                if n == 0 {
                    return Next::Stalled;
                }
                self.done = self.done + n;
                if self.done == self.len {
                    Next::Complete
                } else {
                    Next::Again
                }
            },
            Outcome::Interrupted => Next::Again,
            Outcome::Failed => Next::Failed,
        }
    }
}

/// What an action does to a file: a write puts its bytes where they belong and
/// leaves the rest, a new length keeps what it covers and adds zeros, and
/// nothing else changes anything.
pub proof fn law_actions_do_what_they_say(disk: Seq<u8>, a: Action, i: int)
    requires
        0 <= i < carried_out(disk, a).len(),
        a matches Action::Write { offset, data } ==> offset + data@.len() <= disk.len(),
    ensures
        a matches Action::Write { offset, data } ==> {
            &&& carried_out(disk, a).len() == disk.len()
            &&& carried_out(disk, a).subrange(offset as int, offset + data@.len()) == data@
            &&& !(offset <= i < offset + data@.len()) ==> carried_out(disk, a)[i] == disk[i]
        },
        a matches Action::SetLen { len } ==> {
            &&& carried_out(disk, a).len() == len
            &&& carried_out(disk, a)[i] == if i < disk.len() {
                disk[i]
            } else {
                0
            }
        },
        a is Read || a is Sync ==> carried_out(disk, a) == disk,
{
    if let Action::Write { offset, data } = a {
        crate::bytes::law_overlay_is_local(disk, offset as int, data@, i);
    }
}

/// A transfer is complete when all its bytes are moved, and not before; what
/// was moved stays counted; it gives up on a failure and on a call that moved
/// nothing, and goes on after an interruption.
pub proof fn law_a_transfer_ends_when_all_is_moved(t: Transfer, outcome: Outcome)
    requires
        t.done < t.len,
        outcome matches Outcome::Moved(n) ==> n <= t.len - t.done,
    ensures
        ({
            let (u, next) = t.after(outcome);
            &&& u.len == t.len
            &&& t.done <= u.done <= u.len
            &&& u.done - t.done == match outcome {
                Outcome::Moved(n) => n as int,
                _ => 0,
            }
            &&& next == Next::Complete <==> u.done == u.len
            &&& next == Next::Stalled <==> outcome == Outcome::Moved(0)
            &&& next == Next::Failed <==> outcome == Outcome::Failed
            &&& outcome == Outcome::Interrupted ==> next == Next::Again
        }),
{
}

} // verus!

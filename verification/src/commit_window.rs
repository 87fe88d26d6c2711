//! The commit message window's decisions: when Commit may run, what it
//! hands off, and what the window does when the commit reports back.
//!
//! The window stays open until the commit succeeds. A commit can fail (a
//! rejecting hook, an empty index), and the message the user typed is the
//! expensive part, so a failure keeps the window, and the message, where
//! they are and says why.

use crate::text::{trim, trimmed};
use vstd::prelude::*;
use vstd::string::StringSliceAdditionalSpecFns;

verus! {

/// What the window knows besides the message: whether a commit is in
/// flight, and why the last one failed.
#[derive(Debug, Clone, PartialEq, Eq)]
pub struct CommitWindow {
    pending: bool,
    error: Option<String>,
}

/// What the window does once it has looked at the commit in flight.
#[derive(Debug, Clone, Copy, PartialEq, Eq, Structural)]
pub enum CommitPoll {
    /// Nothing has finished, or nothing was in flight.
    Waiting,
    /// The commit succeeded: the window closes.
    Close,
    /// The commit failed: the window stays, with the message intact.
    Stay,
}

impl CommitWindow {
    /// Whether a commit is in flight.
    pub closed spec fn is_pending(self) -> bool {
        self.pending
    }

    /// Why the last commit failed. The window shows it through the
    /// `git_panel.commit_failed` message, as its `reason`.
    pub closed spec fn error_view(self) -> Option<Seq<char>> {
        match self.error {
            Some(e) => Some(e@),
            None => None,
        }
    }

    /// A fresh window: nothing in flight, nothing failed.
    pub fn new() -> (w: CommitWindow)
        ensures
            !w.is_pending(),
            w.error_view() is None,
    {
        CommitWindow { pending: false, error: None }
    }

    /// Whether a commit is in flight.
    pub fn pending(&self) -> (r: bool)
        ensures
            r == self.is_pending(),
    {
        self.pending
    }

    /// Why the last commit failed.
    pub fn error(&self) -> (r: Option<&str>)
        ensures
            match r {
                Some(e) => self.error_view() == Some(e@),
                None => self.error_view() is None,
            },
    {
        match &self.error {
            Some(e) => Some(e.as_str()),
            None => None,
        }
    }

    /// Whether Commit is enabled: nothing in flight, and a message that is
    /// more than whitespace.
    pub fn can_commit(&self, message: &str) -> (r: bool)
        ensures
            r == (!self.is_pending() && trimmed(message.spec_bytes()).len() > 0),
    {
        !self.pending && trim(message).as_bytes().len() != 0
    }

    /// Commit pressed: when it may run, the message trimmed of surrounding
    /// whitespace (inner blank lines kept) to hand off, the commit now in
    /// flight and the last failure cleared. Otherwise nothing, and nothing
    /// changes.
    pub fn commit<'a>(&mut self, message: &'a str) -> (r: Option<&'a str>)
        ensures
            match r {
                Some(text) => {
                    &&& !old(self).is_pending()
                    &&& trimmed(message.spec_bytes()).len() > 0
                    &&& text.spec_bytes() == trimmed(message.spec_bytes())
                    &&& final(self).is_pending()
                    &&& final(self).error_view() is None
                },
                None => {
                    &&& (old(self).is_pending() || trimmed(message.spec_bytes()).len() == 0)
                    &&& *final(self) == *old(self)
                },
            },
    {
        if !self.can_commit(message) {
            return None;
        }
        self.pending = true;
        self.error = None;
        Some(trim(message))
    }

    /// The commit in flight reported `outcome` (`None` while it still
    /// runs). Success closes the window; failure keeps it open and records
    /// why. Either way nothing is in flight any more. With nothing in
    /// flight, or nothing reported, nothing changes.
    pub fn poll(&mut self, outcome: Option<Result<(), String>>) -> (r: CommitPoll)
        ensures
            !old(self).is_pending() ==> r == CommitPoll::Waiting && *final(self) == *old(self),
            old(self).is_pending() ==> match outcome {
                None => r == CommitPoll::Waiting && *final(self) == *old(self),
                Some(Ok(())) => r == CommitPoll::Close && !final(self).is_pending() && final(self).error_view()
                    == old(self).error_view(),
                Some(Err(reason)) => r == CommitPoll::Stay && !final(self).is_pending()
                    && final(self).error_view() == Some(reason@),
            },
    {
        if !self.pending {
            return CommitPoll::Waiting;
        }
        match outcome {
            None => CommitPoll::Waiting,
            Some(Ok(())) => {
                self.pending = false;
                CommitPoll::Close
            },
            Some(Err(reason)) => {
                self.pending = false;
                self.error = Some(reason);
                CommitPoll::Stay
            },
        }
    }
}

} // verus!

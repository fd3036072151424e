//! One append request: the offsets it owns and its write-once completion.

use crate::error::StreamError;
use vstd::prelude::*;

verus! {

/// Where a request stands. It leaves `Pending` once and never returns.
#[derive(Clone, Copy, Debug, PartialEq, Eq, Structural)]
pub enum Completion {
    Pending,
    Succeeded,
    Failed(StreamError),
}

/// A batch of `count` records that owns the offsets from `base_offset` on.
#[derive(Clone, Copy, Debug, PartialEq, Eq, Structural)]
pub struct StreamAppendRequest {
    pub base_offset: u64,
    pub count: u32,
    pub completion: Completion,
}

impl StreamAppendRequest {
    /// The offset after the last one the request owns fits the offset space.
    pub open spec fn wf(&self) -> bool {
        self.base_offset + self.count <= u64::MAX
    }

    pub open spec fn is_pending(&self) -> bool {
        self.completion == Completion::Pending
    }

    /// The request after an attempt to complete it with `outcome`: only a
    /// pending request takes it.
    pub open spec fn resolved(self, outcome: Completion) -> Self {
        if self.is_pending() {
            StreamAppendRequest { completion: outcome, ..self }
        } else {
            self
        }
    }

    /// The first offset after the request.
    pub open spec fn end_offset(&self) -> int {
        self.base_offset + self.count
    }

    pub fn new(base_offset: u64, count: u32) -> (request: Self)
        ensures
            request == (StreamAppendRequest {
                base_offset,
                count,
                completion: Completion::Pending,
            }),
    {
        StreamAppendRequest { base_offset, count, completion: Completion::Pending }
    }

    pub fn base_offset(&self) -> (offset: u64)
        ensures
            offset == self.base_offset,
    {
        self.base_offset
    }

    pub fn count(&self) -> (count: u32)
        ensures
            count == self.count,
    {
        self.count
    }

    /// Where the request stands.
    pub fn completion(&self) -> (completion: Completion)
        ensures
            completion == self.completion,
    {
        self.completion
    }

    /// Completes the request with success, if it is still pending. Says
    /// whether this call completed it.
    pub fn success(&mut self) -> (signalled: bool)
        ensures
            *final(self) == old(self).resolved(Completion::Succeeded),
            signalled == old(self).is_pending(),
    {
        match self.completion {
            Completion::Pending => {
                self.completion = Completion::Succeeded;
                true
            },
            _ => false,
        }
    }

    /// Completes the request with `err`, if it is still pending. Says whether
    /// this call completed it.
    pub fn fail(&mut self, err: StreamError) -> (signalled: bool)
        ensures
            *final(self) == old(self).resolved(Completion::Failed(err)),
            signalled == old(self).is_pending(),
    {
        match self.completion {
            Completion::Pending => {
                self.completion = Completion::Failed(err);
                true
            },
            _ => false,
        }
    }
}

/// A request is completed at most once: after an attempt with a terminal
/// outcome it is no longer pending, and no later attempt changes it.
pub proof fn lemma_completed_once(
    request: StreamAppendRequest,
    first: Completion,
    second: Completion,
)
    requires
        first != Completion::Pending,
    ensures
        !request.resolved(first).is_pending(),
        request.resolved(first).resolved(second) == request.resolved(first),
        request.resolved(first).base_offset == request.base_offset,
        request.resolved(first).count == request.count,
{
}

} // verus!

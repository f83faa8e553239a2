//! A durability backend together with the record of the calls made on it.
//!
//! Every call goes to the backend and is recorded with its argument and
//! with what the backend returned. The backend is reached only through this
//! holder until it is given back, so the record holds every call made on it.
use vstd::prelude::*;

use crate::durability::{BackendCall, DurabilityBackend};

verus! {

/// A backend and every call made on it through this holder, in order.
pub struct RecordedBackend<S, B: DurabilityBackend<S>> {
    backend: B,
    calls: Ghost<Seq<BackendCall<S, B::Candidate, B::Error>>>,
}

impl<S, B: DurabilityBackend<S>> RecordedBackend<S, B> {
    /// The calls made so far, each with its argument and result.
    pub closed spec fn history(&self) -> Seq<BackendCall<S, B::Candidate, B::Error>> {
        self.calls@
    }

    /// The backend held.
    pub closed spec fn held(&self) -> B {
        self.backend
    }

    /// Holds `backend`, with no call recorded yet.
    pub fn new(backend: B) -> (r: Self)
        ensures
            r.history() == Seq::<BackendCall<S, B::Candidate, B::Error>>::empty(),
            r.held() == backend,
    {
        RecordedBackend { backend, calls: Ghost(Seq::empty()) }
    }

    /// Gives the backend back.
    pub fn into_backend(self) -> (r: B)
        ensures
            r == self.held(),
    {
        self.backend
    }

    pub fn load_committed(&mut self) -> (r: Result<Option<S>, B::Error>)
        ensures
            final(self).history() == old(self).history().push(BackendCall::LoadCommitted { result: r }),
            final(self).held() == old(self).held(),
    {
        let r = self.backend.load_committed();
        self.calls = Ghost(self.calls@.push(BackendCall::LoadCommitted { result: r }));
        r
    }

    pub fn write_candidate(&mut self, state: &S) -> (r: Result<B::Candidate, B::Error>)
        ensures
            final(self).history() == old(self).history().push(BackendCall::WriteCandidate { state: *state, result: r }),
    {
        let r = self.backend.write_candidate(state);
        self.calls = Ghost(self.calls@.push(BackendCall::WriteCandidate { state: *state, result: r }));
        r
    }

    pub fn sync_candidate(&mut self, candidate: &B::Candidate) -> (r: Result<(), B::Error>)
        ensures
            final(self).history() == old(self).history().push(
                BackendCall::SyncCandidate { candidate: *candidate, result: r },
            ),
    {
        let r = self.backend.sync_candidate(candidate);
        self.calls = Ghost(self.calls@.push(BackendCall::SyncCandidate { candidate: *candidate, result: r }));
        r
    }

    pub fn publish_candidate(&mut self, candidate: &B::Candidate) -> (r: Result<(), B::Error>)
        ensures
            final(self).history() == old(self).history().push(
                BackendCall::PublishCandidate { candidate: *candidate, result: r },
            ),
    {
        let r = self.backend.publish_candidate(candidate);
        self.calls = Ghost(self.calls@.push(BackendCall::PublishCandidate { candidate: *candidate, result: r }));
        r
    }

    pub fn sync_committed_root(&mut self) -> (r: Result<(), B::Error>)
        ensures
            final(self).history() == old(self).history().push(BackendCall::SyncCommittedRoot { result: r }),
    {
        let r = self.backend.sync_committed_root();
        self.calls = Ghost(self.calls@.push(BackendCall::SyncCommittedRoot { result: r }));
        r
    }
}

} // verus!

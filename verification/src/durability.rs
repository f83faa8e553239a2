//! Durable commit protocol over an abstract storage backend.
//!
//! The physical backend may use copy-on-write pages, a journal, two manifests
//! or database transactions; the protocol only relies on the durability
//! boundaries of its four steps, taken in order on one candidate.
use vstd::prelude::*;

use crate::recorded::RecordedBackend;

verus! {

/// One backend operation, with what it was given and what it returned.
pub ghost enum BackendCall<S, C, E> {
    /// The last committed state was read.
    LoadCommitted { result: Result<Option<S>, E> },
    /// A complete candidate state was written without becoming committed.
    WriteCandidate { state: S, result: Result<C, E> },
    /// The candidate data was made durable.
    SyncCandidate { candidate: C, result: Result<(), E> },
    /// The visible committed root was switched to the candidate.
    PublishCandidate { candidate: C, result: Result<(), E> },
    /// The published root was made durable.
    SyncCommittedRoot { result: Result<(), E> },
}

/// Backend operations required by the durable commit. The backend is
/// outside the library (a filesystem, a database, a test double); the commit
/// relies on the order of its calls and on what each call returned, which a
/// `RecordedBackend` around the backend records.
pub trait DurabilityBackend<S> {
    type Candidate;
    type Error;

    /// The last committed state that survived the durability barrier;
    /// unpublished candidates are never visible here.
    fn load_committed(&self) -> Result<Option<S>, Self::Error>;

    /// Writes a complete candidate without making it the committed root.
    fn write_candidate(&mut self, state: &S) -> Result<Self::Candidate, Self::Error>;

    /// Makes the candidate data durable before it can become the committed root.
    fn sync_candidate(&mut self, candidate: &Self::Candidate) -> Result<(), Self::Error>;

    /// Atomically switches the visible committed root to a durable candidate.
    fn publish_candidate(&mut self, candidate: &Self::Candidate) -> Result<(), Self::Error>;

    /// Makes the published root durable: after success, a power loss can no
    /// longer restore the previous committed root.
    fn sync_committed_root(&mut self) -> Result<(), Self::Error>;
}

/// What one durable commit of `state` did, given the calls it made and its
/// result: it wrote the state as a candidate, then synced, published and
/// synced the root of exactly the candidate that the write returned, in that
/// order, stopping at the first call that failed with that call's error, and
/// made no other call (it never reads the committed state); it succeeded only
/// when all four calls succeeded.
pub open spec fn commit_calls<S, C, E>(state: S, calls: Seq<BackendCall<S, C, E>>, r: Result<(), E>) -> bool {
    calls.len() >= 1 && match calls[0] {
        BackendCall::WriteCandidate { state: s, result: Err(e) } => s == state && calls.len() == 1 && r == Err::<(), E>(e),
        BackendCall::WriteCandidate { state: s, result: Ok(c) } => s == state && calls.len() >= 2 && match calls[1] {
            BackendCall::SyncCandidate { candidate: c1, result: Err(e) } => c1 == c && calls.len() == 2 && r == Err::<(), E>(e),
            BackendCall::SyncCandidate { candidate: c1, result: Ok(()) } => c1 == c && calls.len() >= 3 && match calls[2] {
                BackendCall::PublishCandidate { candidate: c2, result: Err(e) } => c2 == c && calls.len() == 3 && r == Err::<
                    (),
                    E,
                >(e),
                BackendCall::PublishCandidate { candidate: c2, result: Ok(()) } => c2 == c && calls.len() == 4 && match calls[3] {
                    BackendCall::SyncCommittedRoot { result } => r == result,
                    _ => false,
                },
                _ => false,
            },
            _ => false,
        },
        _ => false,
    }
}

/// A durable commit never reads the committed state: none of its calls is a
/// load.
pub proof fn lemma_commit_never_loads<S, C, E>(state: S, calls: Seq<BackendCall<S, C, E>>, r: Result<(), E>)
    requires
        commit_calls(state, calls, r),
    ensures
        forall|i: int| 0 <= i < calls.len() ==> !(#[trigger] calls[i] is LoadCommitted),
{
}

/// The acknowledgement boundary: a commit that succeeded made all four calls
/// on the candidate its write returned, and every one of them succeeded,
/// the root barrier last.
pub proof fn lemma_ack_after_root_barrier<S, C, E>(state: S, calls: Seq<BackendCall<S, C, E>>)
    requires
        commit_calls(state, calls, Ok::<(), E>(())),
    ensures
        calls.len() == 4,
        calls[0] is WriteCandidate,
        calls[0]->state == state,
        calls[0]->WriteCandidate_result is Ok,
        calls[1] is SyncCandidate,
        calls[1]->SyncCandidate_candidate == calls[0]->WriteCandidate_result->Ok_0,
        calls[1]->SyncCandidate_result is Ok,
        calls[2] is PublishCandidate,
        calls[2]->PublishCandidate_candidate == calls[0]->WriteCandidate_result->Ok_0,
        calls[2]->PublishCandidate_result is Ok,
        calls[3] is SyncCommittedRoot,
        calls[3]->SyncCommittedRoot_result is Ok,
{
}

/// Commits one complete state with the minimum ordering required by the
/// acknowledgement contract.
///
/// `Ok(())` is the acknowledgement boundary: it comes only after the root
/// barrier succeeded. The backend's record grows by exactly the calls that
/// `commit_calls` describes.
pub fn commit_durable<B: DurabilityBackend<S>, S>(backend: &mut RecordedBackend<S, B>, state: &S) -> (r: Result<(), B::Error>)
    ensures
        final(backend).history().len() > old(backend).history().len(),
        final(backend).history().take(old(backend).history().len() as int) == old(backend).history(),
        commit_calls(*state, final(backend).history().skip(old(backend).history().len() as int), r),
{
    let ghost h0 = backend.history();
    let candidate = match backend.write_candidate(state) {
        Ok(c) => c,
        Err(e) => {
            proof {
                assert(backend.history().take(h0.len() as int) =~= h0);
                let calls = backend.history().skip(h0.len() as int);
                assert(calls.len() == 1);
                assert(calls[0] == backend.history()[h0.len() as int]);
            }
            return Err(e);
        },
    };
    let ghost h1 = backend.history();
    let r1 = backend.sync_candidate(&candidate);
    if let Err(e) = r1 {
        proof {
            assert(backend.history().take(h0.len() as int) =~= h0);
            let calls = backend.history().skip(h0.len() as int);
            assert(calls[0] == h1[h0.len() as int]);
            assert(calls[1] == backend.history()[h0.len() as int + 1]);
        }
        return Err(e);
    }
    let ghost h2 = backend.history();
    let r2 = backend.publish_candidate(&candidate);
    if let Err(e) = r2 {
        proof {
            assert(backend.history().take(h0.len() as int) =~= h0);
            let calls = backend.history().skip(h0.len() as int);
            assert(calls[0] == h1[h0.len() as int]);
            assert(calls[1] == h2[h0.len() as int + 1]);
            assert(calls[2] == backend.history()[h0.len() as int + 2]);
        }
        return Err(e);
    }
    let ghost h3 = backend.history();
    let r = backend.sync_committed_root();
    proof {
        assert(backend.history().take(h0.len() as int) =~= h0);
        let calls = backend.history().skip(h0.len() as int);
        assert(calls[0] == h1[h0.len() as int]);
        assert(calls[1] == h2[h0.len() as int + 1]);
        assert(calls[2] == h3[h0.len() as int + 2]);
        assert(calls[3] == backend.history()[h0.len() as int + 3]);
    }
    r
}

} // verus!

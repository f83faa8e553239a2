//! Decisions of a foreground resume over a durable outbox.
//!
//! After catch-up, pending publications are classified only by recovery facts:
//! whether the cursor they expected is still the durable cursor, and whether
//! authenticated catch-up evidence shows that everything they carry has
//! already arrived remotely. Publication identities are set members; their
//! canonical order is never read as time or priority.
use vstd::prelude::*;

use crate::id::{array_from_slice, RevisionId};
use crate::idset::RevisionSet;
use crate::order::{compare_bytes, lex_lt};
use crate::recovery_set::{compare_keys, DomainKey};

verus! {

/// Identity of one staged outbound publication.
#[derive(Clone, Copy, PartialEq, Eq, PartialOrd, Ord, Hash, Debug)]
pub struct PublicationId {
    bytes: [u8; 32],
}

impl View for PublicationId {
    type V = Seq<u8>;

    closed spec fn view(&self) -> Seq<u8> {
        self.bytes@
    }
}

impl PublicationId {
    pub fn from_bytes(bytes: [u8; 32]) -> (id: Self)
        ensures
            id@ == bytes@,
    {
        PublicationId { bytes }
    }

    pub fn as_bytes(&self) -> (bytes: &[u8; 32])
        ensures
            bytes@ == self@,
    {
        &self.bytes
    }

    /// Identities with the same bytes are the same identity.
    pub proof fn lemma_view_injective(a: Self, b: Self)
        ensures
            (a@ == b@) == (a == b),
    {
        if a@ == b@ {
            assert(a.bytes =~= b.bytes);
        }
    }

    /// Three-way comparison in canonical byte order.
    pub fn compare(&self, other: &Self) -> (r: i8)
        ensures
            (r == 0) == (*self == *other),
            (r < 0) == lex_lt(self@, other@),
            (r > 0) == lex_lt(other@, self@),
    {
        proof {
            Self::lemma_view_injective(*self, *other);
        }
        compare_bytes(self.bytes.as_slice(), other.bytes.as_slice())
    }
}

/// What the catch-up pass that precedes a resume did.
#[derive(Clone, Copy, Debug, PartialEq, Eq)]
pub enum CatchUpKind {
    /// The remote head had not moved.
    UpToDate,
    /// Authenticated remote state was observed and committed with the cursor.
    Applied,
    /// The cursor moved over a change that carried no semantic objects.
    CursorAdvancedWithoutSemanticObjects,
    /// The remote no longer holds the durable cursor's baseline.
    BaselineUnavailable,
}

/// The recovery facts of one pending publication after catch-up.
#[derive(Clone, Copy, Debug, PartialEq, Eq)]
pub struct PendingPublication {
    pub publication_id: PublicationId,
    /// Its expected cursor equals the durable cursor after catch-up.
    pub targets_current_cursor: bool,
    /// Its exact staged objects authenticate as one complete publication all
    /// of whose revisions arrived in the evidence of this catch-up pass.
    pub observed_in_catch_up: bool,
}

/// What a resume does with the outbox.
#[derive(Clone, Debug, PartialEq, Eq)]
pub enum OutboxAction {
    /// Nothing is left to publish.
    NothingPending,
    /// Catch-up could not establish a baseline; nothing is published.
    BlockedByBaseline,
    /// Stale publications without proof of remote arrival block the cycle.
    NeedsRebase { publication_ids: Vec<PublicationId> },
    /// The publications staged against the current cursor are published as
    /// one exact batch.
    Publish { publication_ids: Vec<PublicationId> },
}

/// The decision of one resume: stale publications proven to have arrived
/// (retired without another transport mutation), and the next action.
#[derive(Clone, Debug, PartialEq, Eq)]
pub struct OutboxPlan {
    pub observed_reconciled: Vec<PublicationId>,
    pub action: OutboxAction,
}

/// The identities, in order, of the pending publications that satisfy `f`.
pub open spec fn select(s: Seq<PendingPublication>, f: spec_fn(PendingPublication) -> bool) -> Seq<PublicationId>
    decreases s.len(),
{
    if s.len() == 0 {
        Seq::empty()
    } else if f(s.last()) {
        select(s.drop_last(), f).push(s.last().publication_id)
    } else {
        select(s.drop_last(), f)
    }
}

/// Staged against the current cursor.
pub open spec fn is_current() -> spec_fn(PendingPublication) -> bool {
    |e: PendingPublication| e.targets_current_cursor
}

/// Stale, and proven by applied catch-up evidence to have arrived.
pub open spec fn is_reconciled(applied: bool) -> spec_fn(PendingPublication) -> bool {
    |e: PendingPublication| !e.targets_current_cursor && applied && e.observed_in_catch_up
}

/// Stale, without such proof.
pub open spec fn is_unresolved(applied: bool) -> spec_fn(PendingPublication) -> bool {
    |e: PendingPublication| !e.targets_current_cursor && !(applied && e.observed_in_catch_up)
}

/// The classification `which` names: current, reconciled or unresolved.
pub open spec fn classification(which: u8, applied: bool) -> spec_fn(PendingPublication) -> bool {
    if which == 0 {
        is_current()
    } else if which == 1 {
        is_reconciled(applied)
    } else {
        is_unresolved(applied)
    }
}

fn classify(e: PendingPublication, which: u8, applied: bool) -> (b: bool)
    ensures
        b == classification(which, applied)(e),
{
    if which == 0 {
        e.targets_current_cursor
    } else if which == 1 {
        !e.targets_current_cursor && applied && e.observed_in_catch_up
    } else {
        !e.targets_current_cursor && !(applied && e.observed_in_catch_up)
    }
}

fn select_where(pending: &Vec<PendingPublication>, which: u8, applied: bool) -> (r: Vec<PublicationId>)
    ensures
        r@ == select(pending@, classification(which, applied)),
{
    let ghost f = classification(which, applied);
    let mut out: Vec<PublicationId> = Vec::new();
    let mut i: usize = 0;
    while i < pending.len()
        invariant
            i <= pending@.len(),
            f == classification(which, applied),
            out@ == select(pending@.take(i as int), f),
        decreases pending@.len() - i,
    {
        let e = pending[i];
        let keep = classify(e, which, applied);
        proof {
            assert(pending@.take(i as int + 1).drop_last() =~= pending@.take(i as int));
            assert(pending@.take(i as int + 1).last() == e);
        }
        if keep {
            out.push(e.publication_id);
        }
        i = i + 1;
    }
    assert(pending@.take(pending@.len() as int) =~= pending@);
    out
}

/// Decides what a resume does after catch-up.
///
/// A baseline that is unavailable blocks everything. Otherwise the stale
/// publications that applied catch-up evidence proves to have arrived are
/// reconciled; any stale publication left without that proof blocks the
/// current-cursor set and asks for a rebase; only then is the current-cursor
/// set published, as one batch.
pub fn plan_outbox_resume(catch_up: CatchUpKind, pending: &Vec<PendingPublication>) -> (p: OutboxPlan)
    ensures
        catch_up is BaselineUnavailable ==> p.action is BlockedByBaseline && p.observed_reconciled@.len() == 0,
        !(catch_up is BaselineUnavailable) && pending@.len() == 0 ==> p.action is NothingPending && p.observed_reconciled@.len()
            == 0,
        !(catch_up is BaselineUnavailable) && pending@.len() > 0 ==> {
            let applied = catch_up is Applied;
            let unresolved = select(pending@, is_unresolved(applied));
            let current = select(pending@, is_current());
            &&& p.observed_reconciled@ == select(pending@, is_reconciled(applied))
            &&& unresolved.len() > 0 ==> (p.action matches OutboxAction::NeedsRebase { publication_ids }
                && publication_ids@ == unresolved)
            &&& unresolved.len() == 0 && current.len() == 0 ==> p.action is NothingPending
            &&& unresolved.len() == 0 && current.len() > 0 ==> (p.action matches OutboxAction::Publish { publication_ids }
                && publication_ids@ == current)
        },
{
    if let CatchUpKind::BaselineUnavailable = catch_up {
        return OutboxPlan { observed_reconciled: Vec::new(), action: OutboxAction::BlockedByBaseline };
    }
    if pending.len() == 0 {
        return OutboxPlan { observed_reconciled: Vec::new(), action: OutboxAction::NothingPending };
    }
    let applied = match catch_up {
        CatchUpKind::Applied => true,
        _ => false,
    };
    let observed_reconciled = select_where(pending, 1, applied);
    let unresolved = select_where(pending, 2, applied);
    if unresolved.len() > 0 {
        return OutboxPlan { observed_reconciled, action: OutboxAction::NeedsRebase { publication_ids: unresolved } };
    }
    let current = select_where(pending, 0, applied);
    if current.len() == 0 {
        OutboxPlan { observed_reconciled, action: OutboxAction::NothingPending }
    } else {
        OutboxPlan { observed_reconciled, action: OutboxAction::Publish { publication_ids: current } }
    }
}

/// Why the single-publication resume refuses an outbox.
#[derive(Clone, Copy, Debug, PartialEq, Eq)]
pub enum SingleResumeRefusal {
    MultiplePendingOutboxUnsupported { count: usize },
}

/// The single-domain resume handles at most one pending publication; more
/// are refused before any transport I/O.
pub fn check_single_outbox(count: usize) -> (r: Result<(), SingleResumeRefusal>)
    ensures
        r is Ok <==> count <= 1,
        r matches Err(SingleResumeRefusal::MultiplePendingOutboxUnsupported { count: c }) ==> c == count,
{
    if count > 1 {
        Err(SingleResumeRefusal::MultiplePendingOutboxUnsupported { count })
    } else {
        Ok(())
    }
}

/// One domain carried by a publication is covered by one entry of the
/// evidence: the same domain, with every carried revision among those that
/// arrived.
pub open spec fn domain_covered(carried: (DomainKey, RevisionSet), arrived: (DomainKey, RevisionSet)) -> bool {
    carried.0@ == arrived.0@ && carried.1@.subset_of(arrived.1@)
}

/// One carried domain is covered by some entry of the evidence.
pub open spec fn domain_in_evidence(carried: (DomainKey, RevisionSet), observed: Seq<(DomainKey, RevisionSet)>) -> bool {
    exists|j: int| 0 <= j < observed.len() && #[trigger] domain_covered(carried, observed[j])
}

/// Every domain carried by a publication is covered by the evidence.
pub open spec fn projection_observed(
    projection: Seq<(DomainKey, RevisionSet)>,
    observed: Seq<(DomainKey, RevisionSet)>,
) -> bool {
    forall|i: int| 0 <= i < projection.len() ==> #[trigger] domain_in_evidence(projection[i], observed)
}

/// Whether a decoded publication, given per domain as the identities of the
/// revisions it carries, is fully contained in the catch-up evidence, given
/// per domain as the identities that arrived. Partial evidence for a domain,
/// or none, is not enough.
pub fn projection_is_observed(
    projection: &Vec<(DomainKey, RevisionSet)>,
    observed: &Vec<(DomainKey, RevisionSet)>,
) -> (b: bool)
    ensures
        b == projection_observed(projection@, observed@),
{
    let mut i: usize = 0;
    while i < projection.len()
        invariant
            i <= projection@.len(),
            forall|a: int| 0 <= a < i ==> #[trigger] domain_in_evidence(projection@[a], observed@),
        decreases projection@.len() - i,
    {
        let mut found = false;
        let mut j: usize = 0;
        while j < observed.len()
            invariant
                j <= observed@.len(),
                i < projection@.len(),
                forall|a: int| 0 <= a < i ==> #[trigger] domain_in_evidence(projection@[a], observed@),
                !found ==> forall|c: int| 0 <= c < j ==> !#[trigger] domain_covered(projection@[i as int], observed@[c]),
                found ==> domain_in_evidence(projection@[i as int], observed@),
            decreases observed@.len() - j,
        {
            if !found && compare_keys(&observed[j].0, &projection[i].0) == 0 && projection[i].1.is_subset_of(&observed[j].1) {
                found = true;
                assert(domain_covered(projection@[i as int], observed@[j as int]));
            }
            j = j + 1;
        }
        if !found {
            proof {
                if projection_observed(projection@, observed@) {
                    let ii = i as int;
                    assert(domain_in_evidence(projection@[ii], observed@));
                    let c = choose|c: int| 0 <= c < observed@.len() && #[trigger] domain_covered(projection@[ii], observed@[c]);
                    assert(domain_covered(projection@[ii], observed@[c]));
                    assert(false);
                }
            }
            return false;
        }
        i = i + 1;
    }
    true
}

} // verus!

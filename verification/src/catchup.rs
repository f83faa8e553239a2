//! Semantic core of a catch-up pass: combining the authenticated remote
//! states of one fetch, and observing them in each local domain.
//!
//! All remote states of one pass are merged before a single observation
//! boundary is crossed, so dirty local work is sealed once against the
//! frontier it actually observed, not once per fetched object.
use vstd::prelude::*;

use crate::domain::{empty_ledger, observed_ledger, DomainModel, LocalScalarDomain};
use crate::error::CoreError;
use crate::finalization::LedgerModel;
use crate::graph::{compatible, first_conflict, merge_graphs, Graph, RevisionModel};
use crate::id::{AtomId, RevisionId};
use crate::idset::RevisionSet;
use crate::merge::{lemma_first_conflict_unique, scalar_conflict};
use crate::recovery_set::{compare_keys, DomainKey, LocalScalarRecoveryState};
use crate::scalar::{entries_map, ScalarRegister, ScalarRevision};
use crate::working::{observe_outcome, WorkingModel};

verus! {

/// Merging the remote states of one pass in order, the first refusal ending
/// the merge.
pub open spec fn fold_merge(gs: Seq<Graph>) -> Result<Graph, CoreError>
    decreases gs.len(),
{
    if gs.len() <= 1 {
        if gs.len() == 0 {
            Ok(Map::empty())
        } else {
            Ok(gs[0])
        }
    } else {
        match fold_merge(gs.drop_last()) {
            Err(e) => Err(e),
            Ok(acc) => match merge_graphs(acc, gs.last()) {
                Some(m) => Ok(m),
                None => Err(CoreError::DuplicateRevisionConflict { revision_id: scalar_conflict(acc, gs.last()) }),
            },
        }
    }
}

pub open spec fn register_views(rs: Seq<ScalarRegister>) -> Seq<Graph> {
    rs.map_values(|r: ScalarRegister| r@)
}

/// Merges every remote state decoded in one pass into one remote state; no
/// state at all merges to the empty state.
pub fn merge_remote_states(decoded: &Vec<ScalarRegister>) -> (r: Result<ScalarRegister, CoreError>)
    ensures
        match fold_merge(register_views(decoded@)) {
            Ok(g) => r matches Ok(m) && m@ == g,
            Err(e) => r == Err::<ScalarRegister, CoreError>(e),
        },
        r is Ok <==> forall|i: int, j: int| 0 <= i < decoded@.len() && 0 <= j < decoded@.len() ==> compatible(
            (#[trigger] decoded@[i])@,
            (#[trigger] decoded@[j])@,
        ),
        r matches Ok(m) ==> forall|i: int| 0 <= i < decoded@.len() ==> (#[trigger] decoded@[i])@.submap_of(m@),
        r matches Ok(m) ==> forall|k: RevisionId| #[trigger] m@.contains_key(k) ==> exists|i: int|
            0 <= i < decoded@.len() && decoded@[i]@.contains_key(k) && decoded@[i]@[k] == m@[k],
{
    proof {
        let vs = register_views(decoded@);
        lemma_fold_merge_union(vs);
        lemma_fold_merge_ok_iff_compatible(vs);
        assert forall|i: int| 0 <= i < decoded@.len() implies #[trigger] vs[i] == decoded@[i]@ by {}
        assert((forall|i: int, j: int| 0 <= i < vs.len() && 0 <= j < vs.len() ==> compatible(#[trigger] vs[i], #[trigger] vs[j]))
            <==> (forall|i: int, j: int| 0 <= i < decoded@.len() && 0 <= j < decoded@.len() ==> compatible(
            (#[trigger] decoded@[i])@,
            (#[trigger] decoded@[j])@,
        ))) by {
            if forall|i: int, j: int| 0 <= i < vs.len() && 0 <= j < vs.len() ==> compatible(#[trigger] vs[i], #[trigger] vs[j]) {
                assert forall|i: int, j: int| 0 <= i < decoded@.len() && 0 <= j < decoded@.len() implies compatible(
                    (#[trigger] decoded@[i])@,
                    (#[trigger] decoded@[j])@,
                ) by {
                    assert(compatible(vs[i], vs[j]));
                }
            }
            if forall|i: int, j: int| 0 <= i < decoded@.len() && 0 <= j < decoded@.len() ==> compatible(
                (#[trigger] decoded@[i])@,
                (#[trigger] decoded@[j])@,
            ) {
                assert forall|i: int, j: int| 0 <= i < vs.len() && 0 <= j < vs.len() implies compatible(#[trigger] vs[i], #[trigger] vs[j]) by {
                    assert(compatible(decoded@[i]@, decoded@[j]@));
                }
            }
        }
    }
    let ghost views = register_views(decoded@);
    if decoded.len() == 0 {
        return Ok(ScalarRegister::new());
    }
    let mut combined = decoded[0].duplicate();
    proof {
        assert(views.take(1) =~= seq![decoded@[0]@]);
    }
    let mut i: usize = 1;
    while i < decoded.len()
        invariant
            1 <= i <= decoded@.len(),
            views == register_views(decoded@),
            fold_merge(views.take(i as int)) == Ok::<Graph, CoreError>(combined@),
            fold_merge(views) is Ok <==> forall|i1: int, j1: int| 0 <= i1 < decoded@.len() && 0 <= j1 < decoded@.len()
                ==> compatible((#[trigger] decoded@[i1])@, (#[trigger] decoded@[j1])@),
        decreases decoded@.len() - i,
    {
        let ghost acc = combined@;
        let ghost g = decoded@[i as int]@;
        proof {
            assert(views.take(i as int + 1).drop_last() =~= views.take(i as int));
            assert(views.take(i as int + 1).last() == g);
        }
        match combined.merge(&decoded[i]) {
            Ok(m) => {
                combined = m;
            },
            Err(e) => {
                proof {
                    let k = choose|k: RevisionId| e == (CoreError::DuplicateRevisionConflict { revision_id: k })
                        && first_conflict(acc, g, k);
                    lemma_first_conflict_unique(acc, g, k, scalar_conflict(acc, g));
                    lemma_fold_error_stays(views, i as int + 1);
                }
                return Err(e);
            },
        }
        i = i + 1;
    }
    proof {
        assert(views.take(decoded@.len() as int) =~= views);
        assert forall|i: int| 0 <= i < decoded@.len() implies (#[trigger] decoded@[i])@.submap_of(combined@) by {
            assert(views[i] == decoded@[i]@);
        }
        assert forall|k: RevisionId| #[trigger] combined@.contains_key(k) implies exists|i: int|
            0 <= i < decoded@.len() && decoded@[i]@.contains_key(k) && decoded@[i]@[k] == combined@[k] by {
            let i = choose|i: int| 0 <= i < views.len() && views[i].contains_key(k) && views[i][k] == combined@[k];
            assert(views[i] == decoded@[i]@);
        }
    }
    Ok(combined)
}

/// A successful merge of several states is their union: every revision of
/// every state is in it, unchanged, and every revision in it comes from one
/// of the states.
pub proof fn lemma_fold_merge_union(gs: Seq<Graph>)
    ensures
        fold_merge(gs) matches Ok(g) ==> forall|i: int| 0 <= i < gs.len() ==> (#[trigger] gs[i]).submap_of(g),
        fold_merge(gs) matches Ok(g) ==> forall|i: int, k: RevisionId| 0 <= i < gs.len() && #[trigger] gs[i].contains_key(k)
            ==> g.contains_key(k) && gs[i][k] == g[k],
        fold_merge(gs) matches Ok(g) ==> forall|k: RevisionId| #[trigger] g.contains_key(k) ==> exists|i: int|
            0 <= i < gs.len() && gs[i].contains_key(k) && gs[i][k] == g[k],
    decreases gs.len(),
{
    if gs.len() == 1 {
        if let Ok(g) = fold_merge(gs) {
            assert forall|k: RevisionId| #[trigger] g.contains_key(k) implies exists|i: int|
                0 <= i < gs.len() && gs[i].contains_key(k) && gs[i][k] == g[k] by {
                assert(gs[0].contains_key(k));
            }
            assert forall|i: int, k: RevisionId| 0 <= i < gs.len() && #[trigger] gs[i].contains_key(k) implies g.contains_key(k)
                && gs[i][k] == g[k] by {
                assert(i == 0);
            }
        }
    } else if gs.len() > 1 {
        let t = gs.drop_last();
        lemma_fold_merge_union(t);
        if let Ok(g) = fold_merge(gs) {
            let acc = fold_merge(t)->Ok_0;
            let last = gs.last();
            assert(compatible(acc, last));
            assert(g == acc.union_prefer_right(last));
            assert forall|i: int, k: RevisionId| 0 <= i < gs.len() && #[trigger] gs[i].contains_key(k) implies g.contains_key(k)
                && gs[i][k] == g[k] by {
                if i < gs.len() - 1 {
                    assert(t[i] == gs[i]);
                    assert(t[i].contains_key(k));
                    assert(acc.contains_key(k) && t[i][k] == acc[k]);
                    if last.contains_key(k) {
                        assert(acc[k] == last[k]);
                    }
                } else {
                    assert(gs[i] == last);
                }
            }
            assert forall|i: int| 0 <= i < gs.len() implies (#[trigger] gs[i]).submap_of(g) by {
                assert forall|k: RevisionId| #[trigger] gs[i].dom().contains(k) implies g.dom().contains(k) && gs[i][k] == g[k] by {
                    assert(gs[i].contains_key(k));
                }
            }
            assert forall|k: RevisionId| #[trigger] g.contains_key(k) implies exists|i: int|
                0 <= i < gs.len() && gs[i].contains_key(k) && gs[i][k] == g[k] by {
                if last.contains_key(k) {
                    assert(gs[gs.len() - 1] == last);
                } else {
                    assert(acc.contains_key(k));
                    let i = choose|i: int| 0 <= i < t.len() && t[i].contains_key(k) && t[i][k] == acc[k];
                    assert(gs[i] == t[i]);
                }
            }
        }
    }
}

/// Several states merge exactly when every two of them agree on every
/// revision they share.
pub proof fn lemma_fold_merge_ok_iff_compatible(gs: Seq<Graph>)
    ensures
        fold_merge(gs) is Ok <==> forall|i: int, j: int| 0 <= i < gs.len() && 0 <= j < gs.len() ==> compatible(
            #[trigger] gs[i],
            #[trigger] gs[j],
        ),
    decreases gs.len(),
{
    lemma_fold_merge_union(gs);
    if fold_merge(gs) is Ok {
        let g = fold_merge(gs)->Ok_0;
        assert forall|i: int, j: int| 0 <= i < gs.len() && 0 <= j < gs.len() implies compatible(
            #[trigger] gs[i],
            #[trigger] gs[j],
        ) by {
            assert forall|k: RevisionId| #[trigger] gs[i].contains_key(k) && gs[j].contains_key(k) implies gs[i][k] == gs[j][k] by {
                assert(gs[i][k] == g[k]);
                assert(gs[j][k] == g[k]);
            }
        }
    } else if gs.len() > 1 {
        let t = gs.drop_last();
        lemma_fold_merge_ok_iff_compatible(t);
        lemma_fold_merge_union(t);
        if forall|i: int, j: int| 0 <= i < gs.len() && 0 <= j < gs.len() ==> compatible(#[trigger] gs[i], #[trigger] gs[j]) {
            assert forall|i: int, j: int| 0 <= i < t.len() && 0 <= j < t.len() implies compatible(#[trigger] t[i], #[trigger] t[j]) by {
                assert(t[i] == gs[i] && t[j] == gs[j]);
            }
            let acc = fold_merge(t)->Ok_0;
            let last = gs.last();
            assert(compatible(acc, last)) by {
                assert forall|k: RevisionId| #[trigger] acc.contains_key(k) && last.contains_key(k) implies acc[k] == last[k] by {
                    let i = choose|i: int| 0 <= i < t.len() && t[i].contains_key(k) && t[i][k] == acc[k];
                    assert(t[i] == gs[i]);
                    assert(compatible(gs[i], gs[gs.len() - 1]));
                }
            }
            assert(false);
        }
    }
}

/// A refusal of the merge of a prefix is the refusal of the whole merge.
proof fn lemma_fold_error_stays(gs: Seq<Graph>, n: int)
    requires
        1 <= n <= gs.len(),
        fold_merge(gs.take(n)) is Err,
    ensures
        fold_merge(gs) == fold_merge(gs.take(n)),
    decreases gs.len() - n,
{
    if n == gs.len() {
        assert(gs.take(n) =~= gs);
    } else {
        assert(gs.take(n + 1).drop_last() =~= gs.take(n));
        lemma_fold_error_stays(gs, n + 1);
    }
}

/// The pre-observation identity given for a domain: the first one listed.
pub open spec fn pre_lookup(pre: Seq<(DomainKey, RevisionId)>, k: (AtomId, Seq<u8>)) -> Option<RevisionId>
    decreases pre.len(),
{
    if pre.len() == 0 {
        None
    } else if pre[0].0@ == k {
        Some(pre[0].1)
    } else {
        pre_lookup(pre.drop_first(), k)
    }
}

fn find_pre(pre: &Vec<(DomainKey, RevisionId)>, key: &DomainKey) -> (r: Option<RevisionId>)
    ensures
        r == pre_lookup(pre@, key@),
{
    let mut i: usize = 0;
    assert(pre@.subrange(0, pre@.len() as int) =~= pre@);
    while i < pre.len()
        invariant
            i <= pre@.len(),
            pre_lookup(pre@, key@) == pre_lookup(pre@.subrange(i as int, pre@.len() as int), key@),
        decreases pre@.len() - i,
    {
        let ghost s = pre@.subrange(i as int, pre@.len() as int);
        if compare_keys(&pre[i].0, key) == 0 {
            return Some(pre[i].1);
        }
        assert(s.drop_first() =~= pre@.subrange(i as int + 1, pre@.len() as int));
        i = i + 1;
    }
    None
}

/// A domain first seen in remote state: its remote state, no pending work,
/// no local bookkeeping.
pub open spec fn fresh_domain(g: Graph) -> DomainModel {
    DomainModel { working: WorkingModel { causal: g, pending: None }, ledger: empty_ledger() }
}

/// What observing `remote` does to one domain, as the domain reports it.
pub open spec fn domain_observe(
    before: DomainModel,
    remote: Graph,
    pre: Option<RevisionId>,
    r: Result<Option<ScalarRevision>, CoreError>,
    after: DomainModel,
) -> bool {
    &&& observe_outcome(before.working, remote, pre, r, after.working)
    &&& after.ledger == observed_ledger(before.ledger, before.working.causal, after.working.causal, pre)
}

/// What observing the remote domains, in order, does to a recovery state
/// whose domains are `state`, the revisions sealed so far being `sealed`: a
/// known domain observes its remote state with its pre-observation identity,
/// an unknown one is added as it stands remotely; the first refused
/// observation ends the pass.
pub open spec fn apply_outcome(
    state: Map<(AtomId, Seq<u8>), DomainModel>,
    sealed: Seq<((AtomId, Seq<u8>), RevisionModel)>,
    remote: Seq<(DomainKey, ScalarRegister)>,
    pre: Seq<(DomainKey, RevisionId)>,
    r: Result<(Map<(AtomId, Seq<u8>), DomainModel>, Seq<((AtomId, Seq<u8>), RevisionModel)>), CoreError>,
) -> bool
    decreases remote.len(),
{
    if remote.len() == 0 {
        r == Ok::<(Map<(AtomId, Seq<u8>), DomainModel>, Seq<((AtomId, Seq<u8>), RevisionModel)>), CoreError>((state, sealed))
    } else {
        let k = remote[0].0@;
        let g = remote[0].1@;
        if state.contains_key(k) {
            exists|or: Result<Option<ScalarRevision>, CoreError>, after: DomainModel| #[trigger]
                domain_observe(state[k], g, pre_lookup(pre, k), or, after) && match or {
                    Err(e) => r == Err::<(Map<(AtomId, Seq<u8>), DomainModel>, Seq<((AtomId, Seq<u8>), RevisionModel)>), CoreError>(e),
                    Ok(None) => apply_outcome(state.insert(k, after), sealed, remote.drop_first(), pre, r),
                    Ok(Some(rev)) => apply_outcome(state.insert(k, after), sealed.push((k, rev@)), remote.drop_first(), pre, r),
                }
        } else {
            apply_outcome(state.insert(k, fresh_domain(g)), sealed, remote.drop_first(), pre, r)
        }
    }
}

/// The recovery state after one catch-up pass, with the evidence it observed.
#[derive(Debug)]
pub struct ObservedRecovery {
    pub recovery: LocalScalarRecoveryState,
    /// For each remote domain, the identities of the revisions that arrived.
    pub observed_revision_ids: Vec<(DomainKey, RevisionSet)>,
    /// The local revisions sealed at the observation boundary, per domain.
    pub sealed_local: Vec<(DomainKey, ScalarRevision)>,
}

pub open spec fn sealed_view(s: Seq<(DomainKey, ScalarRevision)>) -> Seq<((AtomId, Seq<u8>), RevisionModel)> {
    s.map_values(|p: (DomainKey, ScalarRevision)| (p.0@, p.1@))
}

pub open spec fn observed_result_view(r: Result<ObservedRecovery, CoreError>) -> Result<
    (Map<(AtomId, Seq<u8>), DomainModel>, Seq<((AtomId, Seq<u8>), RevisionModel)>),
    CoreError,
> {
    match r {
        Ok(o) => Ok((o.recovery@, sealed_view(o.sealed_local@))),
        Err(e) => Err(e),
    }
}

/// The identities of every revision of a register.
fn revision_ids(register: &ScalarRegister) -> (s: RevisionSet)
    ensures
        s@ == register@.dom(),
{
    let revisions = register.revisions();
    let mut ids: Vec<RevisionId> = Vec::new();
    let mut i: usize = 0;
    while i < revisions.len()
        invariant
            i <= revisions@.len(),
            ids@ == revisions@.take(i as int).map_values(|r: ScalarRevision| r.id),
        decreases revisions@.len() - i,
    {
        ids.push(revisions[i].id);
        assert(revisions@.take(i as int + 1).map_values(|r: ScalarRevision| r.id) =~= revisions@.take(i as int).map_values(
            |r: ScalarRevision| r.id,
        ).push(revisions@[i as int].id));
        i = i + 1;
    }
    let s = RevisionSet::from_ids(ids);
    proof {
        assert(revisions@.take(revisions@.len() as int) =~= revisions@);
        assert forall|k: RevisionId| s@.contains(k) <==> register@.dom().contains(k) by {
            if s@.contains(k) {
                let j = choose|j: int| 0 <= j < ids@.len() && ids@[j] == k;
                assert(revisions@[j].id == k);
                assert(crate::scalar::has_id(revisions@, k));
            }
            if register@.dom().contains(k) {
                assert(crate::scalar::has_id(revisions@, k));
                let j = choose|j: int| 0 <= j < revisions@.len() && #[trigger] revisions@[j].id == k;
                assert(ids@[j] == k);
            }
        }
        assert(s@ =~= register@.dom());
    }
    s
}

/// Observes the merged remote state of one pass, domain by domain, in a copy
/// of the recovery state: a known domain seals its dirty work under its
/// pre-observation identity and observes its remote state; an unknown domain
/// is added as it stands remotely, without local ownership. Nothing is
/// changed when a domain refuses the observation.
pub fn apply_remote_projection(
    recovery: &LocalScalarRecoveryState,
    remote: &Vec<(DomainKey, ScalarRegister)>,
    pre_observation: &Vec<(DomainKey, RevisionId)>,
) -> (r: Result<ObservedRecovery, CoreError>)
    ensures
        apply_outcome(recovery@, Seq::empty(), remote@, pre_observation@, observed_result_view(r)),
        r matches Ok(o) ==> o.observed_revision_ids@.len() == remote@.len() && forall|i: int|
            0 <= i < remote@.len() ==> (#[trigger] o.observed_revision_ids@[i]).0@ == remote@[i].0@
                && o.observed_revision_ids@[i].1@ == remote@[i].1@.dom(),
{
    let mut candidate = recovery.duplicate();
    let mut observed: Vec<(DomainKey, RevisionSet)> = Vec::new();
    let mut sealed: Vec<(DomainKey, ScalarRevision)> = Vec::new();
    let ghost s0 = recovery@;
    let mut i: usize = 0;
    proof {
        assert(remote@.subrange(0, remote@.len() as int) =~= remote@);
        assert(sealed_view(sealed@) =~= Seq::<((AtomId, Seq<u8>), RevisionModel)>::empty());
    }
    while i < remote.len()
        invariant
            i <= remote@.len(),
            s0 == recovery@,
            observed@.len() == i,
            forall|j: int| 0 <= j < i ==> (#[trigger] observed@[j]).0@ == remote@[j].0@ && observed@[j].1@
                == remote@[j].1@.dom(),
            forall|r: Result<(Map<(AtomId, Seq<u8>), DomainModel>, Seq<((AtomId, Seq<u8>), RevisionModel)>), CoreError>|
                #[trigger] apply_outcome(candidate@, sealed_view(sealed@), remote@.subrange(i as int, remote@.len() as int), pre_observation@, r)
                    ==> apply_outcome(s0, Seq::empty(), remote@, pre_observation@, r),
        decreases remote@.len() - i,
    {
        let ghost rest = remote@.subrange(i as int, remote@.len() as int);
        let ghost st = candidate@;
        let ghost sv = sealed_view(sealed@);
        let key = &remote[i].0;
        let reg = &remote[i].1;
        proof {
            assert(rest[0] == remote@[i as int]);
            assert(rest.drop_first() =~= remote@.subrange(i as int + 1, remote@.len() as int));
        }
        observed.push((key.duplicate(), revision_ids(reg)));
        match candidate.restore_domain(key) {
            Ok(Some(mut local)) => {
                let pre = find_pre(pre_observation, key);
                let ghost before = local@;
                let outcome = local.observe_remote(reg, pre);
                let ghost after = local@;
                proof {
                    assert(domain_observe(before, reg@, pre, outcome, after));
                }
                match outcome {
                    Err(e) => {
                        proof {
                            let r = Err::<(Map<(AtomId, Seq<u8>), DomainModel>, Seq<((AtomId, Seq<u8>), RevisionModel)>), CoreError>(e);
                            assert(apply_outcome(st, sv, rest, pre_observation@, r));
                            assert(apply_outcome(candidate@, sealed_view(sealed@), remote@.subrange(i as int, remote@.len() as int), pre_observation@, r));
                        }
                        return Err(e);
                    },
                    Ok(None) => {
                        let _ = candidate.replace_domain(key.duplicate(), local.snapshot());
                        proof {
                            assert forall|r| #[trigger] apply_outcome(candidate@, sealed_view(sealed@), remote@.subrange(i as int + 1, remote@.len() as int), pre_observation@, r)
                                implies apply_outcome(s0, Seq::empty(), remote@, pre_observation@, r) by {
                                assert(apply_outcome(st, sv, rest, pre_observation@, r));
                            }
                        }
                    },
                    Ok(Some(revision)) => {
                        let _ = candidate.replace_domain(key.duplicate(), local.snapshot());
                        let ghost rev = revision@;
                        sealed.push((key.duplicate(), revision));
                        proof {
                            assert(sealed_view(sealed@) =~= sv.push((key@, rev)));
                            assert forall|r| #[trigger] apply_outcome(candidate@, sealed_view(sealed@), remote@.subrange(i as int + 1, remote@.len() as int), pre_observation@, r)
                                implies apply_outcome(s0, Seq::empty(), remote@, pre_observation@, r) by {
                                assert(apply_outcome(st, sv, rest, pre_observation@, r));
                            }
                        }
                    },
                }
            },
            _ => {
                let fresh = match LocalScalarDomain::from_causal(reg.duplicate()) {
                    Ok(d) => d,
                    Err(e) => {
                        return Err(e);
                    },
                };
                let _ = candidate.insert_new(key.duplicate(), fresh.snapshot());
                proof {
                    assert forall|r| #[trigger] apply_outcome(candidate@, sealed_view(sealed@), remote@.subrange(i as int + 1, remote@.len() as int), pre_observation@, r)
                        implies apply_outcome(s0, Seq::empty(), remote@, pre_observation@, r) by {
                        assert(apply_outcome(st, sv, rest, pre_observation@, r));
                    }
                }
            },
        }
        i = i + 1;
    }
    proof {
        assert(remote@.subrange(i as int, remote@.len() as int) =~= Seq::<(DomainKey, ScalarRegister)>::empty());
        let r = Ok::<(Map<(AtomId, Seq<u8>), DomainModel>, Seq<((AtomId, Seq<u8>), RevisionModel)>), CoreError>((candidate@, sealed_view(sealed@)));
        assert(apply_outcome(candidate@, sealed_view(sealed@), remote@.subrange(i as int, remote@.len() as int), pre_observation@, r));
    }
    Ok(ObservedRecovery { recovery: candidate, observed_revision_ids: observed, sealed_local: sealed })
}

/// Why received remote state cannot be observed in a recovery state.
#[derive(Debug, Clone, PartialEq, Eq)]
pub enum RecoveryReceiveError {
    /// The received domain is not in the recovery state.
    MissingDomain,
    Core(CoreError),
}

/// Observes authenticated remote state for one domain in a copy of the
/// recovery state: the domain seals its dirty work under the
/// pre-observation identity and observes the remote state; every other
/// domain is left as it was. Gives the new state and the revision sealed at
/// the observation boundary, if any. The given state is not changed; the
/// caller keeps the result only once it is durable together with the new
/// transport cursor.
pub fn observe_received_domain(
    recovery: &LocalScalarRecoveryState,
    domain_key: &DomainKey,
    remote: &ScalarRegister,
    pre_observation_revision_id: Option<RevisionId>,
) -> (r: Result<(LocalScalarRecoveryState, Option<ScalarRevision>), RecoveryReceiveError>)
    ensures
        !recovery@.contains_key(domain_key@) ==> r == Err::<(LocalScalarRecoveryState, Option<ScalarRevision>), RecoveryReceiveError>(
            RecoveryReceiveError::MissingDomain,
        ),
        recovery@.contains_key(domain_key@) ==> exists|or: Result<Option<ScalarRevision>, CoreError>, after: DomainModel|
            #[trigger] domain_observe(recovery@[domain_key@], remote@, pre_observation_revision_id, or, after) && match or {
                Err(e) => r == Err::<(LocalScalarRecoveryState, Option<ScalarRevision>), RecoveryReceiveError>(RecoveryReceiveError::Core(e)),
                Ok(sealed) => r matches Ok((s, got)) && s@ == recovery@.insert(domain_key@, after) && got == sealed,
            },
{
    let mut candidate = recovery.duplicate();
    let mut local = match candidate.restore_domain(domain_key) {
        Ok(Some(d)) => d,
        _ => {
            return Err(RecoveryReceiveError::MissingDomain);
        },
    };
    let ghost before = local@;
    let outcome = local.observe_remote(remote, pre_observation_revision_id);
    proof {
        assert(domain_observe(before, remote@, pre_observation_revision_id, outcome, local@));
    }
    match outcome {
        Err(e) => Err(RecoveryReceiveError::Core(e)),
        Ok(sealed) => {
            let _ = candidate.replace_domain(domain_key.duplicate(), local.snapshot());
            Ok((candidate, sealed))
        },
    }
}

} // verus!

//! What a scalar publication carries.
//!
//! Only the causal dependency closure of the handed-off revisions is carried;
//! unrelated concurrent revisions of the same register stay out. The real
//! handoff rule, applied to a throwaway copy of the domain, decides whether
//! the revisions may be handed off at all, before any protected byte exists.
use vstd::prelude::*;

use crate::domain::{DomainModel, LocalScalarDomain};
use crate::error::CoreError;
use crate::finalization::{handoff_outcome, LedgerModel};
use crate::graph::{acyclic, closure, is_chain, parents_closed, reaches, valid_graph, Graph};
use crate::graph::{lemma_closure_step, lemma_edge_reaches, lemma_reaches_transitive};
use crate::id::{AtomId, RevisionId};
use crate::recovery_set::{DomainKey, LocalScalarRecoveryState};
use crate::idset::RevisionSet;
use crate::scalar::{
    conflict_at, conflict_free, entries_map, has_id, lemma_entries_map_at, lemma_sorted_distinct, sorted_revs,
    ScalarRegister, ScalarRevision,
};

verus! {

/// Why a publication cannot be prepared.
#[derive(Debug, Clone, PartialEq, Eq)]
pub enum HandoffSelectionError {
    EmptyRevisionSet,
    Core(CoreError),
}

/// What a chain of a sub-graph reaches from its `j`-th element, the graph
/// reaches too.
proof fn lemma_sub_reaches(m: Graph, sub: Graph, c: Seq<RevisionId>, j: int)
    requires
        forall|k: RevisionId| #[trigger] sub.contains_key(k) ==> m.contains_key(k) && sub[k] == m[k],
        is_chain(sub, c),
        0 <= j < c.len() - 1,
    ensures
        reaches(m, c[j], c.last()),
    decreases c.len() - j,
{
    crate::graph::lemma_chain_at(sub, c, j);
    assert(sub.contains_key(c[j]));
    lemma_edge_reaches(m, c[j], c[j + 1]);
    if j + 1 < c.len() - 1 {
        lemma_sub_reaches(m, sub, c, j + 1);
        lemma_reaches_transitive(m, c[j], c[j + 1], c.last());
    }
}

/// The part of a valid graph on a set closed under parents is a valid graph.
proof fn lemma_restrict_valid(m: Graph, s: Set<RevisionId>)
    requires
        valid_graph(m),
        forall|x: RevisionId, p: RevisionId|
            #[trigger] s.contains(x) && m.contains_key(x) && #[trigger] m[x].parents.contains(p) ==> s.contains(p),
    ensures
        valid_graph(m.restrict(s)),
{
    let sub = m.restrict(s);
    assert(sub.dom() =~= m.dom().intersect(s));
    assert(parents_closed(sub)) by {
        assert forall|k: RevisionId, p: RevisionId| #[trigger] sub.contains_key(k) && #[trigger] sub[k].parents.contains(p) implies sub.contains_key(p) by {
            assert(m.contains_key(k) && m[k].parents.contains(p));
        }
    }
    assert(acyclic(sub)) by {
        assert forall|x: RevisionId| !#[trigger] reaches(sub, x, x) by {
            if reaches(sub, x, x) {
                let c = choose|c: Seq<RevisionId>| is_chain(sub, c) && c.len() >= 2 && c[0] == x && c.last() == x;
                lemma_sub_reaches(m, sub, c, 0);
            }
        }
    }
}

/// Copies a list of identities.
fn copy_ids(ids: &Vec<RevisionId>) -> (r: Vec<RevisionId>)
    ensures
        r@ == ids@,
{
    let mut r: Vec<RevisionId> = Vec::new();
    let mut i: usize = 0;
    while i < ids.len()
        invariant
            i <= ids@.len(),
            r@ == ids@.take(i as int),
        decreases ids@.len() - i,
    {
        r.push(ids[i]);
        assert(ids@.take(i as int + 1) =~= ids@.take(i as int).push(ids@[i as int]));
        i = i + 1;
    }
    assert(ids@.take(ids@.len() as int) =~= ids@);
    r
}

/// `x` is, with its contents, a statement of `all` before `n` whose identity
/// lies in `s`.
pub open spec fn picked_from(x: ScalarRevision, all: Seq<ScalarRevision>, s: Set<RevisionId>, n: int) -> bool {
    exists|b: int| 0 <= b < n && #[trigger] all[b]@ == x@ && s.contains(all[b].id)
}

/// `y` is, with its contents, among `r`.
pub open spec fn kept_in(y: ScalarRevision, r: Seq<ScalarRevision>) -> bool {
    exists|a: int| 0 <= a < r.len() && #[trigger] r[a]@ == y@
}

/// `r` holds, with their contents, exactly the statements of `all` whose
/// identities lie in `s`, among those before `n`.
pub open spec fn selects(r: Seq<ScalarRevision>, all: Seq<ScalarRevision>, s: Set<RevisionId>, n: int) -> bool {
    &&& forall|a: int| 0 <= a < r.len() ==> #[trigger] picked_from(r[a], all, s, n)
    &&& forall|b: int| 0 <= b < n && s.contains(all[b].id) ==> #[trigger] kept_in(all[b], r)
}

/// Selecting from a sorted list gives its graph restricted to the set.
proof fn lemma_selects_restrict(r: Seq<ScalarRevision>, all: Seq<ScalarRevision>, s: Set<RevisionId>)
    requires
        sorted_revs(all),
        sorted_revs(r),
        selects(r, all, s, all.len() as int),
    ensures
        entries_map(r) == entries_map(all).restrict(s),
{
    let m = entries_map(all);
    let e = entries_map(r);
    assert forall|k: RevisionId| #[trigger] e.contains_key(k) <==> m.restrict(s).contains_key(k) by {
        if e.contains_key(k) {
            let a = choose|a: int| 0 <= a < r.len() && #[trigger] r[a].id == k;
            assert(picked_from(r[a], all, s, all.len() as int));
            let b = choose|b: int| 0 <= b < all.len() && #[trigger] all[b]@ == r[a]@ && s.contains(all[b].id);
            assert(all[b].id == k);
            assert(has_id(all, k));
        }
        if m.restrict(s).contains_key(k) {
            let b = choose|b: int| 0 <= b < all.len() && #[trigger] all[b].id == k;
            assert(kept_in(all[b], r));
            let a = choose|a: int| 0 <= a < r.len() && #[trigger] r[a]@ == all[b]@;
            assert(r[a].id == k);
            assert(has_id(r, k));
        }
    }
    assert forall|k: RevisionId| #[trigger] e.contains_key(k) implies e[k] == m.restrict(s)[k] by {
        let a = choose|a: int| 0 <= a < r.len() && #[trigger] r[a].id == k;
        assert(picked_from(r[a], all, s, all.len() as int));
        let b = choose|b: int| 0 <= b < all.len() && #[trigger] all[b]@ == r[a]@ && s.contains(all[b].id);
        assert(all[b].id == k);
        lemma_entries_map_at(r, a);
        lemma_entries_map_at(all, b);
    }
    assert(e =~= m.restrict(s));
}

/// The statements of a sorted list whose identities lie in `s`, in order.
fn statements_in(revisions: &Vec<ScalarRevision>, s: &RevisionSet) -> (r: Vec<ScalarRevision>)
    requires
        sorted_revs(revisions@),
    ensures
        sorted_revs(r@),
        entries_map(r@) == entries_map(revisions@).restrict(s@),
{
    let mut r: Vec<ScalarRevision> = Vec::new();
    let mut i: usize = 0;
    while i < revisions.len()
        invariant
            i <= revisions@.len(),
            sorted_revs(revisions@),
            sorted_revs(r@),
            selects(r@, revisions@, s@, i as int),
        decreases revisions@.len() - i,
    {
        if s.contains(&revisions[i].id) {
            let ghost before = r@;
            let copy = revisions[i].duplicate();
            r.push(copy);
            proof {
                lemma_select_push(before, revisions@, s@, i as int, copy);
            }
        } else {
            proof {
                lemma_select_skip(r@, revisions@, s@, i as int);
            }
        }
        i = i + 1;
    }
    proof {
        lemma_selects_restrict(r@, revisions@, s@);
    }
    r
}

proof fn lemma_select_push(before: Seq<ScalarRevision>, all: Seq<ScalarRevision>, s: Set<RevisionId>, i: int, copy: ScalarRevision)
    requires
        0 <= i < all.len(),
        sorted_revs(all),
        sorted_revs(before),
        selects(before, all, s, i),
        copy@ == all[i]@,
        s.contains(all[i].id),
    ensures
        sorted_revs(before.push(copy)),
        selects(before.push(copy), all, s, i + 1),
{
    let r = before.push(copy);
    assert forall|a: int, c: int| 0 <= a < c < r.len() implies crate::idset::rid_lt(#[trigger] r[a].id, #[trigger] r[c].id) by {
        assert(r[a] == before[a]);
        if c == before.len() {
            assert(picked_from(before[a], all, s, i));
            let b = choose|b: int| 0 <= b < i && #[trigger] all[b]@ == before[a]@ && s.contains(all[b].id);
            assert(before[a].id == all[b].id);
        } else {
            assert(r[c] == before[c]);
        }
    }
    assert forall|a: int| 0 <= a < r.len() implies #[trigger] picked_from(r[a], all, s, i + 1) by {
        if a < before.len() {
            assert(r[a] == before[a]);
            assert(picked_from(before[a], all, s, i));
            let b = choose|b: int| 0 <= b < i && #[trigger] all[b]@ == before[a]@ && s.contains(all[b].id);
            assert(all[b]@ == r[a]@);
        } else {
            assert(r[a] == copy);
            assert(all[i]@ == r[a]@);
        }
    }
    assert forall|b: int| 0 <= b < i + 1 && s.contains(all[b].id) implies #[trigger] kept_in(all[b], r) by {
        if b < i {
            assert(kept_in(all[b], before));
            let a = choose|a: int| 0 <= a < before.len() && #[trigger] before[a]@ == all[b]@;
            assert(r[a] == before[a]);
            assert(r[a]@ == all[b]@);
        } else {
            assert(r[before.len() as int] == copy);
            assert(r[before.len() as int]@ == all[b]@);
        }
    }
}

proof fn lemma_select_skip(r: Seq<ScalarRevision>, all: Seq<ScalarRevision>, s: Set<RevisionId>, i: int)
    requires
        0 <= i < all.len(),
        selects(r, all, s, i),
        !s.contains(all[i].id),
    ensures
        selects(r, all, s, i + 1),
{
    assert forall|a: int| 0 <= a < r.len() implies #[trigger] picked_from(r[a], all, s, i + 1) by {
        assert(picked_from(r[a], all, s, i));
        let b = choose|b: int| 0 <= b < i && #[trigger] all[b]@ == r[a]@ && s.contains(all[b].id);
        assert(all[b]@ == r[a]@);
    }
    assert forall|b: int| 0 <= b < i + 1 && s.contains(all[b].id) implies #[trigger] kept_in(all[b], r) by {
        assert(b < i);
    }
}

/// What selecting `direct` for a publication of a domain gives: a refusal
/// of an empty selection, the handoff rule's refusal, or the part of the
/// causal state on the dependency closure of the selection.
pub open spec fn selection_outcome(d: DomainModel, direct: Seq<RevisionId>, r: Result<Graph, HandoffSelectionError>) -> bool {
    if direct.len() == 0 {
        r == Err::<Graph, HandoffSelectionError>(HandoffSelectionError::EmptyRevisionSet)
    } else {
        exists|hr: Result<(), CoreError>, after: LedgerModel| #[trigger]
            handoff_outcome(d.ledger, d.working.causal, direct, hr, after) && match hr {
                Err(e) => r == Err::<Graph, HandoffSelectionError>(HandoffSelectionError::Core(e)),
                Ok(_) => r == Ok::<Graph, HandoffSelectionError>(d.working.causal.restrict(closure(d.working.causal, direct.to_set()))),
            }
    }
}

pub open spec fn selection_view(r: Result<(RevisionSet, ScalarRegister), HandoffSelectionError>) -> Result<Graph, HandoffSelectionError> {
    match r {
        Ok((_, reg)) => Ok(reg@),
        Err(e) => Err(e),
    }
}

/// Checks that the revisions may be handed off and selects what their
/// publication carries: the named identities, and the part of the causal
/// state on their dependency closure.
pub fn select_handoff_closure(
    domain: &LocalScalarDomain,
    revision_ids: Vec<RevisionId>,
) -> (r: Result<(RevisionSet, ScalarRegister), HandoffSelectionError>)
    ensures
        selection_outcome(domain@, revision_ids@, selection_view(r)),
        r matches Ok((ids, _)) ==> ids@ == revision_ids@.to_set(),
{
    if revision_ids.len() == 0 {
        return Err(HandoffSelectionError::EmptyRevisionSet);
    }
    let ids = RevisionSet::from_ids(copy_ids(&revision_ids));
    let ghost direct = revision_ids@;
    let mut candidate = domain.clone();
    let checked = candidate.handoff(revision_ids);
    let ghost after = candidate@.ledger;
    if let Err(e) = checked {
        proof {
            assert(handoff_outcome(domain@.ledger, domain@.working.causal, direct, checked, after));
        }
        return Err(HandoffSelectionError::Core(e));
    }
    let causal = domain.causal();
    let closure_ids = match causal.dependency_closure(&ids) {
        Ok(c) => c,
        Err(e) => {
            return Err(HandoffSelectionError::Core(e));
        },
    };
    let revisions = causal.revisions();
    let selected = statements_in(revisions, &closure_ids);
    proof {
        let m = causal@;
        let s = closure_ids@;
        assert forall|x: RevisionId, p: RevisionId| #[trigger] s.contains(x) && m.contains_key(x) && #[trigger] m[x].parents.contains(p) implies s.contains(p) by {
            lemma_closure_step(m, ids@, x, p);
        }
        lemma_restrict_valid(m, s);
        assert(conflict_free(selected@)) by {
            assert forall|i: int, j: int| 0 <= i < j < selected@.len() && #[trigger] selected@[i].id == #[trigger] selected@[j].id implies selected@[i]@ == selected@[j]@ by {
                lemma_sorted_distinct(selected@, i, j);
            }
        }
        assert(!exists|j: int| conflict_at(selected@, j));
    }
    let register = match ScalarRegister::from_revisions(selected) {
        Ok(reg) => reg,
        Err(e) => {
            return Err(HandoffSelectionError::Core(e));
        },
    };
    proof {
        assert(handoff_outcome(domain@.ledger, domain@.working.causal, direct, checked, after));
    }
    Ok((ids, register))
}

/// Why a multi-domain publication cannot be prepared.
#[derive(Debug, Clone, PartialEq, Eq)]
pub enum RecoverySelectionError {
    EmptySelection,
    EmptyRevisionSet { domain_key: DomainKey },
    MissingDomain { domain_key: DomainKey },
    Core(CoreError),
}

/// A refusal with the key it names taken by its view.
pub ghost enum SelectionFault {
    EmptySelection,
    EmptyRevisionSet((AtomId, Seq<u8>)),
    MissingDomain((AtomId, Seq<u8>)),
    Core(CoreError),
}

pub open spec fn fault_view(e: RecoverySelectionError) -> SelectionFault {
    match e {
        RecoverySelectionError::EmptySelection => SelectionFault::EmptySelection,
        RecoverySelectionError::EmptyRevisionSet { domain_key } => SelectionFault::EmptyRevisionSet(domain_key@),
        RecoverySelectionError::MissingDomain { domain_key } => SelectionFault::MissingDomain(domain_key@),
        RecoverySelectionError::Core(c) => SelectionFault::Core(c),
    }
}

/// What selecting, domain by domain in the order given, gives from the
/// domains `state`, the parts selected so far being `acc`.
pub open spec fn domains_selection_outcome(
    state: Map<(AtomId, Seq<u8>), DomainModel>,
    selections: Seq<(DomainKey, Vec<RevisionId>)>,
    acc: Seq<((AtomId, Seq<u8>), Graph)>,
    r: Result<Seq<((AtomId, Seq<u8>), Graph)>, SelectionFault>,
) -> bool
    decreases selections.len(),
{
    if selections.len() == 0 {
        r == Ok::<Seq<((AtomId, Seq<u8>), Graph)>, SelectionFault>(acc)
    } else {
        let k = selections[0].0@;
        let direct = selections[0].1@;
        if direct.len() == 0 {
            r == Err::<Seq<((AtomId, Seq<u8>), Graph)>, SelectionFault>(SelectionFault::EmptyRevisionSet(k))
        } else if !state.contains_key(k) {
            r == Err::<Seq<((AtomId, Seq<u8>), Graph)>, SelectionFault>(SelectionFault::MissingDomain(k))
        } else {
            exists|dr: Result<Graph, HandoffSelectionError>| #[trigger] selection_outcome(state[k], direct, dr) && match dr {
                Ok(g) => domains_selection_outcome(state, selections.drop_first(), acc.push((k, g)), r),
                Err(HandoffSelectionError::Core(e)) => r == Err::<Seq<((AtomId, Seq<u8>), Graph)>, SelectionFault>(SelectionFault::Core(e)),
                Err(HandoffSelectionError::EmptyRevisionSet) => false,
            }
        }
    }
}

/// Selected parts taken by their views.
pub open spec fn projected_parts(v: Seq<(DomainKey, ScalarRegister)>) -> Seq<((AtomId, Seq<u8>), Graph)> {
    v.map_values(|p: (DomainKey, ScalarRegister)| (p.0@, p.1@))
}

pub open spec fn projection_view(r: Result<Vec<(DomainKey, ScalarRegister)>, RecoverySelectionError>) -> Result<
    Seq<((AtomId, Seq<u8>), Graph)>,
    SelectionFault,
> {
    match r {
        Ok(v) => Ok(projected_parts(v@)),
        Err(e) => Err(fault_view(e)),
    }
}

/// Selects what a publication carries for several domains of a recovery
/// state: for each selected domain, in the order given, the handoff rule is
/// checked on a copy of that domain and the part of its causal state on the
/// dependency closure of its selection is taken. An empty selection, an
/// empty per-domain selection and an unknown domain are refused.
pub fn select_recovery_handoff(
    recovery: &LocalScalarRecoveryState,
    selections: &Vec<(DomainKey, Vec<RevisionId>)>,
) -> (r: Result<Vec<(DomainKey, ScalarRegister)>, RecoverySelectionError>)
    ensures
        selections@.len() == 0 ==> r matches Err(RecoverySelectionError::EmptySelection),
        selections@.len() > 0 ==> domains_selection_outcome(recovery@, selections@, Seq::empty(), projection_view(r)),
{
    if selections.len() == 0 {
        return Err(RecoverySelectionError::EmptySelection);
    }
    let mut projected: Vec<(DomainKey, ScalarRegister)> = Vec::new();
    let ghost st = recovery@;
    let mut i: usize = 0;
    proof {
        assert(selections@.subrange(0, selections@.len() as int) =~= selections@);
        assert(projected_parts(projected@) =~= Seq::<((AtomId, Seq<u8>), Graph)>::empty());
    }
    while i < selections.len()
        invariant
            i <= selections@.len(),
            st == recovery@,
            forall|r: Result<Seq<((AtomId, Seq<u8>), Graph)>, SelectionFault>| #[trigger] domains_selection_outcome(
                st,
                selections@.subrange(i as int, selections@.len() as int),
                projected_parts(projected@),
                r,
            ) ==> domains_selection_outcome(st, selections@, Seq::empty(), r),
        decreases selections@.len() - i,
    {
        let ghost rest = selections@.subrange(i as int, selections@.len() as int);
        let ghost acc = projected_parts(projected@);
        proof {
            assert(rest[0] == selections@[i as int]);
            assert(rest.drop_first() =~= selections@.subrange(i as int + 1, selections@.len() as int));
        }
        let key = &selections[i].0;
        let chosen = &selections[i].1;
        if chosen.len() == 0 {
            let e = RecoverySelectionError::EmptyRevisionSet { domain_key: key.duplicate() };
            proof {
                assert(domains_selection_outcome(st, rest, acc, Err(fault_view(e))));
            }
            return Err(e);
        }
        let domain = match recovery.restore_domain(key) {
            Ok(Some(d)) => d,
            _ => {
                let e = RecoverySelectionError::MissingDomain { domain_key: key.duplicate() };
                proof {
                    assert(domains_selection_outcome(st, rest, acc, Err(fault_view(e))));
                }
                return Err(e);
            },
        };
        let selected = select_handoff_closure(&domain, copy_ids(chosen));
        match selected {
            Err(HandoffSelectionError::Core(e)) => {
                proof {
                    let r = Err::<Seq<((AtomId, Seq<u8>), Graph)>, SelectionFault>(SelectionFault::Core(e));
                    assert(selection_outcome(st[key@], chosen@, selection_view(selected)));
                    assert(domains_selection_outcome(st, rest, acc, r));
                }
                return Err(RecoverySelectionError::Core(e));
            },
            Err(HandoffSelectionError::EmptyRevisionSet) => {
                return Err(RecoverySelectionError::EmptyRevisionSet { domain_key: key.duplicate() });
            },
            Ok((_, register)) => {
                let ghost g = register@;
                projected.push((key.duplicate(), register));
                proof {
                    assert(selection_outcome(st[key@], chosen@, Ok::<Graph, HandoffSelectionError>(g)));
                    assert(projected_parts(projected@) =~= acc.push((key@, g)));
                    assert forall|r: Result<Seq<((AtomId, Seq<u8>), Graph)>, SelectionFault>| #[trigger] domains_selection_outcome(
                        st,
                        selections@.subrange(i as int + 1, selections@.len() as int),
                        projected_parts(projected@),
                        r,
                    ) implies domains_selection_outcome(st, selections@, Seq::empty(), r) by {
                        assert(domains_selection_outcome(st, rest, acc, r));
                    }
                }
            },
        }
        i = i + 1;
    }
    proof {
        let r = Ok::<Seq<((AtomId, Seq<u8>), Graph)>, SelectionFault>(projected_parts(projected@));
        assert(selections@.subrange(i as int, selections@.len() as int) =~= Seq::<(DomainKey, Vec<RevisionId>)>::empty());
        assert(domains_selection_outcome(st, selections@.subrange(i as int, selections@.len() as int), projected_parts(projected@), r));
    }
    Ok(projected)
}

/// Why staging a multi-domain handoff is refused.
#[derive(Debug, Clone, PartialEq, Eq)]
pub enum RecoveryHandoffStageError {
    MissingDomain { domain_key: DomainKey },
    Core(CoreError),
}

/// A staging refusal with the key it names taken by its view.
pub ghost enum StageFault {
    MissingDomain((AtomId, Seq<u8>)),
    Core(CoreError),
}

pub open spec fn stage_view(r: Result<LocalScalarRecoveryState, RecoveryHandoffStageError>) -> Result<
    Map<(AtomId, Seq<u8>), DomainModel>,
    StageFault,
> {
    match r {
        Ok(s) => Ok(s@),
        Err(RecoveryHandoffStageError::MissingDomain { domain_key }) => Err(StageFault::MissingDomain(domain_key@)),
        Err(RecoveryHandoffStageError::Core(e)) => Err(StageFault::Core(e)),
    }
}

/// What recording a handoff, domain by domain in the order given, does to
/// the domains `state`: each selected domain must exist, and its handoff
/// rule decides; the first refusal is the outcome and nothing is kept.
pub open spec fn stage_outcome(
    state: Map<(AtomId, Seq<u8>), DomainModel>,
    selections: Seq<(DomainKey, Vec<RevisionId>)>,
    r: Result<Map<(AtomId, Seq<u8>), DomainModel>, StageFault>,
) -> bool
    decreases selections.len(),
{
    if selections.len() == 0 {
        r == Ok::<Map<(AtomId, Seq<u8>), DomainModel>, StageFault>(state)
    } else {
        let k = selections[0].0@;
        let direct = selections[0].1@;
        if !state.contains_key(k) {
            r == Err::<Map<(AtomId, Seq<u8>), DomainModel>, StageFault>(StageFault::MissingDomain(k))
        } else {
            exists|hr: Result<(), CoreError>, after: LedgerModel| #[trigger]
                handoff_outcome(state[k].ledger, state[k].working.causal, direct, hr, after) && match hr {
                    Ok(()) => stage_outcome(
                        state.insert(k, DomainModel { working: state[k].working, ledger: after }),
                        selections.drop_first(),
                        r,
                    ),
                    Err(e) => r == Err::<Map<(AtomId, Seq<u8>), DomainModel>, StageFault>(StageFault::Core(e)),
                }
        }
    }
}

/// The recovery state after recording a prepared multi-domain handoff: for
/// each selected domain, in the order given, the handoff rule records its
/// exposure and handoff markers, every other domain is left as it was. The
/// given state is not changed; the caller keeps the result only once it is
/// durable.
pub fn stage_recovery_handoff(
    recovery: &LocalScalarRecoveryState,
    selections: &Vec<(DomainKey, Vec<RevisionId>)>,
) -> (r: Result<LocalScalarRecoveryState, RecoveryHandoffStageError>)
    ensures
        stage_outcome(recovery@, selections@, stage_view(r)),
{
    let mut candidate = recovery.duplicate();
    let ghost st = recovery@;
    let mut i: usize = 0;
    proof {
        assert(selections@.subrange(0, selections@.len() as int) =~= selections@);
    }
    while i < selections.len()
        invariant
            i <= selections@.len(),
            st == recovery@,
            forall|r: Result<Map<(AtomId, Seq<u8>), DomainModel>, StageFault>| #[trigger] stage_outcome(
                candidate@,
                selections@.subrange(i as int, selections@.len() as int),
                r,
            ) ==> stage_outcome(st, selections@, r),
        decreases selections@.len() - i,
    {
        let ghost rest = selections@.subrange(i as int, selections@.len() as int);
        let ghost cur = candidate@;
        proof {
            assert(rest[0] == selections@[i as int]);
            assert(rest.drop_first() =~= selections@.subrange(i as int + 1, selections@.len() as int));
        }
        let key = &selections[i].0;
        let mut domain = match candidate.restore_domain(key) {
            Ok(Some(d)) => d,
            _ => {
                let e = RecoveryHandoffStageError::MissingDomain { domain_key: key.duplicate() };
                proof {
                    assert(stage_outcome(cur, rest, stage_view(Err(e))));
                }
                return Err(e);
            },
        };
        let ghost before = domain@;
        let handed = domain.handoff(copy_ids(&selections[i].1));
        match handed {
            Err(e) => {
                proof {
                    assert(handoff_outcome(before.ledger, before.working.causal, selections@[i as int].1@, handed, domain@.ledger));
                    assert(stage_outcome(cur, rest, Err(StageFault::Core(e))));
                }
                return Err(RecoveryHandoffStageError::Core(e));
            },
            Ok(()) => {},
        }
        let replaced = candidate.replace_domain(key.duplicate(), domain.snapshot());
        proof {
            assert(replaced is Ok);
            assert(handoff_outcome(before.ledger, before.working.causal, selections@[i as int].1@, handed, domain@.ledger));
            assert(domain@ == (DomainModel { working: cur[key@].working, ledger: domain@.ledger }));
            assert forall|r: Result<Map<(AtomId, Seq<u8>), DomainModel>, StageFault>| #[trigger] stage_outcome(
                candidate@,
                selections@.subrange(i as int + 1, selections@.len() as int),
                r,
            ) implies stage_outcome(st, selections@, r) by {
                assert(stage_outcome(cur, rest, r));
            }
        }
        i = i + 1;
    }
    proof {
        assert(selections@.subrange(i as int, selections@.len() as int) =~= Seq::<(DomainKey, Vec<RevisionId>)>::empty());
        assert(stage_outcome(candidate@, selections@.subrange(i as int, selections@.len() as int), Ok(candidate@)));
    }
    Ok(candidate)
}

} // verus!

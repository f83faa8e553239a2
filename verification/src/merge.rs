//! Deterministic state merge for one semantic merge unit.
//!
//! A merge unit of the portable core satisfies the merge laws: the merge is
//! a function of the two states, and it is commutative, associative and
//! idempotent.
use vstd::prelude::*;

use crate::error::CoreError;
use crate::graph::{
    first_conflict, lemma_merge_associative, lemma_merge_commutative, lemma_merge_idempotent,
    merge_graphs, Graph,
};
use crate::id::RevisionId;
use crate::order::{lemma_lex_total, lex_lt};
use crate::scalar::ScalarRegister;

verus! {

/// Deterministic state merge for one semantic merge unit.
pub trait MergeState: Sized + View {
    /// The merged state of two states; none when the merge is refused.
    spec fn merge_spec(a: Self::V, b: Self::V) -> Option<Self::V>;

    /// The error that reports a refused merge.
    spec fn merge_error(a: Self::V, b: Self::V) -> CoreError;

    /// Merges two states.
    fn merge_state(&self, other: &Self) -> (r: Result<Self, CoreError>)
        ensures
            match r {
                Ok(m) => Self::merge_spec(self@, other@) == Some(m@),
                Err(e) => Self::merge_spec(self@, other@) is None && e == Self::merge_error(self@, other@),
            },
    ;

    /// A copy of the same state; merge composition copies the states it
    /// keeps.
    fn copy_state(&self) -> (r: Self)
        ensures
            r@ == self@,
    ;
}

/// The merge of `S` is commutative.
pub open spec fn merge_commutes<S: MergeState>() -> bool {
    forall|a: S::V, b: S::V| #[trigger] S::merge_spec(a, b) == S::merge_spec(b, a)
}

/// Merging a state of `S` with itself gives it back.
pub open spec fn merge_idempotent<S: MergeState>() -> bool {
    forall|a: S::V| #[trigger] S::merge_spec(a, a) == Some(a)
}

/// Merging `a`, `b`, `c` left to right, refused when a step is refused.
pub open spec fn merge_left<S: MergeState>(a: S::V, b: S::V, c: S::V) -> Option<S::V> {
    match S::merge_spec(a, b) {
        Some(ab) => S::merge_spec(ab, c),
        None => None,
    }
}

/// Merging `a` with the merge of `b` and `c`, refused when a step is refused.
pub open spec fn merge_right<S: MergeState>(a: S::V, b: S::V, c: S::V) -> Option<S::V> {
    match S::merge_spec(b, c) {
        Some(bc) => S::merge_spec(a, bc),
        None => None,
    }
}

/// The merge of `S` is associative.
pub open spec fn merge_associates<S: MergeState>() -> bool {
    forall|a: S::V, b: S::V, c: S::V| #[trigger] merge_left::<S>(a, b, c) == merge_right::<S>(a, b, c)
}

/// The canonically smallest identity on which two graphs disagree.
pub open spec fn scalar_conflict(a: Graph, b: Graph) -> RevisionId {
    choose|k: RevisionId| first_conflict(a, b, k)
}

/// Two graphs have at most one first conflict.
pub proof fn lemma_first_conflict_unique(a: Graph, b: Graph, k1: RevisionId, k2: RevisionId)
    requires
        first_conflict(a, b, k1),
        first_conflict(a, b, k2),
    ensures
        k1 == k2,
{
    lemma_lex_total(k1@, k2@);
    RevisionId::lemma_view_injective(k1, k2);
}

impl MergeState for ScalarRegister {
    open spec fn merge_spec(a: Graph, b: Graph) -> Option<Graph> {
        merge_graphs(a, b)
    }

    open spec fn merge_error(a: Graph, b: Graph) -> CoreError {
        CoreError::DuplicateRevisionConflict { revision_id: scalar_conflict(a, b) }
    }

    fn merge_state(&self, other: &Self) -> (r: Result<Self, CoreError>) {
        let r = self.merge(other);
        proof {
            if r is Err {
                let e = r->Err_0;
                let k = choose|k: RevisionId| e == (CoreError::DuplicateRevisionConflict { revision_id: k })
                    && first_conflict(self@, other@, k);
                lemma_first_conflict_unique(self@, other@, k, scalar_conflict(self@, other@));
            }
        }
        r
    }

    fn copy_state(&self) -> (r: Self) {
        self.duplicate()
    }
}

/// The scalar register satisfies the merge laws.
pub proof fn lemma_scalar_merge_laws()
    ensures
        merge_commutes::<ScalarRegister>(),
        merge_idempotent::<ScalarRegister>(),
        merge_associates::<ScalarRegister>(),
{
    assert forall|a: Graph, b: Graph| #[trigger] ScalarRegister::merge_spec(a, b) == ScalarRegister::merge_spec(b, a) by {
        lemma_merge_commutative(a, b);
    }
    assert forall|a: Graph| #[trigger] ScalarRegister::merge_spec(a, a) == Some(a) by {
        lemma_merge_idempotent(a);
    }
    assert forall|a: Graph, b: Graph, c: Graph| #[trigger] merge_left::<ScalarRegister>(a, b, c) == merge_right::<ScalarRegister>(a, b, c) by {
        lemma_merge_associative(a, b, c);
    }
}

} // verus!

//! Canonical unsigned lexicographic byte ordering.
//!
//! Every opaque identity of the library is ordered by its bytes, compared as
//! unsigned values from the first byte onward, with a proper prefix ordered
//! before any of its extensions. The order is only a deterministic tie-break and
//! never a clock.
use vstd::prelude::*;

verus! {

/// Length of the longest common prefix of `a` and `b`.
pub open spec fn common_prefix_len(a: Seq<u8>, b: Seq<u8>) -> nat
    decreases a.len(),
{
    if a.len() == 0 || b.len() == 0 || a[0] != b[0] {
        0
    } else {
        1 + common_prefix_len(a.drop_first(), b.drop_first())
    }
}

/// Strict canonical order on byte sequences.
pub open spec fn lex_lt(a: Seq<u8>, b: Seq<u8>) -> bool {
    let k = common_prefix_len(a, b);
    ||| (k < a.len() && k < b.len() && a[k as int] < b[k as int])
    ||| (k == a.len() && k < b.len())
}

/// Characterisation of the common prefix length.
pub proof fn lemma_common_prefix(a: Seq<u8>, b: Seq<u8>)
    ensures
        common_prefix_len(a, b) <= a.len(),
        common_prefix_len(a, b) <= b.len(),
        forall|j: int| 0 <= j < common_prefix_len(a, b) ==> a[j] == b[j],
        common_prefix_len(a, b) < a.len() && common_prefix_len(a, b) < b.len() ==> a[
            common_prefix_len(a, b) as int] != b[common_prefix_len(a, b) as int],
    decreases a.len(),
{
    if a.len() == 0 || b.len() == 0 || a[0] != b[0] {
    } else {
        lemma_common_prefix(a.drop_first(), b.drop_first());
        let k = common_prefix_len(a, b);
        assert forall|j: int| 0 <= j < k implies a[j] == b[j] by {
            if j > 0 {
                assert(a.drop_first()[j - 1] == a[j]);
                assert(b.drop_first()[j - 1] == b[j]);
            }
        }
        if k < a.len() && k < b.len() {
            assert(a.drop_first()[k - 1] == a[k as int]);
            assert(b.drop_first()[k - 1] == b[k as int]);
        }
    }
}

/// The common prefix length is the unique index with the characterising
/// properties.
pub proof fn lemma_common_prefix_unique(a: Seq<u8>, b: Seq<u8>, k: nat)
    requires
        k <= a.len(),
        k <= b.len(),
        forall|j: int| 0 <= j < k ==> a[j] == b[j],
        k < a.len() && k < b.len() ==> a[k as int] != b[k as int],
    ensures
        common_prefix_len(a, b) == k,
    decreases a.len(),
{
    if a.len() == 0 || b.len() == 0 {
    } else if a[0] != b[0] {
        if k > 0 {
            assert(a[0] == b[0]);
        }
    } else {
        if k == 0 {
            assert(a[0] != b[0]);
        } else {
            let a1 = a.drop_first();
            let b1 = b.drop_first();
            assert forall|j: int| 0 <= j < (k - 1) as nat implies a1[j] == b1[j] by {
                assert(a[j + 1] == b[j + 1]);
            }
            if (k - 1) < a1.len() && (k - 1) < b1.len() {
                assert(a1[k - 1] == a[k as int]);
                assert(b1[k - 1] == b[k as int]);
            }
            lemma_common_prefix_unique(a1, b1, (k - 1) as nat);
        }
    }
}

pub proof fn lemma_lex_irreflexive(a: Seq<u8>)
    ensures
        !lex_lt(a, a),
{
    lemma_common_prefix(a, a);
    lemma_common_prefix_unique(a, a, a.len());
}

pub proof fn lemma_lex_equal_prefix(a: Seq<u8>, b: Seq<u8>)
    requires
        a.len() == b.len(),
        common_prefix_len(a, b) == a.len(),
    ensures
        a == b,
{
    lemma_common_prefix(a, b);
    assert(a =~= b);
}

/// Trichotomy of the canonical order.
pub proof fn lemma_lex_total(a: Seq<u8>, b: Seq<u8>)
    ensures
        a == b || lex_lt(a, b) || lex_lt(b, a),
        !(lex_lt(a, b) && lex_lt(b, a)),
        lex_lt(a, b) ==> a != b,
{
    lemma_common_prefix(a, b);
    lemma_common_prefix(b, a);
    let k = common_prefix_len(a, b);
    assert forall|j: int| 0 <= j < k implies b[j] == a[j] by {}
    lemma_common_prefix_unique(b, a, k);
    if k == a.len() && k == b.len() {
        assert(a =~= b);
    }
    if lex_lt(a, b) {
        lemma_lex_irreflexive(a);
    }
}

/// Transitivity of the canonical order.
pub proof fn lemma_lex_transitive(a: Seq<u8>, b: Seq<u8>, c: Seq<u8>)
    requires
        lex_lt(a, b),
        lex_lt(b, c),
    ensures
        lex_lt(a, c),
{
    lemma_common_prefix(a, b);
    lemma_common_prefix(b, c);
    lemma_common_prefix(a, c);
    let k1 = common_prefix_len(a, b);
    let k2 = common_prefix_len(b, c);
    if k1 < k2 {
        assert forall|j: int| 0 <= j < k1 implies a[j] == c[j] by {}
        if k1 < a.len() {
            assert(a[k1 as int] < b[k1 as int]);
            assert(b[k1 as int] == c[k1 as int]);
            lemma_common_prefix_unique(a, c, k1);
        } else {
            lemma_common_prefix_unique(a, c, k1);
        }
    } else if k2 < k1 {
        assert forall|j: int| 0 <= j < k2 implies a[j] == c[j] by {}
        assert(a[k2 as int] == b[k2 as int]);
        lemma_common_prefix_unique(a, c, k2);
    } else {
        assert forall|j: int| 0 <= j < k1 implies a[j] == c[j] by {}
        if k1 < a.len() {
            assert(a[k1 as int] < b[k1 as int]);
            assert(b[k1 as int] < c[k1 as int]);
            lemma_common_prefix_unique(a, c, k1);
        } else {
            lemma_common_prefix_unique(a, c, k1);
        }
    }
}

/// Three-way comparison of two byte slices in the canonical order: a negative
/// result when `a` comes first, zero when they are equal, positive otherwise.
pub fn compare_bytes(a: &[u8], b: &[u8]) -> (r: i8)
    ensures
        (r == 0) == (a@ == b@),
        (r < 0) == lex_lt(a@, b@),
        (r > 0) == lex_lt(b@, a@),
{
    let mut i: usize = 0;
    while i < a.len() && i < b.len() && a[i] == b[i]
        invariant
            i <= a.len(),
            i <= b.len(),
            forall|j: int| 0 <= j < i ==> a@[j] == b@[j],
        decreases a.len() - i,
    {
        i = i + 1;
    }
    proof {
        lemma_common_prefix_unique(a@, b@, i as nat);
        lemma_lex_total(a@, b@);
    }
    if i < a.len() && i < b.len() {
        if a[i] < b[i] {
            -1
        } else {
            proof {
                lemma_common_prefix(b@, a@);
                assert forall|j: int| 0 <= j < i implies b@[j] == a@[j] by {}
                lemma_common_prefix_unique(b@, a@, i as nat);
            }
            1
        }
    } else if i == a.len() && i == b.len() {
        proof {
            lemma_lex_equal_prefix(a@, b@);
            lemma_lex_irreflexive(a@);
        }
        0
    } else if i == a.len() {
        -1
    } else {
        proof {
            assert forall|j: int| 0 <= j < i implies b@[j] == a@[j] by {}
            lemma_common_prefix_unique(b@, a@, i as nat);
        }
        1
    }
}

} // verus!

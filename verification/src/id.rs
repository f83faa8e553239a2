//! Opaque 256-bit logical identities.
//!
//! Identities are typed: a `RevisionId` never stands in for an `AtomId` even
//! when both hold the same bytes. Their canonical order is the unsigned
//! lexicographic order of the bytes.
use vstd::prelude::*;

use crate::order::{compare_bytes, lex_lt};

verus! {

broadcast use vstd::array::group_array_axioms;

/// Width used for opaque logical identities.
pub const LOGICAL_ID_BYTES: usize = 32;

/// The array holding the first `n` bytes of `s`, zero after them.
spec fn bytes_array(s: Seq<u8>, n: nat) -> [u8; 32]
    decreases n,
{
    if n == 0 {
        vstd::array::spec_array_fill_for_copy_type(0u8)
    } else {
        vstd::array::spec_array_update(bytes_array(s, (n - 1) as nat), n - 1, s[n - 1])
    }
}

proof fn lemma_bytes_array(s: Seq<u8>, n: nat)
    requires
        n <= 32,
    ensures
        bytes_array(s, n)@.len() == 32,
        forall|i: int| 0 <= i < n ==> bytes_array(s, n)@[i] == s[i],
    decreases n,
{
    if n > 0 {
        lemma_bytes_array(s, (n - 1) as nat);
    }
}

/// The array of exactly the bytes of `s`.
proof fn lemma_bytes_array_view(s: Seq<u8>)
    requires
        s.len() == 32,
    ensures
        bytes_array(s, 32)@ == s,
{
    lemma_bytes_array(s, 32);
    assert(bytes_array(s, 32)@ =~= s);
}

/// Copies 32 bytes out of a slice.
pub fn array_from_slice(s: &[u8]) -> (a: [u8; 32])
    requires
        s@.len() == 32,
    ensures
        a@ == s@,
{
    let a: [u8; 32] = [s[0], s[1], s[2], s[3], s[4], s[5], s[6], s[7], s[8], s[9], s[10], s[11], s[12], s[13], s[14], s[15], s[16], s[17], s[18], s[19], s[20], s[21], s[22], s[23], s[24], s[25], s[26], s[27], s[28], s[29], s[30], s[31]];
    assert(a@ =~= s@);
    a
}

/// Copies 24 bytes out of a slice.
pub fn array24_from_slice(s: &[u8]) -> (a: [u8; 24])
    requires
        s@.len() == 24,
    ensures
        a@ == s@,
{
    let a: [u8; 24] = [s[0], s[1], s[2], s[3], s[4], s[5], s[6], s[7], s[8], s[9], s[10], s[11], s[12], s[13], s[14], s[15], s[16], s[17], s[18], s[19], s[20], s[21], s[22], s[23]];
    assert(a@ =~= s@);
    a
}

/// Identity of one continuum.
#[derive(Clone, Copy, PartialEq, Eq, PartialOrd, Ord, Hash, Debug)]
pub struct ContinuumId {
    bytes: [u8; 32],
}

impl View for ContinuumId {
    type V = Seq<u8>;

    closed spec fn view(&self) -> Seq<u8> {
        self.bytes@
    }
}

impl ContinuumId {
    pub fn from_bytes(bytes: [u8; 32]) -> (id: Self)
        ensures
            id@ == bytes@,
    {
        ContinuumId { bytes }
    }

    pub fn as_bytes(&self) -> (bytes: &[u8; 32])
        ensures
            bytes@ == self@,
    {
        &self.bytes
    }

    pub fn into_bytes(self) -> (bytes: [u8; 32])
        ensures
            bytes@ == self@,
    {
        self.bytes
    }

    /// Every identity has exactly the logical width.
    pub broadcast proof fn lemma_view_len(id: Self)
        ensures
            #[trigger] id@.len() == LOGICAL_ID_BYTES,
    {
    }

    /// Identities with the same bytes are the same identity.
    pub proof fn lemma_view_injective(a: Self, b: Self)
        ensures
            (a@ == b@) == (a == b),
    {
        if a@ == b@ {
            assert(a.bytes =~= b.bytes);
        }
    }

    /// Three-way comparison in canonical byte order.
    pub fn compare(&self, other: &Self) -> (r: i8)
        ensures
            (r == 0) == (*self == *other),
            (r < 0) == lex_lt(self@, other@),
            (r > 0) == lex_lt(other@, self@),
    {
        proof {
            Self::lemma_view_injective(*self, *other);
        }
        let a: &[u8] = self.bytes.as_slice();
        let b: &[u8] = other.bytes.as_slice();
        compare_bytes(a, b)
    }

    pub fn same(&self, other: &Self) -> (r: bool)
        ensures
            r == (*self == *other),
    {
        self.compare(other) == 0
    }
}

/// Stable identity of one atom inside a continuum.
#[derive(Clone, Copy, PartialEq, Eq, PartialOrd, Ord, Hash, Debug)]
pub struct AtomId {
    bytes: [u8; 32],
}

impl View for AtomId {
    type V = Seq<u8>;

    closed spec fn view(&self) -> Seq<u8> {
        self.bytes@
    }
}

impl AtomId {
    /// The identity with the given bytes.
    pub closed spec fn from_view(s: Seq<u8>) -> Self {
        AtomId { bytes: bytes_array(s, 32) }
    }

    pub proof fn lemma_from_view(s: Seq<u8>)
        requires
            s.len() == LOGICAL_ID_BYTES,
        ensures
            Self::from_view(s)@ == s,
    {
        lemma_bytes_array_view(s);
    }

    pub fn from_bytes(bytes: [u8; 32]) -> (id: Self)
        ensures
            id@ == bytes@,
    {
        AtomId { bytes }
    }

    pub fn as_bytes(&self) -> (bytes: &[u8; 32])
        ensures
            bytes@ == self@,
    {
        &self.bytes
    }

    pub fn into_bytes(self) -> (bytes: [u8; 32])
        ensures
            bytes@ == self@,
    {
        self.bytes
    }

    /// Every identity has exactly the logical width.
    pub broadcast proof fn lemma_view_len(id: Self)
        ensures
            #[trigger] id@.len() == LOGICAL_ID_BYTES,
    {
    }

    /// Identities with the same bytes are the same identity.
    pub proof fn lemma_view_injective(a: Self, b: Self)
        ensures
            (a@ == b@) == (a == b),
    {
        if a@ == b@ {
            assert(a.bytes =~= b.bytes);
        }
    }

    /// Three-way comparison in canonical byte order.
    pub fn compare(&self, other: &Self) -> (r: i8)
        ensures
            (r == 0) == (*self == *other),
            (r < 0) == lex_lt(self@, other@),
            (r > 0) == lex_lt(other@, self@),
    {
        proof {
            Self::lemma_view_injective(*self, *other);
        }
        let a: &[u8] = self.bytes.as_slice();
        let b: &[u8] = other.bytes.as_slice();
        compare_bytes(a, b)
    }

    pub fn same(&self, other: &Self) -> (r: bool)
        ensures
            r == (*self == *other),
    {
        self.compare(other) == 0
    }
}

/// Identity of one replica.
#[derive(Clone, Copy, PartialEq, Eq, PartialOrd, Ord, Hash, Debug)]
pub struct ReplicaId {
    bytes: [u8; 32],
}

impl View for ReplicaId {
    type V = Seq<u8>;

    closed spec fn view(&self) -> Seq<u8> {
        self.bytes@
    }
}

impl ReplicaId {
    pub fn from_bytes(bytes: [u8; 32]) -> (id: Self)
        ensures
            id@ == bytes@,
    {
        ReplicaId { bytes }
    }

    pub fn as_bytes(&self) -> (bytes: &[u8; 32])
        ensures
            bytes@ == self@,
    {
        &self.bytes
    }

    pub fn into_bytes(self) -> (bytes: [u8; 32])
        ensures
            bytes@ == self@,
    {
        self.bytes
    }

    /// Every identity has exactly the logical width.
    pub broadcast proof fn lemma_view_len(id: Self)
        ensures
            #[trigger] id@.len() == LOGICAL_ID_BYTES,
    {
    }

    /// Identities with the same bytes are the same identity.
    pub proof fn lemma_view_injective(a: Self, b: Self)
        ensures
            (a@ == b@) == (a == b),
    {
        if a@ == b@ {
            assert(a.bytes =~= b.bytes);
        }
    }
}

/// Portable causal identity of one scalar statement.
#[derive(Clone, Copy, PartialEq, Eq, PartialOrd, Ord, Hash, Debug)]
pub struct RevisionId {
    bytes: [u8; 32],
}

impl View for RevisionId {
    type V = Seq<u8>;

    closed spec fn view(&self) -> Seq<u8> {
        self.bytes@
    }
}

impl RevisionId {
    /// The identity with the given bytes.
    pub closed spec fn from_view(s: Seq<u8>) -> Self {
        RevisionId { bytes: bytes_array(s, 32) }
    }

    pub proof fn lemma_from_view(s: Seq<u8>)
        requires
            s.len() == LOGICAL_ID_BYTES,
        ensures
            Self::from_view(s)@ == s,
    {
        lemma_bytes_array_view(s);
    }

    pub fn from_bytes(bytes: [u8; 32]) -> (id: Self)
        ensures
            id@ == bytes@,
    {
        RevisionId { bytes }
    }

    pub fn as_bytes(&self) -> (bytes: &[u8; 32])
        ensures
            bytes@ == self@,
    {
        &self.bytes
    }

    pub fn into_bytes(self) -> (bytes: [u8; 32])
        ensures
            bytes@ == self@,
    {
        self.bytes
    }

    /// Every identity has exactly the logical width.
    pub broadcast proof fn lemma_view_len(id: Self)
        ensures
            #[trigger] id@.len() == LOGICAL_ID_BYTES,
    {
    }

    /// Identities with the same bytes are the same identity.
    pub proof fn lemma_view_injective(a: Self, b: Self)
        ensures
            (a@ == b@) == (a == b),
    {
        if a@ == b@ {
            assert(a.bytes =~= b.bytes);
        }
    }

    /// Three-way comparison in canonical byte order.
    pub fn compare(&self, other: &Self) -> (r: i8)
        ensures
            (r == 0) == (*self == *other),
            (r < 0) == lex_lt(self@, other@),
            (r > 0) == lex_lt(other@, self@),
    {
        proof {
            Self::lemma_view_injective(*self, *other);
        }
        let a: &[u8] = self.bytes.as_slice();
        let b: &[u8] = other.bytes.as_slice();
        compare_bytes(a, b)
    }

    pub fn same(&self, other: &Self) -> (r: bool)
        ensures
            r == (*self == *other),
    {
        self.compare(other) == 0
    }
}

/// Device-local crash-recovery identity of one pending working epoch. It is not a
/// portable causal identity and never participates in merge ordering.
#[derive(Clone, Copy, PartialEq, Eq, PartialOrd, Ord, Hash, Debug)]
pub struct WorkingEpochId {
    bytes: [u8; 32],
}

impl View for WorkingEpochId {
    type V = Seq<u8>;

    closed spec fn view(&self) -> Seq<u8> {
        self.bytes@
    }
}

impl WorkingEpochId {
    /// The identity with the given bytes.
    pub closed spec fn from_view(s: Seq<u8>) -> Self {
        WorkingEpochId { bytes: bytes_array(s, 32) }
    }

    pub proof fn lemma_from_view(s: Seq<u8>)
        requires
            s.len() == LOGICAL_ID_BYTES,
        ensures
            Self::from_view(s)@ == s,
    {
        lemma_bytes_array_view(s);
    }

    pub fn from_bytes(bytes: [u8; 32]) -> (id: Self)
        ensures
            id@ == bytes@,
    {
        WorkingEpochId { bytes }
    }

    pub fn as_bytes(&self) -> (bytes: &[u8; 32])
        ensures
            bytes@ == self@,
    {
        &self.bytes
    }

    pub fn into_bytes(self) -> (bytes: [u8; 32])
        ensures
            bytes@ == self@,
    {
        self.bytes
    }

    /// Every identity has exactly the logical width.
    pub broadcast proof fn lemma_view_len(id: Self)
        ensures
            #[trigger] id@.len() == LOGICAL_ID_BYTES,
    {
    }

    /// Identities with the same bytes are the same identity.
    pub proof fn lemma_view_injective(a: Self, b: Self)
        ensures
            (a@ == b@) == (a == b),
    {
        if a@ == b@ {
            assert(a.bytes =~= b.bytes);
        }
    }
}

} // verus!

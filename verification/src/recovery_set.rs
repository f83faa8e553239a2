//! Local recovery state of several independently mergeable scalar domains.
//!
//! This is a recovery container, not a semantic transaction: each entry keeps
//! its own complete scalar image (working epoch, observed frontier,
//! finalization and exposure), and changing one entry never touches another.
use vstd::prelude::*;

use crate::bytes::{be_bytes, be_value, lemma_be_round_trip, lemma_byte_bound_8, push_be};
use crate::domain::{domain_consistent, domain_restore_refusal, DomainModel, LocalScalarDomain, LocalScalarSnapshot};
use crate::error::CoreError;
use crate::id::{array_from_slice, AtomId};
use crate::image::{decode_outcome, enc_bytes, enc_image, image_canonical, lemma_image_same, enc_len, sp_bytes, sp_len, sp_take, sp_u16, write_bytes, write_len, ImageError, Reader};
use crate::order::{compare_bytes, lemma_lex_irreflexive, lemma_lex_total, lemma_lex_transitive, lex_lt};
use crate::trusted_state::{
    decode_local_scalar_snapshot, encode_local_scalar_snapshot, recovery_codec_result, recovery_decoded_view, recovery_error,
    recovery_magic, TrustedStateCodec, TrustedStateCodecError,
};

verus! {

broadcast use AtomId::lemma_view_len;

/// Why a domain key is refused.
#[derive(Clone, Copy, Debug, PartialEq, Eq)]
pub enum ProjectionError {
    EmptyDomainIdentifier,
}

/// The identity of one merge domain: an atom and a non-empty domain name
/// inside it.
#[derive(Debug, PartialEq, Eq, PartialOrd, Ord, Hash)]
pub struct DomainKey {
    atom_id: AtomId,
    domain: Vec<u8>,
}

impl View for DomainKey {
    type V = (AtomId, Seq<u8>);

    closed spec fn view(&self) -> (AtomId, Seq<u8>) {
        (self.atom_id, self.domain@)
    }
}

impl DomainKey {
    #[verifier::type_invariant]
    spec fn inv(self) -> bool {
        self.domain@.len() > 0
    }

    /// The key of `domain` inside `atom_id`; an empty domain name is refused.
    pub fn new(atom_id: AtomId, domain: Vec<u8>) -> (r: Result<Self, ProjectionError>)
        ensures
            domain@.len() == 0 <==> r is Err,
            r matches Ok(k) ==> k@ == (atom_id, domain@),
            r matches Err(e) ==> e == ProjectionError::EmptyDomainIdentifier,
    {
        if domain.len() == 0 {
            Err(ProjectionError::EmptyDomainIdentifier)
        } else {
            Ok(DomainKey { atom_id, domain })
        }
    }

    pub fn atom_id(&self) -> (r: AtomId)
        ensures
            r == self@.0,
    {
        self.atom_id
    }

    pub fn domain(&self) -> (r: &[u8])
        ensures
            r@ == self@.1,
            r@.len() > 0,
    {
        proof {
            use_type_invariant(self);
        }
        self.domain.as_slice()
    }

    /// A copy of the same key.
    pub fn duplicate(&self) -> (k: Self)
        ensures
            k@ == self@,
    {
        proof {
            use_type_invariant(self);
        }
        let domain = self.domain.clone();
        assert(domain@ =~= self.domain@);
        DomainKey { atom_id: self.atom_id, domain }
    }
}

impl Clone for DomainKey {
    fn clone(&self) -> (k: Self)
        ensures
            k@ == self@,
    {
        self.duplicate()
    }
}

/// Canonical key order: by atom bytes, then by domain bytes.
pub open spec fn key_lt(a: (AtomId, Seq<u8>), b: (AtomId, Seq<u8>)) -> bool {
    lex_lt(a.0@, b.0@) || (a.0 == b.0 && lex_lt(a.1, b.1))
}

pub proof fn lemma_key_total(a: (AtomId, Seq<u8>), b: (AtomId, Seq<u8>))
    ensures
        a == b || key_lt(a, b) || key_lt(b, a),
        !(key_lt(a, b) && key_lt(b, a)),
        !key_lt(a, a),
{
    lemma_lex_total(a.0@, b.0@);
    lemma_lex_total(a.1, b.1);
    lemma_lex_irreflexive(a.0@);
    lemma_lex_irreflexive(a.1);
    AtomId::lemma_view_injective(a.0, b.0);
}

pub proof fn lemma_key_transitive(a: (AtomId, Seq<u8>), b: (AtomId, Seq<u8>), c: (AtomId, Seq<u8>))
    requires
        key_lt(a, b),
        key_lt(b, c),
    ensures
        key_lt(a, c),
{
    AtomId::lemma_view_injective(a.0, b.0);
    AtomId::lemma_view_injective(b.0, c.0);
    if lex_lt(a.0@, b.0@) && lex_lt(b.0@, c.0@) {
        lemma_lex_transitive(a.0@, b.0@, c.0@);
    }
    if lex_lt(a.1, b.1) && lex_lt(b.1, c.1) {
        lemma_lex_transitive(a.1, b.1, c.1);
    }
}

/// Three-way comparison of two keys in canonical order.
pub fn compare_keys(a: &DomainKey, b: &DomainKey) -> (r: i8)
    ensures
        (r == 0) == (a@ == b@),
        (r < 0) == key_lt(a@, b@),
        (r > 0) == key_lt(b@, a@),
{
    proof {
        lemma_key_total(a@, b@);
        AtomId::lemma_view_injective(a@.0, b@.0);
    }
    let c = a.atom_id.compare(&b.atom_id);
    if c != 0 {
        c
    } else {
        compare_bytes(a.domain.as_slice(), b.domain.as_slice())
    }
}

/// Entries in strictly increasing key order.
pub open spec fn keys_sorted(s: Seq<(DomainKey, LocalScalarSnapshot)>) -> bool {
    forall|i: int, j: int| 0 <= i < j < s.len() ==> key_lt((#[trigger] s[i]).0@, (#[trigger] s[j]).0@)
}

/// The domains that entries describe.
pub open spec fn entry_map(s: Seq<(DomainKey, LocalScalarSnapshot)>) -> Map<(AtomId, Seq<u8>), DomainModel>
    decreases s.len(),
{
    if s.len() == 0 {
        Map::empty()
    } else {
        entry_map(s.drop_last()).insert(s.last().0@, s.last().1@)
    }
}

/// Every key of strictly sorted entries, with the image it holds.
pub proof fn lemma_entry_map(s: Seq<(DomainKey, LocalScalarSnapshot)>)
    requires
        keys_sorted(s),
    ensures
        forall|k: (AtomId, Seq<u8>)| #[trigger] entry_map(s).contains_key(k) <==> exists|i: int| 0 <= i < s.len() && s[i].0@ == k,
        forall|i: int| 0 <= i < s.len() ==> #[trigger] entry_map(s)[s[i].0@] == s[i].1@,
        entry_map(s).dom().finite(),
        entry_map(s).len() == s.len(),
    decreases s.len(),
{
    if s.len() > 0 {
        let t = s.drop_last();
        assert(keys_sorted(t));
        lemma_entry_map(t);
        let last = s.last().0@;
        assert forall|i: int| 0 <= i < t.len() implies t[i].0@ != last by {
            assert(key_lt(s[i].0@, s[s.len() - 1].0@));
            lemma_key_total(t[i].0@, last);
        }
        assert(!entry_map(t).contains_key(last));
        assert forall|k: (AtomId, Seq<u8>)| #[trigger] entry_map(s).contains_key(k) implies exists|i: int| 0 <= i < s.len() && s[i].0@ == k by {
            if k != last {
                let i = choose|i: int| 0 <= i < t.len() && t[i].0@ == k;
                assert(s[i] == t[i]);
            } else {
                assert(s[s.len() - 1].0@ == k);
            }
        }
        assert forall|i: int| 0 <= i < s.len() implies #[trigger] entry_map(s)[s[i].0@] == s[i].1@ by {
            if i < s.len() - 1 {
                assert(s[i] == t[i]);
            }
        }
        assert forall|k: (AtomId, Seq<u8>)| (exists|i: int| 0 <= i < s.len() && s[i].0@ == k) implies #[trigger] entry_map(s).contains_key(k) by {
            let i = choose|i: int| 0 <= i < s.len() && s[i].0@ == k;
            if i < s.len() - 1 {
                assert(s[i] == t[i]);
                assert(entry_map(t).contains_key(t[i].0@));
            }
        }
    }
}

/// Inserting an entry at its place keeps the entries sorted and adds it to
/// their map.
proof fn lemma_entry_map_insert(s: Seq<(DomainKey, LocalScalarSnapshot)>, i: int, e: (DomainKey, LocalScalarSnapshot))
    requires
        keys_sorted(s),
        0 <= i <= s.len(),
        forall|j: int| 0 <= j < i ==> key_lt((#[trigger] s[j]).0@, e.0@),
        forall|j: int| i <= j < s.len() ==> key_lt(e.0@, (#[trigger] s[j]).0@),
    ensures
        keys_sorted(s.insert(i, e)),
        entry_map(s.insert(i, e)) == entry_map(s).insert(e.0@, e.1@),
{
    let t = s.insert(i, e);
    assert forall|a: int, b: int| 0 <= a < b < t.len() implies key_lt((#[trigger] t[a]).0@, (#[trigger] t[b]).0@) by {
        if a < i && b > i {
            lemma_key_transitive(t[a].0@, e.0@, t[b].0@);
        }
    }
    lemma_entry_map(s);
    lemma_entry_map(t);
    assert(entry_map(t) =~= entry_map(s).insert(e.0@, e.1@)) by {
        assert forall|k: (AtomId, Seq<u8>)| #[trigger] entry_map(t).contains_key(k) <==> entry_map(s).insert(e.0@, e.1@).contains_key(k) by {
            if entry_map(t).contains_key(k) {
                let j = choose|j: int| 0 <= j < t.len() && t[j].0@ == k;
                if j < i {
                    assert(t[j] == s[j]);
                } else if j > i {
                    assert(t[j] == s[j - 1]);
                }
            }
            if entry_map(s).contains_key(k) {
                let j = choose|j: int| 0 <= j < s.len() && s[j].0@ == k;
                if j < i {
                    assert(t[j] == s[j]);
                } else {
                    assert(t[j + 1] == s[j]);
                }
            }
            if k == e.0@ {
                assert(t[i] == e);
            }
        }
        assert forall|k: (AtomId, Seq<u8>)| #[trigger] entry_map(t).contains_key(k) implies entry_map(t)[k] == entry_map(s).insert(e.0@, e.1@)[k] by {
            let j = choose|j: int| 0 <= j < t.len() && t[j].0@ == k;
            if j < i {
                assert(t[j] == s[j]);
                lemma_key_total(s[j].0@, e.0@);
            } else if j > i {
                assert(t[j] == s[j - 1]);
                lemma_key_total(e.0@, s[j - 1].0@);
            } else {
                assert(t[j] == e);
            }
        }
    }
}

/// Replacing the image of an entry keeps the entries sorted and updates
/// their map.
proof fn lemma_entry_map_update(s: Seq<(DomainKey, LocalScalarSnapshot)>, i: int, e: (DomainKey, LocalScalarSnapshot))
    requires
        keys_sorted(s),
        0 <= i < s.len(),
        s[i].0@ == e.0@,
    ensures
        keys_sorted(s.update(i, e)),
        entry_map(s.update(i, e)) == entry_map(s).insert(e.0@, e.1@),
{
    let t = s.update(i, e);
    assert(keys_sorted(t)) by {
        assert forall|a: int, b: int| 0 <= a < b < t.len() implies key_lt((#[trigger] t[a]).0@, (#[trigger] t[b]).0@) by {
            assert(key_lt(s[a].0@, s[b].0@));
        }
    }
    lemma_entry_map(s);
    lemma_entry_map(t);
    assert(entry_map(t) =~= entry_map(s).insert(e.0@, e.1@)) by {
        assert forall|k: (AtomId, Seq<u8>)| #[trigger] entry_map(t).contains_key(k) <==> entry_map(s).insert(e.0@, e.1@).contains_key(k) by {
            if entry_map(t).contains_key(k) {
                let j = choose|j: int| 0 <= j < t.len() && t[j].0@ == k;
                if j != i {
                    assert(t[j] == s[j]);
                }
            }
            if entry_map(s).contains_key(k) {
                let j = choose|j: int| 0 <= j < s.len() && s[j].0@ == k;
                if j != i {
                    assert(t[j] == s[j]);
                } else {
                    assert(t[i] == e);
                }
            }
            if k == e.0@ {
                assert(t[i] == e);
            }
        }
        assert forall|k: (AtomId, Seq<u8>)| #[trigger] entry_map(t).contains_key(k) implies entry_map(t)[k] == entry_map(s).insert(e.0@, e.1@)[k] by {
            let j = choose|j: int| 0 <= j < t.len() && t[j].0@ == k;
            if j != i {
                assert(t[j] == s[j]);
                lemma_key_total(s[j].0@, s[i].0@);
            }
        }
    }
}

/// Where a key stands among sorted entries.
fn locate(entries: &Vec<(DomainKey, LocalScalarSnapshot)>, key: &DomainKey) -> (r: (usize, bool))
    requires
        keys_sorted(entries@),
    ensures
        r.0 <= entries@.len(),
        r.1 ==> r.0 < entries@.len() && entries@[r.0 as int].0@ == key@,
        !r.1 ==> (forall|j: int| 0 <= j < r.0 ==> key_lt((#[trigger] entries@[j]).0@, key@))
            && (forall|j: int| r.0 <= j < entries@.len() ==> key_lt(key@, (#[trigger] entries@[j]).0@)),
{
    let mut i: usize = 0;
    while i < entries.len()
        invariant
            i <= entries@.len(),
            keys_sorted(entries@),
            forall|j: int| 0 <= j < i ==> key_lt((#[trigger] entries@[j]).0@, key@),
        decreases entries@.len() - i,
    {
        let c = compare_keys(&entries[i].0, key);
        if c == 0 {
            return (i, true);
        }
        if c > 0 {
            proof {
                assert forall|j: int| i <= j < entries@.len() implies key_lt(key@, (#[trigger] entries@[j]).0@) by {
                    if j > i {
                        assert(key_lt(entries@[i as int].0@, entries@[j].0@));
                        lemma_key_transitive(key@, entries@[i as int].0@, entries@[j].0@);
                    }
                }
            }
            return (i, false);
        }
        i = i + 1;
    }
    (i, false)
}

/// Why a recovery state refuses a change.
#[derive(Debug, Clone, PartialEq, Eq)]
pub enum LocalScalarRecoveryStateError {
    DuplicateDomain,
    Core(CoreError),
}

/// Complete local recovery state for several scalar domains, one image per
/// domain key, each image one that restore accepts.
#[derive(Debug, PartialEq, Eq)]
pub struct LocalScalarRecoveryState {
    entries: Vec<(DomainKey, LocalScalarSnapshot)>,
}

impl View for LocalScalarRecoveryState {
    type V = Map<(AtomId, Seq<u8>), DomainModel>;

    closed spec fn view(&self) -> Map<(AtomId, Seq<u8>), DomainModel> {
        entry_map(self.entries@)
    }
}

/// Keys of the stored images are valid and every image is consistent.
pub open spec fn entries_valid(s: Seq<(DomainKey, LocalScalarSnapshot)>) -> bool {
    &&& keys_sorted(s)
    &&& forall|i: int| 0 <= i < s.len() ==> (#[trigger] s[i]).0@.1.len() > 0 && domain_consistent(s[i].1@)
}

impl LocalScalarRecoveryState {
    #[verifier::type_invariant]
    spec fn inv(self) -> bool {
        entries_valid(self.entries@)
    }

    /// The stored entries in canonical key order.
    pub closed spec fn entries(self) -> Seq<(DomainKey, LocalScalarSnapshot)> {
        self.entries@
    }

    /// What every recovery state holds: valid entries in key order, whose map
    /// is its view.
    pub proof fn lemma_valid(self)
        requires
            entries_valid(self.entries()),
        ensures
            self@ == entry_map(self.entries()),
            self@.dom().finite(),
            self@.len() == self.entries().len(),
            forall|k: (AtomId, Seq<u8>)| #[trigger] self@.contains_key(k) ==> k.1.len() > 0 && domain_consistent(self@[k]),
    {
        lemma_entry_map(self.entries@);
        assert forall|k: (AtomId, Seq<u8>)| #[trigger] self@.contains_key(k) implies k.1.len() > 0 && domain_consistent(self@[k]) by {
            let i = choose|i: int| 0 <= i < self.entries@.len() && self.entries@[i].0@ == k;
        }
    }

    pub fn new() -> (s: Self)
        ensures
            s@ == Map::<(AtomId, Seq<u8>), DomainModel>::empty(),
            s.entries() == Seq::<(DomainKey, LocalScalarSnapshot)>::empty(),
    {
        LocalScalarRecoveryState { entries: Vec::new() }
    }

    /// A state holding the given domains; refused when a key repeats or an
    /// image is one that restore refuses.
    pub fn from_domains(domains: Vec<(DomainKey, LocalScalarSnapshot)>) -> (r: Result<Self, LocalScalarRecoveryStateError>)
        ensures
            r is Ok <==> (forall|i: int, j: int| 0 <= i < j < domains@.len() ==> (#[trigger] domains@[i]).0@
                != (#[trigger] domains@[j]).0@) && (forall|i: int| 0 <= i < domains@.len() ==> domain_consistent(
                (#[trigger] domains@[i]).1@,
            )),
            r matches Ok(s) ==> forall|k: (AtomId, Seq<u8>)| #[trigger] s@.contains_key(k) <==> exists|i: int|
                0 <= i < domains@.len() && domains@[i].0@ == k,
            r matches Ok(s) ==> forall|i: int| 0 <= i < domains@.len() ==> s@[(#[trigger] domains@[i]).0@] == domains@[i].1@,
            r matches Err(LocalScalarRecoveryStateError::Core(e)) ==> exists|i: int| 0 <= i < domains@.len()
                && domain_restore_refusal((#[trigger] domains@[i]).1@, e),
    {
        let ghost all = domains@;
        let mut state = LocalScalarRecoveryState::new();
        let mut rest = domains;
        let ghost mut n: int = 0;
        while rest.len() > 0
            invariant
                n + rest@.len() == all.len(),
                all == domains@,
                0 <= n <= all.len(),
                rest@ == all.subrange(n, all.len() as int),
                forall|i: int, j: int| 0 <= i < j < n ==> (#[trigger] all[i]).0@ != (#[trigger] all[j]).0@,
                forall|i: int| 0 <= i < n ==> domain_consistent((#[trigger] all[i]).1@),
                forall|k: (AtomId, Seq<u8>)| #[trigger] state@.contains_key(k) <==> exists|i: int| 0 <= i < n && all[i].0@ == k,
                forall|i: int| 0 <= i < n ==> state@[(#[trigger] all[i]).0@] == all[i].1@,
            decreases rest@.len(),
        {
            let (key, snapshot) = rest.remove(0);
            proof {
                assert(all[n] == (key, snapshot));
            }
            match state.insert_new(key, snapshot) {
                Ok(()) => {},
                Err(LocalScalarRecoveryStateError::DuplicateDomain) => {
                    proof {
                        let i = choose|i: int| 0 <= i < n && all[i].0@ == all[n].0@;
                        assert(domains@[i].0@ == domains@[n].0@);
                    }
                    return Err(LocalScalarRecoveryStateError::DuplicateDomain);
                },
                Err(e) => {
                    proof {
                        assert(!domain_consistent(domains@[n].1@));
                    }
                    return Err(e);
                },
            }
            proof {
                n = n + 1;
                assert(rest@ =~= all.subrange(n, all.len() as int));
            }
        }
        Ok(state)
    }

    pub fn len(&self) -> (n: usize)
        ensures
            n == self@.len(),
    {
        proof {
            use_type_invariant(self);
            lemma_entry_map(self.entries@);
        }
        self.entries.len()
    }

    pub fn is_empty(&self) -> (b: bool)
        ensures
            b == (self@.len() == 0),
    {
        proof {
            use_type_invariant(self);
            lemma_entry_map(self.entries@);
        }
        self.entries.len() == 0
    }

    /// Every domain with its image, in canonical key order.
    pub fn domains(&self) -> (r: &Vec<(DomainKey, LocalScalarSnapshot)>)
        ensures
            r@ == self.entries(),
            entries_valid(r@),
            self@ == entry_map(r@),
    {
        proof {
            use_type_invariant(self);
        }
        &self.entries
    }

    /// The image of one domain.
    pub fn get(&self, key: &DomainKey) -> (r: Option<&LocalScalarSnapshot>)
        ensures
            r is Some <==> self@.contains_key(key@),
            r matches Some(s) ==> s@ == self@[key@],
    {
        proof {
            use_type_invariant(self);
            lemma_entry_map(self.entries@);
        }
        let (i, found) = locate(&self.entries, key);
        if found {
            Some(&self.entries[i].1)
        } else {
            proof {
                if self@.contains_key(key@) {
                    let j = choose|j: int| 0 <= j < self.entries@.len() && self.entries@[j].0@ == key@;
                    lemma_key_total(key@, key@);
                }
            }
            None
        }
    }

    /// Adds a new domain; refused when the key is already present, or when
    /// restore refuses the image. A refusal changes nothing.
    pub fn insert_new(&mut self, key: DomainKey, snapshot: LocalScalarSnapshot) -> (r: Result<(), LocalScalarRecoveryStateError>)
        ensures
            old(self)@.contains_key(key@) ==> r == Err::<(), LocalScalarRecoveryStateError>(
                LocalScalarRecoveryStateError::DuplicateDomain,
            ),
            !old(self)@.contains_key(key@) && !domain_consistent(snapshot@) ==> (r matches Err(
                LocalScalarRecoveryStateError::Core(e),
            ) && domain_restore_refusal(snapshot@, e)),
            !old(self)@.contains_key(key@) && domain_consistent(snapshot@) ==> r is Ok,
            r is Ok ==> final(self)@ == old(self)@.insert(key@, snapshot@),
            r is Err ==> final(self)@ == old(self)@,
    {
        proof {
            use_type_invariant(&*self);
            use_type_invariant(&key);
            lemma_entry_map(self.entries@);
        }
        let (i, found) = locate(&self.entries, &key);
        if found {
            return Err(LocalScalarRecoveryStateError::DuplicateDomain);
        }
        proof {
            if old(self)@.contains_key(key@) {
                let j = choose|j: int| 0 <= j < self.entries@.len() && self.entries@[j].0@ == key@;
                lemma_key_total(key@, key@);
            }
        }
        match LocalScalarDomain::restore(snapshot.duplicate()) {
            Ok(_) => {},
            Err(e) => {
                return Err(LocalScalarRecoveryStateError::Core(e));
            },
        }
        let mut s = LocalScalarRecoveryState::new();
        std::mem::swap(self, &mut s);
        let LocalScalarRecoveryState { mut entries } = s;
        let ghost before = entries@;
        proof {
            lemma_entry_map_insert(before, i as int, (key, snapshot));
        }
        entries.insert(i, (key, snapshot));
        proof {
            assert forall|j: int| 0 <= j < entries@.len() implies (#[trigger] entries@[j]).0@.1.len() > 0 && domain_consistent(entries@[j].1@) by {
                if j < i {
                    assert(entries@[j] == before[j]);
                } else if j > i {
                    assert(entries@[j] == before[j - 1]);
                }
            }
        }
        *self = LocalScalarRecoveryState { entries };
        Ok(())
    }

    /// Replaces exactly one domain after checking its complete image, and
    /// gives back the image it replaced. A refusal changes nothing.
    pub fn replace_domain(&mut self, key: DomainKey, snapshot: LocalScalarSnapshot) -> (r: Result<Option<LocalScalarSnapshot>, LocalScalarRecoveryStateError>)
        ensures
            r is Ok <==> domain_consistent(snapshot@),
            r matches Err(err) ==> (err matches LocalScalarRecoveryStateError::Core(e) && domain_restore_refusal(snapshot@, e)),
            r is Ok ==> final(self)@ == old(self)@.insert(key@, snapshot@),
            r matches Ok(prev) ==> (prev is Some <==> old(self)@.contains_key(key@)),
            r matches Ok(Some(p)) ==> p@ == old(self)@[key@],
            r is Err ==> final(self)@ == old(self)@,
    {
        proof {
            use_type_invariant(&*self);
            use_type_invariant(&key);
            lemma_entry_map(self.entries@);
        }
        match LocalScalarDomain::restore(snapshot.duplicate()) {
            Ok(_) => {},
            Err(e) => {
                return Err(LocalScalarRecoveryStateError::Core(e));
            },
        }
        let (i, found) = locate(&self.entries, &key);
        let mut s = LocalScalarRecoveryState::new();
        std::mem::swap(self, &mut s);
        let LocalScalarRecoveryState { mut entries } = s;
        let ghost before = entries@;
        if found {
            proof {
                lemma_entry_map_update(before, i as int, (key, snapshot));
            }
            let (_old_key, previous) = entries.remove(i);
            entries.insert(i, (key, snapshot));
            proof {
                assert(entries@ =~= before.update(i as int, (key, snapshot)));
                assert forall|j: int| 0 <= j < entries@.len() implies (#[trigger] entries@[j]).0@.1.len() > 0 && domain_consistent(entries@[j].1@) by {
                    if j != i {
                        assert(entries@[j] == before[j]);
                    }
                }
                assert(previous@ == entry_map(before)[key@]);
            }
            *self = LocalScalarRecoveryState { entries };
            Ok(Some(previous))
        } else {
            proof {
                lemma_entry_map_insert(before, i as int, (key, snapshot));
                if entry_map(before).contains_key(key@) {
                    let j = choose|j: int| 0 <= j < before.len() && before[j].0@ == key@;
                    lemma_key_total(key@, key@);
                }
            }
            entries.insert(i, (key, snapshot));
            proof {
                assert forall|j: int| 0 <= j < entries@.len() implies (#[trigger] entries@[j]).0@.1.len() > 0 && domain_consistent(entries@[j].1@) by {
                    if j < i {
                        assert(entries@[j] == before[j]);
                    } else if j > i {
                        assert(entries@[j] == before[j - 1]);
                    }
                }
            }
            *self = LocalScalarRecoveryState { entries };
            Ok(None)
        }
    }

    /// The domain rebuilt from the image stored under `key`, if any; every
    /// stored image restores.
    pub fn restore_domain(&self, key: &DomainKey) -> (r: Result<Option<LocalScalarDomain>, CoreError>)
        ensures
            r is Ok,
            r matches Ok(d) ==> (d is Some <==> self@.contains_key(key@)),
            r matches Ok(Some(d)) ==> d@ == self@[key@],
    {
        proof {
            use_type_invariant(self);
            lemma_entry_map(self.entries@);
        }
        match self.get(key) {
            None => Ok(None),
            Some(snapshot) => {
                proof {
                    let j = choose|j: int| 0 <= j < self.entries@.len() && self.entries@[j].0@ == key@;
                }
                match LocalScalarDomain::restore(snapshot.duplicate()) {
                    Ok(d) => Ok(Some(d)),
                    Err(e) => Err(e),
                }
            },
        }
    }

    /// A copy of the same state.
    pub fn duplicate(&self) -> (s: Self)
        ensures
            s@ == self@,
            s.entries().len() == self.entries().len(),
            forall|i: int| 0 <= i < self.entries().len() ==> (#[trigger] s.entries()[i]).0@ == self.entries()[i].0@
                && s.entries()[i].1@ == self.entries()[i].1@,
    {
        proof {
            use_type_invariant(self);
        }
        let mut entries: Vec<(DomainKey, LocalScalarSnapshot)> = Vec::new();
        let mut i: usize = 0;
        while i < self.entries.len()
            invariant
                i <= self.entries@.len(),
                entries_valid(self.entries@),
                entries@.len() == i,
                forall|j: int| 0 <= j < i ==> (#[trigger] entries@[j]).0@ == self.entries@[j].0@ && entries@[j].1@
                    == self.entries@[j].1@,
            decreases self.entries@.len() - i,
        {
            let k = self.entries[i].0.duplicate();
            let s = self.entries[i].1.duplicate();
            entries.push((k, s));
            i = i + 1;
        }
        proof {
            assert(entry_map(entries@) == entry_map(self.entries@)) by {
                lemma_same_entries(entries@, self.entries@);
            }
        }
        LocalScalarRecoveryState { entries }
    }
}

/// Entries with the same keys and images, position by position, describe the
/// same domains and are equally valid.
proof fn lemma_same_entries(a: Seq<(DomainKey, LocalScalarSnapshot)>, b: Seq<(DomainKey, LocalScalarSnapshot)>)
    requires
        a.len() == b.len(),
        forall|j: int| 0 <= j < a.len() ==> (#[trigger] a[j]).0@ == b[j].0@ && a[j].1@ == b[j].1@,
    ensures
        entry_map(a) == entry_map(b),
        entries_valid(b) ==> entries_valid(a),
    decreases a.len(),
{
    if a.len() > 0 {
        lemma_same_entries(a.drop_last(), b.drop_last());
    }
}

impl Clone for LocalScalarRecoveryState {
    fn clone(&self) -> (s: Self)
        ensures
            s@ == self@,
    {
        self.duplicate()
    }
}

impl Default for LocalScalarRecoveryState {
    fn default() -> (s: Self)
        ensures
            s@ == Map::<(AtomId, Seq<u8>), DomainModel>::empty(),
    {
        LocalScalarRecoveryState::new()
    }
}


// ------------------------------------------------------------------ framing

/// Errors of the multi-domain recovery framing.
#[derive(Debug, Clone, PartialEq, Eq)]
pub enum MultiScalarTrustedStateCodecError {
    InvalidMagic,
    UnsupportedVersion { version: u16 },
    UnexpectedEof,
    LengthOverflow,
    TrailingBytes,
    DuplicateDomain,
    Domain(ProjectionError),
    Scalar(TrustedStateCodecError),
}

/// The magic tag of the framing, `APCLSET1`.
pub open spec fn set_magic() -> Seq<u8> {
    seq![0x41u8, 0x50u8, 0x43u8, 0x4cu8, 0x53u8, 0x45u8, 0x54u8, 0x31u8]
}

/// The only framing version.
pub const SET_VERSION: u16 = 1;

/// How a failed read of the framing is reported.
pub open spec fn framing_error(e: ImageError) -> MultiScalarTrustedStateCodecError {
    match e {
        ImageError::LengthOverflow => MultiScalarTrustedStateCodecError::LengthOverflow,
        ImageError::InvalidMagic => MultiScalarTrustedStateCodecError::InvalidMagic,
        ImageError::UnsupportedVersion { version } => MultiScalarTrustedStateCodecError::UnsupportedVersion { version },
        ImageError::TrailingBytes => MultiScalarTrustedStateCodecError::TrailingBytes,
        _ => MultiScalarTrustedStateCodecError::UnexpectedEof,
    }
}

fn convert_framing(e: ImageError) -> (r: MultiScalarTrustedStateCodecError)
    ensures
        r == framing_error(e),
{
    match e {
        ImageError::LengthOverflow => MultiScalarTrustedStateCodecError::LengthOverflow,
        ImageError::InvalidMagic => MultiScalarTrustedStateCodecError::InvalidMagic,
        ImageError::UnsupportedVersion { version } => MultiScalarTrustedStateCodecError::UnsupportedVersion { version },
        ImageError::TrailingBytes => MultiScalarTrustedStateCodecError::TrailingBytes,
        _ => MultiScalarTrustedStateCodecError::UnexpectedEof,
    }
}

/// `b` is a nested scalar image that decodes to `m`.
#[verifier::opaque]
pub open spec fn image_decodes(b: Seq<u8>, m: DomainModel) -> bool {
    decode_outcome(b, recovery_magic(), Ok(m))
}

/// The nested scalar image of one domain.
#[verifier::opaque]
pub open spec fn scalar_image(s: LocalScalarSnapshot) -> Seq<u8> {
    enc_image(recovery_magic(), s)
}

/// One entry: the atom bytes, the domain name and the nested scalar image,
/// each of the latter two with its length.
pub open spec fn enc_entry(e: (DomainKey, LocalScalarSnapshot)) -> Seq<u8> {
    e.0@.0@ + enc_bytes(e.0@.1) + enc_bytes(scalar_image(e.1))
}

pub open spec fn enc_entries(s: Seq<(DomainKey, LocalScalarSnapshot)>) -> Seq<u8>
    decreases s.len(),
{
    if s.len() == 0 {
        Seq::empty()
    } else {
        enc_entries(s.drop_last()) + enc_entry(s.last())
    }
}

/// The bytes of a recovery state with the given entries.
pub open spec fn enc_set(s: Seq<(DomainKey, LocalScalarSnapshot)>) -> Seq<u8> {
    set_magic() + be_bytes(SET_VERSION as nat, 2) + enc_len(s.len()) + enc_entries(s)
}

/// Every nested image is in the canonical form of its type.
pub open spec fn images_canonical(s: Seq<(DomainKey, LocalScalarSnapshot)>) -> bool {
    forall|i: int| 0 <= i < s.len() ==> image_canonical(#[trigger] s[i].1)
}

/// Sorted entries describing the same domains agree position by position.
proof fn lemma_entries_same(a: Seq<(DomainKey, LocalScalarSnapshot)>, b: Seq<(DomainKey, LocalScalarSnapshot)>)
    requires
        keys_sorted(a),
        keys_sorted(b),
        entry_map(a) == entry_map(b),
    ensures
        a.len() == b.len(),
        forall|i: int| 0 <= i < a.len() ==> (#[trigger] a[i]).0@ == b[i].0@ && a[i].1@ == b[i].1@,
    decreases a.len(),
{
    lemma_entry_map(a);
    lemma_entry_map(b);
    if a.len() > 0 {
        let n = a.len() - 1;
        let ka = a[n].0@;
        let kb = b[n].0@;
        assert(entry_map(b).contains_key(ka));
        assert(entry_map(a).contains_key(kb));
        let j = choose|j: int| 0 <= j < b.len() && b[j].0@ == ka;
        let i = choose|i: int| 0 <= i < a.len() && a[i].0@ == kb;
        assert(ka == kb) by {
            if j < n {
                assert(key_lt(ka, kb));
                if i < n {
                    assert(key_lt(kb, ka));
                }
                lemma_key_total(ka, kb);
            }
        }
        let a1 = a.drop_last();
        let b1 = b.drop_last();
        assert(keys_sorted(a1));
        assert(keys_sorted(b1));
        lemma_entry_map(a1);
        lemma_entry_map(b1);
        assert(!entry_map(a1).contains_key(ka)) by {
            if entry_map(a1).contains_key(ka) {
                let t = choose|t: int| 0 <= t < a1.len() && a1[t].0@ == ka;
                assert(key_lt(a[t].0@, a[n].0@));
                lemma_key_total(ka, ka);
            }
        }
        assert(!entry_map(b1).contains_key(ka)) by {
            if entry_map(b1).contains_key(ka) {
                let t = choose|t: int| 0 <= t < b1.len() && b1[t].0@ == ka;
                assert(key_lt(b[t].0@, b[n].0@));
                lemma_key_total(ka, ka);
            }
        }
        assert(entry_map(a1) =~= entry_map(a).remove(ka));
        assert(entry_map(b1) =~= entry_map(b).remove(ka));
        lemma_entries_same(a1, b1);
        assert forall|t: int| 0 <= t < a.len() implies (#[trigger] a[t]).0@ == b[t].0@ && a[t].1@ == b[t].1@ by {
            if t < n {
                assert(a[t] == a1[t]);
                assert(b[t] == b1[t]);
            } else {
                assert(entry_map(a)[a[n].0@] == a[n].1@);
                assert(entry_map(b)[b[n].0@] == b[n].1@);
            }
        }
    }
}

/// Entries with the same encodings, position by position, encode the same.
proof fn lemma_enc_entries_same(a: Seq<(DomainKey, LocalScalarSnapshot)>, b: Seq<(DomainKey, LocalScalarSnapshot)>)
    requires
        a.len() == b.len(),
        forall|i: int| 0 <= i < a.len() ==> enc_entry(#[trigger] a[i]) == enc_entry(b[i]),
    ensures
        enc_entries(a) == enc_entries(b),
    decreases a.len(),
{
    if a.len() > 0 {
        let n = a.len() - 1;
        assert(enc_entry(a[n]) == enc_entry(b[n]));
        assert forall|i: int| 0 <= i < a.drop_last().len() implies enc_entry(#[trigger] a.drop_last()[i]) == enc_entry(b.drop_last()[i]) by {
            assert(a.drop_last()[i] == a[i]);
            assert(b.drop_last()[i] == b[i]);
        }
        lemma_enc_entries_same(a.drop_last(), b.drop_last());
    }
}

/// The canonical encoding does not depend on how a recovery state was built:
/// two states holding the same domains have the same bytes, whatever order
/// the domains were inserted in.
pub proof fn lemma_encoding_canonical(a: LocalScalarRecoveryState, b: LocalScalarRecoveryState)
    requires
        entries_valid(a.entries()),
        entries_valid(b.entries()),
        images_canonical(a.entries()),
        images_canonical(b.entries()),
        a@ == b@,
    ensures
        enc_set(a.entries()) == enc_set(b.entries()),
{
    let x = a.entries();
    let y = b.entries();
    lemma_entries_same(x, y);
    assert forall|i: int| 0 <= i < x.len() implies enc_entry(#[trigger] x[i]) == enc_entry(y[i]) by {
        reveal(scalar_image);
        lemma_image_same(recovery_magic(), x[i].1, y[i].1);
    }
    lemma_enc_entries_same(x, y);
}

/// The framing of one entry at `pos`: its atom, its non-empty domain name,
/// its nested image bytes and the position after it.
pub open spec fn sp_entry_frame(b: Seq<u8>, pos: int) -> Result<(AtomId, Seq<u8>, Seq<u8>, int), MultiScalarTrustedStateCodecError> {
    match sp_take(b, pos, 32) {
        Err(e) => Err(framing_error(e)),
        Ok(p1) => match sp_bytes(b, p1) {
            Err(e) => Err(framing_error(e)),
            Ok((d, p2)) => if d.len() == 0 {
                Err(MultiScalarTrustedStateCodecError::Domain(ProjectionError::EmptyDomainIdentifier))
            } else {
                match sp_bytes(b, p2) {
                    Err(e) => Err(framing_error(e)),
                    Ok((sb, p3)) => Ok((AtomId::from_view(b.subrange(pos, p1)), d, sb, p3)),
                }
            },
        },
    }
}

/// What reading `n` more entries from `pos` gives, the entries read so far
/// forming `acc`: a framing error, the nested image's own refusal, a
/// repeated domain, or, after the last entry, trailing bytes.
#[verifier::opaque]
pub open spec fn set_entries_outcome(
    b: Seq<u8>,
    pos: int,
    n: nat,
    acc: Map<(AtomId, Seq<u8>), DomainModel>,
    r: Result<Map<(AtomId, Seq<u8>), DomainModel>, MultiScalarTrustedStateCodecError>,
) -> bool
    decreases n,
{
    if n == 0 {
        if pos != b.len() {
            r == Err::<Map<(AtomId, Seq<u8>), DomainModel>, MultiScalarTrustedStateCodecError>(MultiScalarTrustedStateCodecError::TrailingBytes)
        } else {
            r == Ok::<Map<(AtomId, Seq<u8>), DomainModel>, MultiScalarTrustedStateCodecError>(acc)
        }
    } else {
        match sp_entry_frame(b, pos) {
            Err(e) => r == Err::<Map<(AtomId, Seq<u8>), DomainModel>, MultiScalarTrustedStateCodecError>(e),
            Ok((a, d, sb, p3)) => exists|ir: Result<DomainModel, ImageError>| #[trigger]
                decode_outcome(sb, recovery_magic(), ir) && match ir {
                    Err(ie) => r == Err::<Map<(AtomId, Seq<u8>), DomainModel>, MultiScalarTrustedStateCodecError>(
                        MultiScalarTrustedStateCodecError::Scalar(recovery_error(ie)),
                    ),
                    Ok(m) => if acc.contains_key((a, d)) {
                        r == Err::<Map<(AtomId, Seq<u8>), DomainModel>, MultiScalarTrustedStateCodecError>(
                            MultiScalarTrustedStateCodecError::DuplicateDomain,
                        )
                    } else {
                        set_entries_outcome(b, p3, (n - 1) as nat, acc.insert((a, d), m), r)
                    },
                },
        }
    }
}

/// What decoding `b` gives.
pub open spec fn set_decode_outcome(
    b: Seq<u8>,
    r: Result<Map<(AtomId, Seq<u8>), DomainModel>, MultiScalarTrustedStateCodecError>,
) -> bool {
    match sp_take(b, 0, 8) {
        Err(e) => r == Err::<Map<(AtomId, Seq<u8>), DomainModel>, MultiScalarTrustedStateCodecError>(framing_error(e)),
        Ok(p) => if b.subrange(0, 8) != set_magic() {
            r == Err::<Map<(AtomId, Seq<u8>), DomainModel>, MultiScalarTrustedStateCodecError>(MultiScalarTrustedStateCodecError::InvalidMagic)
        } else {
            match sp_u16(b, p) {
                Err(e) => r == Err::<Map<(AtomId, Seq<u8>), DomainModel>, MultiScalarTrustedStateCodecError>(framing_error(e)),
                Ok((version, p2)) => if version != SET_VERSION {
                    r == Err::<Map<(AtomId, Seq<u8>), DomainModel>, MultiScalarTrustedStateCodecError>(
                        MultiScalarTrustedStateCodecError::UnsupportedVersion { version },
                    )
                } else {
                    match sp_len(b, p2) {
                        Err(e) => r == Err::<Map<(AtomId, Seq<u8>), DomainModel>, MultiScalarTrustedStateCodecError>(framing_error(e)),
                        Ok((n, p3)) => set_entries_outcome(b, p3, n, Map::empty(), r),
                    }
                },
            }
        },
    }
}

/// The last step of reading entries.
proof fn lemma_entries_end(b: Seq<u8>, pos: int, acc: Map<(AtomId, Seq<u8>), DomainModel>)
    ensures
        pos == b.len() ==> set_entries_outcome(b, pos, 0, acc, Ok(acc)),
        pos != b.len() ==> set_entries_outcome(b, pos, 0, acc, Err(MultiScalarTrustedStateCodecError::TrailingBytes)),
{
    reveal(set_entries_outcome);
}

/// A framing failure while reading an entry is the outcome.
proof fn lemma_entries_frame_error(b: Seq<u8>, pos: int, n: nat, acc: Map<(AtomId, Seq<u8>), DomainModel>)
    requires
        n > 0,
        sp_entry_frame(b, pos) is Err,
    ensures
        set_entries_outcome(b, pos, n, acc, Err(sp_entry_frame(b, pos)->Err_0)),
{
    reveal(set_entries_outcome);
}

/// A refused nested image is the outcome.
proof fn lemma_entries_scalar_error(
    b: Seq<u8>,
    pos: int,
    n: nat,
    acc: Map<(AtomId, Seq<u8>), DomainModel>,
    ie: ImageError,
)
    requires
        n > 0,
        sp_entry_frame(b, pos) is Ok,
        decode_outcome(sp_entry_frame(b, pos)->Ok_0.2, recovery_magic(), Err(ie)),
    ensures
        set_entries_outcome(b, pos, n, acc, Err(MultiScalarTrustedStateCodecError::Scalar(recovery_error(ie)))),
{
    reveal(set_entries_outcome);
    let ir = Err::<DomainModel, ImageError>(ie);
    assert(decode_outcome(sp_entry_frame(b, pos)->Ok_0.2, recovery_magic(), ir));
}

/// A repeated domain is the outcome.
proof fn lemma_entries_duplicate(
    b: Seq<u8>,
    pos: int,
    n: nat,
    acc: Map<(AtomId, Seq<u8>), DomainModel>,
    m: DomainModel,
)
    requires
        n > 0,
        sp_entry_frame(b, pos) is Ok,
        image_decodes(sp_entry_frame(b, pos)->Ok_0.2, m),
        acc.contains_key((sp_entry_frame(b, pos)->Ok_0.0, sp_entry_frame(b, pos)->Ok_0.1)),
    ensures
        set_entries_outcome(b, pos, n, acc, Err(MultiScalarTrustedStateCodecError::DuplicateDomain)),
{
    reveal(set_entries_outcome);
    reveal(image_decodes);
    let ir = Ok::<DomainModel, ImageError>(m);
    assert(decode_outcome(sp_entry_frame(b, pos)->Ok_0.2, recovery_magic(), ir));
}

/// After a new entry, the rest of the reading decides the outcome.
proof fn lemma_entries_step(
    b: Seq<u8>,
    pos: int,
    n: nat,
    acc: Map<(AtomId, Seq<u8>), DomainModel>,
    m: DomainModel,
    r: Result<Map<(AtomId, Seq<u8>), DomainModel>, MultiScalarTrustedStateCodecError>,
)
    requires
        n > 0,
        sp_entry_frame(b, pos) is Ok,
        image_decodes(sp_entry_frame(b, pos)->Ok_0.2, m),
        !acc.contains_key((sp_entry_frame(b, pos)->Ok_0.0, sp_entry_frame(b, pos)->Ok_0.1)),
        set_entries_outcome(
            b,
            sp_entry_frame(b, pos)->Ok_0.3,
            (n - 1) as nat,
            acc.insert((sp_entry_frame(b, pos)->Ok_0.0, sp_entry_frame(b, pos)->Ok_0.1), m),
            r,
        ),
    ensures
        set_entries_outcome(b, pos, n, acc, r),
{
    reveal(set_entries_outcome);
    reveal(image_decodes);
    let ir = Ok::<DomainModel, ImageError>(m);
    assert(decode_outcome(sp_entry_frame(b, pos)->Ok_0.2, recovery_magic(), ir));
}

pub open spec fn set_result_view(r: Result<LocalScalarRecoveryState, MultiScalarTrustedStateCodecError>) -> Result<
    Map<(AtomId, Seq<u8>), DomainModel>,
    MultiScalarTrustedStateCodecError,
> {
    match r {
        Ok(s) => Ok(s@),
        Err(e) => Err(e),
    }
}

fn set_magic_bytes() -> (m: Vec<u8>)
    ensures
        m@ == set_magic(),
{
    let m = vec![0x41, 0x50, 0x43, 0x4c, 0x53, 0x45, 0x54, 0x31];
    assert(m@ =~= set_magic());
    m
}

fn append_slice(out: &mut Vec<u8>, s: &[u8])
    ensures
        final(out)@ == old(out)@ + s@,
{
    let mut i: usize = 0;
    while i < s.len()
        invariant
            i <= s@.len(),
            out@ == old(out)@ + s@.take(i as int),
        decreases s@.len() - i,
    {
        out.push(s[i]);
        assert(s@.take(i as int + 1) =~= s@.take(i as int).push(s@[i as int]));
        i = i + 1;
    }
    assert(s@.take(s@.len() as int) =~= s@);
}

/// Appends one entry.
fn write_entry(out: &mut Vec<u8>, key: &DomainKey, snapshot: &LocalScalarSnapshot) -> (r: Result<(), MultiScalarTrustedStateCodecError>)
    requires
        domain_consistent(snapshot@),
    ensures
        r is Ok,
        final(out)@ == old(out)@ + enc_entry((*key, *snapshot)),
        image_decodes(scalar_image(*snapshot), snapshot@),
        image_canonical(*snapshot),
{
    let atom = key.atom_id();
    let atom_bytes = atom.as_bytes();
    append_slice(out, atom_bytes.as_slice());
    write_bytes(out, key.domain());
    let scalar = match encode_local_scalar_snapshot(snapshot) {
        Ok(bytes) => bytes,
        Err(e) => {
            return Err(MultiScalarTrustedStateCodecError::Scalar(e));
        },
    };
    proof {
        reveal(scalar_image);
        reveal(image_decodes);
    }
    write_bytes(out, scalar.as_slice());
    Ok(())
}

/// Encodes a recovery state deterministically, domains in canonical key
/// order, each with its nested scalar image; decoding the result gives the
/// state back.
pub fn encode_multi_scalar_recovery_state(state: &LocalScalarRecoveryState) -> (r: Result<Vec<u8>, MultiScalarTrustedStateCodecError>)
    ensures
        r matches Ok(out) && out@ == enc_set(state.entries()),
        r matches Ok(out) ==> set_decode_outcome(out@, Ok(state@)),
        entries_valid(state.entries()),
        images_canonical(state.entries()),
{
    let entries = state.domains();
    proof {
        lemma_byte_bound_8();
    }
    let mut out = set_magic_bytes();
    push_be(&mut out, 1, 2);
    write_len(&mut out, entries.len());
    let ghost head = out@;
    let mut i: usize = 0;
    proof {
        assert(entries@.take(0) =~= Seq::<(DomainKey, LocalScalarSnapshot)>::empty());
        assert(out@ =~= head + enc_entries(entries@.take(0)));
    }
    while i < entries.len()
        invariant
            i <= entries@.len(),
            entries_valid(entries@),
            out@ == head + enc_entries(entries@.take(i as int)),
            forall|j: int| 0 <= j < i ==> image_decodes(#[trigger] scalar_image(entries@[j].1), entries@[j].1@),
            forall|j: int| 0 <= j < i ==> image_canonical(#[trigger] entries@[j].1),
        decreases entries@.len() - i,
    {
        let ghost before = out@;
        let _ = write_entry(&mut out, &entries[i].0, &entries[i].1);
        proof {
            let t = entries@.take(i as int + 1);
            assert(t.drop_last() =~= entries@.take(i as int));
            assert(t.last() == entries@[i as int]);
            assert(out@ =~= head + enc_entries(t));
        }
        i = i + 1;
    }
    proof {
        assert(entries@.take(entries@.len() as int) =~= entries@);
        let n = out.len();
        assert(out@ =~= enc_set(entries@));
        lemma_set_decode_encoded(entries@, out@);
        state.lemma_valid();
    }
    Ok(out)
}

/// The encoding of the first `k` entries is a prefix of that of the first
/// `m`.
proof fn lemma_enc_entries_prefix(s: Seq<(DomainKey, LocalScalarSnapshot)>, k: int, m: int)
    requires
        0 <= k <= m <= s.len(),
    ensures
        enc_entries(s.take(k)).len() <= enc_entries(s.take(m)).len(),
        enc_entries(s.take(m)).subrange(0, enc_entries(s.take(k)).len() as int) == enc_entries(s.take(k)),
    decreases m - k,
{
    if k < m {
        lemma_enc_entries_prefix(s, k, m - 1);
        assert(s.take(m).drop_last() =~= s.take(m - 1));
        let a = enc_entries(s.take(k));
        let b = enc_entries(s.take(m - 1));
        let c = enc_entries(s.take(m));
        assert(c == b + enc_entry(s.take(m).last()));
        assert(c.subrange(0, a.len() as int) =~= b.subrange(0, a.len() as int));
    } else {
        assert(enc_entries(s.take(m)).subrange(0, enc_entries(s.take(m)).len() as int) =~= enc_entries(s.take(m)));
    }
}

proof fn lemma_len_bytes(v: nat)
    ensures
        be_bytes(v, 8).len() == 8,
{
    reveal_with_fuel(be_bytes, 9);
}

/// Reading one length-prefixed byte string where the encoding of `v` stands.
proof fn lemma_read_bytes(b: Seq<u8>, p: int, v: Seq<u8>)
    requires
        0 <= p,
        p + 8 + v.len() <= b.len(),
        b.len() <= usize::MAX,
        b.subrange(p, p + 8 + v.len()) == enc_bytes(v),
    ensures
        sp_bytes(b, p) == Ok::<(Seq<u8>, int), ImageError>((v, p + 8 + v.len())),
{
    lemma_byte_bound_8();
    lemma_be_round_trip(v.len(), 8);
    lemma_len_bytes(v.len());
    assert(b.subrange(p, p + 8) =~= be_bytes(v.len(), 8)) by {
        assert forall|j: int| 0 <= j < 8 implies b.subrange(p, p + 8)[j] == be_bytes(v.len(), 8)[j] by {
            assert(b.subrange(p, p + 8 + v.len())[j] == enc_bytes(v)[j]);
        }
    }
    assert(b.subrange(p + 8, p + 8 + v.len()) =~= v) by {
        assert forall|j: int| 0 <= j < v.len() implies b.subrange(p + 8, p + 8 + v.len())[j] == v[j] by {
            assert(b.subrange(p, p + 8 + v.len())[8 + j] == enc_bytes(v)[8 + j]);
        }
    }
}

/// The framing of an encoded entry reads back its key and nested image.
proof fn lemma_entry_frame_encoded(b: Seq<u8>, p0: int, e: (DomainKey, LocalScalarSnapshot))
    requires
        0 <= p0,
        p0 + enc_entry(e).len() <= b.len(),
        b.len() <= usize::MAX,
        b.subrange(p0, p0 + enc_entry(e).len()) == enc_entry(e),
        e.0@.1.len() > 0,
    ensures
        sp_entry_frame(b, p0) == Ok::<(AtomId, Seq<u8>, Seq<u8>, int), MultiScalarTrustedStateCodecError>(
            (e.0@.0, e.0@.1, scalar_image(e.1), p0 + enc_entry(e).len()),
        ),
{
    let atom = e.0@.0;
    let dom = e.0@.1;
    let img = scalar_image(e.1);
    lemma_len_bytes(dom.len());
    lemma_len_bytes(img.len());
    let p1 = p0 + 32;
    let p2 = p1 + 8 + dom.len();
    let p3 = p2 + 8 + img.len();
    let x = enc_entry(e);
    assert(x == atom@ + enc_bytes(dom) + enc_bytes(img));
    assert(p3 == p0 + x.len());
    assert forall|j: int| p0 <= j < p3 implies b[j] == x[j - p0] by {
        assert(b.subrange(p0, p0 + x.len())[j - p0] == x[j - p0]);
    }
    assert(b.subrange(p0, p1) =~= atom@);
    assert(b.subrange(p1, p2) =~= enc_bytes(dom));
    assert(b.subrange(p2, p3) =~= enc_bytes(img));
    lemma_read_bytes(b, p1, dom);
    lemma_read_bytes(b, p2, img);
    AtomId::lemma_from_view(atom@);
    AtomId::lemma_view_injective(AtomId::from_view(b.subrange(p0, p1)), atom);
}

/// The window of an encoding that holds entry `k - 1`.
proof fn lemma_entry_window(b: Seq<u8>, pos: int, s: Seq<(DomainKey, LocalScalarSnapshot)>, k: int)
    requires
        1 <= k <= s.len(),
        0 <= pos,
        pos + enc_entries(s).len() <= b.len(),
        b.subrange(pos, pos + enc_entries(s).len()) == enc_entries(s),
    ensures
        enc_entries(s.take(k)) == enc_entries(s.take(k - 1)) + enc_entry(s[k - 1]),
        pos + enc_entries(s.take(k)).len() <= b.len(),
        b.subrange(pos + enc_entries(s.take(k - 1)).len(), pos + enc_entries(s.take(k)).len()) == enc_entry(s[k - 1]),
{
    lemma_enc_entries_prefix(s, k, s.len() as int);
    assert(s.take(s.len() as int) =~= s);
    let t0 = s.take(k - 1);
    let t1 = s.take(k);
    assert(t1.drop_last() =~= t0);
    assert(t1.last() == s[k - 1]);
    let e = enc_entry(s[k - 1]);
    let e0 = enc_entries(t0);
    let e1 = enc_entries(t1);
    let whole = enc_entries(s);
    assert(e1 == e0 + e);
    let p0 = pos + e0.len();
    assert(b.subrange(p0, p0 + e.len()) =~= e) by {
        assert forall|j: int| 0 <= j < e.len() implies b.subrange(p0, p0 + e.len())[j] == e[j] by {
            assert(b.subrange(pos, pos + whole.len())[e0.len() + j] == whole[e0.len() + j]);
            assert(whole.subrange(0, e1.len() as int)[e0.len() + j] == e1[e0.len() + j]);
        }
    }
}

/// The key of entry `k - 1` is new among the first `k - 1` entries, which
/// it then extends.
proof fn lemma_entry_new_key(s: Seq<(DomainKey, LocalScalarSnapshot)>, k: int)
    requires
        1 <= k <= s.len(),
        keys_sorted(s),
    ensures
        !entry_map(s.take(k - 1)).contains_key(s[k - 1].0@),
        entry_map(s.take(k)) == entry_map(s.take(k - 1)).insert(s[k - 1].0@, s[k - 1].1@),
{
    let t0 = s.take(k - 1);
    let t1 = s.take(k);
    assert(t1.drop_last() =~= t0);
    assert(t1.last() == s[k - 1]);
    assert(keys_sorted(t0));
    lemma_entry_map(t0);
    if entry_map(t0).contains_key(s[k - 1].0@) {
        let j = choose|j: int| 0 <= j < t0.len() && t0[j].0@ == s[k - 1].0@;
        assert(t0[j] == s[j]);
        assert(key_lt(s[j].0@, s[k - 1].0@));
        lemma_key_total(s[j].0@, s[k - 1].0@);
    }
}

/// Reading the entries of an encoding from the end of the first `k`: the
/// rest reads back the remaining entries and ends with all of them.
proof fn lemma_set_entries_parse(b: Seq<u8>, pos: int, s: Seq<(DomainKey, LocalScalarSnapshot)>, k: int)
    requires
        0 <= k <= s.len(),
        0 <= pos,
        b.len() <= usize::MAX,
        pos + enc_entries(s).len() == b.len(),
        b.subrange(pos, pos + enc_entries(s).len()) == enc_entries(s),
        entries_valid(s),
        forall|j: int| 0 <= j < s.len() ==> image_decodes(#[trigger] scalar_image(s[j].1), s[j].1@),
    ensures
        set_entries_outcome(b, pos + enc_entries(s.take(k)).len(), (s.len() - k) as nat, entry_map(s.take(k)), Ok(entry_map(s))),
    decreases s.len() - k,
{
    if k == s.len() {
        assert(s.take(k) =~= s);
        lemma_entries_end(b, pos + enc_entries(s).len(), entry_map(s));
    } else {
        lemma_set_entries_parse(b, pos, s, k + 1);
        lemma_entry_window(b, pos, s, k + 1);
        lemma_entry_new_key(s, k + 1);
        let e = s[k];
        let p0 = pos + enc_entries(s.take(k)).len();
        lemma_entry_frame_encoded(b, p0, e);
        assert(image_decodes(scalar_image(e.1), e.1@));
        lemma_entries_step(b, p0, (s.len() - k) as nat, entry_map(s.take(k)), e.1@, Ok(entry_map(s)));
    }
}

/// Decoding the encoding of valid entries gives their map back.
proof fn lemma_set_decode_encoded(s: Seq<(DomainKey, LocalScalarSnapshot)>, b: Seq<u8>)
    requires
        b == enc_set(s),
        b.len() <= usize::MAX,
        entries_valid(s),
        forall|j: int| 0 <= j < s.len() ==> image_decodes(#[trigger] scalar_image(s[j].1), s[j].1@),
    ensures
        set_decode_outcome(b, Ok(entry_map(s))),
{
    lemma_byte_bound_8();
    lemma_be_round_trip(SET_VERSION as nat, 2);
    lemma_len_bytes(s.len());
    assert(s.len() <= b.len()) by {
        lemma_entries_len_bound(s);
    }
    lemma_be_round_trip(s.len(), 8);
    let body = enc_entries(s);
    assert(b == set_magic() + be_bytes(1, 2) + be_bytes(s.len(), 8) + body);
    assert(b.subrange(0, 8) =~= set_magic());
    assert(b.subrange(8, 10) =~= be_bytes(1, 2));
    assert(b.subrange(10, 18) =~= be_bytes(s.len(), 8));
    assert(b.subrange(18, 18 + body.len() as int) =~= body);
    lemma_set_entries_parse(b, 18, s, 0);
    assert(s.take(0) =~= Seq::<(DomainKey, LocalScalarSnapshot)>::empty());
    assert(sp_take(b, 0, 8) == Ok::<int, ImageError>(8));
    assert(sp_u16(b, 8) == Ok::<(u16, int), ImageError>((1, 10)));
    assert(sp_len(b, 10) == Ok::<(nat, int), ImageError>((s.len(), 18)));
}

/// Every entry takes at least one byte of the encoding.
proof fn lemma_entries_len_bound(s: Seq<(DomainKey, LocalScalarSnapshot)>)
    ensures
        s.len() <= enc_entries(s).len(),
    decreases s.len(),
{
    if s.len() > 0 {
        lemma_entries_len_bound(s.drop_last());
        lemma_len_bytes(s.last().0@.1.len());
    }
}

/// Reads the framing of one entry.
fn read_entry_frame(reader: &mut Reader) -> (r: Result<(DomainKey, Vec<u8>), MultiScalarTrustedStateCodecError>)
    requires
        old(reader).pos() <= old(reader).data().len(),
    ensures
        final(reader).data() == old(reader).data(),
        final(reader).pos() <= final(reader).data().len(),
        match sp_entry_frame(old(reader).data(), old(reader).pos()) {
            Ok((a, d, sb, p3)) => r matches Ok((k, v)) && k@ == (a, d) && v@ == sb && final(reader).pos() == p3,
            Err(e) => r == Err::<(DomainKey, Vec<u8>), MultiScalarTrustedStateCodecError>(e),
        },
{
    let ghost b = reader.data();
    let ghost pos = reader.pos();
    proof {
        reader.lemma_pos();
    }
    let atom_slice = match reader.read_exact(32) {
        Ok(s) => s,
        Err(e) => {
            return Err(convert_framing(e));
        },
    };
    let ghost p1 = reader.pos();
    proof {
        assert(sp_take(b, pos, 32) == Ok::<int, ImageError>(pos + 32));
        assert(atom_slice@ == b.subrange(pos, pos + 32));
    }
    let atom = AtomId::from_bytes(array_from_slice(atom_slice));
    proof {
        AtomId::lemma_from_view(b.subrange(pos, p1));
        AtomId::lemma_view_injective(AtomId::from_view(b.subrange(pos, p1)), atom);
    }
    let domain = match reader.read_vec() {
        Ok(d) => d,
        Err(e) => {
            return Err(convert_framing(e));
        },
    };
    let key = match DomainKey::new(atom, domain) {
        Ok(key) => key,
        Err(e) => {
            return Err(MultiScalarTrustedStateCodecError::Domain(e));
        },
    };
    let scalar = match reader.read_vec() {
        Ok(s) => s,
        Err(e) => {
            return Err(convert_framing(e));
        },
    };
    Ok((key, scalar))
}

/// Decodes a recovery state: the framing, then each domain key and nested
/// scalar image, which is checked as restore would check it; a repeated
/// domain is refused.
pub fn decode_multi_scalar_recovery_state(encoded: &[u8]) -> (r: Result<LocalScalarRecoveryState, MultiScalarTrustedStateCodecError>)
    ensures
        set_decode_outcome(encoded@, set_result_view(r)),
{
    let ghost b = encoded@;
    let mut reader = Reader::new(encoded);
    let tag = match reader.read_exact(8) {
        Ok(t) => t,
        Err(e) => {
            return Err(convert_framing(e));
        },
    };
    let magic = set_magic_bytes();
    if compare_bytes(tag, magic.as_slice()) != 0 {
        return Err(MultiScalarTrustedStateCodecError::InvalidMagic);
    }
    let version = match reader.read_u16() {
        Ok(v) => v,
        Err(e) => {
            return Err(convert_framing(e));
        },
    };
    if version != SET_VERSION {
        return Err(MultiScalarTrustedStateCodecError::UnsupportedVersion { version });
    }
    let count = match reader.read_len() {
        Ok(n) => n,
        Err(e) => {
            return Err(convert_framing(e));
        },
    };
    let mut state = LocalScalarRecoveryState::new();
    let mut k: usize = 0;
    while k < count
        invariant
            reader.data() == b,
            b == encoded@,
            reader.pos() <= b.len(),
            k <= count,
            forall|r: Result<Map<(AtomId, Seq<u8>), DomainModel>, MultiScalarTrustedStateCodecError>|
                #[trigger] set_entries_outcome(b, reader.pos(), (count - k) as nat, state@, r) ==> set_decode_outcome(b, r),
        decreases count - k,
    {
        let ghost pos = reader.pos();
        let ghost acc = state@;
        let ghost n = (count - k) as nat;
        proof {
            reader.lemma_pos();
        }
        let (key, scalar) = match read_entry_frame(&mut reader) {
            Ok(frame) => frame,
            Err(e) => {
                proof {
                    lemma_entries_frame_error(b, pos, n, acc);
                }
                return Err(e);
            },
        };
        let snapshot = match decode_local_scalar_snapshot(scalar.as_slice()) {
            Ok(s) => s,
            Err(e) => {
                proof {
                    let ir = choose|ir: Result<DomainModel, ImageError>| decode_outcome(scalar@, recovery_magic(), ir)
                        && #[trigger] recovery_codec_result(ir) == recovery_decoded_view(Err::<LocalScalarSnapshot, TrustedStateCodecError>(e));
                    lemma_entries_scalar_error(b, pos, n, acc, ir->Err_0);
                }
                return Err(MultiScalarTrustedStateCodecError::Scalar(e));
            },
        };
        let ghost m = snapshot@;
        proof {
            let ir = choose|ir: Result<DomainModel, ImageError>| decode_outcome(scalar@, recovery_magic(), ir)
                && #[trigger] recovery_codec_result(ir) == recovery_decoded_view(Ok::<LocalScalarSnapshot, TrustedStateCodecError>(snapshot));
            assert(ir == Ok::<DomainModel, ImageError>(m));
            reveal(image_decodes);
            assert(image_decodes(scalar@, m));
        }
        let ghost kv = key@;
        if state.insert_new(key, snapshot).is_err() {
            proof {
                lemma_entries_duplicate(b, pos, n, acc, m);
            }
            return Err(MultiScalarTrustedStateCodecError::DuplicateDomain);
        }
        k = k + 1;
        proof {
            assert(sp_entry_frame(b, pos) is Ok);
            assert(!acc.contains_key(kv));
            assert(state@ == acc.insert(kv, m));
            assert(kv == (sp_entry_frame(b, pos)->Ok_0.0, sp_entry_frame(b, pos)->Ok_0.1));
            assert(reader.pos() == sp_entry_frame(b, pos)->Ok_0.3);
            assert(image_decodes(sp_entry_frame(b, pos)->Ok_0.2, m));
            assert forall|r: Result<Map<(AtomId, Seq<u8>), DomainModel>, MultiScalarTrustedStateCodecError>|
                #[trigger] set_entries_outcome(b, reader.pos(), (count - k) as nat, state@, r) implies set_decode_outcome(b, r) by {
                lemma_entries_step(b, pos, n, acc, m, r);
            }
        }
        
    }
    proof {
        lemma_entries_end(b, reader.pos(), state@);
    }
    if !reader.is_finished() {
        proof {
            let r = Err::<Map<(AtomId, Seq<u8>), DomainModel>, MultiScalarTrustedStateCodecError>(MultiScalarTrustedStateCodecError::TrailingBytes);
            assert(set_entries_outcome(b, reader.pos(), (count - k) as nat, state@, r));
        }
        return Err(MultiScalarTrustedStateCodecError::TrailingBytes);
    }
    proof {
        let r = Ok::<Map<(AtomId, Seq<u8>), DomainModel>, MultiScalarTrustedStateCodecError>(state@);
        assert(set_entries_outcome(b, reader.pos(), (count - k) as nat, state@, r));
    }
    Ok(state)
}

/// The development codec of a multi-domain recovery state.
#[derive(Clone, Copy, Debug, Default)]
pub struct DevelopmentMultiScalarTrustedStateCodec;

impl TrustedStateCodec<LocalScalarRecoveryState> for DevelopmentMultiScalarTrustedStateCodec {
    type Error = MultiScalarTrustedStateCodecError;

    open spec fn decodes(&self, bytes: Seq<u8>, r: Result<LocalScalarRecoveryState, MultiScalarTrustedStateCodecError>) -> bool {
        set_decode_outcome(bytes, set_result_view(r))
    }

    fn encode(&self, state: &LocalScalarRecoveryState) -> (r: Result<Vec<u8>, MultiScalarTrustedStateCodecError>)
        ensures
            r matches Ok(out) && out@ == enc_set(state.entries()),
            r matches Ok(out) ==> set_decode_outcome(out@, Ok(state@)),
    {
        encode_multi_scalar_recovery_state(state)
    }

    fn decode(&self, bytes: &[u8]) -> (r: Result<LocalScalarRecoveryState, MultiScalarTrustedStateCodecError>) {
        decode_multi_scalar_recovery_state(bytes)
    }
}

} // verus!

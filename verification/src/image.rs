//! Byte format of local scalar recovery images.
//!
//! An image is a magic tag, a big-endian format version, and then the causal
//! register, the pending epoch and the finalization bookkeeping. Lengths are
//! big-endian 64-bit counts, identities are their raw bytes, sets and maps are
//! written in canonical identity order. Decoding accepts items in any order but
//! refuses repeats, truncation, trailing bytes and semantically invalid state.
use vstd::prelude::*;

use crate::bytes::{
    be_bytes, be_value, byte_bound, lemma_be_round_trip, lemma_be_value_bound, lemma_byte_bound_8, push_be, read_be,
};
use crate::domain::{domain_consistent, domain_restore_refusal, DomainModel, LocalScalarDomain, LocalScalarSnapshot};
use crate::error::CoreError;
use crate::finalization::{FinalizationSnapshot, LedgerModel};
use crate::order::compare_bytes;
use crate::graph::{Graph, RevisionModel};
use crate::id::{array_from_slice, RevisionId, WorkingEpochId};
use crate::finalization::{FinalizedMap, FinalizedStatement};
use crate::idset::RevisionSet;
use crate::scalar::{models_graph, model_conflict_free, register_outcome, revision_models, ScalarRegister, ScalarRevision};
use crate::graph::{acyclic, parents_closed, valid_graph};
use crate::working::{EpochModel, WorkingEpoch, WorkingModel, WorkingSnapshot};

verus! {

broadcast use {RevisionId::lemma_view_len, WorkingEpochId::lemma_view_len};

/// Ways in which a recovery image is refused.
#[derive(Debug, Clone, PartialEq, Eq)]
pub enum ImageError {
    InvalidMagic,
    UnsupportedVersion { version: u16 },
    UnexpectedEof,
    LengthOverflow,
    InvalidOptionTag { tag: u8 },
    DuplicateRevisionInSet,
    DuplicateFinalizedStatement,
    TrailingBytes,
    Core(CoreError),
}

/// The only image format version.
pub const IMAGE_VERSION: u16 = 1;

// ---------------------------------------------------------------- reading, in spec

/// Taking `n` bytes at `pos`: the new position.
pub open spec fn sp_take(b: Seq<u8>, pos: int, n: int) -> Result<int, ImageError> {
    if pos + n > usize::MAX {
        Err(ImageError::LengthOverflow)
    } else if pos + n > b.len() {
        Err(ImageError::UnexpectedEof)
    } else {
        Ok(pos + n)
    }
}

pub open spec fn sp_u8(b: Seq<u8>, pos: int) -> Result<(u8, int), ImageError> {
    match sp_take(b, pos, 1) {
        Ok(p) => Ok((b[pos], p)),
        Err(e) => Err(e),
    }
}

pub open spec fn sp_u16(b: Seq<u8>, pos: int) -> Result<(u16, int), ImageError> {
    match sp_take(b, pos, 2) {
        Ok(p) => Ok((be_value(b.subrange(pos, p)) as u16, p)),
        Err(e) => Err(e),
    }
}

pub open spec fn sp_u64(b: Seq<u8>, pos: int) -> Result<(u64, int), ImageError> {
    match sp_take(b, pos, 8) {
        Ok(p) => Ok((be_value(b.subrange(pos, p)) as u64, p)),
        Err(e) => Err(e),
    }
}

/// A length: a 64-bit count that must fit the platform's sizes.
pub open spec fn sp_len(b: Seq<u8>, pos: int) -> Result<(nat, int), ImageError> {
    match sp_u64(b, pos) {
        Ok((v, p)) => if v > usize::MAX {
            Err(ImageError::LengthOverflow)
        } else {
            Ok((v as nat, p))
        },
        Err(e) => Err(e),
    }
}

/// A length-prefixed byte string.
pub open spec fn sp_bytes(b: Seq<u8>, pos: int) -> Result<(Seq<u8>, int), ImageError> {
    match sp_len(b, pos) {
        Ok((n, p)) => match sp_take(b, p, n as int) {
            Ok(p2) => Ok((b.subrange(p, p2), p2)),
            Err(e) => Err(e),
        },
        Err(e) => Err(e),
    }
}

pub open spec fn sp_rid(b: Seq<u8>, pos: int) -> Result<(RevisionId, int), ImageError> {
    match sp_take(b, pos, 32) {
        Ok(p) => Ok((RevisionId::from_view(b.subrange(pos, p)), p)),
        Err(e) => Err(e),
    }
}

pub open spec fn sp_wid(b: Seq<u8>, pos: int) -> Result<(WorkingEpochId, int), ImageError> {
    match sp_take(b, pos, 32) {
        Ok(p) => Ok((WorkingEpochId::from_view(b.subrange(pos, p)), p)),
        Err(e) => Err(e),
    }
}

/// `n` identities added to `seen`; a repeat is refused.
pub open spec fn sp_id_items(b: Seq<u8>, pos: int, n: nat, seen: Set<RevisionId>) -> Result<(Set<RevisionId>, int), ImageError>
    decreases n,
{
    if n == 0 {
        Ok((seen, pos))
    } else {
        match sp_rid(b, pos) {
            Ok((id, p)) => if seen.contains(id) {
                Err(ImageError::DuplicateRevisionInSet)
            } else {
                sp_id_items(b, p, (n - 1) as nat, seen.insert(id))
            },
            Err(e) => Err(e),
        }
    }
}

/// A counted set of identities.
pub open spec fn sp_id_set(b: Seq<u8>, pos: int) -> Result<(Set<RevisionId>, int), ImageError> {
    match sp_len(b, pos) {
        Ok((n, p)) => sp_id_items(b, p, n, Set::empty()),
        Err(e) => Err(e),
    }
}

/// One statement: identity, value and parents.
pub open spec fn sp_statement(b: Seq<u8>, pos: int) -> Result<(RevisionModel, int), ImageError> {
    match sp_rid(b, pos) {
        Ok((id, p1)) => match sp_bytes(b, p1) {
            Ok((value, p2)) => match sp_id_set(b, p2) {
                Ok((parents, p3)) => Ok((RevisionModel { id, value, parents }, p3)),
                Err(e) => Err(e),
            },
            Err(e) => Err(e),
        },
        Err(e) => Err(e),
    }
}

/// `n` statements appended to `acc`.
pub open spec fn sp_statements(b: Seq<u8>, pos: int, n: nat, acc: Seq<RevisionModel>) -> Result<(Seq<RevisionModel>, int), ImageError>
    decreases n,
{
    if n == 0 {
        Ok((acc, pos))
    } else {
        match sp_statement(b, pos) {
            Ok((r, p)) => sp_statements(b, p, (n - 1) as nat, acc.push(r)),
            Err(e) => Err(e),
        }
    }
}

/// `n` frozen statements added to `acc`; a repeated identity is refused.
pub open spec fn sp_finalized_items(b: Seq<u8>, pos: int, n: nat, acc: Graph) -> Result<(Graph, int), ImageError>
    decreases n,
{
    if n == 0 {
        Ok((acc, pos))
    } else {
        match sp_statement(b, pos) {
            Ok((r, p)) => if acc.contains_key(r.id) {
                Err(ImageError::DuplicateFinalizedStatement)
            } else {
                sp_finalized_items(b, p, (n - 1) as nat, acc.insert(r.id, r))
            },
            Err(e) => Err(e),
        }
    }
}

/// The pending epoch: tag 0 for none, 1 for an epoch.
pub open spec fn sp_pending(b: Seq<u8>, pos: int) -> Result<(Option<EpochModel>, int), ImageError> {
    match sp_u8(b, pos) {
        Ok((tag, p)) => if tag == 0 {
            Ok((None, p))
        } else if tag == 1 {
            match sp_wid(b, p) {
                Ok((id, p1)) => match sp_bytes(b, p1) {
                    Ok((value, p2)) => match sp_id_set(b, p2) {
                        Ok((observed_frontier, p3)) => Ok((Some(EpochModel { id, value, observed_frontier }), p3)),
                        Err(e) => Err(e),
                    },
                    Err(e) => Err(e),
                },
                Err(e) => Err(e),
            }
        } else {
            Err(ImageError::InvalidOptionTag { tag })
        },
        Err(e) => Err(e),
    }
}

// ---------------------------------------------------------------- reading, executable

/// A cursor over the bytes of an image.
pub struct Reader<'a> {
    bytes: &'a [u8],
    position: usize,
}

impl<'a> Reader<'a> {
    pub closed spec fn data(&self) -> Seq<u8> {
        self.bytes@
    }

    pub closed spec fn pos(&self) -> int {
        self.position as int
    }

    /// A position is never negative.
    pub proof fn lemma_pos(&self)
        ensures
            0 <= self.pos(),
    {
    }

    pub fn new(bytes: &'a [u8]) -> (r: Self)
        ensures
            r.data() == bytes@,
            r.pos() == 0,
    {
        Reader { bytes, position: 0 }
    }

    pub fn is_finished(&self) -> (b: bool)
        ensures
            b == (self.pos() == self.data().len()),
    {
        self.position == self.bytes.len()
    }

    pub fn read_exact(&mut self, len: usize) -> (r: Result<&'a [u8], ImageError>)
        requires
            old(self).pos() <= old(self).data().len(),
        ensures
            final(self).data() == old(self).data(),
            final(self).pos() <= final(self).data().len(),
            match sp_take(old(self).data(), old(self).pos(), len as int) {
                Ok(p) => r matches Ok(s) && s@ == old(self).data().subrange(old(self).pos(), p)
                    && final(self).pos() == p,
                Err(e) => r == Err::<&'a [u8], ImageError>(e),
            },
    {
        let end = match self.position.checked_add(len) {
            Some(end) => end,
            None => {
                return Err(ImageError::LengthOverflow);
            },
        };
        if end > self.bytes.len() {
            return Err(ImageError::UnexpectedEof);
        }
        let s = slice_range(self.bytes, self.position, end);
        self.position = end;
        Ok(s)
    }

    pub fn read_u8(&mut self) -> (r: Result<u8, ImageError>)
        requires
            old(self).pos() <= old(self).data().len(),
        ensures
            final(self).data() == old(self).data(),
            final(self).pos() <= final(self).data().len(),
            match sp_u8(old(self).data(), old(self).pos()) {
                Ok((v, p)) => r == Ok::<u8, ImageError>(v) && final(self).pos() == p,
                Err(e) => r == Err::<u8, ImageError>(e),
            },
    {
        let s = self.read_exact(1)?;
        Ok(s[0])
    }

    pub fn read_u16(&mut self) -> (r: Result<u16, ImageError>)
        requires
            old(self).pos() <= old(self).data().len(),
        ensures
            final(self).data() == old(self).data(),
            final(self).pos() <= final(self).data().len(),
            match sp_u16(old(self).data(), old(self).pos()) {
                Ok((v, p)) => r == Ok::<u16, ImageError>(v) && final(self).pos() == p,
                Err(e) => r == Err::<u16, ImageError>(e),
            },
    {
        let s = self.read_exact(2)?;
        let v = read_be(s, 0, 2);
        proof {
            assert(s@.subrange(0, 2) =~= s@);
            lemma_be_value_bound(s@);
            lemma_byte_bound_8();
        }
        Ok(v as u16)
    }

    pub fn read_u64(&mut self) -> (r: Result<u64, ImageError>)
        requires
            old(self).pos() <= old(self).data().len(),
        ensures
            final(self).data() == old(self).data(),
            final(self).pos() <= final(self).data().len(),
            match sp_u64(old(self).data(), old(self).pos()) {
                Ok((v, p)) => r == Ok::<u64, ImageError>(v) && final(self).pos() == p,
                Err(e) => r == Err::<u64, ImageError>(e),
            },
    {
        let s = self.read_exact(8)?;
        let v = read_be(s, 0, 8);
        proof {
            assert(s@.subrange(0, 8) =~= s@);
        }
        Ok(v)
    }

    pub fn read_len(&mut self) -> (r: Result<usize, ImageError>)
        requires
            old(self).pos() <= old(self).data().len(),
        ensures
            final(self).data() == old(self).data(),
            final(self).pos() <= final(self).data().len(),
            match sp_len(old(self).data(), old(self).pos()) {
                Ok((v, p)) => r == Ok::<usize, ImageError>(v as usize) && final(self).pos() == p,
                Err(e) => r == Err::<usize, ImageError>(e),
            },
    {
        let v = self.read_u64()?;
        if v > usize::MAX as u64 {
            return Err(ImageError::LengthOverflow);
        }
        Ok(v as usize)
    }

    pub fn read_vec(&mut self) -> (r: Result<Vec<u8>, ImageError>)
        requires
            old(self).pos() <= old(self).data().len(),
        ensures
            final(self).data() == old(self).data(),
            final(self).pos() <= final(self).data().len(),
            match sp_bytes(old(self).data(), old(self).pos()) {
                Ok((v, p)) => r matches Ok(x) && x@ == v && final(self).pos() == p,
                Err(e) => r == Err::<Vec<u8>, ImageError>(e),
            },
    {
        let n = self.read_len()?;
        let s = self.read_exact(n)?;
        Ok(slice_to_vec(s))
    }

    pub fn read_revision_id(&mut self) -> (r: Result<RevisionId, ImageError>)
        requires
            old(self).pos() <= old(self).data().len(),
        ensures
            final(self).data() == old(self).data(),
            final(self).pos() <= final(self).data().len(),
            match sp_rid(old(self).data(), old(self).pos()) {
                Ok((v, p)) => r == Ok::<RevisionId, ImageError>(v) && final(self).pos() == p,
                Err(e) => r == Err::<RevisionId, ImageError>(e),
            },
    {
        let s = self.read_exact(32)?;
        let id = RevisionId::from_bytes(array_from_slice(s));
        proof {
            RevisionId::lemma_from_view(s@);
            RevisionId::lemma_view_injective(id, RevisionId::from_view(s@));
        }
        Ok(id)
    }

    pub fn read_working_epoch_id(&mut self) -> (r: Result<WorkingEpochId, ImageError>)
        requires
            old(self).pos() <= old(self).data().len(),
        ensures
            final(self).data() == old(self).data(),
            final(self).pos() <= final(self).data().len(),
            match sp_wid(old(self).data(), old(self).pos()) {
                Ok((v, p)) => r == Ok::<WorkingEpochId, ImageError>(v) && final(self).pos() == p,
                Err(e) => r == Err::<WorkingEpochId, ImageError>(e),
            },
    {
        let s = self.read_exact(32)?;
        let id = WorkingEpochId::from_bytes(array_from_slice(s));
        proof {
            WorkingEpochId::lemma_from_view(s@);
            WorkingEpochId::lemma_view_injective(id, WorkingEpochId::from_view(s@));
        }
        Ok(id)
    }
}

/// The bytes of `s` from `start` up to `end`.
fn slice_range<'a>(s: &'a [u8], start: usize, end: usize) -> (r: &'a [u8])
    requires
        start <= end <= s@.len(),
    ensures
        r@ == s@.subrange(start as int, end as int),
{
    &s[start..end]
}

/// A vector holding the bytes of `s`.
fn slice_to_vec(s: &[u8]) -> (v: Vec<u8>)
    ensures
        v@ == s@,
{
    let mut v: Vec<u8> = Vec::new();
    let mut i: usize = 0;
    while i < s.len()
        invariant
            i <= s@.len(),
            v@ == s@.take(i as int),
        decreases s@.len() - i,
    {
        v.push(s[i]);
        assert(s@.take(i as int + 1) =~= s@.take(i as int).push(s@[i as int]));
        i = i + 1;
    }
    assert(s@.take(s@.len() as int) =~= s@);
    v
}

/// A counted list of statements, framing only.
pub open spec fn sp_register(b: Seq<u8>, pos: int) -> Result<(Seq<RevisionModel>, int), ImageError> {
    match sp_len(b, pos) {
        Ok((n, p)) => sp_statements(b, p, n, Seq::empty()),
        Err(e) => Err(e),
    }
}

/// A counted map of frozen statements.
pub open spec fn sp_finalized(b: Seq<u8>, pos: int) -> Result<(Graph, int), ImageError> {
    match sp_len(b, pos) {
        Ok((n, p)) => sp_finalized_items(b, p, n, Map::empty()),
        Err(e) => Err(e),
    }
}

/// A register read from an image, as a graph; refusals are semantic.
pub open spec fn lift_register(r: Result<ScalarRegister, ImageError>) -> Result<Graph, CoreError> {
    match r {
        Ok(x) => Ok(x@),
        Err(ImageError::Core(e)) => Err(e),
        Err(_) => Err(CoreError::InvalidWorkingSnapshot),
    }
}

/// Reads a counted set of identities; a repeat is refused.
pub fn read_id_set(reader: &mut Reader) -> (r: Result<RevisionSet, ImageError>)
    requires
        old(reader).pos() <= old(reader).data().len(),
    ensures
        final(reader).data() == old(reader).data(),
        final(reader).pos() <= final(reader).data().len(),
        match sp_id_set(old(reader).data(), old(reader).pos()) {
            Ok((v, p)) => r matches Ok(x) && x@ == v && final(reader).pos() == p,
            Err(e) => r == Err::<RevisionSet, ImageError>(e),
        },
{
    let ghost b = reader.data();
    let count = reader.read_len()?;
    let mut ids = RevisionSet::new();
    let mut k: usize = 0;
    while k < count
        invariant
            reader.data() == b,
            b == old(reader).data(),
            reader.pos() <= b.len(),
            k <= count,
            sp_id_set(b, old(reader).pos()) == sp_id_items(b, reader.pos(), (count - k) as nat, ids@),
        decreases count - k,
    {
        let id = reader.read_revision_id()?;
        if !ids.insert(id) {
            return Err(ImageError::DuplicateRevisionInSet);
        }
        k = k + 1;
    }
    Ok(ids)
}

/// Reads one statement.
pub fn read_statement(reader: &mut Reader) -> (r: Result<ScalarRevision, ImageError>)
    requires
        old(reader).pos() <= old(reader).data().len(),
    ensures
        final(reader).data() == old(reader).data(),
        final(reader).pos() <= final(reader).data().len(),
        match sp_statement(old(reader).data(), old(reader).pos()) {
            Ok((v, p)) => r matches Ok(x) && x@ == v && final(reader).pos() == p,
            Err(e) => r == Err::<ScalarRevision, ImageError>(e),
        },
{
    let id = reader.read_revision_id()?;
    let value = reader.read_vec()?;
    let parents = read_id_set(reader)?;
    Ok(ScalarRevision::new(id, value, parents))
}

/// Reads a counted list of statements and builds the register they hold.
pub fn read_register(reader: &mut Reader) -> (r: Result<ScalarRegister, ImageError>)
    requires
        old(reader).pos() <= old(reader).data().len(),
    ensures
        final(reader).data() == old(reader).data(),
        final(reader).pos() <= final(reader).data().len(),
        match sp_register(old(reader).data(), old(reader).pos()) {
            Ok((ms, p)) => {
                &&& (r is Ok || r matches Err(ImageError::Core(_)))
                &&& register_outcome(ms, lift_register(r))
                &&& r is Ok ==> final(reader).pos() == p
            },
            Err(e) => r == Err::<ScalarRegister, ImageError>(e),
        },
{
    let ghost b = reader.data();
    let count = reader.read_len()?;
    let mut revisions: Vec<ScalarRevision> = Vec::new();
    let mut k: usize = 0;
    proof {
        assert(revision_models(revisions@) =~= Seq::<RevisionModel>::empty());
    }
    while k < count
        invariant
            reader.data() == b,
            b == old(reader).data(),
            reader.pos() <= b.len(),
            k <= count,
            sp_register(b, old(reader).pos()) == sp_statements(b, reader.pos(), (count - k) as nat, revision_models(revisions@)),
        decreases count - k,
    {
        let revision = read_statement(reader)?;
        proof {
            assert(revision_models(revisions@.push(revision)) =~= revision_models(revisions@).push(revision@));
        }
        revisions.push(revision);
        k = k + 1;
    }
    let ghost ms = revision_models(revisions@);
    match ScalarRegister::from_revisions(revisions) {
        Ok(reg) => Ok(reg),
        Err(e) => Err(ImageError::Core(e)),
    }
}

/// Reads the pending epoch.
pub fn read_pending(reader: &mut Reader) -> (r: Result<Option<WorkingEpoch>, ImageError>)
    requires
        old(reader).pos() <= old(reader).data().len(),
    ensures
        final(reader).data() == old(reader).data(),
        final(reader).pos() <= final(reader).data().len(),
        match sp_pending(old(reader).data(), old(reader).pos()) {
            Ok((v, p)) => r matches Ok(x) && crate::working::epoch_view(x) == v && final(reader).pos() == p,
            Err(e) => r == Err::<Option<WorkingEpoch>, ImageError>(e),
        },
{
    let tag = reader.read_u8()?;
    if tag == 0 {
        Ok(None)
    } else if tag == 1 {
        let id = reader.read_working_epoch_id()?;
        let value = reader.read_vec()?;
        let observed_frontier = read_id_set(reader)?;
        Ok(Some(WorkingEpoch { id, value, observed_frontier }))
    } else {
        Err(ImageError::InvalidOptionTag { tag })
    }
}

/// Reads a counted map of frozen statements; a repeated identity is refused.
pub fn read_finalized(reader: &mut Reader) -> (r: Result<FinalizedMap, ImageError>)
    requires
        old(reader).pos() <= old(reader).data().len(),
    ensures
        final(reader).data() == old(reader).data(),
        final(reader).pos() <= final(reader).data().len(),
        match sp_finalized(old(reader).data(), old(reader).pos()) {
            Ok((v, p)) => r matches Ok(x) && x@ == v && final(reader).pos() == p,
            Err(e) => r == Err::<FinalizedMap, ImageError>(e),
        },
{
    let ghost b = reader.data();
    let count = reader.read_len()?;
    let mut finalized = FinalizedMap::new();
    let mut k: usize = 0;
    while k < count
        invariant
            reader.data() == b,
            b == old(reader).data(),
            reader.pos() <= b.len(),
            k <= count,
            sp_finalized(b, old(reader).pos()) == sp_finalized_items(b, reader.pos(), (count - k) as nat, finalized@),
        decreases count - k,
    {
        let revision = read_statement(reader)?;
        if finalized.contains_key(&revision.id) {
            return Err(ImageError::DuplicateFinalizedStatement);
        }
        finalized.insert(FinalizedStatement::from_revision(&revision));
        k = k + 1;
    }
    Ok(finalized)
}

// ---------------------------------------------------------------- writing

/// The concatenation of the encodings of the items of `s`, in order.
pub open spec fn concat_map<T>(s: Seq<T>, f: spec_fn(T) -> Seq<u8>) -> Seq<u8>
    decreases s.len(),
{
    if s.len() == 0 {
        Seq::empty()
    } else {
        f(s[0]) + concat_map(s.drop_first(), f)
    }
}

/// Appending an item appends its encoding.
pub proof fn lemma_concat_map_push<T>(s: Seq<T>, x: T, f: spec_fn(T) -> Seq<u8>)
    ensures
        concat_map(s.push(x), f) == concat_map(s, f) + f(x),
    decreases s.len(),
{
    if s.len() == 0 {
        assert(s.push(x).drop_first() =~= Seq::<T>::empty());
        assert(s.push(x)[0] == x);
        assert(concat_map(s.push(x).drop_first(), f) == Seq::<u8>::empty());
        assert(concat_map(s.push(x), f) =~= f(x));
    } else {
        lemma_concat_map_push(s.drop_first(), x, f);
        assert(s.push(x).drop_first() =~= s.drop_first().push(x));
        assert(concat_map(s.push(x), f) =~= concat_map(s, f) + f(x));
    }
}

/// A length or count: 8 big-endian bytes.
pub open spec fn enc_len(n: nat) -> Seq<u8> {
    be_bytes(n, 8)
}

/// A length-prefixed byte string.
pub open spec fn enc_bytes(v: Seq<u8>) -> Seq<u8> {
    enc_len(v.len()) + v
}

pub open spec fn id_bytes(id: RevisionId) -> Seq<u8> {
    id@
}

/// A set of identities: its size, then each identity in canonical order.
pub open spec fn enc_id_set(s: RevisionSet) -> Seq<u8> {
    enc_len(s.as_seq().len()) + concat_map(s.as_seq(), |id: RevisionId| id_bytes(id))
}

/// One statement: identity, value, parents.
pub open spec fn enc_statement(r: ScalarRevision) -> Seq<u8> {
    r.id@ + enc_bytes(r.value@) + enc_id_set(r.parents)
}

/// A counted list of statements.
pub open spec fn enc_statements(rs: Seq<ScalarRevision>) -> Seq<u8> {
    enc_len(rs.len()) + concat_map(rs, |r: ScalarRevision| enc_statement(r))
}

/// The pending epoch: tag 0 for none, 1 and the epoch otherwise.
pub open spec fn enc_pending(p: Option<WorkingEpoch>) -> Seq<u8> {
    match p {
        None => seq![0u8],
        Some(e) => seq![1u8] + e.id@ + enc_bytes(e.value@) + enc_id_set(e.observed_frontier),
    }
}

fn append_bytes(out: &mut Vec<u8>, s: &[u8])
    ensures
        final(out)@ == old(out)@ + s@,
{
    let mut i: usize = 0;
    while i < s.len()
        invariant
            i <= s@.len(),
            out@ == old(out)@ + s@.take(i as int),
        decreases s@.len() - i,
    {
        out.push(s[i]);
        assert(s@.take(i as int + 1) =~= s@.take(i as int).push(s@[i as int]));
        i = i + 1;
    }
    assert(s@.take(s@.len() as int) =~= s@);
}

pub fn write_len(out: &mut Vec<u8>, n: usize)
    ensures
        final(out)@ == old(out)@ + enc_len(n as nat),
{
    proof {
        lemma_byte_bound_8();
    }
    push_be(out, n as u64, 8);
}

pub fn write_bytes(out: &mut Vec<u8>, v: &[u8])
    ensures
        final(out)@ == old(out)@ + enc_bytes(v@),
{
    write_len(out, v.len());
    append_bytes(out, v);
    assert(final(out)@ =~= old(out)@ + enc_bytes(v@));
}

pub fn write_id_set(out: &mut Vec<u8>, s: &RevisionSet)
    ensures
        final(out)@ == old(out)@ + enc_id_set(*s),
        crate::idset::sorted_ids(s.as_seq()),
{
    let v = s.to_vec();
    write_len(out, v.len());
    let ghost start = out@;
    let mut i: usize = 0;
    proof {
        assert(v@.take(0) =~= Seq::<RevisionId>::empty());
        assert(start =~= start + concat_map(v@.take(0), |id: RevisionId| id_bytes(id)));
    }
    while i < v.len()
        invariant
            i <= v@.len(),
            out@ == start + concat_map(v@.take(i as int), |id: RevisionId| id_bytes(id)),
        decreases v@.len() - i,
    {
        append_bytes(out, v[i].as_bytes().as_slice());
        proof {
            assert(v@.take(i as int + 1) =~= v@.take(i as int).push(v@[i as int]));
            lemma_concat_map_push(v@.take(i as int), v@[i as int], |id: RevisionId| id_bytes(id));
        }
        i = i + 1;
    }
    assert(v@.take(v@.len() as int) =~= v@);
    assert(final(out)@ =~= old(out)@ + enc_id_set(*s));
}

pub fn write_statement(out: &mut Vec<u8>, r: &ScalarRevision)
    ensures
        final(out)@ == old(out)@ + enc_statement(*r),
        crate::idset::sorted_ids(r.parents.as_seq()),
{
    append_bytes(out, r.id.as_bytes().as_slice());
    write_bytes(out, r.value.as_slice());
    write_id_set(out, &r.parents);
    assert(final(out)@ =~= old(out)@ + enc_statement(*r));
}

/// Writes a counted list of statements.
pub fn write_statements(out: &mut Vec<u8>, rs: &Vec<ScalarRevision>)
    ensures
        final(out)@ == old(out)@ + enc_statements(rs@),
        forall|i: int| 0 <= i < rs@.len() ==> crate::idset::sorted_ids(#[trigger] rs@[i].parents.as_seq()),
{
    write_len(out, rs.len());
    let ghost start = out@;
    let mut i: usize = 0;
    proof {
        assert(rs@.take(0) =~= Seq::<ScalarRevision>::empty());
        assert(start =~= start + concat_map(rs@.take(0), |r: ScalarRevision| enc_statement(r)));
    }
    while i < rs.len()
        invariant
            i <= rs@.len(),
            out@ == start + concat_map(rs@.take(i as int), |r: ScalarRevision| enc_statement(r)),
            forall|j: int| 0 <= j < i ==> crate::idset::sorted_ids(#[trigger] rs@[j].parents.as_seq()),
        decreases rs@.len() - i,
    {
        write_statement(out, &rs[i]);
        proof {
            assert(rs@.take(i as int + 1) =~= rs@.take(i as int).push(rs@[i as int]));
            lemma_concat_map_push(rs@.take(i as int), rs@[i as int], |r: ScalarRevision| enc_statement(r));
        }
        i = i + 1;
    }
    assert(rs@.take(rs@.len() as int) =~= rs@);
    assert(final(out)@ =~= old(out)@ + enc_statements(rs@));
}

pub fn write_pending(out: &mut Vec<u8>, p: &Option<WorkingEpoch>)
    ensures
        final(out)@ == old(out)@ + enc_pending(*p),
        p matches Some(e) ==> crate::idset::sorted_ids(e.observed_frontier.as_seq()),
{
    match p {
        None => {
            out.push(0);
            assert(final(out)@ =~= old(out)@ + enc_pending(*p));
        },
        Some(e) => {
            out.push(1);
            append_bytes(out, e.id.as_bytes().as_slice());
            write_bytes(out, e.value.as_slice());
            write_id_set(out, &e.observed_frontier);
            assert(final(out)@ =~= old(out)@ + enc_pending(*p));
        },
    }
}

// ---------------------------------------------------------------- whole images

/// Everything an image holds after the causal register, as bytes.
pub open spec fn enc_tail(s: LocalScalarSnapshot) -> Seq<u8> {
    enc_pending(s.working.pending) + enc_id_set(s.finalization.local_revision_ids) + enc_statements(
        s.finalization.finalized.entries(),
    ) + enc_id_set(s.finalization.exposed_local_ids) + enc_id_set(s.finalization.handed_off_local_ids)
}

/// The bytes of a whole image.
pub open spec fn enc_image(magic: Seq<u8>, s: LocalScalarSnapshot) -> Seq<u8> {
    magic + be_bytes(IMAGE_VERSION as nat, 2) + enc_statements(s.working.causal.entries()) + enc_tail(s)
}

/// The magic tag and the version: the position after them.
pub open spec fn image_header(b: Seq<u8>, magic: Seq<u8>) -> Result<int, ImageError> {
    match sp_take(b, 0, 8) {
        Ok(p) => if b.subrange(0, 8) != magic {
            Err(ImageError::InvalidMagic)
        } else {
            match sp_u16(b, p) {
                Ok((version, p2)) => if version != IMAGE_VERSION {
                    Err(ImageError::UnsupportedVersion { version })
                } else {
                    Ok(p2)
                },
                Err(e) => Err(e),
            }
        },
        Err(e) => Err(e),
    }
}

/// Everything an image holds after the causal register.
pub ghost struct ImageTail {
    pub pending: Option<EpochModel>,
    pub local: Set<RevisionId>,
    pub finalized: Graph,
    pub exposed: Set<RevisionId>,
    pub handed_off: Set<RevisionId>,
}

pub open spec fn sp_tail(b: Seq<u8>, pos: int) -> Result<(ImageTail, int), ImageError> {
    match sp_pending(b, pos) {
        Ok((pending, p1)) => match sp_id_set(b, p1) {
            Ok((local, p2)) => match sp_finalized(b, p2) {
                Ok((finalized, p3)) => match sp_id_set(b, p3) {
                    Ok((exposed, p4)) => match sp_id_set(b, p4) {
                        Ok((handed_off, p5)) => Ok((ImageTail { pending, local, finalized, exposed, handed_off }, p5)),
                        Err(e) => Err(e),
                    },
                    Err(e) => Err(e),
                },
                Err(e) => Err(e),
            },
            Err(e) => Err(e),
        },
        Err(e) => Err(e),
    }
}

/// Statements that form a valid register.
pub open spec fn register_valid(ms: Seq<RevisionModel>) -> bool {
    &&& model_conflict_free(ms)
    &&& parents_closed(models_graph(ms))
    &&& acyclic(models_graph(ms))
}

/// Statements with no conflicting position are conflict-free.
pub proof fn lemma_conflict_free_when_no_conflict(ms: Seq<RevisionModel>)
    ensures
        (forall|j: int| !#[trigger] crate::scalar::model_conflict_at(ms, j)) ==> model_conflict_free(ms),
{
    if forall|j: int| !#[trigger] crate::scalar::model_conflict_at(ms, j) {
        assert forall|i: int, j: int| 0 <= i < j < ms.len() && #[trigger] ms[i].id == #[trigger] ms[j].id implies ms[i] == ms[j] by {
            assert(!crate::scalar::model_conflict_at(ms, j));
        }
    }
}

/// The domain held by a register and a tail.
pub open spec fn image_model(ms: Seq<RevisionModel>, t: ImageTail) -> DomainModel {
    DomainModel {
        working: WorkingModel { causal: models_graph(ms), pending: t.pending },
        ledger: LedgerModel { local: t.local, finalized: t.finalized, exposed: t.exposed, handed_off: t.handed_off },
    }
}

/// What decoding `b` gives: framing errors in reading order, a register
/// refusal as soon as the register has been read, trailing bytes, then the
/// semantic check of the whole domain.
pub open spec fn decode_outcome(b: Seq<u8>, magic: Seq<u8>, r: Result<DomainModel, ImageError>) -> bool {
    match image_header(b, magic) {
        Err(e) => r == Err::<DomainModel, ImageError>(e),
        Ok(p0) => match sp_register(b, p0) {
            Err(e) => r == Err::<DomainModel, ImageError>(e),
            Ok((ms, p1)) => if !register_valid(ms) {
                exists|ce: CoreError| r == Err::<DomainModel, ImageError>(ImageError::Core(ce)) && #[trigger] register_outcome(ms, Err(ce))
            } else {
                match sp_tail(b, p1) {
                    Err(e) => r == Err::<DomainModel, ImageError>(e),
                    Ok((t, p2)) => if p2 != b.len() {
                        r == Err::<DomainModel, ImageError>(ImageError::TrailingBytes)
                    } else if domain_consistent(image_model(ms, t)) {
                        r == Ok::<DomainModel, ImageError>(image_model(ms, t))
                    } else {
                        exists|ce: CoreError| r == Err::<DomainModel, ImageError>(ImageError::Core(ce))
                            && #[trigger] domain_restore_refusal(image_model(ms, t), ce)
                    },
                }
            },
        },
    }
}

pub open spec fn snapshot_result_view(r: Result<LocalScalarSnapshot, ImageError>) -> Result<DomainModel, ImageError> {
    match r {
        Ok(s) => Ok(s@),
        Err(e) => Err(e),
    }
}

/// Encodes a domain image; an image that restore would refuse is refused with
/// the same error.
pub fn encode_image(snapshot: &LocalScalarSnapshot, magic: &[u8]) -> (r: Result<Vec<u8>, ImageError>)
    requires
        magic@.len() == 8,
    ensures
        r is Ok <==> domain_consistent(snapshot@),
        r matches Ok(out) ==> out@ == enc_image(magic@, *snapshot),
        r matches Ok(out) ==> decode_outcome(out@, magic@, Ok(snapshot@)),
        r is Ok ==> image_canonical(*snapshot),
        r matches Err(e) ==> exists|ce: CoreError| e == ImageError::Core(ce) && #[trigger] domain_restore_refusal(snapshot@, ce),
{
    match LocalScalarDomain::restore(snapshot.duplicate()) {
        Ok(_) => {},
        Err(e) => {
            return Err(ImageError::Core(e));
        },
    }
    let mut out: Vec<u8> = Vec::new();
    append_bytes(&mut out, magic);
    proof {
        lemma_byte_bound_8();
    }
    push_be(&mut out, IMAGE_VERSION as u64, 2);
    write_statements(&mut out, snapshot.working.causal.revisions());
    write_pending(&mut out, &snapshot.working.pending);
    write_id_set(&mut out, &snapshot.finalization.local_revision_ids);
    write_statements(&mut out, snapshot.finalization.finalized.entry_list());
    write_id_set(&mut out, &snapshot.finalization.exposed_local_ids);
    write_id_set(&mut out, &snapshot.finalization.handed_off_local_ids);
    assert(out@ =~= enc_image(magic@, *snapshot));
    let n = out.len();
    proof {
        lemma_decode_encoded(magic@, *snapshot);
    }
    Ok(out)
}

/// Decodes and checks a domain image.
pub fn decode_image(encoded: &[u8], magic: &[u8]) -> (r: Result<LocalScalarSnapshot, ImageError>)
    requires
        magic@.len() == 8,
    ensures
        decode_outcome(encoded@, magic@, snapshot_result_view(r)),
{
    let mut reader = Reader::new(encoded);
    let tag = reader.read_exact(8)?;
    if compare_bytes(tag, magic) != 0 {
        return Err(ImageError::InvalidMagic);
    }
    let version = reader.read_u16()?;
    if version != IMAGE_VERSION {
        return Err(ImageError::UnsupportedVersion { version });
    }
    let ghost p0 = reader.pos();
    let causal = read_register(&mut reader)?;
    proof {
        let ms = sp_register(encoded@, p0)->Ok_0.0;
        lemma_conflict_free_when_no_conflict(ms);
        assert(register_valid(ms));
    }
    let pending = read_pending(&mut reader)?;
    let local_revision_ids = read_id_set(&mut reader)?;
    let finalized = read_finalized(&mut reader)?;
    let exposed_local_ids = read_id_set(&mut reader)?;
    let handed_off_local_ids = read_id_set(&mut reader)?;
    if !reader.is_finished() {
        return Err(ImageError::TrailingBytes);
    }
    let snapshot = LocalScalarSnapshot {
        working: WorkingSnapshot { causal, pending },
        finalization: FinalizationSnapshot { local_revision_ids, finalized, exposed_local_ids, handed_off_local_ids },
    };
    match LocalScalarDomain::restore(snapshot.duplicate()) {
        Ok(_) => Ok(snapshot),
        Err(e) => Err(ImageError::Core(e)),
    }
}

// ---------------------------------------------------------------- decoding what was encoded

/// `e` stands in `b` at `pos`.
pub open spec fn holds_at(b: Seq<u8>, pos: int, e: Seq<u8>) -> bool {
    0 <= pos && pos + e.len() <= b.len() && b.subrange(pos, pos + e.len()) == e
}

pub proof fn lemma_holds_split(b: Seq<u8>, pos: int, e1: Seq<u8>, e2: Seq<u8>)
    requires
        holds_at(b, pos, e1 + e2),
    ensures
        holds_at(b, pos, e1),
        holds_at(b, pos + e1.len(), e2),
{
    assert(b.subrange(pos, pos + e1.len()) =~= (e1 + e2).subrange(0, e1.len() as int));
    assert((e1 + e2).subrange(0, e1.len() as int) =~= e1);
    assert(b.subrange(pos + e1.len(), pos + e1.len() + e2.len()) =~= (e1 + e2).subrange(e1.len() as int, (e1.len() + e2.len()) as int));
    assert((e1 + e2).subrange(e1.len() as int, (e1.len() + e2.len()) as int) =~= e2);
}

pub proof fn lemma_parse_len(b: Seq<u8>, pos: int, n: nat)
    requires
        holds_at(b, pos, enc_len(n)),
        n <= usize::MAX,
        b.len() <= usize::MAX,
    ensures
        enc_len(n).len() == 8,
        sp_len(b, pos) == Ok::<(nat, int), ImageError>((n, pos + 8)),
{
    lemma_byte_bound_8();
    lemma_be_round_trip(n, 8);
}

pub proof fn lemma_parse_bytes(b: Seq<u8>, pos: int, v: Seq<u8>)
    requires
        holds_at(b, pos, enc_bytes(v)),
        b.len() <= usize::MAX,
    ensures
        sp_bytes(b, pos) == Ok::<(Seq<u8>, int), ImageError>((v, pos + enc_bytes(v).len())),
{
    lemma_holds_split(b, pos, enc_len(v.len()), v);
    lemma_parse_len(b, pos, v.len());
}

pub proof fn lemma_parse_rid(b: Seq<u8>, pos: int, id: RevisionId)
    requires
        holds_at(b, pos, id@),
        b.len() <= usize::MAX,
    ensures
        sp_rid(b, pos) == Ok::<(RevisionId, int), ImageError>((id, pos + 32)),
{
    RevisionId::lemma_from_view(id@);
    RevisionId::lemma_view_injective(id, RevisionId::from_view(id@));
}

pub proof fn lemma_parse_wid(b: Seq<u8>, pos: int, id: WorkingEpochId)
    requires
        holds_at(b, pos, id@),
        b.len() <= usize::MAX,
    ensures
        sp_wid(b, pos) == Ok::<(WorkingEpochId, int), ImageError>((id, pos + 32)),
{
    WorkingEpochId::lemma_from_view(id@);
    WorkingEpochId::lemma_view_injective(id, WorkingEpochId::from_view(id@));
}

pub proof fn lemma_id_list_len(q: Seq<RevisionId>)
    ensures
        concat_map(q, |id: RevisionId| id_bytes(id)).len() == 32 * q.len(),
    decreases q.len(),
{
    if q.len() > 0 {
        lemma_id_list_len(q.drop_first());
    }
}

pub proof fn lemma_parse_id_items(b: Seq<u8>, pos: int, q: Seq<RevisionId>, seen: Set<RevisionId>)
    requires
        holds_at(b, pos, concat_map(q, |id: RevisionId| id_bytes(id))),
        crate::idset::sorted_ids(q),
        forall|i: int| 0 <= i < q.len() ==> !seen.contains(#[trigger] q[i]),
        b.len() <= usize::MAX,
    ensures
        sp_id_items(b, pos, q.len(), seen) == Ok::<(Set<RevisionId>, int), ImageError>(
            (seen.union(q.to_set()), pos + concat_map(q, |id: RevisionId| id_bytes(id)).len()),
        ),
    decreases q.len(),
{
    let f = |id: RevisionId| id_bytes(id);
    if q.len() == 0 {
        assert(seen.union(q.to_set()) =~= seen);
    } else {
        let rest = q.drop_first();
        assert(concat_map(q, f) == q[0]@ + concat_map(rest, f));
        lemma_holds_split(b, pos, q[0]@, concat_map(rest, f));
        lemma_parse_rid(b, pos, q[0]);
        assert forall|i: int| 0 <= i < rest.len() implies !seen.insert(q[0]).contains(#[trigger] rest[i]) by {
            assert(rest[i] == q[i + 1]);
            assert(crate::idset::rid_lt(q[0], q[i + 1]));
            crate::order::lemma_lex_total(q[0]@, q[i + 1]@);
        }
        lemma_parse_id_items(b, pos + 32, rest, seen.insert(q[0]));
        assert(seen.insert(q[0]).union(rest.to_set()) =~= seen.union(q.to_set())) by {
            assert forall|x: RevisionId| q.to_set().contains(x) implies seen.insert(q[0]).union(rest.to_set()).contains(x) by {
                let i = choose|i: int| 0 <= i < q.len() && q[i] == x;
                if i > 0 {
                    assert(rest[i - 1] == x);
                }
            }
            assert forall|x: RevisionId| rest.to_set().contains(x) implies q.to_set().contains(x) by {
                let i = choose|i: int| 0 <= i < rest.len() && rest[i] == x;
                assert(q[i + 1] == x);
            }
        }
    }
}

pub proof fn lemma_parse_id_set(b: Seq<u8>, pos: int, s: RevisionSet)
    requires
        holds_at(b, pos, enc_id_set(s)),
        crate::idset::sorted_ids(s.as_seq()),
        b.len() <= usize::MAX,
    ensures
        sp_id_set(b, pos) == Ok::<(Set<RevisionId>, int), ImageError>((s@, pos + enc_id_set(s).len())),
{
    let q = s.as_seq();
    let f = |id: RevisionId| id_bytes(id);
    lemma_holds_split(b, pos, enc_len(q.len()), concat_map(q, f));
    lemma_id_list_len(q);
    lemma_parse_len(b, pos, q.len());
    assert forall|i: int| 0 <= i < q.len() implies !Set::<RevisionId>::empty().contains(#[trigger] q[i]) by {}
    lemma_parse_id_items(b, pos + 8, q, Set::empty());
    s.lemma_seq_view();
    assert(Set::<RevisionId>::empty().union(q.to_set()) =~= s@);
}

pub proof fn lemma_parse_statement(b: Seq<u8>, pos: int, r: ScalarRevision)
    requires
        holds_at(b, pos, enc_statement(r)),
        crate::idset::sorted_ids(r.parents.as_seq()),
        b.len() <= usize::MAX,
    ensures
        sp_statement(b, pos) == Ok::<(RevisionModel, int), ImageError>((r@, pos + enc_statement(r).len())),
{
    lemma_holds_split(b, pos, r.id@ + enc_bytes(r.value@), enc_id_set(r.parents));
    lemma_holds_split(b, pos, r.id@, enc_bytes(r.value@));
    lemma_parse_rid(b, pos, r.id);
    lemma_parse_bytes(b, pos + 32, r.value@);
    lemma_parse_id_set(b, pos + 32 + enc_bytes(r.value@).len(), r.parents);
}

pub proof fn lemma_statement_list_len(rs: Seq<ScalarRevision>)
    ensures
        concat_map(rs, |r: ScalarRevision| enc_statement(r)).len() >= rs.len(),
    decreases rs.len(),
{
    if rs.len() > 0 {
        lemma_statement_list_len(rs.drop_first());
    }
}

pub proof fn lemma_parse_statements(b: Seq<u8>, pos: int, rs: Seq<ScalarRevision>, acc: Seq<RevisionModel>)
    requires
        holds_at(b, pos, concat_map(rs, |r: ScalarRevision| enc_statement(r))),
        forall|i: int| 0 <= i < rs.len() ==> crate::idset::sorted_ids(#[trigger] rs[i].parents.as_seq()),
        b.len() <= usize::MAX,
    ensures
        sp_statements(b, pos, rs.len(), acc) == Ok::<(Seq<RevisionModel>, int), ImageError>(
            (acc + revision_models(rs), pos + concat_map(rs, |r: ScalarRevision| enc_statement(r)).len()),
        ),
    decreases rs.len(),
{
    let f = |r: ScalarRevision| enc_statement(r);
    if rs.len() == 0 {
        assert(acc + revision_models(rs) =~= acc);
    } else {
        let rest = rs.drop_first();
        lemma_holds_split(b, pos, enc_statement(rs[0]), concat_map(rest, f));
        lemma_parse_statement(b, pos, rs[0]);
        assert forall|i: int| 0 <= i < rest.len() implies crate::idset::sorted_ids(#[trigger] rest[i].parents.as_seq()) by {
            assert(rest[i] == rs[i + 1]);
        }
        lemma_parse_statements(b, pos + enc_statement(rs[0]).len(), rest, acc.push(rs[0]@));
        assert(acc.push(rs[0]@) + revision_models(rest) =~= acc + revision_models(rs));
    }
}

pub proof fn lemma_parse_finalized_items(b: Seq<u8>, pos: int, rs: Seq<ScalarRevision>, acc: Graph)
    requires
        holds_at(b, pos, concat_map(rs, |r: ScalarRevision| enc_statement(r))),
        crate::scalar::sorted_revs(rs),
        forall|i: int| 0 <= i < rs.len() ==> crate::idset::sorted_ids(#[trigger] rs[i].parents.as_seq()),
        forall|i: int| 0 <= i < rs.len() ==> !acc.contains_key(#[trigger] rs[i].id),
        b.len() <= usize::MAX,
    ensures
        sp_finalized_items(b, pos, rs.len(), acc) == Ok::<(Graph, int), ImageError>(
            (acc.union_prefer_right(crate::scalar::entries_map(rs)), pos + concat_map(rs, |r: ScalarRevision| enc_statement(r)).len()),
        ),
    decreases rs.len(),
{
    let f = |r: ScalarRevision| enc_statement(r);
    if rs.len() == 0 {
        assert(crate::scalar::entries_map(rs) =~= Map::<RevisionId, RevisionModel>::empty());
        assert(acc.union_prefer_right(crate::scalar::entries_map(rs)) =~= acc);
    } else {
        let rest = rs.drop_first();
        let r0 = rs[0];
        lemma_holds_split(b, pos, enc_statement(r0), concat_map(rest, f));
        lemma_parse_statement(b, pos, r0);
        assert(crate::scalar::sorted_revs(rest));
        assert forall|i: int| 0 <= i < rest.len() implies crate::idset::sorted_ids(#[trigger] rest[i].parents.as_seq()) by {
            assert(rest[i] == rs[i + 1]);
        }
        assert forall|i: int| 0 <= i < rest.len() implies !acc.insert(r0.id, r0@).contains_key(#[trigger] rest[i].id) by {
            assert(rest[i] == rs[i + 1]);
            crate::scalar::lemma_sorted_distinct(rs, 0, i + 1);
        }
        lemma_parse_finalized_items(b, pos + enc_statement(r0).len(), rest, acc.insert(r0.id, r0@));
        assert forall|j: int| 0 <= j < rest.len() implies crate::idset::rid_lt(r0.id, #[trigger] rest[j].id) by {
            assert(rest[j] == rs[j + 1]);
        }
        crate::scalar::lemma_entries_map_insert(rest, 0, r0);
        assert(rest.insert(0, r0) =~= rs);
        assert(acc.insert(r0.id, r0@).union_prefer_right(crate::scalar::entries_map(rest)) =~= acc.union_prefer_right(
            crate::scalar::entries_map(rs),
        ));
    }
}

pub proof fn lemma_parse_pending(b: Seq<u8>, pos: int, p: Option<WorkingEpoch>)
    requires
        holds_at(b, pos, enc_pending(p)),
        p matches Some(e) ==> crate::idset::sorted_ids(e.observed_frontier.as_seq()),
        b.len() <= usize::MAX,
    ensures
        sp_pending(b, pos) == Ok::<(Option<EpochModel>, int), ImageError>(
            (crate::working::epoch_view(p), pos + enc_pending(p).len()),
        ),
{
    match p {
        None => {
            assert(b[pos] == b.subrange(pos, pos + 1)[0]);
        },
        Some(e) => {
            let head = seq![1u8] + e.id@;
            assert(enc_pending(p) == head + enc_bytes(e.value@) + enc_id_set(e.observed_frontier));
            lemma_holds_split(b, pos, head + enc_bytes(e.value@), enc_id_set(e.observed_frontier));
            lemma_holds_split(b, pos, head, enc_bytes(e.value@));
            lemma_holds_split(b, pos, seq![1u8], e.id@);
            assert(b[pos] == b.subrange(pos, pos + 1)[0]);
            lemma_parse_wid(b, pos + 1, e.id);
            lemma_parse_bytes(b, pos + 33, e.value@);
            lemma_parse_id_set(b, pos + 33 + enc_bytes(e.value@).len(), e.observed_frontier);
        },
    }
}

/// The components of an image, each in the canonical order its type keeps.
pub open spec fn image_canonical(s: LocalScalarSnapshot) -> bool {
    let causal = s.working.causal.entries();
    let fin = s.finalization.finalized.entries();
    &&& crate::scalar::sorted_revs(causal)
    &&& crate::scalar::entries_map(causal) == s.working.causal@
    &&& valid_graph(s.working.causal@)
    &&& forall|i: int| 0 <= i < causal.len() ==> crate::idset::sorted_ids(#[trigger] causal[i].parents.as_seq())
    &&& s.working.pending matches Some(e) ==> crate::idset::sorted_ids(e.observed_frontier.as_seq())
    &&& crate::idset::sorted_ids(s.finalization.local_revision_ids.as_seq())
    &&& crate::scalar::sorted_revs(fin)
    &&& crate::scalar::entries_map(fin) == s.finalization.finalized@
    &&& forall|i: int| 0 <= i < fin.len() ==> crate::idset::sorted_ids(#[trigger] fin[i].parents.as_seq())
    &&& crate::idset::sorted_ids(s.finalization.exposed_local_ids.as_seq())
    &&& crate::idset::sorted_ids(s.finalization.handed_off_local_ids.as_seq())
}

pub proof fn lemma_parse_register(b: Seq<u8>, pos: int, rs: Seq<ScalarRevision>)
    requires
        holds_at(b, pos, enc_statements(rs)),
        forall|i: int| 0 <= i < rs.len() ==> crate::idset::sorted_ids(#[trigger] rs[i].parents.as_seq()),
        b.len() <= usize::MAX,
    ensures
        sp_register(b, pos) == Ok::<(Seq<RevisionModel>, int), ImageError>((revision_models(rs), pos + enc_statements(rs).len())),
{
    let f = |r: ScalarRevision| enc_statement(r);
    lemma_holds_split(b, pos, enc_len(rs.len()), concat_map(rs, f));
    lemma_statement_list_len(rs);
    lemma_parse_len(b, pos, rs.len());
    lemma_parse_statements(b, pos + 8, rs, Seq::empty());
    assert(Seq::<RevisionModel>::empty() + revision_models(rs) =~= revision_models(rs));
}

pub proof fn lemma_parse_finalized(b: Seq<u8>, pos: int, rs: Seq<ScalarRevision>)
    requires
        holds_at(b, pos, enc_statements(rs)),
        crate::scalar::sorted_revs(rs),
        forall|i: int| 0 <= i < rs.len() ==> crate::idset::sorted_ids(#[trigger] rs[i].parents.as_seq()),
        b.len() <= usize::MAX,
    ensures
        sp_finalized(b, pos) == Ok::<(Graph, int), ImageError>((crate::scalar::entries_map(rs), pos + enc_statements(rs).len())),
{
    let f = |r: ScalarRevision| enc_statement(r);
    lemma_holds_split(b, pos, enc_len(rs.len()), concat_map(rs, f));
    lemma_statement_list_len(rs);
    lemma_parse_len(b, pos, rs.len());
    lemma_parse_finalized_items(b, pos + 8, rs, Map::empty());
    assert(Map::<RevisionId, RevisionModel>::empty().union_prefer_right(crate::scalar::entries_map(rs)) =~= crate::scalar::entries_map(rs));
}

pub proof fn lemma_image_header(b: Seq<u8>, magic: Seq<u8>)
    requires
        magic.len() == 8,
        holds_at(b, 0, magic + be_bytes(IMAGE_VERSION as nat, 2)),
        b.len() <= usize::MAX,
    ensures
        image_header(b, magic) == Ok::<int, ImageError>(10),
{
    lemma_holds_split(b, 0, magic, be_bytes(IMAGE_VERSION as nat, 2));
    lemma_byte_bound_8();
    lemma_be_round_trip(IMAGE_VERSION as nat, 2);
}

/// The tail of an image as a model.
pub open spec fn tail_of(s: LocalScalarSnapshot) -> ImageTail {
    ImageTail {
        pending: crate::working::epoch_view(s.working.pending),
        local: s.finalization.local_revision_ids@,
        finalized: s.finalization.finalized@,
        exposed: s.finalization.exposed_local_ids@,
        handed_off: s.finalization.handed_off_local_ids@,
    }
}

pub proof fn lemma_parse_tail(b: Seq<u8>, pos: int, s: LocalScalarSnapshot)
    requires
        holds_at(b, pos, enc_tail(s)),
        image_canonical(s),
        b.len() <= usize::MAX,
    ensures
        sp_tail(b, pos) == Ok::<(ImageTail, int), ImageError>((tail_of(s), pos + enc_tail(s).len())),
{
    let fin = s.finalization.finalized.entries();
    let e_pend = enc_pending(s.working.pending);
    let e_local = enc_id_set(s.finalization.local_revision_ids);
    let e_fin = enc_statements(fin);
    let e_exp = enc_id_set(s.finalization.exposed_local_ids);
    let e_hand = enc_id_set(s.finalization.handed_off_local_ids);
    lemma_holds_split(b, pos, e_pend + e_local + e_fin + e_exp, e_hand);
    lemma_holds_split(b, pos, e_pend + e_local + e_fin, e_exp);
    lemma_holds_split(b, pos, e_pend + e_local, e_fin);
    lemma_holds_split(b, pos, e_pend, e_local);
    lemma_parse_pending(b, pos, s.working.pending);
    let p2: int = pos + e_pend.len();
    lemma_parse_id_set(b, p2, s.finalization.local_revision_ids);
    let p3: int = p2 + e_local.len();
    lemma_parse_finalized(b, p3, fin);
    let p4: int = p3 + e_fin.len();
    lemma_parse_id_set(b, p4, s.finalization.exposed_local_ids);
    let p5: int = p4 + e_exp.len();
    lemma_parse_id_set(b, p5, s.finalization.handed_off_local_ids);
}

/// A register held in canonical order is valid as a list of statements.
pub proof fn lemma_canonical_register_valid(causal: Seq<ScalarRevision>)
    requires
        crate::scalar::sorted_revs(causal),
        valid_graph(crate::scalar::entries_map(causal)),
    ensures
        register_valid(revision_models(causal)),
        models_graph(revision_models(causal)) == crate::scalar::entries_map(causal),
{
    assert(crate::scalar::conflict_free(causal)) by {
        assert forall|i: int, j: int| 0 <= i < j < causal.len() && #[trigger] causal[i].id == #[trigger] causal[j].id implies causal[i]@ == causal[j]@ by {
            crate::scalar::lemma_sorted_distinct(causal, i, j);
        }
    }
    crate::scalar::lemma_revision_models(causal);
}

/// Decoding the encoding of a consistent image gives the image back.
#[verifier::rlimit(50)]
pub proof fn lemma_decode_encoded(magic: Seq<u8>, s: LocalScalarSnapshot)
    requires
        magic.len() == 8,
        image_canonical(s),
        domain_consistent(s@),
        enc_image(magic, s).len() <= usize::MAX,
    ensures
        decode_outcome(enc_image(magic, s), magic, Ok(s@)),
{
    let b = enc_image(magic, s);
    let causal = s.working.causal.entries();
    let head = magic + be_bytes(IMAGE_VERSION as nat, 2);
    let e_reg = enc_statements(causal);
    assert(holds_at(b, 0, b)) by {
        assert(b.subrange(0, b.len() as int) =~= b);
    }
    lemma_byte_bound_8();
    lemma_be_round_trip(IMAGE_VERSION as nat, 2);
    assert(head.len() == 10);
    lemma_holds_split(b, 0, head + e_reg, enc_tail(s));
    lemma_holds_split(b, 0, head, e_reg);
    lemma_image_header(b, magic);
    lemma_parse_register(b, 10, causal);
    lemma_canonical_register_valid(causal);
    let p1: int = 10int + e_reg.len();
    lemma_parse_tail(b, p1, s);
    assert(image_model(revision_models(causal), tail_of(s)) == s@);
}

/// Bytes that decode successfully decode to exactly one domain.
pub proof fn lemma_decode_outcome_ok_unique(b: Seq<u8>, magic: Seq<u8>, m: DomainModel, r: Result<DomainModel, ImageError>)
    requires
        decode_outcome(b, magic, Ok(m)),
        decode_outcome(b, magic, r),
    ensures
        r == Ok::<DomainModel, ImageError>(m),
{
}

// ---------------------------------------------------------------- canonical bytes

/// Items with the same encodings, position by position, encode the same.
proof fn lemma_concat_map_same<T>(a: Seq<T>, b: Seq<T>, f: spec_fn(T) -> Seq<u8>)
    requires
        a.len() == b.len(),
        forall|i: int| 0 <= i < a.len() ==> f(#[trigger] a[i]) == f(b[i]),
    ensures
        concat_map(a, f) == concat_map(b, f),
    decreases a.len(),
{
    if a.len() > 0 {
        assert(f(a[0]) == f(b[0]));
        assert forall|i: int| 0 <= i < a.drop_first().len() implies f(#[trigger] a.drop_first()[i]) == f(b.drop_first()[i]) by {
            assert(a.drop_first()[i] == a[i + 1]);
            assert(b.drop_first()[i] == b[i + 1]);
        }
        lemma_concat_map_same(a.drop_first(), b.drop_first(), f);
    }
}

/// Two canonically ordered sets with the same members encode the same.
proof fn lemma_id_set_same(a: RevisionSet, b: RevisionSet)
    requires
        crate::idset::sorted_ids(a.as_seq()),
        crate::idset::sorted_ids(b.as_seq()),
        a@ == b@,
    ensures
        enc_id_set(a) == enc_id_set(b),
{
    a.lemma_seq_view();
    b.lemma_seq_view();
    crate::idset::lemma_sorted_unique(a.as_seq(), b.as_seq());
}

/// Statements in canonical order that hold the same graph encode the same.
proof fn lemma_statements_same(a: Seq<ScalarRevision>, b: Seq<ScalarRevision>)
    requires
        crate::scalar::sorted_revs(a),
        crate::scalar::sorted_revs(b),
        forall|i: int| 0 <= i < a.len() ==> crate::idset::sorted_ids(#[trigger] a[i].parents.as_seq()),
        forall|i: int| 0 <= i < b.len() ==> crate::idset::sorted_ids(#[trigger] b[i].parents.as_seq()),
        crate::scalar::entries_map(a) == crate::scalar::entries_map(b),
    ensures
        enc_statements(a) == enc_statements(b),
{
    let ia = a.map_values(|r: ScalarRevision| r.id);
    let ib = b.map_values(|r: ScalarRevision| r.id);
    assert(crate::idset::sorted_ids(ia));
    assert(crate::idset::sorted_ids(ib));
    assert(ia.to_set() =~= ib.to_set()) by {
        assert forall|k: RevisionId| ia.to_set().contains(k) implies ib.to_set().contains(k) by {
            let i = choose|i: int| 0 <= i < ia.len() && ia[i] == k;
            crate::scalar::lemma_entries_map_at(a, i);
            assert(crate::scalar::has_id(b, k));
            let j = choose|j: int| 0 <= j < b.len() && #[trigger] b[j].id == k;
            assert(ib[j] == k);
        }
        assert forall|k: RevisionId| ib.to_set().contains(k) implies ia.to_set().contains(k) by {
            let i = choose|i: int| 0 <= i < ib.len() && ib[i] == k;
            crate::scalar::lemma_entries_map_at(b, i);
            assert(crate::scalar::has_id(a, k));
            let j = choose|j: int| 0 <= j < a.len() && #[trigger] a[j].id == k;
            assert(ia[j] == k);
        }
    }
    crate::idset::lemma_sorted_unique(ia, ib);
    let f = |r: ScalarRevision| enc_statement(r);
    assert forall|i: int| 0 <= i < a.len() implies f(#[trigger] a[i]) == f(b[i]) by {
        assert(ia[i] == ib[i]);
        crate::scalar::lemma_entries_map_at(a, i);
        crate::scalar::lemma_entries_map_at(b, i);
        assert(a[i]@ == b[i]@);
        lemma_id_set_same(a[i].parents, b[i].parents);
    }
    lemma_concat_map_same(a, b, f);
}

/// The encoding of an image is a function of what it holds: two images in
/// canonical form that hold the same domain have the same bytes.
pub proof fn lemma_image_same(magic: Seq<u8>, s1: LocalScalarSnapshot, s2: LocalScalarSnapshot)
    requires
        image_canonical(s1),
        image_canonical(s2),
        s1@ == s2@,
    ensures
        enc_image(magic, s1) == enc_image(magic, s2),
{
    lemma_statements_same(s1.working.causal.entries(), s2.working.causal.entries());
    lemma_statements_same(s1.finalization.finalized.entries(), s2.finalization.finalized.entries());
    match s1.working.pending {
        Some(e1) => {
            let e2 = s2.working.pending->Some_0;
            lemma_id_set_same(e1.observed_frontier, e2.observed_frontier);
        },
        None => {},
    }
    lemma_id_set_same(s1.finalization.local_revision_ids, s2.finalization.local_revision_ids);
    lemma_id_set_same(s1.finalization.exposed_local_ids, s2.finalization.exposed_local_ids);
    lemma_id_set_same(s1.finalization.handed_off_local_ids, s2.finalization.handed_off_local_ids);
}

} // verus!

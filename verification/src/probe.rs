//! Remote state of the simulated transport used by the recovery probe.
//!
//! The state is `APCARMT1`, the head, the publish count, the object count and
//! each object as a big-endian length and its bytes. Objects are never empty.
use vstd::prelude::*;

use crate::bytes::{be_bytes, be_value, lemma_be_round_trip, lemma_byte_bound_8, push_be, read_be};
use crate::candidate::FsStorageError;

verus! {

/// Head of the simulated remote before anything was published.
pub const PROBE_INITIAL_HEAD: u64 = 1;

/// Head of the simulated remote once the probe's publication was accepted.
pub const PROBE_ACCEPTED_HEAD: u64 = 2;

/// Remote state of the simulated transport.
#[derive(Clone, Debug, PartialEq, Eq)]
pub struct ProbeRemoteState {
    pub head: u64,
    pub publish_count: u64,
    pub objects: Vec<Vec<u8>>,
}

/// Abstract content of a remote state.
pub ghost struct RemoteModel {
    pub head: u64,
    pub publish_count: u64,
    pub objects: Seq<Seq<u8>>,
}

impl View for ProbeRemoteState {
    type V = RemoteModel;

    open spec fn view(&self) -> RemoteModel {
        RemoteModel {
            head: self.head,
            publish_count: self.publish_count,
            objects: self.objects@.map_values(|o: Vec<u8>| o@),
        }
    }
}

impl Default for ProbeRemoteState {
    fn default() -> (s: Self)
        ensures
            s@ == (RemoteModel { head: PROBE_INITIAL_HEAD, publish_count: 0, objects: Seq::empty() }),
    {
        let s = ProbeRemoteState { head: PROBE_INITIAL_HEAD, publish_count: 0, objects: Vec::new() };
        assert(s@.objects =~= Seq::<Seq<u8>>::empty());
        s
    }
}

/// Errors of the simulated transport.
#[derive(Debug)]
pub enum ProbeTransportError {
    Storage(FsStorageError),
    InvalidState(String),
    LostAcceptedResponse,
}

/// The magic tag, `APCARMT1`.
pub open spec fn remote_magic() -> Seq<u8> {
    seq![0x41u8, 0x50u8, 0x43u8, 0x41u8, 0x52u8, 0x4du8, 0x54u8, 0x31u8]
}

/// Objects, each as its length and bytes.
pub open spec fn enc_objects(objects: Seq<Seq<u8>>) -> Seq<u8>
    decreases objects.len(),
{
    if objects.len() == 0 {
        Seq::empty()
    } else {
        enc_objects(objects.drop_last()) + be_bytes(objects.last().len(), 8) + objects.last()
    }
}

/// The bytes of a remote state.
pub open spec fn enc_remote(s: RemoteModel) -> Seq<u8> {
    remote_magic() + be_bytes(s.head as nat, 8) + be_bytes(s.publish_count as nat, 8) + be_bytes(s.objects.len(), 8)
        + enc_objects(s.objects)
}

/// Why a remote state is refused.
pub enum RemoteFault {
    WrongMagic,
    U64OffsetOverflow,
    TruncatedU64,
    CountOverflow,
    LengthOverflow,
    OffsetOverflow,
    TruncatedObject,
    EmptyObject,
    TrailingBytes,
}

/// The message that reports a fault.
pub open spec fn fault_message(f: RemoteFault) -> &'static str {
    match f {
        RemoteFault::WrongMagic => "wrong remote-state magic",
        RemoteFault::U64OffsetOverflow => "u64 offset overflow",
        RemoteFault::TruncatedU64 => "truncated u64",
        RemoteFault::CountOverflow => "object count overflows usize",
        RemoteFault::LengthOverflow => "object length overflows usize",
        RemoteFault::OffsetOverflow => "object offset overflow",
        RemoteFault::TruncatedObject => "truncated object",
        RemoteFault::EmptyObject => "empty remote object",
        RemoteFault::TrailingBytes => "trailing remote-state bytes",
    }
}

fn fault_text(f: RemoteFault) -> (s: String)
    ensures
        s@ == fault_message(f)@,
{
    match f {
        RemoteFault::WrongMagic => "wrong remote-state magic".to_owned(),
        RemoteFault::U64OffsetOverflow => "u64 offset overflow".to_owned(),
        RemoteFault::TruncatedU64 => "truncated u64".to_owned(),
        RemoteFault::CountOverflow => "object count overflows usize".to_owned(),
        RemoteFault::LengthOverflow => "object length overflows usize".to_owned(),
        RemoteFault::OffsetOverflow => "object offset overflow".to_owned(),
        RemoteFault::TruncatedObject => "truncated object".to_owned(),
        RemoteFault::EmptyObject => "empty remote object".to_owned(),
        RemoteFault::TrailingBytes => "trailing remote-state bytes".to_owned(),
    }
}

/// A big-endian u64 at `pos`, with the position after it.
pub open spec fn sp_remote_u64(b: Seq<u8>, pos: int) -> Result<(u64, int), RemoteFault> {
    if pos + 8 > usize::MAX {
        Err(RemoteFault::U64OffsetOverflow)
    } else if pos + 8 > b.len() {
        Err(RemoteFault::TruncatedU64)
    } else {
        Ok((be_value(b.subrange(pos, pos + 8)) as u64, pos + 8))
    }
}

/// `n` objects appended to `acc`.
pub open spec fn sp_objects(b: Seq<u8>, pos: int, n: nat, acc: Seq<Seq<u8>>) -> Result<(Seq<Seq<u8>>, int), RemoteFault>
    decreases n,
{
    if n == 0 {
        Ok((acc, pos))
    } else {
        match sp_remote_u64(b, pos) {
            Err(f) => Err(f),
            Ok((len, p)) => if len > usize::MAX {
                Err(RemoteFault::LengthOverflow)
            } else if p + len > usize::MAX {
                Err(RemoteFault::OffsetOverflow)
            } else if p + len > b.len() {
                Err(RemoteFault::TruncatedObject)
            } else if len == 0 {
                Err(RemoteFault::EmptyObject)
            } else {
                sp_objects(b, p + len, (n - 1) as nat, acc.push(b.subrange(p, p + len)))
            },
        }
    }
}

/// What decoding a remote state gives.
pub open spec fn remote_decode(b: Seq<u8>) -> Result<RemoteModel, RemoteFault> {
    if b.len() < 8 || b.subrange(0, 8) != remote_magic() {
        Err(RemoteFault::WrongMagic)
    } else {
        match sp_remote_u64(b, 8) {
            Err(f) => Err(f),
            Ok((head, p1)) => match sp_remote_u64(b, p1) {
                Err(f) => Err(f),
                Ok((publish_count, p2)) => match sp_remote_u64(b, p2) {
                    Err(f) => Err(f),
                    Ok((count, p3)) => if count > usize::MAX {
                        Err(RemoteFault::CountOverflow)
                    } else {
                        match sp_objects(b, p3, count as nat, Seq::empty()) {
                            Err(f) => Err(f),
                            Ok((objects, p4)) => if p4 != b.len() {
                                Err(RemoteFault::TrailingBytes)
                            } else {
                                Ok(RemoteModel { head, publish_count, objects })
                            },
                        }
                    },
                },
            },
        }
    }
}

/// The encoding of the first `k` objects is a prefix of the encoding of the
/// first `m`.
proof fn lemma_enc_objects_prefix(objs: Seq<Seq<u8>>, k: int, m: int)
    requires
        0 <= k <= m <= objs.len(),
    ensures
        enc_objects(objs.take(k)).len() <= enc_objects(objs.take(m)).len(),
        enc_objects(objs.take(m)).subrange(0, enc_objects(objs.take(k)).len() as int) == enc_objects(objs.take(k)),
    decreases m - k,
{
    if k < m {
        lemma_enc_objects_prefix(objs, k, m - 1);
        assert(objs.take(m).drop_last() =~= objs.take(m - 1));
        let a = enc_objects(objs.take(k));
        let b = enc_objects(objs.take(m - 1));
        let c = enc_objects(objs.take(m));
        assert(c == b + be_bytes(objs.take(m).last().len(), 8) + objs.take(m).last());
        assert(c.subrange(0, a.len() as int) =~= b.subrange(0, a.len() as int));
    } else {
        assert(enc_objects(objs.take(m)).subrange(0, enc_objects(objs.take(m)).len() as int) =~= enc_objects(objs.take(m)));
    }
}

/// Reading the objects of an encoding one by one: after `k` of them the
/// parse stands just past their encoding, holding them.
proof fn lemma_objects_parse(b: Seq<u8>, pos: int, objs: Seq<Seq<u8>>, k: int)
    requires
        0 <= k <= objs.len(),
        0 <= pos,
        b.len() <= usize::MAX,
        pos + enc_objects(objs).len() <= b.len(),
        b.subrange(pos, pos + enc_objects(objs).len()) == enc_objects(objs),
        forall|i: int| 0 <= i < objs.len() ==> (#[trigger] objs[i]).len() > 0,
    ensures
        sp_objects(b, pos, objs.len(), Seq::empty()) == sp_objects(
            b,
            pos + enc_objects(objs.take(k)).len(),
            (objs.len() - k) as nat,
            objs.take(k),
        ),
    decreases k,
{
    if k == 0 {
        assert(objs.take(0) =~= Seq::<Seq<u8>>::empty());
    } else {
        lemma_objects_parse(b, pos, objs, k - 1);
        lemma_enc_objects_prefix(objs, k, objs.len() as int);
        assert(objs.take(objs.len() as int) =~= objs);
        assert(objs.take(k).drop_last() =~= objs.take(k - 1));
        let o = objs[k - 1];
        let e0 = enc_objects(objs.take(k - 1));
        let e1 = enc_objects(objs.take(k));
        let p = pos + e0.len();
        assert(e1 == e0 + be_bytes(o.len(), 8) + o);
        lemma_byte_bound_8();
        lemma_be_round_trip(o.len(), 8);
        let whole = enc_objects(objs);
        assert(whole.subrange(0, e1.len() as int) == e1);
        assert(b.subrange(p, p + 8) =~= be_bytes(o.len(), 8)) by {
            assert forall|j: int| 0 <= j < 8 implies b.subrange(p, p + 8)[j] == be_bytes(o.len(), 8)[j] by {
                assert(b[p + j] == whole[e0.len() + j]);
                assert(whole[e0.len() + j] == e1[e0.len() + j]);
            }
        }
        assert(b.subrange(p + 8, p + 8 + o.len()) =~= o) by {
            assert forall|j: int| 0 <= j < o.len() implies b.subrange(p + 8, p + 8 + o.len())[j] == o[j] by {
                assert(b[p + 8 + j] == whole[e0.len() + 8 + j]);
                assert(whole[e0.len() + 8 + j] == e1[e0.len() + 8 + j]);
            }
        }
        assert(objs.take(k - 1).push(o) =~= objs.take(k));
        assert(objs[k - 1].len() > 0);
    }
}

/// Decoding the encoding of a remote state whose objects are all non-empty
/// gives the state back (for an encoding that fits in memory).
pub proof fn lemma_remote_round_trip(s: RemoteModel)
    requires
        forall|i: int| 0 <= i < s.objects.len() ==> (#[trigger] s.objects[i]).len() > 0,
        enc_remote(s).len() <= usize::MAX,
    ensures
        remote_decode(enc_remote(s)) == Ok::<RemoteModel, RemoteFault>(s),
{
    lemma_byte_bound_8();
    lemma_be_round_trip(s.head as nat, 8);
    lemma_be_round_trip(s.publish_count as nat, 8);
    let b = enc_remote(s);
    let objs = s.objects;
    assert(objs.len() <= b.len()) by {
        lemma_objects_len_bound(objs);
    }
    lemma_be_round_trip(objs.len(), 8);
    let h = remote_magic() + be_bytes(s.head as nat, 8) + be_bytes(s.publish_count as nat, 8) + be_bytes(objs.len(), 8);
    assert(b == h + enc_objects(objs));
    assert(b.subrange(0, 8) =~= remote_magic());
    assert(b.subrange(8, 16) =~= be_bytes(s.head as nat, 8));
    assert(b.subrange(16, 24) =~= be_bytes(s.publish_count as nat, 8));
    assert(b.subrange(24, 32) =~= be_bytes(objs.len(), 8));
    assert(b.subrange(32, 32 + enc_objects(objs).len() as int) =~= enc_objects(objs));
    lemma_objects_parse(b, 32, objs, objs.len() as int);
    assert(objs.take(objs.len() as int) =~= objs);
}

/// Each object takes at least one byte of the encoding.
proof fn lemma_objects_len_bound(objs: Seq<Seq<u8>>)
    ensures
        objs.len() <= enc_objects(objs).len(),
    decreases objs.len(),
{
    if objs.len() > 0 {
        lemma_objects_len_bound(objs.drop_last());
        lemma_byte_bound_8();
        lemma_be_round_trip(0, 8);
        assert(be_bytes(objs.last().len(), 8).len() == 8) by {
            lemma_be_len(objs.last().len());
        }
    }
}

proof fn lemma_be_len(v: nat)
    ensures
        be_bytes(v, 8).len() == 8,
{
    reveal_with_fuel(be_bytes, 9);
}

fn append(out: &mut Vec<u8>, s: &[u8])
    ensures
        final(out)@ == old(out)@ + s@,
{
    let mut i: usize = 0;
    while i < s.len()
        invariant
            i <= s@.len(),
            out@ == old(out)@ + s@.take(i as int),
        decreases s@.len() - i,
    {
        out.push(s[i]);
        assert(s@.take(i as int + 1) =~= s@.take(i as int).push(s@[i as int]));
        i = i + 1;
    }
    assert(s@.take(s@.len() as int) =~= s@);
}

/// Encodes a remote state.
pub fn encode_remote_state(state: &ProbeRemoteState) -> (r: Result<Vec<u8>, ProbeTransportError>)
    ensures
        r matches Ok(out) && out@ == enc_remote(state@),
{
    proof {
        lemma_byte_bound_8();
    }
    let mut encoded: Vec<u8> = Vec::new();
    let magic = vec![0x41, 0x50, 0x43, 0x41, 0x52, 0x4d, 0x54, 0x31];
    assert(magic@ =~= remote_magic());
    append(&mut encoded, magic.as_slice());
    push_be(&mut encoded, state.head, 8);
    push_be(&mut encoded, state.publish_count, 8);
    push_be(&mut encoded, state.objects.len() as u64, 8);
    let ghost start = encoded@;
    let ghost objs = state@.objects;
    let mut i: usize = 0;
    proof {
        assert(objs.take(0) =~= Seq::<Seq<u8>>::empty());
        assert(start =~= start + enc_objects(objs.take(0)));
    }
    while i < state.objects.len()
        invariant
            i <= state.objects@.len(),
            objs == state@.objects,
            encoded@ == start + enc_objects(objs.take(i as int)),
        decreases state.objects@.len() - i,
    {
        let object = &state.objects[i];
        proof {
            lemma_byte_bound_8();
        }
        push_be(&mut encoded, object.len() as u64, 8);
        append(&mut encoded, object.as_slice());
        proof {
            assert(objs.take(i as int + 1).drop_last() =~= objs.take(i as int));
            assert(objs[i as int] == object@);
        }
        i = i + 1;
    }
    proof {
        assert(objs.take(objs.len() as int) =~= objs);
    }
    assert(encoded@ =~= enc_remote(state@));
    Ok(encoded)
}

fn read_u64(bytes: &[u8], offset: &mut usize) -> (r: Result<u64, RemoteFault>)
    ensures
        match sp_remote_u64(bytes@, *old(offset) as int) {
            Ok((v, p)) => r matches Ok(x) && x == v && *final(offset) == p,
            Err(f) => r matches Err(g) && g == f,
        },
{
    let end = match offset.checked_add(8) {
        Some(e) => e,
        None => {
            return Err(RemoteFault::U64OffsetOverflow);
        },
    };
    if end > bytes.len() {
        return Err(RemoteFault::TruncatedU64);
    }
    let v = read_be(bytes, *offset, 8);
    *offset = end;
    Ok(v)
}

fn decode_objects(bytes: &[u8], offset: &mut usize, count: usize) -> (r: Result<Vec<Vec<u8>>, RemoteFault>)
    ensures
        match sp_objects(bytes@, *old(offset) as int, count as nat, Seq::empty()) {
            Ok((objs, p)) => r matches Ok(v) && v@.map_values(|o: Vec<u8>| o@) == objs && *final(offset) == p,
            Err(f) => r matches Err(g) && g == f,
        },
{
    let mut objects: Vec<Vec<u8>> = Vec::new();
    let mut k: usize = 0;
    let ghost start = *offset;
    proof {
        assert(objects@.map_values(|o: Vec<u8>| o@) =~= Seq::<Seq<u8>>::empty());
    }
    while k < count
        invariant
            k <= count,
            start == *old(offset),
            sp_objects(bytes@, start as int, count as nat, Seq::empty()) == sp_objects(
                bytes@,
                *offset as int,
                (count - k) as nat,
                objects@.map_values(|o: Vec<u8>| o@),
            ),
        decreases count - k,
    {
        let len64 = read_u64(bytes, offset)?;
        if len64 > usize::MAX as u64 {
            return Err(RemoteFault::LengthOverflow);
        }
        let len = len64 as usize;
        let end = match offset.checked_add(len) {
            Some(e) => e,
            None => {
                return Err(RemoteFault::OffsetOverflow);
            },
        };
        if end > bytes.len() {
            return Err(RemoteFault::TruncatedObject);
        }
        if len == 0 {
            return Err(RemoteFault::EmptyObject);
        }
        let mut object: Vec<u8> = Vec::new();
        append(&mut object, &bytes[*offset..end]);
        proof {
            assert(objects@.push(object).map_values(|o: Vec<u8>| o@) =~= objects@.map_values(|o: Vec<u8>| o@).push(object@));
        }
        objects.push(object);
        *offset = end;
        k = k + 1;
    }
    Ok(objects)
}

/// Decodes a remote state, refusing anything but one exact encoding with
/// non-empty objects.
pub fn decode_remote_state(bytes: &[u8]) -> (r: Result<ProbeRemoteState, ProbeTransportError>)
    ensures
        match remote_decode(bytes@) {
            Ok(m) => r matches Ok(s) && s@ == m,
            Err(f) => r matches Err(ProbeTransportError::InvalidState(msg)) && msg@ == fault_message(f)@,
        },
{
    match decode_remote(bytes) {
        Ok(s) => Ok(s),
        Err(f) => Err(ProbeTransportError::InvalidState(fault_text(f))),
    }
}

fn decode_remote(bytes: &[u8]) -> (r: Result<ProbeRemoteState, RemoteFault>)
    ensures
        match remote_decode(bytes@) {
            Ok(m) => r matches Ok(s) && s@ == m,
            Err(f) => r matches Err(g) && g == f,
        },
{
    let magic = vec![0x41, 0x50, 0x43, 0x41, 0x52, 0x4d, 0x54, 0x31];
    assert(magic@ =~= remote_magic());
    if bytes.len() < 8 || crate::order::compare_bytes(&bytes[0..8], magic.as_slice()) != 0 {
        return Err(RemoteFault::WrongMagic);
    }
    let mut offset: usize = 8;
    let head = read_u64(bytes, &mut offset)?;
    let publish_count = read_u64(bytes, &mut offset)?;
    let count64 = read_u64(bytes, &mut offset)?;
    if count64 > usize::MAX as u64 {
        return Err(RemoteFault::CountOverflow);
    }
    let objects = decode_objects(bytes, &mut offset, count64 as usize)?;
    if offset != bytes.len() {
        return Err(RemoteFault::TrailingBytes);
    }
    Ok(ProbeRemoteState { head, publish_count, objects })
}

// ------------------------------------------------------------ transport rules

/// What a fetch from the simulated remote reports.
#[derive(Clone, Debug, PartialEq, Eq)]
pub enum ProbeFetch {
    /// The caller already knows the current head.
    UpToDate { head: u64 },
    /// The objects of the one publication after the initial head.
    Changed { head: u64, objects: Vec<Vec<u8>> },
    /// The remote cannot serve changes since the caller's head.
    BaselineUnavailable { head: u64 },
}

/// A fetch from the remote `state` by a caller that knows `known_head`: up
/// to date at the current head; from the initial head to the accepted head,
/// the accepted objects; from anywhere else, no baseline.
pub fn probe_fetch(state: ProbeRemoteState, known_head: Option<u64>) -> (r: ProbeFetch)
    ensures
        known_head == Some(state.head) ==> r == (ProbeFetch::UpToDate { head: state.head }),
        known_head != Some(state.head) && known_head == Some(PROBE_INITIAL_HEAD) && state.head == PROBE_ACCEPTED_HEAD
            ==> r == (ProbeFetch::Changed { head: state.head, objects: state.objects }),
        known_head != Some(state.head) && !(known_head == Some(PROBE_INITIAL_HEAD) && state.head == PROBE_ACCEPTED_HEAD)
            ==> r == (ProbeFetch::BaselineUnavailable { head: state.head }),
{
    let head = state.head;
    match known_head {
        Some(k) => {
            if k == head {
                return ProbeFetch::UpToDate { head };
            }
            if k == PROBE_INITIAL_HEAD && head == PROBE_ACCEPTED_HEAD {
                return ProbeFetch::Changed { head, objects: state.objects };
            }
            ProbeFetch::BaselineUnavailable { head }
        },
        None => ProbeFetch::BaselineUnavailable { head },
    }
}

/// The objects of a publication are acceptable: at least one, none empty.
pub open spec fn publishable(objects: Seq<Vec<u8>>) -> bool {
    objects.len() > 0 && forall|i: int| 0 <= i < objects.len() ==> (#[trigger] objects[i])@.len() > 0
}

/// Refuses a publication without objects or with an empty object, before the
/// remote is consulted.
pub fn check_publish_objects(objects: &Vec<Vec<u8>>) -> (r: Result<(), ProbeTransportError>)
    ensures
        r is Ok <==> publishable(objects@),
        r matches Err(e) ==> (e matches ProbeTransportError::InvalidState(msg)
            && msg@ == "publish must contain non-empty opaque objects"@),
{
    let mut ok = objects.len() > 0;
    let mut i: usize = 0;
    while i < objects.len()
        invariant
            i <= objects@.len(),
            ok == (objects@.len() > 0 && forall|j: int| 0 <= j < i ==> (#[trigger] objects@[j])@.len() > 0),
        decreases objects@.len() - i,
    {
        if objects[i].len() == 0 {
            ok = false;
        }
        i = i + 1;
    }
    if ok {
        Ok(())
    } else {
        Err(ProbeTransportError::InvalidState("publish must contain non-empty opaque objects".to_owned()))
    }
}

/// What a publication to the simulated remote decides.
#[derive(Debug, PartialEq, Eq)]
pub enum ProbePublish {
    /// The caller's expected head is not the current head.
    Conflict { current_head: u64 },
    /// The remote state to persist: the next head, one more publication and
    /// exactly the published objects.
    Accepted { state: ProbeRemoteState },
}

/// A compare-and-set publication to the remote `current`: a conflict
/// unless the caller expected the current head, otherwise the next state.
/// The head cannot move past its largest value.
pub fn probe_publish(current: &ProbeRemoteState, expected_head: Option<u64>, objects: &Vec<Vec<u8>>) -> (r: Result<
    ProbePublish,
    ProbeTransportError,
>)
    requires
        expected_head == Some(current.head) && current.head < u64::MAX ==> current.publish_count < u64::MAX,
    ensures
        expected_head != Some(current.head) ==> (r matches Ok(ProbePublish::Conflict { current_head })
            && current_head == current.head),
        expected_head == Some(current.head) && current.head == u64::MAX ==> (r matches Err(
            ProbeTransportError::InvalidState(msg),
        ) && msg@ == "head overflow"@),
        expected_head == Some(current.head) && current.head < u64::MAX ==> (r matches Ok(ProbePublish::Accepted { state })
            && state@ == (RemoteModel {
            head: (current.head + 1) as u64,
            publish_count: (current.publish_count + 1) as u64,
            objects: objects@.map_values(|o: Vec<u8>| o@),
        })),
{
    let same = match expected_head {
        Some(h) => h == current.head,
        None => false,
    };
    if !same {
        return Ok(ProbePublish::Conflict { current_head: current.head });
    }
    if current.head == u64::MAX {
        return Err(ProbeTransportError::InvalidState("head overflow".to_owned()));
    }
    let mut copied: Vec<Vec<u8>> = Vec::new();
    let mut i: usize = 0;
    while i < objects.len()
        invariant
            i <= objects@.len(),
            copied@.len() == i,
            forall|j: int| 0 <= j < i ==> (#[trigger] copied@[j])@ == objects@[j]@,
        decreases objects@.len() - i,
    {
        let o = objects[i].clone();
        copied.push(o);
        i = i + 1;
    }
    assert(copied@.map_values(|o: Vec<u8>| o@) =~= objects@.map_values(|o: Vec<u8>| o@));
    Ok(ProbePublish::Accepted {
        state: ProbeRemoteState { head: current.head + 1, publish_count: current.publish_count + 1, objects: copied },
    })
}

} // verus!

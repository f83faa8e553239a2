//! Decisions of receiving protected scalar objects.
//!
//! Wire decoding and authentication of each object belong to the transport
//! layer; what is decided here is which objects are looked at, when a single
//! object is acceptable as one complete single-domain state, and when a set
//! of objects forms exactly one complete pending publication.
use vstd::prelude::*;

use crate::order::compare_bytes;
use crate::recovery_set::{compare_keys, DomainKey};
use crate::resume::PublicationId;
use crate::scalar::ScalarRegister;

verus! {

/// Object `i` is the first of the objects with its exact bytes.
pub open spec fn first_occurrence(objects: Seq<Vec<u8>>, i: int) -> bool {
    &&& 0 <= i < objects.len()
    &&& forall|j: int| 0 <= j < i ==> (#[trigger] objects[j])@ != objects[i]@
}

/// The positions of the objects to look at: each distinct wire object once,
/// at its first position, in the order given. Repeating an object byte for
/// byte changes nothing.
pub fn first_occurrences(objects: &Vec<Vec<u8>>) -> (r: Vec<usize>)
    ensures
        forall|k: int| 0 <= k < r@.len() ==> first_occurrence(objects@, #[trigger] r@[k] as int),
        forall|k1: int, k2: int| 0 <= k1 < k2 < r@.len() ==> (#[trigger] r@[k1]) < (#[trigger] r@[k2]),
        forall|i: int| #[trigger] first_occurrence(objects@, i) ==> r@.contains(i as usize),
{
    let mut r: Vec<usize> = Vec::new();
    let mut i: usize = 0;
    while i < objects.len()
        invariant
            i <= objects@.len(),
            forall|k: int| 0 <= k < r@.len() ==> first_occurrence(objects@, #[trigger] r@[k] as int) && r@[k] < i,
            forall|k1: int, k2: int| 0 <= k1 < k2 < r@.len() ==> (#[trigger] r@[k1]) < (#[trigger] r@[k2]),
            forall|t: int| 0 <= t < i && #[trigger] first_occurrence(objects@, t) ==> r@.contains(t as usize),
        decreases objects@.len() - i,
    {
        let mut j: usize = 0;
        let mut seen = false;
        while j < i
            invariant
                i < objects@.len(),
                j <= i,
                !seen ==> forall|t: int| 0 <= t < j ==> (#[trigger] objects@[t])@ != objects@[i as int]@,
                seen ==> !first_occurrence(objects@, i as int),
            decreases i - j,
        {
            if compare_bytes(objects[j].as_slice(), objects[i].as_slice()) == 0 {
                seen = true;
            }
            j = j + 1;
        }
        if !seen {
            let ghost before = r@;
            r.push(i);
            proof {
                assert(r@.last() == i);
                assert forall|t: int| 0 <= t < i + 1 && #[trigger] first_occurrence(objects@, t) implies r@.contains(t as usize) by {
                    if t < i {
                        let k = choose|k: int| 0 <= k < before.len() && before[k] == t as usize;
                        assert(r@[k] == t as usize);
                    } else {
                        assert(r@[r@.len() - 1] == t as usize);
                    }
                }
            }
        }
        i = i + 1;
    }
    r
}

/// Why one received object is not a complete single-domain scalar state.
#[derive(Clone, Copy, Debug, PartialEq, Eq, Structural)]
pub enum SingleObjectRefusal {
    /// The object is one part of a multipart publication.
    MultipartUnsupported,
    /// The object carries another number of domains than one.
    UnexpectedDomainCount { count: usize },
    /// The object's single domain is not the expected one.
    MissingExpectedDomain,
}

/// A single-object receive accepts only the one part of a one-part
/// publication.
pub fn check_single_part(part_index: u32, total_parts: u32) -> (r: Result<(), SingleObjectRefusal>)
    ensures
        r is Ok <==> part_index == 0 && total_parts == 1,
        r is Err ==> r == Err::<(), SingleObjectRefusal>(SingleObjectRefusal::MultipartUnsupported),
{
    if part_index != 0 || total_parts != 1 {
        Err(SingleObjectRefusal::MultipartUnsupported)
    } else {
        Ok(())
    }
}

/// The state of the expected domain out of an authenticated object's
/// domains: the object must carry exactly one domain, and it must be the
/// expected one.
pub fn select_expected_domain(domains: Vec<(DomainKey, ScalarRegister)>, expected: &DomainKey) -> (r: Result<
    ScalarRegister,
    SingleObjectRefusal,
>)
    ensures
        domains@.len() != 1 ==> r == Err::<ScalarRegister, SingleObjectRefusal>(
            SingleObjectRefusal::UnexpectedDomainCount { count: domains@.len() as usize },
        ),
        domains@.len() == 1 && domains@[0].0@ != expected@ ==> r == Err::<ScalarRegister, SingleObjectRefusal>(
            SingleObjectRefusal::MissingExpectedDomain,
        ),
        domains@.len() == 1 && domains@[0].0@ == expected@ ==> (r matches Ok(reg) && reg@ == domains@[0].1@),
{
    if domains.len() != 1 {
        return Err(SingleObjectRefusal::UnexpectedDomainCount { count: domains.len() });
    }
    let mut domains = domains;
    let (key, register) = domains.remove(0);
    if compare_keys(&key, expected) != 0 {
        return Err(SingleObjectRefusal::MissingExpectedDomain);
    }
    Ok(register)
}

/// Why the objects of one pending publication do not form it.
#[derive(Clone, Copy, Debug, PartialEq, Eq)]
pub enum PendingPublicationRefusal {
    /// No object was given.
    EmptyObjectSet,
    /// An object belongs to another publication.
    PublicationIdMismatch { expected: PublicationId, actual: PublicationId },
    /// The objects completed more than one publication.
    MultipleCompletedPublications,
    /// Some publication was left incomplete, or none completed.
    IncompleteMultipartPublication,
}

/// Assembly of exactly one pending publication from its wire objects: every
/// object must belong to it, it must complete exactly once, and nothing may
/// stay incomplete.
pub struct PendingAssembly {
    expected: PublicationId,
    completed: bool,
}

impl PendingAssembly {
    /// The publication being assembled.
    pub closed spec fn expected(self) -> PublicationId {
        self.expected
    }

    /// Whether a publication has completed.
    pub closed spec fn is_completed(self) -> bool {
        self.completed
    }

    /// Starts assembling `expected` from `object_count` objects; an empty set
    /// of objects is refused.
    pub fn start(expected: PublicationId, object_count: usize) -> (r: Result<Self, PendingPublicationRefusal>)
        ensures
            object_count == 0 <==> r is Err,
            r is Err ==> r == Err::<Self, PendingPublicationRefusal>(PendingPublicationRefusal::EmptyObjectSet),
            r matches Ok(a) ==> a.expected() == expected && !a.is_completed(),
    {
        if object_count == 0 {
            Err(PendingPublicationRefusal::EmptyObjectSet)
        } else {
            Ok(PendingAssembly { expected, completed: false })
        }
    }

    /// Accepts a decoded part: it must belong to the expected publication.
    pub fn accept_part(&self, actual: PublicationId) -> (r: Result<(), PendingPublicationRefusal>)
        ensures
            r is Ok <==> actual == self.expected(),
            r is Err ==> r == Err::<(), PendingPublicationRefusal>(
                PendingPublicationRefusal::PublicationIdMismatch { expected: self.expected(), actual },
            ),
    {
        if self.expected.compare(&actual) != 0 {
            Err(PendingPublicationRefusal::PublicationIdMismatch { expected: self.expected, actual })
        } else {
            Ok(())
        }
    }

    /// Records that an ingested part completed a publication; a second
    /// completion is refused and changes nothing.
    pub fn record_completion(&mut self) -> (r: Result<(), PendingPublicationRefusal>)
        ensures
            r is Ok <==> !old(self).is_completed(),
            r is Err ==> r == Err::<(), PendingPublicationRefusal>(PendingPublicationRefusal::MultipleCompletedPublications),
            final(self).expected() == old(self).expected(),
            final(self).is_completed(),
    {
        if self.completed {
            Err(PendingPublicationRefusal::MultipleCompletedPublications)
        } else {
            self.completed = true;
            Ok(())
        }
    }

    /// The end of the objects: the publication is formed exactly when it
    /// completed and no publication is still pending.
    pub fn finish(&self, pending_publications: usize) -> (r: Result<(), PendingPublicationRefusal>)
        ensures
            r is Ok <==> pending_publications == 0 && self.is_completed(),
            r is Err ==> r == Err::<(), PendingPublicationRefusal>(PendingPublicationRefusal::IncompleteMultipartPublication),
    {
        if pending_publications != 0 || !self.completed {
            Err(PendingPublicationRefusal::IncompleteMultipartPublication)
        } else {
            Ok(())
        }
    }
}

} // verus!

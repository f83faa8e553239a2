use std::convert::Infallible;

use apc::domain::LocalScalarDomain;
use apc::durability::{commit_durable, DurabilityBackend};
use apc::recorded::RecordedBackend;
use apc::id::{RevisionId, WorkingEpochId};
use apc::protection::{protect, unprotect, ContentKey, ProtectionError};
use apc::scalar::ScalarRegister;
use apc::snapshot_codec::{decode_local_scalar_snapshot, encode_local_scalar_snapshot};

const RECOVERY_CONTEXT: &[u8] = b"apc-test/local-recovery/continuum-0001";
const TEST_KEY: [u8; 32] = [0x5a; 32];

/// A durability backend whose durable part survives a reopen.
#[derive(Default)]
struct MemoryBackend {
    candidates: Vec<Vec<u8>>,
    durable: Vec<bool>,
    visible_root: Option<usize>,
    durable_root: Option<usize>,
}

impl MemoryBackend {
    /// What a reopen finds: only durable candidates and the durable root.
    fn reopen(self) -> Self {
        MemoryBackend {
            candidates: self.candidates,
            durable: self.durable,
            visible_root: self.durable_root,
            durable_root: self.durable_root,
        }
    }
}

impl DurabilityBackend<Vec<u8>> for MemoryBackend {
    type Candidate = usize;
    type Error = Infallible;

    fn load_committed(&self) -> Result<Option<Vec<u8>>, Self::Error> {
        Ok(self.durable_root.map(|root| self.candidates[root].clone()))
    }

    fn write_candidate(&mut self, state: &Vec<u8>) -> Result<usize, Self::Error> {
        self.candidates.push(state.clone());
        self.durable.push(false);
        Ok(self.candidates.len() - 1)
    }

    fn sync_candidate(&mut self, candidate: &usize) -> Result<(), Self::Error> {
        self.durable[*candidate] = true;
        Ok(())
    }

    fn publish_candidate(&mut self, candidate: &usize) -> Result<(), Self::Error> {
        assert!(self.durable[*candidate]);
        self.visible_root = Some(*candidate);
        Ok(())
    }

    fn sync_committed_root(&mut self) -> Result<(), Self::Error> {
        self.durable_root = self.visible_root;
        Ok(())
    }
}

fn id_bytes(value: u64) -> [u8; 32] {
    let mut bytes = [0_u8; 32];
    bytes[24..].copy_from_slice(&value.to_be_bytes());
    bytes
}

fn prot_rid(value: u64) -> RevisionId {
    RevisionId::from_bytes(id_bytes(value))
}

fn prot_wid(value: u64) -> WorkingEpochId {
    WorkingEpochId::from_bytes(id_bytes(value))
}

fn recovery_domain() -> LocalScalarDomain {
    let mut causal = ScalarRegister::new();
    causal.assign(prot_rid(100), b"base-value".to_vec()).unwrap();
    let mut domain = LocalScalarDomain::from_causal(causal).unwrap();

    domain.begin_epoch(prot_wid(1), b"committed-local".to_vec()).unwrap();
    domain.seal_local(prot_rid(200)).unwrap();
    domain.finalize(prot_rid(200)).unwrap();
    domain.handoff(vec![prot_rid(200)]).unwrap();

    domain.begin_epoch(prot_wid(2), b"draft-in-memory".to_vec()).unwrap();
    domain.update_pending(b"draft-latest-sensitive".to_vec()).unwrap();
    domain
}

#[test]
fn real_scalar_recovery_state_is_aead_protected_before_filesystem_storage() {
    let domain = recovery_domain();
    let snapshot_bytes = encode_local_scalar_snapshot(&domain.snapshot()).unwrap();
    let key = ContentKey::from_bytes(TEST_KEY);
    let protected = protect(&key, RECOVERY_CONTEXT, &snapshot_bytes).unwrap();

    assert!(!protected
        .windows(b"draft-latest-sensitive".len())
        .any(|window| window == b"draft-latest-sensitive"));

    let mut recorded = RecordedBackend::new(MemoryBackend::default());
    let committed = commit_durable(&mut recorded, &protected);
    committed.unwrap();

    let reopened = recorded.into_backend().reopen();
    let recovered_protected = reopened.load_committed().unwrap().unwrap();
    let recovered_plain = unprotect(&key, RECOVERY_CONTEXT, &recovered_protected).unwrap();
    let recovered_snapshot = decode_local_scalar_snapshot(&recovered_plain).unwrap();
    let restored = LocalScalarDomain::restore(recovered_snapshot).unwrap();

    assert_eq!(restored, domain);
}

#[test]
fn storage_bytes_cannot_be_reused_under_a_different_recovery_context() {
    let domain = recovery_domain();
    let encoded = encode_local_scalar_snapshot(&domain.snapshot()).unwrap();
    let key = ContentKey::from_bytes(TEST_KEY);
    let protected = protect(&key, RECOVERY_CONTEXT, &encoded).unwrap();

    let mut recorded = RecordedBackend::new(MemoryBackend::default());
    let committed = commit_durable(&mut recorded, &protected);
    committed.unwrap();

    let reopened = recorded.into_backend().reopen();
    let recovered = reopened.load_committed().unwrap().unwrap();
    assert_eq!(
        unprotect(&key, b"apc-test/local-recovery/other-continuum", &recovered).unwrap_err(),
        ProtectionError::AuthenticationFailed
    );
}

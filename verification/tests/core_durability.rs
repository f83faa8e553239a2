use std::collections::BTreeMap;
use std::convert::Infallible;

use apc::durability::{commit_durable, DurabilityBackend};
use apc::recorded::RecordedBackend;

#[derive(Clone, Copy, Debug, PartialEq, Eq, PartialOrd, Ord)]
struct Handle(u64);

struct CrashBackend {
    next_handle: u64,
    volatile_candidates: BTreeMap<Handle, String>,
    durable_candidates: BTreeMap<Handle, String>,
    visible_root: Option<Handle>,
    durable_root: Option<Handle>,
    calls: Vec<&'static str>,
}

impl CrashBackend {
    fn with_committed(state: String) -> Self {
        let baseline = Handle(0);
        Self {
            next_handle: 1,
            volatile_candidates: BTreeMap::new(),
            durable_candidates: BTreeMap::from([(baseline, state)]),
            visible_root: Some(baseline),
            durable_root: Some(baseline),
            calls: Vec::new(),
        }
    }

    /// Simulates a power loss; an unsynced root publication survives only
    /// when `publication_reached_media` is true.
    fn crash(&mut self, publication_reached_media: bool) {
        if publication_reached_media {
            if let Some(root) = self.visible_root {
                if self.durable_candidates.contains_key(&root) {
                    self.durable_root = Some(root);
                }
            }
        }
        self.visible_root = self.durable_root;
        self.volatile_candidates.clear();
    }
}

impl DurabilityBackend<String> for CrashBackend {
    type Candidate = Handle;
    type Error = Infallible;

    fn load_committed(&self) -> Result<Option<String>, Self::Error> {
        Ok(self.durable_root.and_then(|root| self.durable_candidates.get(&root).cloned()))
    }

    fn write_candidate(&mut self, state: &String) -> Result<Self::Candidate, Self::Error> {
        self.calls.push("write_candidate");
        let handle = Handle(self.next_handle);
        self.next_handle += 1;
        self.volatile_candidates.insert(handle, state.clone());
        Ok(handle)
    }

    fn sync_candidate(&mut self, candidate: &Self::Candidate) -> Result<(), Self::Error> {
        self.calls.push("sync_candidate");
        if let Some(state) = self.volatile_candidates.get(candidate).cloned() {
            self.durable_candidates.insert(*candidate, state);
        }
        Ok(())
    }

    fn publish_candidate(&mut self, candidate: &Self::Candidate) -> Result<(), Self::Error> {
        self.calls.push("publish_candidate");
        assert!(self.durable_candidates.contains_key(candidate));
        self.visible_root = Some(*candidate);
        Ok(())
    }

    fn sync_committed_root(&mut self) -> Result<(), Self::Error> {
        self.calls.push("sync_committed_root");
        self.durable_root = self.visible_root;
        Ok(())
    }
}

#[test]
fn commit_protocol_uses_required_order_and_ack_is_durable() {
    let mut recorded = RecordedBackend::new(CrashBackend::with_committed("old".to_owned()));

    let result = commit_durable(&mut recorded, &"new".to_owned());
    result.unwrap();
    let mut backend = recorded.into_backend();

    assert_eq!(
        backend.calls,
        ["write_candidate", "sync_candidate", "publish_candidate", "sync_committed_root"]
    );

    backend.crash(false);
    assert_eq!(backend.load_committed().unwrap().as_deref(), Some("new"));
}

#[test]
fn crash_before_candidate_sync_recovers_only_old_committed_state() {
    for publication_reached_media in [false, true] {
        let mut backend = CrashBackend::with_committed("old".to_owned());
        let candidate = backend.write_candidate(&"new".to_owned()).unwrap();
        assert_eq!(candidate, Handle(1));

        backend.crash(publication_reached_media);
        assert_eq!(backend.load_committed().unwrap().as_deref(), Some("old"));
    }
}

#[test]
fn durable_unpublished_candidate_does_not_replace_old_root() {
    for publication_reached_media in [false, true] {
        let mut backend = CrashBackend::with_committed("old".to_owned());
        let candidate = backend.write_candidate(&"new".to_owned()).unwrap();
        backend.sync_candidate(&candidate).unwrap();

        backend.crash(publication_reached_media);
        assert_eq!(backend.load_committed().unwrap().as_deref(), Some("old"));
    }
}

#[test]
fn crash_after_publish_before_root_barrier_may_recover_old_or_new_but_never_hybrid() {
    let mut old_survives = CrashBackend::with_committed("old".to_owned());
    let candidate = old_survives.write_candidate(&"new".to_owned()).unwrap();
    old_survives.sync_candidate(&candidate).unwrap();
    old_survives.publish_candidate(&candidate).unwrap();
    old_survives.crash(false);
    assert_eq!(old_survives.load_committed().unwrap().as_deref(), Some("old"));

    let mut new_survives = CrashBackend::with_committed("old".to_owned());
    let candidate = new_survives.write_candidate(&"new".to_owned()).unwrap();
    new_survives.sync_candidate(&candidate).unwrap();
    new_survives.publish_candidate(&candidate).unwrap();
    new_survives.crash(true);
    assert_eq!(new_survives.load_committed().unwrap().as_deref(), Some("new"));
}

#[test]
fn crash_after_root_barrier_before_caller_observes_ack_recovers_new_state() {
    for publication_reached_media in [false, true] {
        let mut backend = CrashBackend::with_committed("old".to_owned());
        let candidate = backend.write_candidate(&"new".to_owned()).unwrap();
        backend.sync_candidate(&candidate).unwrap();
        backend.publish_candidate(&candidate).unwrap();
        backend.sync_committed_root().unwrap();

        backend.crash(publication_reached_media);
        assert_eq!(backend.load_committed().unwrap().as_deref(), Some("new"));
    }
}

/// A backend whose `fail_at`-th state-changing call fails.
struct FailingBackend {
    fail_at: usize,
    calls: Vec<&'static str>,
}

impl FailingBackend {
    fn step(&mut self, name: &'static str) -> Result<(), &'static str> {
        self.calls.push(name);
        if self.calls.len() == self.fail_at {
            Err(name)
        } else {
            Ok(())
        }
    }
}

impl DurabilityBackend<String> for FailingBackend {
    type Candidate = u64;
    type Error = &'static str;

    fn load_committed(&self) -> Result<Option<String>, Self::Error> {
        Ok(None)
    }

    fn write_candidate(&mut self, _state: &String) -> Result<u64, Self::Error> {
        self.step("write_candidate").map(|()| 7)
    }

    fn sync_candidate(&mut self, candidate: &u64) -> Result<(), Self::Error> {
        assert_eq!(*candidate, 7);
        self.step("sync_candidate")
    }

    fn publish_candidate(&mut self, candidate: &u64) -> Result<(), Self::Error> {
        assert_eq!(*candidate, 7);
        self.step("publish_candidate")
    }

    fn sync_committed_root(&mut self) -> Result<(), Self::Error> {
        self.step("sync_committed_root")
    }
}

#[test]
fn commit_stops_at_the_first_failing_step_with_its_error() {
    let steps = ["write_candidate", "sync_candidate", "publish_candidate", "sync_committed_root"];
    for fail_at in 1..=4 {
        let mut recorded = RecordedBackend::new(FailingBackend { fail_at, calls: Vec::new() });
        assert_eq!(commit_durable(&mut recorded, &"new".to_owned()), Err(steps[fail_at - 1]));
        assert_eq!(recorded.into_backend().calls, steps[..fail_at].to_vec());
    }
}

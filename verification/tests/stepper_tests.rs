use runsvdir::{Listing, ServiceDef, Shash, StepError, Stepper};

fn script(path: &str, content: &[u8]) -> ServiceDef {
    ServiceDef::Script { path: String::from(path), content: content.to_vec() }
}

#[test]
fn new_entry_detection_test() {
    let mut stepper = Stepper::new();
    let listing = Listing::Entries(vec![script("svc/a/run", b"#!/bin/sh\nexec a\n")]);
    let plan = stepper.plan(&listing).unwrap();
    assert_eq!(plan.desired.len(), 1);
    assert_eq!(plan.spawn.len(), 1);
    stepper.record_spawn(plan.spawn[0].clone(), 101);
    assert_eq!(stepper.len(), 1);
    assert!(stepper.contains(&plan.desired[0]));
}

#[test]
fn idempotent_pass_test() {
    let mut stepper = Stepper::new();
    let listing = Listing::Entries(vec![
        script("svc/a/run", b"#!/bin/sh\nexec a\n"),
        script("svc/b/run", b"#!/bin/sh\nexec b\n"),
    ]);
    let first = stepper.plan(&listing).unwrap();
    assert_eq!(first.spawn.len(), 2);
    stepper.record_spawn(first.spawn[0].clone(), 101);
    stepper.record_spawn(first.spawn[1].clone(), 102);
    assert_eq!(stepper.len(), 2);

    // No filesystem change, both processes still running: the second pass
    // spawns nothing, retires nothing, forgets nothing.
    let second = stepper.plan(&listing).unwrap();
    assert_eq!(second.desired.len(), 2);
    assert_eq!(second.spawn.len(), 0);
    assert_eq!(stepper.stale(&second.desired).len(), 0);
    stepper.remove_exited(&Vec::new());
    assert_eq!(stepper.len(), 2);
    assert!(stepper.contains(&first.desired[0]));
    assert!(stepper.contains(&first.desired[1]));
}

#[test]
fn stale_detection_test() {
    let mut stepper = Stepper::new();
    let both = Listing::Entries(vec![
        script("svc/a/run", b"#!/bin/sh\nexec a\n"),
        script("svc/b/run", b"#!/bin/sh\nexec b\n"),
    ]);
    let first = stepper.plan(&both).unwrap();
    stepper.record_spawn(first.spawn[0].clone(), 101);
    stepper.record_spawn(first.spawn[1].clone(), 102);

    // b's subdirectory disappears: its process must be signaled, and once it
    // has exited, its fingerprint must be gone.
    let only_a = Listing::Entries(vec![script("svc/a/run", b"#!/bin/sh\nexec a\n")]);
    let second = stepper.plan(&only_a).unwrap();
    assert_eq!(second.spawn.len(), 0);
    let stale = stepper.stale(&second.desired);
    assert_eq!(stale.len(), 1);
    assert_eq!(stale[0].pid, 102);
    assert_eq!(stale[0].hash, first.desired[1]);

    stepper.remove_exited(&vec![102]);
    assert_eq!(stepper.len(), 1);
    assert!(stepper.contains(&first.desired[0]));
    assert!(!stepper.contains(&first.desired[1]));
}

#[test]
fn changed_content_is_new_identity_test() {
    let mut stepper = Stepper::new();
    let before = Listing::Entries(vec![script("svc/a/run", b"#!/bin/sh\nexec a\n")]);
    let first = stepper.plan(&before).unwrap();
    stepper.record_spawn(first.spawn[0].clone(), 101);

    // The script's content changes: the old identity is stale, the new one
    // is spawned.
    let after = Listing::Entries(vec![script("svc/a/run", b"#!/bin/sh\nexec a2\n")]);
    let second = stepper.plan(&after).unwrap();
    assert_eq!(second.spawn.len(), 1);
    let stale = stepper.stale(&second.desired);
    assert_eq!(stale.len(), 1);
    assert_eq!(stale[0].pid, 101);
}

#[test]
fn partial_failure_isolation_test() {
    let mut stepper = Stepper::new();
    let listing = Listing::Entries(vec![
        script("svc/a/run", b"#!/bin/sh\nexec a\n"),
        ServiceDef::Skipped {
            path: String::from("svc/bad/run"),
            cause: String::from("permission denied"),
        },
        script("svc/b/run", b"#!/bin/sh\nexec b\n"),
    ]);
    let plan = stepper.plan(&listing).unwrap();
    assert_eq!(plan.desired.len(), 2);
    assert_eq!(plan.spawn.len(), 2);
    stepper.record_spawn(plan.spawn[0].clone(), 101);
    stepper.record_spawn(plan.spawn[1].clone(), 102);
    assert_eq!(stepper.len(), 2);
    assert_eq!(stepper.stale(&plan.desired).len(), 0);
}

#[test]
fn spawn_failure_retried_test() {
    let stepper = Stepper::new();
    let listing = Listing::Entries(vec![script("svc/a/run", b"#!/bin/sh\nexec a\n")]);
    let first = stepper.plan(&listing).unwrap();
    assert_eq!(first.spawn.len(), 1);

    // The spawn failed, so nothing was recorded: the next pass plans the
    // same spawn again.
    let second = stepper.plan(&listing).unwrap();
    assert_eq!(second.spawn.len(), 1);
    assert_eq!(second.spawn[0], first.spawn[0]);
}

#[test]
fn duplicate_identity_spawned_once_test() {
    let stepper = Stepper::new();
    let listing = Listing::Entries(vec![
        script("svc/a/run", b"#!/bin/sh\nexec a\n"),
        script("svc/a/run", b"#!/bin/sh\nexec a\n"),
    ]);
    let plan = stepper.plan(&listing).unwrap();
    assert_eq!(plan.desired.len(), 2);
    assert_eq!(plan.spawn.len(), 1);
}

#[test]
fn example_scenario_test() {
    // svc/ holds a/, b/, c/ with distinct run scripts.
    let mut stepper = Stepper::new();
    let all = Listing::Entries(vec![
        script("svc/a/run", b"#!/bin/sh\nexec a\n"),
        script("svc/b/run", b"#!/bin/sh\nexec b\n"),
        script("svc/c/run", b"#!/bin/sh\nexec c\n"),
    ]);
    let first = stepper.plan(&all).unwrap();
    assert_eq!(first.spawn.len(), 3);
    stepper.record_spawn(first.spawn[0].clone(), 101);
    stepper.record_spawn(first.spawn[1].clone(), 102);
    stepper.record_spawn(first.spawn[2].clone(), 103);
    assert_eq!(stepper.len(), 3);

    // c/run is deleted: the second pass desires {a, b} and signals c.
    let without_c = Listing::Entries(vec![
        script("svc/a/run", b"#!/bin/sh\nexec a\n"),
        script("svc/b/run", b"#!/bin/sh\nexec b\n"),
    ]);
    let second = stepper.plan(&without_c).unwrap();
    assert_eq!(second.desired.len(), 2);
    assert_eq!(second.spawn.len(), 0);
    let stale = stepper.stale(&second.desired);
    assert_eq!(stale.len(), 1);
    assert_eq!(stale[0].hash, first.desired[2]);
    assert_eq!(stale[0].pid, 103);
    // c's process has not exited yet: it stays tracked.
    stepper.remove_exited(&Vec::new());
    assert_eq!(stepper.len(), 3);

    // c's process exits: the third pass shows {a, b} only.
    let third = stepper.plan(&without_c).unwrap();
    assert_eq!(third.spawn.len(), 0);
    stepper.remove_exited(&vec![103]);
    assert_eq!(stepper.len(), 2);
    assert!(stepper.contains(&first.desired[0]));
    assert!(stepper.contains(&first.desired[1]));
    assert!(!stepper.contains(&first.desired[2]));
}

#[test]
fn empty_directory_makes_everything_stale_test() {
    let mut stepper = Stepper::new();
    let listing = Listing::Entries(vec![script("svc/a/run", b"#!/bin/sh\nexec a\n")]);
    let first = stepper.plan(&listing).unwrap();
    stepper.record_spawn(first.spawn[0].clone(), 101);

    let empty = Listing::Entries(Vec::new());
    let second = stepper.plan(&empty).unwrap();
    assert_eq!(second.desired.len(), 0);
    assert_eq!(second.spawn.len(), 0);
    let stale = stepper.stale(&second.desired);
    assert_eq!(stale.len(), 1);
    assert_eq!(stale[0].pid, 101);
    stepper.remove_exited(&vec![101]);
    assert_eq!(stepper.len(), 0);
}

#[test]
fn root_listing_failure_test() {
    let mut stepper = Stepper::new();
    let listing = Listing::Entries(vec![script("svc/a/run", b"#!/bin/sh\nexec a\n")]);
    let plan = stepper.plan(&listing).unwrap();
    stepper.record_spawn(plan.spawn[0].clone(), 101);
    assert_eq!(stepper.len(), 1);

    // The directory cannot be listed: the pass fails and the tracked map is
    // untouched.
    let failed = Listing::Failed {
        dir: String::from("svc"),
        cause: String::from("no such directory"),
    };
    let err = stepper.plan(&failed).unwrap_err();
    assert!(matches!(err, StepError::ReadDir { .. }));
    if let StepError::ReadDir { dir, cause } = err {
        assert_eq!(dir, "svc");
        assert_eq!(cause, "no such directory");
    }
    assert_eq!(stepper.len(), 1);
    assert!(stepper.contains(&plan.desired[0]));
}

#[test]
fn pids_test() {
    let mut stepper = Stepper::new();
    let listing = Listing::Entries(vec![
        script("svc/a/run", b"#!/bin/sh\nexec a\n"),
        script("svc/b/run", b"#!/bin/sh\nexec b\n"),
    ]);
    let plan = stepper.plan(&listing).unwrap();
    stepper.record_spawn(plan.spawn[0].clone(), 101);
    stepper.record_spawn(plan.spawn[1].clone(), 102);
    assert_eq!(stepper.pids(), vec![101, 102]);

    // Recording the same identity again changes nothing.
    stepper.record_spawn(plan.spawn[0].clone(), 999);
    assert_eq!(stepper.pids(), vec![101, 102]);
}

#[test]
fn fingerprints_survive_round_trip_test() {
    // A fingerprint carried through the reconciler still equals one computed
    // afresh from the same path and content.
    let mut stepper = Stepper::new();
    let listing = Listing::Entries(vec![script("svc/a/run", b"#!/bin/sh\nexec a\n")]);
    let plan = stepper.plan(&listing).unwrap();
    stepper.record_spawn(plan.spawn[0].clone(), 101);
    let again = Shash::new(
        String::from("svc/a/run"),
        &b"#!/bin/sh\nexec a\n".to_vec(),
    );
    assert!(stepper.contains(&again));
    assert_eq!(again.path_str(), "svc/a/run");
}

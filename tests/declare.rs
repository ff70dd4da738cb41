use ecs::declare::{AccessBuilder, AccessMode, DeclareError, Request};

fn build(reqs: &[Request]) -> Result<ecs::access::SystemAccess, DeclareError> {
    let mut b = AccessBuilder::new();
    for r in reqs {
        b.request(*r);
    }
    b.build()
}

#[test]
fn declared_access_splits_reads_and_writes() {
    let access = build(&[
        Request::Component(1, AccessMode::Exclusive),
        Request::Component(2, AccessMode::Shared),
        Request::Resource(0, AccessMode::Shared),
        Request::Component(2, AccessMode::Shared),
        Request::Resource(3, AccessMode::Exclusive),
    ])
    .unwrap();
    assert_eq!(access.component_read, vec![2]);
    assert_eq!(access.component_write, vec![1]);
    assert_eq!(access.resource_read, vec![0]);
    assert_eq!(access.resource_write, vec![3]);
    assert!(!access.runs_alone);
}

#[test]
fn commands_make_a_system_run_alone() {
    let access = build(&[Request::Component(0, AccessMode::Shared), Request::Commands]).unwrap();
    assert!(access.runs_alone);
    assert_eq!(access.component_read, vec![0]);
    assert!(access.component_write.is_empty());
}

#[test]
fn shared_after_exclusive_component_is_rejected() {
    let r = build(&[
        Request::Component(4, AccessMode::Exclusive),
        Request::Component(4, AccessMode::Shared),
    ]);
    assert_eq!(r.err(), Some(DeclareError::ComponentConflict(4)));
}

#[test]
fn exclusive_after_shared_or_twice_is_rejected() {
    let r = build(&[
        Request::Component(4, AccessMode::Shared),
        Request::Component(4, AccessMode::Exclusive),
    ]);
    assert_eq!(r.err(), Some(DeclareError::ComponentConflict(4)));
    let r = build(&[
        Request::Resource(2, AccessMode::Exclusive),
        Request::Resource(2, AccessMode::Exclusive),
    ]);
    assert_eq!(r.err(), Some(DeclareError::ResourceConflict(2)));
}

#[test]
fn first_clash_is_reported_and_kinds_are_separate() {
    // A component and a resource with the same id do not clash.
    let ok = build(&[
        Request::Component(1, AccessMode::Exclusive),
        Request::Resource(1, AccessMode::Exclusive),
    ]);
    assert!(ok.is_ok());
    let r = build(&[
        Request::Commands,
        Request::Resource(5, AccessMode::Shared),
        Request::Resource(5, AccessMode::Exclusive),
        Request::Commands,
    ]);
    assert_eq!(r.err(), Some(DeclareError::ResourceConflict(5)));
    let r = build(&[Request::Commands, Request::Commands]);
    assert_eq!(r.err(), Some(DeclareError::RepeatedCommands));
}

#[test]
fn empty_declaration_touches_nothing() {
    let access = build(&[]).unwrap();
    assert!(access.component_read.is_empty());
    assert!(access.component_write.is_empty());
    assert!(access.resource_read.is_empty());
    assert!(access.resource_write.is_empty());
    assert!(!access.runs_alone);
}

use ecs::access::{ComponentAccess, ResourceAccess};

#[test]
fn component_access_detects_conflicting_writes() {
    let a = ComponentAccess {
        read: &[1],
        write: &[],
    };
    let b = ComponentAccess {
        read: &[],
        write: &[2],
    };
    let c = ComponentAccess {
        read: &[],
        write: &[2],
    };

    assert!(b.overlaps(&c));
    assert!(c.overlaps(&b));
    assert!(!a.overlaps(&b));
}

#[test]
fn component_access_detects_read_write_conflicts() {
    let reader = ComponentAccess {
        read: &[3],
        write: &[],
    };
    let writer = ComponentAccess {
        read: &[],
        write: &[3],
    };

    assert!(reader.overlaps(&writer));
    assert!(writer.overlaps(&reader));
}

#[test]
fn resource_access_mirrors_component_access_rules() {
    let read_only = ResourceAccess {
        read: &[7],
        write: &[],
    };
    let write_only = ResourceAccess {
        read: &[],
        write: &[7],
    };
    let disjoint_write = ResourceAccess {
        read: &[],
        write: &[9],
    };

    assert!(read_only.overlaps(&write_only));
    assert!(write_only.overlaps(&read_only));
    assert!(!write_only.overlaps(&disjoint_write));
}

#[test]
fn overlap_is_symmetric_and_reads_never_conflict() {
    let a = ComponentAccess {
        read: &[1],
        write: &[],
    };
    let b = ComponentAccess {
        read: &[],
        write: &[2],
    };
    assert!(!a.overlaps(&b));
    assert!(!b.overlaps(&a));

    let r1 = ComponentAccess {
        read: &[1, 2, 3],
        write: &[],
    };
    let r2 = ComponentAccess {
        read: &[3, 2, 1],
        write: &[],
    };
    assert!(!r1.overlaps(&r2));
    assert!(!r2.overlaps(&r1));

    let w = ComponentAccess {
        read: &[5],
        write: &[4, 3],
    };
    assert!(r1.overlaps(&w));
    assert!(w.overlaps(&r1));
    let empty = ComponentAccess {
        read: &[],
        write: &[],
    };
    assert!(!empty.overlaps(&w));
    assert!(!w.overlaps(&empty));
}

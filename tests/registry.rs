use ecs::registry::{RegistryError, TypeRegistry};

#[test]
fn ids_follow_sorted_names() {
    let reg = TypeRegistry::from_names(&vec!["Velocity", "Position", "EntityId"]);
    assert_eq!(reg.len(), 3);
    assert_eq!(reg.id_of("EntityId"), Ok(0));
    assert_eq!(reg.id_of("Position"), Ok(1));
    assert_eq!(reg.id_of("Velocity"), Ok(2));
}

#[test]
fn ids_do_not_depend_on_registration_order() {
    let a = TypeRegistry::from_names(&vec!["Counter", "Time", "Audio", "StageLog"]);
    let b = TypeRegistry::from_names(&vec!["StageLog", "Audio", "Time", "Counter", "Time"]);
    assert_eq!(a.len(), 4);
    assert_eq!(b.len(), 4);
    for name in ["Audio", "Counter", "StageLog", "Time"] {
        assert_eq!(a.id_of(name), b.id_of(name));
        assert_eq!(a.id_of(name), a.id_of(name));
    }
    assert_eq!(a.id_of("Audio"), Ok(0));
    assert_eq!(a.id_of("Time"), Ok(3));
}

#[test]
fn names_compare_bytewise() {
    // Upper case sorts before lower case, and a prefix before its extensions.
    let reg = TypeRegistry::from_names(&vec!["ab", "a", "B", "abc"]);
    assert_eq!(reg.id_of("B"), Ok(0));
    assert_eq!(reg.id_of("a"), Ok(1));
    assert_eq!(reg.id_of("ab"), Ok(2));
    assert_eq!(reg.id_of("abc"), Ok(3));
}

#[test]
fn unknown_name_is_not_registered() {
    let reg = TypeRegistry::from_names(&vec!["Position"]);
    assert_eq!(reg.id_of("Velocity"), Err(RegistryError::NotRegistered));
    let empty = TypeRegistry::from_names(&vec![]);
    assert_eq!(empty.len(), 0);
    assert_eq!(empty.id_of("Position"), Err(RegistryError::NotRegistered));
}

use ecs::app::App;
use ecs::registry::TypeRegistry;
use ecs::world::EntityId;

#[derive(Debug, PartialEq, Clone, Copy)]
enum Comp {
    Id(EntityId),
    Foo(u32),
}

impl From<EntityId> for Comp {
    fn from(id: EntityId) -> Comp {
        Comp::Id(id)
    }
}

#[test]
fn component_macro_registers_type_and_allows_access() {
    let components = TypeRegistry::from_names(&vec!["Foo", "EntityId"]);
    let foo = components.id_of("Foo").unwrap();
    let mut app: App<Comp, ()> =
        App::new(components.len(), 0, components.id_of("EntityId").unwrap());
    let entity = app.world.spawn_entity();
    app.world.add_component(entity, Comp::Foo(42), foo).unwrap();

    let components = app.world.get_components(foo);

    assert_eq!(components.len(), 1);
    assert_eq!(components[0].0, entity);
    assert_eq!(*components[0].1, Comp::Foo(42));
}

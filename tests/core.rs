use ecs::app::{App, Step};
use ecs::component::{Component, Resource};
use ecs::declare::{AccessBuilder, AccessMode, Request};
use ecs::registry::TypeRegistry;
use ecs::scheduler::{Batch, SystemStage};
use ecs::world::{EntityId, World};

#[derive(Debug, PartialEq, Clone, Copy)]
enum Comp {
    Id(EntityId),
    Position(f32),
    Velocity(f32),
}

impl From<EntityId> for Comp {
    fn from(id: EntityId) -> Comp {
        Comp::Id(id)
    }
}

// Ids as the registry below assigns them: names sorted.
impl Component for Comp {
    fn component_type(&self) -> usize {
        self.get_type_id()
    }

    fn get_type_id(&self) -> usize {
        match self {
            Comp::Id(_) => 0,
            Comp::Position(_) => 1,
            Comp::Velocity(_) => 2,
        }
    }
}

#[derive(Debug, PartialEq, Clone, Copy)]
enum Res {
    Counter(u32),
}

impl Resource for Res {
    fn resource_type(&self) -> usize {
        self.get_type_id()
    }

    fn get_type_id(&self) -> usize {
        0
    }
}

struct Ids {
    entity_id: usize,
    position: usize,
    velocity: usize,
    counter: usize,
}

fn new_app() -> (App<Comp, Res>, Ids) {
    let components = TypeRegistry::from_names(&vec!["Position", "Velocity", "EntityId"]);
    let resources = TypeRegistry::from_names(&vec!["Counter"]);
    let ids = Ids {
        entity_id: components.id_of("EntityId").unwrap(),
        position: components.id_of("Position").unwrap(),
        velocity: components.id_of("Velocity").unwrap(),
        counter: resources.id_of("Counter").unwrap(),
    };
    let app = App::new(components.len(), resources.len(), ids.entity_id);
    (app, ids)
}

type SystemFn = fn(&mut World<Comp, Res>, &Ids);

fn run_until_stopped(app: &mut App<Comp, Res>, ids: &Ids, systems: &[SystemFn]) {
    loop {
        match app.next_step() {
            Step::Run(stage) => {
                for batch in app.plan(stage) {
                    match batch {
                        Batch::Inline(s) => systems[s](&mut app.world, ids),
                        Batch::Parallel(members) => {
                            for s in members {
                                systems[s](&mut app.world, ids);
                            }
                        }
                    }
                }
            }
            Step::Stop => break,
        }
    }
}

#[test]
fn spawn_entity_assigns_ids_and_entity_component() {
    let (mut app, ids) = new_app();

    let e0 = app.world.spawn_entity();
    let e1 = app.world.spawn_entity();

    assert_eq!(e0, 0);
    assert_eq!(e1, 1);

    let entity_ids = app.world.get_components(ids.entity_id);
    let collected: Vec<u32> = entity_ids
        .into_iter()
        .map(|(_, c)| match c {
            Comp::Id(id) => id.get(),
            _ => panic!("not an entity id"),
        })
        .collect();
    assert_eq!(collected, vec![0, 1]);
}

#[test]
fn add_get_and_remove_components_round_trip() {
    let (mut app, ids) = new_app();
    let entity = app.world.spawn_entity();

    assert!(app.world.add_component(entity, Comp::Position(3.14), ids.position).is_some());
    assert!(app.world.add_component(entity, Comp::Velocity(2.71), ids.velocity).is_some());

    // second insertion should fail without replacing
    assert!(app.world.add_component(entity, Comp::Position(1.0), ids.position).is_none());

    let positions = app.world.get_components(ids.position);
    assert_eq!(positions.len(), 1);
    assert_eq!(positions[0].0, entity);
    assert_eq!(*positions[0].1, Comp::Position(3.14));

    let velocities = app.world.get_components(ids.velocity);
    assert_eq!(velocities.len(), 1);
    assert_eq!(velocities[0].0, entity);
    assert_eq!(*velocities[0].1, Comp::Velocity(2.71));

    let removed = app.world.remove_component(entity, ids.position).expect("component missing");
    assert!(matches!(removed, Comp::Position(_)));

    let positions = app.world.get_components(ids.position);
    assert!(positions.is_empty());
}

#[test]
fn insert_resource_overwrites_and_returns_flags() {
    let (mut app, ids) = new_app();

    assert!(app.world.insert_resource(Res::Counter(1), ids.counter).is_some());
    assert!(app.world.insert_resource(Res::Counter(5), ids.counter).is_none());

    // An occupied resource slot is never overwritten.
    let counter = app.world.get_resource(ids.counter).expect("resource missing");
    assert_eq!(*counter, Res::Counter(1));
}

fn touch_components(world: &mut World<Comp, Res>, ids: &Ids) {
    let rows: Vec<(u32, f32)> = world
        .query(&vec![ids.position, ids.velocity])
        .into_iter()
        .map(|(e, values)| match values[1] {
            Comp::Velocity(v) => (e, *v),
            _ => panic!("not a velocity"),
        })
        .collect();
    for (e, v) in rows {
        if let Some(Comp::Position(p)) = world.get_component_mut(e, ids.position) {
            *p += v;
        }
    }
}

#[test]
fn systems_modify_components_via_scheduler() {
    let (mut app, ids) = new_app();
    let entity = app.world.spawn_entity();
    app.world.add_component(entity, Comp::Position(1.0), ids.position).unwrap();
    app.world.add_component(entity, Comp::Velocity(4.0), ids.velocity).unwrap();

    let mut decl = AccessBuilder::new();
    decl.request(Request::Component(ids.position, AccessMode::Exclusive));
    decl.request(Request::Component(ids.velocity, AccessMode::Shared));
    app.add_system(decl.build().unwrap(), SystemStage::Update);
    // Stop after one tick.
    app.world.exit();
    run_until_stopped(&mut app, &ids, &[touch_components]);

    let positions = app.world.get_components(ids.position);
    assert_eq!(*positions[0].1, Comp::Position(5.0));
}

#[test]
fn despawn_entity_removes_components() {
    let (mut app, ids) = new_app();
    let e0 = app.world.spawn_entity();
    let e1 = app.world.spawn_entity();

    app.world.add_component(e0, Comp::Position(0.0), ids.position).unwrap();
    app.world.add_component(e1, Comp::Position(1.0), ids.position).unwrap();

    assert!(app.world.despawn_entity(e0).is_some());

    let positions = app.world.get_components(ids.position);
    assert_eq!(positions.len(), 1);
    assert_eq!(positions[0].0, e1);
}

#[test]
fn despawn_goes_by_id_after_earlier_despawns() {
    let (mut app, ids) = new_app();
    let e0 = app.world.spawn_entity();
    let e1 = app.world.spawn_entity();
    let e2 = app.world.spawn_entity();
    app.world.add_component(e2, Comp::Velocity(2.0), ids.velocity).unwrap();
    assert!(app.world.despawn_entity(e0).is_some());
    // e0 is gone: despawning it again fails, and e2 is still found by its id.
    assert!(app.world.despawn_entity(e0).is_none());
    assert!(app.world.despawn_entity(e1).is_some());
    assert_eq!(app.world.get_component(e2, ids.velocity), Some(&Comp::Velocity(2.0)));
    assert!(app.world.despawn_entity(7).is_none());
    // Ids are never reused.
    assert_eq!(app.world.spawn_entity(), 3);
}

#[test]
fn missing_entity_and_empty_slots_give_none() {
    let (mut app, ids) = new_app();
    let e = app.world.spawn_entity();
    assert_eq!(app.world.get_component(e, ids.position), None);
    assert!(app.world.add_component(9, Comp::Position(1.0), ids.position).is_none());
    assert!(app.world.remove_component(e, ids.position).is_none());
    assert!(app.world.get_component_mut(9, ids.position).is_none());
    assert!(app.world.get_resource(ids.counter).is_none());
    assert!(app.world.get_resource_mut(ids.counter).is_none());
}

#[test]
fn resource_can_be_changed_in_place() {
    let (mut app, ids) = new_app();
    app.world.insert_resource(Res::Counter(2), ids.counter).unwrap();
    if let Some(Res::Counter(c)) = app.world.get_resource_mut(ids.counter) {
        *c += 3;
    }
    assert_eq!(app.world.get_resource(ids.counter), Some(&Res::Counter(5)));
}

#[test]
fn typed_insertion_uses_the_values_own_type() {
    let (mut app, ids) = new_app();
    assert_eq!(Comp::Position(0.0).get_type_id(), ids.position);
    assert_eq!(Comp::Velocity(0.0).get_type_id(), ids.velocity);
    assert_eq!(Comp::Id(EntityId::new(0)).get_type_id(), ids.entity_id);
    let e = app.world.spawn_entity();
    assert!(app.world.add_typed_component(e, Comp::Velocity(1.5)).is_some());
    assert!(app.world.add_typed_component(e, Comp::Velocity(9.0)).is_none());
    assert_eq!(app.world.get_component(e, ids.velocity), Some(&Comp::Velocity(1.5)));
    assert!(app.world.insert_typed_resource(Res::Counter(3)).is_some());
    assert!(app.world.insert_typed_resource(Res::Counter(4)).is_none());
    assert_eq!(app.world.get_resource(ids.counter), Some(&Res::Counter(3)));
}

use ecs::access::SystemAccess;
use ecs::app::{App, Step};
use ecs::declare::{AccessBuilder, AccessMode, Request};
use ecs::registry::TypeRegistry;
use ecs::scheduler::{Batch, Scheduler, SystemStage};
use ecs::world::{EntityId, World};

#[derive(Debug, PartialEq, Clone, Copy)]
enum Comp {
    Id(EntityId),
    Position(u32),
}

impl From<EntityId> for Comp {
    fn from(id: EntityId) -> Comp {
        Comp::Id(id)
    }
}

#[derive(Debug, PartialEq, Clone, Copy)]
enum Res {
    Counter(u32),
}

struct Ids {
    position: usize,
    counter: usize,
}

type SystemFn = fn(&mut World<Comp, Res>, &Ids);

fn run_until_stopped(app: &mut App<Comp, Res>, ids: &Ids, systems: &[SystemFn]) {
    loop {
        match app.next_step() {
            Step::Run(stage) => {
                for batch in app.plan(stage) {
                    match batch {
                        Batch::Inline(s) => systems[s](&mut app.world, ids),
                        Batch::Parallel(members) => {
                            for s in members {
                                systems[s](&mut app.world, ids);
                            }
                        }
                    }
                }
            }
            Step::Stop => break,
        }
    }
}

fn writer(world: &mut World<Comp, Res>, ids: &Ids) {
    if world.get_resource(ids.counter).is_none() {
        return;
    }
    let entities: Vec<u32> = world.query(&vec![ids.position]).into_iter().map(|(e, _)| e).collect();
    let mut wrote = false;
    for e in entities {
        if let Some(Comp::Position(p)) = world.get_component_mut(e, ids.position) {
            *p += 1;
            wrote = true;
        }
    }
    if wrote {
        if let Some(Res::Counter(c)) = world.get_resource_mut(ids.counter) {
            *c += 1;
        }
    }
}

fn reader(world: &mut World<Comp, Res>, ids: &Ids) {
    if world.get_resource(ids.counter).is_none() {
        return;
    }
    let seen = world.query(&vec![ids.position]).len() as u32;
    if let Some(Res::Counter(c)) = world.get_resource_mut(ids.counter) {
        *c += 10 * seen;
    }
}

fn declare(reqs: &[Request]) -> SystemAccess {
    let mut b = AccessBuilder::new();
    for r in reqs {
        b.request(*r);
    }
    b.build().unwrap()
}

#[test]
fn scheduler_runs_systems_once_per_tick_in_stage_order() {
    let components = TypeRegistry::from_names(&vec!["Position", "EntityId"]);
    let resources = TypeRegistry::from_names(&vec!["Counter"]);
    let ids = Ids {
        position: components.id_of("Position").unwrap(),
        counter: resources.id_of("Counter").unwrap(),
    };
    let mut app: App<Comp, Res> =
        App::new(components.len(), resources.len(), components.id_of("EntityId").unwrap());
    let entity = app.world.spawn_entity();
    app.world.add_component(entity, Comp::Position(0), ids.position).unwrap();
    app.world.insert_resource(Res::Counter(0), ids.counter);

    app.add_system(
        declare(&[
            Request::Component(ids.position, AccessMode::Exclusive),
            Request::Resource(ids.counter, AccessMode::Exclusive),
        ]),
        SystemStage::Update,
    );
    app.add_system(
        declare(&[
            Request::Component(ids.position, AccessMode::Shared),
            Request::Resource(ids.counter, AccessMode::Exclusive),
        ]),
        SystemStage::PostUpdate,
    );

    app.world.exit();
    run_until_stopped(&mut app, &ids, &[writer, reader]);

    let counter = app.world.get_resource(ids.counter).unwrap();
    assert_eq!(*counter, Res::Counter(11)); // writer + reader contributions

    let mut positions = app.world.get_components(ids.position);
    assert_eq!(positions.len(), 1);
    assert_eq!(*positions.pop().unwrap().1, Comp::Position(1));
    assert_eq!(app.world.tick(), 1);
}

fn reads(c: usize) -> SystemAccess {
    declare(&[Request::Component(c, AccessMode::Shared)])
}

fn writes(c: usize) -> SystemAccess {
    declare(&[Request::Component(c, AccessMode::Exclusive)])
}

#[test]
fn conflicting_systems_get_separate_groups() {
    let mut s = Scheduler::new();
    assert_eq!(s.add_system(writes(0), SystemStage::Update), 0);
    assert_eq!(s.add_system(reads(0), SystemStage::Update), 1);
    assert_eq!(s.add_system(reads(1), SystemStage::Update), 2);
    assert_eq!(s.add_system(reads(0), SystemStage::Update), 3);
    assert_eq!(s.group_count(SystemStage::Update), 2);
    assert_eq!(s.group(SystemStage::Update, 0), &vec![0, 2]);
    assert_eq!(s.group(SystemStage::Update, 1), &vec![1, 3]);
    assert_eq!(s.group_count(SystemStage::Render), 0);
    assert_eq!(s.system_count(), 4);
}

#[test]
fn runs_alone_systems_stay_alone() {
    let mut s = Scheduler::new();
    s.add_system(reads(0), SystemStage::PreUpdate);
    s.add_system(declare(&[Request::Commands]), SystemStage::PreUpdate);
    s.add_system(reads(1), SystemStage::PreUpdate);
    s.add_system(reads(2), SystemStage::PreUpdate);
    assert_eq!(s.group_count(SystemStage::PreUpdate), 2);
    assert_eq!(s.group(SystemStage::PreUpdate, 0), &vec![0, 2, 3]);
    assert_eq!(s.group(SystemStage::PreUpdate, 1), &vec![1]);
    // A system that runs alone is never joined, even by one that touches nothing.
    s.add_system(declare(&[]), SystemStage::Init);
    s.add_system(declare(&[Request::Commands]), SystemStage::Init);
    s.add_system(declare(&[]), SystemStage::Init);
    assert_eq!(s.group_count(SystemStage::Init), 2);
    assert_eq!(s.group(SystemStage::Init, 0), &vec![4, 6]);
    assert_eq!(s.group(SystemStage::Init, 1), &vec![5]);
}

#[test]
fn resource_conflicts_also_split_groups() {
    let mut s = Scheduler::new();
    s.add_system(declare(&[Request::Resource(0, AccessMode::Exclusive)]), SystemStage::Render);
    s.add_system(declare(&[Request::Resource(0, AccessMode::Shared)]), SystemStage::Render);
    s.add_system(declare(&[Request::Resource(1, AccessMode::Exclusive)]), SystemStage::Render);
    assert_eq!(s.group(SystemStage::Render, 0), &vec![0, 2]);
    assert_eq!(s.group(SystemStage::Render, 1), &vec![1]);
}

#[test]
fn plan_runs_single_systems_inline() {
    let mut s = Scheduler::new();
    s.add_system(writes(0), SystemStage::Update);
    s.add_system(writes(0), SystemStage::Update);
    s.add_system(writes(1), SystemStage::Update);
    let plan = s.plan(SystemStage::Update);
    assert_eq!(plan.len(), 2);
    match &plan[0] {
        Batch::Parallel(v) => assert_eq!(v, &vec![0, 2]),
        Batch::Inline(_) => panic!("expected a parallel batch"),
    }
    match &plan[1] {
        Batch::Inline(i) => assert_eq!(*i, 1),
        Batch::Parallel(_) => panic!("expected an inline batch"),
    }
    assert!(s.plan(SystemStage::PostUpdate).is_empty());
}

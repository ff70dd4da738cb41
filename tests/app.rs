use ecs::app::{App, Phase, Step};
use ecs::declare::{AccessBuilder, AccessMode, Request};
use ecs::registry::TypeRegistry;
use ecs::scheduler::{Batch, SystemStage};
use ecs::world::{EntityId, World};

#[derive(Debug, Clone, Copy, PartialEq)]
struct NoComponent(EntityId);

impl From<EntityId> for NoComponent {
    fn from(id: EntityId) -> NoComponent {
        NoComponent(id)
    }
}

#[derive(Debug, PartialEq, Default)]
struct StageLog(Vec<&'static str>);

type SystemFn = fn(&mut World<NoComponent, StageLog>);

fn log(world: &mut World<NoComponent, StageLog>, tag: &'static str) {
    if let Some(log) = world.get_resource_mut(0) {
        log.0.push(tag);
    }
}

fn log_pre(world: &mut World<NoComponent, StageLog>) {
    log(world, "pre");
}

fn log_update(world: &mut World<NoComponent, StageLog>) {
    log(world, "update");
}

fn log_post(world: &mut World<NoComponent, StageLog>) {
    log(world, "post");
}

fn log_render(world: &mut World<NoComponent, StageLog>) {
    log(world, "render");
}

#[test]
fn systems_execute_in_defined_stage_order() {
    let components = TypeRegistry::from_names(&vec!["EntityId"]);
    let resources = TypeRegistry::from_names(&vec!["StageLog"]);
    let mut app: App<NoComponent, StageLog> =
        App::new(components.len(), resources.len(), components.id_of("EntityId").unwrap());

    app.world.insert_resource(StageLog::default(), resources.id_of("StageLog").unwrap());

    let mut systems: Vec<SystemFn> = Vec::new();
    for (f, stage) in [
        (log_pre as SystemFn, SystemStage::PreUpdate),
        (log_update, SystemStage::Update),
        (log_post, SystemStage::PostUpdate),
        (log_render, SystemStage::Render),
    ] {
        let mut decl = AccessBuilder::new();
        decl.request(Request::Resource(0, AccessMode::Exclusive));
        let idx = app.add_system(decl.build().unwrap(), stage);
        assert_eq!(idx, systems.len());
        systems.push(f);
    }

    app.world.exit();
    loop {
        match app.next_step() {
            Step::Run(stage) => {
                for batch in app.plan(stage) {
                    match batch {
                        Batch::Inline(s) => systems[s](&mut app.world),
                        Batch::Parallel(members) => {
                            for s in members {
                                systems[s](&mut app.world);
                            }
                        }
                    }
                }
            }
            Step::Stop => break,
        }
    }

    let log = app.world.get_resource(0).expect("StageLog resource not found");
    assert_eq!(log.0, vec!["pre", "update", "post", "render"]);
}

fn drive(app: &mut App<NoComponent, StageLog>, n: usize) -> Vec<Step> {
    (0..n).map(|_| app.next_step()).collect()
}

#[test]
fn loop_runs_init_once_then_ticks_until_exit() {
    let mut app: App<NoComponent, StageLog> = App::new(1, 0, 0);
    let first = drive(&mut app, 5);
    assert_eq!(
        first,
        vec![
            Step::Run(SystemStage::Init),
            Step::Run(SystemStage::PreUpdate),
            Step::Run(SystemStage::Update),
            Step::Run(SystemStage::PostUpdate),
            Step::Run(SystemStage::Render),
        ]
    );
    assert_eq!(app.world.tick(), 1);
    assert_eq!(app.phase, Phase::EndOfTick);
    let second = drive(&mut app, 4);
    assert_eq!(
        second,
        vec![
            Step::Run(SystemStage::PreUpdate),
            Step::Run(SystemStage::Update),
            Step::Run(SystemStage::PostUpdate),
            Step::Run(SystemStage::Render),
        ]
    );
    assert_eq!(app.world.tick(), 2);
    // An exit asked for in the middle of a tick takes effect once the tick is over.
    assert_eq!(app.next_step(), Step::Run(SystemStage::PreUpdate));
    app.world.exit();
    assert_eq!(
        drive(&mut app, 5),
        vec![
            Step::Run(SystemStage::Update),
            Step::Run(SystemStage::PostUpdate),
            Step::Run(SystemStage::Render),
            Step::Stop,
            Step::Stop,
        ]
    );
    assert_eq!(app.world.tick(), 3);
    assert_eq!(app.phase, Phase::Stopped);
}

use vstd::prelude::*;

use crate::access::SystemAccess;
use crate::scheduler::{placed, Batch, Scheduler, SystemStage};
use crate::world::{EntityId, World};

verus! {

/// Where the tick loop stands: what it does on its next step.
#[derive(PartialEq, Eq, Structural, Clone, Copy, Debug)]
pub enum Phase {
    /// Nothing has run yet; `Init` comes first.
    Start,
    /// A tick is to begin with `PreUpdate`.
    PreUpdate,
    Update,
    PostUpdate,
    Render,
    /// A tick has ended; the exit flag decides between stopping and another tick.
    EndOfTick,
    /// The loop has stopped.
    Stopped,
}

/// What the loop does next.
#[derive(PartialEq, Eq, Structural, Clone, Copy, Debug)]
pub enum Step {
    /// Run the systems of this stage.
    Run(SystemStage),
    /// Stop the loop.
    Stop,
}

/// One step of the loop from `phase`, with `exit` the world's exit flag: the phase after it
/// and what to do. `Init` runs once, then each tick runs the four per-tick stages in order, and
/// the exit flag is looked at only after a whole tick.
pub open spec fn next(phase: Phase, exit: bool) -> (Phase, Step) {
    match phase {
        Phase::Start => (Phase::PreUpdate, Step::Run(SystemStage::Init)),
        Phase::PreUpdate => (Phase::Update, Step::Run(SystemStage::PreUpdate)),
        Phase::Update => (Phase::PostUpdate, Step::Run(SystemStage::Update)),
        Phase::PostUpdate => (Phase::Render, Step::Run(SystemStage::PostUpdate)),
        Phase::Render => (Phase::EndOfTick, Step::Run(SystemStage::Render)),
        Phase::EndOfTick => if exit {
            (Phase::Stopped, Step::Stop)
        } else {
            (Phase::Update, Step::Run(SystemStage::PreUpdate))
        },
        Phase::Stopped => (Phase::Stopped, Step::Stop),
    }
}

/// The steps taken from `phase` when the exit flag reads `exits[0]`, `exits[1]`, ... at each
/// step.
pub open spec fn steps(phase: Phase, exits: Seq<bool>) -> Seq<Step>
    decreases exits.len(),
{
    if exits.len() == 0 {
        Seq::empty()
    } else {
        let (p, s) = next(phase, exits[0]);
        seq![s] + steps(p, exits.drop_first())
    }
}

/// The phase reached from `phase` after those steps.
pub open spec fn phase_after(phase: Phase, exits: Seq<bool>) -> Phase
    decreases exits.len(),
{
    if exits.len() == 0 {
        phase
    } else {
        phase_after(next(phase, exits[0]).0, exits.drop_first())
    }
}

/// The stages of one tick, in the order they run.
pub open spec fn tick_stages() -> Seq<Step> {
    seq![
        Step::Run(SystemStage::PreUpdate),
        Step::Run(SystemStage::Update),
        Step::Run(SystemStage::PostUpdate),
        Step::Run(SystemStage::Render),
    ]
}

/// Stage order: from the start, whatever the exit flag says, the loop runs `Init` and then
/// `PreUpdate`, `Update`, `PostUpdate` and `Render`, in that order, and then ends the tick.
pub proof fn lemma_first_tick_order(exits: Seq<bool>)
    requires
        exits.len() == 5,
    ensures
        steps(Phase::Start, exits) == seq![Step::Run(SystemStage::Init)] + tick_stages(),
        phase_after(Phase::Start, exits) == Phase::EndOfTick,
{
    reveal_with_fuel(steps, 6);
    reveal_with_fuel(phase_after, 6);
    assert(exits.drop_first().drop_first().drop_first().drop_first().drop_first().len() == 0);
    assert(steps(Phase::Start, exits) =~= seq![Step::Run(SystemStage::Init)] + tick_stages());
}

/// Every later tick: at the end of a tick without an exit, the loop runs the four per-tick
/// stages in order and ends the tick again; with an exit it stops, and stays stopped.
pub proof fn lemma_next_tick_order(exits: Seq<bool>)
    requires
        exits.len() == 4,
    ensures
        !exits[0] ==> steps(Phase::EndOfTick, exits) == tick_stages()
            && phase_after(Phase::EndOfTick, exits) == Phase::EndOfTick,
        exits[0] ==> steps(Phase::EndOfTick, exits) == seq![Step::Stop, Step::Stop, Step::Stop, Step::Stop]
            && phase_after(Phase::EndOfTick, exits) == Phase::Stopped,
{
    reveal_with_fuel(steps, 5);
    reveal_with_fuel(phase_after, 5);
    assert(exits.drop_first().drop_first().drop_first().drop_first().len() == 0);
    assert(steps(Phase::EndOfTick, exits) =~= if exits[0] {
        seq![Step::Stop, Step::Stop, Step::Stop, Step::Stop]
    } else {
        tick_stages()
    });
}

/// `Init` runs once: it is only ever the first step, and no step leads back to the start.
pub proof fn lemma_init_once(phase: Phase, exit: bool)
    ensures
        next(phase, exit).0 != Phase::Start,
        next(phase, exit).1 == Step::Run(SystemStage::Init) ==> phase == Phase::Start,
{
}

/// A world, the scheduler of its systems, and the loop that runs them stage by stage.
pub struct App<V, R> {
    pub world: World<V, R>,
    pub scheduler: Scheduler,
    pub phase: Phase,
}

impl<V, R> App<V, R> {
    /// An app with an empty world (see `World::new`), no systems, and its loop at the start.
    pub fn new(component_count: usize, resource_count: usize, entity_id_slot: usize) -> (r: App<V, R>)
        requires
            entity_id_slot < component_count,
        ensures
            r.world.wf(),
            r.world.table().len() == 0,
            r.world.resources().len() == resource_count,
            forall|k: int| 0 <= k < resource_count ==> #[trigger] r.world.resources()[k] is None,
            r.world.component_count() == component_count,
            r.world.entity_id_slot() == entity_id_slot,
            r.world.next_id() == 0,
            r.world.tick_count() == 0,
            !r.world.exit_requested(),
            r.scheduler.wf(),
            r.scheduler.systems().len() == 0,
            forall|s: SystemStage| #[trigger] r.scheduler.groups(s).len() == 0,
            r.phase == Phase::Start,
    {
        App {
            world: World::new(component_count, resource_count, entity_id_slot),
            scheduler: Scheduler::new(),
            phase: Phase::Start,
        }
    }

    /// Registers a system for `stage` (see `Scheduler::add_system`) and returns its index.
    pub fn add_system(&mut self, access: SystemAccess, stage: SystemStage) -> (idx: usize)
        requires
            old(self).scheduler.wf(),
            old(self).scheduler.systems().len() < usize::MAX,
        ensures
            final(self).scheduler.wf(),
            idx == old(self).scheduler.systems().len(),
            final(self).scheduler.systems() == old(self).scheduler.systems().push(access),
            placed(
                old(self).scheduler.systems(),
                old(self).scheduler.groups(stage),
                access,
                idx,
                final(self).scheduler.groups(stage),
            ),
            forall|s: SystemStage| s != stage ==> #[trigger] final(self).scheduler.groups(s) == old(self).scheduler.groups(s),
            final(self).world == old(self).world,
            final(self).phase == old(self).phase,
    {
        self.scheduler.add_system(access, stage)
    }

    /// Takes one step of the loop: says which stage to run next, or that the loop is over. A
    /// new tick is counted when its `PreUpdate` step is taken.
    pub fn next_step(&mut self) -> (r: Step)
        requires
            old(self).world.wf(),
            old(self).world.tick_count() < u64::MAX,
        ensures
            final(self).world.wf(),
            (final(self).phase, r) == next(old(self).phase, old(self).world.exit_requested()),
            final(self).world.tick_count() == old(self).world.tick_count() + if r == Step::Run(SystemStage::PreUpdate) {
                1int
            } else {
                0int
            },
            final(self).world.table() == old(self).world.table(),
            final(self).world.resources() == old(self).world.resources(),
            final(self).world.next_id() == old(self).world.next_id(),
            final(self).world.exit_requested() == old(self).world.exit_requested(),
            final(self).world.component_count() == old(self).world.component_count(),
            final(self).world.entity_id_slot() == old(self).world.entity_id_slot(),
            final(self).scheduler == old(self).scheduler,
    {
        let (phase, step) = match self.phase {
            Phase::Start => (Phase::PreUpdate, Step::Run(SystemStage::Init)),
            Phase::PreUpdate => (Phase::Update, Step::Run(SystemStage::PreUpdate)),
            Phase::Update => (Phase::PostUpdate, Step::Run(SystemStage::Update)),
            Phase::PostUpdate => (Phase::Render, Step::Run(SystemStage::PostUpdate)),
            Phase::Render => (Phase::EndOfTick, Step::Run(SystemStage::Render)),
            Phase::EndOfTick => if self.world.should_exit() {
                (Phase::Stopped, Step::Stop)
            } else {
                (Phase::Update, Step::Run(SystemStage::PreUpdate))
            },
            Phase::Stopped => (Phase::Stopped, Step::Stop),
        };
        if step == Step::Run(SystemStage::PreUpdate) {
            self.world.begin_tick();
        }
        self.phase = phase;
        step
    }

    /// How the groups of `stage` are to be run (see `Scheduler::plan`).
    pub fn plan(&self, stage: SystemStage) -> (r: Vec<Batch>)
        requires
            self.scheduler.wf(),
        ensures
            r@.len() == self.scheduler.groups(stage).len(),
            forall|g: int| 0 <= g < r@.len() ==> crate::scheduler::runs_group(#[trigger] r@[g], self.scheduler.groups(stage)[g]),
    {
        self.scheduler.plan(stage)
    }
}

} // verus!

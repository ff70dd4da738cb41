use vstd::prelude::*;

use crate::access::{systems_conflict, SystemAccess};

verus! {

/// When a system is to run.
pub enum SystemRunCriteria {
    Always,
    Once,
    Never,
    /// When a message is waiting on the named channel.
    OnChannelReceive(String),
}

/// The phases of a tick. `Init` runs once before the first tick; the others run in this
/// order on every tick.
#[derive(PartialEq, Eq, Structural, Clone, Copy, Debug, Hash)]
pub enum SystemStage {
    Init,
    PreUpdate,
    Update,
    PostUpdate,
    Render,
}

/// The number of stages.
pub const STAGE_COUNT: usize = 5;

/// The position of a stage in the fixed order.
pub open spec fn stage_index(s: SystemStage) -> int {
    match s {
        SystemStage::Init => 0,
        SystemStage::PreUpdate => 1,
        SystemStage::Update => 2,
        SystemStage::PostUpdate => 3,
        SystemStage::Render => 4,
    }
}

fn stage_slot(s: SystemStage) -> (r: usize)
    ensures
        r == stage_index(s),
{
    match s {
        SystemStage::Init => 0,
        SystemStage::PreUpdate => 1,
        SystemStage::Update => 2,
        SystemStage::PostUpdate => 3,
        SystemStage::Render => 4,
    }
}

/// `s` may join `group`: the group does not hold a system that runs alone, and none of its
/// members conflicts with `s`.
pub open spec fn admits(systems: Seq<SystemAccess>, group: Seq<usize>, s: SystemAccess) -> bool {
    &&& group.len() > 0
    &&& !systems[group[0] as int].runs_alone
    &&& forall|m: int| 0 <= m < group.len() ==> !#[trigger] systems_conflict(systems[group[m] as int], s)
}

/// Group `g` is the first one of `groups` that admits `s`.
pub open spec fn first_fit(
    systems: Seq<SystemAccess>,
    groups: Seq<Seq<usize>>,
    s: SystemAccess,
    g: int,
) -> bool {
    &&& 0 <= g < groups.len()
    &&& admits(systems, groups[g], s)
    &&& forall|h: int| 0 <= h < g ==> !#[trigger] admits(systems, groups[h], s)
}

/// The groups of a stage once `s`, registered as system `idx`, has been placed: appended to
/// the first group that admits it, or alone in a new group when it runs alone or no group
/// admits it.
pub open spec fn placed(
    systems: Seq<SystemAccess>,
    groups: Seq<Seq<usize>>,
    s: SystemAccess,
    idx: usize,
    new_groups: Seq<Seq<usize>>,
) -> bool {
    if !s.runs_alone && exists|g: int| first_fit(systems, groups, s, g) {
        exists|g: int| first_fit(systems, groups, s, g) && new_groups == groups.update(g, groups[g].push(idx))
    } else {
        new_groups == groups.push(seq![idx])
    }
}

/// Members of one group may run at the same time: a system that runs alone is alone in its
/// group, and no member conflicts with one placed after it.
pub open spec fn group_is_safe(systems: Seq<SystemAccess>, group: Seq<usize>) -> bool {
    &&& group.len() > 0
    &&& forall|m: int| 0 <= m < group.len() ==> #[trigger] group[m] < systems.len()
    &&& forall|m: int|
        0 <= m < group.len() && #[trigger] systems[group[m] as int].runs_alone ==> group.len() == 1
    &&& forall|i: int, j: int|
        0 <= i < j < group.len() ==> !systems_conflict(
            #[trigger] systems[group[i] as int],
            #[trigger] systems[group[j] as int],
        )
}

/// Every group of `groups` is safe to run.
pub open spec fn all_groups_safe(systems: Seq<SystemAccess>, groups: Seq<Seq<usize>>) -> bool {
    forall|g: int| 0 <= g < groups.len() ==> group_is_safe(systems, #[trigger] groups[g])
}

proof fn lemma_group_safe_extend(systems: Seq<SystemAccess>, group: Seq<usize>, s: SystemAccess)
    requires
        group_is_safe(systems, group),
    ensures
        group_is_safe(systems.push(s), group),
{
    let sys2 = systems.push(s);
    assert forall|m: int| 0 <= m < group.len() implies sys2[#[trigger] group[m] as int]
        == systems[group[m] as int] by {}
    assert forall|i: int, j: int| 0 <= i < j < group.len() implies !systems_conflict(
        #[trigger] sys2[group[i] as int],
        #[trigger] sys2[group[j] as int],
    ) by {
        assert(sys2[group[i] as int] == systems[group[i] as int]);
        assert(sys2[group[j] as int] == systems[group[j] as int]);
    }
}

/// Placing a new system keeps every group of the stage safe to run: a system that runs alone
/// gets a group of its own, and a system joins a group only when it conflicts with none of
/// its members.
pub proof fn lemma_placement_keeps_groups_safe(
    systems: Seq<SystemAccess>,
    groups: Seq<Seq<usize>>,
    s: SystemAccess,
    idx: usize,
    new_groups: Seq<Seq<usize>>,
)
    requires
        all_groups_safe(systems, groups),
        idx == systems.len(),
        placed(systems, groups, s, idx, new_groups),
    ensures
        all_groups_safe(systems.push(s), new_groups),
{
    let sys2 = systems.push(s);
    assert(sys2[idx as int] == s);
    assert forall|g: int| 0 <= g < groups.len() implies group_is_safe(sys2, #[trigger] groups[g]) by {
        lemma_group_safe_extend(systems, groups[g], s);
    }
    if !s.runs_alone && exists|g: int| first_fit(systems, groups, s, g) {
        let g = choose|g: int|
            first_fit(systems, groups, s, g) && new_groups == groups.update(g, groups[g].push(idx));
        let old_g = groups[g];
        let new_g = old_g.push(idx);
        assert(group_is_safe(sys2, old_g));
        assert forall|m: int| 0 <= m < old_g.len() implies sys2[#[trigger] old_g[m] as int]
            == systems[old_g[m] as int] by {}
        assert(!systems[old_g[0] as int].runs_alone);
        assert forall|i: int, j: int| 0 <= i < j < new_g.len() implies !systems_conflict(
            #[trigger] sys2[new_g[i] as int],
            #[trigger] sys2[new_g[j] as int],
        ) by {
            if j == old_g.len() {
                assert(new_g[i] == old_g[i]);
                assert(!systems_conflict(systems[old_g[i] as int], s));
            } else {
                assert(new_g[i] == old_g[i]);
                assert(new_g[j] == old_g[j]);
            }
        }
        assert forall|m: int|
            0 <= m < new_g.len() && #[trigger] sys2[new_g[m] as int].runs_alone implies new_g.len()
            == 1 by {
            if m < old_g.len() {
                assert(new_g[m] == old_g[m]);
                assert(old_g.len() == 1);
                assert(new_g[m] == old_g[0]);
            }
        }
        assert(group_is_safe(sys2, new_g));
        assert forall|h: int| 0 <= h < new_groups.len() implies group_is_safe(
            sys2,
            #[trigger] new_groups[h],
        ) by {
            if h != g {
                assert(new_groups[h] == groups[h]);
            }
        }
    } else {
        let single = seq![idx];
        assert(group_is_safe(sys2, single));
        assert forall|h: int| 0 <= h < new_groups.len() implies group_is_safe(
            sys2,
            #[trigger] new_groups[h],
        ) by {
            if h < groups.len() {
                assert(new_groups[h] == groups[h]);
            }
        }
    }
}

/// How one group of a stage is to be run.
pub enum Batch {
    /// A single system, run on the calling thread.
    Inline(usize),
    /// Several systems that do not conflict, run in any order or at once.
    Parallel(Vec<usize>),
}

/// `b` runs exactly the members of `group`: inline when it has one member, in parallel
/// otherwise.
pub open spec fn runs_group(b: Batch, group: Seq<usize>) -> bool {
    match b {
        Batch::Inline(s) => group.len() == 1 && group[0] == s,
        Batch::Parallel(v) => group.len() != 1 && v@ == group,
    }
}

/// Per stage, the systems registered for it, partitioned into groups that can run in
/// parallel.
pub struct Scheduler {
    systems: Vec<SystemAccess>,
    stages: Vec<Vec<Vec<usize>>>,
}

impl Scheduler {
    /// The footprints of the registered systems, by registration index.
    pub closed spec fn systems(&self) -> Seq<SystemAccess> {
        self.systems@
    }

    /// The groups of stage `s`, in order of formation.
    pub closed spec fn groups(&self, s: SystemStage) -> Seq<Seq<usize>> {
        self.stages@[stage_index(s)]@.map_values(|g: Vec<usize>| g@)
    }

    /// Five stages, each partitioned into groups that are safe to run.
    pub closed spec fn wf(&self) -> bool {
        &&& self.stages@.len() == STAGE_COUNT
        &&& forall|s: SystemStage| all_groups_safe(self.systems@, #[trigger] self.groups(s))
    }

    /// In a well-formed scheduler every group of every stage is safe to run in parallel.
    pub proof fn lemma_groups_safe(&self, s: SystemStage)
        requires
            self.wf(),
        ensures
            all_groups_safe(self.systems(), self.groups(s)),
    {
    }

    pub fn new() -> (r: Scheduler)
        ensures
            r.wf(),
            r.systems() == Seq::<SystemAccess>::empty(),
            forall|s: SystemStage| #[trigger] r.groups(s) == Seq::<Seq<usize>>::empty(),
    {
        let mut stages: Vec<Vec<Vec<usize>>> = Vec::new();
        let mut k: usize = 0;
        while k < STAGE_COUNT
            invariant
                k <= STAGE_COUNT,
                stages@.len() == k,
                forall|j: int| 0 <= j < k ==> #[trigger] stages@[j]@.len() == 0,
            decreases STAGE_COUNT - k,
        {
            stages.push(Vec::new());
            k += 1;
        }
        let r = Scheduler { systems: Vec::new(), stages };
        assert forall|s: SystemStage| #[trigger] r.groups(s) == Seq::<Seq<usize>>::empty() by {
            assert(r.groups(s) =~= Seq::<Seq<usize>>::empty());
        }
        r
    }

    /// Whether no member of `group` conflicts with `access`.
    fn fits(&self, group: &Vec<usize>, access: &SystemAccess) -> (r: bool)
        requires
            forall|m: int| 0 <= m < group@.len() ==> #[trigger] group@[m] < self.systems@.len(),
        ensures
            r == forall|m: int|
                0 <= m < group@.len() ==> !#[trigger] systems_conflict(self.systems@[group@[m] as int], *access),
    {
        let mut m: usize = 0;
        while m < group.len()
            invariant
                m <= group@.len(),
                forall|j: int| 0 <= j < group@.len() ==> #[trigger] group@[j] < self.systems@.len(),
                forall|j: int|
                    0 <= j < m ==> !#[trigger] systems_conflict(self.systems@[group@[j] as int], *access),
            decreases group.len() - m,
        {
            let existing = &self.systems[group[m]];
            if existing.overlaps(access) {
                return false;
            }
            m += 1;
        }
        true
    }

    /// Registers a system for `stage` and returns its index. It joins the first group of the
    /// stage whose members it does not conflict with, unless it runs alone; otherwise it starts
    /// a group of its own.
    pub fn add_system(&mut self, access: SystemAccess, stage: SystemStage) -> (idx: usize)
        requires
            old(self).wf(),
            old(self).systems().len() < usize::MAX,
        ensures
            final(self).wf(),
            idx == old(self).systems().len(),
            final(self).systems() == old(self).systems().push(access),
            placed(old(self).systems(), old(self).groups(stage), access, idx, final(self).groups(stage)),
            forall|s: SystemStage| s != stage ==> #[trigger] final(self).groups(s) == old(self).groups(s),
    {
        let ghost old_systems = self.systems@;
        let ghost old_stages = self.stages@;
        let st = stage_slot(stage);
        let idx = self.systems.len();
        let n_groups = self.stages[st].len();
        let mut target: usize = n_groups;
        if !access.runs_alone {
            let mut g: usize = 0;
            let mut found = false;
            while g < n_groups && !found
                invariant
                    g <= n_groups,
                    n_groups == self.stages@[st as int]@.len(),
                    st == stage_index(stage),
                    self.stages@ == old_stages,
                    self.systems@ == old_systems,
                    !found ==> target == n_groups,
                    found ==> target == g && g < n_groups && admits(old_systems, old_stages[st as int]@[g as int]@, access),
                    self.stages@.len() == STAGE_COUNT,
                    all_groups_safe(self.systems@, self.groups(stage)),
                    forall|h: int| 0 <= h < g ==> !#[trigger] admits(old_systems, old_stages[st as int]@[h]@, access),
                decreases n_groups - g + if found { 0int } else { 1int },
            {
                let group = &self.stages[st][g];
                assert(group_is_safe(self.systems@, self.groups(stage)[g as int]));
                let first = group[0];
                if !self.systems[first].runs_alone && self.fits(group, &access) {
                    target = g;
                    found = true;
                } else {
                    g += 1;
                }
            }
        }
        let ghost groups_before = old_stages[st as int]@.map_values(|g: Vec<usize>| g@);
        assert(groups_before == self.groups(stage));
        proof {
            if target < n_groups {
                assert forall|h: int| 0 <= h < target implies !#[trigger] admits(old_systems, groups_before[h], access) by {
                    assert(groups_before[h] == old_stages[st as int]@[h]@);
                }
                assert(groups_before[target as int] == old_stages[st as int]@[target as int]@);
                assert(first_fit(old_systems, groups_before, access, target as int));
            } else if !access.runs_alone {
                assert forall|g: int| !first_fit(old_systems, groups_before, access, g) by {
                    if 0 <= g < groups_before.len() {
                        assert(groups_before[g] == old_stages[st as int]@[g]@);
                    }
                }
            }
        }
        self.systems.push(access);
        if target < n_groups {
            self.stages[st][target].push(idx);
        } else {
            let mut group: Vec<usize> = Vec::new();
            group.push(idx);
            self.stages[st].push(group);
        }
        proof {
            assert forall|s: SystemStage| s != stage implies #[trigger] self.groups(s) == old(self).groups(s) by {
                assert(stage_index(s) != st);
                assert(self.stages@[stage_index(s)] == old_stages[stage_index(s)]);
            }
            assert(self.groups(stage) =~= if target < n_groups {
                groups_before.update(target as int, groups_before[target as int].push(idx))
            } else {
                groups_before.push(seq![idx])
            });
            lemma_placement_keeps_groups_safe(old_systems, groups_before, access, idx, self.groups(stage));
            assert forall|s: SystemStage| all_groups_safe(self.systems@, #[trigger] self.groups(s)) by {
                if s != stage {
                    assert forall|g: int| 0 <= g < self.groups(s).len() implies group_is_safe(
                        self.systems@,
                        #[trigger] self.groups(s)[g],
                    ) by {
                        lemma_group_safe_extend(old_systems, self.groups(s)[g], access);
                    }
                }
            }
        }
        idx
    }

    /// How stage `stage` is run: its groups in order of formation, each inline when it holds
    /// a single system and as a parallel batch otherwise.
    pub fn plan(&self, stage: SystemStage) -> (r: Vec<Batch>)
        requires
            self.wf(),
        ensures
            r@.len() == self.groups(stage).len(),
            forall|g: int| 0 <= g < r@.len() ==> runs_group(#[trigger] r@[g], self.groups(stage)[g]),
    {
        let st = stage_slot(stage);
        let groups = &self.stages[st];
        let mut r: Vec<Batch> = Vec::new();
        let mut g: usize = 0;
        while g < groups.len()
            invariant
                g <= groups@.len(),
                groups@ == self.stages@[st as int]@,
                st == stage_index(stage),
                self.stages@.len() == STAGE_COUNT,
                r@.len() == g,
                forall|h: int| 0 <= h < g ==> runs_group(#[trigger] r@[h], self.groups(stage)[h]),
            decreases groups.len() - g,
        {
            let group = &groups[g];
            assert(self.groups(stage)[g as int] == group@);
            if group.len() == 1 {
                r.push(Batch::Inline(group[0]));
            } else {
                r.push(Batch::Parallel(group.clone()));
            }
            g += 1;
        }
        r
    }

    /// The members of group `g` of stage `stage`.
    pub fn group(&self, stage: SystemStage, g: usize) -> (r: &Vec<usize>)
        requires
            self.wf(),
            g < self.groups(stage).len(),
        ensures
            r@ == self.groups(stage)[g as int],
    {
        &self.stages[stage_slot(stage)][g]
    }

    /// The number of groups of stage `stage`.
    pub fn group_count(&self, stage: SystemStage) -> (r: usize)
        requires
            self.wf(),
        ensures
            r == self.groups(stage).len(),
    {
        self.stages[stage_slot(stage)].len()
    }

    /// The number of registered systems.
    pub fn system_count(&self) -> (r: usize)
        ensures
            r == self.systems().len(),
    {
        self.systems.len()
    }
}

} // verus!

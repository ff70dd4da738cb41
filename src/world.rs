use vstd::prelude::*;

use crate::component::{Component, Resource};
use crate::query::{has_row, in_every, is_join, join, row_locates, strictly_ascending, JoinRow};

verus! {

/// The component that every entity carries from its creation: its own id.
#[derive(PartialEq, Eq, Structural, Clone, Copy, Debug)]
pub struct EntityId {
    id: u32,
}

impl View for EntityId {
    type V = u32;

    closed spec fn view(&self) -> u32 {
        self.id
    }
}

impl EntityId {
    pub fn new(id: u32) -> (r: EntityId)
        ensures
            r@ == id,
    {
        EntityId { id }
    }

    pub fn get(&self) -> (r: u32)
        ensures
            r == self@,
    {
        self.id
    }
}

/// An entity: its id and one optional slot per registered component type.
pub struct Entity<V> {
    pub id: u32,
    components: Vec<Option<V>>,
}

impl<V> Entity<V> {
    /// The entity's id.
    pub closed spec fn entity(&self) -> u32 {
        self.id
    }

    /// The component slots, indexed by component type id.
    pub closed spec fn slots(&self) -> Seq<Option<V>> {
        self.components@
    }

    /// A new entity with `slot_count` slots, all empty but the one at `id_slot`, which holds
    /// the entity's `EntityId`.
    pub fn new(id: u32, slot_count: usize, id_slot: usize) -> (r: Entity<V>) where
        V: From<EntityId>,

        requires
            id_slot < slot_count,
        ensures
            r.entity() == id,
            r.slots().len() == slot_count,
            r.slots()[id_slot as int] is Some,
            forall|k: int| 0 <= k < slot_count && k != id_slot ==> #[trigger] r.slots()[k] is None,
    {
        let mut components: Vec<Option<V>> = Vec::new();
        let mut k: usize = 0;
        while k < slot_count
            invariant
                k <= slot_count,
                components@.len() == k,
                forall|j: int| 0 <= j < k ==> #[trigger] components@[j] is None,
            decreases slot_count - k,
        {
            components.push(None);
            k += 1;
        }
        let mut result = Entity { id, components };
        let component = V::from(EntityId::new(id));
        result.set_component(Some(component), id_slot);
        result
    }

    /// Puts `component` in slot `id`, whatever the slot held.
    pub fn set_component(&mut self, component: Option<V>, id: usize)
        requires
            id < old(self).slots().len(),
        ensures
            final(self).entity() == old(self).entity(),
            final(self).slots() == old(self).slots().update(id as int, component),
    {
        self.components.set(id, component);
    }

    /// Stores `component` in slot `id` if that slot is empty; an occupied slot is left as it
    /// is and `None` is returned.
    pub fn add_component(&mut self, component: V, id: usize) -> (r: Option<()>)
        requires
            id < old(self).slots().len(),
        ensures
            final(self).entity() == old(self).entity(),
            old(self).slots()[id as int] is None ==> r is Some && final(self).slots()
                == old(self).slots().update(id as int, Some(component)),
            old(self).slots()[id as int] is Some ==> r is None && final(self).slots()
                == old(self).slots(),
    {
        if self.components[id].is_none() {
            self.components.set(id, Some(component));
            Some(())
        } else {
            None
        }
    }

    /// The component in slot `id`, if any.
    pub fn get_component(&self, id: usize) -> (r: Option<&V>)
        requires
            id < self.slots().len(),
        ensures
            r is Some <==> self.slots()[id as int] is Some,
            r is Some ==> *(r->0) == self.slots()[id as int]->0,
    {
        self.components[id].as_ref()
    }

    /// The component in slot `id`, if any, to change in place.
    pub fn get_component_mut(&mut self, id: usize) -> (r: Option<&mut V>)
        requires
            id < old(self).slots().len(),
        ensures
            r is Some <==> old(self).slots()[id as int] is Some,
            final(self).entity() == old(self).entity(),
            r is None ==> final(self).slots() == old(self).slots(),
            r is Some ==> *(r->0) == old(self).slots()[id as int]->0 && final(self).slots()
                == old(self).slots().update(id as int, Some(*final(r->0))),
    {
        let slot = &mut self.components[id];
        slot.as_mut()
    }

    /// Empties slot `id` and returns what it held.
    pub fn remove_component(&mut self, id: usize) -> (r: Option<V>)
        requires
            id < old(self).slots().len(),
        ensures
            final(self).entity() == old(self).entity(),
            r == old(self).slots()[id as int],
            final(self).slots() == old(self).slots().update(id as int, None),
    {
        let slot = &mut self.components[id];
        slot.take()
    }

    /// Whether slot `id` holds a component.
    pub fn has_component(&self, id: usize) -> (r: bool)
        requires
            id < self.slots().len(),
        ensures
            r == self.slots()[id as int] is Some,
    {
        self.components[id].is_some()
    }
}

/// The slots of a newly spawned entity: `count` of them, all empty but the one at `id_slot`.
pub open spec fn fresh_slots<V>(slots: Seq<Option<V>>, count: nat, id_slot: int) -> bool {
    &&& slots.len() == count
    &&& slots[id_slot] is Some
    &&& forall|k: int| 0 <= k < count && k != id_slot ==> #[trigger] slots[k] is None
}

/// Row `i` of `table` is the entity `id`.
pub open spec fn row_of<V>(table: Seq<(u32, Seq<Option<V>>)>, id: u32, i: int) -> bool {
    0 <= i < table.len() && table[i].0 == id
}

/// Some row of `table` is the entity `id`.
pub open spec fn has_entity<V>(table: Seq<(u32, Seq<Option<V>>)>, id: u32) -> bool {
    exists|i: int| #[trigger] row_of(table, id, i)
}

/// The entities whose slot `k` is occupied, in storage order, with what the slot holds.
pub open spec fn column<V>(table: Seq<(u32, Seq<Option<V>>)>, k: int) -> Seq<(u32, V)>
    decreases table.len(),
{
    if table.len() == 0 {
        Seq::empty()
    } else {
        let before = column(table.drop_last(), k);
        match table.last().1[k] {
            Some(v) => before.push((table.last().0, v)),
            None => before,
        }
    }
}

/// Entity ids ascend strictly in storage order.
pub open spec fn ids_ascending<V>(table: Seq<(u32, Seq<Option<V>>)>) -> bool {
    forall|i: int, j: int| 0 <= i < j < table.len() ==> table[i].0 < table[j].0
}

/// A column lists, in ascending id order, exactly the entities whose slot `k` is occupied,
/// each with the value in that slot.
pub proof fn lemma_column<V>(table: Seq<(u32, Seq<Option<V>>)>, k: int)
    requires
        ids_ascending(table),
    ensures
        forall|a: int, b: int|
            0 <= a < b < column(table, k).len() ==> column(table, k)[a].0 < column(table, k)[b].0,
        forall|j: int|
            0 <= j < column(table, k).len() ==> exists|i: int|
                0 <= i < table.len() && table[i].0 == (#[trigger] column(table, k)[j]).0
                    && table[i].1[k] == Some(column(table, k)[j].1),
        forall|i: int|
            0 <= i < table.len() && (#[trigger] table[i].1[k]) is Some ==> exists|j: int|
                0 <= j < column(table, k).len() && (#[trigger] column(table, k)[j]).0 == table[i].0,
    decreases table.len(),
{
    if table.len() > 0 {
        let pre = table.drop_last();
        let last = table.len() - 1;
        assert(ids_ascending(pre));
        lemma_column(pre, k);
        let before = column(pre, k);
        let col = column(table, k);
        assert(table[last] == table.last());
        assert forall|j: int| 0 <= j < col.len() implies exists|i: int|
            0 <= i < table.len() && table[i].0 == (#[trigger] col[j]).0 && table[i].1[k] == Some(col[j].1) by {
            if j < before.len() {
                assert(col[j] == before[j]);
                let i = choose|i: int|
                    0 <= i < pre.len() && pre[i].0 == (#[trigger] before[j]).0 && pre[i].1[k] == Some(before[j].1);
                assert(table[i] == pre[i]);
            } else {
                assert(table[last].0 == col[j].0);
            }
        }
        assert forall|a: int, b: int| 0 <= a < b < col.len() implies col[a].0 < col[b].0 by {
            if b < before.len() {
                assert(col[a] == before[a] && col[b] == before[b]);
            } else {
                assert(col[a] == before[a]);
                let i = choose|i: int|
                    0 <= i < pre.len() && pre[i].0 == (#[trigger] before[a]).0 && pre[i].1[k] == Some(before[a].1);
                assert(table[i] == pre[i]);
                assert(table[i].0 < table[last].0);
            }
        }
        assert forall|i: int| 0 <= i < table.len() && (#[trigger] table[i].1[k]) is Some implies exists|j: int|
            0 <= j < col.len() && (#[trigger] col[j]).0 == table[i].0 by {
            if i < last {
                assert(pre[i] == table[i]);
                assert(pre[i].1[k] is Some);
                let j = choose|j: int| 0 <= j < before.len() && (#[trigger] before[j]).0 == pre[i].0;
                assert(col[j] == before[j]);
            } else {
                assert(col[before.len() as int].0 == table[i].0);
            }
        }
    }
}

/// Entity `e` appears in the column of slot `k`.
pub open spec fn in_column<V>(table: Seq<(u32, Seq<Option<V>>)>, k: int, e: u32) -> bool {
    exists|j: int| 0 <= j < column(table, k).len() && #[trigger] column(table, k)[j].0 == e
}

proof fn lemma_in_column<V>(table: Seq<(u32, Seq<Option<V>>)>, k: int, e: u32)
    requires
        ids_ascending(table),
    ensures
        in_column(table, k, e) <==> exists|i: int|
            0 <= i < table.len() && #[trigger] table[i].0 == e && table[i].1[k] is Some,
{
    lemma_column(table, k);
    let col = column(table, k);
    if in_column(table, k, e) {
        let j = choose|j: int| 0 <= j < col.len() && #[trigger] col[j].0 == e;
        let i = choose|i: int| 0 <= i < table.len() && table[i].0 == (#[trigger] col[j]).0 && table[i].1[k] == Some(col[j].1);
        assert(table[i].0 == e && table[i].1[k] is Some);
    }
    if exists|i: int| 0 <= i < table.len() && #[trigger] table[i].0 == e && table[i].1[k] is Some {
        let i = choose|i: int| 0 <= i < table.len() && #[trigger] table[i].0 == e && table[i].1[k] is Some;
        assert(table[i].1[k] is Some);
        let j = choose|j: int| 0 <= j < col.len() && (#[trigger] col[j]).0 == table[i].0;
        assert(col[j].0 == e);
    }
}

/// Despawning removes all of an entity's components: once row `i` is removed, no column holds
/// that entity, and every other entity stays in exactly the columns it was in.
pub proof fn lemma_despawn_clears_columns<V>(table: Seq<(u32, Seq<Option<V>>)>, i: int, k: int, e: u32)
    requires
        ids_ascending(table),
        0 <= i < table.len(),
    ensures
        in_column(table.remove(i), k, e) <==> (e != table[i].0 && in_column(table, k, e)),
{
    let t2 = table.remove(i);
    assert(ids_ascending(t2)) by {
        assert forall|a: int, b: int| 0 <= a < b < t2.len() implies t2[a].0 < t2[b].0 by {
            let a0 = if a < i { a } else { a + 1 };
            let b0 = if b < i { b } else { b + 1 };
            assert(t2[a] == table[a0] && t2[b] == table[b0]);
        }
    }
    lemma_in_column(table, k, e);
    lemma_in_column(t2, k, e);
    if in_column(t2, k, e) {
        let r = choose|r: int| 0 <= r < t2.len() && #[trigger] t2[r].0 == e && t2[r].1[k] is Some;
        let r0 = if r < i { r } else { r + 1 };
        assert(t2[r] == table[r0]);
        assert(table[r0].0 != table[i].0) by {
            if r0 < i {
                assert(table[r0].0 < table[i].0);
            } else {
                assert(table[i].0 < table[r0].0);
            }
        }
    }
    if e != table[i].0 && in_column(table, k, e) {
        let r = choose|r: int| 0 <= r < table.len() && #[trigger] table[r].0 == e && table[r].1[k] is Some;
        assert(r != i);
        let r2 = if r < i { r } else { r - 1 };
        assert(t2[r2] == table[r]);
    }
}

/// Every slot named in `types` is occupied.
pub open spec fn holds_all<V>(slots: Seq<Option<V>>, types: Seq<usize>) -> bool {
    forall|t: int| 0 <= t < types.len() ==> (#[trigger] slots[types[t] as int]) is Some
}

/// `values` is what the slots named in `types` hold, in that order.
pub open spec fn values_of<V>(slots: Seq<Option<V>>, types: Seq<usize>, values: Seq<&V>) -> bool {
    &&& values.len() == types.len()
    &&& forall|t: int| 0 <= t < types.len() ==> Some(*#[trigger] values[t]) == slots[types[t] as int]
}

/// `columns` and `lists` hold, for each type of `types`, its column and the column's ids.
spec fn columns_match<V>(
    table: Seq<(u32, Seq<Option<V>>)>,
    types: Seq<usize>,
    columns: Seq<Vec<(u32, &V)>>,
    lists: Seq<Vec<u32>>,
) -> bool {
    &&& columns.len() == types.len()
    &&& lists.len() == types.len()
    &&& forall|u: int|
        0 <= u < types.len() ==> (#[trigger] columns[u])@.len() == column(table, types[u] as int).len()
    &&& forall|u: int|
        0 <= u < types.len() ==> (#[trigger] lists[u])@.len() == column(table, types[u] as int).len()
    &&& forall|u: int, p: int|
        0 <= u < types.len() && 0 <= p < columns[u]@.len() ==> (#[trigger] columns[u]@[p]).0 == column(table, types[u] as int)[p].0
            && *columns[u]@[p].1 == column(table, types[u] as int)[p].1
    &&& forall|u: int, p: int|
        0 <= u < types.len() && 0 <= p < lists[u]@.len() ==> #[trigger] lists[u]@[p] == column(table, types[u] as int)[p].0
}

/// Some entity of `table` is `row.0`, holds every type of `types`, and `row.1` is what it
/// holds for them.
pub open spec fn row_found<V>(
    table: Seq<(u32, Seq<Option<V>>)>,
    types: Seq<usize>,
    row: (u32, Vec<&V>),
) -> bool {
    exists|i: int|
        0 <= i < table.len() && #[trigger] table[i].0 == row.0 && holds_all(table[i].1, types)
            && values_of(table[i].1, types, row.1@)
}

spec fn table_of<V>(ents: Seq<Entity<V>>) -> Seq<(u32, Seq<Option<V>>)> {
    ents.map_values(|e: Entity<V>| (e.entity(), e.slots()))
}

spec fn entities_wf<V>(ents: Seq<Entity<V>>, component_count: usize, next_id: u32) -> bool {
    &&& forall|i: int| 0 <= i < ents.len() ==> (#[trigger] ents[i]).slots().len() == component_count
    &&& forall|i: int, j: int|
        0 <= i < j < ents.len() ==> (#[trigger] ents[i]).entity() < (#[trigger] ents[j]).entity()
    &&& forall|i: int| 0 <= i < ents.len() ==> (#[trigger] ents[i]).entity() < next_id
}

/// Entities, each with one optional slot per component type, and one optional slot per
/// resource type, with the tick counter and the exit flag of the loop that runs the world.
pub struct World<V, R> {
    entities: Vec<Entity<V>>,
    resources: Vec<Option<R>>,
    component_count: usize,
    entity_id_slot: usize,
    tick: u64,
    next_entity_id: u32,
    should_exit: bool,
}

impl<V, R> World<V, R> {
    /// The entities in storage order: each one's id and component slots.
    pub closed spec fn table(&self) -> Seq<(u32, Seq<Option<V>>)> {
        table_of(self.entities@)
    }

    /// The resource slots, indexed by resource type id.
    pub closed spec fn resources(&self) -> Seq<Option<R>> {
        self.resources@
    }

    /// How many component types each entity has a slot for.
    pub closed spec fn component_count(&self) -> nat {
        self.component_count as nat
    }

    /// The slot that holds each entity's `EntityId`.
    pub closed spec fn entity_id_slot(&self) -> int {
        self.entity_id_slot as int
    }

    /// The id the next spawned entity gets.
    pub closed spec fn next_id(&self) -> u32 {
        self.next_entity_id
    }

    /// The number of ticks begun so far.
    pub closed spec fn tick_count(&self) -> u64 {
        self.tick
    }

    /// Whether an exit has been asked for.
    pub closed spec fn exit_requested(&self) -> bool {
        self.should_exit
    }

    /// Entity ids ascend in storage order and are all below the next id; every entity has one
    /// slot per component type.
    pub closed spec fn wf(&self) -> bool {
        &&& self.entity_id_slot < self.component_count
        &&& entities_wf(self.entities@, self.component_count, self.next_entity_id)
    }

    /// The properties of `wf` as the table shows them.
    pub proof fn lemma_table(&self)
        requires
            self.wf(),
        ensures
            self.entity_id_slot() < self.component_count(),
            forall|i: int|
                0 <= i < self.table().len() ==> (#[trigger] self.table()[i]).1.len()
                    == self.component_count(),
            forall|i: int, j: int|
                0 <= i < j < self.table().len() ==> (#[trigger] self.table()[i]).0
                    < (#[trigger] self.table()[j]).0,
            forall|i: int|
                0 <= i < self.table().len() ==> (#[trigger] self.table()[i]).0 < self.next_id(),
    {
    }

    /// Everything but the entity table is as in `other`.
    pub open spec fn same_but_table(&self, other: &World<V, R>) -> bool {
        &&& self.resources() == other.resources()
        &&& self.component_count() == other.component_count()
        &&& self.entity_id_slot() == other.entity_id_slot()
        &&& self.next_id() == other.next_id()
        &&& self.tick_count() == other.tick_count()
        &&& self.exit_requested() == other.exit_requested()
    }

    /// Everything but the resources is as in `other`.
    pub open spec fn same_but_resources(&self, other: &World<V, R>) -> bool {
        &&& self.table() == other.table()
        &&& self.component_count() == other.component_count()
        &&& self.entity_id_slot() == other.entity_id_slot()
        &&& self.next_id() == other.next_id()
        &&& self.tick_count() == other.tick_count()
        &&& self.exit_requested() == other.exit_requested()
    }

    /// An empty world with `component_count` component types, of which `entity_id_slot` is
    /// `EntityId`, and `resource_count` resource types.
    pub fn new(component_count: usize, resource_count: usize, entity_id_slot: usize) -> (r: World<V, R>)
        requires
            entity_id_slot < component_count,
        ensures
            r.wf(),
            r.table() == Seq::<(u32, Seq<Option<V>>)>::empty(),
            r.resources().len() == resource_count,
            forall|k: int| 0 <= k < resource_count ==> #[trigger] r.resources()[k] is None,
            r.component_count() == component_count,
            r.entity_id_slot() == entity_id_slot,
            r.next_id() == 0,
            r.tick_count() == 0,
            !r.exit_requested(),
    {
        let mut resources: Vec<Option<R>> = Vec::new();
        let mut k: usize = 0;
        while k < resource_count
            invariant
                k <= resource_count,
                resources@.len() == k,
                forall|j: int| 0 <= j < k ==> #[trigger] resources@[j] is None,
            decreases resource_count - k,
        {
            resources.push(None);
            k += 1;
        }
        let r = World {
            entities: Vec::new(),
            resources,
            component_count,
            entity_id_slot,
            tick: 0,
            next_entity_id: 0,
            should_exit: false,
        };
        assert(r.table() =~= Seq::<(u32, Seq<Option<V>>)>::empty());
        r
    }

    /// The storage index of entity `id`, if it is alive.
    fn find_entity(&self, id: u32) -> (r: Option<usize>)
        requires
            self.wf(),
        ensures
            match r {
                Some(i) => row_of(self.table(), id, i as int),
                None => !has_entity(self.table(), id),
            },
    {
        let mut i: usize = 0;
        while i < self.entities.len()
            invariant
                i <= self.entities@.len(),
                forall|j: int| 0 <= j < i ==> #[trigger] self.entities@[j].entity() != id,
            decreases self.entities.len() - i,
        {
            if self.entities[i].id == id {
                return Some(i);
            }
            i += 1;
        }
        proof {
            if has_entity(self.table(), id) {
                let j = choose|j: int| #[trigger] row_of(self.table(), id, j);
                assert(self.table()[j].0 == self.entities@[j].entity());
            }
        }
        None
    }

    /// Creates an entity with the next id, carrying its `EntityId`, and returns the id.
    pub fn spawn_entity(&mut self) -> (r: u32) where V: From<EntityId>,
        requires
            old(self).wf(),
            old(self).next_id() < u32::MAX,
        ensures
            final(self).wf(),
            r == old(self).next_id(),
            forall|i: int| 0 <= i < old(self).table().len() ==> (#[trigger] old(self).table()[i]).0 < r,
            final(self).next_id() == r + 1,
            final(self).table().len() == old(self).table().len() + 1,
            final(self).table().drop_last() == old(self).table(),
            final(self).table().last().0 == r,
            fresh_slots(final(self).table().last().1, old(self).component_count(), old(self).entity_id_slot()),
            final(self).resources() == old(self).resources(),
            final(self).component_count() == old(self).component_count(),
            final(self).entity_id_slot() == old(self).entity_id_slot(),
            final(self).tick_count() == old(self).tick_count(),
            final(self).exit_requested() == old(self).exit_requested(),
    {
        proof {
            self.lemma_table();
        }
        let id = self.next_entity_id;
        self.next_entity_id = id + 1;
        let entity = Entity::new(id, self.component_count, self.entity_id_slot);
        self.entities.push(entity);
        assert(self.table().drop_last() =~= old(self).table());
        id
    }

    /// Removes entity `id` with all its components; `None` if no such entity is alive.
    pub fn despawn_entity(&mut self, id: u32) -> (r: Option<()>)
        requires
            old(self).wf(),
        ensures
            final(self).wf(),
            final(self).same_but_table(&*old(self)),
            match r {
                Some(_) => exists|i: int|
                    #[trigger] row_of(old(self).table(), id, i) && final(self).table()
                        == old(self).table().remove(i),
                None => !has_entity(old(self).table(), id) && final(self).table()
                    == old(self).table(),
            },
    {
        match self.find_entity(id) {
            Some(i) => {
                self.entities.remove(i);
                assert(self.table() =~= old(self).table().remove(i as int));
                assert(row_of(old(self).table(), id, i as int));
                Some(())
            },
            None => None,
        }
    }

    /// Stores `component` in slot `type_id` of entity `entity`, if the entity is alive and the
    /// slot empty; otherwise nothing changes and `None` is returned.
    pub fn add_component(&mut self, entity: u32, component: V, type_id: usize) -> (r: Option<()>)
        requires
            old(self).wf(),
            type_id < old(self).component_count(),
        ensures
            final(self).wf(),
            final(self).same_but_table(&*old(self)),
            match r {
                Some(_) => exists|i: int|
                    #[trigger] row_of(old(self).table(), entity, i) && old(self).table()[i].1[type_id as int] is None
                        && final(self).table() == old(self).table().update(
                        i,
                        (entity, old(self).table()[i].1.update(type_id as int, Some(component))),
                    ),
                None => final(self).table() == old(self).table() && forall|i: int|
                    #[trigger] row_of(old(self).table(), entity, i) ==> old(self).table()[i].1[type_id as int] is Some,
            },
    {
        match self.find_entity(entity) {
            Some(i) => {
                let ghost before = self.entities@[i as int];
                assert(self.table()[i as int].1 == before.slots());
                let r = self.entities[i].add_component(component, type_id);
                proof {
                    let e = self.entities@[i as int];
                    assert(self.entities@ =~= old(self).entities@.update(i as int, e));
                    assert(self.table() =~= old(self).table().update(i as int, (entity, e.slots())));
                    assert forall|i2: int, j2: int|
                        0 <= i2 < j2 < self.entities@.len() implies (#[trigger] self.entities@[i2]).entity()
                            < (#[trigger] self.entities@[j2]).entity() by {
                        assert(self.entities@[i2].entity() == old(self).entities@[i2].entity());
                        assert(self.entities@[j2].entity() == old(self).entities@[j2].entity());
                    }
                    assert forall|j: int| #[trigger] row_of(old(self).table(), entity, j) implies j == i by {
                        if j != i {
                            assert(old(self).entities@[j].entity() == old(self).table()[j].0);
                            assert(old(self).entities@[i as int].entity() == old(self).table()[i as int].0);
                        }
                    }
                }
                r
            },
            None => None,
        }
    }

    /// The one row that is entity `id` is row `i`.
    proof fn lemma_row_unique(&self, id: u32, i: int)
        requires
            self.wf(),
            row_of(self.table(), id, i),
        ensures
            forall|j: int| #[trigger] row_of(self.table(), id, j) ==> j == i,
    {
        assert forall|j: int| #[trigger] row_of(self.table(), id, j) implies j == i by {
            if j != i {
                assert(self.entities@[j].entity() == self.table()[j].0);
                assert(self.entities@[i].entity() == self.table()[i].0);
            }
        }
    }

    /// Empties slot `type_id` of entity `entity` and returns what it held; `None` when the
    /// entity is not alive or the slot was empty.
    pub fn remove_component(&mut self, entity: u32, type_id: usize) -> (r: Option<V>)
        requires
            old(self).wf(),
            type_id < old(self).component_count(),
        ensures
            final(self).wf(),
            final(self).same_but_table(&*old(self)),
            match r {
                Some(v) => exists|i: int|
                    #[trigger] row_of(old(self).table(), entity, i) && old(self).table()[i].1[type_id as int] == Some(v)
                        && final(self).table() == old(self).table().update(
                        i,
                        (entity, old(self).table()[i].1.update(type_id as int, None)),
                    ),
                None => final(self).table() == old(self).table() && forall|i: int|
                    #[trigger] row_of(old(self).table(), entity, i) ==> old(self).table()[i].1[type_id as int] is None,
            },
    {
        match self.find_entity(entity) {
            Some(i) => {
                proof {
                    old(self).lemma_row_unique(entity, i as int);
                }
                assert(self.table()[i as int].1 == self.entities@[i as int].slots());
                let r = self.entities[i].remove_component(type_id);
                proof {
                    let e = self.entities@[i as int];
                    assert(self.entities@ =~= old(self).entities@.update(i as int, e));
                    assert(self.table() =~= old(self).table().update(i as int, (entity, e.slots())));
                    assert forall|i2: int, j2: int|
                        0 <= i2 < j2 < self.entities@.len() implies (#[trigger] self.entities@[i2]).entity()
                            < (#[trigger] self.entities@[j2]).entity() by {
                        assert(self.entities@[i2].entity() == old(self).entities@[i2].entity());
                        assert(self.entities@[j2].entity() == old(self).entities@[j2].entity());
                    }
                    if r is None {
                        assert(e.slots() =~= old(self).entities@[i as int].slots());
                        assert(self.table() =~= old(self).table());
                    }
                }
                r
            },
            None => None,
        }
    }

    /// The component in slot `type_id` of entity `entity`, if the entity is alive and holds one.
    pub fn get_component(&self, entity: u32, type_id: usize) -> (r: Option<&V>)
        requires
            self.wf(),
            type_id < self.component_count(),
        ensures
            match r {
                Some(v) => exists|i: int|
                    #[trigger] row_of(self.table(), entity, i) && self.table()[i].1[type_id as int] == Some(*v),
                None => forall|i: int|
                    #[trigger] row_of(self.table(), entity, i) ==> self.table()[i].1[type_id as int] is None,
            },
    {
        match self.find_entity(entity) {
            Some(i) => {
                proof {
                    self.lemma_row_unique(entity, i as int);
                }
                assert(self.table()[i as int].1 == self.entities@[i as int].slots());
                self.entities[i].get_component(type_id)
            },
            None => None,
        }
    }

    /// The component in slot `type_id` of entity `entity`, to change in place.
    pub fn get_component_mut(&mut self, entity: u32, type_id: usize) -> (r: Option<&mut V>)
        requires
            old(self).wf(),
            type_id < old(self).component_count(),
        ensures
            final(self).wf(),
            final(self).same_but_table(&*old(self)),
            match r {
                Some(v) => exists|i: int|
                    #[trigger] row_of(old(self).table(), entity, i) && old(self).table()[i].1[type_id as int] == Some(*v)
                        && final(self).table() == old(self).table().update(
                        i,
                        (entity, old(self).table()[i].1.update(type_id as int, Some(*final(v)))),
                    ),
                None => final(self).table() == old(self).table() && forall|i: int|
                    #[trigger] row_of(old(self).table(), entity, i) ==> old(self).table()[i].1[type_id as int] is None,
            },
    {
        match self.find_entity(entity) {
            Some(i) => {
                proof {
                    old(self).lemma_row_unique(entity, i as int);
                }
                assert(self.table()[i as int].1 == self.entities@[i as int].slots());
                proof {
                    let ents = self.entities@;
                    assert forall|e2: Entity<V>|
                        e2.entity() == ents[i as int].entity() && e2.slots().len() == ents[i as int].slots().len()
                        implies #[trigger] entities_wf(ents.update(i as int, e2), self.component_count, self.next_entity_id)
                        && table_of(ents.update(i as int, e2)) == table_of(ents).update(i as int, (entity, e2.slots())) by {
                        let u = ents.update(i as int, e2);
                        assert forall|i2: int, j2: int|
                            0 <= i2 < j2 < u.len() implies (#[trigger] u[i2]).entity()
                                < (#[trigger] u[j2]).entity() by {
                            assert(u[i2].entity() == ents[i2].entity());
                            assert(u[j2].entity() == ents[j2].entity());
                        }
                        assert(table_of(u) =~= table_of(ents).update(i as int, (entity, e2.slots())));
                    }
                }
                let r = self.entities[i].get_component_mut(type_id);
                r
            },
            None => None,
        }
    }

    /// Stores `resource` in slot `type_id` if that slot is empty; an occupied slot is left as
    /// it is and `None` is returned.
    pub fn insert_resource(&mut self, resource: R, type_id: usize) -> (r: Option<()>)
        requires
            old(self).wf(),
            type_id < old(self).resources().len(),
        ensures
            final(self).wf(),
            final(self).same_but_resources(&*old(self)),
            old(self).resources()[type_id as int] is None ==> r is Some && final(self).resources()
                == old(self).resources().update(type_id as int, Some(resource)),
            old(self).resources()[type_id as int] is Some ==> r is None && final(self).resources()
                == old(self).resources(),
    {
        if self.resources[type_id].is_none() {
            self.resources.set(type_id, Some(resource));
            Some(())
        } else {
            None
        }
    }

    /// The resource in slot `type_id`, if any.
    pub fn get_resource(&self, type_id: usize) -> (r: Option<&R>)
        requires
            type_id < self.resources().len(),
        ensures
            r is Some <==> self.resources()[type_id as int] is Some,
            r is Some ==> *(r->0) == self.resources()[type_id as int]->0,
    {
        self.resources[type_id].as_ref()
    }

    /// The resource in slot `type_id`, if any, to change in place.
    pub fn get_resource_mut(&mut self, type_id: usize) -> (r: Option<&mut R>)
        requires
            old(self).wf(),
            type_id < old(self).resources().len(),
        ensures
            final(self).wf(),
            final(self).same_but_resources(&*old(self)),
            r is Some <==> old(self).resources()[type_id as int] is Some,
            r is None ==> final(self).resources() == old(self).resources(),
            r is Some ==> *(r->0) == old(self).resources()[type_id as int]->0 && final(self).resources()
                == old(self).resources().update(type_id as int, Some(*final(r->0))),
    {
        let slot = &mut self.resources[type_id];
        slot.as_mut()
    }

    /// Whether an exit has been asked for.
    pub fn should_exit(&self) -> (r: bool)
        ensures
            r == self.exit_requested(),
    {
        self.should_exit
    }

    /// Asks the loop that runs this world to stop after the current tick.
    pub fn exit(&mut self)
        requires
            old(self).wf(),
        ensures
            final(self).wf(),
            final(self).exit_requested(),
            final(self).table() == old(self).table(),
            final(self).resources() == old(self).resources(),
            final(self).component_count() == old(self).component_count(),
            final(self).entity_id_slot() == old(self).entity_id_slot(),
            final(self).next_id() == old(self).next_id(),
            final(self).tick_count() == old(self).tick_count(),
    {
        self.should_exit = true;
    }

    /// The number of ticks begun so far.
    pub fn tick(&self) -> (r: u64)
        ensures
            r == self.tick_count(),
    {
        self.tick
    }

    /// Counts one more tick.
    pub fn begin_tick(&mut self)
        requires
            old(self).wf(),
            old(self).tick_count() < u64::MAX,
        ensures
            final(self).wf(),
            final(self).tick_count() == old(self).tick_count() + 1,
            final(self).table() == old(self).table(),
            final(self).resources() == old(self).resources(),
            final(self).component_count() == old(self).component_count(),
            final(self).entity_id_slot() == old(self).entity_id_slot(),
            final(self).next_id() == old(self).next_id(),
            final(self).exit_requested() == old(self).exit_requested(),
    {
        self.tick = self.tick + 1;
    }

    /// The number of component types.
    pub fn components_per_entity(&self) -> (r: usize)
        ensures
            r == self.component_count(),
    {
        self.component_count
    }

    /// The number of resource types.
    pub fn resource_types(&self) -> (r: usize)
        ensures
            r == self.resources().len(),
    {
        self.resources.len()
    }

    /// Every entity whose slot `type_id` is occupied, with a reference to its component, in
    /// storage order, which is ascending id order.
    pub fn get_components(&self, type_id: usize) -> (r: Vec<(u32, &V)>)
        requires
            self.wf(),
            type_id < self.component_count(),
        ensures
            r@.len() == column(self.table(), type_id as int).len(),
            forall|j: int|
                0 <= j < r@.len() ==> (#[trigger] r@[j]).0 == column(self.table(), type_id as int)[j].0
                    && *r@[j].1 == column(self.table(), type_id as int)[j].1,
            forall|a: int, b: int| 0 <= a < b < r@.len() ==> r@[a].0 < r@[b].0,
    {
        proof {
            self.lemma_table();
            lemma_column(self.table(), type_id as int);
        }
        let mut r: Vec<(u32, &V)> = Vec::new();
        let mut i: usize = 0;
        while i < self.entities.len()
            invariant
                self.wf(),
                type_id < self.component_count(),
                i <= self.entities@.len(),
                r@.len() == column(self.table().subrange(0, i as int), type_id as int).len(),
                forall|j: int|
                    0 <= j < r@.len() ==> (#[trigger] r@[j]).0 == column(self.table().subrange(0, i as int), type_id as int)[j].0
                        && *r@[j].1 == column(self.table().subrange(0, i as int), type_id as int)[j].1,
            decreases self.entities.len() - i,
        {
            let ghost pre = self.table().subrange(0, i as int);
            let ghost cur = self.table().subrange(0, i + 1);
            assert(cur.drop_last() =~= pre);
            assert(cur.last() == (self.entities@[i as int].entity(), self.entities@[i as int].slots()));
            let e = &self.entities[i];
            match e.get_component(type_id) {
                Some(v) => {
                    r.push((e.id, v));
                },
                None => {},
            }
            i += 1;
        }
        assert(self.table().subrange(0, self.entities@.len() as int) =~= self.table());
        r
    }

    /// The columns of the types in `type_ids`, each with the list of its entity ids.
    fn gather_columns(&self, type_ids: &Vec<usize>) -> (res: (Vec<Vec<(u32, &V)>>, Vec<Vec<u32>>))
        requires
            self.wf(),
            forall|t: int| 0 <= t < type_ids@.len() ==> #[trigger] type_ids@[t] < self.component_count(),
        ensures
            columns_match(self.table(), type_ids@, res.0@, res.1@),
            forall|u: int| 0 <= u < res.1@.len() ==> strictly_ascending(#[trigger] res.1@[u]@),
    {
        let ghost table = self.table();
        let ghost types = type_ids@;
        proof {
            self.lemma_table();
        }
        let n = type_ids.len();
        let mut columns: Vec<Vec<(u32, &V)>> = Vec::new();
        let mut lists: Vec<Vec<u32>> = Vec::new();
        let mut t: usize = 0;
        while t < n
            invariant
                self.wf(),
                table == self.table(),
                types == type_ids@,
                ids_ascending(table),
                n == types.len(),
                t <= n,
                forall|u: int| 0 <= u < n ==> #[trigger] types[u] < self.component_count(),
                columns_match(table, types.subrange(0, t as int), columns@, lists@),
            decreases n - t,
        {
            let col = self.get_components(type_ids[t]);
            let mut ids: Vec<u32> = Vec::new();
            let mut p: usize = 0;
            while p < col.len()
                invariant
                    p <= col@.len(),
                    ids@.len() == p,
                    forall|q: int| 0 <= q < p ==> #[trigger] ids@[q] == col@[q].0,
                decreases col.len() - p,
            {
                ids.push(col[p].0);
                p += 1;
            }
            let ghost pre_types = types.subrange(0, t as int);
            let ghost cur_types = types.subrange(0, t + 1);
            columns.push(col);
            lists.push(ids);
            proof {
                assert forall|u: int| 0 <= u < cur_types.len() implies #[trigger] cur_types[u] == types[u] by {}
                assert forall|u: int| 0 <= u < t implies #[trigger] cur_types[u] == pre_types[u] by {}
                assert forall|u: int, p: int|
                    0 <= u < t + 1 && 0 <= p < columns@[u]@.len() implies (#[trigger] columns@[u]@[p]).0 == column(table, cur_types[u] as int)[p].0
                        && *columns@[u]@[p].1 == column(table, cur_types[u] as int)[p].1 by {
                    if u == t {
                        assert(columns@[u]@[p] == col@[p]);
                    }
                }
                assert forall|u: int, p: int|
                    0 <= u < t + 1 && 0 <= p < lists@[u]@.len() implies #[trigger] lists@[u]@[p] == column(table, cur_types[u] as int)[p].0 by {
                    if u == t {
                        assert(lists@[u]@[p] == ids@[p]);
                        assert(col@[p] == columns@[u]@[p]);
                    }
                }
            }
            t += 1;
        }
        assert(types.subrange(0, n as int) =~= types);
        proof {
            assert forall|u: int| 0 <= u < lists@.len() implies strictly_ascending(#[trigger] lists@[u]@) by {
                lemma_column(table, types[u] as int);
                let c = column(table, types[u] as int);
                assert(lists@[u]@.len() == c.len());
                assert forall|a: int, b: int| 0 <= a < b < lists@[u]@.len() implies lists@[u]@[a] < lists@[u]@[b] by {
                    assert(lists@[u]@[a] == c[a].0);
                    assert(lists@[u]@[b] == c[b].0);
                }
            }
        }
        (columns, lists)
    }

    /// For each joined row, the entity and its components, read from the columns.
    fn assemble_rows<'a>(
        &'a self,
        type_ids: &Vec<usize>,
        columns: &Vec<Vec<(u32, &'a V)>>,
        lists: &Vec<Vec<u32>>,
        rows: &Vec<JoinRow>,
    ) -> (r: Vec<(u32, Vec<&'a V>)>)
        requires
            self.wf(),
            type_ids@.len() >= 1,
            columns_match(self.table(), type_ids@, columns@, lists@),
            is_join(lists@, rows@),
        ensures
            r@.len() == rows@.len(),
            forall|q: int| 0 <= q < r@.len() ==> (#[trigger] r@[q]).0 == rows@[q].entity,
            forall|q: int|
                0 <= q < r@.len() ==> #[trigger] row_found(self.table(), type_ids@, r@[q]),
    {
        let ghost table = self.table();
        let ghost types = type_ids@;
        proof {
            self.lemma_table();
        }
        let n = type_ids.len();
        let mut r: Vec<(u32, Vec<&V>)> = Vec::new();
        let mut j: usize = 0;
        while j < rows.len()
            invariant
                table == self.table(),
                types == type_ids@,
                ids_ascending(table),
                n == types.len(),
                n >= 1,
                columns_match(table, types, columns@, lists@),
                is_join(lists@, rows@),
                j <= rows@.len(),
                r@.len() == j,
                forall|q: int| 0 <= q < j ==> (#[trigger] r@[q]).0 == rows@[q].entity,
                forall|q: int|
                    0 <= q < j ==> #[trigger] row_found(table, types, r@[q]),
            decreases rows.len() - j,
        {
            let row = &rows[j];
            assert(row_locates(lists@, rows@[j as int]));
            let mut values: Vec<&V> = Vec::new();
            let mut t: usize = 0;
            let ghost e = row.entity;
            proof {
                lemma_column(table, types[0] as int);
                assert(lists@[0]@[row.positions@[0] as int] == e);
                let c0 = column(table, types[0] as int);
                assert(lists@[0]@.len() == c0.len());
                assert(c0[row.positions@[0] as int].0 == e);
            }
            let ghost i0 = choose|i: int|
                0 <= i < table.len() && table[i].0 == (#[trigger] column(table, types[0] as int)[row.positions@[0] as int]).0
                    && table[i].1[types[0] as int] == Some(column(table, types[0] as int)[row.positions@[0] as int].1);
            while t < n
                invariant
                    n == types.len(),
                    t <= n,
                    ids_ascending(table),
                    0 <= i0 < table.len(),
                    table[i0].0 == e,
                    e == row.entity,
                    row_locates(lists@, *row),
                    columns_match(table, types, columns@, lists@),
                    values@.len() == t,
                    forall|u: int| 0 <= u < t ==> Some(*#[trigger] values@[u]) == table[i0].1[types[u] as int],
                decreases n - t,
            {
                let pos = row.positions[t];
                proof {
                    lemma_column(table, types[t as int] as int);
                    let c = column(table, types[t as int] as int);
                    assert(lists@[t as int]@.len() == c.len());
                    assert(columns@[t as int]@.len() == c.len());
                    assert(lists@[t as int]@[pos as int] == e);
                    assert(c[pos as int].0 == e);
                    let i = choose|i: int|
                        0 <= i < table.len() && table[i].0 == (#[trigger] c[pos as int]).0
                            && table[i].1[types[t as int] as int] == Some(c[pos as int].1);
                    if i != i0 {
                        if i < i0 {
                            assert(table[i].0 < table[i0].0);
                        } else {
                            assert(table[i0].0 < table[i].0);
                        }
                    }
                }
                values.push(columns[t][pos].1);
                t += 1;
            }
            r.push((row.entity, values));
            proof {
                assert forall|u: int| 0 <= u < types.len() implies (#[trigger] table[i0].1[types[u] as int]) is Some by {
                    assert(Some(*values@[u]) == table[i0].1[types[u] as int]);
                }
                assert(holds_all(table[i0].1, types));
                assert(r@[j as int].1 == values);
                assert(values_of(table[i0].1, types, values@));
                assert(r@[j as int].0 == e);
            }
            j += 1;
        }
        r
    }

    /// The entities that hold a component of every type in `type_ids`, in ascending id order,
    /// each with references to those components in the order of `type_ids`. The columns of
    /// the types are merged in one pass.
    pub fn query(&self, type_ids: &Vec<usize>) -> (r: Vec<(u32, Vec<&V>)>)
        requires
            self.wf(),
            type_ids@.len() >= 1,
            forall|t: int| 0 <= t < type_ids@.len() ==> #[trigger] type_ids@[t] < self.component_count(),
        ensures
            forall|a: int, b: int| 0 <= a < b < r@.len() ==> r@[a].0 < r@[b].0,
            forall|j: int|
                0 <= j < r@.len() ==> #[trigger] row_found(self.table(), type_ids@, r@[j]),
            forall|i: int|
                0 <= i < self.table().len() && holds_all(#[trigger] self.table()[i].1, type_ids@)
                    ==> exists|j: int| 0 <= j < r@.len() && (#[trigger] r@[j]).0 == self.table()[i].0,
    {
        let (columns, lists) = self.gather_columns(type_ids);
        let rows = join(&lists);
        let r = self.assemble_rows(type_ids, &columns, &lists, &rows);
        proof {
            let table = self.table();
            let types = type_ids@;
            self.lemma_table();
            assert forall|a: int, b: int| 0 <= a < b < r@.len() implies r@[a].0 < r@[b].0 by {
                assert(r@[a].0 == rows@[a].entity);
                assert(r@[b].0 == rows@[b].entity);
            }
            assert forall|i: int|
                0 <= i < table.len() && holds_all(#[trigger] table[i].1, types)
                implies exists|q: int| 0 <= q < r@.len() && (#[trigger] r@[q]).0 == table[i].0 by {
                let e = table[i].0;
                assert forall|u: int| 0 <= u < lists@.len() implies #[trigger] lists@[u]@.contains(e) by {
                    lemma_column(table, types[u] as int);
                    assert(table[i].1[types[u] as int] is Some);
                    let c = column(table, types[u] as int);
                    let p = choose|p: int| 0 <= p < c.len() && (#[trigger] c[p]).0 == table[i].0;
                    assert(lists@[u]@.len() == c.len());
                    assert(lists@[u]@[p] == e);
                }
                assert(in_every(lists@, e));
                assert(has_row(rows@, e));
                let q = choose|q: int| 0 <= q < rows@.len() && #[trigger] rows@[q].entity == e;
                assert(r@[q].0 == e);
            }
        }
        r
    }

    /// Stores `component` in the slot of its own type on entity `entity`, as `add_component`
    /// does with that type's id.
    pub fn add_typed_component(&mut self, entity: u32, component: V) -> (r: Option<()>) where
        V: Component,

        requires
            old(self).wf(),
            component.component_type() < old(self).component_count(),
        ensures
            final(self).wf(),
            final(self).same_but_table(&*old(self)),
            match r {
                Some(_) => exists|i: int|
                    #[trigger] row_of(old(self).table(), entity, i) && old(self).table()[i].1[component.component_type() as int] is None
                        && final(self).table() == old(self).table().update(
                        i,
                        (entity, old(self).table()[i].1.update(component.component_type() as int, Some(component))),
                    ),
                None => final(self).table() == old(self).table() && forall|i: int|
                    #[trigger] row_of(old(self).table(), entity, i) ==> old(self).table()[i].1[component.component_type() as int] is Some,
            },
    {
        let id = component.get_type_id();
        self.add_component(entity, component, id)
    }

    /// Stores `resource` in the slot of its own type, as `insert_resource` does with that
    /// type's id.
    pub fn insert_typed_resource(&mut self, resource: R) -> (r: Option<()>) where R: Resource,
        requires
            old(self).wf(),
            resource.resource_type() < old(self).resources().len(),
        ensures
            final(self).wf(),
            final(self).same_but_resources(&*old(self)),
            old(self).resources()[resource.resource_type() as int] is None ==> r is Some && final(self).resources()
                == old(self).resources().update(resource.resource_type() as int, Some(resource)),
            old(self).resources()[resource.resource_type() as int] is Some ==> r is None && final(self).resources()
                == old(self).resources(),
    {
        let id = resource.get_type_id();
        self.insert_resource(resource, id)
    }
}

} // verus!

use ecs::query::join;
use ecs::world::{EntityId, World};

#[derive(Debug, Clone, Copy, PartialEq)]
enum Comp {
    Id(EntityId),
    Tag(u32),
}

impl From<EntityId> for Comp {
    fn from(id: EntityId) -> Comp {
        Comp::Id(id)
    }
}

struct Lcg(u64);

impl Lcg {
    fn next(&mut self) -> u64 {
        self.0 = self.0.wrapping_mul(6364136223846793005).wrapping_add(1442695040888963407);
        self.0 >> 33
    }
}

#[test]
fn join_matches_brute_force_on_random_assignments() {
    let mut rng = Lcg(7);
    for round in 0..50 {
        let n_lists = 1 + (round % 4) as usize;
        let n_entities = 1 + rng.next() % 40;
        let mut lists: Vec<Vec<u32>> = vec![Vec::new(); n_lists];
        for e in 0..n_entities as u32 {
            for list in lists.iter_mut() {
                if rng.next() % 3 != 0 {
                    list.push(e);
                }
            }
        }
        let rows = join(&lists);
        let expected: Vec<u32> = (0..n_entities as u32)
            .filter(|e| lists.iter().all(|l| l.contains(e)))
            .collect();
        let got: Vec<u32> = rows.iter().map(|r| r.entity).collect();
        assert_eq!(got, expected);
        for r in &rows {
            assert_eq!(r.positions.len(), n_lists);
            for (k, &p) in r.positions.iter().enumerate() {
                assert_eq!(lists[k][p], r.entity);
            }
        }
    }
}

#[test]
fn join_skips_ahead_past_unmatched_ids() {
    let lists = vec![vec![1, 3, 5, 7, 9], vec![0, 3, 4, 9, 12], vec![3, 6, 9]];
    let rows = join(&lists);
    let got: Vec<(u32, Vec<usize>)> = rows.iter().map(|r| (r.entity, r.positions.clone())).collect();
    assert_eq!(got, vec![(3, vec![1, 1, 0]), (9, vec![4, 3, 2])]);
}

#[test]
fn join_with_an_empty_list_is_empty() {
    let lists = vec![vec![1, 2, 3], vec![]];
    assert!(join(&lists).is_empty());
    let single = vec![vec![4, 8]];
    let got: Vec<u32> = join(&single).iter().map(|r| r.entity).collect();
    assert_eq!(got, vec![4, 8]);
}

#[test]
fn query_returns_entities_holding_every_type() {
    // Slots: 0 = EntityId, 1 and 2 = tags.
    let mut world: World<Comp, ()> = World::new(3, 0, 0);
    for _ in 0..6 {
        world.spawn_entity();
    }
    for e in [0u32, 2, 3, 5] {
        world.add_component(e, Comp::Tag(10 + e), 1).unwrap();
    }
    for e in [1u32, 2, 5] {
        world.add_component(e, Comp::Tag(20 + e), 2).unwrap();
    }
    world.despawn_entity(5).unwrap();
    let rows = world.query(&vec![2, 1]);
    assert_eq!(rows.len(), 1);
    assert_eq!(rows[0].0, 2);
    assert_eq!(rows[0].1, vec![&Comp::Tag(22), &Comp::Tag(12)]);
    let all = world.query(&vec![0]);
    let ids: Vec<u32> = all.iter().map(|(e, _)| *e).collect();
    assert_eq!(ids, vec![0, 1, 2, 3, 4]);
}

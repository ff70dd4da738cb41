use vstd::prelude::*;

verus! {

/// A set of component types that a query asks for together.
pub trait QueryPattern {
}

/// A query over the components that `T` names.
pub struct Query<T: QueryPattern> {
    _marker: std::marker::PhantomData<T>,
}

/// Every id is smaller than the ones after it.
pub open spec fn strictly_ascending(s: Seq<u32>) -> bool {
    forall|i: int, j: int| 0 <= i < j < s.len() ==> s[i] < s[j]
}

/// `e` occurs in each of the lists.
pub open spec fn in_every(lists: Seq<Vec<u32>>, e: u32) -> bool {
    forall|k: int| 0 <= k < lists.len() ==> #[trigger] lists[k]@.contains(e)
}

/// One entity found in every list, with its position in each.
pub struct JoinRow {
    pub entity: u32,
    pub positions: Vec<usize>,
}

/// `row` names an entity and, for list `k`, a position of that entity in it.
pub open spec fn row_locates(lists: Seq<Vec<u32>>, row: JoinRow) -> bool {
    &&& row.positions@.len() == lists.len()
    &&& forall|k: int|
        0 <= k < lists.len() ==> {
            &&& #[trigger] row.positions@[k] < lists[k]@.len()
            &&& lists[k]@[row.positions@[k] as int] == row.entity
        }
}

/// The rows are in ascending entity order, without repeats.
pub open spec fn rows_ascending(rows: Seq<JoinRow>) -> bool {
    forall|i: int, j: int| 0 <= i < j < rows.len() ==> rows[i].entity < rows[j].entity
}

/// Some row names `e`.
pub open spec fn has_row(rows: Seq<JoinRow>, e: u32) -> bool {
    exists|i: int| 0 <= i < rows.len() && #[trigger] rows[i].entity == e
}

/// The rows are exactly the entities present in every list, ascending, each located in
/// every list.
pub open spec fn is_join(lists: Seq<Vec<u32>>, rows: Seq<JoinRow>) -> bool {
    &&& rows_ascending(rows)
    &&& forall|i: int| 0 <= i < rows.len() ==> #[trigger] row_locates(lists, rows[i])
    &&& forall|e: u32| in_every(lists, e) <==> has_row(rows, e)
}

/// `e` stands before position `c` of `s`.
pub open spec fn passed(s: Seq<u32>, c: int, e: u32) -> bool {
    exists|p: int| 0 <= p < c && p < s.len() && s[p] == e
}

proof fn lemma_passed_step(s: Seq<u32>, c: int, c2: int, e: u32)
    requires
        0 <= c < s.len(),
        c <= c2 <= c + 1,
    ensures
        passed(s, c2, e) <==> (passed(s, c, e) || (c2 == c + 1 && s[c] == e)),
{
    if passed(s, c2, e) && !passed(s, c, e) {
        let p = choose|p: int| 0 <= p < c2 && p < s.len() && s[p] == e;
        assert(p == c);
    }
    if c2 == c + 1 && s[c] == e {
        assert(0 <= c < c2 && s[c] == e);
    }
}

/// In a strictly ascending list, an element smaller than the one at `c` stands before `c`.
proof fn lemma_before_cursor(s: Seq<u32>, c: int, x: u32)
    requires
        strictly_ascending(s),
        0 <= c < s.len(),
        s.contains(x),
        x < s[c],
    ensures
        passed(s, c, x),
{
    let i = s.index_of(x);
    if i > c {
        assert(s[c] < s[i]);
    }
}

proof fn lemma_has_row_push(rows: Seq<JoinRow>, r: JoinRow, e: u32)
    ensures
        has_row(rows.push(r), e) <==> (has_row(rows, e) || r.entity == e),
{
    let rows2 = rows.push(r);
    if has_row(rows, e) {
        let i = choose|i: int| 0 <= i < rows.len() && #[trigger] rows[i].entity == e;
        assert(rows2[i] == rows[i]);
    }
    if r.entity == e {
        assert(rows2[rows.len() as int].entity == e);
    }
    if has_row(rows2, e) {
        let i = choose|i: int| 0 <= i < rows2.len() && #[trigger] rows2[i].entity == e;
        if i < rows.len() {
            assert(rows2[i] == rows[i]);
        }
    }
}

/// Joins lists of entity ids, each sorted strictly ascending, into the entities that all of
/// them hold. One cursor per list; a cursor moves only past ids that no later match can use,
/// so each element is looked at once.
pub fn join(lists: &Vec<Vec<u32>>) -> (rows: Vec<JoinRow>)
    requires
        lists.len() >= 1,
        forall|k: int| 0 <= k < lists.len() ==> strictly_ascending(#[trigger] lists@[k]@),
    ensures
        is_join(lists@, rows@),
{
    let n = lists.len();
    let mut rows: Vec<JoinRow> = Vec::new();
    let mut cursors: Vec<usize> = Vec::new();
    let mut k: usize = 0;
    while k < n
        invariant
            k <= n,
            n == lists.len(),
            cursors@.len() == k,
            forall|j: int| 0 <= j < k ==> cursors@[j] == 0,
        decreases n - k,
    {
        cursors.push(0);
        k += 1;
    }
    let ghost lo: int = 0;
    loop
        invariant
            n == lists.len(),
            n >= 1,
            forall|k: int| 0 <= k < lists.len() ==> strictly_ascending(#[trigger] lists@[k]@),
            cursors@.len() == n,
            forall|k: int| 0 <= k < n ==> #[trigger] cursors@[k] <= lists@[k]@.len(),
            0 <= lo <= u32::MAX as int + 1,
            forall|k: int|
                0 <= k < n && cursors@[k] < lists@[k]@.len() ==> lo
                    <= #[trigger] lists@[k]@[cursors@[k] as int],
            rows_ascending(rows@),
            forall|i: int| 0 <= i < rows@.len() ==> #[trigger] row_locates(lists@, rows@[i]),
            forall|i: int, k: int|
                0 <= i < rows@.len() && 0 <= k < n ==> #[trigger] passed(
                    lists@[k]@,
                    cursors@[k] as int,
                    rows@[i].entity,
                ),
            forall|e: u32|
                in_every(lists@, e) ==> (has_row(rows@, e) <==> exists|k: int|
                    0 <= k < n && #[trigger] passed(lists@[k]@, cursors@[k] as int, e)),
        ensures
            exists|j: int| 0 <= j < n && #[trigger] cursors@[j] >= lists@[j]@.len(),
        decreases u32::MAX as int + 1 - lo,
    {
        // Stop as soon as one list is used up; otherwise find the smallest and largest head.
        let mut done = false;
        let mut min_id: u32 = 0;
        let mut max_id: u32 = 0;
        let mut k: usize = 0;
        while k < n
            invariant
                n == lists.len(),
                k <= n,
                cursors@.len() == n,
                !done ==> forall|j: int| 0 <= j < k ==> #[trigger] cursors@[j] < lists@[j]@.len(),
                done ==> exists|j: int| 0 <= j < n && #[trigger] cursors@[j] >= lists@[j]@.len(),
                !done && k > 0 ==> forall|j: int|
                    0 <= j < k ==> min_id <= #[trigger] lists@[j]@[cursors@[j] as int] <= max_id,
                !done && k > 0 ==> exists|j: int|
                    0 <= j < k && #[trigger] lists@[j]@[cursors@[j] as int] == min_id,
                !done && k > 0 ==> exists|j: int|
                    0 <= j < k && #[trigger] lists@[j]@[cursors@[j] as int] == max_id,
            decreases n - k,
        {
            if !done {
                let c = cursors[k];
                if c >= lists[k].len() {
                    done = true;
                } else {
                    let id = lists[k][c];
                    if k == 0 || id < min_id {
                        min_id = id;
                    }
                    if k == 0 || id > max_id {
                        max_id = id;
                    }
                }
            }
            k += 1;
        }
        if done {
            break;
        }
        let ghost old_cursors = cursors@;
        let ghost old_rows = rows@;
        if min_id == max_id {
            let mut positions: Vec<usize> = Vec::new();
            let mut k: usize = 0;
            while k < n
                invariant
                    n == lists.len(),
                    k <= n,
                    cursors@.len() == n,
                    old_cursors.len() == n,
                    positions@.len() == k,
                    forall|j: int| 0 <= j < n ==> #[trigger] old_cursors[j] < lists@[j]@.len(),
                    forall|j: int|
                        0 <= j < n ==> #[trigger] lists@[j]@[old_cursors[j] as int] == min_id,
                    forall|j: int| 0 <= j < k ==> #[trigger] positions@[j] == old_cursors[j],
                    forall|j: int| 0 <= j < k ==> #[trigger] cursors@[j] == old_cursors[j] + 1,
                    forall|j: int| k <= j < n ==> #[trigger] cursors@[j] == old_cursors[j],
                decreases n - k,
            {
                let c = cursors[k];
                let len_k = lists[k].len();
                assert(c < len_k);
                positions.push(c);
                cursors.set(k, c + 1);
                k += 1;
            }
            let row = JoinRow { entity: min_id, positions };
            rows.push(row);
            proof {
                assert(row_locates(lists@, row));
                assert forall|j: int, e: u32| 0 <= j < n implies #[trigger] passed(
                    lists@[j]@,
                    cursors@[j] as int,
                    e,
                ) == (passed(lists@[j]@, old_cursors[j] as int, e) || e == min_id) by {
                    lemma_passed_step(lists@[j]@, old_cursors[j] as int, cursors@[j] as int, e);
                }
                assert forall|e: u32| in_every(lists@, e) implies (has_row(rows@, e) <==> exists|
                    k: int,
                |
                    0 <= k < n && #[trigger] passed(lists@[k]@, cursors@[k] as int, e)) by {
                    lemma_has_row_push(old_rows, row, e);
                    if exists|k: int|
                        0 <= k < n && #[trigger] passed(lists@[k]@, cursors@[k] as int, e) {
                        let k = choose|k: int|
                            0 <= k < n && #[trigger] passed(lists@[k]@, cursors@[k] as int, e);
                        if e != min_id {
                            assert(passed(lists@[k]@, old_cursors[k] as int, e));
                        }
                    }
                    if has_row(old_rows, e) {
                        let k = choose|k: int|
                            0 <= k < n && #[trigger] passed(lists@[k]@, old_cursors[k] as int, e);
                        assert(passed(lists@[k]@, cursors@[k] as int, e));
                    }
                    if e == min_id {
                        assert(passed(lists@[0]@, cursors@[0] as int, e));
                    }
                }
                assert forall|i: int, k: int| 0 <= i < rows@.len() && 0 <= k < n implies #[trigger] passed(
                    lists@[k]@,
                    cursors@[k] as int,
                    rows@[i].entity,
                ) by {
                    if i < old_rows.len() {
                        assert(old_rows[i] == rows@[i]);
                        assert(passed(lists@[k]@, old_cursors[k] as int, rows@[i].entity));
                    }
                    assert(passed(lists@[k]@, cursors@[k] as int, rows@[i].entity));
                }
                assert forall|i: int, j: int| 0 <= i < j < rows@.len() implies rows@[i].entity
                    < rows@[j].entity by {
                    assert(old_rows[i] == rows@[i]);
                    if j == rows@.len() - 1 {
                        let s = lists@[0]@;
                        assert(passed(s, old_cursors[0] as int, old_rows[i].entity));
                        let p = choose|p: int|
                            0 <= p < old_cursors[0] && p < s.len() && s[p] == old_rows[i].entity;
                        assert(s[p] < s[old_cursors[0] as int]);
                    } else {
                        assert(old_rows[j] == rows@[j]);
                    }
                }
            }
        } else {
            let mut k: usize = 0;
            while k < n
                invariant
                    n == lists.len(),
                    k <= n,
                    cursors@.len() == n,
                    old_cursors.len() == n,
                    forall|j: int| 0 <= j < n ==> #[trigger] old_cursors[j] < lists@[j]@.len(),
                    forall|j: int|
                        0 <= j < k ==> #[trigger] cursors@[j] == if lists@[j]@[old_cursors[j] as int]
                            < max_id {
                            old_cursors[j] + 1
                        } else {
                            old_cursors[j] as int
                        },
                    forall|j: int| k <= j < n ==> #[trigger] cursors@[j] == old_cursors[j],
                decreases n - k,
            {
                let c = cursors[k];
                let len_k = lists[k].len();
                assert(c < len_k);
                if lists[k][c] < max_id {
                    cursors.set(k, c + 1);
                }
                k += 1;
            }
            proof {
                let jmax = choose|j: int|
                    0 <= j < n && #[trigger] lists@[j]@[old_cursors[j] as int] == max_id;
                assert forall|j: int, e: u32| 0 <= j < n implies #[trigger] passed(
                    lists@[j]@,
                    cursors@[j] as int,
                    e,
                ) == (passed(lists@[j]@, old_cursors[j] as int, e) || (cursors@[j]
                    == old_cursors[j] + 1 && lists@[j]@[old_cursors[j] as int] == e)) by {
                    lemma_passed_step(lists@[j]@, old_cursors[j] as int, cursors@[j] as int, e);
                }
                assert forall|e: u32| in_every(lists@, e) implies (has_row(rows@, e) <==> exists|
                    k: int,
                |
                    0 <= k < n && #[trigger] passed(lists@[k]@, cursors@[k] as int, e)) by {
                    if exists|k: int|
                        0 <= k < n && #[trigger] passed(lists@[k]@, cursors@[k] as int, e) {
                        let k = choose|k: int|
                            0 <= k < n && #[trigger] passed(lists@[k]@, cursors@[k] as int, e);
                        if !passed(lists@[k]@, old_cursors[k] as int, e) {
                            // `e` was skipped: it is smaller than `max_id`, so the list with that
                            // head had already passed it.
                            assert(lists@[jmax]@.contains(e));
                            lemma_before_cursor(lists@[jmax]@, old_cursors[jmax] as int, e);
                        }
                    }
                    if has_row(rows@, e) {
                        let k = choose|k: int|
                            0 <= k < n && #[trigger] passed(lists@[k]@, old_cursors[k] as int, e);
                        assert(passed(lists@[k]@, cursors@[k] as int, e));
                    }
                }
                assert forall|i: int, k: int| 0 <= i < rows@.len() && 0 <= k < n implies #[trigger] passed(
                    lists@[k]@,
                    cursors@[k] as int,
                    rows@[i].entity,
                ) by {
                    assert(passed(lists@[k]@, old_cursors[k] as int, rows@[i].entity));
                }
            }
        }
        proof {
            assert forall|k: int| 0 <= k < n && cursors@[k] < lists@[k]@.len() implies min_id + 1
                <= #[trigger] lists@[k]@[cursors@[k] as int] by {
                if cursors@[k] != old_cursors[k] {
                    assert(lists@[k]@[old_cursors[k] as int] < lists@[k]@[cursors@[k] as int]);
                } else {
                    assert(lists@[k]@[old_cursors[k] as int] >= min_id);
                }
            }
            lo = min_id + 1;
        }
    }
    proof {
        let kd = choose|j: int| 0 <= j < n && #[trigger] cursors@[j] >= lists@[j]@.len();
        assert forall|e: u32| in_every(lists@, e) implies has_row(rows@, e) by {
            assert(lists@[kd]@.contains(e));
            let p = lists@[kd]@.index_of(e);
            assert(lists@[kd]@[p] == e);
            assert(passed(lists@[kd]@, cursors@[kd] as int, e));
        }
        assert forall|e: u32| has_row(rows@, e) implies in_every(lists@, e) by {
            let i = choose|i: int| 0 <= i < rows@.len() && #[trigger] rows@[i].entity == e;
            assert(row_locates(lists@, rows@[i]));
            assert forall|k: int| 0 <= k < lists@.len() implies #[trigger] lists@[k]@.contains(e) by {
                assert(lists@[k]@[rows@[i].positions@[k] as int] == e);
            }
        }
    }
    rows
}

} // verus!

use vstd::prelude::*;

use vstd::slice::slice_to_vec;
use vstd::string::StringSliceAdditionalSpecFns;

verus! {

/// Byte-wise lexicographic order on names, comparing from position `i` on; this is the order
/// of `str`'s `Ord`.
pub open spec fn name_lt_from(a: Seq<u8>, b: Seq<u8>, i: int) -> bool
    decreases a.len() - i,
{
    if i < 0 || i >= a.len() {
        0 <= i < b.len()
    } else if i >= b.len() {
        false
    } else if a[i] != b[i] {
        a[i] < b[i]
    } else {
        name_lt_from(a, b, i + 1)
    }
}

/// `a` sorts strictly before `b`.
pub open spec fn name_lt(a: Seq<u8>, b: Seq<u8>) -> bool {
    name_lt_from(a, b, 0)
}

/// Each name sorts strictly before the ones after it, so no name repeats.
pub open spec fn strictly_sorted(names: Seq<Seq<u8>>) -> bool {
    forall|i: int, j: int| 0 <= i < j < names.len() ==> name_lt(#[trigger] names[i], #[trigger] names[j])
}

proof fn lemma_lt_from_irreflexive(a: Seq<u8>, i: int)
    requires
        0 <= i,
    ensures
        !name_lt_from(a, a, i),
    decreases a.len() - i,
{
    if i < a.len() {
        lemma_lt_from_irreflexive(a, i + 1);
    }
}

proof fn lemma_lt_from_transitive(a: Seq<u8>, b: Seq<u8>, c: Seq<u8>, i: int)
    requires
        0 <= i,
        name_lt_from(a, b, i),
        name_lt_from(b, c, i),
    ensures
        name_lt_from(a, c, i),
    decreases a.len() - i,
{
    if i < a.len() && i < b.len() && i < c.len() && a[i] == b[i] && b[i] == c[i] {
        lemma_lt_from_transitive(a, b, c, i + 1);
    }
}

proof fn lemma_lt_from_total(a: Seq<u8>, b: Seq<u8>, i: int)
    requires
        0 <= i <= a.len(),
        i <= b.len(),
        a.subrange(0, i) == b.subrange(0, i),
        !name_lt_from(a, b, i),
        !name_lt_from(b, a, i),
    ensures
        a == b,
    decreases a.len() - i,
{
    if i == a.len() {
        assert(a =~= a.subrange(0, i));
        assert(b =~= b.subrange(0, i));
    } else {
        assert(a.subrange(0, i + 1) =~= a.subrange(0, i).push(a[i]));
        assert(b.subrange(0, i + 1) =~= b.subrange(0, i).push(b[i]));
        lemma_lt_from_total(a, b, i + 1);
    }
}

/// The order on names is a strict total order.
pub proof fn lemma_name_order(a: Seq<u8>, b: Seq<u8>, c: Seq<u8>)
    ensures
        !name_lt(a, a),
        name_lt(a, b) && name_lt(b, c) ==> name_lt(a, c),
        a != b ==> name_lt(a, b) || name_lt(b, a),
        name_lt(a, b) ==> !name_lt(b, a),
{
    lemma_lt_from_irreflexive(a, 0);
    if name_lt(a, b) && name_lt(b, c) {
        lemma_lt_from_transitive(a, b, c, 0);
    }
    if a != b && !name_lt(a, b) && !name_lt(b, a) {
        assert(a.subrange(0, 0) =~= b.subrange(0, 0));
        lemma_lt_from_total(a, b, 0);
    }
    if name_lt(a, b) && name_lt(b, a) {
        lemma_lt_from_transitive(a, b, a, 0);
    }
}

/// Ids are deterministic: two registries whose sorted names hold the same names, whatever
/// order they were registered in, are the same sequence, so every name gets the same id.
pub proof fn lemma_same_names_same_ids(a: Seq<Seq<u8>>, b: Seq<Seq<u8>>)
    requires
        strictly_sorted(a),
        strictly_sorted(b),
        forall|x: Seq<u8>| a.contains(x) <==> b.contains(x),
    ensures
        a == b,
    decreases a.len(),
{
    if a.len() == 0 {
        if b.len() > 0 {
            assert(b.contains(b[0]));
        }
        assert(a =~= b);
    } else {
        assert(a.contains(a[0]));
        assert(b.len() > 0);
        assert(b.contains(b[0]));
        let ja = choose|j: int| 0 <= j < b.len() && b[j] == a[0];
        let jb = choose|j: int| 0 <= j < a.len() && a[j] == b[0];
        if a[0] != b[0] {
            assert(ja > 0 && jb > 0);
            assert(name_lt(b[0], b[ja]));
            assert(name_lt(a[0], a[jb]));
            lemma_name_order(a[0], b[0], a[0]);
        }
        let a2 = a.drop_first();
        let b2 = b.drop_first();
        assert forall|x: Seq<u8>| a2.contains(x) <==> b2.contains(x) by {
            if a2.contains(x) {
                let i = choose|i: int| 0 <= i < a2.len() && a2[i] == x;
                assert(name_lt(a[0], a[i + 1]));
                lemma_name_order(a[0], a[0], a[0]);
                assert(a.contains(x));
                let j = choose|j: int| 0 <= j < b.len() && b[j] == x;
                assert(j != 0);
                assert(b2[j - 1] == x);
            }
            if b2.contains(x) {
                let i = choose|i: int| 0 <= i < b2.len() && b2[i] == x;
                assert(name_lt(b[0], b[i + 1]));
                lemma_name_order(b[0], b[0], b[0]);
                assert(b.contains(x));
                let j = choose|j: int| 0 <= j < a.len() && a[j] == x;
                assert(j != 0);
                assert(a2[j - 1] == x);
            }
        }
        assert(strictly_sorted(a2)) by {
            assert forall|i: int, j: int| 0 <= i < j < a2.len() implies name_lt(#[trigger] a2[i], #[trigger] a2[j]) by {
                assert(a2[i] == a[i + 1] && a2[j] == a[j + 1]);
            }
        }
        assert(strictly_sorted(b2)) by {
            assert forall|i: int, j: int| 0 <= i < j < b2.len() implies name_lt(#[trigger] b2[i], #[trigger] b2[j]) by {
                assert(b2[i] == b[i + 1] && b2[j] == b[j + 1]);
            }
        }
        lemma_same_names_same_ids(a2, b2);
        assert(a =~= seq![a[0]] + a2);
        assert(b =~= seq![b[0]] + b2);
    }
}

/// In a sorted registry a name stands at one position only, so looking up its id gives the
/// same answer every time.
pub proof fn lemma_id_unique(names: Seq<Seq<u8>>, i: int, j: int)
    requires
        strictly_sorted(names),
        0 <= i < names.len(),
        0 <= j < names.len(),
        names[i] == names[j],
    ensures
        i == j,
{
    if i < j {
        lemma_name_order(names[i], names[i], names[i]);
        assert(name_lt(names[i], names[j]));
    } else if j < i {
        lemma_name_order(names[j], names[j], names[j]);
        assert(name_lt(names[j], names[i]));
    }
}

/// Whether `a` sorts strictly before `b`.
fn name_less(a: &[u8], b: &[u8]) -> (r: bool)
    ensures
        r == name_lt(a@, b@),
{
    let mut i: usize = 0;
    while i < a.len() && i < b.len() && a[i] == b[i]
        invariant
            i <= a@.len(),
            i <= b@.len(),
            name_lt_from(a@, b@, 0) == name_lt_from(a@, b@, i as int),
        decreases a.len() - i,
    {
        i += 1;
    }
    if i < a.len() && i < b.len() {
        a[i] < b[i]
    } else {
        i >= a.len() && i < b.len()
    }
}

/// One of the first `k` names of `names` is `x`.
pub open spec fn named_in(names: Seq<&str>, k: int, x: Seq<u8>) -> bool {
    exists|i: int| 0 <= i < k && i < names.len() && (#[trigger] names[i]).spec_bytes() == x
}

spec fn byte_names(v: Seq<Vec<u8>>) -> Seq<Seq<u8>> {
    v.map_values(|n: Vec<u8>| n@)
}

/// Why a type id cannot be had.
#[derive(PartialEq, Eq, Structural, Clone, Copy, Debug)]
pub enum RegistryError {
    /// No type of that name was registered.
    NotRegistered,
}

/// The registered type names, sorted. A type's id is the position of its name, so ids form
/// the range `0..len` and depend only on the set of names, not on the order of registration.
pub struct TypeRegistry {
    names: Vec<Vec<u8>>,
}

impl View for TypeRegistry {
    type V = Seq<Seq<u8>>;

    closed spec fn view(&self) -> Seq<Seq<u8>> {
        byte_names(self.names@)
    }
}

impl TypeRegistry {
    /// The registry of the types named in `names`, in any order; a name given twice names
    /// one type.
    pub fn from_names(names: &Vec<&str>) -> (r: TypeRegistry)
        ensures
            strictly_sorted(r@),
            forall|x: Seq<u8>| #[trigger] r@.contains(x) <==> named_in(names@, names@.len() as int, x),
    {
        let mut sorted: Vec<Vec<u8>> = Vec::new();
        let mut k: usize = 0;
        while k < names.len()
            invariant
                k <= names@.len(),
                strictly_sorted(byte_names(sorted@)),
                forall|x: Seq<u8>| #[trigger] byte_names(sorted@).contains(x) <==> named_in(names@, k as int, x),
            decreases names.len() - k,
        {
            let ghost before = byte_names(sorted@);
            let name: &[u8] = names[k].as_bytes();
            let ghost x = name@;
            assert(x == names@[k as int].spec_bytes());
            // The first position whose name does not sort before `name`.
            let mut p: usize = 0;
            while p < sorted.len() && name_less(sorted[p].as_slice(), name)
                invariant
                    p <= sorted@.len(),
                    before == byte_names(sorted@),
                    name@ == x,
                    forall|q: int| 0 <= q < p ==> name_lt(#[trigger] before[q], x),
                decreases sorted.len() - p,
            {
                assert(before[p as int] == sorted@[p as int]@);
                p += 1;
            }
            let present = p < sorted.len() && !name_less(name, sorted[p].as_slice());
            proof {
                if p < sorted@.len() {
                    assert(before[p as int] == sorted@[p as int]@);
                    lemma_name_order(before[p as int], x, x);
                    lemma_name_order(x, before[p as int], x);
                }
            }
            if !present {
                let v = slice_to_vec(name);
                sorted.insert(p, v);
                proof {
                    let after = byte_names(sorted@);
                    assert(after =~= before.insert(p as int, x));
                    assert forall|i: int, j: int| 0 <= i < j < after.len() implies name_lt(
                        #[trigger] after[i],
                        #[trigger] after[j],
                    ) by {
                        if j < p {
                        } else if j == p {
                            assert(after[i] == before[i]);
                        } else if i == p {
                            assert(after[j] == before[j - 1]);
                            lemma_name_order(x, before[p as int], before[j - 1]);
                            if j - 1 > p {
                                assert(name_lt(before[p as int], before[j - 1]));
                            }
                        } else if i < p {
                            assert(after[i] == before[i]);
                            assert(after[j] == before[j - 1]);
                        } else {
                            assert(after[i] == before[i - 1]);
                            assert(after[j] == before[j - 1]);
                        }
                    }
                    assert forall|y: Seq<u8>| #[trigger] after.contains(y) <==> named_in(names@, k + 1, y) by {
                        if after.contains(y) {
                            let q = choose|q: int| 0 <= q < after.len() && after[q] == y;
                            if q < p {
                                assert(before[q] == y);
                                assert(before.contains(y));
                            } else if q > p {
                                assert(before[q - 1] == y);
                                assert(before.contains(y));
                            } else {
                                assert(names@[k as int].spec_bytes() == y);
                            }
                        }
                        if named_in(names@, k + 1, y) {
                            if y != x {
                                let i = choose|i: int| 0 <= i < k + 1 && i < names@.len() && (#[trigger] names@[i]).spec_bytes() == y;
                                assert(named_in(names@, k as int, y));
                                assert(before.contains(y));
                                let q = choose|q: int| 0 <= q < before.len() && before[q] == y;
                                if q < p {
                                    assert(after[q] == y);
                                } else {
                                    assert(after[q + 1] == y);
                                }
                            } else {
                                assert(after[p as int] == y);
                            }
                        }
                    }
                }
            } else {
                proof {
                    assert(before[p as int] == x);
                    assert forall|y: Seq<u8>| #[trigger] before.contains(y) <==> named_in(names@, k + 1, y) by {
                        if named_in(names@, k + 1, y) {
                            if y == x {
                                assert(before[p as int] == y);
                            } else {
                                let i = choose|i: int| 0 <= i < k + 1 && i < names@.len() && (#[trigger] names@[i]).spec_bytes() == y;
                                assert(named_in(names@, k as int, y));
                            }
                        }
                        if before.contains(y) {
                            assert(named_in(names@, k as int, y));
                            let i = choose|i: int| 0 <= i < k && i < names@.len() && (#[trigger] names@[i]).spec_bytes() == y;
                            assert(named_in(names@, k + 1, y));
                        }
                    }
                }
            }
            k += 1;
        }
        let r = TypeRegistry { names: sorted };
        assert(r@ == byte_names(sorted@));
        r
    }

    /// The id of the type named `name`: the position of the name in sorted order.
    pub fn id_of(&self, name: &str) -> (r: Result<usize, RegistryError>)
        requires
            strictly_sorted(self@),
        ensures
            match r {
                Ok(i) => i < self@.len() && self@[i as int] == name.spec_bytes(),
                Err(e) => e == RegistryError::NotRegistered && !self@.contains(name.spec_bytes()),
            },
    {
        let x: &[u8] = name.as_bytes();
        let mut i: usize = 0;
        while i < self.names.len()
            invariant
                x@ == name.spec_bytes(),
                i <= self@.len(),
                self@.len() == self.names@.len(),
                forall|q: int| 0 <= q < i ==> #[trigger] self@[q] != x@,
            decreases self.names.len() - i,
        {
            let n = self.names[i].as_slice();
            assert(n@ == self@[i as int]);
            if !name_less(n, x) && !name_less(x, n) {
                proof {
                    lemma_name_order(n@, x@, x@);
                    assert(n@ == x@);
                    assert(x@ == name.spec_bytes());
                }
                return Ok(i);
            }
            proof {
                lemma_name_order(n@, n@, n@);
                lemma_name_order(x@, x@, x@);
            }
            i += 1;
        }
        Err(RegistryError::NotRegistered)
    }

    /// The number of registered types.
    pub fn len(&self) -> (r: usize)
        ensures
            r == self@.len(),
    {
        self.names.len()
    }
}

} // verus!

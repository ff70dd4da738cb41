use vstd::prelude::*;

verus! {

/// True when some element of `a` also occurs in `b`.
pub open spec fn shares_id(a: Seq<usize>, b: Seq<usize>) -> bool {
    exists|i: int| 0 <= i < a.len() && #[trigger] b.contains(a[i])
}

/// Two footprints conflict when one writes what the other reads or writes.
pub open spec fn footprints_overlap(
    read_a: Seq<usize>,
    write_a: Seq<usize>,
    read_b: Seq<usize>,
    write_b: Seq<usize>,
) -> bool {
    shares_id(read_a, write_b) || shares_id(write_a, read_b) || shares_id(write_a, write_b)
}

proof fn lemma_shares_id_symmetric(a: Seq<usize>, b: Seq<usize>)
    ensures
        shares_id(a, b) == shares_id(b, a),
{
    if shares_id(a, b) {
        let i = choose|i: int| 0 <= i < a.len() && #[trigger] b.contains(a[i]);
        let j = choose|j: int| 0 <= j < b.len() && b[j] == a[i];
        assert(a.contains(b[j]));
    }
    if shares_id(b, a) {
        let i = choose|i: int| 0 <= i < b.len() && #[trigger] a.contains(b[i]);
        let j = choose|j: int| 0 <= j < a.len() && a[j] == b[i];
        assert(b.contains(a[j]));
    }
}

/// Overlap is symmetric, and two footprints that only read never overlap.
pub proof fn lemma_overlap_symmetric(
    read_a: Seq<usize>,
    write_a: Seq<usize>,
    read_b: Seq<usize>,
    write_b: Seq<usize>,
)
    ensures
        footprints_overlap(read_a, write_a, read_b, write_b) == footprints_overlap(
            read_b,
            write_b,
            read_a,
            write_a,
        ),
        write_a.len() == 0 && write_b.len() == 0 ==> !footprints_overlap(
            read_a,
            write_a,
            read_b,
            write_b,
        ),
{
    lemma_shares_id_symmetric(read_a, write_b);
    lemma_shares_id_symmetric(write_a, read_b);
    lemma_shares_id_symmetric(write_a, write_b);
}

/// Linear membership test on a slice of ids.
pub(crate) fn slice_contains(s: &[usize], x: usize) -> (r: bool)
    ensures
        r == s@.contains(x),
{
    let mut i: usize = 0;
    while i < s.len()
        invariant
            i <= s.len(),
            forall|j: int| 0 <= j < i ==> s@[j] != x,
        decreases s.len() - i,
    {
        if s[i] == x {
            return true;
        }
        i += 1;
    }
    false
}

/// Whether some id of `a` occurs in `b`.
pub(crate) fn slice_shares_id(a: &[usize], b: &[usize]) -> (r: bool)
    ensures
        r == shares_id(a@, b@),
{
    let mut i: usize = 0;
    while i < a.len()
        invariant
            i <= a.len(),
            forall|j: int| 0 <= j < i ==> !b@.contains(#[trigger] a@[j]),
        decreases a.len() - i,
    {
        if slice_contains(b, a[i]) {
            return true;
        }
        i += 1;
    }
    false
}

/// The component ids a system reads and the ones it writes.
pub struct ComponentAccess {
    pub read: &'static [usize],
    pub write: &'static [usize],
}

impl ComponentAccess {
    /// Whether running `self` and `other` at once could race on a component.
    pub fn overlaps(&self, other: &ComponentAccess) -> (r: bool)
        ensures
            r == footprints_overlap(self.read@, self.write@, other.read@, other.write@),
    {
        slice_shares_id(self.read, other.write) || slice_shares_id(self.write, other.read)
            || slice_shares_id(self.write, other.write)
    }
}

/// The resource ids a system reads and the ones it writes.
pub struct ResourceAccess {
    pub read: &'static [usize],
    pub write: &'static [usize],
}

impl ResourceAccess {
    /// Whether running `self` and `other` at once could race on a resource.
    pub fn overlaps(&self, other: &ResourceAccess) -> (r: bool)
        ensures
            r == footprints_overlap(self.read@, self.write@, other.read@, other.write@),
    {
        slice_shares_id(self.read, other.write) || slice_shares_id(self.write, other.read)
            || slice_shares_id(self.write, other.write)
    }
}

/// The full footprint of one system: what it reads and writes among components and
/// among resources, and whether it needs the world to itself.
pub struct SystemAccess {
    pub component_read: Vec<usize>,
    pub component_write: Vec<usize>,
    pub resource_read: Vec<usize>,
    pub resource_write: Vec<usize>,
    pub runs_alone: bool,
}

/// Whether two systems with these footprints may not share a parallel group.
pub open spec fn systems_conflict(a: SystemAccess, b: SystemAccess) -> bool {
    footprints_overlap(a.component_read@, a.component_write@, b.component_read@, b.component_write@)
        || footprints_overlap(a.resource_read@, a.resource_write@, b.resource_read@, b.resource_write@)
}

impl SystemAccess {
    /// Whether `self` and `other` touch some component or resource in a conflicting way.
    /// Running alone is the scheduler's concern and is not looked at here.
    pub fn overlaps(&self, other: &SystemAccess) -> (r: bool)
        ensures
            r == systems_conflict(*self, *other),
    {
        let c = slice_shares_id(self.component_read.as_slice(), other.component_write.as_slice())
            || slice_shares_id(self.component_write.as_slice(), other.component_read.as_slice())
            || slice_shares_id(self.component_write.as_slice(), other.component_write.as_slice());
        c || slice_shares_id(self.resource_read.as_slice(), other.resource_write.as_slice())
            || slice_shares_id(self.resource_write.as_slice(), other.resource_read.as_slice())
            || slice_shares_id(self.resource_write.as_slice(), other.resource_write.as_slice())
    }
}

} // verus!

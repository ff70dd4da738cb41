use vstd::prelude::*;

use crate::access::{slice_contains, SystemAccess};

verus! {

/// How a system borrows one piece of data.
#[derive(PartialEq, Eq, Structural, Clone, Copy, Debug)]
pub enum AccessMode {
    Shared,
    Exclusive,
}

/// One item of a system's parameter list.
#[derive(PartialEq, Eq, Structural, Clone, Copy, Debug)]
pub enum Request {
    /// A component type, by registry id, borrowed through a query.
    Component(usize, AccessMode),
    /// A resource type, by registry id.
    Resource(usize, AccessMode),
    /// The command capability: structural changes to the world.
    Commands,
}

/// Why a parameter list cannot be accepted.
#[derive(PartialEq, Eq, Structural, Clone, Copy, Debug)]
pub enum DeclareError {
    /// The component is requested exclusively twice, or both shared and exclusively.
    ComponentConflict(usize),
    /// The resource is requested exclusively twice, or both shared and exclusively.
    ResourceConflict(usize),
    /// The command capability is requested more than once.
    RepeatedCommands,
}

/// Whether two requests would alias each other's data.
pub open spec fn clash(a: Request, b: Request) -> bool {
    match (a, b) {
        (Request::Commands, Request::Commands) => true,
        (Request::Component(x, ma), Request::Component(y, mb)) => x == y && (ma
            == AccessMode::Exclusive || mb == AccessMode::Exclusive),
        (Request::Resource(x, ma), Request::Resource(y, mb)) => x == y && (ma
            == AccessMode::Exclusive || mb == AccessMode::Exclusive),
        _ => false,
    }
}

/// Request `k` clashes with one made before it.
pub open spec fn clashes_earlier(reqs: Seq<Request>, k: int) -> bool {
    exists|j: int| 0 <= j < k && #[trigger] clash(reqs[j], reqs[k])
}

/// The position of the first request that clashes with an earlier one, if any.
pub open spec fn first_clash(reqs: Seq<Request>) -> Option<int>
    decreases reqs.len(),
{
    if reqs.len() == 0 {
        None
    } else {
        match first_clash(reqs.drop_last()) {
            Some(k) => Some(k),
            None => if clashes_earlier(reqs, reqs.len() - 1) {
                Some(reqs.len() - 1)
            } else {
                None
            },
        }
    }
}

proof fn lemma_first_clash_in_range(reqs: Seq<Request>)
    ensures
        first_clash(reqs) matches Some(k) ==> 0 <= k < reqs.len(),
    decreases reqs.len(),
{
    if reqs.len() > 0 {
        lemma_first_clash_in_range(reqs.drop_last());
    }
}

/// The error that reports a clashing request.
pub open spec fn error_for(r: Request) -> DeclareError {
    match r {
        Request::Component(id, _) => DeclareError::ComponentConflict(id),
        Request::Resource(id, _) => DeclareError::ResourceConflict(id),
        Request::Commands => DeclareError::RepeatedCommands,
    }
}

/// The distinct ids of the component requests (the resource requests when `component` is
/// false) made in `mode`, in order of first request.
pub open spec fn requested_ids(reqs: Seq<Request>, component: bool, mode: AccessMode) -> Seq<usize>
    decreases reqs.len(),
{
    if reqs.len() == 0 {
        Seq::empty()
    } else {
        let before = requested_ids(reqs.drop_last(), component, mode);
        match request_id(reqs.last(), component, mode) {
            Some(id) => if before.contains(id) {
                before
            } else {
                before.push(id)
            },
            None => before,
        }
    }
}

/// The id of `r` when it is a component request (or a resource request) in `mode`.
pub open spec fn request_id(r: Request, component: bool, mode: AccessMode) -> Option<usize> {
    match r {
        Request::Component(id, m) => if component && m == mode {
            Some(id)
        } else {
            None
        },
        Request::Resource(id, m) => if !component && m == mode {
            Some(id)
        } else {
            None
        },
        Request::Commands => None,
    }
}

/// The footprint that an accepted parameter list declares.
pub open spec fn declared_access(a: SystemAccess, reqs: Seq<Request>) -> bool {
    &&& a.component_read@ == requested_ids(reqs, true, AccessMode::Shared)
    &&& a.component_write@ == requested_ids(reqs, true, AccessMode::Exclusive)
    &&& a.resource_read@ == requested_ids(reqs, false, AccessMode::Shared)
    &&& a.resource_write@ == requested_ids(reqs, false, AccessMode::Exclusive)
    &&& a.runs_alone == reqs.contains(Request::Commands)
}

proof fn lemma_requested_ids_members(reqs: Seq<Request>, component: bool, mode: AccessMode)
    ensures
        forall|x: usize|
            requested_ids(reqs, component, mode).contains(x) <==> exists|j: int|
                0 <= j < reqs.len() && request_id(#[trigger] reqs[j], component, mode) == Some(x),
        requested_ids(reqs, component, mode).no_duplicates(),
    decreases reqs.len(),
{
    if reqs.len() > 0 {
        let pre = reqs.drop_last();
        let before = requested_ids(pre, component, mode);
        let now = requested_ids(reqs, component, mode);
        let last = reqs.len() - 1;
        lemma_requested_ids_members(pre, component, mode);
        assert(reqs[last] == reqs.last());
        assert forall|x: usize|
            now.contains(x) <==> exists|j: int|
                0 <= j < reqs.len() && request_id(#[trigger] reqs[j], component, mode) == Some(
                    x,
                ) by {
            if now.contains(x) {
                if before.contains(x) {
                    let j = choose|j: int|
                        0 <= j < pre.len() && request_id(#[trigger] pre[j], component, mode)
                            == Some(x);
                    assert(reqs[j] == pre[j]);
                } else {
                    assert(request_id(reqs[last], component, mode) == Some(x));
                }
            }
            if exists|j: int|
                0 <= j < reqs.len() && request_id(#[trigger] reqs[j], component, mode) == Some(
                    x,
                ) {
                let j = choose|j: int|
                    0 <= j < reqs.len() && request_id(#[trigger] reqs[j], component, mode)
                        == Some(x);
                if j < last {
                    assert(pre[j] == reqs[j]);
                    assert(before.contains(x));
                    if now != before {
                        assert(now[before.index_of(x)] == x);
                    }
                } else {
                    if before.contains(x) {
                        assert(now == before);
                    } else {
                        assert(now[before.len() as int] == x);
                    }
                }
            }
        }
    }
}

/// Collects a system's parameter list and turns it into a footprint.
pub struct AccessBuilder {
    requests: Vec<Request>,
}

impl View for AccessBuilder {
    type V = Seq<Request>;

    closed spec fn view(&self) -> Seq<Request> {
        self.requests@
    }
}

impl AccessBuilder {
    pub fn new() -> (r: AccessBuilder)
        ensures
            r@ == Seq::<Request>::empty(),
    {
        AccessBuilder { requests: Vec::new() }
    }

    /// Adds one parameter at the end of the list.
    pub fn request(&mut self, r: Request)
        ensures
            final(self)@ == old(self)@.push(r),
    {
        self.requests.push(r);
    }

    /// The footprint of the list, or the error for its first request that would alias an
    /// earlier one.
    pub fn build(&self) -> (r: Result<SystemAccess, DeclareError>)
        ensures
            match first_clash(self@) {
                Some(k) => 0 <= k < self@.len() && r == Err::<SystemAccess, DeclareError>(
                    error_for(self@[k]),
                ),
                None => r is Ok && declared_access(r->Ok_0, self@),
            },
    {
        proof {
            lemma_first_clash_in_range(self@);
        }
        let reqs = &self.requests;
        let mut c_read: Vec<usize> = Vec::new();
        let mut c_write: Vec<usize> = Vec::new();
        let mut r_read: Vec<usize> = Vec::new();
        let mut r_write: Vec<usize> = Vec::new();
        let mut alone = false;
        let mut k: usize = 0;
        while k < reqs.len()
            invariant
                reqs@ == self@,
                k <= reqs.len(),
                first_clash(reqs@.subrange(0, k as int)) is None,
                c_read@ == requested_ids(reqs@.subrange(0, k as int), true, AccessMode::Shared),
                c_write@ == requested_ids(reqs@.subrange(0, k as int), true, AccessMode::Exclusive),
                r_read@ == requested_ids(reqs@.subrange(0, k as int), false, AccessMode::Shared),
                r_write@ == requested_ids(reqs@.subrange(0, k as int), false, AccessMode::Exclusive),
                alone == reqs@.subrange(0, k as int).contains(Request::Commands),
            decreases reqs.len() - k,
        {
            let pre = Ghost(reqs@.subrange(0, k as int));
            let cur = Ghost(reqs@.subrange(0, k + 1));
            proof {
                assert(cur@.drop_last() =~= pre@);
                assert(cur@.last() == reqs@[k as int]);
                lemma_requested_ids_members(pre@, true, AccessMode::Shared);
                lemma_requested_ids_members(pre@, true, AccessMode::Exclusive);
                lemma_requested_ids_members(pre@, false, AccessMode::Shared);
                lemma_requested_ids_members(pre@, false, AccessMode::Exclusive);
            }
            let r = reqs[k];
            let bad = match r {
                Request::Component(id, m) => {
                    slice_contains(c_write.as_slice(), id) || (m == AccessMode::Exclusive
                        && slice_contains(c_read.as_slice(), id))
                },
                Request::Resource(id, m) => {
                    slice_contains(r_write.as_slice(), id) || (m == AccessMode::Exclusive
                        && slice_contains(r_read.as_slice(), id))
                },
                Request::Commands => alone,
            };
            proof {
                if bad {
                    assert(clashes_earlier(cur@, k as int)) by {
                        match r {
                            Request::Component(id, m) => {
                                let j = if c_write@.contains(id) {
                                    choose|j: int|
                                        0 <= j < pre@.len() && request_id(
                                            #[trigger] pre@[j],
                                            true,
                                            AccessMode::Exclusive,
                                        ) == Some(id)
                                } else {
                                    choose|j: int|
                                        0 <= j < pre@.len() && request_id(
                                            #[trigger] pre@[j],
                                            true,
                                            AccessMode::Shared,
                                        ) == Some(id)
                                };
                                assert(clash(cur@[j], cur@[k as int]));
                            },
                            Request::Resource(id, m) => {
                                let j = if r_write@.contains(id) {
                                    choose|j: int|
                                        0 <= j < pre@.len() && request_id(
                                            #[trigger] pre@[j],
                                            false,
                                            AccessMode::Exclusive,
                                        ) == Some(id)
                                } else {
                                    choose|j: int|
                                        0 <= j < pre@.len() && request_id(
                                            #[trigger] pre@[j],
                                            false,
                                            AccessMode::Shared,
                                        ) == Some(id)
                                };
                                assert(clash(cur@[j], cur@[k as int]));
                            },
                            Request::Commands => {
                                let j = choose|j: int|
                                    0 <= j < pre@.len() && pre@[j] == Request::Commands;
                                assert(clash(cur@[j], cur@[k as int]));
                            },
                        }
                    }
                    assert(first_clash(cur@) == Some(k as int));
                    assert(first_clash(reqs@) == Some(k as int)) by {
                        lemma_first_clash_prefix(reqs@, k as int + 1);
                    }
                } else {
                    assert(!clashes_earlier(cur@, k as int)) by {
                        if clashes_earlier(cur@, k as int) {
                            let j = choose|j: int|
                                0 <= j < k && #[trigger] clash(cur@[j], cur@[k as int]);
                            assert(pre@[j] == cur@[j]);
                            match cur@[j] {
                                Request::Component(_, mj) => {
                                    assert(request_id(pre@[j], true, mj) is Some);
                                },
                                Request::Resource(_, mj) => {
                                    assert(request_id(pre@[j], false, mj) is Some);
                                },
                                Request::Commands => {
                                    assert(pre@.contains(cur@[j]));
                                },
                            }
                        }
                    }
                }
            }
            if bad {
                let e = match r {
                    Request::Component(id, _) => DeclareError::ComponentConflict(id),
                    Request::Resource(id, _) => DeclareError::ResourceConflict(id),
                    Request::Commands => DeclareError::RepeatedCommands,
                };
                return Err(e);
            }
            match r {
                Request::Component(id, AccessMode::Shared) => {
                    if !slice_contains(c_read.as_slice(), id) {
                        c_read.push(id);
                    }
                },
                Request::Component(id, AccessMode::Exclusive) => {
                    c_write.push(id);
                },
                Request::Resource(id, AccessMode::Shared) => {
                    if !slice_contains(r_read.as_slice(), id) {
                        r_read.push(id);
                    }
                },
                Request::Resource(id, AccessMode::Exclusive) => {
                    r_write.push(id);
                },
                Request::Commands => {
                    alone = true;
                },
            }
            proof {
                assert(cur@.contains(Request::Commands) == (pre@.contains(Request::Commands)
                    || reqs@[k as int] == Request::Commands)) by {
                    if cur@.contains(Request::Commands) {
                        let j = choose|j: int| 0 <= j < cur@.len() && cur@[j] == Request::Commands;
                        if j < k {
                            assert(pre@[j] == cur@[j]);
                        }
                    }
                    if pre@.contains(Request::Commands) {
                        let j = choose|j: int| 0 <= j < pre@.len() && pre@[j] == Request::Commands;
                        assert(cur@[j] == pre@[j]);
                    }
                }
            }
            k += 1;
        }
        assert(reqs@.subrange(0, reqs.len() as int) =~= reqs@);
        Ok(
            SystemAccess {
                component_read: c_read,
                component_write: c_write,
                resource_read: r_read,
                resource_write: r_write,
                runs_alone: alone,
            },
        )
    }
}

/// A clash found in a prefix is the first clash of the whole list.
proof fn lemma_first_clash_prefix(reqs: Seq<Request>, n: int)
    requires
        0 <= n <= reqs.len(),
        first_clash(reqs.subrange(0, n)) is Some,
    ensures
        first_clash(reqs) == first_clash(reqs.subrange(0, n)),
    decreases reqs.len() - n,
{
    if n < reqs.len() {
        let next = reqs.subrange(0, n + 1);
        assert(next.drop_last() =~= reqs.subrange(0, n));
        lemma_first_clash_prefix(reqs, n + 1);
    } else {
        assert(reqs.subrange(0, n) =~= reqs);
    }
}

} // verus!

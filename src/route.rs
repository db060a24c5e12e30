use vstd::prelude::*;

verus! {

/// Kind of path that reaches a destination.
#[derive(Clone, Copy, Debug, PartialEq, Eq, Structural)]
pub enum PathType {
    IntraArea,
    InterArea,
    Type1External,
    Type2External,
}

/// One routing table entry, for the network `prefix/prefix_len`.
#[derive(Debug)]
pub struct RouteNet {
    pub prefix: u32,
    pub prefix_len: u8,
    pub path_type: PathType,
    pub cost: u32,
    /// Next-hop addresses, in order of preference.
    pub nexthops: Vec<u32>,
    /// Whether the route was handed to the forwarding plane.
    pub installed: bool,
}

/// Mathematical value of a route.
pub struct RouteModel {
    pub prefix: u32,
    pub prefix_len: u8,
    pub path_type: PathType,
    pub cost: u32,
    pub nexthops: Seq<u32>,
    pub installed: bool,
}

impl View for RouteNet {
    type V = RouteModel;

    open spec fn view(&self) -> RouteModel {
        RouteModel {
            prefix: self.prefix,
            prefix_len: self.prefix_len,
            path_type: self.path_type,
            cost: self.cost,
            nexthops: self.nexthops@,
            installed: self.installed,
        }
    }
}

pub open spec fn routes_view(s: Seq<RouteNet>) -> Seq<RouteModel> {
    s.map_values(|r: RouteNet| r@)
}

pub open spec fn same_dest(a: RouteModel, b: RouteModel) -> bool {
    a.prefix == b.prefix && a.prefix_len == b.prefix_len
}

/// Two routes to one destination that the forwarding plane sees alike.
pub open spec fn same_route(a: RouteModel, b: RouteModel) -> bool {
    &&& same_dest(a, b)
    &&& a.path_type == b.path_type
    &&& a.cost == b.cost
    &&& a.nexthops == b.nexthops
}

pub open spec fn has_same_route(s: Seq<RouteModel>, r: RouteModel) -> bool {
    exists|i: int| 0 <= i < s.len() && same_route(#[trigger] s[i], r)
}

pub open spec fn has_dest(s: Seq<RouteModel>, r: RouteModel) -> bool {
    exists|i: int| 0 <= i < s.len() && same_dest(#[trigger] s[i], r)
}

/// No two routes of `s` reach the same destination.
pub open spec fn unique_dests(s: Seq<RouteModel>) -> bool {
    forall|i: int, j: int| 0 <= i < j < s.len() ==> !same_dest(#[trigger] s[i], #[trigger] s[j])
}

/// Whether no two routes of `s` reach the same destination.
pub fn dests_unique(s: &Vec<RouteNet>) -> (r: bool)
    ensures
        r == unique_dests(routes_view(s@)),
{
    let ghost v = routes_view(s@);
    let mut i: usize = 0;
    while i < s.len()
        invariant
            i <= s@.len(),
            v == routes_view(s@),
            forall|a: int, b: int| 0 <= a < i && a < b < s@.len() ==> !same_dest(#[trigger] v[a], #[trigger] v[b]),
        decreases s@.len() - i,
    {
        let mut j: usize = i + 1;
        while j < s.len()
            invariant
                i < s@.len(),
                i + 1 <= j <= s@.len(),
                v == routes_view(s@),
                forall|a: int, b: int| 0 <= a < i && a < b < s@.len() ==> !same_dest(#[trigger] v[a], #[trigger] v[b]),
                forall|b: int| i < b < j ==> !same_dest(v[i as int], #[trigger] v[b]),
            decreases s@.len() - j,
        {
            if s[i].prefix == s[j].prefix && s[i].prefix_len == s[j].prefix_len {
                assert(same_dest(v[i as int], v[j as int]));
                return false;
            }
            j += 1;
        }
        i += 1;
    }
    true
}

/// Routes of `new` to install: those that `old` does not already hold.
pub open spec fn route_installs(old: Seq<RouteModel>, new: Seq<RouteModel>) -> Seq<RouteModel>
    decreases new.len(),
{
    if new.len() == 0 {
        Seq::empty()
    } else {
        let p = route_installs(old, new.drop_last());
        if has_same_route(old, new.last()) {
            p
        } else {
            p.push(new.last())
        }
    }
}

/// Installed routes of `old` whose destination `new` no longer reaches.
pub open spec fn route_uninstalls(old: Seq<RouteModel>, new: Seq<RouteModel>) -> Seq<RouteModel>
    decreases old.len(),
{
    if old.len() == 0 {
        Seq::empty()
    } else {
        let p = route_uninstalls(old.drop_last(), new);
        if old.last().installed && !has_dest(new, old.last()) {
            p.push(old.last())
        } else {
            p
        }
    }
}

/// Every installed route of `s`.
pub open spec fn installed_routes(s: Seq<RouteModel>) -> Seq<RouteModel>
    decreases s.len(),
{
    if s.len() == 0 {
        Seq::empty()
    } else {
        let p = installed_routes(s.drop_last());
        if s.last().installed {
            p.push(s.last())
        } else {
            p
        }
    }
}

impl RouteNet {
    /// A copy of the route.
    pub fn copy(&self) -> (r: RouteNet)
        ensures
            r@ == self@,
    {
        let mut nexthops: Vec<u32> = Vec::new();
        let mut i: usize = 0;
        while i < self.nexthops.len()
            invariant
                i <= self.nexthops@.len(),
                nexthops@ == self.nexthops@.subrange(0, i as int),
            decreases self.nexthops@.len() - i,
        {
            nexthops.push(self.nexthops[i]);
            i += 1;
            assert(nexthops@ =~= self.nexthops@.subrange(0, i as int));
        }
        assert(nexthops@ =~= self.nexthops@);
        RouteNet {
            prefix: self.prefix,
            prefix_len: self.prefix_len,
            path_type: self.path_type,
            cost: self.cost,
            nexthops,
            installed: self.installed,
        }
    }

    /// Whether both routes reach one destination the same way.
    pub fn same_as(&self, other: &RouteNet) -> (r: bool)
        ensures
            r == same_route(self@, other@),
    {
        if self.prefix != other.prefix || self.prefix_len != other.prefix_len
            || self.path_type != other.path_type || self.cost != other.cost
            || self.nexthops.len() != other.nexthops.len() {
            assert(self.nexthops@.len() != other.nexthops@.len() ==> self.nexthops@ != other.nexthops@);
            return false;
        }
        let mut i: usize = 0;
        while i < self.nexthops.len()
            invariant
                i <= self.nexthops@.len(),
                self.nexthops@.len() == other.nexthops@.len(),
                forall|j: int| 0 <= j < i ==> self.nexthops@[j] == other.nexthops@[j],
            decreases self.nexthops@.len() - i,
        {
            if self.nexthops[i] != other.nexthops[i] {
                return false;
            }
            i += 1;
        }
        assert(self.nexthops@ =~= other.nexthops@);
        true
    }
}

fn contains_same(s: &Vec<RouteNet>, r: &RouteNet) -> (b: bool)
    ensures
        b == has_same_route(routes_view(s@), r@),
{
    let mut i: usize = 0;
    while i < s.len()
        invariant
            i <= s@.len(),
            forall|j: int| 0 <= j < i ==> !same_route(#[trigger] routes_view(s@)[j], r@),
        decreases s@.len() - i,
    {
        if s[i].same_as(r) {
            assert(same_route(routes_view(s@)[i as int], r@));
            return true;
        }
        i += 1;
    }
    false
}

fn contains_dest(s: &Vec<RouteNet>, r: &RouteNet) -> (b: bool)
    ensures
        b == has_dest(routes_view(s@), r@),
{
    let mut i: usize = 0;
    while i < s.len()
        invariant
            i <= s@.len(),
            forall|j: int| 0 <= j < i ==> !same_dest(#[trigger] routes_view(s@)[j], r@),
        decreases s@.len() - i,
    {
        if s[i].prefix == r.prefix && s[i].prefix_len == r.prefix_len {
            assert(same_dest(routes_view(s@)[i as int], r@));
            return true;
        }
        i += 1;
    }
    false
}

/// The changes that take the forwarding plane from `old` to `new`: the
/// routes to install and the routes to uninstall, nothing for a route that
/// stays as it was.
pub fn route_delta(old: &Vec<RouteNet>, new: &Vec<RouteNet>) -> (r: (Vec<RouteNet>, Vec<RouteNet>))
    ensures
        routes_view(r.0@) == route_installs(routes_view(old@), routes_view(new@)),
        routes_view(r.1@) == route_uninstalls(routes_view(old@), routes_view(new@)),
{
    let ghost ov = routes_view(old@);
    let ghost nv = routes_view(new@);
    let mut installs: Vec<RouteNet> = Vec::new();
    let mut i: usize = 0;
    while i < new.len()
        invariant
            i <= new@.len(),
            ov == routes_view(old@),
            nv == routes_view(new@),
            routes_view(installs@) == route_installs(ov, nv.subrange(0, i as int)),
        decreases new@.len() - i,
    {
        assert(nv.subrange(0, i + 1).drop_last() =~= nv.subrange(0, i as int));
        if !contains_same(old, &new[i]) {
            let c = new[i].copy();
            installs.push(c);
        }
        assert(routes_view(installs@) =~= route_installs(ov, nv.subrange(0, i + 1)));
        i += 1;
    }
    assert(nv.subrange(0, new@.len() as int) =~= nv);
    let mut uninstalls: Vec<RouteNet> = Vec::new();
    let mut i: usize = 0;
    while i < old.len()
        invariant
            i <= old@.len(),
            ov == routes_view(old@),
            nv == routes_view(new@),
            routes_view(uninstalls@) == route_uninstalls(ov.subrange(0, i as int), nv),
        decreases old@.len() - i,
    {
        assert(ov.subrange(0, i + 1).drop_last() =~= ov.subrange(0, i as int));
        if old[i].installed && !contains_dest(new, &old[i]) {
            let c = old[i].copy();
            uninstalls.push(c);
        }
        assert(routes_view(uninstalls@) =~= route_uninstalls(ov.subrange(0, i + 1), nv));
        i += 1;
    }
    assert(ov.subrange(0, old@.len() as int) =~= ov);
    (installs, uninstalls)
}

proof fn lemma_installs_empty(old: Seq<RouteModel>, new: Seq<RouteModel>)
    requires
        forall|i: int| 0 <= i < new.len() ==> has_same_route(old, #[trigger] new[i]),
    ensures
        route_installs(old, new).len() == 0,
    decreases new.len(),
{
    if new.len() > 0 {
        assert(has_same_route(old, new[new.len() - 1]));
        lemma_installs_empty(old, new.drop_last());
    }
}

proof fn lemma_uninstalls_empty(old: Seq<RouteModel>, new: Seq<RouteModel>)
    requires
        forall|i: int| 0 <= i < old.len() ==> has_dest(new, #[trigger] old[i]),
    ensures
        route_uninstalls(old, new).len() == 0,
    decreases old.len(),
{
    if old.len() > 0 {
        assert(has_dest(new, old[old.len() - 1]));
        lemma_uninstalls_empty(old.drop_last(), new);
    }
}

/// Delta minimality: recomputing a routing table that did not change (the
/// same routes, whatever their installation flags) calls for no install and
/// no uninstall.
pub proof fn lemma_route_delta_unchanged(old: Seq<RouteModel>, new: Seq<RouteModel>)
    requires
        old.len() == new.len(),
        forall|i: int| 0 <= i < old.len() ==> same_route(#[trigger] old[i], new[i]),
    ensures
        route_installs(old, new).len() == 0,
        route_uninstalls(old, new).len() == 0,
{
    assert forall|i: int| 0 <= i < new.len() implies has_same_route(old, #[trigger] new[i]) by {
        assert(same_route(old[i], new[i]));
    }
    assert forall|i: int| 0 <= i < old.len() implies has_dest(new, #[trigger] old[i]) by {
        assert(same_dest(new[i], old[i]));
    }
    lemma_installs_empty(old, new);
    lemma_uninstalls_empty(old, new);
}

} // verus!

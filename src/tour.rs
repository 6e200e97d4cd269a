use vstd::prelude::*;

use crate::reg::{NodeKind, NodeRegistry};

verus! {

/// A node as handed out by the tour: its registry id, kind and demand.
#[derive(Clone, Copy, Debug, PartialEq, Eq, Structural)]
pub struct Node {
    pub id: usize,
    pub kind: NodeKind,
    pub demand: u64,
}

impl Node {
    pub fn id(&self) -> (r: usize)
        ensures
            r == self.id,
    {
        self.id
    }

    pub fn kind(&self) -> (r: NodeKind)
        ensures
            r == self.kind,
    {
        self.kind
    }

    pub fn demand(&self) -> (r: u64)
        ensures
            r == self.demand,
    {
        self.demand
    }
}

/// Sum of the demands of the ids in `s`.
pub open spec fn demand_sum(s: Seq<usize>, dem: Seq<u64>) -> int
    decreases s.len(),
{
    if s.len() == 0 {
        0
    } else {
        demand_sum(s.drop_last(), dem) + dem[s.last() as int]
    }
}

proof fn lemma_demand_sum_remove(s: Seq<usize>, i: int, dem: Seq<u64>)
    requires
        0 <= i < s.len(),
    ensures
        demand_sum(s.remove(i), dem) == demand_sum(s, dem) - dem[s[i] as int],
    decreases s.len(),
{
    if i == s.len() - 1 {
        assert(s.remove(i) =~= s.drop_last());
    } else {
        lemma_demand_sum_remove(s.drop_last(), i, dem);
        assert(s.remove(i).drop_last() =~= s.drop_last().remove(i));
    }
}

proof fn lemma_demand_sum_nonneg(s: Seq<usize>, dem: Seq<u64>)
    ensures
        demand_sum(s, dem) >= 0,
    decreases s.len(),
{
    if s.len() > 0 {
        lemma_demand_sum_nonneg(s.drop_last(), dem);
    }
}

proof fn lemma_demand_sum_insert(s: Seq<usize>, i: int, x: usize, dem: Seq<u64>)
    requires
        0 <= i <= s.len(),
    ensures
        demand_sum(s.insert(i, x), dem) == demand_sum(s, dem) + dem[x as int],
    decreases s.len(),
{
    if i == s.len() {
        assert(s.insert(i, x).drop_last() =~= s);
    } else {
        lemma_demand_sum_insert(s.drop_last(), i, x, dem);
        assert(s.insert(i, x).drop_last() =~= s.drop_last().insert(i, x));
    }
}

/// A route: a depot anchor and the requests visited after it, in order;
/// the chain closes back at the depot. The load is kept alongside.
#[derive(Debug)]
pub struct Route {
    depot: usize,
    members: Vec<usize>,
    load: u64,
}

impl Route {
    pub closed spec fn depot_id(&self) -> usize {
        self.depot
    }

    pub closed spec fn ids(&self) -> Seq<usize> {
        self.members@
    }

    pub closed spec fn load_value(&self) -> u64 {
        self.load
    }

    /// Tail of arc `i`: the depot for the first arc, else the `i - 1`-th request.
    pub open spec fn arc_tail(&self, i: int) -> usize {
        tail_of((self.depot_id(), self.ids()), i)
    }

    /// Head of arc `i`: the `i`-th request, or the depot for the closing arc.
    pub open spec fn arc_head(&self, i: int) -> usize {
        head_of((self.depot_id(), self.ids()), i)
    }

    pub fn depot(&self) -> (r: usize)
        ensures
            r == self.depot_id(),
    {
        self.depot
    }

    pub fn load(&self) -> (r: u64)
        ensures
            r == self.load_value(),
    {
        self.load
    }

    /// Number of requests on the route.
    pub fn len(&self) -> (r: usize)
        ensures
            r == self.ids().len(),
    {
        self.members.len()
    }

    /// The request ids of the route, in visiting order.
    pub fn node_ids(&self) -> (r: Vec<usize>)
        ensures
            r@ == self.ids(),
    {
        let mut out: Vec<usize> = Vec::new();
        let mut i: usize = 0;
        while i < self.members.len()
            invariant
                i <= self.members@.len(),
                out@ == self.members@.subrange(0, i as int),
            decreases self.members@.len() - i,
        {
            out.push(self.members[i]);
            i = i + 1;
            assert(out@ =~= self.members@.subrange(0, i as int));
        }
        assert(out@ =~= self.members@);
        out
    }

    /// The arc `i` as (tail, head); the route has `len() + 1` arcs.
    pub fn arc(&self, i: usize) -> (r: (usize, usize))
        requires
            i <= self.ids().len(),
        ensures
            r == (self.arc_tail(i as int), self.arc_head(i as int)),
    {
        let tail = if i == 0 {
            self.depot
        } else {
            self.members[i - 1]
        };
        let head = if i == self.members.len() {
            self.depot
        } else {
            self.members[i]
        };
        (tail, head)
    }
}

/// Number of requests over all routes of `rs`.
pub open spec fn member_count(rs: Seq<Route>) -> int
    decreases rs.len(),
{
    if rs.len() == 0 {
        0
    } else {
        member_count(rs.drop_last()) + rs.last().ids().len()
    }
}

proof fn lemma_member_count_update(rs: Seq<Route>, r: int, x: Route)
    requires
        0 <= r < rs.len(),
    ensures
        member_count(rs.update(r, x)) == member_count(rs) - rs[r].ids().len() + x.ids().len(),
    decreases rs.len(),
{
    if r == rs.len() - 1 {
        assert(rs.update(r, x).drop_last() =~= rs.drop_last());
    } else {
        lemma_member_count_update(rs.drop_last(), r, x);
        assert(rs.update(r, x).drop_last() =~= rs.drop_last().update(r, x));
    }
}

proof fn lemma_member_count_remove(rs: Seq<Route>, r: int)
    requires
        0 <= r < rs.len(),
    ensures
        member_count(rs.remove(r)) == member_count(rs) - rs[r].ids().len(),
    decreases rs.len(),
{
    if r == rs.len() - 1 {
        assert(rs.remove(r) =~= rs.drop_last());
    } else {
        lemma_member_count_remove(rs.drop_last(), r);
        assert(rs.remove(r).drop_last() =~= rs.drop_last().remove(r));
    }
}

/// A count of requests is never negative.
pub proof fn lemma_member_count_nonneg(rs: Seq<Route>)
    ensures
        member_count(rs) >= 0,
    decreases rs.len(),
{
    if rs.len() > 0 {
        lemma_member_count_nonneg(rs.drop_last());
    }
}

/// Tail of arc `i` of route `e` (depot, requests): the depot for the first
/// arc, else the `i - 1`-th request.
pub open spec fn tail_of(e: (usize, Seq<usize>), i: int) -> usize {
    if i == 0 {
        e.0
    } else {
        e.1[i - 1]
    }
}

/// Head of arc `i` of route `e`: the `i`-th request, or the depot for the
/// closing arc.
pub open spec fn head_of(e: (usize, Seq<usize>), i: int) -> usize {
    if i == e.1.len() {
        e.0
    } else {
        e.1[i]
    }
}

/// Sum of the distances of the first `k` arcs of route `e`.
pub open spec fn arcs_cost(e: (usize, Seq<usize>), reg: NodeRegistry, k: int) -> int
    decreases k,
{
    if k <= 0 {
        0
    } else {
        arcs_cost(e, reg, k - 1) + reg.dist_of(tail_of(e, k - 1) as int, head_of(e, k - 1) as int)
    }
}

/// Length of a route: all its arcs, the two closing ones included.
pub open spec fn route_cost(e: (usize, Seq<usize>), reg: NodeRegistry) -> int {
    arcs_cost(e, reg, e.1.len() + 1int)
}

/// Sum of the lengths of the routes of layout `l`.
pub open spec fn routes_cost(l: Seq<(usize, Seq<usize>)>, reg: NodeRegistry) -> int
    decreases l.len(),
{
    if l.len() == 0 {
        0
    } else {
        routes_cost(l.drop_last(), reg) + route_cost(l.last(), reg)
    }
}

pub open spec fn sat_u128(x: int) -> int {
    if x > u128::MAX {
        u128::MAX as int
    } else {
        x
    }
}

proof fn lemma_demand_sum_ge_member(s: Seq<usize>, i: int, dem: Seq<u64>)
    requires
        0 <= i < s.len(),
    ensures
        dem[s[i] as int] <= demand_sum(s, dem),
    decreases s.len(),
{
    lemma_demand_sum_nonneg(s.drop_last(), dem);
    if i < s.len() - 1 {
        lemma_demand_sum_ge_member(s.drop_last(), i, dem);
    }
}

/// The depot and the request ids of each route, in order.
pub open spec fn layout_of(rs: Seq<Route>) -> Seq<(usize, Seq<usize>)> {
    rs.map_values(|rt: Route| (rt.depot_id(), rt.ids()))
}

/// Whether `x` stands on some route of layout `l`.
pub open spec fn placed(l: Seq<(usize, Seq<usize>)>, x: int) -> bool {
    exists|r: int, i: int| 0 <= r < l.len() && 0 <= i < l[r].1.len() && #[trigger] l[r].1[i] == x
}

/// Layout `l` with `x` taken off its route, if it stands on one.
pub open spec fn eject_layout(l: Seq<(usize, Seq<usize>)>, x: int) -> Seq<(usize, Seq<usize>)> {
    if placed(l, x) {
        let (r, i) = choose|r: int, i: int|
            0 <= r < l.len() && 0 <= i < l[r].1.len() && #[trigger] l[r].1[i] == x;
        l.update(r, (l[r].0, l[r].1.remove(i)))
    } else {
        l
    }
}

/// Layout `l` without its routes that hold no request.
pub open spec fn nonempty_layout(l: Seq<(usize, Seq<usize>)>) -> Seq<(usize, Seq<usize>)>
    decreases l.len(),
{
    if l.len() == 0 {
        l
    } else if l[0].1.len() > 0 {
        seq![l[0]] + nonempty_layout(l.skip(1))
    } else {
        nonempty_layout(l.skip(1))
    }
}

/// Every request id occurs at most once over all routes.
pub open spec fn unique_members(rs: Seq<Route>) -> bool {
    forall|r1: int, i1: int, r2: int, i2: int|
        0 <= r1 < rs.len() && 0 <= r2 < rs.len() && 0 <= i1 < rs[r1].ids().len() && 0 <= i2
            < rs[r2].ids().len() && #[trigger] rs[r1].ids()[i1] == #[trigger] rs[r2].ids()[i2]
            ==> r1 == r2 && i1 == i2
}

/// The current solution: a registry, the vehicle capacity and the routes.
/// New routes are anchored at the depot with the lowest id.
#[derive(Debug)]
pub struct Tour {
    reg: NodeRegistry,
    capacity: u64,
    anchor: Option<usize>,
    routes: Vec<Route>,
}

impl Tour {
    pub closed spec fn registry(&self) -> NodeRegistry {
        self.reg
    }

    pub closed spec fn cap(&self) -> u64 {
        self.capacity
    }

    pub closed spec fn anchor_depot(&self) -> Option<usize> {
        self.anchor
    }

    pub closed spec fn routes_view(&self) -> Seq<Route> {
        self.routes@
    }

    pub open spec fn n(&self) -> nat {
        self.registry().len()
    }

    pub open spec fn dem(&self) -> Seq<u64> {
        self.registry().demands_view()
    }

    pub open spec fn is_request(&self, id: int) -> bool {
        0 <= id < self.n() && self.registry().kind_of(id) == NodeKind::Request
    }

    pub open spec fn is_depot(&self, id: int) -> bool {
        0 <= id < self.n() && self.registry().kind_of(id) == NodeKind::Depot
    }

    pub open spec fn route_ok(&self, rt: Route) -> bool {
        &&& self.is_depot(rt.depot_id() as int)
        &&& forall|i: int| 0 <= i < rt.ids().len() ==> self.is_request(#[trigger] rt.ids()[i] as int)
        &&& rt.load_value() == demand_sum(rt.ids(), self.dem())
        &&& rt.load_value() <= self.cap()
    }

    /// The tour's invariant: every route starts at a depot, holds requests
    /// only, keeps its load equal to its demand total and within capacity,
    /// and no request is on two routes or twice on one.
    pub open spec fn wf(&self) -> bool {
        &&& self.registry().wf()
        &&& self.registry().is_computed()
        &&& self.dem().len() == self.n()
        &&& (self.anchor_depot() matches Some(d) ==> self.is_depot(d as int))
        &&& (self.anchor_depot().is_none() ==> forall|d: int| !self.is_depot(d))
        &&& forall|r: int| 0 <= r < self.routes_view().len() ==> self.route_ok(#[trigger] self.routes_view()[r])
        &&& unique_members(self.routes_view())
    }

    pub open spec fn served(&self, id: int) -> bool {
        exists|r: int, i: int|
            0 <= r < self.routes_view().len() && 0 <= i < self.routes_view()[r].ids().len()
                && #[trigger] self.routes_view()[r].ids()[i] == id
    }

    /// Number of requests on routes.
    pub open spec fn n_served(&self) -> int {
        member_count(self.routes_view())
    }

    pub open spec fn no_empty_routes(&self) -> bool {
        forall|r: int| 0 <= r < self.routes_view().len() ==> #[trigger] self.routes_view()[r].ids().len() > 0
    }

    /// What the registry says of node `id`, as a `Node`.
    pub open spec fn node_of(&self, id: int) -> Node {
        Node { id: id as usize, kind: self.registry().kind_of(id), demand: self.dem()[id] }
    }

    /// Same registry and capacity.
    pub open spec fn same_frame(&self, other: &Tour) -> bool {
        &&& self.registry() == other.registry()
        &&& self.cap() == other.cap()
        &&& self.anchor_depot() == other.anchor_depot()
    }

    /// A tour over `reg` with no routes yet.
    pub fn new(reg: NodeRegistry, capacity: u64) -> (r: Self)
        requires
            reg.wf(),
            reg.is_computed(),
        ensures
            r.wf(),
            r.registry() == reg,
            r.cap() == capacity,
            r.routes_view().len() == 0,
            r.anchor_depot() matches Some(d) ==> r.is_depot(d as int) && forall|e: int|
                0 <= e < d ==> !#[trigger] r.is_depot(e),
            r.anchor_depot().is_none() ==> forall|e: int| !#[trigger] r.is_depot(e),
    {
        proof {
            reg.lemma_lens();
        }
        let n = reg.n_nodes();
        let mut anchor: Option<usize> = None;
        let mut i: usize = 0;
        while i < n
            invariant
                i <= n,
                n == reg.len(),
                anchor.is_none() ==> forall|d: int|
                    0 <= d < i ==> reg.kind_of(d) != NodeKind::Depot,
                anchor matches Some(d) ==> d < n && reg.kind_of(d as int) == NodeKind::Depot && forall|e: int|
                    0 <= e < d ==> #[trigger] reg.kind_of(e) != NodeKind::Depot,
            decreases n - i,
        {
            if anchor.is_none() {
                if reg.kind(i) == Some(NodeKind::Depot) {
                    anchor = Some(i);
                }
            }
            i = i + 1;
        }
        Tour { reg, capacity, anchor, routes: Vec::new() }
    }

    pub fn n_nodes(&self) -> (r: usize)
        ensures
            r == self.n(),
    {
        self.reg.n_nodes()
    }

    pub fn n_routes(&self) -> (r: usize)
        ensures
            r == self.routes_view().len(),
    {
        self.routes.len()
    }

    pub fn capacity(&self) -> (r: u64)
        ensures
            r == self.cap(),
    {
        self.capacity
    }

    pub fn has_anchor(&self) -> (r: bool)
        ensures
            r == self.anchor_depot().is_some(),
    {
        self.anchor.is_some()
    }

    pub fn route(&self, r: usize) -> (rt: &Route)
        requires
            r < self.routes_view().len(),
        ensures
            *rt == self.routes_view()[r as int],
    {
        &self.routes[r]
    }

    /// The node at registry id `id`, or `None` for an id out of range.
    pub fn node(&self, id: usize) -> (r: Option<Node>)
        requires
            self.wf(),
        ensures
            id < self.n() ==> r == Some(self.node_of(id as int)),
            id >= self.n() ==> r.is_none(),
    {
        match (self.reg.kind(id), self.reg.demand(id)) {
            (Some(kind), Some(demand)) => Some(Node { id, kind, demand }),
            _ => None,
        }
    }

    /// Distance between nodes `a` and `b`.
    pub fn distance(&self, a: usize, b: usize) -> (r: u64)
        requires
            self.wf(),
            a < self.n(),
            b < self.n(),
        ensures
            r == self.registry().dist_of(a as int, b as int),
    {
        self.reg.distance(a, b)
    }

    /// Whether route `r` can take `demand` more: its load plus `demand`
    /// stays within capacity.
    pub fn check_capacity(&self, r: usize, demand: u64) -> (ok: bool)
        requires
            self.wf(),
            r < self.routes_view().len(),
        ensures
            ok == (self.routes_view()[r as int].load_value() + demand <= self.cap()),
    {
        demand <= self.capacity - self.routes[r].load
    }

    /// Appends an empty route anchored at the tour's anchor depot and
    /// returns its index.
    pub fn new_route(&mut self) -> (r: usize)
        requires
            old(self).wf(),
            old(self).anchor_depot().is_some(),
        ensures
            final(self).wf(),
            final(self).same_frame(old(self)),
            r == old(self).routes_view().len(),
            final(self).routes_view().len() == r + 1,
            final(self).routes_view().drop_last() == old(self).routes_view(),
            final(self).routes_view()[r as int].ids().len() == 0,
            final(self).routes_view()[r as int].depot_id() == old(self).anchor_depot().unwrap(),
            final(self).n_served() == old(self).n_served(),
            forall|x: int| #[trigger] final(self).served(x) == old(self).served(x),
    {
        let depot = match self.anchor {
            Some(d) => d,
            None => 0,
        };
        let rt = Route { depot, members: Vec::new(), load: 0 };
        let r = self.routes.len();
        self.routes.push(rt);
        proof {
            assert(self.routes@.drop_last() =~= old(self).routes@);
            assert(demand_sum(Seq::<usize>::empty(), self.dem()) == 0);
            assert forall|x: int| #[trigger] self.served(x) == old(self).served(x) by {
                if self.served(x) {
                    let (rr, i) = choose|rr: int, i: int|
                        0 <= rr < self.routes_view().len() && 0 <= i
                            < self.routes_view()[rr].ids().len() && #[trigger] self.routes_view()[rr].ids()[i]
                            == x;
                    assert(self.routes@[rr] == old(self).routes@[rr]);
                }
                if old(self).served(x) {
                    let (rr, i) = choose|rr: int, i: int|
                        0 <= rr < old(self).routes_view().len() && 0 <= i
                            < old(self).routes_view()[rr].ids().len()
                            && #[trigger] old(self).routes_view()[rr].ids()[i] == x;
                    assert(self.routes@[rr] == old(self).routes@[rr]);
                }
            }
        }
        r
    }

    /// Splices request `node` into route `r` right after the tail of arc
    /// `pos`, so that it becomes the route's `pos`-th request.
    pub fn insert_at(&mut self, r: usize, pos: usize, node: Node)
        requires
            old(self).wf(),
            r < old(self).routes_view().len(),
            pos <= old(self).routes_view()[r as int].ids().len(),
            old(self).is_request(node.id as int),
            node.demand == old(self).dem()[node.id as int],
            !old(self).served(node.id as int),
            old(self).routes_view()[r as int].load_value() + node.demand <= old(self).cap(),
        ensures
            final(self).wf(),
            final(self).same_frame(old(self)),
            final(self).routes_view().len() == old(self).routes_view().len(),
            forall|k: int|
                0 <= k < old(self).routes_view().len() && k != r ==> #[trigger] final(self).routes_view()[k]
                    == old(self).routes_view()[k],
            final(self).routes_view()[r as int].ids() == old(self).routes_view()[r as int].ids().insert(
                pos as int,
                node.id,
            ),
            final(self).routes_view()[r as int].depot_id() == old(self).routes_view()[r as int].depot_id(),
            final(self).n_served() == old(self).n_served() + 1,
            forall|x: int| #[trigger] final(self).served(x) == (old(self).served(x) || x == node.id),
    {
        let ghost old_rs = self.routes@;
        let ghost old_rt = self.routes@[r as int];
        self.routes[r].members.insert(pos, node.id);
        self.routes[r].load = self.routes[r].load + node.demand;
        proof {
            let rs = self.routes@;
            let new_rt = rs[r as int];
            lemma_demand_sum_insert(old_rt.members@, pos as int, node.id, self.dem());
            lemma_member_count_update(old_rs, r as int, new_rt);
            assert(rs =~= old_rs.update(r as int, new_rt));
            assert(self.route_ok(new_rt));
            assert forall|x: int| #[trigger] self.served(x) == (old(self).served(x) || x == node.id) by {
                if self.served(x) {
                    let (rr, i) = choose|rr: int, i: int|
                        0 <= rr < self.routes_view().len() && 0 <= i
                            < self.routes_view()[rr].ids().len() && #[trigger] self.routes_view()[rr].ids()[i]
                            == x;
                    if rr == r && i < pos {
                        assert(old_rs[rr].ids()[i] == x);
                    } else if rr == r && i > pos {
                        assert(old_rs[rr].ids()[i - 1] == x);
                    } else if rr != r {
                        assert(old_rs[rr].ids()[i] == x);
                    }
                }
                if old(self).served(x) {
                    let (rr, i) = choose|rr: int, i: int|
                        0 <= rr < old(self).routes_view().len() && 0 <= i
                            < old(self).routes_view()[rr].ids().len()
                            && #[trigger] old(self).routes_view()[rr].ids()[i] == x;
                    if rr == r && i >= pos {
                        assert(rs[rr].ids()[i + 1] == x);
                    } else {
                        assert(rs[rr].ids()[i] == x);
                    }
                }
                if x == node.id {
                    assert(rs[r as int].ids()[pos as int] == x);
                }
            }
            assert forall|r1: int, i1: int, r2: int, i2: int|
                0 <= r1 < rs.len() && 0 <= r2 < rs.len() && 0 <= i1 < rs[r1].ids().len() && 0 <= i2
                    < rs[r2].ids().len() && #[trigger] rs[r1].ids()[i1] == #[trigger] rs[r2].ids()[i2]
                implies r1 == r2 && i1 == i2 by {
                let j1 = if r1 == r && i1 > pos { i1 - 1 } else { i1 };
                let j2 = if r2 == r && i2 > pos { i2 - 1 } else { i2 };
                let p1 = r1 == r && i1 == pos;
                let p2 = r2 == r && i2 == pos;
                if !p1 {
                    assert(rs[r1].ids()[i1] == old_rs[r1].ids()[j1]);
                }
                if !p2 {
                    assert(rs[r2].ids()[i2] == old_rs[r2].ids()[j2]);
                }
                if p1 && !p2 {
                    assert(old(self).routes_view()[r2].ids()[j2] == node.id);
                }
                if p2 && !p1 {
                    assert(old(self).routes_view()[r1].ids()[j1] == node.id);
                }
            }
            assert forall|k: int| 0 <= k < rs.len() implies self.route_ok(#[trigger] rs[k]) by {
                if k != r {
                    assert(rs[k] == old_rs[k]);
                }
            }
        }
    }

    /// Where request `id` stands, as (route, position), if it is on a route.
    fn locate(&self, id: usize) -> (r: Option<(usize, usize)>)
        requires
            self.wf(),
        ensures
            r matches Some(p) ==> {
                &&& p.0 < self.routes_view().len()
                &&& p.1 < self.routes_view()[p.0 as int].ids().len()
                &&& self.routes_view()[p.0 as int].ids()[p.1 as int] == id
            },
            r.is_none() ==> !self.served(id as int),
    {
        let mut a: usize = 0;
        while a < self.routes.len()
            invariant
                a <= self.routes@.len(),
                forall|ra: int, i: int|
                    0 <= ra < a && 0 <= i < self.routes@[ra].ids().len() ==> #[trigger] self.routes@[ra].ids()[i]
                        != id,
            decreases self.routes@.len() - a,
        {
            let mut b: usize = 0;
            while b < self.routes[a].members.len()
                invariant
                    a < self.routes@.len(),
                    b <= self.routes@[a as int].ids().len(),
                    forall|i: int| 0 <= i < b ==> #[trigger] self.routes@[a as int].ids()[i] != id,
                decreases self.routes@[a as int].ids().len() - b,
            {
                if self.routes[a].members[b] == id {
                    return Some((a, b));
                }
                b = b + 1;
            }
            a = a + 1;
        }
        None
    }

    /// Unlinks request `id` from its route, splicing its neighbours
    /// together, and hands it out detached. `None` if `id` is on no route
    /// (a depot, a detached request, or out of range); the tour is then
    /// left as it was.
    pub fn eject(&mut self, id: usize) -> (r: Option<Node>)
        requires
            old(self).wf(),
        ensures
            final(self).wf(),
            final(self).same_frame(old(self)),
            final(self).routes_view().len() == old(self).routes_view().len(),
            r.is_some() == old(self).served(id as int),
            r matches Some(nd) ==> nd == old(self).node_of(id as int) && nd.kind == NodeKind::Request,
            old(self).served(id as int) ==> final(self).n_served() == old(self).n_served() - 1,
            !old(self).served(id as int) ==> final(self).routes_view() == old(self).routes_view(),
            forall|x: int| #[trigger] final(self).served(x) == (old(self).served(x) && x != id),
            final(self).layout() == eject_layout(old(self).layout(), id as int),
    {
        match self.locate(id) {
            None => {
                proof {
                    let l = self.layout();
                    if placed(l, id as int) {
                        let (r, i) = choose|r: int, i: int|
                            0 <= r < l.len() && 0 <= i < l[r].1.len() && #[trigger] l[r].1[i] == id as int;
                        assert(self.routes_view()[r].ids()[i] == id);
                    }
                }
                None
            },
            Some((r, pos)) => {
                let ghost old_rs = self.routes@;
                let ghost old_rt = self.routes@[r as int];
                proof {
                    assert(self.route_ok(old_rt));
                    assert(self.is_request(old_rt.ids()[pos as int] as int));
                }
                let demand = self.reg.demand(id).unwrap();
                self.routes[r].members.remove(pos);
                proof {
                    lemma_demand_sum_remove(old_rt.members@, pos as int, self.dem());
                    lemma_demand_sum_nonneg(old_rt.members@.remove(pos as int), self.dem());
                }
                self.routes[r].load = self.routes[r].load - demand;
                let kind = self.reg.kind(id).unwrap();
                proof {
                    let rs = self.routes@;
                    let new_rt = rs[r as int];
                    lemma_member_count_update(old_rs, r as int, new_rt);
                    assert(rs =~= old_rs.update(r as int, new_rt));
                    assert(self.route_ok(new_rt));
                    assert forall|x: int| #[trigger] self.served(x) == (old(self).served(x) && x != id) by {
                        if self.served(x) {
                            let (rr, i) = choose|rr: int, i: int|
                                0 <= rr < self.routes_view().len() && 0 <= i
                                    < self.routes_view()[rr].ids().len()
                                    && #[trigger] self.routes_view()[rr].ids()[i] == x;
                            if rr == r && i >= pos {
                                assert(old_rs[rr].ids()[i + 1] == x);
                            } else {
                                assert(old_rs[rr].ids()[i] == x);
                            }
                        }
                        if old(self).served(x) && x != id {
                            let (rr, i) = choose|rr: int, i: int|
                                0 <= rr < old(self).routes_view().len() && 0 <= i
                                    < old(self).routes_view()[rr].ids().len()
                                    && #[trigger] old(self).routes_view()[rr].ids()[i] == x;
                            if rr == r && i > pos {
                                assert(rs[rr].ids()[i - 1] == x);
                            } else if rr == r && i < pos {
                                assert(rs[rr].ids()[i] == x);
                            } else if rr != r {
                                assert(rs[rr].ids()[i] == x);
                            }
                        }
                    }
                    assert forall|r1: int, i1: int, r2: int, i2: int|
                        0 <= r1 < rs.len() && 0 <= r2 < rs.len() && 0 <= i1 < rs[r1].ids().len() && 0
                            <= i2 < rs[r2].ids().len() && #[trigger] rs[r1].ids()[i1]
                            == #[trigger] rs[r2].ids()[i2] implies r1 == r2 && i1 == i2 by {
                        let j1 = if r1 == r && i1 >= pos { i1 + 1 } else { i1 };
                        let j2 = if r2 == r && i2 >= pos { i2 + 1 } else { i2 };
                        assert(rs[r1].ids()[i1] == old_rs[r1].ids()[j1]);
                        assert(rs[r2].ids()[i2] == old_rs[r2].ids()[j2]);
                    }
                    assert forall|k: int| 0 <= k < rs.len() implies self.route_ok(#[trigger] rs[k]) by {
                        if k != r {
                            assert(rs[k] == old_rs[k]);
                        }
                    }
                    let l = layout_of(old_rs);
                    assert(l[r as int].1[pos as int] == id as int);
                    let (r2, i2) = choose|r2: int, i2: int|
                        0 <= r2 < l.len() && 0 <= i2 < l[r2].1.len() && #[trigger] l[r2].1[i2] == id as int;
                    assert(old_rs[r2].ids()[i2] == old_rs[r as int].ids()[pos as int]);
                    assert(self.layout() =~= l.update(r as int, (l[r as int].0, l[r as int].1.remove(pos as int))));
                }
                Some(Node { id, kind, demand })
            },
        }
    }

    /// Removes every route that holds no request, keeping the order of the
    /// others.
    pub fn drop_empty(&mut self)
        requires
            old(self).wf(),
        ensures
            final(self).wf(),
            final(self).same_frame(old(self)),
            final(self).no_empty_routes(),
            final(self).routes_view().len() <= old(self).routes_view().len(),
            final(self).n_served() == old(self).n_served(),
            forall|x: int| #[trigger] final(self).served(x) == old(self).served(x),
            final(self).layout() == nonempty_layout(old(self).layout()),
    {
        let ghost l0 = old(self).layout();
        let mut i: usize = self.routes.len();
        proof {
            assert(l0.skip(i as int) =~= Seq::<(usize, Seq<usize>)>::empty());
            assert(self.layout() =~= l0.take(i as int) + nonempty_layout(l0.skip(i as int)));
        }
        while i > 0
            invariant
                self.wf(),
                self.same_frame(old(self)),
                i <= self.routes@.len() <= old(self).routes_view().len(),
                self.n_served() == old(self).n_served(),
                forall|x: int| #[trigger] self.served(x) == old(self).served(x),
                forall|k: int| i <= k < self.routes@.len() ==> #[trigger] self.routes@[k].ids().len() > 0,
                i <= l0.len(),
                self.layout() == l0.take(i as int) + nonempty_layout(l0.skip(i as int)),
            decreases i,
        {
            i = i - 1;
            proof {
                let cur = self.layout();
                assert(cur[i as int] == l0.take(i + 1)[i as int]);
                assert(l0.skip(i as int)[0] == l0[i as int]);
                assert(l0.skip(i as int).skip(1) =~= l0.skip(i + 1));
                assert(l0.take(i + 1) =~= l0.take(i as int).push(l0[i as int]));
            }
            if self.routes[i].members.len() == 0 {
                let ghost pre = *self;
                let ghost old_rs = self.routes@;
                self.routes.remove(i);
                proof {
                    let rs = self.routes@;
                    assert(old_rs[i as int].ids().len() == 0);
                    assert(pre.routes_view() == old_rs);
                    assert(self.routes_view() == rs);
                    lemma_member_count_remove(old_rs, i as int);
                    assert forall|k: int| 0 <= k < rs.len() implies self.route_ok(#[trigger] rs[k]) by {
                        if k < i {
                            assert(rs[k] == old_rs[k]);
                        } else {
                            assert(rs[k] == old_rs[k + 1]);
                        }
                    }
                    assert forall|r1: int, i1: int, r2: int, i2: int|
                        0 <= r1 < rs.len() && 0 <= r2 < rs.len() && 0 <= i1 < rs[r1].ids().len() && 0
                            <= i2 < rs[r2].ids().len() && #[trigger] rs[r1].ids()[i1]
                            == #[trigger] rs[r2].ids()[i2] implies r1 == r2 && i1 == i2 by {
                        let s1 = if r1 < i { r1 } else { r1 + 1 };
                        let s2 = if r2 < i { r2 } else { r2 + 1 };
                        assert(rs[r1] == old_rs[s1]);
                        assert(rs[r2] == old_rs[s2]);
                        assert(old_rs[s1].ids()[i1] == old_rs[s2].ids()[i2]);
                    }
                    assert forall|x: int| #[trigger] self.served(x) == pre.served(x) by {
                        if self.served(x) {
                            let (rr, j) = choose|rr: int, j: int|
                                0 <= rr < self.routes_view().len() && 0 <= j
                                    < self.routes_view()[rr].ids().len()
                                    && #[trigger] self.routes_view()[rr].ids()[j] == x;
                            let s1 = if rr < i { rr } else { rr + 1 };
                            assert(rs[rr] == old_rs[s1]);
                            assert(old_rs[s1].ids()[j] == x);
                        }
                        if pre.served(x) {
                            let (rr, j) = choose|rr: int, j: int|
                                0 <= rr < pre.routes_view().len() && 0 <= j
                                    < pre.routes_view()[rr].ids().len()
                                    && #[trigger] pre.routes_view()[rr].ids()[j] == x;
                            if rr < i {
                                assert(rs[rr] == old_rs[rr]);
                                assert(rs[rr].ids()[j] == x);
                            } else {
                                assert(rr != i);
                                assert(rs[rr - 1] == old_rs[rr]);
                                assert(rs[rr - 1].ids()[j] == x);
                            }
                        }
                    }
                    assert forall|k: int| i <= k < rs.len() implies #[trigger] rs[k].ids().len() > 0 by {
                        assert(rs[k] == old_rs[k + 1]);
                    }
                    assert(layout_of(rs) =~= layout_of(old_rs).remove(i as int));
                    assert(self.layout() =~= l0.take(i as int) + nonempty_layout(l0.skip(i as int)));
                }
            } else {
                proof {
                    assert(self.layout() =~= l0.take(i as int) + nonempty_layout(l0.skip(i as int)));
                }
            }
        }
        proof {
            assert(l0.take(0) + nonempty_layout(l0.skip(0)) =~= nonempty_layout(l0));
        }
    }

    /// The depot and request ids of each route.
    pub open spec fn layout(&self) -> Seq<(usize, Seq<usize>)> {
        layout_of(self.routes_view())
    }

    /// Total length of the tour.
    pub open spec fn cost(&self) -> int {
        routes_cost(self.layout(), self.registry())
    }

    /// Sum of the arc distances over every route; saturates at
    /// `u128::MAX`, which `u64` distances reach only past 2^64 arcs.
    pub fn total_distance(&self) -> (r: u128)
        requires
            self.wf(),
        ensures
            r as int == sat_u128(self.cost()),
    {
        let mut acc: u128 = 0;
        let mut a: usize = 0;
        while a < self.routes.len()
            invariant
                self.wf(),
                a <= self.routes@.len(),
                acc as int == sat_u128(routes_cost(self.layout().subrange(0, a as int), self.reg)),
                routes_cost(self.layout().subrange(0, a as int), self.reg) >= 0,
            decreases self.routes@.len() - a,
        {
            let rt = &self.routes[a];
            proof {
                assert(self.route_ok(*rt));
            }
            let mut b: usize = 0;
            let mut racc: u128 = 0;
            loop
                invariant_except_break
                    racc as int == sat_u128(arcs_cost((rt.depot_id(), rt.ids()), self.reg, b as int)),
                    arcs_cost((rt.depot_id(), rt.ids()), self.reg, b as int) >= 0,
                invariant
                    self.wf(),
                    self.route_ok(*rt),
                    b <= rt.members@.len(),
                ensures
                    b == rt.members@.len(),
                    racc as int == sat_u128(arcs_cost((rt.depot_id(), rt.ids()), self.reg, b as int + 1)),
                    arcs_cost((rt.depot_id(), rt.ids()), self.reg, b as int + 1) >= 0,
                decreases rt.members@.len() - b,
            {
                let (t, h) = rt.arc(b);
                proof {
                    if b > 0 {
                        assert(self.is_request(rt.ids()[b - 1] as int));
                    }
                    if b < rt.ids().len() {
                        assert(self.is_request(rt.ids()[b as int] as int));
                    }
                }
                let d = self.reg.distance(t, h);
                if racc > u128::MAX - (d as u128) {
                    racc = u128::MAX;
                } else {
                    racc = racc + d as u128;
                }
                if b == rt.members.len() {
                    break;
                }
                b = b + 1;
            }
            let ghost prefix = self.layout().subrange(0, a as int);
            if acc > u128::MAX - racc {
                acc = u128::MAX;
            } else {
                acc = acc + racc;
            }
            a = a + 1;
            proof {
                assert(self.layout().subrange(0, a as int).drop_last() =~= prefix);
                assert(self.layout()[a - 1] == (rt.depot_id(), rt.ids()));
            }
        }
        proof {
            assert(self.layout().subrange(0, a as int) =~= self.layout());
        }
        acc
    }

    /// Builds a first solution on a tour without routes: requests in id
    /// order fill the last route while it has room, and a new route is
    /// opened when it has none.
    pub fn init_sequential(&mut self)
        requires
            old(self).wf(),
            old(self).routes_view().len() == 0,
            forall|id: int| old(self).is_request(id) ==> #[trigger] old(self).dem()[id] <= old(self).cap(),
            old(self).anchor_depot().is_some() || forall|id: int| !old(self).is_request(id),
        ensures
            final(self).wf(),
            final(self).same_frame(old(self)),
            forall|id: int| #[trigger] final(self).served(id) == final(self).is_request(id),
    {
        let n = self.reg.n_nodes();
        let mut id: usize = 0;
        while id < n
            invariant
                self.wf(),
                self.same_frame(old(self)),
                n == self.n(),
                id <= n,
                forall|x: int| old(self).is_request(x) ==> #[trigger] old(self).dem()[x] <= old(self).cap(),
                old(self).anchor_depot().is_some() || forall|x: int| !old(self).is_request(x),
                forall|x: int| #[trigger] self.served(x) == (self.is_request(x) && x < id),
            decreases n - id,
        {
            let node = self.node(id).unwrap();
            if node.kind == NodeKind::Request {
                proof {
                    assert(old(self).is_request(id as int));
                    assert(old(self).dem()[id as int] <= old(self).cap());
                }
                let nr = self.routes.len();
                if nr > 0 && self.check_capacity(nr - 1, node.demand) {
                    let len = self.routes[nr - 1].members.len();
                    self.insert_at(nr - 1, len, node);
                } else {
                    let r = self.new_route();
                    proof {
                        assert(self.route_ok(self.routes_view()[r as int]));
                        assert(self.routes_view()[r as int].ids() =~= Seq::<usize>::empty());
                        assert(demand_sum(Seq::<usize>::empty(), self.dem()) == 0);
                    }
                    self.insert_at(r, 0, node);
                }
            }
            id = id + 1;
        }
    }

    /// The invariant, spelled out for a single request: a request on a route
    /// stands at exactly one place of exactly one route, fits the capacity on
    /// its own, and the route's anchor is a depot, so the tour has an anchor.
    pub proof fn lemma_served_request(&self, r: int, i: int)
        requires
            self.wf(),
            0 <= r < self.routes_view().len(),
            0 <= i < self.routes_view()[r].ids().len(),
        ensures
            self.is_request(self.routes_view()[r].ids()[i] as int),
            self.dem()[self.routes_view()[r].ids()[i] as int] <= self.cap(),
            self.anchor_depot().is_some(),
            forall|r2: int, i2: int|
                0 <= r2 < self.routes_view().len() && 0 <= i2 < self.routes_view()[r2].ids().len()
                    && #[trigger] self.routes_view()[r2].ids()[i2] == self.routes_view()[r].ids()[i] ==> r2 == r
                    && i2 == i,
    {
        let rt = self.routes_view()[r];
        assert(self.route_ok(rt));
        lemma_demand_sum_ge_member(rt.ids(), i, self.dem());
        assert(self.is_depot(rt.depot_id() as int));
    }

    /// Every route of a well-formed tour carries at most the capacity.
    pub proof fn lemma_loads_within_capacity(&self)
        requires
            self.wf(),
        ensures
            forall|r: int|
                0 <= r < self.routes_view().len() ==> demand_sum(#[trigger] self.routes_view()[r].ids(), self.dem())
                    <= self.cap(),
    {
        assert forall|r: int| 0 <= r < self.routes_view().len() implies demand_sum(
            #[trigger] self.routes_view()[r].ids(),
            self.dem(),
        ) <= self.cap() by {
            assert(self.route_ok(self.routes_view()[r]));
        }
    }

    /// A request is on a route exactly when it stands in the layout.
    pub proof fn lemma_served_placed(&self, x: int)
        ensures
            self.served(x) == placed(self.layout(), x),
    {
        let l = self.layout();
        if self.served(x) {
            let (r, i) = choose|r: int, i: int|
                0 <= r < self.routes_view().len() && 0 <= i < self.routes_view()[r].ids().len()
                    && #[trigger] self.routes_view()[r].ids()[i] == x;
            assert(l[r].1[i] == x);
        }
        if placed(l, x) {
            let (r, i) = choose|r: int, i: int| 0 <= r < l.len() && 0 <= i < l[r].1.len() && #[trigger] l[r].1[i] == x;
            assert(self.routes_view()[r].ids()[i] == x);
        }
    }
}

} // verus!

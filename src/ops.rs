use vstd::math::min;
use vstd::prelude::*;

use oorandom::Rand64;

use crate::reg::{NodeKind, NodeRegistry};
use crate::tour::{
    demand_sum, eject_layout, head_of, routes_cost, sat_u128, lemma_member_count_nonneg, member_count, nonempty_layout, placed,
    tail_of, Node, Tour,
};

verus! {

/// 2^128, the modulus of the generator's arithmetic.
pub open spec fn pcg_modulus() -> int {
    u128::MAX as int + 1
}

/// The increment a generator made by `Rand64::new` uses: its default
/// increment shifted left by one, with the low bit set.
pub open spec fn pcg_inc() -> int {
    (2 * (0x2FE0E169_FFBD06E3_5BC307BD_4D2F814Fu128 as int) + 1) % pcg_modulus()
}

/// The generator state after seeding with `seed`: from state 0 one step
/// (state becomes the increment), then `seed` is added, then one more step
/// (state times the multiplier plus the increment), all modulo 2^128.
pub open spec fn pcg_seeded(seed: u128) -> (u128, u128) {
    let s1 = (pcg_inc() + seed) % pcg_modulus();
    let s2 = (s1 * (47026247687942121848144207491837523525u128 as int) + pcg_inc()) % pcg_modulus();
    (s2 as u128, pcg_inc() as u128)
}

/// The value drawn from `0..bound` by a generator in state `state`, and the
/// state it leaves behind.
pub uninterp spec fn pcg_range(state: (u128, u128), bound: u64) -> (u64, (u128, u128));

/// Relies on oorandom::Rand64::new and Rand64::state: `new` calls
/// `new_inc(seed, DEFAULT_INC)`, which sets the increment to
/// `DEFAULT_INC.wrapping_shl(1) | 1` and the state to 0, steps once, adds
/// `seed` with wrapping, and steps once more; a step is
/// `state * MULTIPLIER + inc`, wrapping.
#[verifier::external_body]
fn seeded_state(seed: u128) -> (r: (u128, u128))
    ensures
        r == pcg_seeded(seed),
{
    Rand64::new(seed).state()
}

/// Relies on oorandom::Rand64::from_state, Rand64::rand_range and
/// Rand64::state: a draw from `0..bound`, which lies in the range whenever
/// the range is not empty, and the generator's next state; both depend on
/// the state and the bound alone. The increment (second component) is
/// never changed by a draw; an odd one gives a full-period generator, on
/// which the rejection loop of `rand_range` ends.
#[verifier::external_body]
fn draw_below(state: (u128, u128), bound: u64) -> (r: (u64, (u128, u128)))
    requires
        bound > 0,
        state.1 % 2 == 1,
    ensures
        r == pcg_range(state, bound),
        r.0 < bound,
        r.1.1 == state.1,
{
    let mut rng = Rand64::from_state(state);
    let v = rng.rand_range(0..bound);
    (v, rng.state())
}

/// Number of requests a destroy pass removes from a tour of `n` nodes,
/// depots included: `ceil(num * n / den)`.
pub open spec fn removal_count(num: u64, den: u64, n: int) -> int {
    (num * n + den - 1) / (den as int)
}

/// What a run of draws does, from generator state `st`, drawing positions
/// of `pool` without replacement, until `rem` requests are off their routes
/// or the pool is spent: the generator's last state, the layout left, and
/// the ids taken off, in draw order. Drawn ids on no route are dropped.
pub open spec fn draw_model(
    st: (u128, u128),
    pool: Seq<usize>,
    l: Seq<(usize, Seq<usize>)>,
    rem: nat,
) -> ((u128, u128), Seq<(usize, Seq<usize>)>, Seq<usize>)
    decreases pool.len(),
{
    if rem == 0 || pool.len() == 0 {
        (st, l, Seq::empty())
    } else {
        let (v, st1) = pcg_range(st, pool.len() as u64);
        if v >= pool.len() {
            (st, l, Seq::empty())
        } else {
            let id = pool[v as int];
            let pool1 = pool.remove(v as int);
            if placed(l, id as int) {
                let rest = draw_model(st1, pool1, eject_layout(l, id as int), (rem - 1) as nat);
                (rest.0, rest.1, seq![id] + rest.2)
            } else {
                draw_model(st1, pool1, l, rem)
            }
        }
    }
}

/// The node ids `0 .. n`, the pool a destroy pass draws from.
pub open spec fn all_ids(n: nat) -> Seq<usize> {
    Seq::new(n, |i: int| i as usize)
}

/// The ids of `nodes`, in order.
pub open spec fn ids_of(nodes: Seq<Node>) -> Seq<usize> {
    nodes.map_values(|nd: Node| nd.id)
}

/// Whether some entry of `nodes` carries id `x`.
pub open spec fn holds_id(nodes: Seq<Node>, x: int) -> bool {
    exists|i: int| 0 <= i < nodes.len() && #[trigger] nodes[i].id == x
}

/// A destroy operator: takes requests off their routes and hands them out
/// detached, in the order it removed them.
pub trait Destroy {
    /// The operator may run a pass on `tour`.
    spec fn ready(&self, tour: Tour) -> bool;

    fn destroy(&mut self, tour: &mut Tour) -> (r: Vec<Node>)
        requires
            old(self).ready(*old(tour)),
            old(tour).wf(),
        ensures
            final(tour).wf(),
            final(tour).same_frame(old(tour)),
            final(tour).n_served() == old(tour).n_served() - r@.len(),
            forall|i: int|
                0 <= i < r@.len() ==> {
                    &&& (#[trigger] r@[i]).kind == NodeKind::Request
                    &&& r@[i] == old(tour).node_of(r@[i].id as int)
                    &&& old(tour).served(r@[i].id as int)
                },
            forall|i: int, j: int| 0 <= i < j < r@.len() ==> (#[trigger] r@[i]).id != (#[trigger] r@[j]).id,
            forall|x: int| #[trigger] final(tour).served(x) == (old(tour).served(x) && !holds_id(r@, x)),
    ;
}

/// A rebuild operator: puts detached requests back on routes.
pub trait Rebuild {
    fn rebuild(&mut self, tour: &mut Tour, unserved: Vec<Node>)
        requires
            old(tour).wf(),
            detached_requests(*old(tour), unserved@),
        ensures
            final(tour).wf(),
            final(tour).same_frame(old(tour)),
            final(tour).n_served() == old(tour).n_served() + unserved@.len(),
            forall|x: int| #[trigger] final(tour).served(x) == (old(tour).served(x) || holds_id(unserved@, x)),
    ;
}

/// Removes a fixed fraction `num / den` of the tour's nodes, drawn at random
/// without replacement; a drawn depot is discarded and counts for nothing.
#[derive(Clone, Copy, Debug)]
pub struct RandomDestroy {
    pop_num: u64,
    pop_den: u64,
    rng: (u128, u128),
}

impl RandomDestroy {
    pub closed spec fn num(&self) -> u64 {
        self.pop_num
    }

    pub closed spec fn den(&self) -> u64 {
        self.pop_den
    }

    pub closed spec fn rng_state(&self) -> (u128, u128) {
        self.rng
    }

    pub open spec fn wf(&self) -> bool {
        &&& 0 < self.num() <= self.den()
        &&& self.rng_state().1 % 2 == 1
    }

    /// A destroy pass may run on `tour`: the operator is well formed and
    /// asks for no more requests than stand on routes, unless it asks for
    /// every node (a fraction of one).
    pub open spec fn ready_for(&self, tour: Tour) -> bool {
        &&& self.wf()
        &&& (self.target(tour.n() as int) <= tour.n_served() || self.num() == self.den())
    }

    /// Requests that one pass removes from a tour of `n` nodes.
    pub open spec fn target(&self, n: int) -> int {
        removal_count(self.num(), self.den(), n)
    }

    /// An operator that removes the fraction `pop_num / pop_den`, in
    /// `(0, 1]`, with a generator seeded by `seed`.
    pub fn new(seed: u128, pop_num: u64, pop_den: u64) -> (r: Self)
        requires
            0 < pop_num <= pop_den,
        ensures
            r.wf(),
            r.num() == pop_num,
            r.den() == pop_den,
            r.rng_state() == pcg_seeded(seed),
    {
        RandomDestroy { pop_num, pop_den, rng: seeded_state(seed) }
    }

    pub fn pop_num(&self) -> (r: u64)
        ensures
            r == self.num(),
    {
        self.pop_num
    }

    pub fn pop_den(&self) -> (r: u64)
        ensures
            r == self.den(),
    {
        self.pop_den
    }

    /// `ceil(pop_num * n / pop_den)`, at most `n`.
    pub fn removal_target(&self, n: usize) -> (k: usize)
        requires
            self.wf(),
        ensures
            k == self.target(n as int),
            k <= n,
            self.num() == self.den() ==> k == n,
    {
        let num = self.pop_num as u128;
        let den = self.pop_den as u128;
        let m = n as u128;
        proof {
            assert(num * m <= den * m) by (nonlinear_arith)
                requires
                    num <= den,
            ;
            assert(num * m <= u64::MAX * u64::MAX) by (nonlinear_arith)
                requires
                    num <= u64::MAX,
                    m <= u64::MAX,
            ;
        }
        let q = (num * m + den - 1) / den;
        proof {
            assert(q <= m) by (nonlinear_arith)
                requires
                    q == (num * m + den - 1) / (den as int),
                    num * m <= den * m,
                    den > 0,
            ;
            if num == den {
                assert(q == m) by (nonlinear_arith)
                    requires
                        q == (num * m + den - 1) / (den as int),
                        num == den,
                        den > 0,
                ;
            }
        }
        q as usize
    }

    /// One destroy pass: draws node ids without replacement until the
    /// target number of requests has been ejected, then drops the routes
    /// left empty. The removed requests come back in draw order.
    ///
    /// Each draw picks a position in the pool of ids not drawn yet (the
    /// pool starts as `0 .. n` and shrinks by the id drawn), rather than an
    /// id of `0 .. n` with repeats drawn again: the ids are still uniform and
    /// without replacement, and the pass always ends, but a given seed
    /// ejects other ids than a draw-and-retry scheme would. A drawn depot is
    /// used up without counting. With a fraction of one, every request is
    /// ejected; any other fraction must ask for no more requests than stand
    /// on routes.
    pub fn destroy(&mut self, tour: &mut Tour) -> (r: Vec<Node>)
        requires
            old(self).ready_for(*old(tour)),
            old(tour).wf(),
        ensures
            final(self).wf(),
            old(self).num() == old(self).den() ==> {
                &&& final(tour).routes_view().len() == 0
                &&& forall|x: int| #[trigger] old(tour).served(x) ==> holds_id(r@, x)
                &&& r@.len() == old(tour).n_served()
            },
            final(self).num() == old(self).num(),
            final(self).den() == old(self).den(),
            final(tour).wf(),
            final(tour).same_frame(old(tour)),
            final(tour).no_empty_routes(),
            r@.len() == min(old(self).target(old(tour).n() as int), old(tour).n_served()),
            final(tour).n_served() == old(tour).n_served() - r@.len(),
            forall|i: int|
                0 <= i < r@.len() ==> {
                    &&& (#[trigger] r@[i]).kind == NodeKind::Request
                    &&& r@[i] == old(tour).node_of(r@[i].id as int)
                    &&& old(tour).served(r@[i].id as int)
                },
            forall|i: int, j: int| 0 <= i < j < r@.len() ==> (#[trigger] r@[i]).id != (#[trigger] r@[j]).id,
            forall|x: int| #[trigger] final(tour).served(x) == (old(tour).served(x) && !holds_id(r@, x)),
            ({
                let d = draw_model(
                    old(self).rng_state(),
                    all_ids(old(tour).n()),
                    old(tour).layout(),
                    old(self).target(old(tour).n() as int) as nat,
                );
                &&& final(self).rng_state() == d.0
                &&& final(tour).layout() == nonempty_layout(d.1)
                &&& ids_of(r@) == d.2
            }),
    {
        let n = tour.n_nodes();
        let k = self.removal_target(n);
        let mut pool: Vec<usize> = Vec::new();
        let mut i: usize = 0;
        while i < n
            invariant
                i <= n,
                pool@.len() == i,
                forall|a: int| 0 <= a < i ==> #[trigger] pool@[a] == a,
            decreases n - i,
        {
            pool.push(i);
            i = i + 1;
        }
        proof {
            assert forall|x: int| tour.served(x) implies pool@.contains(x as usize) by {
                let rs = tour.routes_view();
                let (r, a) = choose|r: int, a: int|
                    0 <= r < rs.len() && 0 <= a < rs[r].ids().len() && #[trigger] rs[r].ids()[a] == x;
                assert(tour.route_ok(rs[r]));
                assert(tour.is_request(rs[r].ids()[a] as int));
                assert(pool@[x] == x as usize);
            }
        }
        let mut result: Vec<Node> = Vec::new();
        let mut rem: usize = k;
        let ghost d0 = draw_model(self.rng, pool@, tour.layout(), k as nat);
        proof {
            lemma_member_count_nonneg(tour.routes_view());
            assert(pool@ =~= all_ids(n as nat));
            assert(ids_of(result@) + d0.2 =~= d0.2);
        }
        while rem > 0 && pool.len() > 0
            invariant
                tour.wf(),
                tour.same_frame(old(tour)),
                self.wf(),
                self.num() == old(self).num(),
                self.den() == old(self).den(),
                rem + result@.len() == k,
                k == old(self).target(old(tour).n() as int),
                tour.n_served() == old(tour).n_served() - result@.len(),
                tour.n_served() >= 0,
                old(self).num() == old(self).den() ==> rem >= pool@.len(),
                forall|x: int| tour.served(x) ==> pool@.contains(x as usize),
                forall|a: int|
                    0 <= a < result@.len() ==> {
                        &&& (#[trigger] result@[a]).kind == NodeKind::Request
                        &&& result@[a] == old(tour).node_of(result@[a].id as int)
                        &&& old(tour).served(result@[a].id as int)
                    },
                forall|a: int, b: int|
                    0 <= a < b < result@.len() ==> (#[trigger] result@[a]).id != (#[trigger] result@[b]).id,
                forall|x: int| #[trigger] tour.served(x) == (old(tour).served(x) && !holds_id(result@, x)),
                ({
                    let d = draw_model(self.rng, pool@, tour.layout(), rem as nat);
                    &&& d0.0 == d.0
                    &&& d0.1 == d.1
                    &&& d0.2 == ids_of(result@) + d.2
                }),
            decreases pool@.len(),
        {
            let ghost rng0 = self.rng;
            let (v, next) = draw_below(self.rng, pool.len() as u64);
            self.rng = next;
            let j = v as usize;
            let ghost pool0 = pool@;
            let ghost tour0 = *tour;
            let ghost result0 = result@;
            let ghost rem0 = rem;
            let id = pool.remove(j);
            proof {
                tour0.lemma_served_placed(id as int);
            }
            let ejected = tour.eject(id);
            match ejected {
                Some(node) => {
                    result.push(node);
                    rem = rem - 1;
                    proof {
                        assert forall|x: int| #[trigger]
                            tour.served(x) == (old(tour).served(x) && !holds_id(result@, x)) by {
                            if holds_id(result@, x) {
                                let a = choose|a: int| 0 <= a < result@.len() && #[trigger] result@[a].id == x;
                                if a < result0.len() {
                                    assert(holds_id(result0, x));
                                }
                            }
                            if holds_id(result0, x) {
                                let a = choose|a: int| 0 <= a < result0.len() && #[trigger] result0[a].id == x;
                                assert(result@[a].id == x);
                            }
                            if x == id {
                                assert(result@[result@.len() - 1].id == x);
                            }
                        }
                        assert forall|a: int, b: int|
                            0 <= a < b < result@.len() implies (#[trigger] result@[a]).id
                            != (#[trigger] result@[b]).id by {
                            if b == result@.len() - 1 {
                                assert(result@[a] == result0[a]);
                                assert(holds_id(result0, result0[a].id as int));
                                assert(!tour0.served(result0[a].id as int));
                            }
                        }
                    }
                },
                None => {},
            }
            proof {
                let d_pre = draw_model(rng0, pool0, tour0.layout(), rem0 as nat);
                let d_post = draw_model(self.rng, pool@, tour.layout(), rem as nat);
                assert(pcg_range(rng0, pool0.len() as u64) == (v, self.rng));
                assert(pool@ == pool0.remove(v as int));
                assert(pool0[v as int] == id);
                if ejected.is_some() {
                    assert(placed(tour0.layout(), id as int));
                    assert(rem == rem0 - 1);
                    assert(tour.layout() == eject_layout(tour0.layout(), id as int));
                    assert(d_pre == ((d_post.0, d_post.1, seq![id] + d_post.2)));
                    assert(ids_of(result@) =~= ids_of(result0).push(id));
                    assert(d_pre.2 =~= seq![id] + d_post.2);
                    assert(ids_of(result@) + d_post.2 =~= ids_of(result0) + d_pre.2);
                }
                lemma_member_count_nonneg(tour.routes_view());
                assert forall|x: int| tour.served(x) implies pool@.contains(x as usize) by {
                    assert(tour0.served(x));
                    let p = choose|p: int| 0 <= p < pool0.len() && pool0[p] == x as usize;
                    if p < j {
                        assert(pool@[p] == x as usize);
                    } else {
                        assert(p != j);
                        assert(pool@[p - 1] == x as usize);
                    }
                }
            }
        }
        proof {
            if pool@.len() == 0 && member_count(tour.routes_view()) > 0 {
                let rs = tour.routes_view();
                lemma_some_route_nonempty(rs);
                let r = choose|r: int| 0 <= r < rs.len() && #[trigger] rs[r].ids().len() > 0;
                assert(tour.served(rs[r].ids()[0] as int));
            }
        }
        let ghost t1 = *tour;
        tour.drop_empty();
        proof {
            if old(self).num() == old(self).den() {
                assert(pool@.len() == 0);
                assert(member_count(t1.routes_view()) == 0);
                if tour.routes_view().len() > 0 {
                    assert(tour.routes_view()[0].ids().len() > 0);
                    assert(tour.served(tour.routes_view()[0].ids()[0] as int));
                    assert(t1.served(tour.routes_view()[0].ids()[0] as int));
                    let (ra, ia) = choose|ra: int, ia: int|
                        0 <= ra < t1.routes_view().len() && 0 <= ia < t1.routes_view()[ra].ids().len()
                            && #[trigger] t1.routes_view()[ra].ids()[ia] == tour.routes_view()[0].ids()[0] as int;
                    assert(pool@.contains(t1.routes_view()[ra].ids()[ia]));
                }
                assert forall|x: int| #[trigger] old(tour).served(x) implies holds_id(result@, x) by {
                    if !holds_id(result@, x) {
                        assert(t1.served(x));
                        assert(pool@.contains(x as usize));
                    }
                }
            }
        }
        result
    }
}

/// Change in tour length when request `x` goes between the ends of arc
/// `p` of route `r` of layout `l`.
pub open spec fn insert_delta(l: Seq<(usize, Seq<usize>)>, reg: NodeRegistry, r: int, p: int, x: int) -> int {
    let t = tail_of(l[r], p) as int;
    let h = head_of(l[r], p) as int;
    reg.dist_of(t, x) + reg.dist_of(x, h) - reg.dist_of(t, h)
}

/// Route `r` of layout `l` has room for `demand` more under capacity `cap`.
pub open spec fn fits(l: Seq<(usize, Seq<usize>)>, reg: NodeRegistry, cap: u64, r: int, demand: u64) -> bool {
    demand_sum(l[r].1, reg.demands_view()) + demand <= cap
}

/// Arc `p` of route `r` is a place where `node` may go.
pub open spec fn candidate(
    l: Seq<(usize, Seq<usize>)>,
    reg: NodeRegistry,
    cap: u64,
    r: int,
    p: int,
    node: Node,
) -> bool {
    &&& 0 <= r < l.len()
    &&& fits(l, reg, cap, r, node.demand)
    &&& 0 <= p <= l[r].1.len()
}

/// Arc `p1` of route `r1` comes before arc `p2` of route `r2` when scanning
/// routes in order and the arcs of each route in order.
pub open spec fn scanned_before(r1: int, p1: int, r2: int, p2: int) -> bool {
    r1 < r2 || (r1 == r2 && p1 < p2)
}

/// `best` is the first place of least delta among the candidates that come
/// before `(a, b)`, or there is none and `best` is `None`.
pub open spec fn best_before(
    l: Seq<(usize, Seq<usize>)>,
    reg: NodeRegistry,
    cap: u64,
    node: Node,
    best: Option<(usize, usize)>,
    a: int,
    b: int,
) -> bool {
    match best {
        None => forall|r2: int, p2: int|
            #[trigger] candidate(l, reg, cap, r2, p2, node) ==> !scanned_before(r2, p2, a, b),
        Some((br, bp)) => {
            &&& candidate(l, reg, cap, br as int, bp as int, node)
            &&& scanned_before(br as int, bp as int, a, b)
            &&& forall|r2: int, p2: int|
                #[trigger] candidate(l, reg, cap, r2, p2, node) && scanned_before(r2, p2, a, b) ==> {
                    &&& insert_delta(l, reg, br as int, bp as int, node.id as int) <= insert_delta(
                        l,
                        reg,
                        r2,
                        p2,
                        node.id as int,
                    )
                    &&& (scanned_before(r2, p2, br as int, bp as int) ==> insert_delta(
                        l,
                        reg,
                        br as int,
                        bp as int,
                        node.id as int,
                    ) < insert_delta(l, reg, r2, p2, node.id as int))
                }
        },
    }
}

/// Where greedy reinsertion puts `node` on layout `l`: the first place of
/// least delta among the routes with room, else position 0 of a new route
/// at the end.
pub open spec fn greedy_place(l: Seq<(usize, Seq<usize>)>, reg: NodeRegistry, cap: u64, node: Node) -> (usize, usize) {
    if exists|r2: int, p2: int| #[trigger] candidate(l, reg, cap, r2, p2, node) {
        choose|rp: (usize, usize)| best_before(l, reg, cap, node, Some(rp), l.len() as int, 0)
    } else {
        (l.len() as usize, 0usize)
    }
}

/// At most one place is the first of least delta.
proof fn lemma_best_unique(
    l: Seq<(usize, Seq<usize>)>,
    reg: NodeRegistry,
    cap: u64,
    node: Node,
    a: (usize, usize),
    b: (usize, usize),
)
    requires
        best_before(l, reg, cap, node, Some(a), l.len() as int, 0),
        best_before(l, reg, cap, node, Some(b), l.len() as int, 0),
    ensures
        a == b,
{
    assert(candidate(l, reg, cap, a.0 as int, a.1 as int, node));
    assert(candidate(l, reg, cap, b.0 as int, b.1 as int, node));
}

/// Layout `l` with `id` placed at `rp`: inside route `rp.0` at position
/// `rp.1`, or alone on a new route at `anchor` when `rp.0` is past the end.
pub open spec fn insert_layout(l: Seq<(usize, Seq<usize>)>, anchor: usize, rp: (usize, usize), id: usize) -> Seq<(usize, Seq<usize>)> {
    if rp.0 < l.len() {
        l.update(rp.0 as int, (l[rp.0 as int].0, l[rp.0 as int].1.insert(rp.1 as int, id)))
    } else {
        l.push((anchor, seq![id]))
    }
}

/// Registry data of node `id`, as a `Node`.
pub open spec fn node_in(reg: NodeRegistry, id: usize) -> Node {
    Node { id, kind: reg.kind_of(id as int), demand: reg.demands_view()[id as int] }
}

/// Layout `l` after greedy reinsertion of the requests `ids`, in order.
pub open spec fn rebuild_model(
    l: Seq<(usize, Seq<usize>)>,
    reg: NodeRegistry,
    cap: u64,
    anchor: usize,
    ids: Seq<usize>,
) -> Seq<(usize, Seq<usize>)>
    decreases ids.len(),
{
    if ids.len() == 0 {
        l
    } else {
        let nd = node_in(reg, ids[0]);
        rebuild_model(insert_layout(l, anchor, greedy_place(l, reg, cap, nd), ids[0]), reg, cap, anchor, ids.skip(1))
    }
}

/// The cheapest place for request `node` over the arcs of every route with
/// room for it, as (route, arc); ties go to the first one scanned, routes in
/// order and the arcs of each route in order. `None` when no route has room.
pub fn best_insertion(tour: &Tour, node: Node) -> (r: Option<(usize, usize)>)
    requires
        tour.wf(),
        node.id < tour.n(),
    ensures
        best_before(tour.layout(), tour.registry(), tour.cap(), node, r, tour.routes_view().len() as int, 0),
{
    let mut best: Option<(usize, usize)> = None;
    let mut best_delta: i128 = 0;
    let mut r: usize = 0;
    while r < tour.n_routes()
        invariant
            tour.wf(),
            node.id < tour.n(),
            r <= tour.routes_view().len(),
            best_before(tour.layout(), tour.registry(), tour.cap(), node, best, r as int, 0),
            best matches Some((br, bp)) ==> best_delta == insert_delta(tour.layout(), tour.registry(), br as int, bp as int, node.id as int),
        decreases tour.routes_view().len() - r,
    {
        proof {
            assert(tour.route_ok(tour.routes_view()[r as int]));
        }
        if tour.check_capacity(r, node.demand) {
            let rt = tour.route(r);
            let len = rt.len();
            proof {
                assert(tour.route_ok(*rt));
            }
            let mut p: usize = 0;
            loop
                invariant_except_break
                    best_before(tour.layout(), tour.registry(), tour.cap(), node, best, r as int, p as int),
                invariant
                    tour.wf(),
                    node.id < tour.n(),
                    r < tour.routes_view().len(),
                    *rt == tour.routes_view()[r as int],
                    tour.route_ok(*rt),
                    fits(tour.layout(), tour.registry(), tour.cap(), r as int, node.demand),
                    len == rt.ids().len(),
                    p <= len,
                    best matches Some((br, bp)) ==> best_delta == insert_delta(tour.layout(), tour.registry(), br as int, bp as int, node.id as int),
                ensures
                    best_before(tour.layout(), tour.registry(), tour.cap(), node, best, r as int + 1, 0),
                decreases len - p,
            {
                let (t, h) = rt.arc(p);
                proof {
                    if p > 0 {
                        assert(tour.is_request(rt.ids()[p - 1] as int));
                    }
                    if p < len {
                        assert(tour.is_request(rt.ids()[p as int] as int));
                    }
                }
                let d_th = tour.distance(t, h);
                let d_tx = tour.distance(t, node.id);
                let d_xh = tour.distance(node.id, h);
                let delta: i128 = d_tx as i128 + d_xh as i128 - d_th as i128;
                let ghost prev = best;
                if best.is_none() || delta < best_delta {
                    best = Some((r, p));
                    best_delta = delta;
                }
                proof {
                    assert(candidate(tour.layout(), tour.registry(), tour.cap(), r as int, p as int, node));
                    assert forall|r2: int, p2: int|
                        #[trigger] candidate(tour.layout(), tour.registry(), tour.cap(), r2, p2, node) && scanned_before(r2, p2, r as int, p as int + 1)
                            && !scanned_before(r2, p2, r as int, p as int) implies r2 == r && p2 == p by {
                    }
                }
                if p == len {
                    proof {
                        assert forall|r2: int, p2: int|
                            #[trigger] candidate(tour.layout(), tour.registry(), tour.cap(), r2, p2, node) && scanned_before(r2, p2, r as int + 1, 0)
                                implies scanned_before(r2, p2, r as int, p as int + 1) by {
                        }
                    }
                    break;
                }
                p = p + 1;
            }
        } else {
            proof {
                assert forall|r2: int, p2: int|
                    #[trigger] candidate(tour.layout(), tour.registry(), tour.cap(), r2, p2, node) && scanned_before(r2, p2, r as int + 1, 0)
                        implies scanned_before(r2, p2, r as int, 0) by {
                }
            }
        }
        r = r + 1;
    }
    best
}

/// What the rebuild operator may be handed: requests of the tour, off
/// every route, each with its registry data and within capacity, no id twice.
pub open spec fn detached_requests(t: Tour, nodes: Seq<Node>) -> bool {
    &&& forall|i: int|
        0 <= i < nodes.len() ==> {
            &&& t.is_request((#[trigger] nodes[i]).id as int)
            &&& nodes[i] == t.node_of(nodes[i].id as int)
            &&& !t.served(nodes[i].id as int)
            &&& nodes[i].demand <= t.cap()
        }
    &&& forall|i: int, j: int| 0 <= i < j < nodes.len() ==> (#[trigger] nodes[i]).id != (#[trigger] nodes[j]).id
    &&& (nodes.len() > 0 ==> t.anchor_depot().is_some())
}

/// Places request `node` at its best insertion (see `best_insertion`); when
/// no route has room, opens a new route with `node` as its only request.
/// Returns the route and the position it took.
pub fn insert_greedy(tour: &mut Tour, node: Node) -> (r: (usize, usize))
    requires
        old(tour).wf(),
        old(tour).is_request(node.id as int),
        node == old(tour).node_of(node.id as int),
        !old(tour).served(node.id as int),
        node.demand <= old(tour).cap(),
        old(tour).anchor_depot().is_some(),
    ensures
        final(tour).wf(),
        final(tour).same_frame(old(tour)),
        final(tour).n_served() == old(tour).n_served() + 1,
        forall|x: int| #[trigger] final(tour).served(x) == (old(tour).served(x) || x == node.id),
        best_insertion_spec(*old(tour), node, r),
        r == greedy_place(old(tour).layout(), old(tour).registry(), old(tour).cap(), node),
        final(tour).layout() == insert_layout(old(tour).layout(), old(tour).anchor_depot().unwrap(), r, node.id),
        r.0 < old(tour).routes_view().len() ==> {
            &&& final(tour).routes_view().len() == old(tour).routes_view().len()
            &&& final(tour).routes_view()[r.0 as int].ids() == old(tour).routes_view()[r.0 as int].ids().insert(
                r.1 as int,
                node.id,
            )
        },
        r.0 == old(tour).routes_view().len() ==> {
            &&& final(tour).routes_view().len() == old(tour).routes_view().len() + 1
            &&& final(tour).routes_view()[r.0 as int].ids() == seq![node.id]
        },
        forall|k: int|
            0 <= k < old(tour).routes_view().len() && k != r.0 ==> #[trigger] final(tour).routes_view()[k]
                == old(tour).routes_view()[k],
{
    let ghost l0 = tour.layout();
    let ghost reg = tour.registry();
    let ghost cap = tour.cap();
    match best_insertion(tour, node) {
        Some((r, p)) => {
            tour.insert_at(r, p, node);
            proof {
                let g = greedy_place(l0, reg, cap, node);
                assert(candidate(l0, reg, cap, r as int, p as int, node));
                lemma_best_unique(l0, reg, cap, node, g, (r, p));
                assert(tour.layout() =~= insert_layout(l0, old(tour).anchor_depot().unwrap(), (r, p), node.id));
            }
            (r, p)
        },
        None => {
            let r = tour.new_route();
            proof {
                assert(tour.route_ok(tour.routes_view()[r as int]));
                assert(tour.routes_view()[r as int].ids() =~= Seq::<usize>::empty());
                assert(demand_sum(Seq::<usize>::empty(), tour.dem()) == 0);
                assert forall|x: int| #[trigger] tour.served(x) == old(tour).served(x) by {
                }
                assert forall|k: int| 0 <= k < old(tour).routes_view().len() implies #[trigger] tour.routes_view()[k]
                    == old(tour).routes_view()[k] by {
                    assert(tour.routes_view()[k] == tour.routes_view().drop_last()[k]);
                }
            }
            tour.insert_at(r, 0, node);
            proof {
                assert(tour.routes_view()[r as int].ids() =~= seq![node.id]);
                assert(tour.layout() =~= insert_layout(l0, old(tour).anchor_depot().unwrap(), (r, 0), node.id));
            }
            (r, 0)
        },
    }
}

/// Where the greedy step puts `node` on `t`: the best insertion when a
/// route has room, else position 0 of a new route at the end.
pub open spec fn best_insertion_spec(t: Tour, node: Node, r: (usize, usize)) -> bool {
    let l = t.layout();
    if exists|r2: int, p2: int| #[trigger] candidate(l, t.registry(), t.cap(), r2, p2, node) {
        best_before(l, t.registry(), t.cap(), node, Some(r), l.len() as int, 0)
    } else {
        r == (l.len() as usize, 0usize)
    }
}

/// Reinserts detached requests one at a time, in the order given, each at
/// its cheapest feasible place.
#[derive(Debug)]
pub struct GreedyRebuild {}

impl GreedyRebuild {
    pub fn new() -> (r: Self)
        ensures
            r == (GreedyRebuild {  }),
    {
        GreedyRebuild {  }
    }

    /// Places every node of `unserved`, in order, with `insert_greedy`.
    pub fn rebuild(&mut self, tour: &mut Tour, unserved: Vec<Node>)
        requires
            old(tour).wf(),
            detached_requests(*old(tour), unserved@),
        ensures
            final(tour).wf(),
            final(tour).same_frame(old(tour)),
            final(tour).n_served() == old(tour).n_served() + unserved@.len(),
            forall|x: int| #[trigger] final(tour).served(x) == (old(tour).served(x) || holds_id(unserved@, x)),
            final(tour).layout() == rebuild_model(
                old(tour).layout(),
                old(tour).registry(),
                old(tour).cap(),
                old(tour).anchor_depot().unwrap(),
                ids_of(unserved@),
            ),
    {
        let ghost reg = tour.registry();
        let ghost cap = tour.cap();
        let ghost anchor = tour.anchor_depot().unwrap();
        let ghost target = rebuild_model(tour.layout(), reg, cap, anchor, ids_of(unserved@));
        let mut i: usize = 0;
        proof {
            assert(ids_of(unserved@).skip(0) =~= ids_of(unserved@));
        }
        while i < unserved.len()
            invariant
                tour.wf(),
                tour.same_frame(old(tour)),
                i <= unserved@.len(),
                detached_requests(*old(tour), unserved@),
                tour.n_served() == old(tour).n_served() + i,
                forall|x: int| #[trigger] tour.served(x) == (old(tour).served(x) || holds_id(unserved@.subrange(0, i as int), x)),
                target == rebuild_model(tour.layout(), reg, cap, anchor, ids_of(unserved@).skip(i as int)),
                reg == tour.registry(),
                cap == tour.cap(),
                anchor == tour.anchor_depot().unwrap(),
            decreases unserved@.len() - i,
        {
            let node = unserved[i];
            let ghost t0 = *tour;
            proof {
                assert(old(tour).is_request(node.id as int));
                if tour.served(node.id as int) {
                    let a = choose|a: int| 0 <= a < i && #[trigger] unserved@.subrange(0, i as int)[a].id == node.id;
                    assert(unserved@[a].id == node.id);
                }
            }
            insert_greedy(tour, node);
            i = i + 1;
            proof {
                let rest = ids_of(unserved@).skip(i - 1);
                assert(rest[0] == node.id);
                assert(node_in(reg, node.id) == node);
                assert(rest.skip(1) =~= ids_of(unserved@).skip(i as int));
                assert forall|x: int| #[trigger] tour.served(x) == (old(tour).served(x) || holds_id(unserved@.subrange(0, i as int), x)) by {
                    let pre = unserved@.subrange(0, i - 1);
                    let cur = unserved@.subrange(0, i as int);
                    if holds_id(pre, x) {
                        let a = choose|a: int| 0 <= a < pre.len() && #[trigger] pre[a].id == x;
                        assert(cur[a].id == x);
                    }
                    if holds_id(cur, x) {
                        let a = choose|a: int| 0 <= a < cur.len() && #[trigger] cur[a].id == x;
                        if a < i - 1 {
                            assert(pre[a].id == x);
                        }
                    }
                    if x == node.id {
                        assert(cur[i - 1].id == x);
                    }
                }
            }
        }
        proof {
            assert(unserved@.subrange(0, i as int) =~= unserved@);
            assert(ids_of(unserved@).skip(i as int) =~= Seq::<usize>::empty());
        }
    }
}

/// What one improvement pass leaves, as a function of the generator state
/// `st`, the fraction `num / den`, the layout `l` of a tour of `n` nodes and
/// its registry, capacity and anchor depot: the generator's next state, the
/// ids removed in draw order, and the layout after their reinsertion.
pub open spec fn pass_outcome(
    st: (u128, u128),
    num: u64,
    den: u64,
    l: Seq<(usize, Seq<usize>)>,
    n: nat,
    reg: NodeRegistry,
    cap: u64,
    anchor: usize,
) -> ((u128, u128), Seq<usize>, Seq<(usize, Seq<usize>)>) {
    let d = draw_model(st, all_ids(n), l, removal_count(num, den, n as int) as nat);
    (d.0, d.2, rebuild_model(nonempty_layout(d.1), reg, cap, anchor, d.2))
}

/// One improvement pass: a destroy pass, then a greedy rebuild of exactly
/// the nodes it removed. Every request that was on a route is on one again,
/// capacity holds, and the new total distance is returned.
pub fn improve_step(tour: &mut Tour, rd: &mut RandomDestroy, gr: &mut GreedyRebuild) -> (d: u128)
    requires
        old(tour).wf(),
        old(rd).ready_for(*old(tour)),
    ensures
        final(rd).wf(),
        final(tour).wf(),
        final(tour).same_frame(old(tour)),
        final(rd).num() == old(rd).num(),
        final(rd).den() == old(rd).den(),
        final(tour).n_served() == old(tour).n_served(),
        forall|x: int| #[trigger] final(tour).served(x) == old(tour).served(x),
        d as int == crate::tour::sat_u128(final(tour).cost()),
        ({
            let o = pass_outcome(
                old(rd).rng_state(),
                old(rd).num(),
                old(rd).den(),
                old(tour).layout(),
                old(tour).n(),
                old(tour).registry(),
                old(tour).cap(),
                old(tour).anchor_depot().unwrap(),
            );
            &&& final(rd).rng_state() == o.0
            &&& final(tour).layout() == o.2
        }),
{
    let ghost t0 = *tour;
    let unserved = rd.destroy(tour);
    proof {
        assert forall|i: int| 0 <= i < unserved@.len() implies (#[trigger] unserved@[i]).demand <= tour.cap() by {
            let x = unserved@[i].id as int;
            let (r, a) = choose|r: int, a: int|
                0 <= r < t0.routes_view().len() && 0 <= a < t0.routes_view()[r].ids().len()
                    && #[trigger] t0.routes_view()[r].ids()[a] == x;
            t0.lemma_served_request(r, a);
        }
        assert(!tour.served(unserved@[0].id as int) || unserved@.len() == 0);
        if unserved@.len() > 0 {
            let x = unserved@[0].id as int;
            let (r, a) = choose|r: int, a: int|
                0 <= r < t0.routes_view().len() && 0 <= a < t0.routes_view()[r].ids().len()
                    && #[trigger] t0.routes_view()[r].ids()[a] == x;
            t0.lemma_served_request(r, a);
        }
        assert forall|i: int| 0 <= i < unserved@.len() implies !tour.served((#[trigger] unserved@[i]).id as int) by {
            assert(holds_id(unserved@, unserved@[i].id as int));
        }
    }
    gr.rebuild(tour, unserved);
    proof {
        assert forall|x: int| #[trigger] tour.served(x) == t0.served(x) by {
            if holds_id(unserved@, x) {
                let i = choose|i: int| 0 <= i < unserved@.len() && #[trigger] unserved@[i].id == x;
                assert(t0.served(unserved@[i].id as int));
            }
        }
    }
    tour.total_distance()
}

/// What `k` improvement passes leave, from generator state `st` and layout
/// `l`: the generator's state, the layout, and the least total distance
/// seen, the starting layout's included.
pub open spec fn passes(
    st: (u128, u128),
    num: u64,
    den: u64,
    l: Seq<(usize, Seq<usize>)>,
    n: nat,
    reg: NodeRegistry,
    cap: u64,
    anchor: usize,
    k: nat,
) -> ((u128, u128), Seq<(usize, Seq<usize>)>, int)
    decreases k,
{
    if k == 0 {
        (st, l, sat_u128(routes_cost(l, reg)))
    } else {
        let p = passes(st, num, den, l, n, reg, cap, anchor, (k - 1) as nat);
        let o = pass_outcome(p.0, num, den, p.1, n, reg, cap, anchor);
        (o.0, o.2, min(p.2, sat_u128(routes_cost(o.2, reg))))
    }
}

/// Runs `iters` improvement passes, always keeping the changed tour, and
/// returns the least total distance seen, the starting one included.
pub fn improve(tour: &mut Tour, rd: &mut RandomDestroy, gr: &mut GreedyRebuild, iters: u64) -> (best: u128)
    requires
        old(tour).wf(),
        old(rd).ready_for(*old(tour)),
    ensures
        final(tour).wf(),
        final(tour).same_frame(old(tour)),
        final(rd).wf(),
        final(rd).num() == old(rd).num(),
        final(rd).den() == old(rd).den(),
        final(tour).n_served() == old(tour).n_served(),
        forall|x: int| #[trigger] final(tour).served(x) == old(tour).served(x),
        ({
            let p = passes(
                old(rd).rng_state(),
                old(rd).num(),
                old(rd).den(),
                old(tour).layout(),
                old(tour).n(),
                old(tour).registry(),
                old(tour).cap(),
                old(tour).anchor_depot().unwrap(),
                iters as nat,
            );
            &&& final(rd).rng_state() == p.0
            &&& final(tour).layout() == p.1
            &&& best as int == p.2
        }),
{
    let ghost num = rd.num();
    let ghost den = rd.den();
    let ghost l0 = tour.layout();
    let ghost st0 = rd.rng_state();
    let ghost n = tour.n();
    let ghost reg = tour.registry();
    let ghost cap = tour.cap();
    let ghost anchor = tour.anchor_depot().unwrap();
    let mut best = tour.total_distance();
    let mut it: u64 = 0;
    while it < iters
        invariant
            it <= iters,
            tour.wf(),
            tour.same_frame(old(tour)),
            rd.ready_for(*tour),
            rd.num() == num,
            rd.den() == den,
            num == old(rd).num(),
            den == old(rd).den(),
            n == tour.n(),
            reg == tour.registry(),
            cap == tour.cap(),
            anchor == tour.anchor_depot().unwrap(),
            l0 == old(tour).layout(),
            st0 == old(rd).rng_state(),
            n == old(tour).n(),
            tour.n_served() == old(tour).n_served(),
            forall|x: int| #[trigger] tour.served(x) == old(tour).served(x),
            ({
                let p = passes(st0, num, den, l0, n, reg, cap, anchor, it as nat);
                &&& rd.rng_state() == p.0
                &&& tour.layout() == p.1
                &&& best as int == p.2
            }),
        decreases iters - it,
    {
        let d = improve_step(tour, rd, gr);
        if d < best {
            best = d;
        }
        it = it + 1;
    }
    best
}

impl Destroy for RandomDestroy {
    open spec fn ready(&self, tour: Tour) -> bool {
        self.ready_for(tour)
    }

    fn destroy(&mut self, tour: &mut Tour) -> (r: Vec<Node>) {
        RandomDestroy::destroy(self, tour)
    }
}

impl Rebuild for GreedyRebuild {
    fn rebuild(&mut self, tour: &mut Tour, unserved: Vec<Node>) {
        GreedyRebuild::rebuild(self, tour, unserved)
    }
}

impl Default for GreedyRebuild {
    fn default() -> (r: Self)
        ensures
            r == (GreedyRebuild {  }),
    {
        GreedyRebuild {  }
    }
}

proof fn lemma_some_route_nonempty(rs: Seq<crate::tour::Route>)
    requires
        member_count(rs) > 0,
    ensures
        exists|r: int| 0 <= r < rs.len() && #[trigger] rs[r].ids().len() > 0,
    decreases rs.len(),
{
    if rs.len() > 0 && rs.last().ids().len() == 0 {
        lemma_some_route_nonempty(rs.drop_last());
        let r = choose|r: int| 0 <= r < rs.drop_last().len() && #[trigger] rs.drop_last()[r].ids().len() > 0;
        assert(rs[r] == rs.drop_last()[r]);
    } else if rs.len() > 0 {
        assert(rs[rs.len() - 1].ids().len() > 0);
    }
}

} // verus!

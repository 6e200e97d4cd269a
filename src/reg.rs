use vstd::prelude::*;

verus! {

/// Whether a node is a depot (a permanent route anchor) or a request.
#[derive(Clone, Copy, Debug, PartialEq, Eq, Structural)]
pub enum NodeKind {
    Depot,
    Request,
}

/// Offset of column `j` in a lower triangle stored column by column.
pub open spec fn col_start(n: int, j: int) -> int
    decreases j,
{
    if j <= 0 {
        0
    } else {
        col_start(n, j - 1) + (n - j)
    }
}

proof fn lemma_col_start_mono(n: int, j: int, k: int)
    requires
        0 <= j <= k <= n,
    ensures
        col_start(n, j) <= col_start(n, k),
    decreases k - j,
{
    if j < k {
        lemma_col_start_mono(n, j, k - 1);
    }
}

/// A distance source that holds the strict lower triangle of a symmetric
/// matrix, column after column: for column `j`, the rows `j + 1 .. n`.
#[derive(Clone, Debug)]
pub struct LowerColDist {
    n: usize,
    data: Vec<u64>,
}

impl LowerColDist {
    pub closed spec fn dim(&self) -> nat {
        self.n as nat
    }

    pub closed spec fn wf(&self) -> bool {
        self.data@.len() == col_start(self.n as int, self.n as int)
    }

    /// The distance between `i` and `j`, `i != j`, as stored.
    pub open spec fn entry(&self, i: int, j: int) -> u64 {
        if i > j {
            self.values()[col_start(self.dim() as int, j) + (i - j - 1)]
        } else {
            self.values()[col_start(self.dim() as int, i) + (j - i - 1)]
        }
    }

    pub closed spec fn values(&self) -> Seq<u64> {
        self.data@
    }

    pub fn new(n: usize, data: Vec<u64>) -> (r: Self)
        requires
            data@.len() == col_start(n as int, n as int),
        ensures
            r.wf(),
            r.dim() == n,
            r.values() == data@,
    {
        LowerColDist { n, data }
    }

    /// Distance between two distinct indices below the dimension.
    pub fn get(&self, i: usize, j: usize) -> (r: u64)
        requires
            self.wf(),
            i < self.dim(),
            j < self.dim(),
            i != j,
        ensures
            r == self.entry(i as int, j as int),
    {
        let (hi, lo) = if i > j { (i, j) } else { (j, i) };
        proof {
            lemma_col_start_mono(self.n as int, lo as int + 1, self.n as int);
        }
        let len = self.data.len();
        proof {
            lemma_col_start_mono(self.n as int, lo as int, lo as int + 1);
        }
        let mut pos: usize = 0;
        let mut c: usize = 0;
        while c < lo
            invariant
                c <= lo,
                lo < hi < self.n,
                pos == col_start(self.n as int, c as int),
                self.wf(),
                col_start(self.n as int, lo as int + 1) <= self.data@.len(),
                col_start(self.n as int, lo as int) <= col_start(self.n as int, lo as int + 1),
                len == self.data@.len(),
            decreases lo - c,
        {
            proof {
                lemma_col_start_mono(self.n as int, c as int + 1, lo as int);
            }
            pos = pos + (self.n - c - 1);
            c = c + 1;
        }
        self.data[pos + (hi - lo - 1)]
    }
}

/// The nodes of an instance: per id its kind and demand, and, once
/// computed, a symmetric distance table with a zero diagonal.
#[derive(Clone, Debug)]
pub struct NodeRegistry {
    kinds: Vec<NodeKind>,
    demands: Vec<u64>,
    dist: Vec<Vec<u64>>,
    computed: bool,
}

impl NodeRegistry {
    pub open spec fn len(&self) -> nat {
        self.kinds_view().len()
    }

    pub open spec fn kind_of(&self, i: int) -> NodeKind {
        self.kinds_view()[i]
    }

    pub open spec fn demand_of(&self, i: int) -> u64 {
        self.demands_view()[i]
    }

    pub closed spec fn is_computed(&self) -> bool {
        self.computed
    }

    pub closed spec fn dist_of(&self, i: int, j: int) -> u64 {
        self.dist@[i]@[j]
    }

    pub closed spec fn demands_view(&self) -> Seq<u64> {
        self.demands@
    }

    pub closed spec fn kinds_view(&self) -> Seq<NodeKind> {
        self.kinds@
    }

    pub closed spec fn wf(&self) -> bool {
        &&& self.demands@.len() == self.kinds@.len()
        &&& self.computed ==> {
            &&& self.dist@.len() == self.len()
            &&& forall|i: int| 0 <= i < self.len() ==> #[trigger] self.dist@[i]@.len() == self.len()
            &&& forall|i: int, j: int|
                0 <= i < self.len() && 0 <= j < self.len() ==> #[trigger] self.dist_of(i, j)
                    == self.dist_of(j, i)
            &&& forall|i: int| 0 <= i < self.len() ==> #[trigger] self.dist_of(i, i) == 0
        }
    }

    /// A well-formed registry holds one demand per node.
    pub proof fn lemma_lens(&self)
        requires
            self.wf(),
        ensures
            self.demands_view().len() == self.len(),
    {
    }

    /// An empty registry, its distances not yet computed.
    pub fn new() -> (r: Self)
        ensures
            r.wf(),
            r.len() == 0,
            !r.is_computed(),
    {
        NodeRegistry { kinds: Vec::new(), demands: Vec::new(), dist: Vec::new(), computed: false }
    }

    /// Adds a node; its id is the number of nodes before the call.
    pub fn add(&mut self, kind: NodeKind, demand: u64)
        requires
            old(self).wf(),
            !old(self).is_computed(),
        ensures
            final(self).wf(),
            !final(self).is_computed(),
            final(self).kinds_view() == old(self).kinds_view().push(kind),
            final(self).demands_view() == old(self).demands_view().push(demand),
    {
        self.kinds.push(kind);
        self.demands.push(demand);
    }

    pub fn n_nodes(&self) -> (r: usize)
        ensures
            r == self.len(),
    {
        self.kinds.len()
    }

    /// The kind of node `id`, or `None` for an id out of range.
    pub fn kind(&self, id: usize) -> (r: Option<NodeKind>)
        ensures
            id < self.len() ==> r == Some(self.kind_of(id as int)),
            id >= self.len() ==> r.is_none(),
    {
        if id < self.kinds.len() {
            Some(self.kinds[id])
        } else {
            None
        }
    }

    /// The demand of node `id`, or `None` for an id out of range.
    pub fn demand(&self, id: usize) -> (r: Option<u64>)
        requires
            self.wf(),
        ensures
            id < self.len() ==> r == Some(self.demand_of(id as int)),
            id >= self.len() ==> r.is_none(),
    {
        if id < self.demands.len() {
            Some(self.demands[id])
        } else {
            None
        }
    }

    /// Fills the distance table from `src` once all nodes are added.
    pub fn compute(&mut self, src: &LowerColDist)
        requires
            old(self).wf(),
            !old(self).is_computed(),
            src.wf(),
            src.dim() == old(self).len(),
        ensures
            final(self).wf(),
            final(self).is_computed(),
            final(self).kinds_view() == old(self).kinds_view(),
            final(self).demands_view() == old(self).demands_view(),
            forall|i: int, j: int|
                0 <= i < final(self).len() && 0 <= j < final(self).len() && i != j
                    ==> #[trigger] final(self).dist_of(i, j) == src.entry(i, j),
    {
        let n = self.kinds.len();
        let mut dist: Vec<Vec<u64>> = Vec::new();
        let mut i: usize = 0;
        while i < n
            invariant
                i <= n,
                n == self.len(),
                src.wf(),
                src.dim() == n,
                dist@.len() == i,
                forall|a: int| 0 <= a < i ==> #[trigger] dist@[a]@.len() == n,
                forall|a: int, b: int|
                    0 <= a < i && 0 <= b < n ==> #[trigger] dist@[a]@[b] == (if a == b {
                        0
                    } else {
                        src.entry(a, b)
                    }),
            decreases n - i,
        {
            let mut row: Vec<u64> = Vec::new();
            let mut j: usize = 0;
            while j < n
                invariant
                    j <= n,
                    i < n,
                    src.wf(),
                    src.dim() == n,
                    row@.len() == j,
                    forall|b: int| 0 <= b < j ==> #[trigger] row@[b] == (if i == b {
                        0
                    } else {
                        src.entry(i as int, b)
                    }),
                decreases n - j,
            {
                if i == j {
                    row.push(0);
                } else {
                    let d = src.get(i, j);
                    row.push(d);
                }
                j = j + 1;
            }
            dist.push(row);
            i = i + 1;
        }
        self.dist = dist;
        self.computed = true;
    }

    /// The distance between nodes `a` and `b`.
    pub fn distance(&self, a: usize, b: usize) -> (r: u64)
        requires
            self.wf(),
            self.is_computed(),
            a < self.len(),
            b < self.len(),
        ensures
            r == self.dist_of(a as int, b as int),
    {
        self.dist[a][b]
    }
}

} // verus!

use rand::Rng;
use vstd::prelude::*;

verus! {

/// Coordinates range over `0..COORD_LIMIT` on each axis (hundredths of a unit,
/// so the plane spans `[0, 100)`).
pub const COORD_LIMIT: u32 = 10000;

/// A position on the plane, in hundredths of a unit.
#[derive(Clone, Copy, Debug, PartialEq, Eq, Structural)]
pub struct Coordinate {
    pub x: u32,
    pub y: u32,
}

impl Coordinate {
    pub open spec fn in_range(self) -> bool {
        self.x < COORD_LIMIT && self.y < COORD_LIMIT
    }
}

#[derive(Debug)]
pub struct Node {
    pub name: String,
    pub loc: Coordinate,
}

/// A directed edge named by its endpoints; the weight is in thousandths.
#[derive(Debug)]
pub struct Edge {
    pub source: String,
    pub target: String,
    pub weight: i64,
}

/// Every node and every edge of the store.
#[derive(Debug)]
pub struct GraphData {
    pub nodes: Vec<Node>,
    pub edges: Vec<Edge>,
}

/// Direct neighbour of a node and the weight of the connecting entry.
#[derive(Debug)]
pub struct CircleMember {
    pub name: String,
    pub weight: i64,
}

/// Summary of one node: its name, position in the index, location and out-degree.
#[derive(Debug)]
pub struct PersonInfo {
    pub name: String,
    pub index: usize,
    pub loc: Coordinate,
    pub connections: usize,
}

/// The graph store: nodes in first-seen order and, for each node, its
/// outgoing adjacency entries `(target index, weight)` in insertion order.
/// Names are unique, so a node's position is its identity.
pub struct Graph {
    pub nodes: Vec<Node>,
    pub adj: Vec<Vec<(usize, i64)>>,
}

impl Default for Graph {
    fn default() -> (g: Graph)
        ensures
            g.wf(),
            g.nodes@.len() == 0,
            g.adj@.len() == 0,
    {
        Graph::new()
    }
}

/// Relies on rand::rng and Rng::random_range: a value drawn from `0..bound`
/// (the call panics only on an empty range).
#[verifier::external_body]
fn random_below(bound: u32) -> (r: u32)
    requires
        bound > 0,
    ensures
        r < bound,
{
    rand::rng().random_range(0..bound)
}

/// Number of adjacency entries in the lists `adj[..i]`.
pub open spec fn entries_upto(adj: Seq<Vec<(usize, i64)>>, i: int) -> int
    decreases i,
{
    if i <= 0 {
        0
    } else {
        entries_upto(adj, i - 1) + adj[i - 1]@.len()
    }
}

impl Graph {
    /// The store holds as many adjacency lists as nodes, every target is a
    /// node, names are pairwise distinct and locations lie on the plane.
    pub open spec fn wf(&self) -> bool {
        &&& self.adj@.len() == self.nodes@.len()
        &&& forall|u: int, j: int|
            0 <= u < self.adj@.len() && 0 <= j < self.adj@[u]@.len() ==> (#[trigger] self.adj@[u]@[j]).0
                < self.nodes@.len()
        &&& forall|a: int, b: int|
            0 <= a < self.nodes@.len() && 0 <= b < self.nodes@.len() && a != b ==> (
            #[trigger] self.nodes@[a]).name@ != (#[trigger] self.nodes@[b]).name@
        &&& forall|a: int| 0 <= a < self.nodes@.len() ==> (#[trigger] self.nodes@[a]).loc.in_range()
    }

    pub open spec fn n(&self) -> int {
        self.nodes@.len() as int
    }

    pub open spec fn name_of(&self, i: int) -> Seq<char> {
        self.nodes@[i].name@
    }

    /// The name is that of some node.
    pub open spec fn has_name(&self, name: Seq<char>) -> bool {
        exists|i: int| 0 <= i < self.n() && #[trigger] self.name_of(i) == name
    }

    /// Position `i` is the node called `name`.
    pub open spec fn is_index_of(&self, name: Seq<char>, i: int) -> bool {
        0 <= i < self.n() && self.name_of(i) == name
    }

    /// There is an adjacency entry from `u` to `v`.
    pub open spec fn edge(&self, u: int, v: int) -> bool {
        0 <= u < self.adj@.len() && exists|j: int|
            0 <= j < self.adj@[u]@.len() && (#[trigger] self.adj@[u]@[j]).0 == v
    }

    /// Total number of adjacency entries.
    pub open spec fn entry_total(&self) -> int {
        entries_upto(self.adj@, self.adj@.len() as int)
    }

    /// An empty store.
    pub fn new() -> (g: Graph)
        ensures
            g.wf(),
            g.nodes@.len() == 0,
            g.adj@.len() == 0,
    {
        Graph { nodes: Vec::new(), adj: Vec::new() }
    }

    pub fn node_count(&self) -> (r: usize)
        ensures
            r == self.nodes@.len(),
    {
        self.nodes.len()
    }

    /// Half the number of adjacency entries (the count of undirected edges
    /// when every relation is stored in both directions), saturated at
    /// `usize::MAX`.
    pub fn edge_count(&self) -> (r: usize)
        ensures
            r == if self.entry_total() / 2 <= usize::MAX {
                self.entry_total() / 2
            } else {
                usize::MAX as int
            },
    {
        let mut total: u128 = 0;
        let mut i: usize = 0;
        while i < self.adj.len()
            invariant
                0 <= i <= self.adj@.len(),
                total == entries_upto(self.adj@, i as int),
                total <= i * 0x1_0000_0000_0000_0000,
            decreases self.adj@.len() - i,
        {
            total = total + self.adj[i].len() as u128;
            i = i + 1;
        }
        let half = total / 2;
        if half <= usize::MAX as u128 {
            half as usize
        } else {
            usize::MAX
        }
    }

    /// Position of the node called `name`, if any.
    pub fn index_of(&self, name: &str) -> (r: Option<usize>)
        requires
            self.wf(),
        ensures
            r.is_none() <==> !self.has_name(name@),
            r.is_some() ==> self.is_index_of(name@, r.unwrap() as int),
    {
        let key: String = name.to_owned();
        let mut i: usize = 0;
        while i < self.nodes.len()
            invariant
                0 <= i <= self.nodes@.len(),
                key@ == name@,
                forall|k: int| 0 <= k < i ==> self.name_of(k) != name@,
            decreases self.nodes@.len() - i,
        {
            if self.nodes[i].name == key {
                assert(self.name_of(i as int) == name@);
                return Some(i);
            }
            i = i + 1;
        }
        None
    }

    /// Adds a node called `name` at `loc` unless one exists; returns its position.
    pub fn update_node_at(&mut self, name: &str, loc: Coordinate) -> (r: usize)
        requires
            old(self).wf(),
            loc.in_range(),
        ensures
            final(self).wf(),
            final(self).is_index_of(name@, r as int),
            old(self).has_name(name@) ==> *final(self) == *old(self),
            !old(self).has_name(name@) ==> {
                &&& r == old(self).nodes@.len()
                &&& final(self).nodes@ == old(self).nodes@.push(final(self).nodes@[r as int])
                &&& final(self).nodes@[r as int].loc == loc
                &&& final(self).adj@ == old(self).adj@.push(final(self).adj@[r as int])
                &&& final(self).adj@[r as int]@.len() == 0
            },
    {
        match self.index_of(name) {
            Some(i) => i,
            None => {
                let idx = self.nodes.len();
                self.nodes.push(Node { name: name.to_owned(), loc });
                self.adj.push(Vec::new());
                proof {
                    let g = *old(self);
                    assert forall|a: int| 0 <= a < g.n() implies g.name_of(a) != name@ by {
                        if g.name_of(a) == name@ {
                            assert(g.has_name(name@));
                        }
                    }
                    assert forall|u: int, j: int|
                        0 <= u < self.adj@.len() && 0 <= j < self.adj@[u]@.len() implies (
                        #[trigger] self.adj@[u]@[j]).0 < self.nodes@.len() by {
                        if u < g.adj@.len() {
                            assert(g.adj@[u]@[j] == self.adj@[u]@[j]);
                        }
                    }
                    assert(self.nodes@[idx as int].name@ == name@);
                    assert forall|a: int, b: int|
                        0 <= a < self.nodes@.len() && 0 <= b < self.nodes@.len() && a != b implies (
                        #[trigger] self.nodes@[a]).name@ != (#[trigger] self.nodes@[b]).name@ by {
                        if a < g.n() && b < g.n() {
                            assert(g.nodes@[a] == self.nodes@[a]);
                            assert(g.nodes@[b] == self.nodes@[b]);
                        } else if a < g.n() {
                            assert(g.nodes@[a] == self.nodes@[a]);
                            assert(g.name_of(a) != name@);
                        } else {
                            assert(g.nodes@[b] == self.nodes@[b]);
                            assert(g.name_of(b) != name@);
                        }
                    }
                    assert forall|a: int| 0 <= a < self.nodes@.len() implies (
                    #[trigger] self.nodes@[a]).loc.in_range() by {
                        if a < g.n() {
                            assert(g.nodes@[a] == self.nodes@[a]);
                        }
                    }
                }
                idx
            },
        }
    }

    /// Adds a node called `name` at a random location unless one exists;
    /// returns its position. A known name keeps its location.
    pub fn update_node(&mut self, name: &str) -> (r: usize)
        requires
            old(self).wf(),
        ensures
            final(self).wf(),
            final(self).is_index_of(name@, r as int),
            old(self).has_name(name@) ==> *final(self) == *old(self),
            !old(self).has_name(name@) ==> {
                &&& r == old(self).nodes@.len()
                &&& final(self).nodes@ == old(self).nodes@.push(final(self).nodes@[r as int])
                &&& final(self).adj@ == old(self).adj@.push(final(self).adj@[r as int])
                &&& final(self).adj@[r as int]@.len() == 0
            },
    {
        if let Some(i) = self.index_of(name) {
            return i;
        }
        let x = random_below(COORD_LIMIT);
        let y = random_below(COORD_LIMIT);
        self.update_node_at(name, Coordinate { x, y })
    }

    /// `r` describes node `p`: its name, position, location and out-degree.
    pub open spec fn info_match(&self, p: int, r: PersonInfo) -> bool {
        &&& r.name@ == self.name_of(p)
        &&& r.index == p
        &&& r.loc == self.nodes@[p].loc
        &&& r.connections == self.adj@[p]@.len()
    }

    /// `r` lists, in stored order, the outgoing entries of node `p` by target name.
    pub open spec fn circle_match(&self, p: int, r: Seq<CircleMember>) -> bool {
        &&& r.len() == self.adj@[p]@.len()
        &&& forall|k: int|
            0 <= k < r.len() ==> (#[trigger] r[k]).name@ == self.name_of(self.adj@[p]@[k].0 as int)
                && r[k].weight == self.adj@[p]@[k].1
    }

    /// Direct outgoing neighbours of `person`, in stored order. `None` when
    /// the name is unknown.
    pub fn get_circle(&self, person: &str) -> (r: Option<Vec<CircleMember>>)
        requires
            self.wf(),
        ensures
            r.is_none() <==> !self.has_name(person@),
            r.is_some() ==> forall|p: int| self.is_index_of(person@, p) ==> self.circle_match(p, r.unwrap()@),
    {
        let p = match self.index_of(person) {
            Some(i) => i,
            None => return None,
        };
        let entries = &self.adj[p];
        let mut result: Vec<CircleMember> = Vec::new();
        let mut k: usize = 0;
        while k < entries.len()
            invariant
                self.wf(),
                p < self.n(),
                entries@ == self.adj@[p as int]@,
                k <= entries@.len(),
                result@.len() == k,
                forall|j: int|
                    0 <= j < k ==> (#[trigger] result@[j]).name@ == self.name_of(entries@[j].0 as int)
                        && result@[j].weight == entries@[j].1,
            decreases entries@.len() - k,
        {
            let (v, weight) = entries[k];
            result.push(CircleMember { name: self.nodes[v].name.clone(), weight });
            k = k + 1;
        }
        proof {
            assert forall|p2: int| self.is_index_of(person@, p2) implies self.circle_match(p2, result@) by {
                assert(p2 == p as int);
            }
        }
        Some(result)
    }

    /// Name, position, location and out-degree of `person`. `None` when the
    /// name is unknown.
    pub fn get_info(&self, person: &str) -> (r: Option<PersonInfo>)
        requires
            self.wf(),
        ensures
            r.is_none() <==> !self.has_name(person@),
            r.is_some() ==> self.is_index_of(person@, r.unwrap().index as int) && self.info_match(
                r.unwrap().index as int,
                r.unwrap(),
            ),
    {
        let p = match self.index_of(person) {
            Some(i) => i,
            None => return None,
        };
        let node = &self.nodes[p];
        Some(PersonInfo {
            name: node.name.clone(),
            index: p,
            loc: node.loc,
            connections: self.adj[p].len(),
        })
    }

    /// Every node with its location, and every adjacency entry from a lower
    /// to a higher position as an edge (one direction per pair when relations
    /// are stored both ways).
    pub fn graph_data(&self) -> (r: GraphData)
        requires
            self.wf(),
        ensures
            r.nodes@.len() == self.n(),
            forall|i: int|
                0 <= i < self.n() ==> (#[trigger] r.nodes@[i]).name@ == self.name_of(i) && r.nodes@[i].loc
                    == self.nodes@[i].loc,
            self.edges_match(r.edges@, forward_upto(self.adj@, self.n())),
    {
        let n = self.nodes.len();
        let mut nodes: Vec<Node> = Vec::new();
        let mut i: usize = 0;
        while i < n
            invariant
                n == self.n(),
                i <= n,
                nodes@.len() == i,
                forall|j: int|
                    0 <= j < i ==> (#[trigger] nodes@[j]).name@ == self.name_of(j) && nodes@[j].loc
                        == self.nodes@[j].loc,
            decreases n - i,
        {
            nodes.push(Node { name: self.nodes[i].name.clone(), loc: self.nodes[i].loc });
            i = i + 1;
        }
        let mut edges: Vec<Edge> = Vec::new();
        let mut u: usize = 0;
        while u < n
            invariant
                self.wf(),
                n == self.n(),
                u <= n,
                self.edges_match(edges@, forward_upto(self.adj@, u as int)),
            decreases n - u,
        {
            let entries = &self.adj[u];
            let mut j: usize = 0;
            while j < entries.len()
                invariant
                    self.wf(),
                    n == self.n(),
                    u < n,
                    entries@ == self.adj@[u as int]@,
                    j <= entries@.len(),
                    self.edges_match(
                        edges@,
                        forward_upto(self.adj@, u as int) + forward_of(u as int, entries@.take(j as int)),
                    ),
                decreases entries@.len() - j,
            {
                let (v, w) = entries[j];
                let ghost before = edges@;
                proof {
                    assert(entries@.take(j + 1).drop_last() =~= entries@.take(j as int));
                    assert(self.adj@[u as int]@[j as int].0 < n);
                }
                if u < v {
                    edges.push(
                        Edge { source: self.nodes[u].name.clone(), target: self.nodes[v].name.clone(), weight: w },
                    );
                }
                proof {
                    let t0 = forward_prefix(self.adj@, u as int, entries@, j as int);
                    let t1 = forward_prefix(self.adj@, u as int, entries@, j as int + 1);
                    if u < v {
                        assert(t1 =~= t0.push((u as int, v as int, w)));
                    } else {
                        assert(t1 =~= t0);
                    }
                }
                j = j + 1;
            }
            proof {
                assert(entries@.take(j as int) =~= entries@);
                assert(forward_upto(self.adj@, u as int + 1) =~= forward_upto(self.adj@, u as int)
                    + forward_of(u as int, entries@));
            }
            u = u + 1;
        }
        GraphData { nodes, edges }
    }

    /// Each edge of `es` names the endpoints and carries the weight of the
    /// matching triple of `ts`.
    pub open spec fn edges_match(&self, es: Seq<Edge>, ts: Seq<(int, int, i64)>) -> bool {
        &&& es.len() == ts.len()
        &&& forall|k: int|
            0 <= k < es.len() ==> (#[trigger] es[k]).source@ == self.name_of(ts[k].0) && es[k].target@
                == self.name_of(ts[k].1) && es[k].weight == ts[k].2
    }
}

/// The entries of list `u` that point to a higher position, as triples.
pub open spec fn forward_of(u: int, entries: Seq<(usize, i64)>) -> Seq<(int, int, i64)>
    decreases entries.len(),
{
    if entries.len() == 0 {
        Seq::empty()
    } else {
        let e = entries.last();
        let rest = forward_of(u, entries.drop_last());
        if u < e.0 {
            rest.push((u, e.0 as int, e.1))
        } else {
            rest
        }
    }
}

/// The forward entries of the lists `adj[..u]`, list by list.
pub open spec fn forward_upto(adj: Seq<Vec<(usize, i64)>>, u: int) -> Seq<(int, int, i64)>
    decreases u,
{
    if u <= 0 {
        Seq::empty()
    } else {
        forward_upto(adj, u - 1) + forward_of(u - 1, adj[u - 1]@)
    }
}

/// Forward entries of the lists before `u`, then of the first `j` entries of list `u`.
spec fn forward_prefix(adj: Seq<Vec<(usize, i64)>>, u: int, entries: Seq<(usize, i64)>, j: int) -> Seq<
    (int, int, i64),
> {
    forward_upto(adj, u) + forward_of(u, entries.take(j))
}

} // verus!

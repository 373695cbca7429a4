use crate::graph::Graph;
use vstd::prelude::*;
use vstd::set_lib::{lemma_int_range, lemma_len_subset, set_int_range};

verus! {

/// A path between two nodes, as names from start to end, and its number of hops.
#[derive(Debug)]
pub struct PathResult {
    pub path: Vec<String>,
    pub hops: usize,
}

impl Graph {
    /// `t` can be reached from `s` in at most `k` hops.
    pub open spec fn within(&self, s: int, t: int, k: nat) -> bool {
        exists|w: Seq<int>|
            #[trigger] self.is_walk(w) && 0 < w.len() <= k + 1 && w[0] == s && w[w.len() - 1] == t
    }

    /// The fewest hops from `s` to `t` is exactly `k`.
    pub open spec fn at_distance(&self, s: int, t: int, k: nat) -> bool {
        self.within(s, t, k) && (k == 0 || !self.within(s, t, (k - 1) as nat))
    }

    /// `t` can be reached from `s` in some number of hops.
    pub open spec fn reachable(&self, s: int, t: int) -> bool {
        exists|k: nat| #[trigger] self.within(s, t, k)
    }

    /// `path` names, hop by hop, a walk of fewest hops from `s` to `e`.
    pub open spec fn is_shortest_path(&self, s: int, e: int, path: Seq<String>) -> bool {
        exists|w: Seq<int>|
            #[trigger] self.is_walk(w) && w.len() == path.len() && 0 < w.len() && w[0] == s && w[w.len()
                - 1] == e && (forall|i: int| 0 <= i < w.len() ==> (#[trigger] path[i])@ == self.name_of(w[i]))
                && self.at_distance(s, e, (w.len() - 1) as nat)
    }

    /// Names, in position order among the first `i` nodes, of those at exactly
    /// `h` hops from `s`.
    pub open spec fn layer_names(&self, s: int, h: nat, i: int) -> Seq<Seq<char>>
        decreases i,
    {
        if i <= 0 {
            Seq::empty()
        } else if self.at_distance(s, i - 1, h) {
            self.layer_names(s, h, i - 1).push(self.name_of(i - 1))
        } else {
            self.layer_names(s, h, i - 1)
        }
    }

    /// `w` is a sequence of nodes, each joined to the next by an adjacency entry.
    pub open spec fn is_walk(&self, w: Seq<int>) -> bool {
        &&& forall|i: int| 0 <= i < w.len() ==> 0 <= #[trigger] w[i] < self.n()
        &&& forall|i: int| 0 <= i < w.len() - 1 ==> #[trigger] self.edge(w[i], w[i + 1])
    }
}

/// Set of positions that a search has reached.
pub open spec fn seen_set(d: Seq<Option<usize>>) -> Set<int> {
    Set::new(|v: int| 0 <= v < d.len() && d[v] is Some)
}

proof fn lemma_seen_bounded(d: Seq<Option<usize>>)
    ensures
        seen_set(d).finite(),
        seen_set(d).len() <= d.len(),
{
    lemma_int_range(0, d.len() as int);
    lemma_len_subset(seen_set(d), set_int_range(0, d.len() as int));
}

/// More hops never lose a node.
pub proof fn lemma_within_mono(g: &Graph, s: int, t: int, a: nat, b: nat)
    requires
        g.within(s, t, a),
        a <= b,
    ensures
        g.within(s, t, b),
{
    let w = choose|w: Seq<int>|
        #[trigger] g.is_walk(w) && 0 < w.len() <= a + 1 && w[0] == s && w[w.len() - 1] == t;
}

/// A node is reached in one hop more than any node with an entry to it.
pub proof fn lemma_within_extend(g: &Graph, s: int, u: int, k: nat, v: int)
    requires
        g.within(s, u, k),
        g.edge(u, v),
        0 <= v < g.n(),
    ensures
        g.within(s, v, k + 1),
{
    let w = choose|w: Seq<int>|
        #[trigger] g.is_walk(w) && 0 < w.len() <= k + 1 && w[0] == s && w[w.len() - 1] == u;
    let w2 = w.push(v);
    assert forall|i: int| 0 <= i < w2.len() - 1 implies #[trigger] g.edge(w2[i], w2[i + 1]) by {
        if i < w.len() - 1 {
            assert(g.edge(w[i], w[i + 1]));
        }
    }
    assert(g.is_walk(w2));
}

/// A node other than `s` reached within `k` hops has a predecessor reached
/// within `k - 1` hops.
pub proof fn lemma_within_back(g: &Graph, s: int, v: int, k: nat) -> (u: int)
    requires
        g.within(s, v, k),
        v != s,
    ensures
        k > 0,
        0 <= u < g.n(),
        g.within(s, u, (k - 1) as nat),
        g.edge(u, v),
{
    let w = choose|w: Seq<int>|
        #[trigger] g.is_walk(w) && 0 < w.len() <= k + 1 && w[0] == s && w[w.len() - 1] == v;
    let m = w.len() - 1;
    let w1 = w.take(m);
    assert(g.edge(w[m - 1], w[(m - 1) + 1]));
    assert forall|i: int| 0 <= i < w1.len() - 1 implies #[trigger] g.edge(w1[i], w1[i + 1]) by {
        assert(g.edge(w[i], w[i + 1]));
    }
    assert(g.is_walk(w1));
    w[m - 1]
}

/// Within zero hops lies only the start.
pub proof fn lemma_within_zero(g: &Graph, s: int, t: int)
    requires
        g.within(s, t, 0),
    ensures
        t == s,
{
    let w = choose|w: Seq<int>|
        #[trigger] g.is_walk(w) && 0 < w.len() <= 1 && w[0] == s && w[w.len() - 1] == t;
}

/// Layers below `depth` are closed under edges; then every node within `k <= depth`
/// hops has a recorded distance of at most `k`.
proof fn lemma_covered(g: &Graph, s: int, d: Seq<Option<usize>>, depth: int, v: int, k: nat)
    requires
        d.len() == g.n(),
        0 <= s < g.n(),
        d[s] == Some(0usize),
        forall|u: int, x: int|
            0 <= u < g.n() && 0 <= x < g.n() && d[u] is Some && (d[u]->0 as int) < depth
                && #[trigger] g.edge(u, x) ==> d[x] is Some && d[x]->0 <= d[u]->0 + 1,
        k <= depth,
        0 <= v < g.n(),
        g.within(s, v, k),
    ensures
        d[v] is Some && d[v]->0 <= k,
    decreases k,
{
    if v != s {
        let u = lemma_within_back(g, s, v, k);
        lemma_covered(g, s, d, depth, u, (k - 1) as nat);
    }
}

/// When no node lies at `depth` and the layers below are closed under edges,
/// every reachable node lies below `depth`.
proof fn lemma_closed(g: &Graph, s: int, d: Seq<Option<usize>>, depth: int, v: int, k: nat)
    requires
        d.len() == g.n(),
        0 <= s < g.n(),
        d[s] == Some(0usize),
        forall|u: int, x: int|
            0 <= u < g.n() && 0 <= x < g.n() && d[u] is Some && (d[u]->0 as int) < depth
                && #[trigger] g.edge(u, x) ==> d[x] is Some && d[x]->0 <= d[u]->0 + 1,
        forall|x: int| 0 <= x < g.n() && d[x] is Some ==> (d[x]->0 as int) <= depth,
        forall|x: int| 0 <= x < g.n() && d[x] is Some ==> (d[x]->0 as int) != depth,
        0 <= v < g.n(),
        g.within(s, v, k),
    ensures
        d[v] is Some && (d[v]->0 as int) < depth,
    decreases k,
{
    if v != s {
        let u = lemma_within_back(g, s, v, k);
        lemma_closed(g, s, d, depth, u, (k - 1) as nat);
    }
}

impl Graph {
    /// Breadth-first search from `s`, expanding no node at distance `limit`.
    /// Returns, per node, its hop distance if found and the node it was
    /// discovered from; adjacency entries are visited in stored order.
    fn bfs(&self, s: usize, limit: usize) -> (r: (Vec<Option<usize>>, Vec<usize>))
        requires
            self.wf(),
            s < self.n(),
        ensures
            r.0@.len() == self.n(),
            r.1@.len() == self.n(),
            r.0@[s as int] == Some(0usize),
            forall|v: int| 0 <= v < self.n() && r.0@[v] is Some ==> r.0@[v]->0 <= limit,
            forall|v: int, k: nat|
                0 <= v < self.n() && (k <= limit || limit == usize::MAX) ==> (#[trigger] self.within(
                    s as int,
                    v,
                    k,
                ) <==> (r.0@[v] is Some && r.0@[v]->0 <= k)),
            forall|v: int|
                0 <= v < self.n() && #[trigger] r.0@[v] is Some && r.0@[v]->0 > 0 ==> {
                    &&& (r.1@[v] as int) < self.n()
                    &&& r.0@[r.1@[v] as int] == Some((r.0@[v]->0 - 1) as usize)
                    &&& self.edge(r.1@[v] as int, v)
                },
    {
        let n = self.nodes.len();
        let mut dist: Vec<Option<usize>> = Vec::new();
        let mut prev: Vec<usize> = Vec::new();
        let mut i: usize = 0;
        while i < n
            invariant
                i <= n,
                dist@.len() == i,
                prev@.len() == i,
                forall|j: int| 0 <= j < i ==> dist@[j] is None,
            decreases n - i,
        {
            dist.push(None);
            prev.push(0);
            i = i + 1;
        }
        dist.set(s, Some(0));
        let mut frontier: Vec<usize> = Vec::new();
        frontier.push(s);
        let mut depth: usize = 0;
        proof {
            assert(self.is_walk(seq![s as int]));
            assert(seen_set(dist@).contains(s as int));
            lemma_seen_bounded(dist@);
            assert forall|v: int| 0 <= v < n implies (dist@[v] == Some(0usize)
                <==> frontier@.contains(v as usize)) by {
                if v == s {
                    assert(frontier@[0] == s);
                }
            }
            assert(seen_set(dist@).len() > 0) by {
                vstd::set_lib::lemma_set_empty_equivalency_len(seen_set(dist@));
            }
        }
        while frontier.len() > 0 && depth < limit
            invariant
                self.wf(),
                n == self.n(),
                s < n,
                dist@.len() == n,
                prev@.len() == n,
                dist@[s as int] == Some(0usize),
                depth <= limit,
                forall|a: int| 0 <= a < frontier@.len() ==> (#[trigger] frontier@[a] as int) < n,
                forall|v: int| 0 <= v < n && dist@[v] is Some ==> dist@[v]->0 <= depth,
                forall|v: int|
                    0 <= v < n ==> (dist@[v] == Some(depth) <==> frontier@.contains(v as usize)),
                forall|u: int, x: int|
                    0 <= u < n && 0 <= x < n && dist@[u] is Some && (dist@[u]->0 as int) < depth
                        && #[trigger] self.edge(u, x) ==> dist@[x] is Some && dist@[x]->0 <= dist@[u]->0
                        + 1,
                forall|v: int|
                    0 <= v < n && #[trigger] dist@[v] is Some ==> self.within(
                        s as int,
                        v,
                        dist@[v]->0 as nat,
                    ) && (dist@[v]->0 == 0 || !self.within(s as int, v, (dist@[v]->0 - 1) as nat)),
                forall|v: int|
                    0 <= v < n && #[trigger] dist@[v] is Some && dist@[v]->0 > 0 ==> {
                        &&& (prev@[v] as int) < n
                        &&& dist@[prev@[v] as int] == Some((dist@[v]->0 - 1) as usize)
                        &&& self.edge(prev@[v] as int, v)
                    },
                frontier@.len() > 0 ==> depth < seen_set(dist@).len(),
            decreases n - depth,
        {
            proof {
                lemma_seen_bounded(dist@);
            }
            let ghost d0 = dist@;
            let ghost p0 = prev@;
            let mut next: Vec<usize> = Vec::new();
            let mut fi: usize = 0;
            while fi < frontier.len()
                invariant
                    self.wf(),
                    n == self.n(),
                    s < n,
                    depth < n,
                    dist@.len() == n,
                    prev@.len() == n,
                    d0.len() == n,
                    forall|a: int|
                        0 <= a < frontier@.len() ==> (#[trigger] frontier@[a] as int) < n && d0[frontier@[a] as int]
                            == Some(depth),
                    forall|v: int| 0 <= v < n && d0[v] is Some ==> dist@[v] == d0[v] && prev@[v] == p0[v],
                    forall|v: int|
                        0 <= v < n && d0[v] is None ==> dist@[v] is None || dist@[v] == Some((depth + 1) as usize),
                    forall|v: int| 0 <= v < n && d0[v] is Some ==> d0[v]->0 <= depth,
                    forall|v: int|
                        0 <= v < n ==> (dist@[v] == Some((depth + 1) as usize) <==> next@.contains(v as usize)),
                    forall|a: int| 0 <= a < next@.len() ==> (#[trigger] next@[a] as int) < n,
                    forall|v: int|
                        0 <= v < n && d0[v] is None && #[trigger] dist@[v] is Some ==> (prev@[v] as int) < n
                            && d0[prev@[v] as int] == Some(depth) && self.edge(prev@[v] as int, v),
                    forall|a: int, x: int|
                        0 <= a < fi && 0 <= x < n && #[trigger] self.edge(frontier@[a] as int, x)
                            ==> dist@[x] is Some,
                    fi <= frontier@.len(),
                decreases frontier@.len() - fi,
            {
                let u = frontier[fi];
                let mut j: usize = 0;
                while j < self.adj[u].len()
                    invariant
                        self.wf(),
                        n == self.n(),
                        depth < n,
                        u < n,
                        dist@.len() == n,
                        prev@.len() == n,
                        d0.len() == n,
                        d0[u as int] == Some(depth),
                        forall|v: int| 0 <= v < n && d0[v] is Some ==> dist@[v] == d0[v] && prev@[v] == p0[v],
                        forall|v: int|
                            0 <= v < n && d0[v] is None ==> dist@[v] is None || dist@[v] == Some((depth + 1) as usize),
                        forall|v: int| 0 <= v < n && d0[v] is Some ==> d0[v]->0 <= depth,
                        forall|v: int|
                            0 <= v < n ==> (dist@[v] == Some((depth + 1) as usize) <==> next@.contains(v as usize)),
                        forall|a: int| 0 <= a < next@.len() ==> (#[trigger] next@[a] as int) < n,
                        forall|v: int|
                            0 <= v < n && d0[v] is None && #[trigger] dist@[v] is Some ==> (prev@[v] as int) < n
                                && d0[prev@[v] as int] == Some(depth) && self.edge(prev@[v] as int, v),
                        forall|a: int, x: int|
                            0 <= a < fi && 0 <= x < n && #[trigger] self.edge(frontier@[a] as int, x)
                                ==> dist@[x] is Some,
                        forall|jj: int|
                            0 <= jj < j ==> dist@[(#[trigger] self.adj@[u as int]@[jj]).0 as int] is Some,
                        j <= self.adj@[u as int]@.len(),
                    decreases self.adj@[u as int]@.len() - j,
                {
                    let v = self.adj[u][j].0;
                    assert(self.edge(u as int, v as int));
                    if dist[v].is_none() {
                        let ghost old_next = next@;
                        dist.set(v, Some(depth + 1));
                        prev.set(v, u);
                        next.push(v);
                        proof {
                            assert(next@[next@.len() - 1] == v);
                            assert forall|x: int|
                                0 <= x < n implies (dist@[x] == Some((depth + 1) as usize)
                                    <==> next@.contains(x as usize)) by {
                                if x != v {
                                    if old_next.contains(x as usize) {
                                        let a = choose|a: int| 0 <= a < old_next.len() && old_next[a] == x as usize;
                                        assert(next@[a] == x as usize);
                                    }
                                    if next@.contains(x as usize) {
                                        let a = choose|a: int| 0 <= a < next@.len() && next@[a] == x as usize;
                                        assert(old_next[a] == x as usize);
                                    }
                                }
                            }
                        }
                    }
                    j = j + 1;
                }
                proof {
                    assert forall|a: int, x: int|
                        0 <= a < fi + 1 && 0 <= x < n && #[trigger] self.edge(frontier@[a] as int, x)
                            implies dist@[x] is Some by {
                        if a == fi {
                            let jj = choose|jj: int|
                                0 <= jj < self.adj@[u as int]@.len() && (#[trigger] self.adj@[u as int]@[jj]).0
                                    == x;
                        }
                    }
                }
                fi = fi + 1;
            }
            proof {
                let d1 = dist@;
                assert forall|v: int| 0 <= v < n && d1[v] is Some implies d1[v]->0 <= depth + 1 by {}
                assert forall|u: int, x: int|
                    0 <= u < n && 0 <= x < n && d1[u] is Some && (d1[u]->0 as int) < depth + 1
                        && #[trigger] self.edge(u, x) implies d1[x] is Some && d1[x]->0 <= d1[u]->0 + 1 by {
                    if d0[u] is None {
                    } else if (d0[u]->0 as int) < depth {
                    } else {
                        assert(frontier@.contains(u as usize));
                        let a = choose|a: int| 0 <= a < frontier@.len() && frontier@[a] == u as usize;
                        assert(self.edge(frontier@[a] as int, x));
                    }
                }
                assert forall|v: int|
                    0 <= v < n && #[trigger] d1[v] is Some implies self.within(s as int, v, d1[v]->0 as nat)
                        && (d1[v]->0 == 0 || !self.within(s as int, v, (d1[v]->0 - 1) as nat)) by {
                    if d0[v] is None {
                        let u = prev@[v] as int;
                        assert(d0[u] is Some);
                        assert(self.within(s as int, u, depth as nat));
                        lemma_within_extend(self, s as int, u, depth as nat, v);
                        if self.within(s as int, v, depth as nat) {
                            lemma_covered(self, s as int, d0, depth as int, v, depth as nat);
                        }
                    }
                }
                assert forall|v: int|
                    0 <= v < n && #[trigger] d1[v] is Some && d1[v]->0 > 0 implies {
                        &&& (prev@[v] as int) < n
                        &&& d1[prev@[v] as int] == Some((d1[v]->0 - 1) as usize)
                        &&& self.edge(prev@[v] as int, v)
                    } by {
                    if d0[v] is None {
                        assert(d0[prev@[v] as int] is Some);
                    }
                }
                assert(seen_set(d0).subset_of(seen_set(d1)));
                lemma_seen_bounded(d1);
                if next@.len() > 0 {
                    let w = next@[0] as int;
                    assert(next@.contains(w as usize));
                    assert(d1[w] == Some((depth + 1) as usize));
                    assert(d0[w] is None);
                    lemma_len_subset(seen_set(d0), seen_set(d1).remove(w));
                }
            }
            frontier = next;
            depth = depth + 1;
        }
        proof {
            lemma_seen_bounded(dist@);
            let d = dist@;
            assert forall|v: int, k: nat|
                0 <= v < n && (k <= limit || limit == usize::MAX) implies (#[trigger] self.within(
                    s as int,
                    v,
                    k,
                ) <==> (d[v] is Some && d[v]->0 <= k)) by {
                if d[v] is Some && d[v]->0 <= k {
                    lemma_within_mono(self, s as int, v, d[v]->0 as nat, k);
                }
                if self.within(s as int, v, k) {
                    if k <= depth {
                        lemma_covered(self, s as int, d, depth as int, v, k);
                    } else {
                        assert(frontier@.len() == 0);
                        assert forall|x: int| 0 <= x < n && d[x] is Some implies (d[x]->0 as int)
                            != depth by {
                            if d[x] == Some(depth) {
                                assert(frontier@.contains(x as usize));
                            }
                        }
                        lemma_closed(self, s as int, d, depth as int, v, k);
                        if (d[v]->0 as int) < k {
                        }
                    }
                }
            }
        }
        (dist, prev)
    }

    /// Fewest-hop path from `start` to `end` along adjacency entries (weights
    /// are ignored). `None` when a name is unknown or `end` cannot be reached.
    pub fn get_path(&self, start: &str, end: &str) -> (r: Option<PathResult>)
        requires
            self.wf(),
        ensures
            r.is_some() <==> exists|s: int, e: int|
                self.is_index_of(start@, s) && self.is_index_of(end@, e) && self.reachable(s, e),
            r.is_some() ==> r.unwrap().hops + 1 == r.unwrap().path@.len() && forall|s: int, e: int|
                self.is_index_of(start@, s) && self.is_index_of(end@, e) ==> self.is_shortest_path(
                    s,
                    e,
                    r.unwrap().path@,
                ),
    {
        let s = match self.index_of(start) {
            Some(i) => i,
            None => return None,
        };
        let e = match self.index_of(end) {
            Some(i) => i,
            None => return None,
        };
        let (dist, prev) = self.bfs(s, usize::MAX);
        if dist[e].is_none() {
            proof {
                assert forall|s2: int, e2: int|
                    self.is_index_of(start@, s2) && self.is_index_of(end@, e2) implies !self.reachable(
                        s2,
                        e2,
                    ) by {
                    if self.reachable(s2, e2) {
                        let k = choose|k: nat| #[trigger] self.within(s2, e2, k);
                        assert(self.within(s as int, e as int, k));
                    }
                }
            }
            return None;
        }
        let ghost de = dist@[e as int]->0;
        let mut rev: Vec<usize> = Vec::new();
        rev.push(e);
        let mut cur = e;
        while cur != s
            invariant
                self.wf(),
                s < self.n(),
                e < self.n(),
                dist@.len() == self.n(),
                prev@.len() == self.n(),
                dist@[s as int] == Some(0usize),
                forall|v: int, k: nat|
                    0 <= v < self.n() ==> (#[trigger] self.within(s as int, v, k) <==> (dist@[v] is Some
                        && dist@[v]->0 <= k)),
                forall|v: int|
                    0 <= v < self.n() && #[trigger] dist@[v] is Some && dist@[v]->0 > 0 ==> {
                        &&& (prev@[v] as int) < self.n()
                        &&& dist@[prev@[v] as int] == Some((dist@[v]->0 - 1) as usize)
                        &&& self.edge(prev@[v] as int, v)
                    },
                cur < self.n(),
                dist@[cur as int] is Some,
                rev@.len() > 0,
                rev@[0] == e,
                rev@[rev@.len() - 1] == cur,
                rev@.len() + dist@[cur as int]->0 == de + 1,
                forall|i: int| 0 <= i < rev@.len() ==> (#[trigger] rev@[i] as int) < self.n(),
                forall|i: int|
                    0 <= i < rev@.len() - 1 ==> #[trigger] self.edge(rev@[i + 1] as int, rev@[i] as int),
            decreases dist@[cur as int]->0,
        {
            proof {
                if dist@[cur as int]->0 == 0 {
                    assert(self.within(s as int, cur as int, 0));
                    lemma_within_zero(self, s as int, cur as int);
                }
            }
            cur = prev[cur];
            rev.push(cur);
            proof {
                let m = rev@.len() - 2;
                assert(self.edge(rev@[m + 1] as int, rev@[m] as int));
            }
        }
        let len = rev.len();
        let mut path: Vec<String> = Vec::new();
        let mut i: usize = len;
        while i > 0
            invariant
                len == rev@.len(),
                i <= len,
                path@.len() + i == len,
                forall|i: int| 0 <= i < rev@.len() ==> (#[trigger] rev@[i] as int) < self.n(),
                self.wf(),
                forall|j: int|
                    0 <= j < path@.len() ==> (#[trigger] path@[j])@ == self.name_of(
                        rev@[len - 1 - j] as int,
                    ),
            decreases i,
        {
            i = i - 1;
            path.push(self.nodes[rev[i]].name.clone());
        }
        let ghost w = Seq::new(len as nat, |j: int| rev@[len - 1 - j] as int);
        proof {
            assert forall|j: int| 0 <= j < w.len() - 1 implies #[trigger] self.edge(w[j], w[j + 1]) by {
                let m = len - 2 - j;
                assert(self.edge(rev@[m + 1] as int, rev@[m] as int));
            }
            assert(self.is_walk(w));
            assert(self.within(s as int, e as int, de as nat));
            if de > 0 {
                assert(!self.within(s as int, e as int, (de - 1) as nat));
            }
            assert(self.is_shortest_path(s as int, e as int, path@));
            assert(self.reachable(s as int, e as int));
        }
        let hops = len - 1;
        let r = PathResult { path, hops };
        assert forall|s2: int, e2: int|
            self.is_index_of(start@, s2) && self.is_index_of(end@, e2) implies self.is_shortest_path(
                s2,
                e2,
                r.path@,
            ) by {
            assert(s2 == s as int);
            assert(e2 == e as int);
        }
        Some(r)
    }

    /// Names, in position order, of the nodes whose fewest hops from `person`
    /// is exactly `hops`. `None` when the name is unknown.
    pub fn get_reachable(&self, person: &str, hops: usize) -> (r: Option<Vec<String>>)
        requires
            self.wf(),
        ensures
            r.is_none() <==> !self.has_name(person@),
            r.is_some() ==> exists|s: int|
                self.is_index_of(person@, s) && r.unwrap()@.map_values(|x: String| x@)
                    == self.layer_names(s, hops as nat, self.n()),
    {
        let s = match self.index_of(person) {
            Some(i) => i,
            None => return None,
        };
        let (dist, _prev) = self.bfs(s, hops);
        let mut result: Vec<String> = Vec::new();
        let mut i: usize = 0;
        while i < self.nodes.len()
            invariant
                self.wf(),
                s < self.n(),
                i <= self.n(),
                dist@.len() == self.n(),
                forall|v: int| 0 <= v < self.n() && dist@[v] is Some ==> dist@[v]->0 <= hops,
                forall|v: int, k: nat|
                    0 <= v < self.n() && k <= hops ==> (#[trigger] self.within(s as int, v, k) <==> (
                    dist@[v] is Some && dist@[v]->0 <= k)),
                result@.map_values(|x: String| x@) == self.layer_names(s as int, hops as nat, i as int),
            decreases self.n() - i,
        {
            proof {
                let v = i as int;
                if dist@[v] is Some && dist@[v]->0 == hops {
                    assert(self.within(s as int, v, hops as nat));
                    if hops > 0 {
                        assert(!self.within(s as int, v, (hops - 1) as nat));
                    }
                } else {
                    assert(!self.within(s as int, v, hops as nat) || (hops > 0 && self.within(
                        s as int,
                        v,
                        (hops - 1) as nat,
                    )));
                }
            }
            if dist[i] == Some(hops) {
                let ghost before = result@;
                result.push(self.nodes[i].name.clone());
                proof {
                    assert(result@.map_values(|x: String| x@) =~= before.map_values(|x: String| x@).push(
                        self.name_of(i as int),
                    ));
                }
            }
            i = i + 1;
        }
        Some(result)
    }
}

} // verus!

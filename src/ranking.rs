use crate::graph::Graph;
use vstd::prelude::*;

verus! {

/// Out-degree and total outgoing weight of one node.
#[derive(Debug)]
pub struct PersonStats {
    pub name: String,
    pub degree: usize,
    pub weight_sum: i128,
}

/// Nodes ranked by total outgoing weight, then out-degree, and cut into the
/// top fifth (`core`), the next two fifths (`active`) and the rest (`edge`).
#[derive(Debug)]
pub struct AnalysisResult {
    pub core: Vec<PersonStats>,
    pub active: Vec<PersonStats>,
    pub edge: Vec<PersonStats>,
}

/// Sum of the weights of a list of adjacency entries.
pub open spec fn weight_total(entries: Seq<(usize, i64)>) -> int
    decreases entries.len(),
{
    if entries.len() == 0 {
        0
    } else {
        weight_total(entries.drop_last()) + entries.last().1
    }
}

/// Where the core tier ends: `n / 5`.
pub open spec fn core_end(n: int) -> int {
    n / 5
}

/// Where the active tier ends: `n * 3 / 5`.
pub open spec fn active_end(n: int) -> int {
    n * 3 / 5
}

impl Graph {
    pub open spec fn degree(&self, u: int) -> int {
        self.adj@[u]@.len() as int
    }

    pub open spec fn weight_sum(&self, u: int) -> int {
        weight_total(self.adj@[u]@)
    }

    /// `a` ranks ahead of `b`: larger weight sum, then larger out-degree,
    /// then smaller position (the sort is stable over positions).
    pub open spec fn ranks_before(&self, a: int, b: int) -> bool {
        ||| self.weight_sum(a) > self.weight_sum(b)
        ||| self.weight_sum(a) == self.weight_sum(b) && self.degree(a) > self.degree(b)
        ||| self.weight_sum(a) == self.weight_sum(b) && self.degree(a) == self.degree(b) && a < b
    }

    /// `o` lists every node once, in rank order.
    pub open spec fn is_rank_order(&self, o: Seq<usize>) -> bool {
        &&& o.len() == self.n()
        &&& forall|i: int| 0 <= i < o.len() ==> (#[trigger] o[i] as int) < self.n()
        &&& forall|u: int| 0 <= u < self.n() ==> #[trigger] o.contains(u as usize)
        &&& forall|i: int, j: int| 0 <= i < j < o.len() ==> o[i] != o[j]
        &&& forall|i: int, j: int|
            0 <= i < j < o.len() ==> self.ranks_before(#[trigger] o[i] as int, #[trigger] o[j] as int)
    }

    /// `st` describes node `u`.
    pub open spec fn stats_match(&self, st: PersonStats, u: int) -> bool {
        &&& st.name@ == self.name_of(u)
        &&& st.degree == self.degree(u)
        &&& st.weight_sum == self.weight_sum(u)
    }

    /// `r` holds, tier by tier, the stats of the nodes in rank order `o`.
    pub open spec fn tiers_follow(&self, o: Seq<usize>, r: AnalysisResult) -> bool {
        let n = self.n();
        &&& r.core@.len() == core_end(n)
        &&& r.active@.len() == active_end(n) - core_end(n)
        &&& r.edge@.len() == n - active_end(n)
        &&& forall|k: int| 0 <= k < r.core@.len() ==> self.stats_match(#[trigger] r.core@[k], o[k] as int)
        &&& forall|k: int|
            0 <= k < r.active@.len() ==> self.stats_match(#[trigger] r.active@[k], o[core_end(n) + k] as int)
        &&& forall|k: int|
            0 <= k < r.edge@.len() ==> self.stats_match(#[trigger] r.edge@[k], o[active_end(n) + k] as int)
    }

    /// Sum of the weights of the outgoing entries of `u`.
    fn weight_sum_exec(&self, u: usize) -> (r: i128)
        requires
            u < self.adj@.len(),
        ensures
            r == self.weight_sum(u as int),
    {
        let entries = &self.adj[u];
        let mut sum: i128 = 0;
        let mut j: usize = 0;
        while j < entries.len()
            invariant
                entries@ == self.adj@[u as int]@,
                j <= entries@.len(),
                sum == weight_total(entries@.take(j as int)),
                -(j as int) * 0x8000_0000_0000_0000 <= sum <= (j as int) * 0x8000_0000_0000_0000,
            decreases entries@.len() - j,
        {
            proof {
                assert(entries@.take(j + 1).drop_last() =~= entries@.take(j as int));
            }
            sum = sum + entries[j].1 as i128;
            j = j + 1;
        }
        proof {
            assert(entries@.take(j as int) =~= entries@);
        }
        sum
    }

    /// Ranks every node by weight sum, then out-degree (both descending), ties
    /// kept in position order, and cuts the ranking at `n / 5` and `n * 3 / 5`.
    pub fn analyze(&self) -> (r: AnalysisResult)
        requires
            self.wf(),
        ensures
            exists|o: Seq<usize>| #[trigger] self.is_rank_order(o) && self.tiers_follow(o, r),
    {
        let n = self.nodes.len();
        let mut deg: Vec<usize> = Vec::new();
        let mut ws: Vec<i128> = Vec::new();
        let mut i: usize = 0;
        while i < n
            invariant
                self.wf(),
                n == self.n(),
                i <= n,
                deg@.len() == i,
                ws@.len() == i,
                forall|u: int| 0 <= u < i ==> deg@[u] == self.degree(u) && ws@[u] == self.weight_sum(u),
            decreases n - i,
        {
            deg.push(self.adj[i].len());
            ws.push(self.weight_sum_exec(i));
            i = i + 1;
        }
        let mut order: Vec<usize> = Vec::new();
        let mut i: usize = 0;
        while i < n
            invariant
                self.wf(),
                n == self.n(),
                i <= n,
                deg@.len() == n,
                ws@.len() == n,
                forall|u: int| 0 <= u < n ==> deg@[u] == self.degree(u) && ws@[u] == self.weight_sum(u),
                order@.len() == i,
                forall|k: int| 0 <= k < order@.len() ==> (#[trigger] order@[k] as int) < i,
                forall|u: int| 0 <= u < i ==> #[trigger] order@.contains(u as usize),
                forall|a: int, b: int| 0 <= a < b < order@.len() ==> order@[a] != order@[b],
                forall|a: int, b: int|
                    0 <= a < b < order@.len() ==> self.ranks_before(
                        #[trigger] order@[a] as int,
                        #[trigger] order@[b] as int,
                    ),
            decreases n - i,
        {
            let mut p: usize = 0;
            while p < order.len() && (ws[order[p]] > ws[i] || (ws[order[p]] == ws[i] && deg[order[p]]
                >= deg[i]))
                invariant
                    p <= order@.len(),
                    order@.len() == i,
                    i < n,
                    deg@.len() == n,
                    ws@.len() == n,
                    forall|k: int| 0 <= k < order@.len() ==> (#[trigger] order@[k] as int) < i,
                    forall|u: int| 0 <= u < n ==> deg@[u] == self.degree(u) && ws@[u] == self.weight_sum(u),
                    forall|q: int| 0 <= q < p ==> self.ranks_before(#[trigger] order@[q] as int, i as int),
                decreases order@.len() - p,
            {
                p = p + 1;
            }
            let ghost old_order = order@;
            proof {
                assert forall|q: int| p <= q < old_order.len() implies self.ranks_before(
                    i as int,
                    #[trigger] old_order[q] as int,
                ) by {
                    if q > p {
                        assert(self.ranks_before(old_order[p as int] as int, old_order[q] as int));
                    }
                }
            }
            order.insert(p, i);
            proof {
                assert forall|a: int, b: int|
                    0 <= a < b < order@.len() implies self.ranks_before(
                        #[trigger] order@[a] as int,
                        #[trigger] order@[b] as int,
                    ) by {
                    if b < p {
                        assert(self.ranks_before(old_order[a] as int, old_order[b] as int));
                    } else if b == p {
                    } else if a < p {
                        assert(self.ranks_before(old_order[a] as int, old_order[b - 1] as int));
                    } else if a == p {
                    } else {
                        assert(self.ranks_before(old_order[a - 1] as int, old_order[b - 1] as int));
                    }
                }
                assert forall|u: int| 0 <= u < i + 1 implies #[trigger] order@.contains(u as usize) by {
                    if u == i {
                        assert(order@[p as int] == i);
                    } else {
                        assert(old_order.contains(u as usize));
                        let k = choose|k: int| 0 <= k < old_order.len() && old_order[k] == u as usize;
                        if k < p {
                            assert(order@[k] == u as usize);
                        } else {
                            assert(order@[k + 1] == u as usize);
                        }
                    }
                }
                assert forall|a: int, b: int| 0 <= a < b < order@.len() implies order@[a] != order@[b] by {
                    if a == p {
                        assert(order@[b] == old_order[b - 1]);
                    } else if b == p {
                        assert(order@[a] == old_order[a]);
                    }
                }
            }
            i = i + 1;
        }
        let ce = n / 5;
        let ae = (n / 5) * 3 + (n % 5) * 3 / 5;
        proof {
            assert(ae == active_end(n as int)) by (nonlinear_arith)
                requires
                    ae == (n / 5) * 3 + (n % 5) * 3 / 5,
                    n >= 0,
            ;
            assert(ce <= ae <= n) by (nonlinear_arith)
                requires
                    ae == (n / 5) * 3 + (n % 5) * 3 / 5,
                    ce == n / 5,
                    n >= 0,
            ;
        }
        let mut core: Vec<PersonStats> = Vec::new();
        let mut active: Vec<PersonStats> = Vec::new();
        let mut edge: Vec<PersonStats> = Vec::new();
        let mut k: usize = 0;
        while k < n
            invariant
                self.wf(),
                n == self.n(),
                ce == core_end(n as int),
                ae == active_end(n as int),
                ce <= ae <= n,
                k <= n,
                order@.len() == n,
                forall|j: int| 0 <= j < n ==> (#[trigger] order@[j] as int) < n,
                deg@.len() == n,
                ws@.len() == n,
                forall|u: int| 0 <= u < n ==> deg@[u] == self.degree(u) && ws@[u] == self.weight_sum(u),
                core@.len() == if k < ce { k as int } else { ce as int },
                active@.len() == if k < ce { 0 } else if k < ae { k - ce } else { ae - ce },
                edge@.len() == if k < ae { 0 } else { k - ae },
                forall|j: int| 0 <= j < core@.len() ==> self.stats_match(#[trigger] core@[j], order@[j] as int),
                forall|j: int|
                    0 <= j < active@.len() ==> self.stats_match(#[trigger] active@[j], order@[ce + j] as int),
                forall|j: int|
                    0 <= j < edge@.len() ==> self.stats_match(#[trigger] edge@[j], order@[ae + j] as int),
            decreases n - k,
        {
            let u = order[k];
            let st = PersonStats { name: self.nodes[u].name.clone(), degree: deg[u], weight_sum: ws[u] };
            if k < ce {
                core.push(st);
            } else if k < ae {
                active.push(st);
            } else {
                edge.push(st);
            }
            k = k + 1;
        }
        let r = AnalysisResult { core, active, edge };
        assert(self.is_rank_order(order@));
        assert(self.tiers_follow(order@, r));
        r
    }
}

} // verus!

use crate::graph::Graph;
use crate::proximity::NearbyPerson;
use crate::ranking::{active_end, core_end, AnalysisResult, PersonStats};
use crate::record::{loaded_adj, loaded_names, Record};
use crate::search::lemma_within_mono;
use vstd::prelude::*;

verus! {

/// Loading the same records into two stores gives the same names in the same
/// positions and the same adjacency lists, hence the same node count and the
/// same out-degrees; only the random locations may differ.
pub proof fn lemma_load_repeatable(g1: Graph, g2: Graph, recs: Seq<Record>)
    requires
        g1.names() == loaded_names(recs),
        g1.adj_view() == loaded_adj(recs),
        g2.names() == loaded_names(recs),
        g2.adj_view() == loaded_adj(recs),
    ensures
        g1.n() == g2.n(),
        forall|i: int| 0 <= i < g1.n() ==> #[trigger] g1.name_of(i) == g2.name_of(i),
        g1.adj_view() == g2.adj_view(),
        forall|u: int| 0 <= u < g1.adj@.len() ==> #[trigger] g1.degree(u) == g2.degree(u),
{
    assert(g1.names().len() == g2.names().len());
    assert forall|i: int| 0 <= i < g1.n() implies #[trigger] g1.name_of(i) == g2.name_of(i) by {
        assert(g1.names()[i] == g2.names()[i]);
    }
    assert forall|u: int| 0 <= u < g1.adj@.len() implies #[trigger] g1.degree(u) == g2.degree(u) by {
        assert(g1.adj_view().len() == g1.adj@.len() && g2.adj_view().len() == g2.adj@.len());
        assert(g1.adj_view()[u] == g1.adj@[u]@);
        assert(g2.adj_view()[u] == g2.adj@[u]@);
        assert(g1.adj_view()[u] == g2.adj_view()[u]);
    }
}

/// The fewest hops to a node reached within `k` hops is at most `k`.
pub proof fn lemma_fewest_hops(g: &Graph, s: int, v: int, k: nat) -> (h: nat)
    requires
        g.within(s, v, k),
    ensures
        h <= k,
        g.at_distance(s, v, h),
    decreases k,
{
    if k == 0 || !g.within(s, v, (k - 1) as nat) {
        k
    } else {
        lemma_fewest_hops(g, s, v, (k - 1) as nat)
    }
}

/// A name is in the layer list of the first `i` nodes exactly when one of
/// them carries it and lies at that hop distance.
pub proof fn lemma_layer_names_contains(g: &Graph, s: int, h: nat, i: int, x: Seq<char>)
    requires
        0 <= i <= g.n(),
    ensures
        g.layer_names(s, h, i).contains(x) <==> exists|v: int|
            0 <= v < i && g.at_distance(s, v, h) && #[trigger] g.name_of(v) == x,
    decreases i,
{
    if i > 0 {
        lemma_layer_names_contains(g, s, h, i - 1, x);
        let prev = g.layer_names(s, h, i - 1);
        if g.at_distance(s, i - 1, h) {
            let cur = prev.push(g.name_of(i - 1));
            if cur.contains(x) {
                let k = choose|k: int| 0 <= k < cur.len() && cur[k] == x;
                if k < prev.len() {
                    assert(prev.contains(x));
                } else {
                    assert(g.name_of(i - 1) == x);
                }
            }
            if exists|v: int| 0 <= v < i && g.at_distance(s, v, h) && #[trigger] g.name_of(v) == x {
                let v = choose|v: int| 0 <= v < i && g.at_distance(s, v, h) && #[trigger] g.name_of(v) == x;
                if v == i - 1 {
                    assert(cur[cur.len() - 1] == x);
                } else {
                    let k = choose|k: int| 0 <= k < prev.len() && prev[k] == x;
                    assert(cur[k] == x);
                }
            }
        }
    }
}

/// The hop layers around `s` are pairwise disjoint, and together they hold
/// exactly the nodes reachable from `s`.
pub proof fn lemma_layers_partition(g: &Graph, s: int, h1: nat, h2: nat, v: int)
    requires
        g.wf(),
        0 <= s < g.n(),
        0 <= v < g.n(),
    ensures
        h1 != h2 ==> !(g.layer_names(s, h1, g.n()).contains(g.name_of(v)) && g.layer_names(
            s,
            h2,
            g.n(),
        ).contains(g.name_of(v))),
        g.reachable(s, v) <==> exists|h: nat| #[trigger] g.layer_names(s, h, g.n()).contains(g.name_of(v)),
{
    lemma_layer_names_contains(g, s, h1, g.n(), g.name_of(v));
    lemma_layer_names_contains(g, s, h2, g.n(), g.name_of(v));
    if h1 != h2 && g.layer_names(s, h1, g.n()).contains(g.name_of(v)) && g.layer_names(
        s,
        h2,
        g.n(),
    ).contains(g.name_of(v)) {
        let a = choose|a: int|
            0 <= a < g.n() && g.at_distance(s, a, h1) && #[trigger] g.name_of(a) == g.name_of(v);
        let b = choose|b: int|
            0 <= b < g.n() && g.at_distance(s, b, h2) && #[trigger] g.name_of(b) == g.name_of(v);
        assert(a == v && b == v);
        if h1 < h2 {
            lemma_within_mono(g, s, v, h1, (h2 - 1) as nat);
        } else {
            lemma_within_mono(g, s, v, h2, (h1 - 1) as nat);
        }
    }
    if g.reachable(s, v) {
        let k = choose|k: nat| #[trigger] g.within(s, v, k);
        let h = lemma_fewest_hops(g, s, v, k);
        lemma_layer_names_contains(g, s, h, g.n(), g.name_of(v));
        assert(g.layer_names(s, h, g.n()).contains(g.name_of(v)));
    }
    if exists|h: nat| #[trigger] g.layer_names(s, h, g.n()).contains(g.name_of(v)) {
        let h = choose|h: nat| #[trigger] g.layer_names(s, h, g.n()).contains(g.name_of(v));
        lemma_layer_names_contains(g, s, h, g.n(), g.name_of(v));
        let a = choose|a: int|
            0 <= a < g.n() && g.at_distance(s, a, h) && #[trigger] g.name_of(a) == g.name_of(v);
        assert(a == v);
        assert(g.within(s, v, h));
    }
}

/// Some entry of `all` carries `name`.
pub open spec fn lists_name(all: Seq<PersonStats>, name: Seq<char>) -> bool {
    exists|k: int| 0 <= k < all.len() && (#[trigger] all[k]).name@ == name
}

/// The three tiers of a ranking together list every node exactly once, with
/// `n / 5` nodes in the core tier and `n * 3 / 5 - n / 5` in the active tier.
pub proof fn lemma_tiers_partition(g: &Graph, r: AnalysisResult)
    requires
        g.wf(),
        exists|o: Seq<usize>| #[trigger] g.is_rank_order(o) && g.tiers_follow(o, r),
    ensures
        r.core@.len() == g.n() / 5,
        r.active@.len() == g.n() * 3 / 5 - g.n() / 5,
        r.core@.len() + r.active@.len() + r.edge@.len() == g.n(),
        forall|a: int, b: int|
            0 <= a < b < g.n() ==> (#[trigger] (r.core@ + r.active@ + r.edge@)[a]).name@ != (#[trigger] (
            r.core@ + r.active@ + r.edge@)[b]).name@,
        forall|u: int| 0 <= u < g.n() ==> lists_name(r.core@ + r.active@ + r.edge@, #[trigger] g.name_of(u)),
{
    let o = choose|o: Seq<usize>| #[trigger] g.is_rank_order(o) && g.tiers_follow(o, r);
    let n = g.n();
    let all: Seq<PersonStats> = r.core@ + r.active@ + r.edge@;
    assert(0 <= core_end(n) <= active_end(n) <= n) by (nonlinear_arith)
        requires
            n >= 0,
    ;
    assert forall|k: int| 0 <= k < n implies (#[trigger] all[k]).name@ == g.name_of(o[k] as int) by {
        if k < core_end(n) {
            assert(all[k] == r.core@[k]);
        } else if k < active_end(n) {
            assert(all[k] == r.active@[k - core_end(n)]);
        } else {
            assert(all[k] == r.edge@[k - active_end(n)]);
        }
    }
    assert forall|a: int, b: int| 0 <= a < b < n implies (#[trigger] all[a]).name@ != (
    #[trigger] all[b]).name@ by {
        assert(o[a] != o[b]);
    }
    assert forall|u: int| 0 <= u < g.n() implies lists_name(all, #[trigger] g.name_of(u)) by {
        assert(g.nodes.len() <= usize::MAX);
        assert(o.contains(u as usize));
        let k = choose|k: int| 0 <= k < o.len() && o[k] == u as usize;
        assert(o[k] as int == u);
        assert(all[k].name@ == g.name_of(o[k] as int));
        assert(all[k].name@ == g.name_of(u));
    }
}

/// A proximity result is ordered by non-decreasing distance, leaves out the
/// queried node and holds only nodes within the radius.
pub proof fn lemma_nearby_order(g: &Graph, p: int, radius_sq: int, r: Seq<NearbyPerson>)
    requires
        g.wf(),
        0 <= p < g.n(),
        g.is_nearby_result(p, radius_sq, r),
    ensures
        forall|i: int, j: int| 0 <= i < j < r.len() ==> (#[trigger] r[i]).dist_sq <= (#[trigger] r[j]).dist_sq,
        forall|k: int| 0 <= k < r.len() ==> (#[trigger] r[k]).name@ != g.name_of(p),
        forall|k: int| 0 <= k < r.len() ==> (#[trigger] r[k]).dist_sq <= radius_sq,
{
    let o = choose|o: Seq<usize>|
        #[trigger] g.is_nearby_order(p, radius_sq, o) && o.len() == r.len() && forall|k: int|
            0 <= k < r.len() ==> (#[trigger] r[k]).name@ == g.name_of(o[k] as int) && r[k].dist_sq
                == g.dist_sq(p, o[k] as int);
    assert forall|i: int, j: int| 0 <= i < j < r.len() implies (#[trigger] r[i]).dist_sq <= (
    #[trigger] r[j]).dist_sq by {
        assert(g.nearer(p, o[i] as int, o[j] as int));
    }
    assert forall|k: int| 0 <= k < r.len() implies (#[trigger] r[k]).name@ != g.name_of(p) by {
        assert(g.in_radius(p, radius_sq, o[k] as int));
    }
    assert forall|k: int| 0 <= k < r.len() implies (#[trigger] r[k]).dist_sq <= radius_sq by {
        assert(g.in_radius(p, radius_sq, o[k] as int));
    }
}

} // verus!

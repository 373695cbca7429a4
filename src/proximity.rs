use crate::graph::Graph;
use vstd::prelude::*;

verus! {

/// A node near the queried one, with its squared distance in hundredths squared.
#[derive(Debug)]
pub struct NearbyPerson {
    pub name: String,
    pub dist_sq: u64,
}

impl Graph {
    /// Squared Euclidean distance between the locations of `a` and `b`.
    pub open spec fn dist_sq(&self, a: int, b: int) -> int {
        let dx = self.nodes@[a].loc.x - self.nodes@[b].loc.x;
        let dy = self.nodes@[a].loc.y - self.nodes@[b].loc.y;
        dx * dx + dy * dy
    }

    /// Seen from `p`, node `a` comes before `b`: closer, or as close and
    /// earlier in position order.
    pub open spec fn nearer(&self, p: int, a: int, b: int) -> bool {
        self.dist_sq(p, a) < self.dist_sq(p, b) || (self.dist_sq(p, a) == self.dist_sq(p, b) && a < b)
    }

    /// `u` is another node than `p`, at squared distance at most `radius_sq`.
    pub open spec fn in_radius(&self, p: int, radius_sq: int, u: int) -> bool {
        0 <= u < self.n() && u != p && self.dist_sq(p, u) <= radius_sq
    }

    /// `o` lists exactly the nodes in the radius around `p`, nearest first.
    pub open spec fn is_nearby_order(&self, p: int, radius_sq: int, o: Seq<usize>) -> bool {
        &&& forall|i: int| 0 <= i < o.len() ==> self.in_radius(p, radius_sq, #[trigger] o[i] as int)
        &&& forall|u: int| #[trigger] self.in_radius(p, radius_sq, u) ==> o.contains(u as usize)
        &&& forall|i: int, j: int|
            0 <= i < j < o.len() ==> self.nearer(p, #[trigger] o[i] as int, #[trigger] o[j] as int)
    }

    /// `r` names, with their squared distances, the nodes of some nearest-first
    /// listing of the radius around `p`.
    pub open spec fn is_nearby_result(&self, p: int, radius_sq: int, r: Seq<NearbyPerson>) -> bool {
        exists|o: Seq<usize>|
            #[trigger] self.is_nearby_order(p, radius_sq, o) && o.len() == r.len() && forall|k: int|
                0 <= k < r.len() ==> (#[trigger] r[k]).name@ == self.name_of(o[k] as int) && r[k].dist_sq
                    == self.dist_sq(p, o[k] as int)
    }

    /// Squared Euclidean distance between the locations of nodes `i` and `j`,
    /// in hundredths squared.
    pub fn distance(&self, i: usize, j: usize) -> (r: u64)
        requires
            self.wf(),
            i < self.n(),
            j < self.n(),
        ensures
            r == self.dist_sq(i as int, j as int),
    {
        let a = self.nodes[i].loc;
        let b = self.nodes[j].loc;
        let dx: u64 = if a.x >= b.x { (a.x - b.x) as u64 } else { (b.x - a.x) as u64 };
        let dy: u64 = if a.y >= b.y { (a.y - b.y) as u64 } else { (b.y - a.y) as u64 };
        proof {
            assert(a.in_range() && b.in_range());
            assert(dx * dx <= 10000 * 10000) by (nonlinear_arith)
                requires
                    dx <= 10000,
            ;
            assert(dy * dy <= 10000 * 10000) by (nonlinear_arith)
                requires
                    dy <= 10000,
            ;
            let sx = a.x - b.x;
            let sy = a.y - b.y;
            assert(dx * dx == sx * sx) by (nonlinear_arith)
                requires
                    dx == sx || dx == -sx,
            ;
            assert(dy * dy == sy * sy) by (nonlinear_arith)
                requires
                    dy == sy || dy == -sy,
            ;
        }
        dx * dx + dy * dy
    }

    /// The other nodes whose squared distance from `person` is at most
    /// `radius_sq`, nearest first, ties in position order. `None` when the
    /// name is unknown.
    pub fn get_nearby(&self, person: &str, radius_sq: u64) -> (r: Option<Vec<NearbyPerson>>)
        requires
            self.wf(),
        ensures
            r.is_none() <==> !self.has_name(person@),
            r.is_some() ==> forall|p: int|
                self.is_index_of(person@, p) ==> self.is_nearby_result(p, radius_sq as int, r.unwrap()@),
    {
        let p = match self.index_of(person) {
            Some(i) => i,
            None => return None,
        };
        let n = self.nodes.len();
        let mut order: Vec<usize> = Vec::new();
        let mut result: Vec<NearbyPerson> = Vec::new();
        let mut i: usize = 0;
        while i < n
            invariant
                self.wf(),
                n == self.n(),
                p < n,
                i <= n,
                order@.len() == result@.len(),
                forall|k: int| 0 <= k < order@.len() ==> (#[trigger] order@[k] as int) < i,
                forall|k: int|
                    0 <= k < order@.len() ==> self.in_radius(p as int, radius_sq as int, #[trigger] order@[k] as int),
                forall|u: int|
                    0 <= u < i && #[trigger] self.in_radius(p as int, radius_sq as int, u) ==> order@.contains(
                        u as usize,
                    ),
                forall|a: int, b: int|
                    0 <= a < b < order@.len() ==> self.nearer(
                        p as int,
                        #[trigger] order@[a] as int,
                        #[trigger] order@[b] as int,
                    ),
                forall|k: int|
                    0 <= k < result@.len() ==> (#[trigger] result@[k]).name@ == self.name_of(order@[k] as int)
                        && result@[k].dist_sq == self.dist_sq(p as int, order@[k] as int),
            decreases n - i,
        {
            if i != p {
                let d = self.distance(p, i);
                if d <= radius_sq {
                    let mut q: usize = 0;
                    while q < result.len() && result[q].dist_sq <= d
                        invariant
                            q <= result@.len(),
                            order@.len() == result@.len(),
                            forall|k: int| 0 <= k < order@.len() ==> (#[trigger] order@[k] as int) < i,
                            forall|k: int|
                                0 <= k < result@.len() ==> (#[trigger] result@[k]).dist_sq == self.dist_sq(
                                    p as int,
                                    order@[k] as int,
                                ),
                            forall|k: int| 0 <= k < q ==> self.nearer(p as int, #[trigger] order@[k] as int, i as int),
                            d == self.dist_sq(p as int, i as int),
                        decreases result@.len() - q,
                    {
                        assert(result@[q as int].dist_sq == self.dist_sq(p as int, order@[q as int] as int));
                        q = q + 1;
                    }
                    let ghost old_order = order@;
                    let ghost old_result = result@;
                    proof {
                        assert forall|k: int| q <= k < old_order.len() implies self.nearer(
                            p as int,
                            i as int,
                            #[trigger] old_order[k] as int,
                        ) by {
                            assert(old_result[q as int].dist_sq == self.dist_sq(p as int, old_order[q as int] as int));
                            if k > q {
                                assert(self.nearer(p as int, old_order[q as int] as int, old_order[k] as int));
                            }
                        }
                    }
                    order.insert(q, i);
                    result.insert(q, NearbyPerson { name: self.nodes[i].name.clone(), dist_sq: d });
                    proof {
                        assert forall|a: int, b: int|
                            0 <= a < b < order@.len() implies self.nearer(
                                p as int,
                                #[trigger] order@[a] as int,
                                #[trigger] order@[b] as int,
                            ) by {
                            if b < q {
                                assert(self.nearer(p as int, old_order[a] as int, old_order[b] as int));
                            } else if b == q {
                            } else if a < q {
                                assert(self.nearer(p as int, old_order[a] as int, old_order[b - 1] as int));
                            } else if a == q {
                            } else {
                                assert(self.nearer(p as int, old_order[a - 1] as int, old_order[b - 1] as int));
                            }
                        }
                        assert forall|u: int|
                            0 <= u < i + 1 && #[trigger] self.in_radius(p as int, radius_sq as int, u)
                                implies order@.contains(u as usize) by {
                            if u == i {
                                assert(order@[q as int] == i);
                            } else {
                                assert(old_order.contains(u as usize));
                                let k = choose|k: int| 0 <= k < old_order.len() && old_order[k] == u as usize;
                                if k < q {
                                    assert(order@[k] == u as usize);
                                } else {
                                    assert(order@[k + 1] == u as usize);
                                }
                            }
                        }
                        assert forall|k: int|
                            0 <= k < result@.len() implies (#[trigger] result@[k]).name@ == self.name_of(
                                order@[k] as int,
                            ) && result@[k].dist_sq == self.dist_sq(p as int, order@[k] as int) by {
                            if k < q {
                                assert(result@[k] == old_result[k]);
                            } else if k > q {
                                assert(result@[k] == old_result[k - 1]);
                            }
                        }
                    }
                }
            }
            i = i + 1;
        }
        proof {
            assert(self.is_nearby_order(p as int, radius_sq as int, order@));
            assert forall|p2: int| self.is_index_of(person@, p2) implies self.is_nearby_result(
                p2,
                radius_sq as int,
                result@,
            ) by {
                assert(p2 == p as int);
            }
        }
        Some(result)
    }
}

} // verus!

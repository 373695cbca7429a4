use crate::graph::{Graph, Node};
use vstd::prelude::*;

verus! {

/// One data row of the edge list: a directed relation and its weight in thousandths.
#[derive(Debug)]
pub struct Record {
    pub source: String,
    pub target: String,
    pub weight: i64,
}

/// The pieces of `s` between commas, in order; a string without commas is
/// one piece.
pub open spec fn comma_fields(s: Seq<char>) -> Seq<Seq<char>>
    decreases s.len(),
{
    if s.len() == 0 {
        seq![Seq::empty()]
    } else {
        let f = comma_fields(s.drop_last());
        if s.last() == ',' {
            f.push(Seq::empty())
        } else {
            f.update(f.len() - 1, f.last().push(s.last()))
        }
    }
}

/// `s` without leading and trailing whitespace, as `str::trim` gives it.
pub uninterp spec fn trimmed(s: Seq<char>) -> Seq<char>;

/// Relies on str::split with a `char` pattern: the pieces between the
/// commas, in order, with one piece for a string that holds no comma.
#[verifier::external_body]
fn split_commas(s: &str) -> (r: Vec<String>)
    ensures
        r@.map_values(|x: String| x@) == comma_fields(s@),
{
    s.split(',').map(String::from).collect()
}

/// Relies on str::trim: the string without leading and trailing whitespace.
#[verifier::external_body]
fn trim(s: &str) -> (r: String)
    ensures
        r@ == trimmed(s@),
{
    s.trim().to_string()
}

/// Splits a data line `source,target,weight` into its three trimmed fields.
/// `None` for a blank line and for a line with another number of fields.
pub fn split_record(line: &str) -> (r: Option<(String, String, String)>)
    ensures
        r.is_none() <==> (trimmed(line@).len() == 0 || comma_fields(line@).len() != 3),
        r.is_some() ==> {
            &&& r.unwrap().0@ == trimmed(comma_fields(line@)[0])
            &&& r.unwrap().1@ == trimmed(comma_fields(line@)[1])
            &&& r.unwrap().2@ == trimmed(comma_fields(line@)[2])
        },
{
    let t = trim(line);
    if t.as_str().is_empty() {
        return None;
    }
    let parts = split_commas(line);
    if parts.len() != 3 {
        return None;
    }
    proof {
        assert(parts@.map_values(|x: String| x@)[0] == parts@[0]@);
        assert(parts@.map_values(|x: String| x@)[1] == parts@[1]@);
        assert(parts@.map_values(|x: String| x@)[2] == parts@[2]@);
    }
    Some((trim(parts[0].as_str()), trim(parts[1].as_str()), trim(parts[2].as_str())))
}

/// `ns` with `x` appended unless already present.
pub open spec fn add_name(ns: Seq<Seq<char>>, x: Seq<char>) -> Seq<Seq<char>> {
    if ns.contains(x) {
        ns
    } else {
        ns.push(x)
    }
}

/// Node names, in first-seen order, after loading `recs`.
pub open spec fn loaded_names(recs: Seq<Record>) -> Seq<Seq<char>>
    decreases recs.len(),
{
    if recs.len() == 0 {
        Seq::empty()
    } else {
        let r = recs.last();
        add_name(add_name(loaded_names(recs.drop_last()), r.source@), r.target@)
    }
}

/// Adjacency lists after loading `recs`: each record appends
/// `(target position, weight)` to the list of its source.
pub open spec fn loaded_adj(recs: Seq<Record>) -> Seq<Seq<(usize, i64)>>
    decreases recs.len(),
{
    if recs.len() == 0 {
        Seq::empty()
    } else {
        let r = recs.last();
        let before = loaded_adj(recs.drop_last());
        let ns = loaded_names(recs);
        let grown = before + Seq::new(
            (ns.len() - before.len()) as nat,
            |i: int| Seq::<(usize, i64)>::empty(),
        );
        let u = ns.index_of(r.source@);
        grown.update(u, grown[u].push((ns.index_of(r.target@) as usize, r.weight)))
    }
}

impl Graph {
    /// Node names in position order.
    pub open spec fn names(&self) -> Seq<Seq<char>> {
        self.nodes@.map_values(|nd: Node| nd.name@)
    }

    /// Adjacency lists as sequences.
    pub open spec fn adj_view(&self) -> Seq<Seq<(usize, i64)>> {
        self.adj@.map_values(|l: Vec<(usize, i64)>| l@)
    }

    /// Clears the store, then for each record resolves both endpoints (adding
    /// unseen names at random locations) and appends a directed entry from
    /// source to target.
    pub fn load_from_records(&mut self, records: &Vec<Record>)
        ensures
            final(self).wf(),
            final(self).names() == loaded_names(records@),
            final(self).adj_view() == loaded_adj(records@),
    {
        self.nodes = Vec::new();
        self.adj = Vec::new();
        let mut i: usize = 0;
        proof {
            assert(self.names() =~= loaded_names(records@.take(0)));
            assert(self.adj_view() =~= loaded_adj(records@.take(0)));
        }
        while i < records.len()
            invariant
                self.wf(),
                i <= records@.len(),
                self.names() == loaded_names(records@.take(i as int)),
                self.adj_view() == loaded_adj(records@.take(i as int)),
                self.adj_view().len() == self.names().len(),
            decreases records@.len() - i,
        {
            let ghost recs = records@.take(i as int + 1);
            let ghost g0 = *self;
            let rec = &records[i];
            let u = self.update_node(rec.source.as_str());
            let ghost g1 = *self;
            let v = self.update_node(rec.target.as_str());
            let ghost g2 = *self;
            let mut list: Vec<(usize, i64)> = Vec::new();
            self.adj.set_and_swap(u, &mut list);
            list.push((v, rec.weight));
            self.adj.set_and_swap(u, &mut list);
            proof {
                assert(recs.drop_last() =~= records@.take(i as int));
                assert(recs.last() == *rec);
                lemma_names_step(g0, g1, rec.source@);
                lemma_names_step(g1, g2, rec.target@);
                let ns = loaded_names(recs);
                assert(g2.names() == ns);
                lemma_index_of_unique(ns, u as int);
                lemma_index_of_unique(ns, v as int);
                assert forall|a: int, j: int|
                    0 <= a < self.adj@.len() && 0 <= j < self.adj@[a]@.len() implies (
                    #[trigger] self.adj@[a]@[j]).0 < self.nodes@.len() by {
                    if a != u {
                        assert(self.adj@[a] == g2.adj@[a]);
                    } else if j < g2.adj@[a]@.len() {
                        assert(self.adj@[a]@[j] == g2.adj@[a]@[j]);
                    }
                }
                let before = loaded_adj(records@.take(i as int));
                let grown = before + Seq::new(
                    (ns.len() - before.len()) as nat,
                    |k: int| Seq::<(usize, i64)>::empty(),
                );
                assert(g2.adj_view() =~= grown);
                assert(self.adj_view() =~= grown.update(
                    u as int,
                    grown[u as int].push((v, rec.weight)),
                ));
            }
            i = i + 1;
        }
        proof {
            assert(records@.take(i as int) =~= records@);
        }
    }
}

/// Resolving a name extends the name list as `add_name` does and adds an
/// empty adjacency list for a new node.
proof fn lemma_names_step(g0: Graph, g1: Graph, x: Seq<char>)
    requires
        g0.wf(),
        g0.adj_view().len() == g0.names().len(),
        g1.is_index_of(x, g1.n() - 1) || g1.has_name(x),
        g0.has_name(x) ==> g1 == g0,
        !g0.has_name(x) ==> {
            &&& g1.nodes@ == g0.nodes@.push(g1.nodes@[g0.n()])
            &&& g1.nodes@[g0.n()].name@ == x
            &&& g1.adj@ == g0.adj@.push(g1.adj@[g0.n()])
            &&& g1.adj@[g0.n()]@.len() == 0
        },
    ensures
        g1.names() == add_name(g0.names(), x),
        g1.adj_view() == g0.adj_view() + Seq::new(
            (g1.names().len() - g0.names().len()) as nat,
            |i: int| Seq::<(usize, i64)>::empty(),
        ),
{
    if g0.has_name(x) {
        let i = choose|i: int| 0 <= i < g0.n() && #[trigger] g0.name_of(i) == x;
        assert(g0.names()[i] == x);
        assert(g0.adj_view() =~= g0.adj_view() + Seq::new(0, |i: int| Seq::<(usize, i64)>::empty()));
    } else {
        assert(!g0.names().contains(x)) by {
            if g0.names().contains(x) {
                let i = choose|i: int| 0 <= i < g0.names().len() && g0.names()[i] == x;
                assert(g0.name_of(i) == x);
            }
        }
        assert(g1.names() =~= g0.names().push(x));
        assert(g1.adj@[g0.n()]@ =~= Seq::<(usize, i64)>::empty());
        assert(g1.adj_view() =~= g0.adj_view() + Seq::new(
            1,
            |i: int| Seq::<(usize, i64)>::empty(),
        ));
    }
}

/// In a list of distinct names, `index_of` finds a name at its only position.
proof fn lemma_index_of_unique(ns: Seq<Seq<char>>, u: int)
    requires
        0 <= u < ns.len(),
        forall|a: int, b: int| 0 <= a < ns.len() && 0 <= b < ns.len() && a != b ==> ns[a] != ns[b],
    ensures
        ns.index_of(ns[u]) == u,
{
    assert(ns.contains(ns[u]));
}

} // verus!

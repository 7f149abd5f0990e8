//! An annotated graph: arbitrary values on nodes and edges, append-only,
//! with stable integer node ids and symmetric adjacency. A node's id is its
//! insertion index; ids are never reused or invalidated, since nothing is
//! ever deleted. Edges are created only together with the node they attach,
//! so the adjacency lists of both endpoints can be kept consistent
//! atomically.

use vstd::prelude::*;

verus! {

/// The one failure mode of the graph: a node id at or past the node count.
#[derive(Clone, Copy, Debug, PartialEq, Eq, Structural)]
pub enum GraphError {
    IndexOutOfRange,
}

struct Node<N> {
    val: N,
    neighbours: Vec<usize>,
}

/// An edge value together with its two endpoint node ids. The pair is
/// conceptually undirected; it is stored in creation order, the newly added
/// node first.
#[derive(Clone, Copy)]
pub struct Edge<E> {
    val: E,
    end_a: usize,
    end_b: usize,
}

impl<E> Edge<E> {
    /// The value carried by this edge.
    pub closed spec fn spec_val(self) -> E {
        self.val
    }

    /// The two endpoint node ids, in stored order.
    pub closed spec fn spec_ends(self) -> (usize, usize) {
        (self.end_a, self.end_b)
    }
}

/// The ids named by a sequence of `(neighbour id, edge value)` pairs, in
/// order.
pub open spec fn ids_of<E>(ns: Seq<(usize, E)>) -> Seq<usize> {
    ns.map_values(|p: (usize, E)| p.0)
}

/// How many times `m` occurs in `ids`.
pub open spec fn id_count(ids: Seq<usize>, m: usize) -> nat
    decreases ids.len(),
{
    if ids.len() == 0 {
        0
    } else {
        id_count(ids.drop_last(), m) + (if ids.last() == m {
            1nat
        } else {
            0nat
        })
    }
}

/// A sequence whose prefix agrees element for element with a shorter one
/// contains everything the shorter one does.
proof fn lemma_extension_contains(s1: Seq<usize>, s2: Seq<usize>, x: usize)
    requires
        s1.len() <= s2.len(),
        forall|t: int| 0 <= t < s1.len() ==> s2[t] == s1[t],
        s1.contains(x),
    ensures
        s2.contains(x),
{
    let t = choose|t: int| 0 <= t < s1.len() && s1[t] == x;
    assert(s2[t] == x);
}

/// An element of a sequence occurs in it at least once.
proof fn lemma_id_count_at_index(ids: Seq<usize>, t: int)
    requires
        0 <= t < ids.len(),
    ensures
        id_count(ids, ids[t]) >= 1,
    decreases ids.len(),
{
    if t == ids.len() - 1 {
    } else {
        lemma_id_count_at_index(ids.drop_last(), t);
    }
}

/// An append-only graph with a value of type `N` on every node and a value
/// of type `E` on every edge.
pub struct AnnGraph<N, E> {
    nodes: Vec<Node<N>>,
    edges: Vec<Edge<E>>,
}

impl<N, E> AnnGraph<N, E> {
    /// How many nodes the graph holds; node ids are exactly `0 .. node_count`.
    pub closed spec fn node_count(self) -> nat {
        self.nodes@.len()
    }

    /// The value stored at node `i`.
    pub closed spec fn node_val(self, i: int) -> N {
        self.nodes@[i].val
    }

    /// The adjacency list of node `i`: its neighbours' ids, in insertion
    /// order.
    pub closed spec fn adj(self, i: int) -> Seq<usize> {
        self.nodes@[i].neighbours@
    }

    /// All edges, in creation order.
    pub closed spec fn edge_seq(self) -> Seq<Edge<E>> {
        self.edges@
    }

    /// How many edges the graph holds.
    pub open spec fn edge_count(self) -> nat {
        self.edge_seq().len()
    }

    /// Every id the graph stores is a valid index, and adjacency is
    /// symmetric: each edge's endpoints appear in each other's adjacency
    /// lists. Established by `new` and preserved by every operation.
    pub open spec fn wf(self) -> bool {
        &&& forall|k: int|
            0 <= k < self.edge_seq().len() ==> {
                &&& (#[trigger] self.edge_seq()[k]).spec_ends().0 < self.node_count()
                &&& self.edge_seq()[k].spec_ends().1 < self.node_count()
                &&& self.adj(self.edge_seq()[k].spec_ends().0 as int).contains(
                    self.edge_seq()[k].spec_ends().1,
                )
                &&& self.adj(self.edge_seq()[k].spec_ends().1 as int).contains(
                    self.edge_seq()[k].spec_ends().0,
                )
            }
        &&& forall|i: int, j: int|
            0 <= i < self.node_count() && 0 <= j < self.adj(i).len() ==> (#[trigger] self.adj(
                i,
            )[j]) < self.node_count()
    }

    /// The empty graph.
    pub fn new() -> (g: AnnGraph<N, E>)
        ensures
            g.node_count() == 0,
            g.edge_count() == 0,
            g.wf(),
    {
        AnnGraph { nodes: Vec::new(), edges: Vec::new() }
    }

    /// Append a node holding `node`, linked to the already existing nodes
    /// named in `neighbours`. On success the new id is the previous node
    /// count; one edge per pair is appended in order, the new node's
    /// adjacency list is exactly the named ids in the order given, and the
    /// new id is appended to each named neighbour's list, once per mention.
    /// If any named id does not yet exist, nothing changes and an error is
    /// returned.
    pub fn add_node(&mut self, node: N, neighbours: Vec<(usize, E)>) -> (r: Result<
        usize,
        GraphError,
    >)
        requires
            old(self).wf(),
        ensures
            final(self).wf(),
            r is Ok <==> (forall|j: int|
                0 <= j < neighbours@.len() ==> (#[trigger] neighbours@[j]).0 < old(self).node_count()),
            r is Err ==> *final(self) == *old(self) && r == Err::<usize, GraphError>(
                GraphError::IndexOutOfRange,
            ),
            r matches Ok(id) ==> {
                &&& id == old(self).node_count()
                &&& final(self).node_count() == old(self).node_count() + 1
                &&& final(self).node_val(id as int) == node
                &&& final(self).adj(id as int) == ids_of(neighbours@)
                &&& forall|i: int|
                    0 <= i < old(self).node_count() ==> final(self).node_val(i) == old(self).node_val(i)
                &&& final(self).edge_count() == old(self).edge_count() + neighbours@.len()
                &&& forall|k: int|
                    0 <= k < old(self).edge_count() ==> final(self).edge_seq()[k] == old(self).edge_seq()[k]
                &&& forall|j: int|
                    0 <= j < neighbours@.len() ==> {
                        let e = #[trigger] final(self).edge_seq()[old(self).edge_count() + j];
                        e.spec_val() == neighbours@[j].1 && e.spec_ends() == (
                            id,
                            neighbours@[j].0,
                        )
                    }
                &&& forall|m: int|
                    0 <= m < old(self).node_count() ==> {
                        &&& (#[trigger] final(self).adj(m)).len() == old(self).adj(m).len()
                            + id_count(ids_of(neighbours@), m as usize)
                        &&& (forall|t: int|
                            0 <= t < old(self).adj(m).len() ==> final(self).adj(m)[t] == old(self).adj(m)[t])
                        &&& (forall|t: int|
                            old(self).adj(m).len() <= t < final(self).adj(m).len() ==> final(self).adj(m)[t] == id)
                    }
                &&& forall|j: int|
                    0 <= j < neighbours@.len() ==> final(self).adj(
                        (#[trigger] neighbours@[j]).0 as int,
                    ).contains(id) && final(self).adj(id as int).contains(neighbours@[j].0)
            },
    {
        let id = self.nodes.len();
        let mut k: usize = 0;
        while k < neighbours.len()
            invariant
                *self == *old(self),
                old(self).wf(),
                id == old(self).node_count(),
                k <= neighbours@.len(),
                forall|t: int| 0 <= t < k ==> (#[trigger] neighbours@[t]).0 < id,
            decreases neighbours@.len() - k,
        {
            if neighbours[k].0 >= id {
                return Err(GraphError::IndexOutOfRange);
            }
            k += 1;
        }
        let ghost all = neighbours@;
        let mut ns = neighbours;
        let mut new_adj: Vec<usize> = Vec::new();
        while ns.len() > 0
            invariant
                old(self).wf(),
                id == old(self).node_count(),
                ns@.len() <= all.len(),
                ns@ == all.skip(all.len() - ns@.len()),
                forall|t: int| 0 <= t < all.len() ==> (#[trigger] all[t]).0 < id,
                self.nodes@.len() == id,
                forall|i: int| 0 <= i < id ==> self.node_val(i) == old(self).node_val(i),
                new_adj@ == ids_of(all.take(all.len() - ns@.len())),
                self.edges@.len() == old(self).edges@.len() + (all.len() - ns@.len()),
                forall|t: int|
                    0 <= t < old(self).edges@.len() ==> self.edges@[t] == old(self).edges@[t],
                forall|t: int|
                    0 <= t < all.len() - ns@.len() ==> {
                        let e = #[trigger] self.edges@[old(self).edges@.len() + t];
                        e.spec_val() == all[t].1 && e.spec_ends() == (id, all[t].0)
                    },
                forall|m: int|
                    0 <= m < id ==> {
                        &&& (#[trigger] self.adj(m)).len() == old(self).adj(m).len() + id_count(
                            ids_of(all.take(all.len() - ns@.len())),
                            m as usize,
                        )
                        &&& (forall|t: int|
                            0 <= t < old(self).adj(m).len() ==> self.adj(m)[t] == old(self).adj(
                                m,
                            )[t])
                        &&& (forall|t: int|
                            old(self).adj(m).len() <= t < self.adj(m).len() ==> self.adj(m)[t]
                                == id)
                    },
            decreases ns@.len(),
        {
            let ghost j = all.len() - ns@.len();
            proof {
                assert(all.skip(j)[0] == all[j]);
            }
            let pair = ns.remove(0);
            let n = pair.0;
            proof {
                assert(pair == all[j]);
                assert(all.skip(j).remove(0) =~= all.skip(j + 1));
                assert(n < id);
            }
            let ghost prev = *self;
            self.nodes[n].neighbours.push(id);
            self.edges.push(Edge { val: pair.1, end_a: id, end_b: n });
            new_adj.push(n);
            proof {
                assert(forall|i: int| 0 <= i < id && i != n ==> self.nodes@[i] == prev.nodes@[i]);
                assert(self.nodes@[n as int].val == prev.nodes@[n as int].val);
                assert(self.adj(n as int) == prev.adj(n as int).push(id));
                assert(ids_of(all.take(j + 1)) =~= ids_of(all.take(j)).push(n));
                assert forall|m: usize|
                    id_count(ids_of(all.take(j + 1)), m) == id_count(ids_of(all.take(j)), m) + (
                    if n == m {
                        1nat
                    } else {
                        0nat
                    }) by {
                    let p = ids_of(all.take(j)).push(n);
                    assert(p.drop_last() =~= ids_of(all.take(j)));
                    assert(ids_of(all.take(j + 1)) == p);
                }
                assert forall|m: int| 0 <= m < id implies {
                    &&& (#[trigger] self.adj(m)).len() == old(self).adj(m).len() + id_count(
                        ids_of(all.take(j + 1)),
                        m as usize,
                    )
                    &&& (forall|t: int|
                        0 <= t < old(self).adj(m).len() ==> self.adj(m)[t] == old(self).adj(m)[t])
                    &&& (forall|t: int|
                        old(self).adj(m).len() <= t < self.adj(m).len() ==> self.adj(m)[t] == id)
                } by {
                    if m == n as int {
                        assert(self.adj(m) == prev.adj(m).push(id));
                    } else {
                        assert(self.adj(m) == prev.adj(m));
                    }
                }
            }
        }
        proof {
            assert(all.take(all.len() as int) =~= all);
        }
        let ghost pre = *self;
        self.nodes.push(Node { val: node, neighbours: new_adj });
        proof {
            assert forall|i: int| 0 <= i < id implies self.adj(i) == pre.adj(i) && self.node_val(i)
                == pre.node_val(i) by {
                assert(self.nodes@[i] == pre.nodes@[i]);
            }
            assert(self.adj(id as int) == ids_of(all));
            assert forall|m: int| 0 <= m < id implies {
                &&& (#[trigger] self.adj(m)).len() == old(self).adj(m).len() + id_count(
                    ids_of(all),
                    m as usize,
                )
                &&& (forall|t: int|
                    0 <= t < old(self).adj(m).len() ==> self.adj(m)[t] == old(self).adj(m)[t])
                &&& (forall|t: int|
                    old(self).adj(m).len() <= t < self.adj(m).len() ==> self.adj(m)[t] == id)
            } by {
                assert(self.adj(m) == pre.adj(m));
                assert(pre.adj(m).len() == old(self).adj(m).len() + id_count(
                    ids_of(all.take(all.len() as int)),
                    m as usize,
                ));
                assert(ids_of(all.take(all.len() as int)) == ids_of(all));
            }
            assert forall|k2: int| 0 <= k2 < self.edges@.len() implies {
                &&& (#[trigger] self.edge_seq()[k2]).spec_ends().0 < self.node_count()
                &&& self.edge_seq()[k2].spec_ends().1 < self.node_count()
                &&& self.adj(self.edge_seq()[k2].spec_ends().0 as int).contains(
                    self.edge_seq()[k2].spec_ends().1,
                )
                &&& self.adj(self.edge_seq()[k2].spec_ends().1 as int).contains(
                    self.edge_seq()[k2].spec_ends().0,
                )
            } by {
                if k2 < old(self).edges@.len() {
                    let e = old(self).edge_seq()[k2];
                    assert(e.spec_ends().0 < old(self).node_count());
                    let a = e.spec_ends().0;
                    let b = e.spec_ends().1;
                    lemma_extension_contains(old(self).adj(a as int), self.adj(a as int), b);
                    lemma_extension_contains(old(self).adj(b as int), self.adj(b as int), a);
                } else {
                    let t = k2 - old(self).edges@.len();
                    let e = self.edge_seq()[k2];
                    assert(self.edges@[old(self).edges@.len() + t] == e);
                    assert(e.spec_ends() == (id, all[t].0));
                    let m = all[t].0;
                    assert(ids_of(all)[t] == m);
                    assert(self.adj(id as int)[t] == m);
                    lemma_id_count_at_index(ids_of(all), t);
                    assert(self.adj(m as int)[old(self).adj(m as int).len() as int] == id);
                }
            }
            assert forall|i: int, j2: int|
                0 <= i < self.node_count() && 0 <= j2 < self.adj(i).len() implies (
            #[trigger] self.adj(i)[j2]) < self.node_count() by {
                if i < id {
                    if j2 < old(self).adj(i).len() {
                        assert(old(self).adj(i)[j2] < old(self).node_count());
                    }
                } else {
                    assert(self.adj(i)[j2] == ids_of(all)[j2]);
                }
            }
            assert forall|j2: int| 0 <= j2 < all.len() implies self.adj(
                (#[trigger] all[j2]).0 as int,
            ).contains(id) && self.adj(id as int).contains(all[j2].0) by {
                let m = all[j2].0;
                assert(ids_of(all)[j2] == m);
                lemma_id_count_at_index(ids_of(all), j2);
                assert(self.adj(m as int)[old(self).adj(m as int).len() as int] == id);
                assert(self.adj(id as int)[j2] == m);
            }
        }
        Ok(id)
    }

    /// All edges, in creation order.
    pub fn edges(&self) -> (r: &[Edge<E>])
        ensures
            r@ == self.edge_seq(),
    {
        self.edges.as_slice()
    }

    /// References to all node values, in id order.
    pub fn nodes(&self) -> (r: Vec<&N>)
        ensures
            r@.len() == self.node_count(),
            forall|i: int| 0 <= i < r@.len() ==> *(#[trigger] r@[i]) == self.node_val(i),
    {
        let mut out: Vec<&N> = Vec::new();
        let mut i: usize = 0;
        while i < self.nodes.len()
            invariant
                i <= self.nodes@.len(),
                out@.len() == i,
                forall|k: int| 0 <= k < i ==> *(#[trigger] out@[k]) == self.node_val(k),
            decreases self.nodes@.len() - i,
        {
            out.push(&self.nodes[i].val);
            i = i + 1;
        }
        out
    }

    /// The value of node `id`, or an out-of-range error.
    pub fn get_node(&self, id: usize) -> (r: Result<&N, GraphError>)
        ensures
            r is Ok <==> id < self.node_count(),
            r matches Ok(v) ==> *v == self.node_val(id as int),
            r is Err ==> r == Err::<&N, GraphError>(GraphError::IndexOutOfRange),
    {
        if id < self.nodes.len() {
            Ok(&self.nodes[id].val)
        } else {
            Err(GraphError::IndexOutOfRange)
        }
    }

    /// A copy of the adjacency list of node `id`, or an out-of-range error.
    pub fn neighbour_ids(&self, id: usize) -> (r: Result<Vec<usize>, GraphError>)
        ensures
            r is Ok <==> id < self.node_count(),
            r matches Ok(v) ==> v@ == self.adj(id as int),
            r is Err ==> r == Err::<Vec<usize>, GraphError>(GraphError::IndexOutOfRange),
    {
        if id < self.nodes.len() {
            let v = self.nodes[id].neighbours.clone();
            proof {
                assert(v@ =~= self.adj(id as int));
            }
            Ok(v)
        } else {
            Err(GraphError::IndexOutOfRange)
        }
    }

    /// References to the values of node `id`'s neighbours, in adjacency
    /// order, or an out-of-range error.
    pub fn neighbours(&self, id: usize) -> (r: Result<Vec<&N>, GraphError>)
        requires
            self.wf(),
        ensures
            r is Ok <==> id < self.node_count(),
            r matches Ok(v) ==> {
                &&& v@.len() == self.adj(id as int).len()
                &&& forall|j: int|
                    0 <= j < v@.len() ==> *(#[trigger] v@[j]) == self.node_val(
                        self.adj(id as int)[j] as int,
                    )
            },
            r is Err ==> r == Err::<Vec<&N>, GraphError>(GraphError::IndexOutOfRange),
    {
        if id >= self.nodes.len() {
            return Err(GraphError::IndexOutOfRange);
        }
        let ids = &self.nodes[id].neighbours;
        let mut out: Vec<&N> = Vec::new();
        let mut j: usize = 0;
        while j < ids.len()
            invariant
                self.wf(),
                id < self.nodes@.len(),
                ids@ == self.adj(id as int),
                j <= ids@.len(),
                out@.len() == j,
                forall|t: int|
                    0 <= t < j ==> *(#[trigger] out@[t]) == self.node_val(
                        self.adj(id as int)[t] as int,
                    ),
            decreases ids@.len() - j,
        {
            let nid = ids[j];
            proof {
                assert(self.adj(id as int)[j as int] < self.node_count());
            }
            out.push(&self.nodes[nid].val);
            j += 1;
        }
        Ok(out)
    }

    /// A new graph with the same shape as `self` — node count, edge
    /// sequence and every adjacency list unchanged — and every node value
    /// replaced by `f(id, old value)`. The old value handed to `f` is
    /// always read from `self`, so the update is synchronous: no call of
    /// `f` can observe another node's already transformed value, whatever
    /// order the nodes are visited in.
    pub fn modify_nodes<F: Fn(usize, &N) -> N>(&self, f: F) -> (g: AnnGraph<N, E>) where
        E: Copy,

        requires
            forall|i: usize|
                i < self.node_count() ==> call_requires(f, (i, &self.node_val(i as int))),
        ensures
            g.node_count() == self.node_count(),
            g.edge_seq() == self.edge_seq(),
            forall|i: int| 0 <= i < self.node_count() ==> #[trigger] g.adj(i) == self.adj(i),
            forall|i: usize|
                i < self.node_count() ==> call_ensures(
                    f,
                    (i, &self.node_val(i as int)),
                    #[trigger] g.node_val(i as int),
                ),
            self.wf() ==> g.wf(),
    {
        let mut new_nodes: Vec<Node<N>> = Vec::new();
        let mut i: usize = 0;
        while i < self.nodes.len()
            invariant
                forall|t: usize|
                    t < self.node_count() ==> call_requires(f, (t, &self.node_val(t as int))),
                i <= self.nodes@.len(),
                new_nodes@.len() == i,
                forall|t: int| 0 <= t < i ==> (#[trigger] new_nodes@[t]).neighbours@ == self.adj(t),
                forall|t: int|
                    0 <= t < i ==> call_ensures(
                        f,
                        ((t as usize), &self.node_val(t)),
                        (#[trigger] new_nodes@[t]).val,
                    ),
            decreases self.nodes@.len() - i,
        {
            proof {
                assert(call_requires(f, (i, &self.node_val(i as int))));
            }
            let val = f(i, &self.nodes[i].val);
            let nbrs = self.nodes[i].neighbours.clone();
            proof {
                assert(nbrs@ =~= self.adj(i as int));
            }
            new_nodes.push(Node { val, neighbours: nbrs });
            i += 1;
        }
        let mut new_edges: Vec<Edge<E>> = Vec::new();
        let mut k: usize = 0;
        while k < self.edges.len()
            invariant
                k <= self.edges@.len(),
                new_edges@.len() == k,
                forall|t: int| 0 <= t < k ==> #[trigger] new_edges@[t] == self.edges@[t],
            decreases self.edges@.len() - k,
        {
            let e = &self.edges[k];
            new_edges.push(Edge { val: e.val, end_a: e.end_a, end_b: e.end_b });
            k += 1;
        }
        let g = AnnGraph { nodes: new_nodes, edges: new_edges };
        proof {
            assert(g.edge_seq() =~= self.edge_seq());
        }
        g
    }

    /// Both endpoint values of `e`, in the edge's stored order, or an
    /// out-of-range error if either endpoint does not name a node of this
    /// graph.
    pub fn ends(&self, e: &Edge<E>) -> (r: Result<(&N, &N), GraphError>)
        ensures
            r is Ok <==> e.spec_ends().0 < self.node_count() && e.spec_ends().1
                < self.node_count(),
            r matches Ok(p) ==> *p.0 == self.node_val(e.spec_ends().0 as int) && *p.1
                == self.node_val(e.spec_ends().1 as int),
            r is Err ==> r == Err::<(&N, &N), GraphError>(GraphError::IndexOutOfRange),
    {
        if e.end_a < self.nodes.len() && e.end_b < self.nodes.len() {
            Ok((&self.nodes[e.end_a].val, &self.nodes[e.end_b].val))
        } else {
            Err(GraphError::IndexOutOfRange)
        }
    }
}

} // verus!


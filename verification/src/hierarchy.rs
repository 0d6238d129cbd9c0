//! The hierarchy of units, as a specification.
//!
//! The parent of a unit is the unit whose identifier is the unit's own
//! without its last part. The graph of a list of units has one node for
//! each identifier of the list and an edge from each parent to each of its
//! children. This module says which graph the builder makes, node by node
//! and edge by edge, and proves what holds of it.

use vstd::prelude::*;
use vstd::set_lib::{lemma_int_range, lemma_len_subset, set_int_range};
use crate::grammar::{parent_of, PartView};

verus! {

/// An identifier, as the grammar sees it.
pub type IdView = Seq<PartView>;

/// The index of the first `x` in `s` at `k` or later.
pub open spec fn first_at<T>(s: Seq<T>, x: T, k: int) -> Option<int>
    decreases s.len() - k,
{
    if 0 <= k < s.len() {
        if s[k] == x {
            Some(k)
        } else {
            first_at(s, x, k + 1)
        }
    } else {
        None
    }
}

/// The index of the first `x` in `s`.
pub open spec fn first_of<T>(s: Seq<T>, x: T) -> Option<int> {
    first_at(s, x, 0)
}

pub proof fn lemma_first_at<T>(s: Seq<T>, x: T, k: int)
    requires
        0 <= k,
    ensures
        match first_at(s, x, k) {
            Some(j) => k <= j < s.len() && s[j] == x && forall|i: int|
                k <= i < j ==> #[trigger] s[i] != x,
            None => forall|i: int| k <= i < s.len() ==> #[trigger] s[i] != x,
        },
    decreases s.len() - k,
{
    if k < s.len() && s[k] != x {
        lemma_first_at(s, x, k + 1);
    }
}

/// What `first_of` finds: the least index that holds `x`, or nothing where
/// no index does.
pub proof fn lemma_first_of<T>(s: Seq<T>, x: T)
    ensures
        match first_of(s, x) {
            Some(j) => 0 <= j < s.len() && s[j] == x && forall|i: int|
                0 <= i < j ==> #[trigger] s[i] != x,
            None => forall|i: int| 0 <= i < s.len() ==> #[trigger] s[i] != x,
        },
{
    lemma_first_at(s, x, 0);
}

/// Whether unit `i` is the first of the list with its identifier. Of units
/// that share an identifier the graph holds the first.
pub open spec fn is_first(ids: Seq<IdView>, i: int) -> bool {
    0 <= i < ids.len() && first_of(ids, ids[i]) == Some(i)
}

/// A graph of units. A node holds the index of its unit in the list; the
/// nodes are numbered in the order in which they were made. An edge is a
/// pair of node numbers, parent first.
pub struct GraphModel {
    pub nodes: Seq<int>,
    pub edges: Seq<(int, int)>,
    /// The units whose parent is not in the list.
    pub orphans: Seq<int>,
}

/// The graph with a node for unit `u`: the graph itself where it has one,
/// else with one more node.
pub open spec fn with_node(m: GraphModel, u: int) -> GraphModel {
    if first_of(m.nodes, u) is Some {
        m
    } else {
        GraphModel { nodes: m.nodes.push(u), ..m }
    }
}

/// The graph after unit `i` was processed: the unit has its node; where its
/// parent is in the list, the parent has its node too and an edge leads
/// from it to the unit; where the unit has a parent that is not in the
/// list, the unit is recorded as an orphan.
pub open spec fn step(ids: Seq<IdView>, m: GraphModel, i: int) -> GraphModel {
    if !is_first(ids, i) {
        m
    } else {
        let m1 = with_node(m, i);
        match parent_of(ids[i]) {
            None => m1,
            Some(pid) => match first_of(ids, pid) {
                None => GraphModel { orphans: m1.orphans.push(i), ..m1 },
                Some(pu) => {
                    let m2 = with_node(m1, pu);
                    GraphModel {
                        edges: m2.edges.push(
                            (first_of(m2.nodes, pu).unwrap(), first_of(m2.nodes, i).unwrap()),
                        ),
                        ..m2
                    }
                },
            },
        }
    }
}

/// The graph after the first `n` units were processed, in order.
pub open spec fn build(ids: Seq<IdView>, n: int) -> GraphModel
    decreases n,
{
    if n <= 0 {
        GraphModel { nodes: Seq::empty(), edges: Seq::empty(), orphans: Seq::empty() }
    } else {
        step(ids, build(ids, n - 1), n - 1)
    }
}

/// The graph of a list of units, given by their identifiers.
pub open spec fn graph_of(ids: Seq<IdView>) -> GraphModel {
    build(ids, ids.len() as int)
}

/// The identifier of the unit of node `k`.
pub open spec fn node_id(ids: Seq<IdView>, m: GraphModel, k: int) -> IdView {
    ids[m.nodes[k]]
}

/// Whether the parent of unit `i` is in the list.
pub open spec fn has_parent_in(ids: Seq<IdView>, i: int) -> bool {
    parent_of(ids[i]) is Some && first_of(ids, parent_of(ids[i]).unwrap()) is Some
}

/// Whether unit `i` has a parent identifier that no unit of the list has.
pub open spec fn is_orphan(ids: Seq<IdView>, i: int) -> bool {
    parent_of(ids[i]) is Some && first_of(ids, parent_of(ids[i]).unwrap()) is None
}

/// What holds of the graph after the first `n` units were processed.
pub open spec fn built(ids: Seq<IdView>, m: GraphModel, n: int) -> bool {
    // Each node holds the first unit with its identifier, and no two nodes
    // hold the same unit.
    &&& forall|k: int| 0 <= k < m.nodes.len() ==> is_first(ids, #[trigger] m.nodes[k])
    &&& forall|k: int, l: int|
        0 <= k < l < m.nodes.len() ==> #[trigger] m.nodes[k] != #[trigger] m.nodes[l]
    // Each unit processed has its node.
    &&& forall|i: int| 0 <= i < n && #[trigger] is_first(ids, i) ==> first_of(m.nodes, i) is Some
    // Each edge leads from the parent of a processed unit to that unit.
    &&& forall|e: int|
        0 <= e < m.edges.len() ==> {
            let (a, b) = #[trigger] m.edges[e];
            &&& 0 <= a < m.nodes.len()
            &&& 0 <= b < m.nodes.len()
            &&& m.nodes[b] < n
            &&& parent_of(node_id(ids, m, b)) == Some(node_id(ids, m, a))
        }
    // No unit has two edges to it.
    &&& forall|e: int, f: int|
        0 <= e < f < m.edges.len() ==> (#[trigger] m.edges[e]).1 != (#[trigger] m.edges[f]).1
    // Each processed unit whose parent is in the list has its edge.
    &&& forall|i: int|
        0 <= i < n && #[trigger] is_first(ids, i) && has_parent_in(ids, i) ==> exists|e: int|
            0 <= e < m.edges.len() && m.nodes[(#[trigger] m.edges[e]).1] == i
    // The orphans are the processed units whose parent is not in the list,
    // each once, in the order of the list.
    &&& forall|o: int|
        0 <= o < m.orphans.len() ==> {
            let i = #[trigger] m.orphans[o];
            0 <= i < n && is_first(ids, i) && is_orphan(ids, i)
        }
    &&& forall|o: int, p: int|
        0 <= o < p < m.orphans.len() ==> #[trigger] m.orphans[o] < #[trigger] m.orphans[p]
    &&& forall|i: int|
        0 <= i < n && #[trigger] is_first(ids, i) && is_orphan(ids, i) ==> first_of(
            m.orphans,
            i,
        ) is Some
}

/// What a graph keeps when a unit gets its node.
pub proof fn lemma_with_node(ids: Seq<IdView>, m: GraphModel, u: int)
    requires
        is_first(ids, u),
        forall|k: int| 0 <= k < m.nodes.len() ==> is_first(ids, #[trigger] m.nodes[k]),
        forall|k: int, l: int|
            0 <= k < l < m.nodes.len() ==> #[trigger] m.nodes[k] != #[trigger] m.nodes[l],
    ensures
        forall|k: int|
            0 <= k < with_node(m, u).nodes.len() ==> is_first(
                ids,
                #[trigger] with_node(m, u).nodes[k],
            ),
        forall|k: int, l: int|
            0 <= k < l < with_node(m, u).nodes.len() ==> #[trigger] with_node(m, u).nodes[k]
                != #[trigger] with_node(m, u).nodes[l],
        forall|k: int| 0 <= k < m.nodes.len() ==> with_node(m, u).nodes[k] == m.nodes[k],
        m.nodes.len() <= with_node(m, u).nodes.len() <= m.nodes.len() + 1,
        first_of(with_node(m, u).nodes, u) is Some,
        forall|v: int| first_of(m.nodes, v) is Some ==> first_of(with_node(m, u).nodes, v)
            == first_of(m.nodes, v),
        with_node(m, u).edges == m.edges,
        with_node(m, u).orphans == m.orphans,
{
    let w = with_node(m, u);
    lemma_first_of(m.nodes, u);
    lemma_first_of(w.nodes, u);
    if first_of(m.nodes, u) is None {
        assert(w.nodes[m.nodes.len() as int] == u);
    }
    assert forall|v: int| first_of(m.nodes, v) is Some implies first_of(w.nodes, v) == first_of(
        m.nodes,
        v,
    ) by {
        lemma_first_of(m.nodes, v);
        lemma_first_of(w.nodes, v);
        let j = first_of(m.nodes, v).unwrap();
        assert(w.nodes[j] == v);
        if first_of(w.nodes, v) is Some {
            let j2 = first_of(w.nodes, v).unwrap();
            if j2 < j {
                assert(m.nodes[j2] == w.nodes[j2]);
            }
            if j < j2 {
                assert(w.nodes[j] == v);
            }
        }
    }
}

/// Numbers below `n` of which no two are equal are at most `n`.
pub proof fn lemma_distinct_bound(nodes: Seq<int>, n: int)
    requires
        0 <= n,
        forall|k: int| 0 <= k < nodes.len() ==> 0 <= #[trigger] nodes[k] < n,
        forall|k: int, l: int|
            0 <= k < l < nodes.len() ==> #[trigger] nodes[k] != #[trigger] nodes[l],
    ensures
        nodes.len() <= n,
{
    assert(nodes.no_duplicates()) by {
        assert forall|k: int, l: int|
            0 <= k < nodes.len() && 0 <= l < nodes.len() && k != l implies nodes[k]
            != nodes[l] by {
            if k < l {
                assert(nodes[k] != nodes[l]);
            } else {
                assert(nodes[l] != nodes[k]);
            }
        }
    }
    nodes.unique_seq_to_set();
    lemma_int_range(0, n);
    assert(nodes.to_set().subset_of(set_int_range(0, n))) by {
        assert forall|x: int| nodes.to_set().contains(x) implies set_int_range(0, n).contains(
            x,
        ) by {
            let k = choose|k: int| 0 <= k < nodes.len() && nodes[k] == x;
            assert(0 <= nodes[k] < n);
        }
    }
    lemma_len_subset(nodes.to_set(), set_int_range(0, n));
}

/// Where the first `x` stands after `y` was appended.
pub proof fn lemma_first_of_push<T>(s: Seq<T>, y: T, x: T)
    ensures
        first_of(s.push(y), x) == if first_of(s, x) is Some {
            first_of(s, x)
        } else if x == y {
            Some(s.len() as int)
        } else {
            None
        },
{
    lemma_first_of(s, x);
    lemma_first_of(s.push(y), x);
    let t = s.push(y);
    if first_of(s, x) is Some {
        let j = first_of(s, x).unwrap();
        assert(t[j] == x);
        let j2 = first_of(t, x).unwrap();
        if j2 < j {
            assert(s[j2] == t[j2]);
        }
    } else if x == y {
        assert(t[s.len() as int] == x);
        let j2 = first_of(t, x).unwrap();
        if j2 < s.len() {
            assert(s[j2] == t[j2]);
        }
    } else {
        if first_of(t, x) is Some {
            let j2 = first_of(t, x).unwrap();
            if j2 < s.len() {
                assert(s[j2] == t[j2]);
            }
        }
    }
}

/// Processing one more unit keeps what holds of the graph.
pub proof fn lemma_step(ids: Seq<IdView>, m: GraphModel, i: int)
    requires
        0 <= i < ids.len(),
        built(ids, m, i),
    ensures
        built(ids, step(ids, m, i), i + 1),
{
    let r = step(ids, m, i);
    if !is_first(ids, i) {
        assert(r == m);
        assert(built(ids, r, i + 1));
    } else {
        let m1 = with_node(m, i);
        lemma_with_node(ids, m, i);
        lemma_first_of(m1.nodes, i);
        let me = first_of(m1.nodes, i).unwrap();
        // The edges and orphans of `m` speak of the same nodes in `m1`.
        match parent_of(ids[i]) {
            None => {
                assert(r == m1);
                assert(!has_parent_in(ids, i));
                assert(!is_orphan(ids, i));
                assert forall|j: int|
                    0 <= j < i + 1 && #[trigger] is_first(ids, j) implies first_of(
                    r.nodes,
                    j,
                ) is Some by {
                    if j < i {
                        assert(first_of(m.nodes, j) is Some);
                    }
                }
                assert forall|j: int|
                    0 <= j < i + 1 && #[trigger] is_first(ids, j) && has_parent_in(
                        ids,
                        j,
                    ) implies exists|e: int|
                    0 <= e < r.edges.len() && r.nodes[(#[trigger] r.edges[e]).1] == j by {
                    let e = choose|e: int|
                        0 <= e < m.edges.len() && m.nodes[(#[trigger] m.edges[e]).1] == j;
                    assert(r.nodes[r.edges[e].1] == j);
                }
                assert(built(ids, r, i + 1));
            },
            Some(pid) => {
                lemma_first_of(ids, pid);
                match first_of(ids, pid) {
                    None => {
                        assert(r == GraphModel { orphans: m1.orphans.push(i), ..m1 });
                        assert(is_orphan(ids, i));
                        assert(!has_parent_in(ids, i));
                        assert forall|j: int|
                            0 <= j < i + 1 && #[trigger] is_first(ids, j) implies first_of(
                            r.nodes,
                            j,
                        ) is Some by {
                            if j < i {
                                assert(first_of(m.nodes, j) is Some);
                            }
                        }
                        assert forall|j: int|
                            0 <= j < i + 1 && #[trigger] is_first(ids, j) && has_parent_in(
                                ids,
                                j,
                            ) implies exists|e: int|
                            0 <= e < r.edges.len() && r.nodes[(#[trigger] r.edges[e]).1]
                                == j by {
                            let e = choose|e: int|
                                0 <= e < m.edges.len() && m.nodes[(#[trigger] m.edges[e]).1] == j;
                            assert(r.nodes[r.edges[e].1] == j);
                        }
                        assert forall|o: int| 0 <= o < r.orphans.len() implies {
                            let j = #[trigger] r.orphans[o];
                            0 <= j < i + 1 && is_first(ids, j) && is_orphan(ids, j)
                        } by {
                            if o < m.orphans.len() {
                                assert(r.orphans[o] == m.orphans[o]);
                            }
                        }
                        assert forall|o: int, p: int|
                            0 <= o < p < r.orphans.len() implies #[trigger] r.orphans[o]
                            < #[trigger] r.orphans[p] by {
                            assert(r.orphans[o] == m.orphans[o]);
                            if p < m.orphans.len() {
                                assert(r.orphans[p] == m.orphans[p]);
                            }
                        }
                        assert forall|j: int|
                            0 <= j < i + 1 && #[trigger] is_first(ids, j) && is_orphan(
                                ids,
                                j,
                            ) implies first_of(r.orphans, j) is Some by {
                            lemma_first_of(r.orphans, j);
                            if j < i {
                                lemma_first_of(m.orphans, j);
                                let o = first_of(m.orphans, j).unwrap();
                                assert(r.orphans[o] == j);
                            } else {
                                assert(r.orphans[m.orphans.len() as int] == i);
                            }
                        }
                        assert(built(ids, r, i + 1));
                    },
                    Some(pu) => {
                        assert(is_first(ids, pu));
                        let m2 = with_node(m1, pu);
                        lemma_with_node(ids, m1, pu);
                        lemma_first_of(m2.nodes, pu);
                        lemma_first_of(m2.nodes, i);
                        let a = first_of(m2.nodes, pu).unwrap();
                        let b = first_of(m2.nodes, i).unwrap();
                        assert(b == me);
                        assert(r == GraphModel { edges: m2.edges.push((a, b)), ..m2 });
                        assert(has_parent_in(ids, i));
                        assert(!is_orphan(ids, i));
                        assert forall|j: int|
                            0 <= j < i + 1 && #[trigger] is_first(ids, j) implies first_of(
                            r.nodes,
                            j,
                        ) is Some by {
                            if j < i {
                                assert(first_of(m.nodes, j) is Some);
                                assert(first_of(m1.nodes, j) is Some);
                            }
                        }
                        assert forall|e: int| 0 <= e < r.edges.len() implies {
                            let (x, y) = #[trigger] r.edges[e];
                            &&& 0 <= x < r.nodes.len()
                            &&& 0 <= y < r.nodes.len()
                            &&& r.nodes[y] < i + 1
                            &&& parent_of(node_id(ids, r, y)) == Some(node_id(ids, r, x))
                        } by {
                            if e < m.edges.len() {
                                assert(r.edges[e] == m.edges[e]);
                                let (x, y) = m.edges[e];
                                assert(r.nodes[x] == m.nodes[x]);
                                assert(r.nodes[y] == m.nodes[y]);
                            } else {
                                assert(r.edges[e] == (a, b));
                            }
                        }
                        assert forall|e: int, f: int|
                            0 <= e < f < r.edges.len() implies (#[trigger] r.edges[e]).1 != (
                        #[trigger] r.edges[f]).1 by {
                            assert(r.edges[e] == m.edges[e]);
                            if f < m.edges.len() {
                                assert(r.edges[f] == m.edges[f]);
                            } else {
                                assert(r.edges[f] == (a, b));
                                let y = m.edges[e].1;
                                assert(m.nodes[y] < i);
                                assert(r.nodes[y] == m.nodes[y]);
                                assert(r.nodes[b] == i);
                            }
                        }
                        assert forall|j: int|
                            0 <= j < i + 1 && #[trigger] is_first(ids, j) && has_parent_in(
                                ids,
                                j,
                            ) implies exists|e: int|
                            0 <= e < r.edges.len() && r.nodes[(#[trigger] r.edges[e]).1]
                                == j by {
                            if j < i {
                                let e = choose|e: int|
                                    0 <= e < m.edges.len() && m.nodes[(#[trigger] m.edges[e]).1]
                                        == j;
                                assert(r.edges[e] == m.edges[e]);
                                assert(r.nodes[m.edges[e].1] == m.nodes[m.edges[e].1]);
                                assert(r.nodes[r.edges[e].1] == j);
                            } else {
                                let e = m.edges.len() as int;
                                assert(r.edges[e] == (a, b));
                                assert(r.nodes[r.edges[e].1] == j);
                            }
                        }
                        assert(built(ids, r, i + 1));
                    },
                }
            },
        }
    }
}

/// What holds of the graph after the first `n` units were processed.
pub proof fn lemma_build(ids: Seq<IdView>, n: int)
    requires
        0 <= n <= ids.len(),
    ensures
        built(ids, build(ids, n), n),
    decreases n,
{
    if n > 0 {
        lemma_build(ids, n - 1);
        lemma_step(ids, build(ids, n - 1), n - 1);
    }
}

/// The graph has one node for each identifier of the list: each unit has
/// a node with its identifier, and no two nodes have the same identifier.
pub proof fn lemma_nodes_are_the_ids(ids: Seq<IdView>)
    ensures
        forall|i: int|
            0 <= i < ids.len() ==> exists|k: int|
                0 <= k < graph_of(ids).nodes.len() && node_id(ids, graph_of(ids), k)
                    == #[trigger] ids[i],
        forall|k: int|
            0 <= k < graph_of(ids).nodes.len() ==> 0 <= #[trigger] graph_of(ids).nodes[k]
                < ids.len(),
        forall|k: int, l: int|
            0 <= k < l < graph_of(ids).nodes.len() ==> node_id(ids, graph_of(ids), k) != node_id(
                ids,
                graph_of(ids),
                l,
            ),
{
    let m = graph_of(ids);
    lemma_build(ids, ids.len() as int);
    assert forall|i: int| 0 <= i < ids.len() implies exists|k: int|
        0 <= k < m.nodes.len() && node_id(ids, m, k) == #[trigger] ids[i] by {
        lemma_first_of(ids, ids[i]);
        let u = first_of(ids, ids[i]).unwrap();
        lemma_first_of(ids, ids[u]);
        assert(is_first(ids, u));
        lemma_first_of(m.nodes, u);
        let k = first_of(m.nodes, u).unwrap();
        assert(node_id(ids, m, k) == ids[i]);
    }
    assert forall|k: int, l: int| 0 <= k < l < m.nodes.len() implies node_id(ids, m, k) != node_id(
        ids,
        m,
        l,
    ) by {
        assert(is_first(ids, m.nodes[k]));
        assert(is_first(ids, m.nodes[l]));
        assert(m.nodes[k] != m.nodes[l]);
    }
    assert forall|k: int| 0 <= k < m.nodes.len() implies 0 <= #[trigger] m.nodes[k]
        < ids.len() by {
        assert(is_first(ids, m.nodes[k]));
    }
}

/// An edge leads from one node to another exactly when the identifier of
/// the first is the parent of the identifier of the second, and no edge
/// is there twice.
pub proof fn lemma_edges_are_the_parent_links(ids: Seq<IdView>)
    ensures
        forall|a: int, b: int|
            0 <= a < graph_of(ids).nodes.len() && 0 <= b < graph_of(ids).nodes.len() ==> (
            graph_of(ids).edges.contains((a, b)) <==> parent_of(
                #[trigger] node_id(ids, graph_of(ids), b),
            ) == Some(#[trigger] node_id(ids, graph_of(ids), a))),
        forall|e: int|
            0 <= e < graph_of(ids).edges.len() ==> 0 <= (#[trigger] graph_of(ids).edges[e]).0
                < graph_of(ids).nodes.len() && 0 <= graph_of(ids).edges[e].1 < graph_of(
                ids,
            ).nodes.len(),
        forall|e: int, f: int|
            0 <= e < f < graph_of(ids).edges.len() ==> #[trigger] graph_of(ids).edges[e]
                != #[trigger] graph_of(ids).edges[f],
{
    let m = graph_of(ids);
    lemma_build(ids, ids.len() as int);
    lemma_nodes_are_the_ids(ids);
    assert forall|a: int, b: int| 0 <= a < m.nodes.len() && 0 <= b < m.nodes.len() implies (
    m.edges.contains((a, b)) <==> parent_of(#[trigger] node_id(ids, m, b)) == Some(
        #[trigger] node_id(ids, m, a),
    )) by {
        if m.edges.contains((a, b)) {
            let e = choose|e: int| 0 <= e < m.edges.len() && m.edges[e] == (a, b);
            assert(m.edges[e] == (a, b));
        }
        if parent_of(node_id(ids, m, b)) == Some(node_id(ids, m, a)) {
            let i = m.nodes[b];
            let pid = node_id(ids, m, a);
            assert(is_first(ids, i));
            assert(is_first(ids, m.nodes[a]));
            lemma_first_of(ids, pid);
            assert(has_parent_in(ids, i));
            let e = choose|e: int|
                0 <= e < m.edges.len() && m.nodes[(#[trigger] m.edges[e]).1] == i;
            let (x, y) = m.edges[e];
            assert(y == b) by {
                if y < b {
                    assert(m.nodes[y] != m.nodes[b]);
                }
                if b < y {
                    assert(m.nodes[b] != m.nodes[y]);
                }
            }
            assert(node_id(ids, m, x) == node_id(ids, m, a));
            assert(x == a) by {
                if x < a {
                    assert(node_id(ids, m, x) != node_id(ids, m, a));
                }
                if a < x {
                    assert(node_id(ids, m, a) != node_id(ids, m, x));
                }
            }
            assert(m.edges[e] == (a, b));
        }
    }
    assert forall|e: int, f: int| 0 <= e < f < m.edges.len() implies #[trigger] m.edges[e]
        != #[trigger] m.edges[f] by {
        assert(m.edges[e].1 != m.edges[f].1);
    }
    assert forall|e: int| 0 <= e < m.edges.len() implies 0 <= (#[trigger] m.edges[e]).0
        < m.nodes.len() && 0 <= m.edges[e].1 < m.nodes.len() by {
        let (a, b) = m.edges[e];
    }
}

/// The orphans are the units, each the first with its identifier, that
/// have a parent identifier which no unit of the list has.
pub proof fn lemma_orphans_miss_their_parent(ids: Seq<IdView>)
    ensures
        forall|i: int|
            graph_of(ids).orphans.contains(i) <==> #[trigger] is_first(ids, i) && is_orphan(
                ids,
                i,
            ),
{
    let m = graph_of(ids);
    lemma_build(ids, ids.len() as int);
    assert forall|i: int| m.orphans.contains(i) <==> #[trigger] is_first(ids, i) && is_orphan(
        ids,
        i,
    ) by {
        if m.orphans.contains(i) {
            let o = choose|o: int| 0 <= o < m.orphans.len() && m.orphans[o] == i;
            assert(m.orphans[o] == i);
        }
        if is_first(ids, i) && is_orphan(ids, i) {
            lemma_first_of(m.orphans, i);
        }
    }
}

/// The edges of the graph, each as the pair of the identifiers that it
/// joins, parent first.
pub open spec fn edge_ids(ids: Seq<IdView>) -> Set<(IdView, IdView)> {
    Set::new(
        |p: (IdView, IdView)|
            exists|e: int|
                0 <= e < graph_of(ids).edges.len() && node_id(
                    ids,
                    graph_of(ids),
                    (#[trigger] graph_of(ids).edges[e]).0,
                ) == p.0 && node_id(ids, graph_of(ids), graph_of(ids).edges[e].1) == p.1,
    )
}

/// The pairs of identifiers of a universe of which the first is the parent
/// of the second.
pub open spec fn parent_links(universe: Set<IdView>) -> Set<(IdView, IdView)> {
    Set::new(
        |p: (IdView, IdView)|
            universe.contains(p.0) && universe.contains(p.1) && parent_of(p.1) == Some(p.0),
    )
}

/// The edges of the graph join exactly the identifiers of the list of which
/// one is the parent of the other.
pub proof fn lemma_edge_ids(ids: Seq<IdView>)
    ensures
        edge_ids(ids) == parent_links(ids.to_set()),
{
    let m = graph_of(ids);
    lemma_build(ids, ids.len() as int);
    lemma_nodes_are_the_ids(ids);
    lemma_edges_are_the_parent_links(ids);
    assert forall|p: (IdView, IdView)| edge_ids(ids).contains(p) <==> parent_links(
        ids.to_set(),
    ).contains(p) by {
        if edge_ids(ids).contains(p) {
            let e = choose|e: int|
                0 <= e < m.edges.len() && node_id(ids, m, (#[trigger] m.edges[e]).0) == p.0
                    && node_id(ids, m, m.edges[e].1) == p.1;
            let (a, b) = m.edges[e];
            assert(m.edges.contains((a, b)));
            assert(ids.contains(ids[m.nodes[a]]));
            assert(ids.contains(ids[m.nodes[b]]));
            assert(parent_of(node_id(ids, m, b)) == Some(node_id(ids, m, a)));
        }
        if parent_links(ids.to_set()).contains(p) {
            let i = choose|i: int| 0 <= i < ids.len() && ids[i] == p.0;
            let j = choose|j: int| 0 <= j < ids.len() && ids[j] == p.1;
            let a = choose|k: int| 0 <= k < m.nodes.len() && node_id(ids, m, k) == ids[i];
            let b = choose|k: int| 0 <= k < m.nodes.len() && node_id(ids, m, k) == ids[j];
            assert(parent_of(node_id(ids, m, b)) == Some(node_id(ids, m, a)));
            assert(m.edges.contains((a, b)));
            let e = choose|e: int| 0 <= e < m.edges.len() && m.edges[e] == (a, b);
            assert(node_id(ids, m, m.edges[e].0) == p.0);
        }
    }
    assert(edge_ids(ids) =~= parent_links(ids.to_set()));
}

/// The edges do not depend on the order of the list: two lists that hold
/// the same identifiers, in whatever order, give the same edges between
/// identifiers.
pub proof fn lemma_edges_ignore_order(ids: Seq<IdView>, other: Seq<IdView>)
    requires
        ids.to_set() == other.to_set(),
    ensures
        edge_ids(ids) == edge_ids(other),
{
    lemma_edge_ids(ids);
    lemma_edge_ids(other);
}

/// A reordering of a list holds the same identifiers as the list.
pub proof fn lemma_permutation_has_same_ids(ids: Seq<IdView>, other: Seq<IdView>)
    requires
        ids.to_multiset() == other.to_multiset(),
    ensures
        ids.to_set() == other.to_set(),
{
    assert forall|x: IdView| ids.to_set().contains(x) <==> other.to_set().contains(x) by {
        ids.to_multiset_ensures();
        other.to_multiset_ensures();
        assert(ids.contains(x) <==> ids.to_multiset().count(x) > 0);
        assert(other.contains(x) <==> other.to_multiset().count(x) > 0);
    }
    assert(ids.to_set() =~= other.to_set());
}

/// Whether an edge leads to node `b`.
pub open spec fn has_edge_to(edges: Seq<(int, int)>, b: int) -> bool {
    exists|e: int| 0 <= e < edges.len() && (#[trigger] edges[e]).1 == b
}

/// The nodes below `k` that no edge leads to, in the order of their
/// numbers.
pub open spec fn roots_below(edges: Seq<(int, int)>, k: int) -> Seq<int>
    decreases k,
{
    if k <= 0 {
        Seq::empty()
    } else if has_edge_to(edges, k - 1) {
        roots_below(edges, k - 1)
    } else {
        roots_below(edges, k - 1).push(k - 1)
    }
}

/// The roots of a graph: the nodes that no edge leads to.
pub open spec fn roots_of(m: GraphModel) -> Seq<int> {
    roots_below(m.edges, m.nodes.len() as int)
}

/// The targets of those of the first `n` edges that start at `a`, the
/// latest edge first.
pub open spec fn children_among(edges: Seq<(int, int)>, a: int, n: int) -> Seq<int>
    decreases n,
{
    if n <= 0 || n > edges.len() {
        Seq::empty()
    } else if edges[n - 1].0 == a {
        seq![edges[n - 1].1] + children_among(edges, a, n - 1)
    } else {
        children_among(edges, a, n - 1)
    }
}

/// The children of node `a`: the targets of the edges that start at it, the
/// latest edge first.
pub open spec fn children_of(m: GraphModel, a: int) -> Seq<int> {
    children_among(m.edges, a, m.edges.len() as int)
}

/// Each child of a node is the target of an edge from the node.
pub proof fn lemma_children_among(edges: Seq<(int, int)>, a: int, n: int)
    requires
        0 <= n <= edges.len(),
    ensures
        forall|c: int|
            0 <= c < children_among(edges, a, n).len() ==> edges.contains(
                (a, #[trigger] children_among(edges, a, n)[c]),
            ),
    decreases n,
{
    if n > 0 {
        lemma_children_among(edges, a, n - 1);
        let rest = children_among(edges, a, n - 1);
        if edges[n - 1].0 == a {
            let all = seq![edges[n - 1].1] + rest;
            assert forall|c: int| 0 <= c < all.len() implies edges.contains(
                (a, #[trigger] all[c]),
            ) by {
                if c == 0 {
                    assert(edges[n - 1] == (a, all[0]));
                } else {
                    assert(all[c] == rest[c - 1]);
                }
            }
        }
    }
}

/// Each root is a node.
pub proof fn lemma_roots_below(edges: Seq<(int, int)>, k: int)
    requires
        0 <= k,
    ensures
        forall|r: int|
            0 <= r < roots_below(edges, k).len() ==> 0 <= #[trigger] roots_below(edges, k)[r] < k,
    decreases k,
{
    if k > 0 {
        lemma_roots_below(edges, k - 1);
        let before = roots_below(edges, k - 1);
        let all = roots_below(edges, k);
        assert forall|r: int| 0 <= r < all.len() implies 0 <= #[trigger] all[r] < k by {
            if r < before.len() {
                assert(all[r] == before[r]);
            }
        }
    }
}

/// The children of a node of the graph of a list are nodes, and the
/// identifier of each is one part longer than that of the node.
pub proof fn lemma_children_are_deeper(ids: Seq<IdView>, a: int)
    requires
        0 <= a < graph_of(ids).nodes.len(),
    ensures
        forall|c: int|
            0 <= c < children_of(graph_of(ids), a).len() ==> {
                let child = #[trigger] children_of(graph_of(ids), a)[c];
                &&& 0 <= child < graph_of(ids).nodes.len()
                &&& node_id(ids, graph_of(ids), child).len() == node_id(ids, graph_of(ids), a).len()
                    + 1
            },
{
    let m = graph_of(ids);
    lemma_children_among(m.edges, a, m.edges.len() as int);
    lemma_edges_are_the_parent_links(ids);
    assert forall|c: int| 0 <= c < children_of(m, a).len() implies {
        let child = #[trigger] children_of(m, a)[c];
        &&& 0 <= child < m.nodes.len()
        &&& node_id(ids, m, child).len() == node_id(ids, m, a).len() + 1
    } by {
        let child = children_of(m, a)[c];
        assert(m.edges.contains((a, child)));
        let e = choose|e: int| 0 <= e < m.edges.len() && m.edges[e] == (a, child);
        assert(0 <= m.edges[e].1 < m.nodes.len());
        assert(parent_of(node_id(ids, m, child)) == Some(node_id(ids, m, a)));
    }
}

/// The length of the longest of the first `n` identifiers.
pub open spec fn longest(ids: Seq<IdView>, n: int) -> nat
    decreases n,
{
    if n <= 0 || n > ids.len() {
        0
    } else if ids[n - 1].len() > longest(ids, n - 1) {
        ids[n - 1].len()
    } else {
        longest(ids, n - 1)
    }
}

pub proof fn lemma_longest(ids: Seq<IdView>, n: int)
    requires
        0 <= n <= ids.len(),
    ensures
        forall|i: int| 0 <= i < n ==> (#[trigger] ids[i]).len() <= longest(ids, n),
    decreases n,
{
    if n > 0 {
        lemma_longest(ids, n - 1);
    }
}

/// A node is among the roots below `k` exactly when it is below `k` and
/// no edge leads to it.
pub proof fn lemma_roots_below_are_the_roots(edges: Seq<(int, int)>, k: int, node: int)
    requires
        0 <= k,
    ensures
        roots_below(edges, k).contains(node) <==> 0 <= node < k && !has_edge_to(edges, node),
    decreases k,
{
    if k > 0 {
        lemma_roots_below_are_the_roots(edges, k - 1, node);
        let before = roots_below(edges, k - 1);
        let all = roots_below(edges, k);
        if has_edge_to(edges, k - 1) {
        } else {
            assert(all == before.push(k - 1));
            if before.contains(node) {
                let i = choose|i: int| 0 <= i < before.len() && before[i] == node;
                assert(all[i] == node);
            }
            if node == k - 1 {
                assert(all[before.len() as int] == node);
            }
            if all.contains(node) {
                let i = choose|i: int| 0 <= i < all.len() && all[i] == node;
                if i < before.len() {
                    assert(before[i] == node);
                }
            }
        }
    }
}

/// The roots of the graph of a list are the nodes of the units that have
/// no parent in the list: those whose identifier has a single part, and
/// those whose parent identifier no unit of the list has.
pub proof fn lemma_roots_have_no_parent(ids: Seq<IdView>, node: int)
    requires
        0 <= node < graph_of(ids).nodes.len(),
    ensures
        roots_of(graph_of(ids)).contains(node) <==> !has_parent_in(ids, graph_of(ids).nodes[node]),
{
    let m = graph_of(ids);
    lemma_build(ids, ids.len() as int);
    lemma_nodes_are_the_ids(ids);
    lemma_roots_below_are_the_roots(m.edges, m.nodes.len() as int, node);
    let unit = m.nodes[node];
    assert(is_first(ids, unit));
    if has_edge_to(m.edges, node) {
        let e = choose|e: int| 0 <= e < m.edges.len() && (#[trigger] m.edges[e]).1 == node;
        let (a, b) = m.edges[e];
        assert(parent_of(node_id(ids, m, b)) == Some(node_id(ids, m, a)));
        lemma_first_of(ids, node_id(ids, m, a));
        assert(ids[m.nodes[a]] == node_id(ids, m, a));
    }
    if has_parent_in(ids, unit) {
        let e = choose|e: int| 0 <= e < m.edges.len() && m.nodes[(#[trigger] m.edges[e]).1] == unit;
        let b = m.edges[e].1;
        let (x, y) = m.edges[e];
        assert(0 <= b < m.nodes.len());
        assert(b == node) by {
            if b < node {
                assert(m.nodes[b] != m.nodes[node]);
            }
            if node < b {
                assert(m.nodes[node] != m.nodes[b]);
            }
        }
    }
}

} // verus!

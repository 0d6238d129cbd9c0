//! The graph of logical units: a node for each unit, an edge from each
//! parent to each of its children.
//!
//! The graph is held in a `petgraph` stable graph whose nodes carry the
//! index of their unit in the list that the graph was built from. What the
//! graph holds is stated by [`crate::hierarchy`].

use vstd::prelude::*;
use petgraph::dot::{Config, Dot};
use petgraph::stable_graph::{NodeIndex, StableGraph};
use petgraph::{Directed, Direction};
use crate::decimal::decimal;
use crate::hierarchy::{
    build, children_among, children_of, first_of, graph_of, is_first, lemma_build,
    lemma_distinct_bound, lemma_first_of, lemma_first_of_push, lemma_nodes_are_the_ids,
    lemma_roots_below, lemma_with_node, roots_below, roots_of, step, with_node, GraphModel,
    IdView,
};
use crate::logical_unit::{flatten, flattened, Id, LogicalUnit};

verus! {

/// `petgraph::stable_graph::StableGraph`, held as it is: what is inside a
/// graph is seen only through [`graph_nodes`] and [`graph_edges`].
#[verifier::external_type_specification]
#[verifier::external_body]
#[verifier::reject_recursive_types(N)]
#[verifier::reject_recursive_types(E)]
#[verifier::reject_recursive_types(Ty)]
#[verifier::reject_recursive_types(Ix)]
pub struct ExStableGraph<N, E, Ty, Ix>(StableGraph<N, E, Ty, Ix>);

/// `petgraph::Directed`, the marker of graphs with directed edges.
#[verifier::external_type_specification]
#[verifier::external_body]
pub struct ExDirected(Directed);

/// The weights of the nodes of a graph from which nothing was removed, by
/// node index.
pub uninterp spec fn graph_nodes(g: StableGraph<usize, (), Directed, u32>) -> Seq<usize>;

/// The edges of a graph from which nothing was removed, by edge index: each
/// the node indices of its source and its target.
pub uninterp spec fn graph_edges(g: StableGraph<usize, (), Directed, u32>) -> Seq<(usize, usize)>;

/// `StableGraph::new` makes a graph without nodes or edges.
#[verifier::external_body]
fn new_graph() -> (g: StableGraph<usize, (), Directed, u32>)
    ensures
        graph_nodes(g).len() == 0,
        graph_edges(g).len() == 0,
{
    StableGraph::new()
}

/// `StableGraph::add_node` on a graph from which nothing was removed gives
/// the new node the next index, and panics only where that index is the
/// largest of the index type.
#[verifier::external_body]
fn add_node(g: &mut StableGraph<usize, (), Directed, u32>, weight: usize) -> (k: usize)
    requires
        graph_nodes(*old(g)).len() < u32::MAX,
    ensures
        graph_nodes(*final(g)) == graph_nodes(*old(g)).push(weight),
        graph_edges(*final(g)) == graph_edges(*old(g)),
        k == graph_nodes(*old(g)).len(),
{
    g.add_node(weight).index()
}

/// `StableGraph::add_edge` on a graph from which nothing was removed gives
/// the new edge the next index, and panics only where one of the nodes does
/// not exist or that index is the largest of the index type.
#[verifier::external_body]
fn add_edge(g: &mut StableGraph<usize, (), Directed, u32>, a: usize, b: usize)
    requires
        a < graph_nodes(*old(g)).len(),
        b < graph_nodes(*old(g)).len(),
        graph_nodes(*old(g)).len() <= u32::MAX,
        graph_edges(*old(g)).len() < u32::MAX,
    ensures
        graph_nodes(*final(g)) == graph_nodes(*old(g)),
        graph_edges(*final(g)) == graph_edges(*old(g)).push((a, b)),
{
    g.add_edge(NodeIndex::new(a), NodeIndex::new(b), ());
}

/// `StableGraph::node_count` is the number of nodes.
#[verifier::external_body]
fn node_count(g: &StableGraph<usize, (), Directed, u32>) -> (n: usize)
    ensures
        n == graph_nodes(*g).len(),
{
    g.node_count()
}

/// `StableGraph::edge_count` is the number of edges.
#[verifier::external_body]
fn edge_count(g: &StableGraph<usize, (), Directed, u32>) -> (n: usize)
    ensures
        n == graph_edges(*g).len(),
{
    g.edge_count()
}

/// `StableGraph::node_weight` gives the weight of the node at an index of
/// the graph.
#[verifier::external_body]
fn node_weight(g: &StableGraph<usize, (), Directed, u32>, k: usize) -> (w: usize)
    requires
        k < graph_nodes(*g).len(),
    ensures
        w == graph_nodes(*g)[k as int],
{
    g[NodeIndex::new(k)]
}

/// `StableGraph::externals`, asked for the incoming direction, walks the
/// nodes in the order of their indices and gives those that no edge leads
/// to.
#[verifier::external_body]
fn nodes_without_incoming(g: &StableGraph<usize, (), Directed, u32>) -> (r: Vec<usize>)
    ensures
        node_units(r@) == roots_below(node_pairs(graph_edges(*g)), graph_nodes(*g).len() as int),
{
    g.externals(Direction::Incoming).map(|k| k.index()).collect()
}

/// `StableGraph::neighbors_directed`, asked for the outgoing direction,
/// walks the edges that start at a node from the latest to the earliest and
/// gives the target of each.
#[verifier::external_body]
fn outgoing_neighbors(g: &StableGraph<usize, (), Directed, u32>, a: usize) -> (r: Vec<usize>)
    requires
        a < graph_nodes(*g).len(),
    ensures
        node_units(r@) == children_among(
            node_pairs(graph_edges(*g)),
            a as int,
            graph_edges(*g).len() as int,
        ),
{
    g.neighbors_directed(NodeIndex::new(a), Direction::Outgoing).map(|k| k.index()).collect()
}

/// The text that `{:?}` gives for a string: the string between double
/// quotes, with the characters escaped that Rust escapes there.
pub uninterp spec fn debug_text(s: Seq<char>) -> Seq<char>;

/// `format!` with `{:?}` on a string.
#[verifier::external_body]
fn debug_quoted(s: &str) -> (r: String)
    ensures
        r@ == debug_text(s@),
{
    format!("{:?}", s)
}

/// The line of node `k` in DOT: its number and its attributes.
pub open spec fn dot_node_line(k: int, attributes: Seq<char>) -> Seq<char> {
    "    "@ + decimal(k as nat) + " [ "@ + attributes + "]\n"@
}

/// The line of an edge in DOT: the numbers of its two nodes.
pub open spec fn dot_edge_line(edge: (int, int)) -> Seq<char> {
    "    "@ + decimal(edge.0 as nat) + " -> "@ + decimal(edge.1 as nat) + " [ ]\n"@
}

/// The lines of the first `n` nodes.
pub open spec fn dot_node_lines(attributes: Seq<Seq<char>>, n: int) -> Seq<char>
    decreases n,
{
    if n <= 0 || n > attributes.len() {
        Seq::empty()
    } else {
        dot_node_lines(attributes, n - 1) + dot_node_line(n - 1, attributes[n - 1])
    }
}

/// The lines of the first `n` edges.
pub open spec fn dot_edge_lines(edges: Seq<(int, int)>, n: int) -> Seq<char>
    decreases n,
{
    if n <= 0 || n > edges.len() {
        Seq::empty()
    } else {
        dot_edge_lines(edges, n - 1) + dot_edge_line(edges[n - 1])
    }
}

/// A directed graph in DOT: a line for each node, by number, with the
/// attributes given for it, then a line for each edge, in the order in
/// which the edges were made.
pub open spec fn dot_text(attributes: Seq<Seq<char>>, edges: Seq<(int, int)>) -> Seq<char> {
    "digraph {\n"@ + dot_node_lines(attributes, attributes.len() as int) + dot_edge_lines(
        edges,
        edges.len() as int,
    ) + "}\n"@
}

/// The attributes of each node of a graph, where `by_weight` holds the
/// attributes for each weight.
pub open spec fn attributes_by_node(nodes: Seq<usize>, by_weight: Seq<String>) -> Seq<Seq<char>> {
    Seq::new(nodes.len(), |k: int| by_weight[nodes[k] as int]@)
}

/// `Dot::with_attr_getters`, configured to write no labels of its own, and
/// printed with `{:?}`, writes `digraph {`, a line for each node with the
/// attributes that the getter gives for it, a line for each edge, and `}`.
#[verifier::external_body]
fn render_dot(g: &StableGraph<usize, (), Directed, u32>, by_weight: &Vec<String>) -> (r: String)
    requires
        forall|k: int| 0 <= k < graph_nodes(*g).len() ==> #[trigger] graph_nodes(*g)[k] < by_weight.len(),
    ensures
        r@ == dot_text(
            attributes_by_node(graph_nodes(*g), by_weight@),
            node_pairs(graph_edges(*g)),
        ),
{
    format!(
        "{:?}",
        Dot::with_attr_getters(
            g,
            &[Config::NodeNoLabel, Config::EdgeNoLabel],
            &|_, _| String::new(),
            &|_, (_, weight)| by_weight[*weight].clone(),
        )
    )
}

/// The identifiers of a list of units.
pub open spec fn unit_ids(units: Seq<LogicalUnit>) -> Seq<IdView> {
    Seq::new(units.len(), |i: int| units[i].id@)
}

/// The index of the first unit of the list with the identifier `id`.
pub fn first_unit_with(units: &Vec<LogicalUnit>, id: &Id) -> (r: Option<usize>)
    ensures
        match r {
            Some(i) => first_of(unit_ids(units@), id@) == Some(i as int),
            None => first_of(unit_ids(units@), id@) is None,
        },
{
    let ghost ids = unit_ids(units@);
    let mut i: usize = 0;
    proof {
        lemma_first_of(ids, id@);
    }
    while i < units.len()
        invariant
            ids == unit_ids(units@),
            i <= units.len(),
            forall|k: int| 0 <= k < i ==> #[trigger] ids[k] != id@,
        decreases units.len() - i,
    {
        if units[i].id.same_as(id) {
            proof {
                lemma_first_of(ids, id@);
                assert(ids[i as int] == id@);
            }
            return Some(i);
        }
        i += 1;
    }
    proof {
        lemma_first_of(ids, id@);
    }
    None
}

/// The node weights of a graph, as unit indices of the model.
pub open spec fn node_units(nodes: Seq<usize>) -> Seq<int> {
    Seq::new(nodes.len(), |k: int| nodes[k] as int)
}

/// The edges of a graph, as edges of the model.
pub open spec fn node_pairs(edges: Seq<(usize, usize)>) -> Seq<(int, int)> {
    Seq::new(edges.len(), |e: int| (edges[e].0 as int, edges[e].1 as int))
}

/// The graph that a stable graph and a list of orphans stand for.
pub open spec fn model_of(
    nodes: Seq<usize>,
    edges: Seq<(usize, usize)>,
    orphans: Seq<usize>,
) -> GraphModel {
    GraphModel {
        nodes: node_units(nodes),
        edges: node_pairs(edges),
        orphans: node_units(orphans),
    }
}

/// Whether `handles` holds for each unit the index of its node, or nothing
/// where the unit has no node.
pub open spec fn handles_match(handles: Seq<Option<usize>>, nodes: Seq<usize>) -> bool {
    forall|u: int|
        0 <= u < handles.len() ==> match #[trigger] handles[u] {
            Some(k) => first_of(node_units(nodes), u) == Some(k as int),
            None => first_of(node_units(nodes), u) is None,
        }
}

/// Gives unit `u` its node, unless it has one, and returns the index of the
/// node.
fn ensure_node(
    graph: &mut StableGraph<usize, (), Directed, u32>,
    handles: &mut Vec<Option<usize>>,
    u: usize,
) -> (k: usize)
    requires
        u < old(handles).len(),
        handles_match(old(handles)@, graph_nodes(*old(graph))),
        graph_nodes(*old(graph)).len() < u32::MAX,
    ensures
        final(handles).len() == old(handles).len(),
        handles_match(final(handles)@, graph_nodes(*final(graph))),
        graph_edges(*final(graph)) == graph_edges(*old(graph)),
        node_units(graph_nodes(*final(graph))) == if first_of(
            node_units(graph_nodes(*old(graph))),
            u as int,
        ) is Some {
            node_units(graph_nodes(*old(graph)))
        } else {
            node_units(graph_nodes(*old(graph))).push(u as int)
        },
        first_of(node_units(graph_nodes(*final(graph))), u as int) == Some(k as int),
        k < graph_nodes(*final(graph)).len(),
{
    let ghost before = node_units(graph_nodes(*graph));
    match handles[u] {
        Some(k) => {
            proof {
                lemma_first_of(before, u as int);
            }
            k
        },
        None => {
            let k = add_node(graph, u);
            handles[u] = Some(k);
            proof {
                let after = node_units(graph_nodes(*graph));
                assert(after =~= before.push(u as int));
                assert forall|v: int| 0 <= v < handles@.len() implies match #[trigger] handles@[v] {
                    Some(j) => first_of(after, v) == Some(j as int),
                    None => first_of(after, v) is None,
                } by {
                    lemma_first_of_push(before, u as int, v);
                    if v != u {
                        assert(handles@[v] == old(handles)@[v]);
                    }
                }
                lemma_first_of_push(before, u as int, u as int);
            }
            k
        },
    }
}

/// A graph of logical units over the list it was built from.
pub struct UnitGraph<'a> {
    units: &'a Vec<LogicalUnit>,
    graph: StableGraph<usize, (), Directed, u32>,
    orphans: Vec<usize>,
}

impl<'a> View for UnitGraph<'a> {
    type V = GraphModel;

    closed spec fn view(&self) -> GraphModel {
        model_of(graph_nodes(self.graph), graph_edges(self.graph), self.orphans@)
    }
}

impl<'a> UnitGraph<'a> {
    /// The list of units that the graph was built from.
    pub closed spec fn units(&self) -> Seq<LogicalUnit> {
        self.units@
    }

    /// Whether the graph is the graph of its list of units. Every graph
    /// is.
    #[verifier::type_invariant]
    pub open spec fn wf(&self) -> bool {
        self@ == graph_of(unit_ids(self.units()))
    }
}

/// Builds the graph of a list of units from their identifiers alone.
///
/// Each identifier of the list gets one node, whether its unit is met in
/// the list or is first needed as the parent of another. Each unit whose
/// parent is in the list gets an edge from the parent. A unit whose parent
/// is not in the list is recorded as an orphan and stays a root: missing
/// parents never fail the build. Of units that share an identifier only the
/// first is taken.
pub fn of_units<'a>(units: &'a Vec<LogicalUnit>) -> (g: UnitGraph<'a>)
    requires
        units.len() < u32::MAX,
    ensures
        g.units() == units@,
        g@ == graph_of(unit_ids(units@)),
        g.wf(),
{
    let n = units.len();
    let ghost ids = unit_ids(units@);
    let mut graph = new_graph();
    let mut orphans: Vec<usize> = Vec::new();
    let mut handles: Vec<Option<usize>> = Vec::new();
    let mut j: usize = 0;
    while j < n
        invariant
            j <= n,
            handles.len() == j,
            forall|u: int| 0 <= u < j ==> #[trigger] handles@[u] is None,
        decreases n - j,
    {
        handles.push(None);
        j += 1;
    }
    proof {
        assert(node_units(graph_nodes(graph)) =~= Seq::<int>::empty());
        assert forall|u: int| 0 <= u < handles@.len() implies match #[trigger] handles@[u] {
            Some(k) => first_of(node_units(graph_nodes(graph)), u) == Some(k as int),
            None => first_of(node_units(graph_nodes(graph)), u) is None,
        } by {
            lemma_first_of(node_units(graph_nodes(graph)), u);
        }
        assert(model_of(graph_nodes(graph), graph_edges(graph), orphans@).nodes =~= build(
            ids,
            0,
        ).nodes);
        assert(model_of(graph_nodes(graph), graph_edges(graph), orphans@).edges =~= build(
            ids,
            0,
        ).edges);
        assert(model_of(graph_nodes(graph), graph_edges(graph), orphans@).orphans =~= build(
            ids,
            0,
        ).orphans);
    }
    let mut i: usize = 0;
    while i < n
        invariant
            ids == unit_ids(units@),
            n == units.len(),
            n < u32::MAX,
            i <= n,
            handles.len() == n,
            model_of(graph_nodes(graph), graph_edges(graph), orphans@) == build(ids, i as int),
            handles_match(handles@, graph_nodes(graph)),
            graph_edges(graph).len() <= i,
        decreases n - i,
    {
        let ghost m = build(ids, i as int);
        proof {
            lemma_build(ids, i as int);
            assert(ids[i as int] == units@[i as int].id@);
        }
        let is_first_with_id = match first_unit_with(units, &units[i].id) {
            Some(c) => c == i,
            None => false,
        };
        assert(is_first_with_id == is_first(ids, i as int));
        if is_first_with_id {
            proof {
                lemma_distinct_bound(m.nodes, n as int);
            }
            let me = ensure_node(&mut graph, &mut handles, i);
            let ghost m1 = with_node(m, i as int);
            proof {
                lemma_with_node(ids, m, i as int);
                assert(node_units(graph_nodes(graph)) == m1.nodes);
                lemma_distinct_bound(m1.nodes, n as int);
            }
            match units[i].id.parent() {
                None => {
                    proof {
                        let now = model_of(graph_nodes(graph), graph_edges(graph), orphans@);
                        assert(now.nodes == m1.nodes);
                        assert(now.edges == m1.edges);
                        assert(now.orphans == m1.orphans);
                        assert(now == step(ids, m, i as int));
                    }
                },
                Some(pid) => {
                    match first_unit_with(units, &pid) {
                        None => {
                            orphans.push(i);
                            proof {
                                let now = model_of(
                                    graph_nodes(graph),
                                    graph_edges(graph),
                                    orphans@,
                                );
                                assert(now.orphans =~= m1.orphans.push(i as int));
                                assert(now.nodes == m1.nodes);
                                assert(now.edges == m1.edges);
                                assert(now == step(ids, m, i as int));
                            }
                        },
                        Some(pu) => {
                            proof {
                                lemma_first_of(ids, pid@);
                                lemma_first_of(ids, ids[pu as int]);
                                assert(is_first(ids, pu as int));
                            }
                            let ph = ensure_node(&mut graph, &mut handles, pu);
                            let ghost m2 = with_node(m1, pu as int);
                            proof {
                                lemma_with_node(ids, m1, pu as int);
                                assert(node_units(graph_nodes(graph)) == m2.nodes);
                                lemma_distinct_bound(m2.nodes, n as int);
                                assert(first_of(m2.nodes, i as int) == Some(me as int));
                            }
                            let ghost edges_before = node_pairs(graph_edges(graph));
                            add_edge(&mut graph, ph, me);
                            proof {
                                let now = model_of(
                                    graph_nodes(graph),
                                    graph_edges(graph),
                                    orphans@,
                                );
                                assert(now.edges =~= edges_before.push((ph as int, me as int)));
                                assert(now.nodes == m2.nodes);
                                assert(now.orphans == m2.orphans);
                                assert(now == step(ids, m, i as int));
                            }
                        },
                    }
                },
            }
        }
        i += 1;
    }
    UnitGraph { units, graph, orphans }
}

impl<'a> UnitGraph<'a> {
    /// The number of nodes.
    pub fn node_count(&self) -> (n: usize)
        ensures
            n == self@.nodes.len(),
    {
        node_count(&self.graph)
    }

    /// The number of edges.
    pub fn edge_count(&self) -> (n: usize)
        ensures
            n == self@.edges.len(),
    {
        edge_count(&self.graph)
    }

    /// The unit of a node.
    pub fn unit(&self, node: usize) -> (u: &LogicalUnit)
        requires
            node < self@.nodes.len(),
        ensures
            self.wf(),
            0 <= self@.nodes[node as int] < self.units().len(),
            *u == self.units()[self@.nodes[node as int]],
    {
        proof {
            use_type_invariant(self);
            lemma_nodes_are_the_ids(unit_ids(self.units@));
        }
        let w = node_weight(&self.graph, node);
        assert(self@.nodes[node as int] == w);
        &self.units[w]
    }

    /// The units whose parent is not in the list, by their index in the
    /// list.
    pub fn orphans(&self) -> (r: Vec<usize>)
        ensures
            node_units(r@) == self@.orphans,
    {
        self.orphans.clone()
    }

    /// The roots: the nodes that no edge leads to, in the order of their
    /// numbers.
    pub fn roots(&self) -> (r: Vec<usize>)
        ensures
            self.wf(),
            node_units(r@) == roots_of(self@),
            forall|k: int| 0 <= k < r@.len() ==> #[trigger] r@[k] < self@.nodes.len(),
    {
        let r = nodes_without_incoming(&self.graph);
        proof {
            use_type_invariant(self);
            lemma_roots_below(self@.edges, self@.nodes.len() as int);
            assert forall|k: int| 0 <= k < r@.len() implies #[trigger] r@[k]
                < self@.nodes.len() by {
                assert(node_units(r@)[k] == r@[k]);
            }
        }
        r
    }

    /// The children of a node, latest edge first.
    pub fn children(&self, node: usize) -> (r: Vec<usize>)
        requires
            node < self@.nodes.len(),
        ensures
            node_units(r@) == children_of(self@, node as int),
    {
        outgoing_neighbors(&self.graph, node)
    }
}

/// The attributes of the node of a unit in DOT: its identifier as the
/// label, its content on one line as the tooltip, and a link to the
/// fragment of the unit under `base_url`.
pub open spec fn node_attributes_text(base_url: Seq<char>, unit: LogicalUnit) -> Seq<char> {
    "label=\""@ + unit.id.text() + "\" tooltip="@ + debug_text(flattened(unit.content@))
        + " href=\""@ + base_url + "#"@ + unit.id.text() + "\" "@
}

/// The attributes of the node of a unit in DOT.
pub fn node_attributes(base_url: &str, unit: &LogicalUnit) -> (r: String)
    ensures
        r@ == node_attributes_text(base_url@, *unit),
{
    let id = unit.id.to_string();
    let content = flatten(unit.content.as_str());
    let mut r = "label=\"".to_owned();
    r.push_str(id.as_str());
    r.push_str("\" tooltip=");
    r.push_str(debug_quoted(content.as_str()).as_str());
    r.push_str(" href=\"");
    r.push_str(base_url);
    r.push_str("#");
    r.push_str(id.as_str());
    r.push_str("\" ");
    r
}

/// The attributes of each node of a graph of units.
pub open spec fn node_attribute_texts(
    base_url: Seq<char>,
    units: Seq<LogicalUnit>,
    nodes: Seq<int>,
) -> Seq<Seq<char>> {
    Seq::new(nodes.len(), |k: int| node_attributes_text(base_url, units[nodes[k]]))
}

/// The graph in DOT. Each node is labelled with the identifier of its
/// unit, has the content of the unit as its tooltip and links to
/// `base_url#id`; the edges lead from parent to child and have no label.
pub fn as_dot(base_url: &str, graph: &UnitGraph) -> (r: String)
    ensures
        graph.wf(),
        r@ == dot_text(
            node_attribute_texts(base_url@, graph.units(), graph@.nodes),
            graph@.edges,
        ),
{
    let mut by_unit: Vec<String> = Vec::new();
    let mut i: usize = 0;
    while i < graph.units.len()
        invariant
            i <= graph.units.len(),
            by_unit.len() == i,
            forall|u: int|
                0 <= u < i ==> (#[trigger] by_unit@[u])@ == node_attributes_text(
                    base_url@,
                    graph.units@[u],
                ),
        decreases graph.units.len() - i,
    {
        by_unit.push(node_attributes(base_url, &graph.units[i]));
        i += 1;
    }
    proof {
        use_type_invariant(graph);
        lemma_nodes_are_the_ids(unit_ids(graph.units@));
        assert forall|k: int| 0 <= k < graph_nodes(graph.graph).len() implies #[trigger] graph_nodes(
            graph.graph,
        )[k] < by_unit.len() by {
            assert(graph@.nodes[k] == graph_nodes(graph.graph)[k]);
        }
        assert(attributes_by_node(graph_nodes(graph.graph), by_unit@) =~= node_attribute_texts(
            base_url@,
            graph.units(),
            graph@.nodes,
        )) by {
            assert forall|k: int| 0 <= k < graph_nodes(graph.graph).len() implies attributes_by_node(
                graph_nodes(graph.graph),
                by_unit@,
            )[k] == node_attribute_texts(base_url@, graph.units(), graph@.nodes)[k] by {
                assert(graph@.nodes[k] == graph_nodes(graph.graph)[k]);
            }
        }
    }
    render_dot(&graph.graph, &by_unit)
}

} // verus!

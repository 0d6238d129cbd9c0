use tracer::graph::{as_dot, of_units};
use tracer::logical_unit::{Kind, LogicalUnit};

fn unit(id: &str, content: &str) -> LogicalUnit {
    LogicalUnit::new(None, None, None, Kind::Requirement, id, content).unwrap()
}

fn test_units() -> Vec<LogicalUnit> {
    vec![
        unit("FOO.1", "Foo content"),
        unit("FOO.1::BAR.1", "Bar content"),
        unit("FOO.1::BAR.1::BAZ.1", "Baz content"),
        unit("FOO.1::BING.1", "Bing content"),
        unit("FIZ.1", "Fiz content"),
    ]
}

#[test]
fn can_construct_graph_of_units() {
    let expected = r#"digraph {
    0 [ label="FOO.1" tooltip="Foo content" href="just/a/test#FOO.1" ]
    1 [ label="FOO.1::BAR.1" tooltip="Bar content" href="just/a/test#FOO.1::BAR.1" ]
    2 [ label="FOO.1::BAR.1::BAZ.1" tooltip="Baz content" href="just/a/test#FOO.1::BAR.1::BAZ.1" ]
    3 [ label="FOO.1::BING.1" tooltip="Bing content" href="just/a/test#FOO.1::BING.1" ]
    4 [ label="FIZ.1" tooltip="Fiz content" href="just/a/test#FIZ.1" ]
    0 -> 1 [ ]
    1 -> 2 [ ]
    0 -> 3 [ ]
}
"#;
    let units = test_units();
    let graph = of_units(&units);
    let actual = as_dot("just/a/test", &graph);
    println!("Expected:\n{}", expected);
    println!("Actual: \n{}", actual);
    assert_eq!(expected, actual);
}

fn edges_by_id(units: &Vec<LogicalUnit>) -> Vec<(String, String)> {
    let graph = of_units(units);
    let mut edges = Vec::new();
    for node in 0..graph.node_count() {
        for child in graph.children(node) {
            edges.push((graph.unit(node).id.to_string(), graph.unit(child).id.to_string()));
        }
    }
    edges.sort();
    edges
}

#[test]
fn parents_are_inferred_from_ids() {
    let units = test_units();
    let graph = of_units(&units);
    assert_eq!(graph.node_count(), 5);
    assert_eq!(graph.edge_count(), 3);
    assert!(graph.orphans().is_empty());
    assert_eq!(
        edges_by_id(&units),
        vec![
            ("FOO.1".to_string(), "FOO.1::BAR.1".to_string()),
            ("FOO.1".to_string(), "FOO.1::BING.1".to_string()),
            ("FOO.1::BAR.1".to_string(), "FOO.1::BAR.1::BAZ.1".to_string()),
        ]
    );
    let roots: Vec<String> = graph.roots().iter().map(|r| graph.unit(*r).id.to_string()).collect();
    assert_eq!(roots, vec!["FOO.1".to_string(), "FIZ.1".to_string()]);
    let fiz = graph.roots()[1];
    assert!(graph.children(fiz).is_empty());
    // The children of a node come latest edge first.
    let children: Vec<String> =
        graph.children(0).iter().map(|c| graph.unit(*c).id.to_string()).collect();
    assert_eq!(children, vec!["FOO.1::BING.1".to_string(), "FOO.1::BAR.1".to_string()]);
}

#[test]
fn orphan_is_a_root_with_a_warning() {
    let units = vec![unit("FOO.1::BAR.1", "Bar content")];
    let graph = of_units(&units);
    assert_eq!(graph.node_count(), 1);
    assert_eq!(graph.edge_count(), 0);
    assert_eq!(graph.orphans(), vec![0]);
    assert_eq!(graph.roots(), vec![0]);
}

#[test]
fn edges_do_not_depend_on_the_order_of_the_units() {
    let units = test_units();
    let expected = edges_by_id(&units);
    let orders: [[usize; 5]; 4] =
        [[4, 3, 2, 1, 0], [2, 1, 0, 4, 3], [1, 3, 0, 2, 4], [3, 2, 4, 0, 1]];
    for order in orders {
        let permuted: Vec<LogicalUnit> = order.iter().map(|i| units[*i].clone()).collect();
        let graph = of_units(&permuted);
        assert_eq!(graph.node_count(), 5);
        assert_eq!(graph.edge_count(), 3);
        assert_eq!(edges_by_id(&permuted), expected);
    }
}

#[test]
fn a_child_met_first_materialises_its_parent() {
    let units = vec![unit("FOO.1::BAR.1", "child"), unit("FOO.1", "parent")];
    let graph = of_units(&units);
    // The child gets node 0 and its parent node 1.
    assert_eq!(graph.unit(0).id.to_string(), "FOO.1::BAR.1");
    assert_eq!(graph.unit(1).id.to_string(), "FOO.1");
    assert_eq!(graph.children(1), vec![0]);
    assert_eq!(graph.roots(), vec![1]);
    assert_eq!(
        as_dot("", &graph),
        "digraph {\n    0 [ label=\"FOO.1::BAR.1\" tooltip=\"child\" href=\"#FOO.1::BAR.1\" ]\n    1 [ label=\"FOO.1\" tooltip=\"parent\" href=\"#FOO.1\" ]\n    1 -> 0 [ ]\n}\n"
    );
}

#[test]
fn units_that_share_an_id_share_a_node() {
    let units = vec![unit("FOO.1", "first"), unit("FOO.1::BAR.1", "child"), unit("FOO.1", "second")];
    let graph = of_units(&units);
    assert_eq!(graph.node_count(), 2);
    assert_eq!(graph.edge_count(), 1);
    assert_eq!(graph.unit(0).content, "first");
}

#[test]
fn tooltip_is_the_content_on_one_line_quoted() {
    let units = vec![unit("FOO.1", "say \"hi\"\nnow")];
    let graph = of_units(&units);
    assert_eq!(
        as_dot("base", &graph),
        "digraph {\n    0 [ label=\"FOO.1\" tooltip=\"say \\\"hi\\\" now\" href=\"base#FOO.1\" ]\n}\n"
    );
}

#[test]
fn empty_universe_gives_an_empty_graph() {
    let units = Vec::new();
    let graph = of_units(&units);
    assert_eq!(graph.node_count(), 0);
    assert_eq!(as_dot("x", &graph), "digraph {\n}\n");
}

use yaak_grpc::topology::SimpleTopoSort;

#[test]
fn test_sort() {
    {
        let mut topo_sort = SimpleTopoSort::new();
        topo_sort.insert("a", vec![]);

        let mut iter = topo_sort.into_iter();
        while let Some(node) = iter.next() {
            match node {
                Ok(n) => assert_eq!(n, "a"),
                Err(e) => panic!("err {}", e),
            }
        }
    }

    {
        let mut topo_sort = SimpleTopoSort::new();
        topo_sort.insert("a", vec!["b"]);
        topo_sort.insert("b", vec![]);

        let mut iter = topo_sort.into_iter();
        match iter.next() {
            Some(Ok(n)) => assert_eq!(n, "b"),
            _ => panic!("err"),
        }
        match iter.next() {
            Some(Ok(n)) => assert_eq!(n, "a"),
            _ => panic!("err"),
        }
        assert_eq!(iter.next(), None);
    }
}

fn sorted(edges: Vec<(&'static str, Vec<&'static str>)>) -> (Vec<&'static str>, bool) {
    let mut topo_sort = SimpleTopoSort::new();
    for (node, deps) in edges {
        topo_sort.insert(node, deps);
    }
    let mut iter = topo_sort.into_iter();
    let mut nodes = Vec::new();
    while let Some(node) = iter.next() {
        match node {
            Ok(n) => nodes.push(n),
            Err(e) => {
                assert_eq!(e, "Cycle detected");
                return (nodes, false);
            }
        }
    }
    (nodes, true)
}

#[test]
fn an_empty_graph_has_no_nodes() {
    assert_eq!(sorted(vec![]), (vec![], true));
}

#[test]
fn dependencies_come_first_and_each_node_once() {
    let edges = vec![
        ("app", vec!["lib", "util"]),
        ("lib", vec!["util", "core"]),
        ("util", vec!["core"]),
    ];
    let (nodes, finished) = sorted(edges);
    // The node that was never inserted is handed out as well.
    assert!(finished);
    assert_eq!(nodes, vec!["core", "util", "lib", "app"]);
}

#[test]
fn a_cycle_is_reported_after_what_does_not_depend_on_it() {
    let (nodes, finished) = sorted(vec![("a", vec!["b"]), ("b", vec!["a"]), ("c", vec![])]);
    assert!(!finished);
    assert_eq!(nodes, vec!["c"]);
}

#[test]
fn a_node_that_depends_on_itself_is_a_cycle() {
    assert_eq!(sorted(vec![("a", vec!["a"])]), (vec![], false));
}

#[test]
fn dependencies_of_one_node_add_up() {
    let (nodes, finished) = sorted(vec![("a", vec!["b"]), ("a", vec!["c", "b"])]);
    assert!(finished);
    assert_eq!(nodes.len(), 3);
    assert_eq!(nodes[2], "a");
}

#[test]
fn an_error_comes_again_and_an_end_stays() {
    let mut topo_sort = SimpleTopoSort::new();
    topo_sort.insert("a".to_string(), vec!["a".to_string()]);
    let mut iter = topo_sort.into_iter();
    assert_eq!(iter.next(), Some(Err("Cycle detected")));
    assert_eq!(iter.next(), Some(Err("Cycle detected")));

    let mut iter = SimpleTopoSort::<String>::new().into_iter();
    assert_eq!(iter.next(), None);
    assert_eq!(iter.next(), None);
}

#[test]
fn exactly_what_depends_on_no_cycle_is_handed_out() {
    let edges = vec![
        ("above", vec!["a", "free"]),
        ("a", vec!["b"]),
        ("b", vec!["c", "below"]),
        ("c", vec!["a"]),
        ("free", vec!["below"]),
        ("top", vec!["above"]),
    ];
    let (nodes, finished) = sorted(edges);
    assert!(!finished);
    assert_eq!(nodes, vec!["below", "free"]);
}

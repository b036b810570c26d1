use edgelink_core::topo::TopologicalSorter;

#[test]
fn test_simple_linear_dependency() {
    let mut graph = TopologicalSorter::new();
    graph.add_dep("A", "B");
    graph.add_dep("B", "C");

    let sorted = graph.topological_sort();
    assert_eq!(sorted, vec!["A", "B", "C"]);
}

#[test]
fn test_multiple_sources() {
    let mut graph = TopologicalSorter::new();
    graph.add_dep("A", "C");
    graph.add_dep("B", "C");

    let sorted = graph.topological_sort();
    assert!(sorted == vec!["A", "B", "C"] || sorted == vec!["B", "A", "C"]);
}

#[test]
fn test_complex_dependency() {
    let mut graph = TopologicalSorter::new();
    graph.add_deps("A", vec!["B", "C"]);
    graph.add_dep("B", "D");
    graph.add_dep("C", "D");
    graph.add_dep("D", "E");

    let sorted = graph.topological_sort();
    assert!(sorted.contains(&"A"));
    assert!(sorted.contains(&"B"));
    assert!(sorted.contains(&"C"));
    assert!(sorted.contains(&"D"));
    assert!(sorted.contains(&"E"));

    let a_index = sorted.iter().position(|&x| x == "A").unwrap();
    let b_index = sorted.iter().position(|&x| x == "B").unwrap();
    let c_index = sorted.iter().position(|&x| x == "C").unwrap();
    let d_index = sorted.iter().position(|&x| x == "D").unwrap();
    let e_index = sorted.iter().position(|&x| x == "E").unwrap();

    assert!(a_index < b_index);
    assert!(a_index < c_index);
    assert!(b_index < d_index);
    assert!(c_index < d_index);
    assert!(d_index < e_index);
}

#[test]
fn test_multiple_layers() {
    let mut graph = TopologicalSorter::new();
    graph.add_dep("A", "C");
    graph.add_dep("B", "C");
    graph.add_dep("C", "D");
    graph.add_dep("D", "E");
    graph.add_dep("E", "F");

    let sorted = graph.topological_sort();
    assert!(sorted == vec!["A", "B", "C", "D", "E", "F"] || sorted == vec!["B", "A", "C", "D", "E", "F"]);
}

#[test]
fn test_cycle_processing() {
    let mut graph = TopologicalSorter::new();
    graph.add_dep("A", "B");
    graph.add_dep("B", "C");
    graph.add_dep("C", "A");

    let sorted = graph.dependency_sort();
    assert!(sorted.len() == 3);
    assert!(sorted.contains(&"A"));
    assert!(sorted.contains(&"B"));
    assert!(sorted.contains(&"C"));
}

#[test]
fn test_multiple_cycles() {
    let mut graph = TopologicalSorter::new();
    graph.add_dep("A", "B");
    graph.add_dep("B", "C");
    graph.add_dep("C", "A");
    graph.add_dep("D", "E");
    graph.add_dep("E", "D");

    let sorted = graph.dependency_sort();
    assert!(sorted.len() == 5);
    assert!(sorted.contains(&"A"));
    assert!(sorted.contains(&"B"));
    assert!(sorted.contains(&"C"));
    assert!(sorted.contains(&"D"));
    assert!(sorted.contains(&"E"));
}

#[test]
fn test_independent_nodes() {
    let mut graph = TopologicalSorter::new();
    graph.add_dep("A", "B");
    graph.add_dep("C", "D");

    let sorted = graph.topological_sort();
    assert!(
        sorted == vec!["A", "B", "C", "D"] || sorted == vec!["A", "C", "B", "D"] || sorted == vec!["C", "D", "A", "B"]
    );
}

#[test]
fn test_large_graph() {
    let mut graph = TopologicalSorter::new();
    for i in 0..100 {
        for j in (i + 1)..100 {
            graph.add_dep(i.to_string(), j.to_string());
        }
    }

    let sorted = graph.topological_sort();
    for i in 0..100 {
        for j in (i + 1)..100 {
            assert!(sorted.iter().position(|x| x == &i.to_string()) < sorted.iter().position(|x| x == &j.to_string()));
        }
    }
}

#[test]
fn test_single_node() {
    let mut graph = TopologicalSorter::new();
    graph.add_dep("A", "A");
    let sorted = graph.topological_sort();

    assert_eq!(sorted, &["A"])
}

#[test]
fn test_no_dependencies() {
    let mut graph = TopologicalSorter::new();
    graph.add_dep("A", "B");
    graph.add_dep("C", "D");
    graph.add_dep("E", "F");

    let sorted = graph.topological_sort();
    assert!(sorted.len() == 6);
    assert!(sorted.contains(&"A"));
    assert!(sorted.contains(&"B"));
    assert!(sorted.contains(&"C"));
    assert!(sorted.contains(&"D"));
    assert!(sorted.contains(&"E"));
    assert!(sorted.contains(&"F"));
}

#[test]
fn test_dependency_sort() {
    let mut graph = TopologicalSorter::new();
    graph.add_deps("A", vec!["B", "C"]);
    graph.add_dep("B", "D");
    graph.add_dep("C", "D");
    graph.add_dep("D", "E");
    graph.add_vertex("F");

    let sorted = graph.dependency_sort();
    assert_eq!(sorted.len(), 6);
    assert!(sorted.contains(&"A"));
    assert!(sorted.contains(&"B"));
    assert!(sorted.contains(&"C"));
    assert!(sorted.contains(&"D"));
    assert!(sorted.contains(&"E"));
    assert!(sorted.contains(&"F"));

    let a_index = sorted.iter().position(|&x| x == "A").unwrap();
    let b_index = sorted.iter().position(|&x| x == "B").unwrap();
    let c_index = sorted.iter().position(|&x| x == "C").unwrap();
    let d_index = sorted.iter().position(|&x| x == "D").unwrap();
    let e_index = sorted.iter().position(|&x| x == "E").unwrap();
    let f_index = sorted.iter().position(|&x| x == "F").unwrap();

    assert!(f_index == 0 || f_index == 5);
    assert!(b_index < a_index);
    assert!(c_index < a_index);
    assert!(d_index < b_index);
    assert!(d_index < c_index);
    assert!(d_index < a_index);
    assert!(e_index < d_index);
    assert!(e_index < b_index);
    assert!(e_index < c_index);
    assert!(e_index < a_index);
}

#[test]
fn topo_exact_orders_of_small_graphs() {
    // The earliest added ready item comes first.
    let mut graph = TopologicalSorter::new();
    graph.add_vertex(9u64);
    graph.add_dep(1u64, 2u64);
    graph.add_dep(2u64, 3u64);
    assert_eq!(graph.topological_sort(), vec![9, 1, 2, 3]);
    assert_eq!(graph.dependency_sort(), vec![3, 2, 1, 9]);

    // A cycle is broken at the earliest added item.
    let mut cyc = TopologicalSorter::new();
    cyc.add_dep(5u64, 6u64);
    cyc.add_dep(6u64, 5u64);
    cyc.add_dep(7u64, 5u64);
    assert_eq!(cyc.topological_sort(), vec![7, 5, 6]);
}

#[test]
fn topo_add_deps_with_no_targets_adds_nothing() {
    let mut graph: TopologicalSorter<u64> = TopologicalSorter::new();
    graph.add_deps(1, vec![]);
    assert!(graph.topological_sort().is_empty());
    graph.add_vertex(4);
    graph.add_vertex(4);
    assert_eq!(graph.topological_sort(), vec![4]);
}

#[test]
fn topo_add_deps_matches_add_dep_in_turn() {
    let mut one: TopologicalSorter<u64> = TopologicalSorter::new();
    one.add_vertex(9);
    one.add_deps(1, vec![3, 2, 9]);
    one.add_dep(2, 3);
    let mut each: TopologicalSorter<u64> = TopologicalSorter::new();
    each.add_vertex(9);
    each.add_dep(1, 3);
    each.add_dep(1, 2);
    each.add_dep(1, 9);
    each.add_dep(2, 3);
    assert_eq!(one.topological_sort(), each.topological_sort());
    assert_eq!(one.topological_sort(), vec![1, 9, 2, 3]);
}

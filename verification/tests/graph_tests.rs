use elm_assist::graph::{build_graph, find_cycles};

fn graph(entries: &[(&str, &[&str])]) -> Vec<(String, Vec<String>)> {
    entries
        .iter()
        .map(|(m, deps)| (m.to_string(), deps.iter().map(|d| d.to_string()).collect()))
        .collect()
}

fn deps_of<'a>(g: &'a [(String, Vec<String>)], name: &str) -> &'a [String] {
    &g.iter().find(|(m, _)| m == name).expect("module present").1
}

#[test]
fn no_cycles_in_linear_graph() {
    let g = graph(&[("A", &["B"]), ("B", &["C"]), ("C", &[])]);
    let cycles = find_cycles(&g);
    assert!(cycles.is_empty());
}

#[test]
fn detects_simple_cycle() {
    let g = graph(&[("A", &["B"]), ("B", &["A"])]);
    let cycles = find_cycles(&g);
    assert_eq!(cycles.len(), 1);
    // Cycle should contain A and B.
    let cycle = &cycles[0];
    assert!(cycle.iter().any(|m| m == "A"));
    assert!(cycle.iter().any(|m| m == "B"));
}

#[test]
fn detects_triangle_cycle() {
    let g = graph(&[("A", &["B"]), ("B", &["C"]), ("C", &["A"])]);
    let cycles = find_cycles(&g);
    assert_eq!(cycles.len(), 1);
}

#[test]
fn no_duplicate_cycles() {
    // A -> B -> A is the same cycle as B -> A -> B.
    let g = graph(&[("A", &["B"]), ("B", &["A"])]);
    let cycles = find_cycles(&g);
    assert_eq!(cycles.len(), 1);
}

#[test]
fn detects_multiple_independent_cycles() {
    let g = graph(&[("A", &["B"]), ("B", &["A"]), ("C", &["D"]), ("D", &["C"])]);
    let cycles = find_cycles(&g);
    assert_eq!(cycles.len(), 2);
}

#[test]
fn empty_graph() {
    let g: Vec<(String, Vec<String>)> = Vec::new();
    let cycles = find_cycles(&g);
    assert!(cycles.is_empty());
}

#[test]
fn self_cycle() {
    let g = graph(&[("A", &["A"])]);
    let cycles = find_cycles(&g);
    assert_eq!(cycles.len(), 1);
}

#[test]
fn build_graph_filters_internal() {
    let modules = vec![
        ("Main".to_string(), vec!["Html".to_string(), "Utils".to_string()]),
        ("Utils".to_string(), vec!["String".to_string()]),
    ];
    let (graph, project) = build_graph(&modules);

    assert!(project.iter().any(|m| m == "Main"));
    assert!(project.iter().any(|m| m == "Utils"));

    // "Html" and "String" are external — filtered out.
    assert_eq!(deps_of(&graph, "Main"), &["Utils".to_string()][..]);
    assert!(deps_of(&graph, "Utils").is_empty());
}

#[test]
fn cycle_paths_start_and_end_at_the_same_module() {
    let g = graph(&[("A", &["B"]), ("B", &["C"]), ("C", &["A"]), ("D", &["A"])]);
    let cycles = find_cycles(&g);
    assert_eq!(cycles.len(), 1);
    let c = &cycles[0];
    assert_eq!(c.first(), c.last());
    assert_eq!(c.len(), 4);
    assert_eq!(c, &vec!["A".to_string(), "B".to_string(), "C".to_string(), "A".to_string()]);
}

#[test]
fn build_graph_keeps_last_listing_of_a_module() {
    let modules = vec![
        ("A".to_string(), vec!["B".to_string()]),
        ("B".to_string(), vec![]),
        ("A".to_string(), vec![]),
    ];
    let (graph, project) = build_graph(&modules);
    assert_eq!(project, vec!["A".to_string(), "B".to_string()]);
    assert_eq!(graph.len(), 2);
    assert!(deps_of(&graph, "A").is_empty());
}

#[test]
fn distinct_cycles_are_not_rotations_of_each_other() {
    // Two cycles through A: A -> B -> A and A -> C -> A, plus their rotations.
    let g = graph(&[("A", &["B", "C"]), ("B", &["A"]), ("C", &["A"])]);
    let cycles = find_cycles(&g);
    assert_eq!(cycles.len(), 2);
    let cores: Vec<Vec<String>> = cycles
        .iter()
        .map(|c| {
            let mut core = c[..c.len() - 1].to_vec();
            core.sort();
            core
        })
        .collect();
    assert_ne!(cores[0], cores[1]);
}

#[test]
fn reports_every_elementary_cycle() {
    // A -> B -> C -> A and A -> C -> A share the node C.
    let g = graph(&[("A", &["B", "C"]), ("B", &["C"]), ("C", &["A"])]);
    let cycles = find_cycles(&g);
    assert_eq!(cycles.len(), 2);
    assert!(cycles.contains(&vec!["A".to_string(), "B".to_string(), "C".to_string(), "A".to_string()]));
    assert!(cycles.contains(&vec!["A".to_string(), "C".to_string(), "A".to_string()]));
}

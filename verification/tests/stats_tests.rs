use elm_assist::graph::find_cycles;
use elm_assist::stats::compute_stats;

fn graph(entries: &[(&str, &[&str])]) -> Vec<(String, Vec<String>)> {
    entries
        .iter()
        .map(|(m, deps)| (m.to_string(), deps.iter().map(|d| d.to_string()).collect()))
        .collect()
}

fn pairs(v: &[(String, usize)]) -> Vec<(&str, usize)> {
    v.iter().map(|(m, c)| (m.as_str(), *c)).collect()
}

#[test]
fn stats_of_a_small_acyclic_graph() {
    let g = graph(&[("A", &["B", "C"]), ("B", &["C"]), ("C", &[])]);
    let stats = compute_stats(&g);
    assert_eq!(stats.total_modules, 3);
    assert_eq!(stats.total_edges, 3);
    assert_eq!(stats.leaf_count, 1);
    assert_eq!(stats.root_count, 1);
    assert_eq!(pairs(&stats.most_imports), vec![("A", 2), ("B", 1), ("C", 0)]);
    assert_eq!(pairs(&stats.most_depended_on), vec![("C", 2), ("B", 1)]);
    assert_eq!(stats.cycle_count, 0);
    assert!(stats.cycles.is_empty());
}

#[test]
fn stats_count_cycles_and_roots() {
    let g = graph(&[("A", &["B"]), ("B", &["A"]), ("C", &["A"])]);
    let stats = compute_stats(&g);
    assert_eq!(stats.cycle_count, 1);
    assert_eq!(stats.cycles.len(), 1);
    assert_eq!(stats.root_count, 1);
    assert_eq!(stats.leaf_count, 0);
    assert_eq!(pairs(&stats.most_depended_on), vec![("A", 2), ("B", 1)]);
}

#[test]
fn stats_of_empty_graph() {
    let stats = compute_stats(&Vec::new());
    assert_eq!(stats.total_modules, 0);
    assert_eq!(stats.total_edges, 0);
    assert!(stats.most_imports.is_empty());
    assert!(stats.most_depended_on.is_empty());
}

#[test]
fn repeated_import_counts_twice() {
    let g = graph(&[("A", &["B", "B"]), ("B", &[])]);
    let stats = compute_stats(&g);
    assert_eq!(stats.total_edges, 2);
    assert_eq!(pairs(&stats.most_depended_on), vec![("B", 2)]);
}

#[test]
fn stats_list_the_cycles_find_cycles_lists() {
    let g = graph(&[
        ("A", &["B", "C"]),
        ("B", &["A", "C"]),
        ("C", &["A"]),
        ("D", &["D", "A"]),
    ]);
    let stats = compute_stats(&g);
    let cycles = find_cycles(&g);
    assert_eq!(stats.cycles.len(), cycles.len());
    assert_eq!(stats.cycles, cycles);
    assert_eq!(stats.cycle_count, 4);
}

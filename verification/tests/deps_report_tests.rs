use elm_assist::deps_report::{render_cycle_list, render_cycles, render_dot, render_mermaid, render_module_list, render_stats};
use elm_assist::stats::compute_stats;

fn graph(entries: &[(&str, &[&str])]) -> Vec<(String, Vec<String>)> {
    entries
        .iter()
        .map(|(m, deps)| (m.to_string(), deps.iter().map(|d| d.to_string()).collect()))
        .collect()
}

#[test]
fn mermaid_lists_edges_by_module_name() {
    let g = graph(&[("Utils", &[]), ("Main", &["Utils", "Page.Home"]), ("Page.Home", &["Utils"])]);
    assert_eq!(
        render_mermaid(&g),
        vec![
            "graph LR",
            "  Main --> Utils",
            "  Main --> Page.Home",
            "  Page.Home --> Utils",
        ]
    );
}

#[test]
fn dot_uses_safe_identifiers() {
    let g = graph(&[("Page.Home", &["Utils"]), ("Utils", &[])]);
    assert_eq!(
        render_dot(&g),
        vec![
            "digraph elm_deps {",
            "  rankdir=LR;",
            "  node [shape=box, style=filled, fillcolor=lightblue];",
            "  Page_Home [label=\"Page.Home\"];",
            "  Utils [label=\"Utils\"];",
            "  Page_Home -> Utils;",
            "}",
        ]
    );
}

#[test]
fn module_list_marks_leaves() {
    let g = graph(&[("B", &[]), ("A", &["B"])]);
    assert_eq!(render_module_list(&g), vec!["A", "  -> B", "B (no internal imports)"]);
}

#[test]
fn cycle_reports() {
    let g = graph(&[("A", &["B"]), ("B", &["A"])]);
    assert_eq!(render_cycles(&g), vec!["1 circular dependency chain(s):", "  A -> B -> A"]);
    let none = graph(&[("A", &[])]);
    assert_eq!(render_cycles(&none), vec!["No circular dependencies found."]);
    let cycles = vec![vec!["X".to_string(), "X".to_string()]];
    assert_eq!(
        render_cycle_list(&cycles, " found:"),
        vec!["1 circular dependency chain(s) found:", "  X -> X"]
    );
}

#[test]
fn stats_report() {
    let g = graph(&[("A", &["B", "C"]), ("B", &["C"]), ("C", &[])]);
    let stats = compute_stats(&g);
    assert_eq!(
        render_stats(&stats, "1.0"),
        vec![
            "Dependency statistics:",
            "  3 modules, 3 internal edges",
            "  1.0 avg imports per module",
            "  1 leaf modules (no internal imports)",
            "  1 root modules (not imported by others)",
            "",
            "Most imports (highest afferent coupling):",
            "    2 A",
            "    1 B",
            "",
            "Most depended on (highest efferent coupling):",
            "    2 C",
            "    1 B",
            "",
            "No circular dependencies.",
        ]
    );
}

#[test]
fn stats_report_of_empty_graph_has_no_average() {
    let stats = compute_stats(&Vec::new());
    assert_eq!(
        render_stats(&stats, "unused"),
        vec![
            "Dependency statistics:",
            "  0 modules, 0 internal edges",
            "  0 leaf modules (no internal imports)",
            "  0 root modules (not imported by others)",
            "",
            "No circular dependencies.",
        ]
    );
}

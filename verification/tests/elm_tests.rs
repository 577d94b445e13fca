use elm_assist::elm::{
    check_fixed_source, extract_module_name, format_source, parse_files, parse_module, Style,
};

const MAIN: &str = "module Main exposing (..)\n\nimport Html\nimport Page.Home as Home\n\n\nmain =\n    Html.text \"hi\"\n";

#[test]
fn parse_module_reads_name_and_imports() {
    let (name, imports) = parse_module("src/Main.elm", MAIN).expect("parses");
    assert_eq!(name, "Main");
    assert_eq!(imports, vec!["Html", "Page.Home"]);
}

#[test]
fn parse_module_reports_first_error_with_path() {
    let err = parse_module("src/Bad.elm", "module exposing").unwrap_err();
    assert!(err.starts_with("src/Bad.elm: "), "{err}");
}

#[test]
fn dotted_module_names() {
    let segs = vec!["Page".to_string(), "Home".to_string(), "View".to_string()];
    assert_eq!(extract_module_name(&segs), "Page.Home.View");
    assert_eq!(extract_module_name(&Vec::new()), "");
}

#[test]
fn format_source_pretty_prints() {
    let messy = "module Main exposing (..)\nx=1\n";
    let out = format_source(messy, Style::ElmFormat).expect("formats");
    assert_ne!(out, messy);
    assert!(out.contains("x ="));
    assert_eq!(format_source(&out, Style::ElmFormat).unwrap(), out);
}

#[test]
fn format_source_reports_parse_errors() {
    let err = format_source("module exposing", Style::ElmFormatConverged).unwrap_err();
    assert!(err.starts_with("line "), "{err}");
    assert!(err.contains(", col "), "{err}");
}

#[test]
fn parse_files_splits_modules_and_errors() {
    let files = vec![
        ("src/Main.elm".to_string(), MAIN.to_string()),
        ("src/Bad.elm".to_string(), "module exposing".to_string()),
    ];
    let result = parse_files(&files);
    assert_eq!(result.files.len(), 1);
    assert_eq!(result.files[0].module_name, "Main");
    assert_eq!(result.parse_error_count, 1);
    assert!(result.parse_errors[0].starts_with("src/Bad.elm: "));
}

#[test]
fn fixed_source_must_still_parse() {
    assert_eq!(check_fixed_source("src/Main.elm", MAIN), Ok(()));
    assert_eq!(
        check_fixed_source("src/Main.elm", "module exposing"),
        Err("Fix rejected: produced invalid Elm in src/Main.elm".to_string())
    );
}

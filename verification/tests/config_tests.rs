use elm_assist::config::{default_debounce_ms, Config, ConfigError, RulesConfig, SeverityValue, TuiConfig};
use elm_assist::rule::Severity;

fn names(v: &[&str]) -> Vec<String> {
    v.iter().map(|s| s.to_string()).collect()
}

fn toml_value(text: &str) -> toml::Value {
    text.parse::<toml::Table>().map(toml::Value::Table).expect("valid toml")
}

fn config(
    src: Option<&str>,
    disable: &[&str],
    severity: &[(&str, SeverityValue)],
    options: &[(&str, &str)],
) -> Config {
    Config {
        src: src.map(|s| s.to_string()),
        rules: RulesConfig {
            disable: names(disable),
            severity: severity.iter().map(|(n, v)| (n.to_string(), *v)).collect(),
            options: options.iter().map(|(n, t)| (n.to_string(), toml_value(t))).collect(),
        },
        tui: TuiConfig::default(),
    }
}

#[test]
fn parse_minimal_config() {
    let config = Config::default();
    assert!(config.src.is_none());
    assert!(config.rules.disable.is_empty());
    assert!(config.rules.severity.is_empty());
}

#[test]
fn parse_full_config() {
    let config = config(
        Some("lib"),
        &["NoTodoComment", "NoMissingTypeAnnotation"],
        &[
            ("NoDebug", SeverityValue::Error),
            ("NoUnusedImports", SeverityValue::Warning),
            ("NoAlwaysIdentity", SeverityValue::Off),
        ],
        &[],
    );

    assert_eq!(config.src.as_deref(), Some("lib"));
    assert_eq!(config.rules.disable.len(), 2);
    assert!(config.is_rule_disabled("NoTodoComment"));
    assert!(config.is_rule_disabled("NoMissingTypeAnnotation"));
    assert!(!config.is_rule_disabled("NoDebug"));
    // "off" in severity also disables.
    assert!(config.is_rule_disabled("NoAlwaysIdentity"));

    assert_eq!(config.severity_for("NoDebug"), Some(Severity::Error));
    assert_eq!(config.severity_for("NoUnusedImports"), Some(Severity::Warning));
    assert_eq!(config.severity_for("NoAlwaysIdentity"), None);
    assert_eq!(config.severity_for("UnknownRule"), None);
}

#[test]
fn default_config_disables_nothing() {
    let config = Config::default();
    assert!(!config.is_rule_disabled("NoDebug"));
    assert_eq!(config.severity_for("NoDebug"), None);
}

#[test]
fn parse_per_rule_options() {
    let config = config(
        None,
        &[],
        &[],
        &[
            ("NoMaxLineLength", "max_length = 100"),
            ("CognitiveComplexity", "threshold = 20"),
            (
                "NoInconsistentAliases",
                "aliases = { \"Json.Decode\" = \"Decode\", \"Html.Attributes\" = \"Attr\" }",
            ),
        ],
    );

    let max_opts = config.rule_options("NoMaxLineLength").expect("NoMaxLineLength options present");
    assert_eq!(max_opts.get("max_length").and_then(|v| v.as_integer()), Some(100));

    let cog_opts = config.rule_options("CognitiveComplexity").expect("CognitiveComplexity options present");
    assert_eq!(cog_opts.get("threshold").and_then(|v| v.as_integer()), Some(20));

    let alias_opts = config.rule_options("NoInconsistentAliases").expect("NoInconsistentAliases options present");
    let aliases = alias_opts.get("aliases").and_then(|v| v.as_table()).expect("aliases is a table");
    assert_eq!(aliases.get("Json.Decode").and_then(|v| v.as_str()), Some("Decode"));
    assert_eq!(aliases.get("Html.Attributes").and_then(|v| v.as_str()), Some("Attr"));

    // Unknown rules have no options.
    assert!(config.rule_options("NoDebug").is_none());
}

#[test]
fn per_rule_options_coexist_with_disable_and_severity() {
    let config = config(
        None,
        &["NoTodoComment"],
        &[("NoDebug", SeverityValue::Error)],
        &[("NoMaxLineLength", "max_length = 80")],
    );

    assert!(config.is_rule_disabled("NoTodoComment"));
    assert_eq!(config.severity_for("NoDebug"), Some(Severity::Error));
    let opts = config.rule_options("NoMaxLineLength").expect("NoMaxLineLength options present");
    assert_eq!(opts.get("max_length").and_then(|v| v.as_integer()), Some(80));
}

#[test]
fn debounce_defaults_to_two_hundred_ms() {
    assert_eq!(default_debounce_ms(), 200);
    assert_eq!(TuiConfig::default().debounce_ms, 200);
    assert_eq!(Config::default().tui.debounce_ms, 200);
}

#[test]
fn config_error_descriptions() {
    assert_eq!(ConfigError::Io("gone".into()).describe(), "could not read config file: gone");
    assert_eq!(ConfigError::Parse("bad".into()).describe(), "could not parse config file: bad");
}

#[test]
fn named_rules_override_config_and_disable_list() {
    let c = config(None, &["B"], &[("C", SeverityValue::Off)], &[]);
    let all = names(&["A", "B", "C", "D"]);
    let only = Some(names(&["D", "B", "X"]));
    assert_eq!(c.select_active_rules(&all, &only, &names(&["D"])), names(&["B", "D"]));
}

#[test]
fn config_and_disable_list_turn_rules_off() {
    let c = config(None, &["B"], &[("C", SeverityValue::Off), ("A", SeverityValue::Warning)], &[]);
    let all = names(&["A", "B", "C", "D", "E"]);
    assert_eq!(c.select_active_rules(&all, &None, &names(&["E"])), names(&["A", "D"]));
    assert_eq!(c.select_active_rules(&all, &None, &Vec::new()), names(&["A", "D", "E"]));
}

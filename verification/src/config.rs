//! The project configuration (`elm-assist.toml`): which rules run, with
//! which severity and options, and the interactive assistant's settings.

use vstd::prelude::*;

use crate::rule::Severity;

verus! {

/// A TOML value, as the `toml` crate parses it.
#[verifier::external_type_specification]
#[verifier::external_body]
pub struct ExTomlValue(toml::Value);

/// Configuration loaded from `elm-assist.toml`.
pub struct Config {
    /// Source directory override (default: "src").
    pub src: Option<String>,
    /// Rule configuration.
    pub rules: RulesConfig,
    /// TUI configuration.
    pub tui: TuiConfig,
}

/// TUI-specific configuration.
#[derive(Debug, Clone, Copy, PartialEq, Eq, Structural)]
pub struct TuiConfig {
    /// File watcher debounce interval in milliseconds (default: 200).
    pub debounce_ms: u64,
}

/// Rule-level configuration.
pub struct RulesConfig {
    /// Rules to disable entirely.
    pub disable: Vec<String>,
    /// Per-rule severity overrides, each rule once.
    pub severity: Vec<(String, SeverityValue)>,
    /// Per-rule custom options, each rule once: every key under `[rules]`
    /// other than `disable` and `severity`.
    pub options: Vec<(String, toml::Value)>,
}

/// A severity value in the config file. `Off` disables the rule.
#[derive(Debug, Clone, Copy, PartialEq, Eq, Structural)]
pub enum SeverityValue {
    Error,
    Warning,
    Off,
}

/// Errors that can occur when loading a config file, with the underlying
/// error's description.
#[derive(Debug, Clone)]
pub enum ConfigError {
    Io(String),
    Parse(String),
}

/// The default file watcher debounce interval, in milliseconds.
pub fn default_debounce_ms() -> (ms: u64)
    ensures
        ms == 200,
{
    200
}

impl Default for TuiConfig {
    fn default() -> (c: TuiConfig)
        ensures
            c.debounce_ms == 200,
    {
        TuiConfig { debounce_ms: default_debounce_ms() }
    }
}

impl Default for RulesConfig {
    fn default() -> (c: RulesConfig)
        ensures
            c.disable@.len() == 0,
            c.severity@.len() == 0,
            c.options@.len() == 0,
    {
        RulesConfig { disable: Vec::new(), severity: Vec::new(), options: Vec::new() }
    }
}

impl Default for Config {
    fn default() -> (c: Config)
        ensures
            c.src is None,
            c.rules.disable@.len() == 0,
            c.rules.severity@.len() == 0,
            c.rules.options@.len() == 0,
            c.tui.debounce_ms == 200,
    {
        Config { src: None, rules: RulesConfig::default(), tui: TuiConfig::default() }
    }
}

impl ConfigError {
    /// The error as a sentence.
    pub fn describe(&self) -> (s: String)
        ensures
            s@ == match self {
                ConfigError::Io(e) => "could not read config file: "@ + e@,
                ConfigError::Parse(e) => "could not parse config file: "@ + e@,
            },
    {
        let mut s = String::new();
        match self {
            ConfigError::Io(e) => {
                crate::text::push_str(&mut s, "could not read config file: ");
                crate::text::push_str(&mut s, e.as_str());
            },
            ConfigError::Parse(e) => {
                crate::text::push_str(&mut s, "could not parse config file: ");
                crate::text::push_str(&mut s, e.as_str());
            },
        }
        s
    }
}

/// The value of the first entry keyed `name`, if any.
pub open spec fn lookup<T>(v: Seq<(String, T)>, name: Seq<char>) -> Option<T>
    decreases v.len(),
{
    if v.len() == 0 {
        None
    } else if v[0].0@ == name {
        Some(v[0].1)
    } else {
        lookup(v.drop_first(), name)
    }
}

/// Index of the first entry keyed `name`, if any.
fn find_key<T>(v: &Vec<(String, T)>, name: &str) -> (r: Option<usize>)
    ensures
        r matches Some(k) ==> k < v@.len() && lookup(v@, name@) == Some(v@[k as int].1),
        r is None ==> lookup(v@, name@) is None,
{
    let target = crate::text::chars_of(name);
    let mut k: usize = 0;
    assert(v@.skip(0) == v@);
    while k < v.len()
        invariant
            k <= v@.len(),
            target@ == name@,
            lookup(v@, name@) == lookup(v@.skip(k as int), name@),
        decreases v.len() - k,
    {
        assert(v@.skip(k as int).drop_first() == v@.skip(k + 1));
        assert(v@.skip(k as int)[0] == v@[k as int]);
        let key = crate::text::chars_of(v[k].0.as_str());
        if crate::text::chars_eq(&key, &target) {
            return Some(k);
        }
        k = k + 1;
    }
    None
}

impl Config {
    /// No rule has two severity entries or two option entries (as in the
    /// file, where each is a table key).
    pub open spec fn wf(self) -> bool {
        &&& forall|a: int, b: int|
            0 <= a < b < self.rules.severity@.len() ==> #[trigger] self.rules.severity@[a].0@
                != #[trigger] self.rules.severity@[b].0@
        &&& forall|a: int, b: int|
            0 <= a < b < self.rules.options@.len() ==> #[trigger] self.rules.options@[a].0@
                != #[trigger] self.rules.options@[b].0@
    }

    /// Whether a rule is disabled: listed under `disable`, or with severity `off`.
    pub fn is_rule_disabled(&self, name: &str) -> (r: bool)
        ensures
            r == (self.rules.disable@.map_values(|s: String| s@).contains(name@) || lookup(
                self.rules.severity@,
                name@,
            ) == Some(SeverityValue::Off)),
    {
        let target = crate::text::chars_of(name);
        let ghost names = self.rules.disable@.map_values(|s: String| s@);
        for i in 0..self.rules.disable.len()
            invariant
                target@ == name@,
                names == self.rules.disable@.map_values(|s: String| s@),
                forall|q: int| 0 <= q < i ==> names[q] != name@,
        {
            let n = crate::text::chars_of(self.rules.disable[i].as_str());
            if crate::text::chars_eq(&n, &target) {
                assert(names[i as int] == name@);
                return true;
            }
        }
        assert(!names.contains(name@)) by {
            if names.contains(name@) {
                let q = choose|q: int| 0 <= q < names.len() && names[q] == name@;
            }
        }
        match find_key(&self.rules.severity, name) {
            Some(k) => self.rules.severity[k].1 == SeverityValue::Off,
            None => false,
        }
    }

    /// The configured severity for a rule: `Some` for `error` and
    /// `warning`, `None` for `off` or no entry.
    pub fn severity_for(&self, name: &str) -> (r: Option<Severity>)
        ensures
            r == match lookup(self.rules.severity@, name@) {
                Some(SeverityValue::Error) => Some(Severity::Error),
                Some(SeverityValue::Warning) => Some(Severity::Warning),
                _ => None,
            },
    {
        match find_key(&self.rules.severity, name) {
            Some(k) => match self.rules.severity[k].1 {
                SeverityValue::Error => Some(Severity::Error),
                SeverityValue::Warning => Some(Severity::Warning),
                SeverityValue::Off => None,
            },
            None => None,
        }
    }

    /// The options configured for a rule, if any.
    pub fn rule_options(&self, name: &str) -> (r: Option<&toml::Value>)
        ensures
            r == match lookup(self.rules.options@, name@) {
                Some(v) => Some(&v),
                None => None,
            },
    {
        match find_key(&self.rules.options, name) {
            Some(k) => Some(&self.rules.options[k].1),
            None => None,
        }
    }
}


/// The text of each string.
pub open spec fn names_view(v: Seq<String>) -> Seq<Seq<char>> {
    v.map_values(|s: String| s@)
}

/// Whether `name` is one of `names`.
pub fn names_contain(names: &Vec<String>, name: &str) -> (r: bool)
    ensures
        r == names_view(names@).contains(name@),
{
    let target = crate::text::chars_of(name);
    let ghost nv = names_view(names@);
    for i in 0..names.len()
        invariant
            target@ == name@,
            nv == names_view(names@),
            forall|q: int| 0 <= q < i ==> nv[q] != name@,
    {
        let n = crate::text::chars_of(names[i].as_str());
        if crate::text::chars_eq(&n, &target) {
            assert(nv[i as int] == name@);
            return true;
        }
    }
    assert(!nv.contains(name@)) by {
        if nv.contains(name@) {
            let q = choose|q: int| 0 <= q < nv.len() && nv[q] == name@;
        }
    }
    false
}

impl Config {
    /// The configuration turns the rule off: listed under `disable`, or with
    /// severity `off`.
    pub open spec fn turns_off(self, name: Seq<char>) -> bool {
        names_view(self.rules.disable@).contains(name) || lookup(self.rules.severity@, name)
            == Some(SeverityValue::Off)
    }

    /// Whether a rule runs: when rules are named explicitly, exactly the named
    /// ones run; otherwise those that neither the configuration nor the
    /// `off` list turns off.
    pub open spec fn rule_runs(self, name: Seq<char>, only: Option<Seq<Seq<char>>>, off: Seq<Seq<char>>) -> bool {
        match only {
            Some(named) => named.contains(name),
            None => !self.turns_off(name) && !off.contains(name),
        }
    }

    /// The rules of `all` that run, in their order.
    pub open spec fn active_rules(
        self,
        all: Seq<Seq<char>>,
        only: Option<Seq<Seq<char>>>,
        off: Seq<Seq<char>>,
    ) -> Seq<Seq<char>>
        decreases all.len(),
    {
        if all.len() == 0 {
            Seq::empty()
        } else {
            let rest = self.active_rules(all.drop_last(), only, off);
            if self.rule_runs(all.last(), only, off) {
                rest.push(all.last())
            } else {
                rest
            }
        }
    }

    /// Select the rules that run, out of all rules, given the explicitly
    /// named rules (if any) and the rules disabled on the command line.
    pub fn select_active_rules(&self, all: &Vec<String>, only: &Option<Vec<String>>, off: &Vec<String>) -> (active:
        Vec<String>)
        ensures
            names_view(active@) == self.active_rules(
                names_view(all@),
                match only {
                    Some(v) => Some(names_view(v@)),
                    None => None,
                },
                names_view(off@),
            ),
    {
        let ghost only_v: Option<Seq<Seq<char>>> = match only {
            Some(v) => Some(names_view(v@)),
            None => None,
        };
        let ghost all_v = names_view(all@);
        let mut active: Vec<String> = Vec::new();
        for i in 0..all.len()
            invariant
                all_v == names_view(all@),
                only_v == match only {
                    Some(v) => Some(names_view(v@)),
                    None => None,
                },
                names_view(active@) == self.active_rules(all_v.take(i as int), only_v, names_view(off@)),
        {
            let name = all[i].as_str();
            let runs = match only {
                Some(named) => names_contain(named, name),
                None => !self.is_rule_disabled(name) && !names_contain(off, name),
            };
            assert(all_v.take(i + 1).drop_last() == all_v.take(i as int));
            assert(all_v.take(i + 1).last() == name@);
            if runs {
                let ghost before = active@;
                active.push(all[i].clone());
                assert(names_view(active@) == names_view(before).push(name@));
            }
        }
        assert(all_v.take(all.len() as int) == all_v);
        active
    }
}


/// With rules named explicitly, exactly the named rules of `all` run, in
/// their order in `all`, whatever the configuration and the `off` list say.
/// Otherwise a rule of `all` runs exactly when the configuration neither
/// lists it under `disable` nor sets its severity to `off`, and `off` does
/// not list it.
pub proof fn lemma_active_rules_chosen(
    c: Config,
    c2: Config,
    all: Seq<Seq<char>>,
    named: Seq<Seq<char>>,
    off: Seq<Seq<char>>,
    off2: Seq<Seq<char>>,
)
    ensures
        c.active_rules(all, Some(named), off) == all.filter(|n: Seq<char>| named.contains(n)),
        c.active_rules(all, Some(named), off) == c2.active_rules(all, Some(named), off2),
        c.active_rules(all, None, off) == all.filter(
            |n: Seq<char>|
                !names_view(c.rules.disable@).contains(n) && lookup(c.rules.severity@, n) != Some(
                    SeverityValue::Off,
                ) && !off.contains(n),
        ),
    decreases all.len(),
{
    reveal(Seq::filter);
    if all.len() > 0 {
        lemma_active_rules_chosen(c, c2, all.drop_last(), named, off, off2);
    }
}

} // verus!

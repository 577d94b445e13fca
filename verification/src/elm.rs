//! Parsing and formatting Elm sources with `elm_ast`: module names and
//! imports for the dependency graph, parse error reports, and the formatter
//! front end.

use vstd::prelude::*;

use crate::text::{decimal, push_char, push_decimal, push_str};
use elm_ast::module_header::ModuleHeader;

verus! {

/// A parse error as plain values.
#[derive(Clone, Debug)]
pub struct ParseProblem {
    pub line: u32,
    pub column: u32,
    pub message: String,
}

/// What a module declares for dependency analysis: the segments of its
/// name and of the name of each module it imports, in source order.
#[derive(Clone, Debug)]
pub struct ModuleOutline {
    pub name: Vec<String>,
    pub imports: Vec<Vec<String>>,
}

/// A parse error taken by (line, column, message).
pub open spec fn problem_view(p: ParseProblem) -> (u32, u32, Seq<char>) {
    (p.line, p.column, p.message@)
}

/// The characters of each string.
pub open spec fn strs(v: Seq<String>) -> Seq<Seq<char>> {
    v.map_values(|s: String| s@)
}

/// An outline taken by its name segments and import name segments.
pub open spec fn outline_view(o: ModuleOutline) -> (Seq<Seq<char>>, Seq<Seq<Seq<char>>>) {
    (strs(o.name@), o.imports@.map_values(|i: Vec<String>| strs(i@)))
}

/// What `elm_ast::parse` makes of a source text: the module's name and
/// imports, or the parse errors.
pub uninterp spec fn elm_outline(source: Seq<char>) -> Result<
    (Seq<Seq<char>>, Seq<Seq<Seq<char>>>),
    Seq<(u32, u32, Seq<char>)>,
>;

/// The text `elm_ast::pretty_print` prints for the module parsed from a
/// source text.
pub uninterp spec fn elm_pretty_printed(source: Seq<char>) -> Seq<char>;

/// The text `elm_ast::pretty_print_converged` prints for the module parsed
/// from a source text.
pub uninterp spec fn elm_pretty_printed_converged(source: Seq<char>) -> Seq<char>;

/// Calls `elm_ast::parse` and takes the module header's name and each
/// import's module name, or the errors. The result is `elm_outline` of the
/// source; `parse` reports at least one error when it fails.
#[verifier::external_body]
fn parse_outline(source: &str) -> (r: Result<ModuleOutline, Vec<ParseProblem>>)
    ensures
        match r {
            Ok(o) => elm_outline(source@) == Ok::<_, Seq<(u32, u32, Seq<char>)>>(outline_view(o)),
            Err(v) => elm_outline(source@) == Err::<(Seq<Seq<char>>, Seq<Seq<Seq<char>>>), _>(
                v@.map_values(|p: ParseProblem| problem_view(p)),
            ) && v@.len() > 0,
        },
{
    match elm_ast::parse(source) {
        Ok(m) => {
            let name = match m.header.value {
                ModuleHeader::Normal { name, .. } => name.value,
                ModuleHeader::Port { name, .. } => name.value,
                ModuleHeader::Effect { name, .. } => name.value,
            };
            let imports = m.imports.into_iter().map(|i| i.value.module_name.value).collect();
            Ok(ModuleOutline { name, imports })
        },
        Err(es) => Err(es.into_iter().map(|e| ParseProblem { line: e.span.start.line, column: e.span.start.column, message: e.message }).collect()),
    }
}

/// Calls `elm_ast::parse` and, on success, `elm_ast::pretty_print` (or
/// `pretty_print_converged` when `converged`). The text is the named
/// printer result; the errors are those of `elm_outline`.
#[verifier::external_body]
fn pretty_print_source(source: &str, converged: bool) -> (r: Result<String, Vec<ParseProblem>>)
    ensures
        match r {
            Ok(s) => elm_outline(source@) is Ok && s@ == (if converged {
                elm_pretty_printed_converged(source@)
            } else {
                elm_pretty_printed(source@)
            }),
            Err(v) => elm_outline(source@) == Err::<(Seq<Seq<char>>, Seq<Seq<Seq<char>>>), _>(
                v@.map_values(|p: ParseProblem| problem_view(p)),
            ) && v@.len() > 0,
        },
{
    match elm_ast::parse(source) {
        Ok(m) if converged => Ok(elm_ast::pretty_print_converged(&m)),
        Ok(m) => Ok(elm_ast::pretty_print(&m)),
        Err(es) => Err(es.into_iter().map(|e| ParseProblem { line: e.span.start.line, column: e.span.start.column, message: e.message }).collect()),
    }
}

// ── Names ────────────────────────────────────────────────────────────

/// `segs` joined with `sep` between consecutive segments.
pub open spec fn joined(segs: Seq<Seq<char>>, sep: Seq<char>) -> Seq<char>
    decreases segs.len(),
{
    if segs.len() == 0 {
        Seq::empty()
    } else if segs.len() == 1 {
        segs[0]
    } else {
        joined(segs.drop_last(), sep) + sep + segs.last()
    }
}

/// Join strings with a separator.
pub fn join_strings(segs: &Vec<String>, sep: &str) -> (s: String)
    ensures
        s@ == joined(strs(segs@), sep@),
{
    let mut s = String::new();
    for i in 0..segs.len()
        invariant
            s@ == joined(strs(segs@).take(i as int), sep@),
    {
        let ghost t = strs(segs@).take(i + 1);
        assert(t.drop_last() == strs(segs@).take(i as int));
        assert(t.last() == segs@[i as int]@);
        if i > 0 {
            push_str(&mut s, sep);
        } else {
            assert(strs(segs@).take(i as int).len() == 0);
        }
        push_str(&mut s, segs[i].as_str());
    }
    assert(strs(segs@).take(segs.len() as int) == strs(segs@));
    s
}

/// The dotted module name of name segments (`Html.Attributes`).
pub fn extract_module_name(segments: &Vec<String>) -> (name: String)
    ensures
        name@ == joined(strs(segments@), "."@),
{
    join_strings(segments, ".")
}

// ── Formatting ───────────────────────────────────────────────────────

/// Output style of the formatter.
#[derive(Debug, Clone, Copy, PartialEq, Eq, Structural)]
pub enum Style {
    /// Match `elm-format <source>` output exactly.
    ElmFormat,
    /// Pre-apply elm-format's second-pass mutations so the output is a
    /// fixed point under elm-format.
    ElmFormatConverged,
}

/// One parse error as the formatter reports it.
pub open spec fn problem_text(p: (u32, u32, Seq<char>)) -> Seq<char> {
    "line "@ + decimal(p.0 as nat) + ", col "@ + decimal(p.1 as nat) + ": "@ + p.2
}

/// All parse errors as the formatter reports them, separated by "; ".
pub open spec fn problems_text(ps: Seq<(u32, u32, Seq<char>)>) -> Seq<char> {
    joined(ps.map_values(|p: (u32, u32, Seq<char>)| problem_text(p)), "; "@)
}

/// Format an Elm source: the pretty-printed module in the chosen style,
/// or the parse errors as `line L, col C: message`, separated by "; ".
pub fn format_source(source: &str, style: Style) -> (r: Result<String, String>)
    ensures
        r is Ok <==> elm_outline(source@) is Ok,
        r matches Ok(s) ==> s@ == match style {
            Style::ElmFormat => elm_pretty_printed(source@),
            Style::ElmFormatConverged => elm_pretty_printed_converged(source@),
        },
        r matches Err(m) ==> elm_outline(source@) matches Err(ps) && m@ == problems_text(ps),
{
    match pretty_print_source(source, style == Style::ElmFormatConverged) {
        Ok(s) => Ok(s),
        Err(problems) => {
            let mut parts: Vec<String> = Vec::new();
            let ghost pv = problems@.map_values(|p: ParseProblem| problem_view(p));
            for i in 0..problems.len()
                invariant
                    pv == problems@.map_values(|p: ParseProblem| problem_view(p)),
                    strs(parts@) == pv.take(i as int).map_values(|p: (u32, u32, Seq<char>)| problem_text(p)),
            {
                let p = &problems[i];
                let mut t = String::new();
                push_str(&mut t, "line ");
                push_decimal(&mut t, p.line as u64);
                push_str(&mut t, ", col ");
                push_decimal(&mut t, p.column as u64);
                push_str(&mut t, ": ");
                push_str(&mut t, p.message.as_str());
                let ghost q0 = parts@;
                parts.push(t);
                proof {
                    assert(strs(parts@) == strs(q0).push(problem_text(pv[i as int])));
                    assert(pv.take(i + 1) == pv.take(i as int).push(pv[i as int]));
                }
            }
            assert(pv.take(problems.len() as int) == pv);
            Err(join_strings(&parts, "; "))
        },
    }
}

/// Check that a fixed source still parses as an Elm module before it is
/// written back; otherwise the message `Fix rejected: produced invalid Elm
/// in <path>`.
pub fn check_fixed_source(file_path: &str, fixed_source: &str) -> (r: Result<(), String>)
    ensures
        r is Ok <==> elm_outline(fixed_source@) is Ok,
        r matches Err(m) ==> m@ == "Fix rejected: produced invalid Elm in "@ + file_path@,
{
    match parse_outline(fixed_source) {
        Ok(_) => Ok(()),
        Err(_) => {
            let mut m = String::new();
            push_str(&mut m, "Fix rejected: produced invalid Elm in ");
            push_str(&mut m, file_path);
            Err(m)
        },
    }
}

// ── Parsing project files ────────────────────────────────────────────

/// A parsed Elm file: its path, module name, imported module names and
/// source text.
#[derive(Clone, Debug)]
pub struct ParsedFile {
    pub path: String,
    pub module_name: String,
    pub imports: Vec<String>,
    pub source: String,
}

/// The result of parsing all files.
pub struct ParseResult {
    pub files: Vec<ParsedFile>,
    pub parse_error_count: usize,
    /// Parse error messages (file path + error description).
    pub parse_errors: Vec<String>,
}

/// How a parse error is reported: `line:column: message`.
pub open spec fn problem_display(p: (u32, u32, Seq<char>)) -> Seq<char> {
    decimal(p.0 as nat) + ":"@ + decimal(p.1 as nat) + ": "@ + p.2
}

/// The parse of one file: (module name, imported names), or the report of
/// its first parse error prefixed by the path.
pub open spec fn parsed_file(path: Seq<char>, source: Seq<char>) -> Result<(Seq<char>, Seq<Seq<char>>), Seq<char>> {
    match elm_outline(source) {
        Ok(o) => Ok(
            (joined(o.0, "."@), o.1.map_values(|segs: Seq<Seq<char>>| joined(segs, "."@))),
        ),
        Err(ps) => Err(path + ": "@ + problem_display(ps[0])),
    }
}

/// A module is reported under the name its importers report for it: when the
/// header of one file names the same segments as an import of another, the
/// parse of the first gives as its module name exactly the import name the
/// parse of the second gives.
pub proof fn lemma_module_named_as_imported(p1: Seq<char>, s1: Seq<char>, p2: Seq<char>, s2: Seq<char>, j: int)
    requires
        elm_outline(s1) is Ok,
        elm_outline(s2) is Ok,
        0 <= j < elm_outline(s2)->Ok_0.1.len(),
        elm_outline(s1)->Ok_0.0 == elm_outline(s2)->Ok_0.1[j],
    ensures
        parsed_file(p1, s1) is Ok,
        parsed_file(p2, s2) is Ok,
        parsed_file(p1, s1)->Ok_0.0 == parsed_file(p2, s2)->Ok_0.1[j],
{
}

/// A reported module name holds its segments in order, each after a `'.'`
/// but the first: its first segment starts it, and each further segment
/// follows the name of the segments before it and a `'.'`.
pub proof fn lemma_module_name_segments(p: Seq<char>, s: Seq<char>)
    requires
        elm_outline(s) is Ok,
        elm_outline(s)->Ok_0.0.len() > 0,
    ensures
        ({
            let segs = elm_outline(s)->Ok_0.0;
            let name = parsed_file(p, s)->Ok_0.0;
            &&& crate::text::has_prefix(name, segs[0])
            &&& forall|k: int|
                1 <= k < segs.len() ==> crate::text::has_prefix(
                    name,
                    joined(segs.take(k), "."@) + "."@ + #[trigger] segs[k],
                )
        }),
{
    let segs = elm_outline(s)->Ok_0.0;
    lemma_joined_prefixes(segs, "."@);
}

/// Joining segments extends the joining of every shorter run of them.
proof fn lemma_joined_prefixes(segs: Seq<Seq<char>>, sep: Seq<char>)
    requires
        segs.len() > 0,
    ensures
        crate::text::has_prefix(joined(segs, sep), segs[0]),
        forall|k: int|
            1 <= k < segs.len() ==> crate::text::has_prefix(joined(segs, sep), joined(segs.take(k), sep) + sep + #[trigger] segs[k]),
    decreases segs.len(),
{
    let n = segs.len();
    if n > 1 {
        let init = segs.drop_last();
        lemma_joined_prefixes(init, sep);
        let whole = joined(segs, sep);
        let front = joined(init, sep);
        assert(whole == front + sep + segs[n - 1]);
        assert(init.take(n - 1) == init);
        assert(segs.take(n - 1) == init);
        assert(whole.take(front.len() as int) == front);
        assert(crate::text::has_prefix(whole, segs[0])) by {
            assert(init[0] == segs[0]);
            assert(whole.take(segs[0].len() as int) == front.take(segs[0].len() as int));
        }
        assert forall|k: int| 1 <= k < n implies crate::text::has_prefix(whole, joined(segs.take(k), sep) + sep + #[trigger] segs[k]) by {
            if k < n - 1 {
                assert(segs.take(k) == init.take(k));
                assert(init[k] == segs[k]);
                let q = joined(init.take(k), sep) + sep + init[k];
                assert(crate::text::has_prefix(front, q));
                assert(whole.take(q.len() as int) == front.take(q.len() as int));
            } else {
                assert(whole.take((front + sep + segs[n - 1]).len() as int) =~= whole);
            }
        }
    } else {
        assert(joined(segs, sep) == segs[0]);
        assert(segs[0].take(segs[0].len() as int) == segs[0]);
    }
}

/// Parse one file into its module name and imports, or a report of its
/// first parse error.
pub fn parse_module(path: &str, source: &str) -> (r: Result<(String, Vec<String>), String>)
    ensures
        match r {
            Ok(parsed) => parsed_file(path@, source@) == Ok::<_, Seq<char>>((parsed.0@, strs(parsed.1@))),
            Err(report) => parsed_file(path@, source@) == Err::<(Seq<char>, Seq<Seq<char>>), _>(report@),
        },
{
    match parse_outline(source) {
        Ok(o) => {
            let name = extract_module_name(&o.name);
            let ghost iv = o.imports@.map_values(|i: Vec<String>| strs(i@));
            let mut imports: Vec<String> = Vec::new();
            for i in 0..o.imports.len()
                invariant
                    iv == o.imports@.map_values(|i: Vec<String>| strs(i@)),
                    strs(imports@) == iv.take(i as int).map_values(|segs: Seq<Seq<char>>| joined(segs, "."@)),
            {
                let n = extract_module_name(&o.imports[i]);
                let ghost q0 = imports@;
                imports.push(n);
                proof {
                    assert(strs(imports@) == strs(q0).push(joined(iv[i as int], "."@)));
                    assert(iv.take(i + 1) == iv.take(i as int).push(iv[i as int]));
                }
            }
            assert(iv.take(o.imports.len() as int) == iv);
            proof {
                let ov = outline_view(o);
                assert(ov.1 == iv);
                let expected = parsed_file(path@, source@);
                assert(expected == Ok::<_, Seq<char>>((joined(ov.0, "."@), ov.1.map_values(|segs: Seq<Seq<char>>| joined(segs, "."@)))));
                assert(strs(imports@) =~= ov.1.map_values(|segs: Seq<Seq<char>>| joined(segs, "."@)));
                assert(name@ == joined(ov.0, "."@));
                assert(parsed_file(path@, source@) == Ok::<_, Seq<char>>((name@, strs(imports@))));
            }
            Ok((name, imports))
        },
        Err(problems) => {
            let p = &problems[0];
            let mut m = String::new();
            push_str(&mut m, path);
            push_str(&mut m, ": ");
            push_decimal(&mut m, p.line as u64);
            push_char(&mut m, ':');
            push_decimal(&mut m, p.column as u64);
            push_str(&mut m, ": ");
            push_str(&mut m, p.message.as_str());
            proof {
                reveal_strlit(":");
                assert(":"@ == seq![':']);
                let pv = problems@.map_values(|q: ParseProblem| problem_view(q));
                assert(pv[0] == problem_view(problems@[0]));
                assert(m@ == path@ + ": "@ + problem_display(pv[0]));
            }
            Err(m)
        },
    }
}

/// Parse the read files, in order: each that parses becomes a parsed file,
/// each that does not adds its error report.
pub fn parse_files(files: &Vec<(String, String)>) -> (r: ParseResult)
    ensures
        r.parse_error_count == r.parse_errors@.len(),
        r.files@.map_values(|f: ParsedFile| (f.path@, f.module_name@, strs(f.imports@), f.source@)) == parsed_oks(
            files@,
        ),
        strs(r.parse_errors@) == parsed_errs(files@),
{
    let mut parsed: Vec<ParsedFile> = Vec::new();
    let mut errors: Vec<String> = Vec::new();
    for i in 0..files.len()
        invariant
            parsed@.map_values(|f: ParsedFile| (f.path@, f.module_name@, strs(f.imports@), f.source@)) == parsed_oks(
                files@.take(i as int),
            ),
            strs(errors@) == parsed_errs(files@.take(i as int)),
            errors@.len() <= i,
    {
        let ghost t = files@.take(i + 1);
        assert(t.drop_last() == files@.take(i as int));
        assert(t.last() == files@[i as int]);
        let path = &files[i].0;
        let source = &files[i].1;
        let ghost p0 = parsed@;
        let ghost e0 = errors@;
        match parse_module(path.as_str(), source.as_str()) {
            Ok((name, imports)) => {
                let f = ParsedFile { path: path.clone(), module_name: name, imports, source: source.clone() };
                parsed.push(f);
                proof {
                    assert(parsed@.map_values(|f: ParsedFile| (f.path@, f.module_name@, strs(f.imports@), f.source@))
                        == p0.map_values(|f: ParsedFile| (f.path@, f.module_name@, strs(f.imports@), f.source@)).push(
                        (path@, name@, strs(imports@), source@),
                    ));
                }
            },
            Err(m) => {
                errors.push(m);
                proof {
                    assert(strs(errors@) == strs(e0).push(m@));
                }
            },
        }
    }
    assert(files@.take(files.len() as int) == files@);
    let n = errors.len();
    ParseResult { files: parsed, parse_error_count: n, parse_errors: errors }
}

/// The files that parse, with (path, module name, imports, source), in order.
pub open spec fn parsed_oks(files: Seq<(String, String)>) -> Seq<(Seq<char>, Seq<char>, Seq<Seq<char>>, Seq<char>)>
    decreases files.len(),
{
    if files.len() == 0 {
        Seq::empty()
    } else {
        let f = files.last();
        parsed_oks(files.drop_last()) + match parsed_file(f.0@, f.1@) {
            Ok(p) => seq![(f.0@, p.0, p.1, f.1@)],
            Err(_) => Seq::empty(),
        }
    }
}

/// The error reports of the files that do not parse, in order.
pub open spec fn parsed_errs(files: Seq<(String, String)>) -> Seq<Seq<char>>
    decreases files.len(),
{
    if files.len() == 0 {
        Seq::empty()
    } else {
        let f = files.last();
        parsed_errs(files.drop_last()) + match parsed_file(f.0@, f.1@) {
            Ok(_) => Seq::empty(),
            Err(m) => seq![m],
        }
    }
}

} // verus!

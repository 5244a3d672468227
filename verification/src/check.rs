//! The logic of `check`: reading the TypeScript compiler's diagnostics and
//! tracing them back to the component sources.
use vstd::prelude::*;
use crate::assemble::{first_cover, line_maps_in_range, mapped_line, BuildError, LineMapping, MappedJavaScript};
use crate::config::{plain_entry, Config};
use crate::log::{opt_str_view, opt_string_view, source_line_of, LineSpan, LogEntry, LogLevel, Logger};
use crate::paths::{
    opt_view, path_absolute, path_eq, path_is_absolute, path_join, path_joined, path_parent,
    path_parent_of, path_strip_prefix, path_stripped, paths_equal,
};
use crate::text::{
    ascii_word_bounds, ascii_words, chars_of, find, find_spec, lemma_find_from_bounds,
    lemma_rfind_char_bounds, owned, parse_usize, parse_usize_spec, range_eq, rfind_char,
    rfind_char_spec, string_of_range, trim, trim_spec, lines_of, lines_spec,
};

verus! {

broadcast use vstd::string::group_string_axioms;

/// A diagnostic line of the TypeScript compiler.
#[derive(Clone, Debug, PartialEq, Eq)]
pub struct TypeScriptDiagnostic {
    pub file: Option<String>,
    pub line: Option<usize>,
    pub column: Option<usize>,
    pub level: LogLevel,
    pub code: Option<String>,
    pub message: String,
}

/// The plain values of a [`TypeScriptDiagnostic`].
pub open spec fn ts_view(d: TypeScriptDiagnostic) -> (Option<Seq<char>>, Option<usize>, Option<usize>, LogLevel, Option<Seq<char>>, Seq<char>) {
    (opt_view(d.file), d.line, d.column, d.level, opt_view(d.code), d.message@)
}

/// The level that a compiler word names.
pub open spec fn level_of_word(w: Seq<char>) -> Option<LogLevel> {
    if w == "error"@ {
        Some(LogLevel::Error)
    } else if w == "warning"@ {
        Some(LogLevel::Warn)
    } else if w == "info"@ {
        Some(LogLevel::Info)
    } else {
        None
    }
}

/// `<level> [<code> ...]: <message>`: the level is the first word before the
/// first `": "`, the code the second word, if any.
pub open spec fn level_and_message_spec(s: Seq<char>) -> Option<(LogLevel, Option<Seq<char>>, Seq<char>)> {
    match find_spec(s, ": "@) {
        None => None,
        Some(i) => {
            let words = ascii_words(s.take(i));
            if words.len() == 0 {
                None
            } else {
                match level_of_word(words[0]) {
                    None => None,
                    Some(level) => Some(
                        (level, if words.len() > 1 { Some(words[1]) } else { None }, s.skip(i + 2)),
                    ),
                }
            }
        },
    }
}

/// The plain values of a parsed level, code and message.
pub open spec fn lcm_view(r: Option<(LogLevel, Option<String>, String)>) -> Option<(LogLevel, Option<Seq<char>>, Seq<char>)> {
    match r {
        None => None,
        Some((l, c, m)) => Some((l, opt_view(c), m@)),
    }
}

fn level_and_message_in(v: &[char], a: usize, e: usize) -> (r: Option<(LogLevel, Option<String>, String)>)
    requires
        a <= e <= v@.len(),
    ensures
        lcm_view(r) == level_and_message_spec(v@.subrange(a as int, e as int)),
{
    let ghost s = v@.subrange(a as int, e as int);
    proof {
        reveal_strlit(": ");
    }
    let sep = chars_of(": ");
    let local = v_slice(v, a, e);
    let i = match find(local.as_slice(), sep.as_slice()) {
        None => return None,
        Some(i) => i,
    };
    proof {
        lemma_find_from_bounds(s, ": "@, 0);
    }
    assert(local@ == s);
    let words = ascii_word_bounds(local.as_slice(), 0, i);
    assert(local@.subrange(0, i as int) == s.take(i as int));
    if words.len() == 0 {
        return None;
    }
    let (w0, w1) = words[0];
    assert(words@[0] == (w0, w1));
    let level = if range_eq(local.as_slice(), w0, w1, chars_of("error").as_slice()) {
        LogLevel::Error
    } else if range_eq(local.as_slice(), w0, w1, chars_of("warning").as_slice()) {
        LogLevel::Warn
    } else if range_eq(local.as_slice(), w0, w1, chars_of("info").as_slice()) {
        LogLevel::Info
    } else {
        return None;
    };
    let code = if words.len() > 1 {
        let (c0, c1) = words[1];
        assert(words@[1] == (c0, c1));
        Some(string_of_range(local.as_slice(), c0, c1))
    } else {
        None
    };
    let message = string_of_range(local.as_slice(), i + sep.len(), local.len());
    assert(local@.subrange(i + 2, local@.len() as int) == s.skip(i + 2));
    Some((level, code, message))
}

/// Copies `v[a..e]`.
fn v_slice(v: &[char], a: usize, e: usize) -> (r: Vec<char>)
    requires
        a <= e <= v@.len(),
    ensures
        r@ == v@.subrange(a as int, e as int),
{
    let mut r: Vec<char> = Vec::new();
    let mut i = a;
    while i < e
        invariant
            a <= i <= e <= v@.len(),
            r@ == v@.subrange(a as int, i as int),
        decreases e - i,
    {
        r.push(v[i]);
        assert(v@.subrange(a as int, i + 1) == v@.subrange(a as int, i as int).push(v@[i as int]));
        i = i + 1;
    }
    r
}

/// Reads `<level> [<code>]: <message>`.
pub fn parse_level_and_message(source: &str) -> (r: Option<(LogLevel, Option<String>, String)>)
    ensures
        lcm_view(r) == level_and_message_spec(source@),
{
    let v = chars_of(source);
    assert(v@.subrange(0, v@.len() as int) == v@);
    level_and_message_in(v.as_slice(), 0, v.len())
}

/// The diagnostic with a location: `location` ends in `(<line>,<column>`,
/// its `(` at `o`, and `rest` follows the location's `"): "`.
pub open spec fn located_spec(location: Seq<char>, o: int, rest: Seq<char>) -> Option<(Option<Seq<char>>, Option<usize>, Option<usize>, LogLevel, Option<Seq<char>>, Seq<char>)> {
    let inner = location.skip(o + 1);
    match find_spec(inner, ","@) {
        None => None,
        Some(c) => match (parse_usize_spec(inner.take(c)), parse_usize_spec(inner.skip(c + 1))) {
            (Some(line), Some(column)) => match level_and_message_spec(rest) {
                None => None,
                Some((level, code, message)) => Some(
                    (Some(location.take(o)), Some(line), Some(column), level, code, message),
                ),
            },
            _ => None,
        },
    }
}

/// A compiler diagnostic line: `<file>(<line>,<column>): <level> [<code>]:
/// <message>`, or the part after the location alone.  The file is what
/// precedes the last `(` before the first `"): "`, so it may itself hold
/// parentheses.
pub open spec fn ts_diagnostic_spec(s: Seq<char>) -> Option<(Option<Seq<char>>, Option<usize>, Option<usize>, LogLevel, Option<Seq<char>>, Seq<char>)> {
    let fallback = match level_and_message_spec(s) {
        None => None,
        Some((level, code, message)) => Some((None, None, None, level, code, message)),
    };
    match find_spec(s, "): "@) {
        None => fallback,
        Some(i) => match rfind_char_spec(s.take(i), '(') {
            None => fallback,
            Some(o) => located_spec(s.take(i), o, s.skip(i + 3)),
        },
    }
}

/// The plain values of an optional [`TypeScriptDiagnostic`].
pub open spec fn opt_ts_view(r: Option<TypeScriptDiagnostic>) -> Option<(Option<Seq<char>>, Option<usize>, Option<usize>, LogLevel, Option<Seq<char>>, Seq<char>)> {
    match r {
        None => None,
        Some(d) => Some(ts_view(d)),
    }
}

fn located_diagnostic(s: &[char], i: usize, o: usize) -> (r: Option<TypeScriptDiagnostic>)
    requires
        o < i,
        i + 3 <= s.len(),
    ensures
        opt_ts_view(r) == located_spec(s@.take(i as int), o as int, s@.skip(i + 3)),
{
    proof {
        reveal_strlit(",");
    }
    let ghost location = s@.take(i as int);
    let inner = v_slice(s, o + 1, i);
    assert(inner@ == location.skip(o + 1));
    let comma = chars_of(",");
    let c = match find(inner.as_slice(), comma.as_slice()) {
        Some(c) => c,
        None => return None,
    };
    proof {
        lemma_find_from_bounds(inner@, ","@, 0);
    }
    assert(inner@.subrange(0, c as int) == inner@.take(c as int));
    assert(inner@.subrange(c + 1, inner@.len() as int) == inner@.skip(c + 1));
    let line = match parse_usize(inner.as_slice(), 0, c) {
        Some(l) => l,
        None => return None,
    };
    let column = match parse_usize(inner.as_slice(), c + 1, inner.len()) {
        Some(col) => col,
        None => return None,
    };
    let (level, code, message) = match level_and_message_in(s, i + 3, s.len()) {
        Some(t) => t,
        None => return None,
    };
    assert(s@.subrange(i + 3, s@.len() as int) == s@.skip(i + 3));
    assert(s@.subrange(0, o as int) == location.take(o as int));
    let file = Some(string_of_range(s, 0, o));
    Some(TypeScriptDiagnostic { file, line: Some(line), column: Some(column), level, code, message })
}

/// Reads one line of the compiler's output.
pub fn parse_typescript_diagnostic(source: &str) -> (r: Option<TypeScriptDiagnostic>)
    ensures
        opt_ts_view(r) == ts_diagnostic_spec(source@),
{
    proof {
        reveal_strlit("): ");
    }
    let v = chars_of(source);
    let s = v.as_slice();
    let n = v.len();
    assert(v@.subrange(0, n as int) == v@);
    let close = chars_of("): ");
    match find(s, close.as_slice()) {
        Some(i) => {
            proof {
                lemma_find_from_bounds(source@, "): "@, 0);
            }
            match rfind_char(s, i, '(') {
                Some(o) => {
                    proof {
                        lemma_rfind_char_bounds(v@.take(i as int), '(');
                    }
                    return located_diagnostic(s, i, o);
                },
                None => {},
            }
        },
        None => {},
    }
    match level_and_message_in(s, 0, n) {
        Some((level, code, message)) => Some(
            TypeScriptDiagnostic { file: None, line: None, column: None, level, code, message },
        ),
        None => None,
    }
}

/// The diagnostics among `lines`, in their order: the lines that
/// [`ts_diagnostic_spec`] reads as one.
pub open spec fn ts_diagnostics_of(lines: Seq<Seq<char>>) -> Seq<(Option<Seq<char>>, Option<usize>, Option<usize>, LogLevel, Option<Seq<char>>, Seq<char>)>
    decreases lines.len(),
{
    if lines.len() == 0 {
        Seq::empty()
    } else {
        let before = ts_diagnostics_of(lines.drop_last());
        match ts_diagnostic_spec(lines.last()) {
            Some(d) => before.push(d),
            None => before,
        }
    }
}

/// The diagnostics that the compiler printed: the lines of its standard
/// output, then those of its standard error, each read with
/// [`parse_typescript_diagnostic`], keeping those that are diagnostics.
pub fn typescript_diagnostics(stdout: &str, stderr: &str) -> (r: Vec<TypeScriptDiagnostic>)
    ensures
        r@.map_values(|d: TypeScriptDiagnostic| ts_view(d)) == ts_diagnostics_of(
            lines_spec(stdout@) + lines_spec(stderr@),
        ),
{
    let out = lines_of(stdout);
    let err = lines_of(stderr);
    let ghost first = lines_spec(stdout@);
    let ghost second = lines_spec(stderr@);
    let mut r: Vec<TypeScriptDiagnostic> = Vec::new();
    let mut i: usize = 0;
    while i < out.len()
        invariant
            out@.len() == first.len(),
            forall|j: int| 0 <= j < out@.len() ==> #[trigger] out@[j]@ == first[j],
            i <= out@.len(),
            r@.map_values(|d: TypeScriptDiagnostic| ts_view(d)) == ts_diagnostics_of(first.take(i as int)),
        decreases out@.len() - i,
    {
        let ghost before = r@;
        let d = parse_typescript_diagnostic(out[i].as_str());
        assert(first.take(i + 1).drop_last() =~= first.take(i as int));
        assert(first.take(i + 1).last() == out@[i as int]@);
        match d {
            Some(d) => {
                r.push(d);
                assert(r@.map_values(|d: TypeScriptDiagnostic| ts_view(d)) =~= before.map_values(
                    |d: TypeScriptDiagnostic| ts_view(d),
                ).push(ts_view(d)));
            },
            None => {},
        }
        i += 1;
    }
    assert(first.take(i as int) =~= first + second.take(0));
    let mut k: usize = 0;
    while k < err.len()
        invariant
            err@.len() == second.len(),
            forall|j: int| 0 <= j < err@.len() ==> #[trigger] err@[j]@ == second[j],
            k <= err@.len(),
            r@.map_values(|d: TypeScriptDiagnostic| ts_view(d)) == ts_diagnostics_of(first + second.take(k as int)),
        decreases err@.len() - k,
    {
        let ghost before = r@;
        let d = parse_typescript_diagnostic(err[k].as_str());
        assert((first + second.take(k + 1)).drop_last() =~= first + second.take(k as int));
        assert((first + second.take(k + 1)).last() == err@[k as int]@);
        match d {
            Some(d) => {
                r.push(d);
                assert(r@.map_values(|d: TypeScriptDiagnostic| ts_view(d)) =~= before.map_values(
                    |d: TypeScriptDiagnostic| ts_view(d),
                ).push(ts_view(d)));
            },
            None => {},
        }
        k += 1;
    }
    assert(second.take(k as int) =~= second);
    r
}

/// `config_path`'s directory, or `.` where it has none.
pub open spec fn config_dir(config_path: Seq<char>) -> Seq<char> {
    match path_parent_of(config_path) {
        Some(p) => p,
        None => "."@,
    }
}

/// The directory of the configuration file, which `check` takes as the
/// project root: the parent of `config_path`, or `.` where it has none.
pub fn config_directory(config_path: &str) -> (r: String)
    ensures
        r@ == config_dir(config_path@),
{
    match path_parent(config_path) {
        Some(p) => p,
        None => owned("."),
    }
}

/// The TypeScript compiler to run: `tsc` from `PATH` unless one is
/// configured; a configured relative path is resolved from the directory
/// of the configuration file.
pub fn typescript_command(config_path: &str, configured: Option<&str>) -> (r: String)
    ensures
        configured is None ==> r@ == "tsc"@,
        configured matches Some(c) ==> r@ == if path_absolute(c@) {
            c@
        } else {
            path_joined(config_dir(config_path@), c@)
        },
{
    match configured {
        None => owned("tsc"),
        Some(c) => {
            if path_is_absolute(c) {
                owned(c)
            } else {
                let dir = config_directory(config_path);
                path_join(dir.as_str(), c)
            }
        },
    }
}

/// `left` names the file `right`, directly or relative to
/// `working_directory`.
pub open spec fn path_matches_spec(left: Seq<char>, right: Seq<char>, working_directory: Seq<char>) -> bool {
    paths_equal(left, right) || (!path_absolute(left) && paths_equal(path_joined(working_directory, left), right))
}

/// `left` names the file `right`, directly or relative to
/// `working_directory`.
pub fn path_matches(left: &str, right: &str, working_directory: &str) -> (b: bool)
    ensures
        b == path_matches_spec(left@, right@, working_directory@),
{
    if path_eq(left, right) {
        return true;
    }
    if path_is_absolute(left) {
        return false;
    }
    let joined = path_join(working_directory, left);
    path_eq(joined.as_str(), right)
}

/// How a compiler-reported path is shown: resolved from the working
/// directory, then relative to the project root where it lies inside it.
pub open spec fn display_path_spec(path: Seq<char>, project_root: Seq<char>, working_directory: Seq<char>) -> Seq<char> {
    let full = if path_absolute(path) {
        path
    } else {
        path_joined(working_directory, path)
    };
    match path_stripped(full, project_root) {
        Some(rel) => rel,
        None => full,
    }
}

/// How a compiler-reported path is shown: resolved from the working
/// directory, then relative to the project root where it lies inside it.
pub fn display_source_path(path: &str, project_root: &str, working_directory: &str) -> (r: String)
    ensures
        r@ == display_path_spec(path@, project_root@, working_directory@),
{
    let full = if path_is_absolute(path) {
        owned(path)
    } else {
        path_join(working_directory, path)
    };
    match path_strip_prefix(full.as_str(), project_root) {
        Some(rel) => rel,
        None => full,
    }
}

/// The directory the checker runs in: that of the target file under the
/// project root, or the project root where no target is configured.
pub open spec fn checker_dir_spec(config_path: Seq<char>, target: Option<Seq<char>>) -> Seq<char> {
    let root = config_dir(config_path);
    match target {
        Some(t) => match path_parent_of(t) {
            Some(parent) => path_joined(root, parent),
            None => root,
        },
        None => root,
    }
}

/// The directory the TypeScript compiler runs in, where the temporary
/// files are written.
pub fn checker_directory(config: &Config) -> (r: String)
    ensures
        r@ == checker_dir_spec(config.path@, opt_view(config.target.path)),
{
    let root = match path_parent(config.path.as_str()) {
        Some(p) => p,
        None => owned("."),
    };
    match &config.target.path {
        Some(t) => match path_parent(t.as_str()) {
            Some(parent) => path_join(root.as_str(), parent.as_str()),
            None => root,
        },
        None => root,
    }
}

/// The message about a missing `[check].target`.
pub open spec fn missing_target_message() -> Seq<char> {
    "Missing required [check].target setting."@
}

/// The help about a missing `[check].target`.
pub open spec fn missing_target_note() -> Seq<char> {
    "Set [check].target to the ECMAScript version supported by the project, for example target = \"es2022\"."@
}

/// `check` needs an explicit, non-empty `[check].target`; its absence is
/// reported as an error.
pub fn check_target(log: &mut Logger, config: &Config) -> (r: Result<(), BuildError>)
    ensures
        r is Err <==> match config.check.target {
            None => true,
            Some(t) => t@.len() == 0,
        },
        r is Err ==> final(log).entries().len() == old(log).entries().len() + 1 && final(log).entries().drop_last()
            == old(log).entries() && plain_entry(
            final(log).entries().last(),
            LogLevel::Error,
            missing_target_message(),
            missing_target_note(),
        ),
        r is Ok ==> final(log).entries() == old(log).entries(),
        final(log).spec_format() == old(log).spec_format(),
{
    let missing = match &config.check.target {
        None => true,
        Some(t) => t.as_str().unicode_len() == 0,
    };
    if missing {
        log.log(
            None,
            LogEntry {
                level: LogLevel::Error,
                span: None,
                message: owned("Missing required [check].target setting."),
                note: Some(
                    "Set [check].target to the ECMAScript version supported by the project, for example target = \"es2022\".",
                ),
            },
        );
        Err(BuildError)
    } else {
        Ok(())
    }
}

/// The module script as the compiler checks it: the assembled script,
/// ended by a line break, followed by `export {};` so that it is read as a
/// module.
pub fn checker_javascript(source: &str) -> (r: String)
    ensures
        r@ == (if source@.len() > 0 && source@.last() == '\n' {
            source@
        } else {
            source@.push('\n')
        }) + "export {};\n"@,
{
    let v = chars_of(source);
    let mut r = owned(source);
    if !(v.len() > 0 && v[v.len() - 1] == '\n') {
        crate::text::push_char(&mut r, '\n');
    }
    r.append("export {};\n");
    r
}

/// The arguments of the compiler run: no output, JavaScript checked with
/// implicit `any` allowed, the given ECMAScript target, then the
/// declarations and the script.
pub fn typescript_arguments(target: &str, declarations_path: &str, javascript_path: &str) -> (r: Vec<String>)
    ensures
        r@.map_values(|a: String| a@) == seq![
            "--pretty"@,
            "false"@,
            "--noEmit"@,
            "--allowJs"@,
            "--checkJs"@,
            "--noImplicitAny"@,
            "false"@,
            "--noImplicitThis"@,
            "true"@,
            "--target"@,
            target@,
            "--module"@,
            "esnext"@,
            "--moduleResolution"@,
            "bundler"@,
            "--skipLibCheck"@,
            declarations_path@,
            javascript_path@,
        ],
{
    let mut r: Vec<String> = Vec::new();
    r.push(owned("--pretty"));
    r.push(owned("false"));
    r.push(owned("--noEmit"));
    r.push(owned("--allowJs"));
    r.push(owned("--checkJs"));
    r.push(owned("--noImplicitAny"));
    r.push(owned("false"));
    r.push(owned("--noImplicitThis"));
    r.push(owned("true"));
    r.push(owned("--target"));
    r.push(owned(target));
    r.push(owned("--module"));
    r.push(owned("esnext"));
    r.push(owned("--moduleResolution"));
    r.push(owned("bundler"));
    r.push(owned("--skipLibCheck"));
    r.push(owned(declarations_path));
    r.push(owned(javascript_path));
    assert(r@.map_values(|a: String| a@) =~= seq![
        "--pretty"@,
        "false"@,
        "--noEmit"@,
        "--allowJs"@,
        "--checkJs"@,
        "--noImplicitAny"@,
        "false"@,
        "--noImplicitThis"@,
        "true"@,
        "--target"@,
        target@,
        "--module"@,
        "esnext"@,
        "--moduleResolution"@,
        "bundler"@,
        "--skipLibCheck"@,
        declarations_path@,
        javascript_path@,
    ]);
    r
}

/// The error reported when the compiler failed without a diagnostic that
/// could be read: none when it succeeded or reported one.
pub open spec fn failure_message(success: bool, parsed: nat, stdout: Seq<char>, stderr: Seq<char>, status: Seq<char>) -> Option<Seq<char>> {
    if success || parsed > 0 {
        None
    } else {
        let details = if trim_spec(stderr).len() == 0 {
            trim_spec(stdout)
        } else {
            trim_spec(stderr)
        };
        Some(
            if details.len() == 0 {
                "TypeScript exited with status "@ + status + " without reporting a diagnostic."@
            } else {
                "TypeScript failed: "@ + details
            },
        )
    }
}

/// The message about a compiler run that failed without a readable
/// diagnostic: the trimmed error output, else the trimmed standard output,
/// else the exit status.
pub fn typescript_failure(success: bool, parsed: usize, stdout: &str, stderr: &str, status: &str) -> (r: Option<String>)
    ensures
        opt_view(r) == failure_message(success, parsed as nat, stdout@, stderr@, status@),
{
    if success || parsed > 0 {
        return None;
    }
    let err = trim(stderr);
    let details = if err.as_str().unicode_len() == 0 {
        trim(stdout)
    } else {
        err
    };
    if details.as_str().unicode_len() == 0 {
        let mut m = owned("TypeScript exited with status ");
        m.append(status);
        m.append(" without reporting a diagnostic.");
        Some(m)
    } else {
        let mut m = owned("TypeScript failed: ");
        m.append(details.as_str());
        Some(m)
    }
}

/// Where a compiler diagnostic points: a location in the checked script
/// is traced back through the script's line map (to no location where no
/// mapping covers the line), and another file is shown relative to the
/// project root.
pub open spec fn ts_location_spec(
    ms: Seq<LineMapping>,
    project_root: Seq<char>,
    working_directory: Seq<char>,
    javascript_path: Seq<char>,
    file: Option<Seq<char>>,
    line: Option<usize>,
    column: Option<usize>,
) -> (Option<Seq<char>>, Option<usize>, Option<usize>) {
    match (file, line) {
        (Some(f), Some(l)) => if path_matches_spec(f, javascript_path, working_directory) {
            match first_cover(ms, l) {
                Some(i) => (
                    Some(ms[i].source_file@),
                    Some(mapped_line(ms[i], l) as usize),
                    match column {
                        Some(c) => Some((c + ms[i].source_column_offset) as usize),
                        None => None,
                    },
                ),
                None => (None, None, column),
            }
        } else {
            (Some(display_path_spec(f, project_root, working_directory)), Some(l), column)
        },
        _ => (file, line, column),
    }
}

/// The location of a compiler diagnostic, traced back to the component
/// sources (see [`ts_location_spec`]).
pub fn resolve_typescript_location(
    javascript: &MappedJavaScript,
    project_root: &str,
    working_directory: &str,
    javascript_path: &str,
    diagnostic: &TypeScriptDiagnostic,
) -> (r: (Option<String>, Option<usize>, Option<usize>))
    requires
        diagnostic.line matches Some(l) ==> line_maps_in_range(javascript.mappings@, l) && (
        diagnostic.column matches Some(c) ==> (first_cover(javascript.mappings@, l) matches Some(i)
            ==> c + javascript.mappings@[i].source_column_offset <= usize::MAX)),
    ensures
        (opt_view(r.0), r.1, r.2) == ts_location_spec(
            javascript.mappings@,
            project_root@,
            working_directory@,
            javascript_path@,
            opt_view(diagnostic.file),
            diagnostic.line,
            diagnostic.column,
        ),
{
    match (&diagnostic.file, diagnostic.line) {
        (Some(f), Some(l)) => {
            if path_matches(f.as_str(), javascript_path, working_directory) {
                let positioned = match diagnostic.column {
                    Some(c) => javascript.map_position(l, c),
                    None => None,
                };
                match positioned {
                    Some((file, line, column)) => (Some(owned(file)), Some(line), Some(column)),
                    None => match javascript.map_line(l) {
                        Some((file, line)) => (Some(owned(file)), Some(line), diagnostic.column),
                        None => (None, None, diagnostic.column),
                    },
                }
            } else {
                (Some(display_source_path(f.as_str(), project_root, working_directory)), Some(l), diagnostic.column)
            }
        },
        _ => (
            match &diagnostic.file {
                Some(f) => Some(owned(f.as_str())),
                None => None,
            },
            diagnostic.line,
            diagnostic.column,
        ),
    }
}

/// Logs a compiler diagnostic at `location`, with `source` the contents of
/// the file it names; a location with a file, line and column becomes a
/// one-column span.
pub fn report_typescript_diagnostic(
    log: &mut Logger,
    location: (Option<String>, Option<usize>, Option<usize>),
    source: Option<&str>,
    diagnostic: TypeScriptDiagnostic,
)
    requires
        location.0 is Some && location.1 is Some ==> location.2 != Some(usize::MAX),
    ensures
        final(log).entries().len() == old(log).entries().len() + 1,
        final(log).entries().drop_last() == old(log).entries(),
        ({
            let d = final(log).entries().last();
            &&& d.level == diagnostic.level
            &&& d.code == diagnostic.code
            &&& d.message == diagnostic.message
            &&& d.note is None
            &&& match location {
                (Some(file), Some(line), Some(column)) => {
                    &&& d.span matches Some(ds)
                    &&& ds.file@ == file@
                    &&& ds.line_start == line
                    &&& ds.line_end == line
                    &&& ds.column_start == (if column == 0 {
                        1
                    } else {
                        column as int
                    })
                    &&& ds.column_end == column + 1
                    &&& opt_string_view(d.source_line) == source_line_of(opt_str_view(source), line)
                },
                _ => d.span is None && d.source_line is None,
            }
        }),
        final(log).spec_format() == old(log).spec_format(),
{
    let span = match (&location.0, location.1, location.2) {
        (Some(file), Some(line), Some(column)) => Some(
            LineSpan {
                file: file.as_str(),
                line_start: line,
                line_end: line,
                column_start: if column == 0 {
                    0
                } else {
                    column - 1
                },
                column_end: column,
            },
        ),
        _ => None,
    };
    log.log_with_code(
        source,
        LogEntry { level: diagnostic.level, span, message: diagnostic.message, note: None },
        diagnostic.code,
    );
}

/// The declarations handed to the compiler with the module script: the
/// part of the global-runtime `Vue` object that the checker models.
pub const PRELUDE: &'static str = r#"// Checker-only declarations for the global-runtime Vue object.
declare global {
	type VuePropType<T> =
		T extends StringConstructor ? string :
		T extends NumberConstructor ? number :
		T extends BooleanConstructor ? boolean :
		T extends ArrayConstructor ? any[] :
		T extends ObjectConstructor ? Record<string, any> :
		T extends FunctionConstructor ? (...args: any[]) => any :
		T extends readonly (infer U)[] ? VuePropType<U> :
		T extends abstract new (...args: any[]) => infer I ? I :
		any;

	type VueProps<P> =
		P extends readonly (infer N extends string)[] ? { readonly [K in N]: any } :
		{ readonly [K in keyof P]: P[K] extends { type: infer T } ? VuePropType<T> : VuePropType<P[K]> };

	type VueComputed<C> = {
		readonly [K in keyof C]: C[K] extends (...args: any[]) => infer R ? R :
			C[K] extends { get(): infer G } ? G :
			any;
	};

	type VueEmitName<E> =
		E extends readonly (infer N extends string)[] ? N :
		E extends Record<infer N extends string, any> ? N :
		string;

	interface VueInstanceGlobals<E> {
		$el: any;
		$refs: Record<string, any>;
		$props: Record<string, any>;
		$attrs: Record<string, any>;
		$slots: Record<string, any>;
		$parent: any;
		$root: any;
		$emit(event: VueEmitName<E>, ...args: any[]): void;
		$nextTick(callback?: () => void): Promise<void>;
		$forceUpdate(): void;
		$watch(source: string | ((...args: any[]) => any), callback: (...args: any[]) => any, options?: any): () => void;
	}

	type VueInstance<P, D, C, M, E> = VueProps<P> & D & VueComputed<C> & M & VueInstanceGlobals<E>;

	interface VueComponentOptions<P, D, C, M, E> {
		name?: string;
		template?: string;
		components?: Record<string, any>;
		props?: P;
		emits?: E;
		data?: (this: VueProps<P> & VueInstanceGlobals<E>) => D;
		computed?: C & ThisType<VueInstance<P, D, C, M, E>>;
		methods?: M & ThisType<VueInstance<P, D, C, M, E>>;
		watch?: Record<string, any> & ThisType<VueInstance<P, D, C, M, E>>;
		[option: string]: any;
	}

	const Vue: {
		defineComponent<P = {}, D = {}, C = {}, M = {}, E = string[]>(
			options: VueComponentOptions<P, D, C, M, E> & ThisType<VueInstance<P, D, C, M, E>>,
		): VueComponentOptions<P, D, C, M, E>;
		createApp(root?: any, rootProps?: Record<string, any>): any;
		[api: string]: any;
	};
}

export {};
"#;

} // verus!

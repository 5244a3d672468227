//! The project configuration file and the watch rules of `serve`.
use vstd::prelude::*;
use crate::log::{entry_fits, records, LogEntry, LogLevel, Logger};
use crate::paths::{path_components, path_parts_of, PathPart};
use crate::text::{join_slash, owned, parse_str, push_char, str_eq, trim_quotes_spec};

verus! {

broadcast use vstd::string::group_string_axioms;

/// The name of the configuration file, found in the project root.
pub const CONFIG_FILE: &'static str = "vue-script.toml";

/// `[app]`: the page template and the main component.
#[derive(Clone, Debug)]
pub struct ConfigApp {
    pub page: String,
    pub main: String,
}

/// `[target]`: where the built page is written.
#[derive(Clone, Debug)]
pub struct ConfigTarget {
    pub path: Option<String>,
}

/// `[check]`: the ECMAScript target and the TypeScript compiler of `check`.
#[derive(Clone, Debug)]
pub struct ConfigCheck {
    pub target: Option<String>,
    pub typescript: Option<String>,
}

impl ConfigCheck {
    pub fn default() -> (r: ConfigCheck)
        ensures
            r.target is None,
            r.typescript is None,
    {
        ConfigCheck { target: None, typescript: None }
    }
}

/// One glob rule of `[serve].watch`; the last rule that matches a changed
/// path decides whether it triggers a rebuild.
#[derive(Clone, Debug)]
pub struct ServeWatchRule {
    /// The glob pattern.
    pub pattern: String,
    /// A match triggers a rebuild (otherwise it suppresses one).
    pub rebuild: bool,
    /// The rule was written in the configuration file.
    pub explicit: bool,
}

/// `[serve]`: the watch rules.
#[derive(Clone, Debug)]
pub struct ConfigServe {
    pub watch: Vec<ServeWatchRule>,
}

impl ConfigServe {
    pub fn default() -> (r: ConfigServe)
        ensures
            r.watch@.len() == 0,
    {
        ConfigServe { watch: Vec::new() }
    }
}

/// The project configuration.
#[derive(Clone, Debug)]
pub struct Config {
    /// The path of the configuration file.
    pub path: String,
    pub app: ConfigApp,
    pub target: ConfigTarget,
    pub check: ConfigCheck,
    pub serve: ConfigServe,
}

/// Why the configuration could not be loaded.
#[derive(Copy, Clone, Debug, PartialEq, Eq, Structural)]
pub enum ConfigErrorKind {
    NotFound,
    InvalidInput,
}

/// A configuration error.
#[derive(Clone, Debug)]
pub struct ConfigError {
    pub kind: ConfigErrorKind,
    pub message: String,
}

impl ConfigError {
    pub fn kind(&self) -> (k: ConfigErrorKind)
        ensures
            k == self.kind,
    {
        self.kind
    }
}

// ---------------------------------------------------------------------------
// Outside crates: ini_core and glob.

/// One line of an INI document.
#[derive(Clone, Debug, PartialEq, Eq)]
pub enum IniItem {
    Error(String),
    Section(String),
    SectionEnd,
    Property(String, Option<String>),
    Comment(String),
    Blank,
}

/// The items that `ini_core::Parser` with `auto_trim(true)` yields for a
/// document.
pub uninterp spec fn ini_items_of(contents: Seq<char>) -> Seq<IniItem>;

/// The message of the error that `glob::Pattern::new` returns for a pattern,
/// or `None` where the pattern compiles.
pub uninterp spec fn glob_error_of(pattern: Seq<char>) -> Option<Seq<char>>;

/// What `glob::Pattern::matches` returns for a compiled pattern and a path.
pub uninterp spec fn glob_pattern_matches(pattern: Seq<char>, path: Seq<char>) -> bool;

/// `glob::Pattern::escape`: every `?`, `*`, `[` and `]` wrapped in brackets.
pub open spec fn glob_escape_spec(s: Seq<char>) -> Seq<char>
    decreases s.len(),
{
    if s.len() == 0 {
        Seq::empty()
    } else {
        let c = s.last();
        glob_escape_spec(s.drop_last()) + if c == '?' || c == '*' || c == '[' || c == ']' {
            seq!['[', c, ']']
        } else {
            seq![c]
        }
    }
}

/// Reads an INI document with `ini_core::Parser` in `auto_trim` mode (keys,
/// values, sections and comments trimmed of ASCII whitespace).
#[verifier::external_body]
fn ini_items(contents: &str) -> (r: Vec<IniItem>)
    ensures
        r@ == ini_items_of(contents@),
{
    ini_core::Parser::new(contents).auto_trim(true).map(|item| match item {
        ini_core::Item::Error(e) => IniItem::Error(e.to_string()),
        ini_core::Item::Section(s) => IniItem::Section(s.to_string()),
        ini_core::Item::SectionEnd => IniItem::SectionEnd,
        ini_core::Item::Property(k, v) => IniItem::Property(k.to_string(), v.map(str::to_string)),
        ini_core::Item::Comment(c) => IniItem::Comment(c.to_string()),
        ini_core::Item::Blank => IniItem::Blank,
    }).collect()
}

/// Compiles a glob pattern with `glob::Pattern::new` and returns the error
/// message, or `None` where it compiles.
#[verifier::external_body]
fn glob_error(pattern: &str) -> (r: Option<String>)
    ensures
        r matches Some(m) ==> glob_error_of(pattern@) == Some(m@),
        r is None ==> glob_error_of(pattern@) is None,
{
    glob::Pattern::new(pattern).err().map(|e| e.msg.to_string())
}

/// `glob::Pattern::matches` on the compiled `pattern`; `false` where the
/// pattern does not compile.
#[verifier::external_body]
fn glob_matches(pattern: &str, path: &str) -> (r: bool)
    ensures
        r == (glob_error_of(pattern@) is None && glob_pattern_matches(pattern@, path@)),
{
    match glob::Pattern::new(pattern) {
        Ok(p) => p.matches(path),
        Err(_) => false,
    }
}

/// `s` holds neither `/` nor `\\`, the characters that some platforms
/// take as path separators.
pub open spec fn no_separator(s: Seq<char>) -> bool {
    forall|i: int| 0 <= i < s.len() ==> s[i] != '/' && s[i] != '\\'
}

/// `glob::Pattern::escape`: every `?`, `*`, `[` and `]` wrapped in
/// brackets.  The result compiles and matches the input.  Matching compares
/// characters one for one, except that on Windows `/` and `\\` match each
/// other; so of the paths without either character it matches the input
/// and no other.
#[verifier::external_body]
fn glob_escape(s: &str) -> (r: String)
    ensures
        r@ == glob_escape_spec(s@),
        glob_error_of(r@) is None,
        glob_pattern_matches(r@, s@),
        forall|p: Seq<char>| no_separator(p) ==> (#[trigger] glob_pattern_matches(r@, p) <==> p == s@),
{
    glob::Pattern::escape(s)
}

// ---------------------------------------------------------------------------
// Watch rules.

/// The rule's pattern compiles and matches `path`.
pub open spec fn rule_matches(rule: ServeWatchRule, path: Seq<char>) -> bool {
    glob_error_of(rule.pattern@) is None && glob_pattern_matches(rule.pattern@, path)
}

/// Whether a change of `path` triggers a rebuild: the `rebuild` flag of the
/// last rule that matches, or `false` where none does.
pub open spec fn watch_decision(rules: Seq<ServeWatchRule>, path: Seq<char>) -> bool {
    watch_decision_from(rules, path, false)
}

/// Number of rules written in the configuration file.
pub open spec fn explicit_count(rules: Seq<ServeWatchRule>) -> nat
    decreases rules.len(),
{
    if rules.len() == 0 {
        0
    } else {
        explicit_count(rules.drop_last()) + if rules.last().rebuild && rules.last().explicit {
            1nat
        } else {
            0nat
        }
    }
}

/// A path relative to the project root, with `.` components dropped and
/// `/` as separator; `None` for a path with a root or a prefix.
pub open spec fn normalized_parts(parts: Seq<PathPart>) -> Option<Seq<Seq<char>>>
    decreases parts.len(),
{
    if parts.len() == 0 {
        Some(Seq::empty())
    } else {
        match normalized_parts(parts.drop_last()) {
            None => None,
            Some(prev) => match parts.last() {
                PathPart::CurDir => Some(prev),
                PathPart::Normal(n) => Some(prev.push(n@)),
                PathPart::ParentDir => Some(prev.push(seq!['.', '.'])),
                _ => None,
            },
        }
    }
}

/// The normalized form of a relative path.
pub open spec fn normalized_path(path: Seq<char>) -> Option<Seq<char>> {
    match normalized_parts(path_parts_of(path)) {
        Some(parts) => Some(join_slash(parts)),
        None => None,
    }
}

proof fn lemma_normalized_none_extends(parts: Seq<PathPart>, i: int)
    requires
        0 <= i <= parts.len(),
        normalized_parts(parts.take(i)) is None,
    ensures
        normalized_parts(parts) is None,
    decreases parts.len() - i,
{
    if i == parts.len() {
        assert(parts.take(i) == parts);
    } else {
        assert(parts.take(i + 1).drop_last() == parts.take(i));
        lemma_normalized_none_extends(parts, i + 1);
    }
}

/// Normalizes a path relative to the project root.
pub fn normalize_relative_path(path: &str) -> (r: Option<String>)
    ensures
        r matches Some(s) ==> normalized_path(path@) == Some(s@),
        r is None ==> normalized_path(path@) is None,
{
    let parts = path_components(path);
    let mut out = String::new();
    let mut count: usize = 0;
    let mut i: usize = 0;
    while i < parts.len()
        invariant
            i <= parts@.len(),
            count <= i,
            parts@ == path_parts_of(path@),
            normalized_parts(parts@.take(i as int)) matches Some(ps) && ps.len() == count && join_slash(ps) == out@,
        decreases parts.len() - i,
    {
        let ghost ps = normalized_parts(parts@.take(i as int))->Some_0;
        assert(parts@.take(i + 1).drop_last() == parts@.take(i as int));
        assert(parts@.take(i + 1).last() == parts@[i as int]);
        match &parts[i] {
            PathPart::CurDir => {},
            PathPart::Normal(n) => {
                if count > 0 {
                    push_char(&mut out, '/');
                }
                out.append(n.as_str());
                proof {
                    if count > 0 {
                        assert(ps.push(n@).drop_last() == ps);
                    } else {
                        assert(ps.push(n@).len() == 1);
                    }
                }
                count = count + 1;
            },
            PathPart::ParentDir => {
                if count > 0 {
                    push_char(&mut out, '/');
                }
                push_char(&mut out, '.');
                push_char(&mut out, '.');
                proof {
                    let dots = seq!['.', '.'];
                    if count > 0 {
                        assert(ps.push(dots).drop_last() == ps);
                    } else {
                        assert(ps.push(dots).len() == 1);
                    }
                }
                count = count + 1;
            },
            _ => {
                proof {
                    lemma_normalized_none_extends(parts@, i + 1);
                }
                return None;
            },
        }
        i = i + 1;
    }
    assert(parts@.take(parts@.len() as int) == parts@);
    Some(out)
}


impl ConfigServe {
    /// Number of watch rules written in the configuration file.
    pub fn explicit_watch_count(&self) -> (n: usize)
        ensures
            n == explicit_count(self.watch@),
    {
        let mut n: usize = 0;
        let mut i: usize = 0;
        while i < self.watch.len()
            invariant
                i <= self.watch@.len(),
                n <= i,
                n == explicit_count(self.watch@.take(i as int)),
            decreases self.watch.len() - i,
        {
            assert(self.watch@.take(i + 1).drop_last() == self.watch@.take(i as int));
            if self.watch[i].rebuild && self.watch[i].explicit {
                n = n + 1;
            }
            i = i + 1;
        }
        assert(self.watch@.take(self.watch@.len() as int) == self.watch@);
        n
    }

    /// Whether a change of `path`, relative to the project root, triggers a
    /// rebuild.
    pub fn matches_relative_path(&self, path: &str) -> (b: bool)
        ensures
            b == (normalized_path(path@) matches Some(rel) && watch_decision(self.watch@, rel)),
    {
        let relative_path = match normalize_relative_path(path) {
            Some(r) => r,
            None => return false,
        };
        let mut should_rebuild = false;
        let mut i: usize = 0;
        proof {
            assert forall|rules: Seq<ServeWatchRule>|
                #[trigger] watch_decision_from(self.watch@.take(0) + rules, relative_path@, false)
                    == watch_decision_from(rules, relative_path@, false) by {
                assert(self.watch@.take(0) + rules == rules);
            }
        }
        while i < self.watch.len()
            invariant
                i <= self.watch@.len(),
                // The last matching rule among the first `i` decides, unless
                // a later one matches.
                forall|rules: Seq<ServeWatchRule>|
                    #[trigger] watch_decision_from(self.watch@.take(i as int) + rules, relative_path@, false)
                        == watch_decision_from(rules, relative_path@, should_rebuild),
            decreases self.watch.len() - i,
        {
            let rule = &self.watch[i];
            let m = glob_matches(rule.pattern.as_str(), relative_path.as_str());
            proof {
                assert forall|rules: Seq<ServeWatchRule>|
                    #[trigger] watch_decision_from(self.watch@.take(i + 1) + rules, relative_path@, false)
                        == watch_decision_from(rules, relative_path@, if m { rule.rebuild } else { should_rebuild }) by {
                    assert(self.watch@.take(i + 1) + rules == self.watch@.take(i as int) + (seq![
                        *rule] + rules));
                    lemma_decision_from_prepend(*rule, rules, relative_path@, should_rebuild);
                }
            }
            if m {
                should_rebuild = rule.rebuild;
            }
            i = i + 1;
        }
        proof {
            let empty = Seq::<ServeWatchRule>::empty();
            assert(self.watch@.take(self.watch@.len() as int) + empty == self.watch@);
        }
        should_rebuild
    }
}

/// `watch_decision` of `rules` where `prior` is the decision of the rules
/// before them.
pub open spec fn watch_decision_from(rules: Seq<ServeWatchRule>, path: Seq<char>, prior: bool) -> bool
    decreases rules.len(),
{
    if rules.len() == 0 {
        prior
    } else if rule_matches(rules.last(), path) {
        rules.last().rebuild
    } else {
        watch_decision_from(rules.drop_last(), path, prior)
    }
}

proof fn lemma_decision_from_prepend(rule: ServeWatchRule, rules: Seq<ServeWatchRule>, path: Seq<char>, prior: bool)
    ensures
        watch_decision_from(seq![rule] + rules, path, prior) == watch_decision_from(
            rules,
            path,
            if rule_matches(rule, path) { rule.rebuild } else { prior },
        ),
    decreases rules.len(),
{
    if rules.len() == 0 {
        assert(seq![rule] + rules == seq![rule]);
        assert(seq![rule].drop_last() == Seq::<ServeWatchRule>::empty());
        assert(seq![rule].last() == rule);
        reveal_with_fuel(watch_decision_from, 2);
    } else {
        assert((seq![rule] + rules).drop_last() == seq![rule] + rules.drop_last());
        assert((seq![rule] + rules).last() == rules.last());
        lemma_decision_from_prepend(rule, rules.drop_last(), path, prior);
    }
}


// ---------------------------------------------------------------------------
// Reading the configuration file.

/// The state of reading a configuration file, item by item.
pub struct ConfigScan {
    pub page: Seq<char>,
    pub main: Seq<char>,
    pub target: Option<Seq<char>>,
    pub check_target: Option<Seq<char>>,
    pub typescript: Option<Seq<char>>,
    /// The `[serve].watch` patterns so far.
    pub watch: Seq<Seq<char>>,
    /// The current section.
    pub section: Option<Seq<char>>,
    /// The warnings so far, as (message, help).
    pub warnings: Seq<(Seq<char>, Seq<char>)>,
    /// The first `[serve].watch` pattern that does not compile, and its error.
    pub invalid: Option<(Seq<char>, Seq<char>)>,
}

/// The help attached to a warning about an unknown section.
pub open spec fn section_help() -> Seq<char> {
    "Remove the section or rename it to a supported section."@
}

/// The help attached to a warning about an unknown key.
pub open spec fn key_help() -> Seq<char> {
    "Remove the key or rename it to a supported setting."@
}

/// The help attached to the error about a watch pattern.
pub open spec fn pattern_help() -> Seq<char> {
    "Fix the [serve].watch glob pattern in vue-script.toml."@
}

/// The warning about an unknown section.
pub open spec fn section_warning(section: Seq<char>) -> (Seq<char>, Seq<char>) {
    ("Unknown config section ["@ + section + "]."@, section_help())
}

/// The warning about an unknown key in a known section.
pub open spec fn key_warning(section: Seq<char>, key: Seq<char>) -> (Seq<char>, Seq<char>) {
    ("Unknown config key ["@ + section + "]."@ + key + "."@, key_help())
}

/// The message of the error about a watch pattern that does not compile.
pub open spec fn invalid_pattern_message(pattern: Seq<char>, error: Seq<char>) -> Seq<char> {
    "Invalid [serve].watch pattern \""@ + pattern + "\": "@ + error
}

/// The sections that the configuration file knows.
pub open spec fn known_section(s: Seq<char>) -> bool {
    s == "app"@ || s == "target"@ || s == "check"@ || s == "serve"@
}

/// The state before the first item.
pub open spec fn scan_start() -> ConfigScan {
    ConfigScan {
        page: "app/page.html"@,
        main: "app/main.vue"@,
        target: None,
        check_target: None,
        typescript: None,
        watch: Seq::empty(),
        section: None,
        warnings: Seq::empty(),
        invalid: None,
    }
}

/// `st` with one more warning.
pub open spec fn with_warning(st: ConfigScan, w: (Seq<char>, Seq<char>)) -> ConfigScan {
    ConfigScan { warnings: st.warnings.push(w), ..st }
}

/// The effect of the property `key = value` (value unquoted) on `st`.
pub open spec fn property_step(st: ConfigScan, key: Seq<char>, value: Seq<char>) -> ConfigScan {
    match st.section {
        None => st,
        Some(sec) => if sec == "app"@ {
            if key == "page"@ {
                ConfigScan { page: value, ..st }
            } else if key == "main"@ {
                ConfigScan { main: value, ..st }
            } else {
                with_warning(st, key_warning("app"@, key))
            }
        } else if sec == "target"@ {
            if key == "path"@ {
                ConfigScan { target: Some(value), ..st }
            } else {
                with_warning(st, key_warning("target"@, key))
            }
        } else if sec == "check"@ {
            if key == "target"@ {
                ConfigScan { check_target: Some(value), ..st }
            } else if key == "typescript"@ {
                ConfigScan { typescript: Some(value), ..st }
            } else {
                with_warning(st, key_warning("check"@, key))
            }
        } else if sec == "serve"@ {
            if key == "watch"@ {
                match glob_error_of(value) {
                    Some(e) => ConfigScan { invalid: Some((value, e)), ..st },
                    None => ConfigScan { watch: st.watch.push(value), ..st },
                }
            } else {
                with_warning(st, key_warning("serve"@, key))
            }
        } else {
            st
        },
    }
}

/// The effect of one item on `st`; nothing changes after an invalid pattern.
pub open spec fn scan_step(st: ConfigScan, item: IniItem) -> ConfigScan {
    if st.invalid is Some {
        st
    } else {
        match item {
            IniItem::Section(s) => {
                let st2 = ConfigScan { section: Some(s@), ..st };
                if known_section(s@) {
                    st2
                } else {
                    with_warning(st2, section_warning(s@))
                }
            },
            IniItem::Property(k, Some(v)) => property_step(st, k@, trim_quotes_spec(v@)),
            _ => st,
        }
    }
}

/// The state after all of `items`.
pub open spec fn scan_config(items: Seq<IniItem>) -> ConfigScan
    decreases items.len(),
{
    if items.len() == 0 {
        scan_start()
    } else {
        scan_step(scan_config(items.drop_last()), items.last())
    }
}

/// `d` is a diagnostic without location or code, with the given level,
/// message and help.
pub open spec fn plain_entry(d: crate::log::Diagnostic, level: LogLevel, message: Seq<char>, note: Seq<char>) -> bool {
    &&& d.level == level
    &&& d.message@ == message
    &&& d.code is None
    &&& d.span is None
    &&& d.note matches Some(n) && n@ == note
}

/// The diagnostics `new` are the warnings `ws`, in order.
pub open spec fn warnings_logged(new: Seq<crate::log::Diagnostic>, ws: Seq<(Seq<char>, Seq<char>)>) -> bool {
    &&& new.len() == ws.len()
    &&& forall|i: int| 0 <= i < ws.len() ==> plain_entry(#[trigger] new[i], LogLevel::Warn, ws[i].0, ws[i].1)
}

/// The rule for an explicit `[serve].watch` pattern.
pub open spec fn explicit_rule(rule: ServeWatchRule, pattern: Seq<char>) -> bool {
    rule.pattern@ == pattern && rule.rebuild && rule.explicit
}

fn log_plain(log: &mut Logger, level: LogLevel, message: String, note: &'static str)
    ensures
        final(log).spec_format() == old(log).spec_format(),
        final(log).entries() == old(log).entries().push(final(log).entries().last()),
        plain_entry(final(log).entries().last(), level, message@, note@),
{
    let entry = LogEntry { level, span: None, message, note: Some(note) };
    log.log(None, entry);
    assert(final(log).entries() =~= old(log).entries().push(final(log).entries().last()));
}

fn section_known(s: &str) -> (b: bool)
    ensures
        b == known_section(s@),
{
    str_eq(s, "app") || str_eq(s, "target") || str_eq(s, "check") || str_eq(s, "serve")
}

fn key_warning_message(section: &str, key: &str) -> (m: String)
    ensures
        m@ == key_warning(section@, key@).0,
{
    let mut m = owned("Unknown config key [");
    m.append(section);
    m.append("].");
    m.append(key);
    m.append(".");
    m
}

/// The configuration read so far.
struct ConfigReader {
    page: String,
    main: String,
    target: Option<String>,
    check_target: Option<String>,
    typescript: Option<String>,
    watch: Vec<ServeWatchRule>,
    section: Option<String>,
}

impl ConfigReader {
    /// The reader holds the configuration of the scan `sc`, apart from
    /// the warnings.
    spec fn holds(&self, sc: ConfigScan) -> bool {
        &&& sc.invalid is None
        &&& self.page@ == sc.page
        &&& self.main@ == sc.main
        &&& crate::paths::opt_view(self.target) == sc.target
        &&& crate::paths::opt_view(self.check_target) == sc.check_target
        &&& crate::paths::opt_view(self.typescript) == sc.typescript
        &&& crate::paths::opt_view(self.section) == sc.section
        &&& self.watch@.len() == sc.watch.len()
        &&& forall|i: int| 0 <= i < sc.watch.len() ==> explicit_rule(#[trigger] self.watch@[i], sc.watch[i])
    }

    /// Reads one item.  Returns the error for a watch pattern that does not
    /// compile, after logging it; logs the warnings of the item otherwise.
    fn read_item(&mut self, log: &mut Logger, item: &IniItem, Ghost(sc): Ghost<ConfigScan>) -> (r: Option<ConfigError>)
        requires
            old(self).holds(sc),
        ensures
            final(log).spec_format() == old(log).spec_format(),
            ({
                let next = scan_step(sc, *item);
                match next.invalid {
                    Some((pattern, error)) => {
                        &&& r matches Some(e) && e.kind == ConfigErrorKind::InvalidInput
                            && e.message@ == invalid_pattern_message(pattern, error)
                        &&& next.warnings == sc.warnings
                        &&& final(log).entries().drop_last() == old(log).entries()
                        &&& final(log).entries().len() == old(log).entries().len() + 1
                        &&& plain_entry(final(log).entries().last(), LogLevel::Error, invalid_pattern_message(pattern, error), pattern_help())
                    },
                    None => {
                        &&& r is None
                        &&& final(self).holds(next)
                        &&& next.warnings.len() >= sc.warnings.len()
                        &&& next.warnings.take(sc.warnings.len() as int) == sc.warnings
                        &&& final(log).entries().len() == old(log).entries().len() + (next.warnings.len() - sc.warnings.len())
                        &&& final(log).entries().take(old(log).entries().len() as int) == old(log).entries()
                        &&& warnings_logged(final(log).entries().skip(old(log).entries().len() as int), next.warnings.skip(sc.warnings.len() as int))
                    },
                }
            }),
    {
        match item {
            IniItem::Section(name) => {
                self.section = Some(owned(name.as_str()));
                if !section_known(name.as_str()) {
                    let mut m = owned("Unknown config section [");
                    m.append(name.as_str());
                    m.append("].");
                    log_plain(log, LogLevel::Warn, m, "Remove the section or rename it to a supported section.");
                    proof {
                        let next = scan_step(sc, *item);
                        assert(next.warnings.skip(sc.warnings.len() as int) =~= seq![next.warnings.last()]);
                        assert(final(log).entries().skip(old(log).entries().len() as int) =~= seq![final(log).entries().last()]);
                        assert(next.warnings.take(sc.warnings.len() as int) =~= sc.warnings);
                        assert(final(log).entries().take(old(log).entries().len() as int) =~= old(log).entries());
                    }
                } else {
                    proof {
                        assert(sc.warnings.skip(sc.warnings.len() as int) =~= Seq::<(Seq<char>, Seq<char>)>::empty());
                        assert(log.entries().skip(log.entries().len() as int) =~= Seq::<crate::log::Diagnostic>::empty());
                        assert(sc.warnings.take(sc.warnings.len() as int) =~= sc.warnings);
                        assert(log.entries().take(log.entries().len() as int) =~= log.entries());
                    }
                }
                None
            },
            IniItem::Property(key, Some(raw)) => {
                let value = parse_str(raw.as_str());
                let key = key.as_str();
                let mut warn: Option<String> = None;
                match &self.section {
                    None => {},
                    Some(sec) => {
                        let sec = sec.as_str();
                        if str_eq(sec, "app") {
                            if str_eq(key, "page") {
                                self.page = value;
                            } else if str_eq(key, "main") {
                                self.main = value;
                            } else {
                                warn = Some(key_warning_message("app", key));
                            }
                        } else if str_eq(sec, "target") {
                            if str_eq(key, "path") {
                                self.target = Some(value);
                            } else {
                                warn = Some(key_warning_message("target", key));
                            }
                        } else if str_eq(sec, "check") {
                            if str_eq(key, "target") {
                                self.check_target = Some(value);
                            } else if str_eq(key, "typescript") {
                                self.typescript = Some(value);
                            } else {
                                warn = Some(key_warning_message("check", key));
                            }
                        } else if str_eq(sec, "serve") {
                            if str_eq(key, "watch") {
                                match glob_error(value.as_str()) {
                                    Some(err) => {
                                        let mut m = owned("Invalid [serve].watch pattern \"");
                                        m.append(value.as_str());
                                        m.append("\": ");
                                        m.append(err.as_str());
                                        let message = m.clone();
                                        log_plain(log, LogLevel::Error, m, "Fix the [serve].watch glob pattern in vue-script.toml.");
                                        return Some(ConfigError { kind: ConfigErrorKind::InvalidInput, message });
                                    },
                                    None => {
                                        let ghost w = self.watch@;
                                        self.watch.push(ServeWatchRule { pattern: value, rebuild: true, explicit: true });
                                        assert forall|i: int| 0 <= i < sc.watch.len() implies self.watch@[i] == w[i] by {}
                                    },
                                }
                            } else {
                                warn = Some(key_warning_message("serve", key));
                            }
                        }
                    },
                }
                match warn {
                    Some(m) => {
                        log_plain(log, LogLevel::Warn, m, "Remove the key or rename it to a supported setting.");
                        proof {
                            let next = scan_step(sc, *item);
                            assert(next.warnings.skip(sc.warnings.len() as int) =~= seq![next.warnings.last()]);
                            assert(final(log).entries().skip(old(log).entries().len() as int) =~= seq![final(log).entries().last()]);
                            assert(next.warnings.take(sc.warnings.len() as int) =~= sc.warnings);
                            assert(final(log).entries().take(old(log).entries().len() as int) =~= old(log).entries());
                        }
                    },
                    None => {
                        proof {
                            assert(sc.warnings.skip(sc.warnings.len() as int) =~= Seq::<(Seq<char>, Seq<char>)>::empty());
                            assert(log.entries().skip(log.entries().len() as int) =~= Seq::<crate::log::Diagnostic>::empty());
                            assert(sc.warnings.take(sc.warnings.len() as int) =~= sc.warnings);
                            assert(log.entries().take(log.entries().len() as int) =~= log.entries());
                        }
                    },
                }
                None
            },
            _ => {
                proof {
                    assert(sc.warnings.skip(sc.warnings.len() as int) =~= Seq::<(Seq<char>, Seq<char>)>::empty());
                    assert(log.entries().skip(log.entries().len() as int) =~= Seq::<crate::log::Diagnostic>::empty());
                    assert(sc.warnings.take(sc.warnings.len() as int) =~= sc.warnings);
                    assert(log.entries().take(log.entries().len() as int) =~= log.entries());
                }
                None
            },
        }
    }
}

/// What reading a configuration file produces: the diagnostics `new` and the
/// result `r`, given the scan `sc` of its items and its path.
pub open spec fn config_outcome(sc: ConfigScan, new: Seq<crate::log::Diagnostic>, path: String, r: Result<Config, ConfigError>) -> bool {
    match sc.invalid {
        Some((pattern, error)) => {
            &&& r matches Err(e) && e.kind == ConfigErrorKind::InvalidInput
                && e.message@ == invalid_pattern_message(pattern, error)
            &&& new.len() == sc.warnings.len() + 1
            &&& warnings_logged(new.drop_last(), sc.warnings)
            &&& plain_entry(new.last(), LogLevel::Error, invalid_pattern_message(pattern, error), pattern_help())
        },
        None => {
            &&& warnings_logged(new, sc.warnings)
            &&& r matches Ok(c) && {
                &&& c.path == path
                &&& c.app.page@ == sc.page
                &&& c.app.main@ == sc.main
                &&& crate::paths::opt_view(c.target.path) == sc.target
                &&& crate::paths::opt_view(c.check.target) == sc.check_target
                &&& crate::paths::opt_view(c.check.typescript) == sc.typescript
                &&& c.serve.watch@.len() == sc.watch.len() + 1 + if sc.target is Some { 1int } else { 0int }
                &&& forall|i: int| 0 <= i < sc.watch.len() ==> explicit_rule(#[trigger] c.serve.watch@[i], sc.watch[i])
                &&& c.serve.watch@[sc.watch.len() as int].pattern@ == glob_escape_spec(CONFIG_FILE@)
                &&& c.serve.watch@[sc.watch.len() as int].rebuild
                &&& !c.serve.watch@[sc.watch.len() as int].explicit
                &&& (c.target.path matches Some(t) ==> {
                    &&& c.serve.watch@.last().pattern@ == glob_escape_spec(t@)
                    &&& !c.serve.watch@.last().rebuild
                    &&& !c.serve.watch@.last().explicit
                })
                &&& explicit_count(c.serve.watch@) == sc.watch.len()
                // The configured target never triggers a rebuild.
                &&& (c.target.path matches Some(t) ==> !watch_decision(c.serve.watch@, t@))
                // The configuration file does, unless it is the target.
                &&& ((c.target.path matches Some(t) ==> t@ != CONFIG_FILE@) ==> watch_decision(c.serve.watch@, CONFIG_FILE@))
            }
        },
    }
}

/// Reads the configuration from the contents of the file at `path`.
///
/// Unknown sections and keys are reported as warnings.  A `[serve].watch`
/// pattern that does not compile is reported as an error and fails the
/// whole configuration.  After the explicit watch rules come a rule that
/// watches the configuration file itself and, when a target is configured,
/// a rule that ignores the target: the built page never triggers a rebuild
/// and the configuration file always does.
pub fn parse_contents(log: &mut Logger, path: String, contents: &str) -> (r: Result<Config, ConfigError>)
    ensures
        final(log).spec_format() == old(log).spec_format(),
        final(log).entries().take(old(log).entries().len() as int) == old(log).entries(),
        final(log).entries().len() >= old(log).entries().len(),
        config_outcome(
            scan_config(ini_items_of(contents@)),
            final(log).entries().skip(old(log).entries().len() as int),
            path,
            r,
        ),
{
    let items = ini_items(contents);
    let ghost start_entries = log.entries();
    let mut reader = ConfigReader {
        page: owned("app/page.html"),
        main: owned("app/main.vue"),
        target: None,
        check_target: None,
        typescript: None,
        watch: Vec::new(),
        section: None,
    };
    let mut k: usize = 0;
    proof {
        assert(items@.take(0) =~= Seq::<IniItem>::empty());
        assert(log.entries().skip(start_entries.len() as int) =~= Seq::<crate::log::Diagnostic>::empty());
        assert(log.entries().take(start_entries.len() as int) =~= start_entries);
    }
    while k < items.len()
        invariant
            k <= items@.len(),
            items@ == ini_items_of(contents@),
            start_entries == old(log).entries(),
            log.spec_format() == old(log).spec_format(),
            reader.holds(scan_config(items@.take(k as int))),
            log.entries().take(start_entries.len() as int) == start_entries,
            log.entries().len() >= start_entries.len(),
            warnings_logged(log.entries().skip(start_entries.len() as int), scan_config(items@.take(k as int)).warnings),
        decreases items.len() - k,
    {
        let ghost sc = scan_config(items@.take(k as int));
        let ghost before = log.entries();
        assert(items@.take(k + 1).drop_last() == items@.take(k as int));
        assert(items@.take(k + 1).last() == items@[k as int]);
        let failed = reader.read_item(log, &items[k], Ghost(sc));
        let ghost next = scan_step(sc, items@[k as int]);
        match failed {
            Some(e) => {
                proof {
                    lemma_config_invalid_stays(items@, k as int + 1);
                    assert(log.entries().take(start_entries.len() as int) =~= start_entries);
                    assert(log.entries().skip(start_entries.len() as int).drop_last()
                        =~= before.skip(start_entries.len() as int));
                    assert(log.entries().skip(start_entries.len() as int).last() == log.entries().last());
                }
                return Err(e);
            },
            None => {
                proof {
                    lemma_warnings_append(start_entries, before, log.entries(), sc.warnings, next.warnings);
                }
            },
        }
        k = k + 1;
    }
    assert(items@.take(items@.len() as int) == items@);
    let ghost sc = scan_config(items@);
    let ghost n = reader.watch@.len();
    let mut watch = reader.watch;
    let config_pattern = glob_escape(CONFIG_FILE);
    let ghost config_rule_pattern = config_pattern@;
    watch.push(ServeWatchRule { pattern: config_pattern, rebuild: true, explicit: false });
    match &reader.target {
        Some(t) => {
            let tp = glob_escape(t.as_str());
            watch.push(ServeWatchRule { pattern: tp, rebuild: false, explicit: false });
            proof {
                reveal_strlit("vue-script.toml");
                assert(no_separator(CONFIG_FILE@));
                assert(watch@.drop_last()[n as int].pattern@ == config_rule_pattern);
                assert(!rule_matches(watch@.last(), CONFIG_FILE@) <==> t@ != CONFIG_FILE@);
                assert(watch@.drop_last().last() == watch@.drop_last()[n as int]);
                reveal_with_fuel(watch_decision_from, 2);
            }
        },
        None => {},
    }
    let serve = ConfigServe { watch };
    proof {
        lemma_explicit_count_prefix(serve.watch@, n as int);
    }
    Ok(Config {
        path,
        app: ConfigApp { page: reader.page, main: reader.main },
        target: ConfigTarget { path: reader.target },
        check: ConfigCheck { target: reader.check_target, typescript: reader.typescript },
        serve,
    })
}

proof fn lemma_warnings_append(
    start: Seq<crate::log::Diagnostic>,
    before: Seq<crate::log::Diagnostic>,
    after: Seq<crate::log::Diagnostic>,
    ws: Seq<(Seq<char>, Seq<char>)>,
    ws2: Seq<(Seq<char>, Seq<char>)>,
)
    requires
        before.take(start.len() as int) == start,
        before.len() >= start.len(),
        warnings_logged(before.skip(start.len() as int), ws),
        ws2.len() >= ws.len(),
        ws2.take(ws.len() as int) == ws,
        after.len() == before.len() + (ws2.len() - ws.len()),
        after.take(before.len() as int) == before,
        warnings_logged(after.skip(before.len() as int), ws2.skip(ws.len() as int)),
    ensures
        after.take(start.len() as int) == start,
        after.len() >= start.len(),
        warnings_logged(after.skip(start.len() as int), ws2),
{
    assert(after.take(start.len() as int) =~= before.take(start.len() as int));
    let new = after.skip(start.len() as int);
    assert forall|i: int| 0 <= i < ws2.len() implies plain_entry(#[trigger] new[i], LogLevel::Warn, ws2[i].0, ws2[i].1) by {
        if i < ws.len() {
            assert(new[i] == before.skip(start.len() as int)[i]);
            assert(ws2[i] == ws[i]);
        } else {
            assert(new[i] == after.skip(before.len() as int)[i - ws.len()]);
            assert(ws2[i] == ws2.skip(ws.len() as int)[i - ws.len()]);
        }
    }
}

proof fn lemma_config_invalid_stays(items: Seq<IniItem>, k: int)
    requires
        0 <= k <= items.len(),
        scan_config(items.take(k)).invalid is Some,
    ensures
        scan_config(items) == scan_config(items.take(k)),
    decreases items.len() - k,
{
    if k == items.len() {
        assert(items.take(k) == items);
    } else {
        assert(items.take(k + 1).drop_last() == items.take(k));
        lemma_config_invalid_stays(items, k + 1);
    }
}

proof fn lemma_explicit_count_prefix(rules: Seq<ServeWatchRule>, n: int)
    requires
        0 <= n <= rules.len(),
        forall|i: int| 0 <= i < n ==> (#[trigger] rules[i]).rebuild && rules[i].explicit,
        forall|i: int| n <= i < rules.len() ==> !(#[trigger] rules[i]).explicit,
    ensures
        explicit_count(rules) == n,
    decreases rules.len(),
{
    if rules.len() > 0 {
        if rules.len() > n {
            lemma_explicit_count_prefix(rules.drop_last(), n);
        } else {
            lemma_explicit_count_prefix(rules.drop_last(), n - 1);
        }
    }
}


proof fn lemma_scan_take_step(items: Seq<IniItem>, k: int)
    requires
        0 <= k < items.len(),
    ensures
        scan_config(items.take(k + 1)) == scan_step(scan_config(items.take(k)), items[k]),
{
    assert(items.take(k + 1).drop_last() =~= items.take(k));
    assert(items.take(k + 1).last() == items[k]);
}

proof fn lemma_scan_valid_prefixes(items: Seq<IniItem>)
    requires
        scan_config(items).invalid is None,
    ensures
        forall|k: int| 0 <= k <= items.len() ==> (#[trigger] scan_config(items.take(k))).invalid is None,
{
    assert forall|k: int| 0 <= k <= items.len() implies (#[trigger] scan_config(items.take(k))).invalid is None by {
        if scan_config(items.take(k)).invalid is Some {
            lemma_config_invalid_stays(items, k);
        }
    }
}

/// A `main` setting in the `[app]` section names the main component: after
/// an `[app]` header, a `main = v` line with no other section header in
/// between and no later `main` line sets the main component to `v` without
/// its surrounding quotes, whatever else the file holds, as long as the
/// file reads without error.
pub proof fn lemma_app_main_is_read(items: Seq<IniItem>, i: int, j: int, v: Seq<char>)
    requires
        0 <= i < j < items.len(),
        items[i] matches IniItem::Section(s) && s@ == "app"@,
        items[j] matches IniItem::Property(key, Some(w)) && key@ == "main"@ && w@ == v,
        forall|q: int| i < q < j ==> !(#[trigger] items[q] is Section),
        forall|q: int| j < q < items.len() ==> !(#[trigger] items[q] matches IniItem::Property(key, _) && key@ == "main"@),
        scan_config(items).invalid is None,
    ensures
        scan_config(items).main == trim_quotes_spec(v),
{
    lemma_setting_keys_differ();
    lemma_setting_is_read(items, i, j, "main"@, v);
}

/// The value that the file has given the setting `key`: `page` and `main`
/// of `[app]`, `path` of `[target]`, `target` and `typescript` of
/// `[check]`.
pub open spec fn setting_value(st: ConfigScan, key: Seq<char>) -> Option<Seq<char>> {
    if key == "page"@ {
        Some(st.page)
    } else if key == "main"@ {
        Some(st.main)
    } else if key == "path"@ {
        st.target
    } else if key == "target"@ {
        st.check_target
    } else if key == "typescript"@ {
        st.typescript
    } else {
        None
    }
}

/// The section in which the setting `key` is read.
pub open spec fn setting_section(key: Seq<char>) -> Seq<char> {
    if key == "page"@ || key == "main"@ {
        "app"@
    } else if key == "path"@ {
        "target"@
    } else {
        "check"@
    }
}

proof fn lemma_setting_keys_differ()
    ensures
        "page"@ != "main"@,
        "page"@ != "path"@,
        "page"@ != "target"@,
        "page"@ != "typescript"@,
        "main"@ != "path"@,
        "main"@ != "target"@,
        "main"@ != "typescript"@,
        "path"@ != "target"@,
        "path"@ != "typescript"@,
        "target"@ != "typescript"@,
        "app"@ != "target"@,
        "app"@ != "check"@,
        "target"@ != "check"@,
{
    reveal_strlit("page");
    reveal_strlit("main");
    reveal_strlit("path");
    reveal_strlit("target");
    reveal_strlit("typescript");
    reveal_strlit("app");
    reveal_strlit("check");
    assert("page"@[0] != "main"@[0]);
    assert("page"@[2] != "path"@[2]);
    assert("page"@.len() != "target"@.len());
    assert("page"@.len() != "typescript"@.len());
    assert("main"@[0] != "path"@[0]);
    assert("main"@.len() != "target"@.len());
    assert("main"@.len() != "typescript"@.len());
    assert("path"@.len() != "target"@.len());
    assert("path"@.len() != "typescript"@.len());
    assert("target"@.len() != "typescript"@.len());
    assert("app"@.len() != "target"@.len());
    assert("app"@.len() != "check"@.len());
    assert("target"@.len() != "check"@.len());
}

proof fn lemma_section_stays(items: Seq<IniItem>, i: int, k: int, section: Seq<char>)
    requires
        0 <= i < k <= items.len(),
        items[i] matches IniItem::Section(s) && s@ == section,
        forall|q: int| i < q < k ==> !(#[trigger] items[q] is Section),
        forall|q: int| 0 <= q <= items.len() ==> (#[trigger] scan_config(items.take(q))).invalid is None,
    ensures
        scan_config(items.take(k)).section == Some(section),
    decreases k - i,
{
    lemma_scan_take_step(items, k - 1);
    if k - 1 > i {
        lemma_section_stays(items, i, k - 1, section);
        assert(!(items[k - 1] is Section));
        assert(scan_config(items.take(k - 1)).invalid is None);
    } else {
        assert(scan_config(items.take(i)).invalid is None);
    }
}

proof fn lemma_setting_stays(items: Seq<IniItem>, j: int, k: int, key: Seq<char>)
    requires
        0 <= j < k <= items.len(),
        key == "page"@ || key == "main"@ || key == "path"@ || key == "target"@ || key == "typescript"@,
        forall|q: int| j < q < items.len() ==> !(#[trigger] items[q] matches IniItem::Property(k2, _) && k2@ == key),
    ensures
        setting_value(scan_config(items.take(k)), key) == setting_value(scan_config(items.take(j + 1)), key),
    decreases k - j,
{
    if k > j + 1 {
        lemma_setting_stays(items, j, k - 1, key);
        lemma_scan_take_step(items, k - 1);
        lemma_setting_keys_differ();
        assert(!(items[k - 1] matches IniItem::Property(k2, _) && k2@ == key));
    }
}

/// Each setting is read from its own section: after the header of that
/// section (`[app]` for `page` and `main`, `[target]` for `path`,
/// `[check]` for `target` and `typescript`), a `key = v` line with no other
/// section header in between and no later line for the same key gives the
/// setting the value `v` without its surrounding quotes, whatever else the
/// file holds, as long as the file reads without error.
pub proof fn lemma_setting_is_read(items: Seq<IniItem>, i: int, j: int, key: Seq<char>, v: Seq<char>)
    requires
        key == "page"@ || key == "main"@ || key == "path"@ || key == "target"@ || key == "typescript"@,
        0 <= i < j < items.len(),
        items[i] matches IniItem::Section(s) && s@ == setting_section(key),
        items[j] matches IniItem::Property(k, Some(w)) && k@ == key && w@ == v,
        forall|q: int| i < q < j ==> !(#[trigger] items[q] is Section),
        forall|q: int| j < q < items.len() ==> !(#[trigger] items[q] matches IniItem::Property(k, _) && k@ == key),
        scan_config(items).invalid is None,
    ensures
        setting_value(scan_config(items), key) == Some(trim_quotes_spec(v)),
{
    lemma_scan_valid_prefixes(items);
    lemma_section_stays(items, i, j, setting_section(key));
    lemma_scan_take_step(items, j);
    lemma_setting_keys_differ();
    let st = scan_config(items.take(j));
    assert(st.invalid is None);
    match items[j] {
        IniItem::Property(k, Some(w)) => {
            assert(scan_step(st, items[j]) == property_step(st, k@, trim_quotes_spec(w@)));
        },
        _ => {},
    }
    assert(setting_value(scan_config(items.take(j + 1)), key) == Some(trim_quotes_spec(v)));
    lemma_setting_stays(items, j, items.len() as int, key);
    assert(items.take(items.len() as int) =~= items);
}

} // verus!


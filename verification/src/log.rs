//! Diagnostics: collecting them in a [`Logger`] and rendering them as text.
use vstd::prelude::*;
use crate::text::{
    chars_of, decimal, decimal_string, lemma_split_nl_nonempty, line_bounds, lines_spec, owned,
    push_char, push_decimal, split_nl, strip_cr,
};

verus! {

broadcast use vstd::string::group_string_axioms;

/// Severity of a diagnostic.
#[derive(Copy, Clone, Debug, PartialEq, Eq, Structural)]
pub enum LogLevel {
    Error,
    Warn,
    Info,
}

impl LogLevel {
    /// The name of the level as it is printed.
    pub open spec fn name(self) -> Seq<char> {
        match self {
            LogLevel::Error => "error"@,
            LogLevel::Warn => "warn"@,
            LogLevel::Info => "info"@,
        }
    }

    /// The ANSI colour code of the level.
    pub open spec fn color(self) -> Seq<char> {
        match self {
            LogLevel::Error => "1;31"@,
            LogLevel::Warn => "1;33"@,
            LogLevel::Info => "1;36"@,
        }
    }

    pub fn as_str(&self) -> (s: &'static str)
        ensures
            s@ == self.name(),
    {
        match self {
            LogLevel::Error => "error",
            LogLevel::Warn => "warn",
            LogLevel::Info => "info",
        }
    }

    pub fn ansi_color(&self) -> (s: &'static str)
        ensures
            s@ == self.color(),
    {
        match self {
            LogLevel::Error => "1;31",
            LogLevel::Warn => "1;33",
            LogLevel::Info => "1;36",
        }
    }
}

/// A location in a source file.
#[derive(Clone, Debug, PartialEq, Eq)]
pub struct LineSpan<'a> {
    pub file: &'a str,
    pub line_start: usize,
    pub line_end: usize,
    /// Zero-indexed, matching tagsoup source spans.
    pub column_start: usize,
    /// Zero-indexed, matching tagsoup source spans.
    pub column_end: usize,
}

/// A diagnostic as its producer reports it.
#[derive(Clone, Debug, PartialEq, Eq)]
pub struct LogEntry<'a> {
    pub level: LogLevel,
    pub span: Option<LineSpan<'a>>,
    pub message: String,
    pub note: Option<&'a str>,
}

/// A source location as it is shown to users.
#[derive(Clone, Debug, PartialEq, Eq)]
pub struct DiagnosticSpan {
    pub file: String,
    pub line_start: usize,
    pub line_end: usize,
    /// One-indexed for human- and tool-facing output.
    pub column_start: usize,
    /// One-indexed for human- and tool-facing output.
    pub column_end: usize,
}

/// A recorded diagnostic.
#[derive(Clone, Debug, PartialEq, Eq)]
pub struct Diagnostic {
    pub level: LogLevel,
    pub code: Option<String>,
    pub span: Option<DiagnosticSpan>,
    pub message: String,
    pub note: Option<String>,
    /// The source line that the span starts on, when it was available.
    pub source_line: Option<String>,
}

/// How diagnostics are presented.
#[derive(Copy, Clone, Debug, PartialEq, Eq, Structural)]
pub enum MessageFormat {
    Human,
    Json,
}

/// Collects the diagnostics of a run.
pub struct Logger {
    diagnostics: Vec<Diagnostic>,
    format: MessageFormat,
}

/// The view of an optional string slice.
pub open spec fn opt_str_view(o: Option<&str>) -> Option<Seq<char>> {
    match o {
        Some(s) => Some(s@),
        None => None,
    }
}

/// The view of an optional string.
pub open spec fn opt_string_view(o: Option<String>) -> Option<Seq<char>> {
    match o {
        Some(s) => Some(s@),
        None => None,
    }
}

/// `n - 1`, or 0 for 0.
pub open spec fn sat_dec(n: usize) -> nat {
    if n == 0 {
        0
    } else {
        (n - 1) as nat
    }
}

/// The line `line_start` (one-indexed; 0 counts as 1) of `source`, as
/// `str::lines` yields it.
pub open spec fn source_line_of(source: Option<Seq<char>>, line_start: usize) -> Option<Seq<char>> {
    match source {
        None => None,
        Some(s) => if sat_dec(line_start) < lines_spec(s).len() {
            Some(lines_spec(s)[sat_dec(line_start) as int])
        } else {
            None
        },
    }
}

/// `d` is the diagnostic that logging `entry` with `code` against the file
/// contents `source` records.
pub open spec fn records(d: Diagnostic, source: Option<Seq<char>>, entry: LogEntry, code: Option<String>) -> bool {
    &&& d.level == entry.level
    &&& d.code == code
    &&& d.message == entry.message
    &&& opt_string_view(d.note) == opt_str_view(entry.note)
    &&& match entry.span {
        None => d.span is None && d.source_line is None,
        Some(sp) => {
            &&& d.span matches Some(ds)
            &&& ds.file@ == sp.file@
            &&& ds.line_start == sp.line_start
            &&& ds.line_end == sp.line_end
            &&& ds.column_start == sp.column_start + 1
            &&& ds.column_end == sp.column_end + 1
            &&& opt_string_view(d.source_line) == source_line_of(source, sp.line_start)
        },
    }
}

/// `d` has the given level, message and help, and no code.
pub open spec fn logged_message(d: Diagnostic, level: LogLevel, message: Seq<char>, note: Seq<char>) -> bool {
    &&& d.level == level
    &&& d.message@ == message
    &&& d.code is None
    &&& d.note matches Some(n) && n@ == note
}

/// The columns of the entry's span leave room for the one-indexed form.
pub open spec fn entry_fits(entry: LogEntry) -> bool {
    entry.span matches Some(sp) ==> sp.column_start < usize::MAX && sp.column_end < usize::MAX
}

/// Number of diagnostics of level `level`.
pub open spec fn count_level(ds: Seq<Diagnostic>, level: LogLevel) -> nat
    decreases ds.len(),
{
    if ds.len() == 0 {
        0
    } else {
        count_level(ds.drop_last(), level) + if ds.last().level == level {
            1nat
        } else {
            0nat
        }
    }
}

proof fn lemma_count_level_push(ds: Seq<Diagnostic>, d: Diagnostic, level: LogLevel)
    ensures
        count_level(ds.push(d), level) == count_level(ds, level) + if d.level == level {
            1nat
        } else {
            0nat
        },
{
    assert(ds.push(d).drop_last() == ds);
}

/// The diagnostics of a level in a log that grew from `a` by the
/// diagnostics `b` are those of `a` plus those of `b`: over any run of
/// logging calls without a reset, the error count (or the warning count)
/// grows by exactly the number of diagnostics logged at that level, and
/// never falls.
pub proof fn lemma_count_level_append(a: Seq<Diagnostic>, b: Seq<Diagnostic>, level: LogLevel)
    ensures
        count_level(a + b, level) == count_level(a, level) + count_level(b, level),
    decreases b.len(),
{
    if b.len() == 0 {
        assert(a + b == a);
    } else {
        lemma_count_level_append(a, b.drop_last(), level);
        assert((a + b).drop_last() == a + b.drop_last());
    }
}

pub proof fn lemma_count_level_pos(ds: Seq<Diagnostic>, level: LogLevel)
    ensures
        count_level(ds, level) > 0 <==> exists|i: int| 0 <= i < ds.len() && (#[trigger] ds[i]).level == level,
        count_level(ds, level) <= ds.len(),
    decreases ds.len(),
{
    if ds.len() > 0 {
        lemma_count_level_pos(ds.drop_last(), level);
        if count_level(ds.drop_last(), level) > 0 {
            let i = choose|i: int| 0 <= i < ds.drop_last().len() && (#[trigger] ds.drop_last()[i]).level == level;
            assert(ds[i] == ds.drop_last()[i]);
        }
        if exists|i: int| 0 <= i < ds.len() && (#[trigger] ds[i]).level == level {
            let i = choose|i: int| 0 <= i < ds.len() && (#[trigger] ds[i]).level == level;
            if i < ds.len() - 1 {
                assert(ds.drop_last()[i] == ds[i]);
            }
        }
    }
}

fn count_level_exec(ds: &Vec<Diagnostic>, level: LogLevel) -> (n: usize)
    ensures
        n == count_level(ds@, level),
{
    let mut n: usize = 0;
    let mut i: usize = 0;
    while i < ds.len()
        invariant
            i <= ds@.len(),
            n == count_level(ds@.take(i as int), level),
            n <= i,
        decreases ds.len() - i,
    {
        assert(ds@.take(i + 1).drop_last() == ds@.take(i as int));
        if ds[i].level == level {
            n = n + 1;
        }
        i = i + 1;
    }
    assert(ds@.take(ds@.len() as int) == ds@);
    n
}

impl Logger {
    /// The diagnostics recorded so far, oldest first.
    pub closed spec fn entries(&self) -> Seq<Diagnostic> {
        self.diagnostics@
    }

    /// The presentation format.
    pub closed spec fn spec_format(&self) -> MessageFormat {
        self.format
    }

    pub fn new() -> (r: Logger)
        ensures
            r.entries() == Seq::<Diagnostic>::empty(),
            r.spec_format() == MessageFormat::Human,
    {
        Logger::with_format(MessageFormat::Human)
    }

    pub fn with_format(format: MessageFormat) -> (r: Logger)
        ensures
            r.entries() == Seq::<Diagnostic>::empty(),
            r.spec_format() == format,
    {
        Logger { diagnostics: Vec::new(), format }
    }

    pub fn format(&self) -> (f: MessageFormat)
        ensures
            f == self.spec_format(),
    {
        self.format
    }

    pub fn diagnostics(&self) -> (r: &Vec<Diagnostic>)
        ensures
            r@ == self.entries(),
    {
        &self.diagnostics
    }

    pub fn has_errors(&self) -> (b: bool)
        ensures
            b == (count_level(self.entries(), LogLevel::Error) > 0),
            b == exists|i: int|
                0 <= i < self.entries().len() && (#[trigger] self.entries()[i]).level == LogLevel::Error,
    {
        proof {
            lemma_count_level_pos(self.entries(), LogLevel::Error);
        }
        count_level_exec(&self.diagnostics, LogLevel::Error) > 0
    }

    pub fn has_warnings(&self) -> (b: bool)
        ensures
            b == (count_level(self.entries(), LogLevel::Warn) > 0),
    {
        count_level_exec(&self.diagnostics, LogLevel::Warn) > 0
    }

    pub fn reset(&mut self)
        ensures
            final(self).entries() == Seq::<Diagnostic>::empty(),
            final(self).spec_format() == old(self).spec_format(),
    {
        self.diagnostics.clear();
    }

    pub fn log(&mut self, source: Option<&str>, entry: LogEntry<'_>)
        requires
            entry_fits(entry),
        ensures
            final(self).entries().len() == old(self).entries().len() + 1,
            final(self).entries().drop_last() == old(self).entries(),
            records(final(self).entries().last(), opt_str_view(source), entry, None),
            forall|level: LogLevel|
                #[trigger] count_level(final(self).entries(), level) == count_level(old(self).entries(), level) + if entry.level
                    == level {
                    1nat
                } else {
                    0nat
                },
            final(self).spec_format() == old(self).spec_format(),
    {
        self.log_with_code(source, entry, None);
    }

    pub fn log_with_code(&mut self, source: Option<&str>, entry: LogEntry<'_>, code: Option<String>)
        requires
            entry_fits(entry),
        ensures
            final(self).entries().len() == old(self).entries().len() + 1,
            final(self).entries().drop_last() == old(self).entries(),
            records(final(self).entries().last(), opt_str_view(source), entry, code),
            forall|level: LogLevel|
                #[trigger] count_level(final(self).entries(), level) == count_level(old(self).entries(), level) + if entry.level
                    == level {
                    1nat
                } else {
                    0nat
                },
            final(self).spec_format() == old(self).spec_format(),
    {
        let ghost e = entry;
        let (span, source_line) = match &entry.span {
            Some(sp) => {
                let line = match get_source_line(source, sp) {
                    Some(l) => Some(owned(l)),
                    None => None,
                };
                (
                    Some(
                        DiagnosticSpan {
                            file: owned(sp.file),
                            line_start: sp.line_start,
                            line_end: sp.line_end,
                            column_start: sp.column_start + 1,
                            column_end: sp.column_end + 1,
                        },
                    ),
                    line,
                )
            },
            None => (None, None),
        };
        let note = match entry.note {
            Some(n) => Some(owned(n)),
            None => None,
        };
        let diagnostic = Diagnostic {
            level: entry.level,
            code,
            span,
            message: entry.message,
            note,
            source_line,
        };
        let ghost d = diagnostic;
        self.diagnostics.push(diagnostic);
        assert(self.diagnostics@.drop_last() == old(self).diagnostics@);
        proof {
            assert(self.diagnostics@ == old(self).diagnostics@.push(d));
            assert forall|level: LogLevel| #[trigger] count_level(self.entries(), level) == count_level(old(self).entries(), level) + if entry.level
                == level {
                1nat
            } else {
                0nat
            } by {
                lemma_count_level_push(old(self).diagnostics@, d, level);
            }
        }
    }

    /// Whether the run finished without errors.
    pub fn finished(&self) -> (b: bool)
        ensures
            b == (count_level(self.entries(), LogLevel::Error) == 0),
    {
        self.error_count() == 0
    }

    /// The closing line of a human-readable run.
    pub fn summary(&self) -> (s: String)
        ensures
            s@ == "Finished with "@ + decimal(count_level(self.entries(), LogLevel::Error)) + " error(s), "@
                + decimal(count_level(self.entries(), LogLevel::Warn)) + " warning(s)."@,
    {
        let errors = self.error_count();
        let warns = self.warning_count();
        let mut s = String::new();
        s.append("Finished with ");
        push_decimal(&mut s, errors);
        s.append(" error(s), ");
        push_decimal(&mut s, warns);
        s.append(" warning(s).");
        s
    }

    pub fn error_count(&self) -> (n: usize)
        ensures
            n == count_level(self.entries(), LogLevel::Error),
    {
        count_level_exec(&self.diagnostics, LogLevel::Error)
    }

    pub fn warning_count(&self) -> (n: usize)
        ensures
            n == count_level(self.entries(), LogLevel::Warn),
    {
        count_level_exec(&self.diagnostics, LogLevel::Warn)
    }
}

/// The line of `source` that `span` starts on.
#[verifier::spinoff_prover]
#[verifier::rlimit(40)]
pub fn get_source_line<'a>(source: Option<&'a str>, span: &LineSpan) -> (r: Option<&'a str>)
    ensures
        opt_str_view(r) == source_line_of(opt_str_view(source), span.line_start),
{
    match source {
        None => None,
        Some(src) => {
            let chars = chars_of(src);
            let bounds = line_bounds(chars.as_slice());
            proof {
                lemma_split_nl_nonempty(src@);
            }
            let p = bounds.len();
            let (last_start, last_end) = bounds[p - 1];
            let k = if last_start == last_end {
                p - 1
            } else {
                p
            };
            let n = if span.line_start == 0 {
                0
            } else {
                span.line_start - 1
            };
            if n >= k {
                return None;
            }
            let (a, b) = bounds[n];
            let b = if n + 1 < p && a < b && chars[b - 1] == '\r' {
                b - 1
            } else {
                b
            };
            let r = src.substring_char(a, b);
            proof {
                let piece = split_nl(src@)[n as int];
                assert(piece == src@.subrange(bounds@[n as int].0 as int, bounds@[n as int].1 as int));
                assert(split_nl(src@).last().len() == 0 <==> last_start == last_end);
                if n + 1 < p {
                    assert(strip_cr(piece) =~= r@);
                } else {
                    assert(piece =~= r@);
                }
                assert(lines_spec(src@)[n as int] == r@);
            }
            Some(r)
        },
    }
}

/// `n` spaces.
pub open spec fn spaces(n: nat) -> Seq<char> {
    Seq::new(n, |i: int| ' ')
}

/// `n` carets.
pub open spec fn carets(n: nat) -> Seq<char> {
    Seq::new(n, |i: int| '^')
}

/// The indentation under `source_line` up to one-indexed `column_start`:
/// tabs are kept so that the carets line up, every other character becomes a
/// space.
pub open spec fn caret_prefix_spec(source_line: Seq<char>, column_start: usize) -> Seq<char> {
    let n = if sat_dec(column_start) < source_line.len() {
        sat_dec(column_start)
    } else {
        source_line.len()
    };
    Seq::new(n, |i: int| if source_line[i] == '\t' { '\t' } else { ' ' })
}

pub fn caret_prefix(source_line: &str, column_start: usize) -> (s: String)
    ensures
        s@ == caret_prefix_spec(source_line@, column_start),
{
    let chars = chars_of(source_line);
    let want = if column_start == 0 {
        0
    } else {
        column_start - 1
    };
    let n = if want < chars.len() {
        want
    } else {
        chars.len()
    };
    let mut s = String::new();
    let mut i: usize = 0;
    while i < n
        invariant
            n <= chars@.len(),
            i <= n,
            chars@ == source_line@,
            s@ =~= Seq::new(i as nat, |j: int| if chars@[j] == '\t' { '\t' } else { ' ' }),
        decreases n - i,
    {
        if chars[i] == '\t' {
            push_char(&mut s, '\t');
        } else {
            push_char(&mut s, ' ');
        }
        i = i + 1;
    }
    s
}

fn push_repeat(s: &mut String, c: char, n: usize)
    ensures
        final(s)@ == old(s)@ + Seq::new(n as nat, |i: int| c),
{
    let ghost start = s@;
    let mut i: usize = 0;
    while i < n
        invariant
            i <= n,
            s@ =~= start + Seq::new(i as nat, |j: int| c),
        decreases n - i,
    {
        push_char(s, c);
        i = i + 1;
    }
}

/// The bracketed diagnostic code, if any.
pub open spec fn code_text(code: Option<String>) -> Seq<char> {
    match code {
        Some(c) => "["@ + c@ + "]"@,
        None => Seq::empty(),
    }
}

/// How many carets underline a span.
pub open spec fn caret_count(span: DiagnosticSpan) -> nat {
    if span.column_end > span.column_start && span.column_end - span.column_start > 1 {
        (span.column_end - span.column_start) as nat
    } else {
        1
    }
}

/// The first line of a plain-text diagnostic.
pub open spec fn plain_header(d: Diagnostic) -> Seq<char> {
    d.level.name() + code_text(d.code) + ": "@ + d.message@ + "\n"@
}

/// The location line of a plain-text diagnostic.
pub open spec fn plain_location(sp: DiagnosticSpan) -> Seq<char> {
    " --> "@ + sp.file@ + ":"@ + decimal(sp.line_start as nat) + ":"@ + decimal(sp.column_start as nat)
        + "\n"@
}

/// The quoted source line and its carets in a plain-text diagnostic.
pub open spec fn plain_snippet(sp: DiagnosticSpan, src: Seq<char>) -> Seq<char> {
    let line = decimal(sp.line_start as nat);
    spaces(line.len()) + " |\n"@ + line + " | "@ + src + "\n"@ + spaces(line.len()) + " | "@
        + caret_prefix_spec(src, sp.column_start) + carets(caret_count(sp)) + "\n"@
}

/// The help line of a plain-text diagnostic.
pub open spec fn plain_note(note: Option<String>) -> Seq<char> {
    match note {
        None => Seq::empty(),
        Some(n) => " help: "@ + n@ + "\n"@,
    }
}

/// The plain-text rendering of a diagnostic.
pub open spec fn plain_text(d: Diagnostic) -> Seq<char> {
    plain_header(d) + match d.span {
        None => Seq::empty(),
        Some(sp) => plain_location(sp) + match d.source_line {
            None => Seq::empty(),
            Some(src) => plain_snippet(sp, src@),
        },
    } + plain_note(d.note)
}

/// The first line of a coloured diagnostic.
pub open spec fn colored_header(d: Diagnostic) -> Seq<char> {
    "\x1b["@ + d.level.color() + "m"@ + d.level.name() + code_text(d.code) + "\x1b[0m\x1b[1m: "@
        + d.message@ + "\x1b[0m\n"@
}

/// The location line of a coloured diagnostic.
pub open spec fn colored_location(sp: DiagnosticSpan) -> Seq<char> {
    " \x1b[1;34m-->\x1b[0m "@ + sp.file@ + ":"@ + decimal(sp.line_start as nat) + ":"@ + decimal(
        sp.column_start as nat,
    ) + "\n"@
}

/// The quoted source line and its carets in a coloured diagnostic.
pub open spec fn colored_snippet(level: LogLevel, sp: DiagnosticSpan, src: Seq<char>) -> Seq<char> {
    let line = decimal(sp.line_start as nat);
    " \x1b[2;34m"@ + spaces(line.len()) + " |\x1b[0m\n"@ + " \x1b[1;34m"@ + line
        + "\x1b[0m \x1b[2;34m|\x1b[0m "@ + src + "\n"@ + " \x1b[2;34m"@ + spaces(line.len())
        + " |\x1b[0m "@ + caret_prefix_spec(src, sp.column_start) + "\x1b["@ + level.color() + "m"@
        + carets(caret_count(sp)) + "\x1b[0m\n"@
}

/// The help line of a coloured diagnostic.
pub open spec fn colored_note(note: Option<String>) -> Seq<char> {
    match note {
        None => Seq::empty(),
        Some(n) => " \x1b[1;32mhelp\x1b[0m\x1b[2m:\x1b[0m "@ + n@ + "\n"@,
    }
}

/// The ANSI-coloured rendering of a diagnostic.
pub open spec fn colored_text(d: Diagnostic) -> Seq<char> {
    colored_header(d) + match d.span {
        None => Seq::empty(),
        Some(sp) => colored_location(sp) + match d.source_line {
            None => Seq::empty(),
            Some(src) => colored_snippet(d.level, sp, src@),
        },
    } + colored_note(d.note)
}

fn push_code(s: &mut String, code: &Option<String>)
    ensures
        final(s)@ == old(s)@ + code_text(*code),
{
    match code {
        Some(c) => {
            s.append("[");
            s.append(c.as_str());
            s.append("]");
        },
        None => {
            assert(old(s)@ + Seq::<char>::empty() =~= old(s)@);
        },
    }
}

fn caret_count_exec(span: &DiagnosticSpan) -> (n: usize)
    ensures
        n == caret_count(*span),
{
    if span.column_end > span.column_start && span.column_end - span.column_start > 1 {
        span.column_end - span.column_start
    } else {
        1
    }
}

fn push_plain_header(s: &mut String, d: &Diagnostic)
    ensures
        final(s)@ == old(s)@ + plain_header(*d),
{
    s.append(d.level.as_str());
    push_code(s, &d.code);
    s.append(": ");
    s.append(d.message.as_str());
    s.append("\n");
    assert(s@ =~= old(s)@ + plain_header(*d));
}

fn push_plain_location(s: &mut String, sp: &DiagnosticSpan)
    ensures
        final(s)@ == old(s)@ + plain_location(*sp),
{
    s.append(" --> ");
    s.append(sp.file.as_str());
    s.append(":");
    push_decimal(s, sp.line_start);
    s.append(":");
    push_decimal(s, sp.column_start);
    s.append("\n");
    assert(s@ =~= old(s)@ + plain_location(*sp));
}

fn push_plain_snippet(s: &mut String, sp: &DiagnosticSpan, src: &str)
    ensures
        final(s)@ == old(s)@ + plain_snippet(*sp, src@),
{
    let line = decimal_string(sp.line_start);
    let width = line.as_str().unicode_len();
    push_repeat(s, ' ', width);
    s.append(" |\n");
    s.append(line.as_str());
    s.append(" | ");
    s.append(src);
    s.append("\n");
    push_repeat(s, ' ', width);
    s.append(" | ");
    let prefix = caret_prefix(src, sp.column_start);
    s.append(prefix.as_str());
    push_repeat(s, '^', caret_count_exec(sp));
    s.append("\n");
    assert(s@ =~= old(s)@ + plain_snippet(*sp, src@));
}

fn push_plain_note(s: &mut String, note: &Option<String>)
    ensures
        final(s)@ == old(s)@ + plain_note(*note),
{
    match note {
        Some(n) => {
            s.append(" help: ");
            s.append(n.as_str());
            s.append("\n");
            assert(s@ =~= old(s)@ + plain_note(*note));
        },
        None => {
            assert(s@ =~= old(s)@ + plain_note(*note));
        },
    }
}

/// Renders a diagnostic as plain text.
pub fn render_plain_diagnostic(d: &Diagnostic) -> (s: String)
    ensures
        s@ == plain_text(*d),
{
    let mut s = String::new();
    push_plain_header(&mut s, d);
    let ghost head = s@;
    match &d.span {
        Some(sp) => {
            push_plain_location(&mut s, sp);
            match &d.source_line {
                Some(src) => push_plain_snippet(&mut s, sp, src.as_str()),
                None => {},
            }
        },
        None => {},
    }
    let ghost mid = s@;
    push_plain_note(&mut s, &d.note);
    assert(s@ =~= plain_text(*d));
    s
}

fn push_colored_header(s: &mut String, d: &Diagnostic)
    ensures
        final(s)@ == old(s)@ + colored_header(*d),
{
    s.append("\x1b[");
    s.append(d.level.ansi_color());
    s.append("m");
    s.append(d.level.as_str());
    push_code(s, &d.code);
    s.append("\x1b[0m\x1b[1m: ");
    s.append(d.message.as_str());
    s.append("\x1b[0m\n");
    assert(s@ =~= old(s)@ + colored_header(*d));
}

fn push_colored_location(s: &mut String, sp: &DiagnosticSpan)
    ensures
        final(s)@ == old(s)@ + colored_location(*sp),
{
    s.append(" \x1b[1;34m-->\x1b[0m ");
    s.append(sp.file.as_str());
    s.append(":");
    push_decimal(s, sp.line_start);
    s.append(":");
    push_decimal(s, sp.column_start);
    s.append("\n");
    assert(s@ =~= old(s)@ + colored_location(*sp));
}

fn push_colored_snippet(s: &mut String, level: LogLevel, sp: &DiagnosticSpan, src: &str)
    ensures
        final(s)@ == old(s)@ + colored_snippet(level, *sp, src@),
{
    let line = decimal_string(sp.line_start);
    let width = line.as_str().unicode_len();
    s.append(" \x1b[2;34m");
    push_repeat(s, ' ', width);
    s.append(" |\x1b[0m\n");
    s.append(" \x1b[1;34m");
    s.append(line.as_str());
    s.append("\x1b[0m \x1b[2;34m|\x1b[0m ");
    s.append(src);
    s.append("\n");
    s.append(" \x1b[2;34m");
    push_repeat(s, ' ', width);
    s.append(" |\x1b[0m ");
    let prefix = caret_prefix(src, sp.column_start);
    s.append(prefix.as_str());
    s.append("\x1b[");
    s.append(level.ansi_color());
    s.append("m");
    push_repeat(s, '^', caret_count_exec(sp));
    s.append("\x1b[0m\n");
    assert(s@ =~= old(s)@ + colored_snippet(level, *sp, src@));
}

fn push_colored_note(s: &mut String, note: &Option<String>)
    ensures
        final(s)@ == old(s)@ + colored_note(*note),
{
    match note {
        Some(n) => {
            s.append(" \x1b[1;32mhelp\x1b[0m\x1b[2m:\x1b[0m ");
            s.append(n.as_str());
            s.append("\n");
            assert(s@ =~= old(s)@ + colored_note(*note));
        },
        None => {
            assert(s@ =~= old(s)@ + colored_note(*note));
        },
    }
}

/// Renders a diagnostic with ANSI colours.
pub fn render_colored_diagnostic(d: &Diagnostic) -> (s: String)
    ensures
        s@ == colored_text(*d),
{
    let mut s = String::new();
    push_colored_header(&mut s, d);
    match &d.span {
        Some(sp) => {
            push_colored_location(&mut s, sp);
            match &d.source_line {
                Some(src) => push_colored_snippet(&mut s, d.level, sp, src.as_str()),
                None => {},
            }
        },
        None => {},
    }
    push_colored_note(&mut s, &d.note);
    assert(s@ =~= colored_text(*d));
    s
}

/// Appends the UTF-8 encoding of `s` to `writer`.
pub fn write_str_bytes(writer: &mut Vec<u8>, s: &str)
    ensures
        final(writer)@ == old(writer)@ + vstd::utf8::encode_utf8(s@),
{
    let bytes = s.as_bytes();
    let ghost start = writer@;
    let mut i: usize = 0;
    while i < bytes.len()
        invariant
            i <= bytes@.len(),
            bytes@ == vstd::utf8::encode_utf8(s@),
            writer@ =~= start + bytes@.take(i as int),
        decreases bytes.len() - i,
    {
        writer.push(bytes[i]);
        assert(bytes@.take(i + 1) == bytes@.take(i as int).push(bytes@[i as int]));
        i = i + 1;
    }
    assert(bytes@.take(bytes@.len() as int) == bytes@);
}

/// Writes the plain-text rendering of a diagnostic as UTF-8.
pub fn write_plain_diagnostic(writer: &mut Vec<u8>, diagnostic: &Diagnostic)
    ensures
        final(writer)@ == old(writer)@ + vstd::utf8::encode_utf8(plain_text(*diagnostic)),
{
    let text = render_plain_diagnostic(diagnostic);
    write_str_bytes(writer, text.as_str());
}

/// Writes the coloured rendering of a diagnostic as UTF-8.
pub fn write_colored_diagnostic(writer: &mut Vec<u8>, diagnostic: &Diagnostic)
    ensures
        final(writer)@ == old(writer)@ + vstd::utf8::encode_utf8(colored_text(*diagnostic)),
{
    let text = render_colored_diagnostic(diagnostic);
    write_str_bytes(writer, text.as_str());
}

} // verus!

//! Assembly of the final page: scripts in dependency order with a line map
//! back to their sources, styles, templates, and the page placeholders.
use vstd::prelude::*;
use crate::component::{Component, Link};
use crate::config::Config;
use crate::js::ScriptImport;
use crate::vue::{at_span, lemma_seq_lt_total, lemma_seq_lt_transitive, seq_lt, str_lt};
use crate::log::{opt_string_view, source_line_of, Diagnostic, LineSpan, LogEntry, LogLevel, Logger};
use crate::text::{
    char_count_bound, chars_of, count_char, find, find_spec, lemma_count_char_last, lemma_find_from_bounds,
    lemma_rfind_char_bounds, owned, rfind_char, rfind_char_spec,
};

verus! {

broadcast use vstd::string::group_string_axioms;

/// A build that reported errors.
#[derive(Copy, Clone, Debug, PartialEq, Eq)]
pub struct BuildError;

/// Generated lines `generated_line_start..=generated_line_end` come from
/// `source_file`, starting at `source_line_start`.
#[derive(Clone, Debug, PartialEq, Eq)]
pub struct LineMapping {
    pub generated_line_start: usize,
    pub generated_line_end: usize,
    pub source_file: String,
    pub source_line_start: usize,
    pub source_column_offset: usize,
}

/// The assembled module script with the origin of its lines.
#[derive(Clone, Debug, PartialEq, Eq)]
pub struct MappedJavaScript {
    pub source: String,
    pub mappings: Vec<LineMapping>,
}

/// `m` covers the generated line `line`.
pub open spec fn covers(m: LineMapping, line: usize) -> bool {
    m.generated_line_start <= line <= m.generated_line_end
}

/// The first mapping at or after index `k` that covers `line`.
pub open spec fn first_cover_from(ms: Seq<LineMapping>, line: usize, k: int) -> Option<int>
    decreases ms.len() - k,
{
    if k < 0 || k >= ms.len() {
        None
    } else if covers(ms[k], line) {
        Some(k)
    } else {
        first_cover_from(ms, line, k + 1)
    }
}

/// The first mapping that covers `line`.
pub open spec fn first_cover(ms: Seq<LineMapping>, line: usize) -> Option<int> {
    first_cover_from(ms, line, 0)
}

pub proof fn lemma_first_cover_from(ms: Seq<LineMapping>, line: usize, k: int)
    requires
        0 <= k,
    ensures
        first_cover_from(ms, line, k) matches Some(i) ==> {
            &&& k <= i < ms.len()
            &&& covers(ms[i], line)
            &&& forall|j: int| k <= j < i ==> !covers(#[trigger] ms[j], line)
        },
        first_cover_from(ms, line, k) is None ==> forall|j: int| k <= j < ms.len() ==> !covers(
            #[trigger] ms[j],
            line,
        ),
    decreases ms.len() - k,
{
    if k < ms.len() && !covers(ms[k], line) {
        lemma_first_cover_from(ms, line, k + 1);
    }
}

/// The source line of the generated line `line` under mapping `m`.
pub open spec fn mapped_line(m: LineMapping, line: usize) -> int {
    m.source_line_start + line - m.generated_line_start
}

/// Mapping `line` back stays within `usize`.
pub open spec fn line_maps_in_range(ms: Seq<LineMapping>, line: usize) -> bool {
    first_cover(ms, line) matches Some(i) ==> mapped_line(ms[i], line) <= usize::MAX
}

fn first_cover_exec(ms: &Vec<LineMapping>, line: usize) -> (r: Option<usize>)
    ensures
        r matches Some(i) ==> first_cover(ms@, line) == Some(i as int),
        r is None ==> first_cover(ms@, line) is None,
{
    let mut k: usize = 0;
    while k < ms.len()
        invariant
            k <= ms@.len(),
            first_cover(ms@, line) == first_cover_from(ms@, line, k as int),
        decreases ms.len() - k,
    {
        let m = &ms[k];
        if line >= m.generated_line_start && line <= m.generated_line_end {
            return Some(k);
        }
        k = k + 1;
    }
    None
}

impl MappedJavaScript {
    /// The source file and line that the generated line `generated_line`
    /// comes from, by the first mapping that covers it.
    pub fn map_line(&self, generated_line: usize) -> (r: Option<(&str, usize)>)
        requires
            line_maps_in_range(self.mappings@, generated_line),
        ensures
            match first_cover(self.mappings@, generated_line) {
                None => r is None,
                Some(i) => r matches Some((file, line)) && file@ == self.mappings@[i].source_file@
                    && line == mapped_line(self.mappings@[i], generated_line),
            },
    {
        proof {
            lemma_first_cover_from(self.mappings@, generated_line, 0);
        }
        match first_cover_exec(&self.mappings, generated_line) {
            None => None,
            Some(i) => {
                let m = &self.mappings[i];
                let line = m.source_line_start + (generated_line - m.generated_line_start);
                Some((m.source_file.as_str(), line))
            },
        }
    }

    /// As [`MappedJavaScript::map_line`], with the column moved by the
    /// mapping's column offset.
    pub fn map_position(&self, generated_line: usize, generated_column: usize) -> (r: Option<
        (&str, usize, usize),
    >)
        requires
            line_maps_in_range(self.mappings@, generated_line),
            first_cover(self.mappings@, generated_line) matches Some(i) ==> generated_column
                + self.mappings@[i].source_column_offset <= usize::MAX,
        ensures
            match first_cover(self.mappings@, generated_line) {
                None => r is None,
                Some(i) => r matches Some((file, line, column)) && file@
                    == self.mappings@[i].source_file@ && line == mapped_line(
                    self.mappings@[i],
                    generated_line,
                ) && column == generated_column + self.mappings@[i].source_column_offset,
            },
    {
        proof {
            lemma_first_cover_from(self.mappings@, generated_line, 0);
        }
        match first_cover_exec(&self.mappings, generated_line) {
            None => None,
            Some(i) => {
                let m = &self.mappings[i];
                let line = m.source_line_start + (generated_line - m.generated_line_start);
                Some((m.source_file.as_str(), line, generated_column + m.source_column_offset))
            },
        }
    }
}

/// Each mapping covers at least its first line, and each ends at or
/// before the line where the next one starts.
pub open spec fn mappings_ordered(ms: Seq<LineMapping>) -> bool {
    &&& forall|i: int| 0 <= i < ms.len() ==> (#[trigger] ms[i]).generated_line_start <= ms[i].generated_line_end
    &&& forall|a: int, b: int|
        #![trigger ms[a], ms[b]]
        0 <= a < b < ms.len() ==> ms[a].generated_line_end <= ms[b].generated_line_start
}

/// In a line map whose mappings are in order, every line of a mapping
/// after its first maps back through that mapping.
pub proof fn lemma_ordered_lines_map_back(ms: Seq<LineMapping>, i: int, line: usize)
    requires
        mappings_ordered(ms),
        0 <= i < ms.len(),
        ms[i].generated_line_start < line <= ms[i].generated_line_end,
    ensures
        first_cover(ms, line) == Some(i),
{
    lemma_first_cover_from(ms, line, 0);
    if first_cover(ms, line) != Some(i) {
        assert(covers(ms[i], line));
        let j = first_cover(ms, line)->Some_0;
        assert(j < i);
        assert(ms[j].generated_line_end <= ms[i].generated_line_start);
    }
}

/// Number of `'\n'` in `v[..e]`.
fn count_newlines_in(v: &[char], e: usize) -> (n: usize)
    requires
        e <= v@.len(),
    ensures
        n == count_char(v@.take(e as int), '\n'),
        n <= e,
{
    let mut n: usize = 0;
    let mut i: usize = 0;
    while i < e
        invariant
            i <= e <= v@.len(),
            n == count_char(v@.take(i as int), '\n'),
            n <= i,
        decreases e - i,
    {
        assert(v@.take(i + 1).drop_last() == v@.take(i as int));
        if v[i] == '\n' {
            n = n + 1;
        }
        i = i + 1;
    }
    n
}

/// Number of `'\n'` in a string.
pub fn count_newlines(s: &str) -> (n: usize)
    ensures
        n == count_char(s@, '\n'),
{
    let v = chars_of(s);
    assert(v@.take(v@.len() as int) == v@);
    count_newlines_in(v.as_slice(), v.len())
}

/// Number of lines that `text` occupies when appended at the start of a
/// line: its line breaks, plus one for an unterminated last line.
pub open spec fn occupied_lines(text: Seq<char>) -> nat {
    count_char(text, '\n') + if text.len() > 0 && text.last() != '\n' {
        1nat
    } else {
        0nat
    }
}

/// 1 when `text` ends inside a line, else 0.
pub open spec fn open_line(text: Seq<char>) -> nat {
    if text.len() > 0 && text.last() != '\n' {
        1
    } else {
        0
    }
}

/// The last mapping of `ms` is the first that covers `line` when no
/// earlier one does.
proof fn lemma_last_is_first_cover(ms: Seq<LineMapping>, line: usize)
    requires
        ms.len() > 0,
        covers(ms.last(), line),
        forall|i: int| 0 <= i < ms.len() - 1 ==> !covers(#[trigger] ms[i], line),
    ensures
        first_cover(ms, line) == Some(ms.len() - 1),
{
    lemma_first_cover_from(ms, line, 0);
    if first_cover(ms, line) != Some(ms.len() - 1) {
        let i = first_cover(ms, line)->Some_0;
        assert(covers(ms[i], line));
    }
}

/// The plain values of a mapping.
pub open spec fn map_view(m: LineMapping) -> (int, int, Seq<char>, int, int) {
    (
        m.generated_line_start as int,
        m.generated_line_end as int,
        m.source_file@,
        m.source_line_start as int,
        m.source_column_offset as int,
    )
}

/// Text and mappings after appending `piece` from `file`, whose first line
/// is the source line `line`: a piece that occupies no line adds nothing.
pub open spec fn pushed(
    acc: (Seq<char>, Seq<(int, int, Seq<char>, int, int)>),
    piece: Seq<char>,
    file: Seq<char>,
    line: int,
    column: int,
) -> (Seq<char>, Seq<(int, int, Seq<char>, int, int)>) {
    if occupied_lines(piece) == 0 {
        acc
    } else {
        let start = (count_char(acc.0, '\n') + 1) as int;
        (acc.0 + piece, acc.1.push((start, start + occupied_lines(piece) as int - 1, file, line, column)))
    }
}

/// Builds a [`MappedJavaScript`] piece by piece.
pub struct MappedJavaScriptWriter {
    source: String,
    mappings: Vec<LineMapping>,
}

impl MappedJavaScriptWriter {
    /// The text written so far.
    pub closed spec fn text(&self) -> Seq<char> {
        self.source@
    }

    /// The mappings recorded so far.
    pub closed spec fn spec_mappings(&self) -> Seq<LineMapping> {
        self.mappings@
    }

    /// The text and the plain values of the mappings.
    pub open spec fn written(&self) -> (Seq<char>, Seq<(int, int, Seq<char>, int, int)>) {
        (self.text(), self.spec_mappings().map_values(|m: LineMapping| map_view(m)))
    }

    /// The mappings lie in order, each within the lines written so far.
    pub open spec fn wf(&self) -> bool {
        &&& forall|i: int|
            0 <= i < self.spec_mappings().len() ==> (#[trigger] self.spec_mappings()[i]).generated_line_start
                <= self.spec_mappings()[i].generated_line_end <= count_char(self.text(), '\n')
                + open_line(self.text())
        &&& forall|i: int, j: int|
            #![trigger self.spec_mappings()[i], self.spec_mappings()[j]]
            0 <= i < j < self.spec_mappings().len() ==> self.spec_mappings()[i].generated_line_end
                <= self.spec_mappings()[j].generated_line_start
    }

    pub fn new() -> (w: MappedJavaScriptWriter)
        ensures
            w.text() == Seq::<char>::empty(),
            w.spec_mappings() == Seq::<LineMapping>::empty(),
            w.wf(),
    {
        MappedJavaScriptWriter { source: String::new(), mappings: Vec::new() }
    }

    /// The one-indexed line that the next text starts on.
    pub fn current_line(&self) -> (n: usize)
        ensures
            n == count_char(self.text(), '\n') + 1,
    {
        char_count_bound(self.source.as_str());
        proof {
            lemma_count_char_last(self.text(), '\n');
        }
        count_newlines(self.source.as_str()) + 1
    }

    /// Appends text that maps to no source.
    #[verifier::spinoff_prover]
    pub fn push_unmapped(&mut self, source: &str)
        requires
            old(self).wf(),
        ensures
            final(self).text() == old(self).text() + source@,
            final(self).spec_mappings() == old(self).spec_mappings(),
            final(self).written() == (old(self).written().0 + source@, old(self).written().1),
            final(self).wf(),
    {
        self.source.append(source);
        proof {
            crate::text::lemma_count_char_append(old(self).text(), source@, '\n');
            crate::text::lemma_count_char_last(source@, '\n');
            if source@.len() == 0 {
                assert(self.text() == old(self).text());
            } else {
                assert(self.text().last() == source@.last());
            }
            assert forall|i: int|
                0 <= i < self.spec_mappings().len() implies (#[trigger] self.spec_mappings()[i]).generated_line_start
                <= self.spec_mappings()[i].generated_line_end <= count_char(self.text(), '\n')
                + open_line(self.text()) by {
                assert(self.spec_mappings()[i] == old(self).spec_mappings()[i]);
            }
        }
    }

    /// Appends text that comes from `source_file`, its first line being the
    /// source line `source_line_start`; text that occupies no line is not
    /// recorded.
    #[verifier::spinoff_prover]
    pub fn push_mapped(
        &mut self,
        source: &str,
        source_file: &str,
        source_line_start: usize,
        source_column_offset: usize,
    )
        requires
            old(self).wf(),
        ensures
            final(self).wf(),
            final(self).written() == pushed(
                old(self).written(),
                source@,
                source_file@,
                source_line_start as int,
                source_column_offset as int,
            ),
            occupied_lines(source@) == 0 ==> final(self).text() == old(self).text()
                && final(self).spec_mappings() == old(self).spec_mappings(),
            occupied_lines(source@) > 0 ==> {
                &&& final(self).text() == old(self).text() + source@
                &&& final(self).spec_mappings() == old(self).spec_mappings().push(
                    final(self).spec_mappings().last(),
                )
                &&& final(self).spec_mappings().last().generated_line_start == count_char(
                    old(self).text(),
                    '\n',
                ) + 1
                &&& final(self).spec_mappings().last().generated_line_end == count_char(
                    old(self).text(),
                    '\n',
                ) + occupied_lines(source@)
                &&& final(self).spec_mappings().last().source_file@ == source_file@
                &&& final(self).spec_mappings().last().source_line_start == source_line_start
                &&& final(self).spec_mappings().last().source_column_offset
                    == source_column_offset
                &&& forall|line: usize|
                    (count_char(old(self).text(), '\n') + 1 < line <= count_char(old(self).text(), '\n')
                        + occupied_lines(source@) || (line == count_char(old(self).text(), '\n') + 1
                        && open_line(old(self).text()) == 0)) ==> #[trigger] first_cover(
                        final(self).spec_mappings(),
                        line,
                    ) == Some(old(self).spec_mappings().len() as int)
            },
    {
        char_count_bound(source);
        proof {
            lemma_count_char_last(source@, '\n');
        }
        let breaks = count_newlines(source);
        let v = chars_of(source);
        let unterminated: usize = if v.len() > 0 && v[v.len() - 1] != '\n' {
            1
        } else {
            0
        };
        let occupied = breaks + unterminated;
        if occupied == 0 {
            return;
        }
        let generated_line_start = self.current_line();
        self.source.append(source);
        char_count_bound(self.source.as_str());
        proof {
            lemma_count_char_last(self.text(), '\n');
            crate::text::lemma_count_char_append(old(self).text(), source@, '\n');
        }
        let mapping = LineMapping {
            generated_line_start,
            generated_line_end: generated_line_start + occupied - 1,
            source_file: crate::text::owned(source_file),
            source_line_start,
            source_column_offset,
        };
        let ghost pushed_mapping = mapping;
        self.mappings.push(mapping);
        proof {
            crate::text::lemma_count_char_append(old(self).text(), source@, '\n');
            crate::text::lemma_count_char_last(source@, '\n');
            assert(self.mappings@.drop_last() == old(self).mappings@);
            assert(self.text().last() == source@.last());
            assert(self.spec_mappings().map_values(|m: LineMapping| map_view(m)) == old(self).spec_mappings().map_values(|m: LineMapping| map_view(m)).push(map_view(pushed_mapping)));
            assert forall|i: int|
                0 <= i < self.spec_mappings().len() implies (#[trigger] self.spec_mappings()[i]).generated_line_start
                <= self.spec_mappings()[i].generated_line_end <= count_char(self.text(), '\n')
                + open_line(self.text()) by {
                if i < self.spec_mappings().len() - 1 {
                    assert(self.spec_mappings()[i] == old(self).spec_mappings()[i]);
                }
            }
            assert forall|line: usize|
                (count_char(old(self).text(), '\n') + 1 < line <= count_char(old(self).text(), '\n')
                    + occupied_lines(source@) || (line == count_char(old(self).text(), '\n') + 1
                    && open_line(old(self).text()) == 0)) implies #[trigger] first_cover(
                    self.spec_mappings(),
                    line,
                ) == Some(old(self).spec_mappings().len() as int) by {
                assert forall|i: int| 0 <= i < self.spec_mappings().len() - 1 implies !covers(
                    #[trigger] self.spec_mappings()[i],
                    line,
                ) by {
                    assert(self.spec_mappings()[i] == old(self).spec_mappings()[i]);
                    assert(old(self).spec_mappings()[i].generated_line_end <= count_char(old(self).text(), '\n') + open_line(old(self).text()));
                }
                lemma_last_is_first_cover(self.spec_mappings(), line);
            }
            assert forall|i: int, j: int|
                #![trigger self.spec_mappings()[i], self.spec_mappings()[j]]
                0 <= i < j < self.spec_mappings().len() implies self.spec_mappings()[i].generated_line_end
                <= self.spec_mappings()[j].generated_line_start by {
                assert(self.spec_mappings()[i] == old(self).spec_mappings()[i]);
                if j == self.spec_mappings().len() - 1 {
                    assert(old(self).spec_mappings()[i].generated_line_end <= count_char(old(self).text(), '\n') + open_line(old(self).text()));
                } else {
                    assert(self.spec_mappings()[j] == old(self).spec_mappings()[j]);
                }
            }
        }
    }

    /// The script and its mappings.
    pub fn finish(self) -> (js: MappedJavaScript)
        ensures
            js.source@ == self.text(),
            js.mappings@ == self.spec_mappings(),
    {
        MappedJavaScript { source: self.source, mappings: self.mappings }
    }
}

/// The line and the zero-indexed column range of the first occurrence of
/// `needle` in `source`; an empty needle is given a width of one column.
pub open spec fn source_span_spec(source: Seq<char>, needle: Seq<char>) -> Option<(usize, usize, usize)> {
    match find_spec(source, needle) {
        None => None,
        Some(start) => {
            let prefix = source.take(start);
            let line_begin = match rfind_char_spec(prefix, '\n') {
                Some(i) => i + 1,
                None => 0,
            };
            let column = start - line_begin;
            let width = if needle.len() == 0 {
                1
            } else {
                needle.len() as int
            };
            Some(((count_char(prefix, '\n') + 1) as usize, column as usize, (column + width) as usize))
        },
    }
}

/// The location of the first occurrence of `needle` in `file`'s `source`.
pub fn find_source_span<'a>(file: &'a str, source: &str, needle: &str) -> (r: Option<LineSpan<'a>>)
    ensures
        match source_span_spec(source@, needle@) {
            None => r is None,
            Some((line, column_start, column_end)) => r matches Some(sp) && sp.file == file
                && sp.line_start == line && sp.line_end == line && sp.column_start == column_start
                && sp.column_end == column_end,
        },
        r matches Some(sp) ==> sp.column_start < usize::MAX && sp.column_end < usize::MAX,
{
    char_count_bound(source);
    let v = chars_of(source);
    let w = chars_of(needle);
    let start = match find(v.as_slice(), w.as_slice()) {
        Some(start) => start,
        None => return None,
    };
    proof {
        lemma_find_from_bounds(v@, w@, 0);
        lemma_rfind_char_bounds(v@.take(start as int), '\n');
    }
    let line = count_newlines_in(v.as_slice(), start) + 1;
    let line_begin = match rfind_char(v.as_slice(), start, '\n') {
        Some(i) => i + 1,
        None => 0,
    };
    let column_start = start - line_begin;
    let width = if w.len() == 0 {
        1
    } else {
        w.len()
    };
    Some(
        LineSpan {
            file,
            line_start: line,
            line_end: line,
            column_start,
            column_end: column_start + width,
        },
    )
}

/// Where the occurrence of `pat` at `index` of `v` ends.
fn occurrence_end(v: &[char], pat: &[char], index: usize) -> (e: usize)
    requires
        crate::text::occurs_at(v@, pat@, index as int),
    ensures
        e == index + pat@.len(),
        e <= v@.len(),
{
    let n = v.len();
    assert(index + pat@.len() <= n);
    index + pat.len()
}

/// `d` is at `span` of `file` (with one-indexed columns), and carries the
/// line of `source` that the span starts on.
pub open spec fn spanned(d: Diagnostic, file: Seq<char>, source: Option<Seq<char>>, span: Option<(usize, usize, usize)>) -> bool {
    match span {
        None => d.span is None && d.source_line is None,
        Some((line, column_start, column_end)) => {
            &&& d.span matches Some(ds)
            &&& ds.file@ == file
            &&& ds.line_start == line
            &&& ds.line_end == line
            &&& ds.column_start == column_start + 1
            &&& ds.column_end == column_end + 1
            &&& opt_string_view(d.source_line) == source_line_of(source, line)
        },
    }
}

/// `d` is an error with the given message and help.
pub open spec fn error_with(d: Diagnostic, message: Seq<char>, note: Seq<char>) -> bool {
    &&& d.level == LogLevel::Error
    &&& d.code is None
    &&& d.message@ == message
    &&& d.note matches Some(n) && n@ == note
}

/// Where a missing placeholder is reported: at `</body>`, else at `</head>`.
pub open spec fn placeholder_span(page: Seq<char>) -> Option<(usize, usize, usize)> {
    match source_span_spec(page, "</body>"@) {
        Some(sp) => Some(sp),
        None => source_span_spec(page, "</head>"@),
    }
}

/// The message about a page template without the placeholder `tag`.
pub open spec fn missing_placeholder_message(file: Seq<char>, tag: Seq<char>) -> Seq<char> {
    "Page template \""@ + file + "\" is missing the required "@ + tag + " placeholder."@
}

/// `d` reports that the page template `file` lacks the placeholder `tag`.
pub open spec fn missing_placeholder_logged(d: Diagnostic, file: Seq<char>, page: Seq<char>, tag: Seq<char>) -> bool {
    &&& error_with(d, missing_placeholder_message(file, tag), "Add the required placeholder comment to the page template."@)
    &&& spanned(d, file, Some(page), placeholder_span(page))
}

/// Replaces the first occurrence of the placeholder `tag` in the page
/// template `source`; a missing placeholder is reported and the page is
/// returned unchanged.
#[verifier::spinoff_prover]
pub fn replace(log: &mut Logger, file: &str, source: &str, tag: &str, replacement: &str) -> (r: String)
    ensures
        final(log).spec_format() == old(log).spec_format(),
        match find_spec(source@, tag@) {
            Some(i) => {
                &&& r@ == source@.take(i) + replacement@ + source@.skip(i + tag@.len())
                &&& final(log).entries() == old(log).entries()
            },
            None => {
                &&& r@ == source@
                &&& final(log).entries().len() == old(log).entries().len() + 1
                &&& final(log).entries().drop_last() == old(log).entries()
                &&& missing_placeholder_logged(final(log).entries().last(), file@, source@, tag@)
            },
        },
{
    let v = chars_of(source);
    let w = chars_of(tag);
    match find(v.as_slice(), w.as_slice()) {
        Some(index) => {
            proof {
                lemma_find_from_bounds(v@, w@, 0);
                assert(index + w@.len() <= v@.len());
            }
            let mut result = crate::text::string_of_range(v.as_slice(), 0, index);
            result.append(replacement);
            crate::text::push_chars(&mut result, v.as_slice(), occurrence_end(v.as_slice(), w.as_slice(), index), v.len());
            proof {
                assert(v@.subrange(0, index as int) == source@.take(index as int));
                assert(v@.subrange(index + w@.len(), v@.len() as int) == source@.skip(index + tag@.len()));
            }
            result
        },
        None => {
            let span = match find_source_span(file, source, "</body>") {
                Some(sp) => Some(sp),
                None => find_source_span(file, source, "</head>"),
            };
            let mut message = owned("Page template \"");
            message.append(file);
            message.append("\" is missing the required ");
            message.append(tag);
            message.append(" placeholder.");
            log.log(
                Some(source),
                LogEntry {
                    level: LogLevel::Error,
                    span,
                    message,
                    note: Some("Add the required placeholder comment to the page template."),
                },
            );
            owned(source)
        },
    }
}

/// `parts` joined with `sep` between them.
pub open spec fn joined(parts: Seq<Seq<char>>, sep: Seq<char>) -> Seq<char>
    decreases parts.len(),
{
    if parts.len() == 0 {
        Seq::empty()
    } else if parts.len() == 1 {
        parts[0]
    } else {
        joined(parts.drop_last(), sep) + sep + parts.last()
    }
}

/// The templates of the components that have one, in order.
pub open spec fn templates_of(cs: Seq<Component>) -> Seq<Seq<char>>
    decreases cs.len(),
{
    if cs.len() == 0 {
        Seq::empty()
    } else {
        templates_of(cs.drop_last()) + match cs.last().template {
            Some(t) => seq![t@],
            None => Seq::empty(),
        }
    }
}

/// The styles of the components that have one, in order.
pub open spec fn styles_of(cs: Seq<Component>) -> Seq<Seq<char>>
    decreases cs.len(),
{
    if cs.len() == 0 {
        Seq::empty()
    } else {
        styles_of(cs.drop_last()) + match cs.last().style {
            Some(t) => seq![t@],
            None => Seq::empty(),
        }
    }
}

/// Appends `part` to the join of `parts`.
proof fn lemma_joined_push(parts: Seq<Seq<char>>, part: Seq<char>, sep: Seq<char>)
    ensures
        joined(parts.push(part), sep) == if parts.len() == 0 {
            part
        } else {
            joined(parts, sep) + sep + part
        },
{
    assert(parts.push(part).drop_last() == parts);
}

/// The templates of all components, one after another on their own lines.
pub fn render_templates(components: &[Component]) -> (r: String)
    ensures
        r@ == joined(templates_of(components@), "\n"@),
{
    let mut result = String::new();
    let mut first = true;
    let mut i: usize = 0;
    while i < components.len()
        invariant
            i <= components@.len(),
            result@ == joined(templates_of(components@.take(i as int)), "\n"@),
            first == (templates_of(components@.take(i as int)).len() == 0),
        decreases components.len() - i,
    {
        assert(components@.take(i + 1).drop_last() == components@.take(i as int));
        if let Some(t) = &components[i].template {
            proof {
                lemma_joined_push(templates_of(components@.take(i as int)), t@, "\n"@);
                assert(templates_of(components@.take(i + 1)) == templates_of(components@.take(i as int)).push(t@));
            }
            if !first {
                result.append("\n");
            }
            result.append(t.as_str());
            first = false;
        } else {
            assert(templates_of(components@.take(i + 1)) == templates_of(components@.take(i as int)));
        }
        i = i + 1;
    }
    assert(components@.take(components@.len() as int) == components@);
    result
}

/// The styles of all components in one `<style>` element.
pub fn render_styles(components: &[Component]) -> (r: String)
    ensures
        r@ == "<style>\n"@ + joined(styles_of(components@), "\n"@) + "\n</style>"@,
{
    let mut styles = String::new();
    let mut first = true;
    let mut i: usize = 0;
    while i < components.len()
        invariant
            i <= components@.len(),
            styles@ == joined(styles_of(components@.take(i as int)), "\n"@),
            first == (styles_of(components@.take(i as int)).len() == 0),
        decreases components.len() - i,
    {
        assert(components@.take(i + 1).drop_last() == components@.take(i as int));
        if let Some(t) = &components[i].style {
            proof {
                lemma_joined_push(styles_of(components@.take(i as int)), t@, "\n"@);
                assert(styles_of(components@.take(i + 1)) == styles_of(components@.take(i as int)).push(t@));
            }
            if !first {
                styles.append("\n");
            }
            styles.append(t.as_str());
            first = false;
        } else {
            assert(styles_of(components@.take(i + 1)) == styles_of(components@.take(i as int)));
        }
        i = i + 1;
    }
    assert(components@.take(components@.len() as int) == components@);
    let mut result = owned("<style>\n");
    result.append(styles.as_str());
    result.append("\n</style>");
    result
}

/// The index of the component at `path` among `cs[..n]`: the last one
/// with that path, as a map collected from the components keeps.
pub open spec fn lookup_upto(cs: Seq<Component>, path: Seq<char>, n: int) -> Option<int>
    decreases n,
{
    if n <= 0 {
        None
    } else if cs[n - 1].path@ == path {
        Some(n - 1)
    } else {
        lookup_upto(cs, path, n - 1)
    }
}

/// The index of the component at `path`.
pub open spec fn lookup(cs: Seq<Component>, path: Seq<char>) -> Option<int> {
    lookup_upto(cs, path, cs.len() as int)
}

pub proof fn lemma_lookup_upto(cs: Seq<Component>, path: Seq<char>, n: int)
    requires
        n <= cs.len(),
    ensures
        lookup_upto(cs, path, n) matches Some(i) ==> 0 <= i < n && cs[i].path@ == path,
    decreases n,
{
    if n > 0 && cs[n - 1].path@ != path {
        lemma_lookup_upto(cs, path, n - 1);
    }
}

fn lookup_exec(cs: &[Component], path: &str) -> (r: Option<usize>)
    ensures
        r matches Some(i) ==> lookup(cs@, path@) == Some(i as int),
        r is None ==> lookup(cs@, path@) is None,
{
    let mut n = cs.len();
    while n > 0
        invariant
            n <= cs@.len(),
            lookup(cs@, path@) == lookup_upto(cs@, path@, n as int),
        decreases n,
    {
        if crate::text::str_eq(cs[n - 1].path.as_str(), path) {
            return Some(n - 1);
        }
        n = n - 1;
    }
    None
}

/// A problem met while ordering the components: an import of a missing
/// component, or one that closes a cycle; `importer` is the component
/// that imports `path`, none for the main component.
pub struct TopoProblem {
    pub importer: Option<int>,
    pub path: Seq<char>,
    pub cycle: bool,
}

/// The state of the depth-first walk: the components on the current path,
/// those done, the order they were done in, and the problems met.
pub struct TopoState {
    pub visiting: Seq<bool>,
    pub visited: Seq<bool>,
    pub order: Seq<int>,
    pub problems: Seq<TopoProblem>,
}

/// The state before the walk over `n` components.
pub open spec fn topo_start(n: nat) -> TopoState {
    TopoState {
        visiting: Seq::new(n, |i: int| false),
        visited: Seq::new(n, |i: int| false),
        order: Seq::empty(),
        problems: Seq::empty(),
    }
}

/// `st` with one more problem.
pub open spec fn with_topo_problem(st: TopoState, p: TopoProblem) -> TopoState {
    TopoState { problems: st.problems.push(p), ..st }
}

/// Visits the component at `path`, imported by `importer`: its imports
/// first, then itself; a component already done is skipped, and one on the
/// current path closes a cycle.  `fuel` bounds the depth.
pub open spec fn visit_spec(cs: Seq<Component>, path: Seq<char>, importer: Option<int>, st: TopoState, fuel: nat) -> TopoState
    decreases fuel, 0int, 0int,
{
    match lookup(cs, path) {
        None => with_topo_problem(st, TopoProblem { importer, path, cycle: false }),
        Some(i) => if st.visited[i] {
            st
        } else if st.visiting[i] {
            with_topo_problem(st, TopoProblem { importer, path, cycle: true })
        } else if fuel == 0 {
            st
        } else {
            let inner = visit_links(
                cs,
                i,
                cs[i].links@.len() as int,
                TopoState { visiting: st.visiting.update(i, true), ..st },
                (fuel - 1) as nat,
            );
            TopoState {
                visiting: inner.visiting.update(i, false),
                visited: inner.visited.update(i, true),
                order: inner.order.push(i),
                problems: inner.problems,
            }
        },
    }
}

/// Visits the first `k` imports of component `i`, in order.
pub open spec fn visit_links(cs: Seq<Component>, i: int, k: int, st: TopoState, fuel: nat) -> TopoState
    decreases fuel, 1int, k,
{
    if k <= 0 || !(0 <= i < cs.len()) || k > cs[i].links@.len() {
        st
    } else {
        visit_spec(cs, cs[i].links@[k - 1].href@, Some(i), visit_links(cs, i, k - 1, st, fuel), fuel)
    }
}

/// The walk from the main component.
pub open spec fn topo_walk(cs: Seq<Component>, main: Seq<char>) -> TopoState {
    visit_spec(cs, main, None, topo_start(cs.len()), cs.len())
}

/// The message of a problem of the walk.
pub open spec fn topo_message(cs: Seq<Component>, p: TopoProblem) -> Seq<char> {
    match p.importer {
        Some(j) => if p.cycle {
            "Component import cycle detected: \""@ + cs[j].path@ + "\" recursively depends on \""@ + p.path
                + "\"."@
        } else {
            "Component \""@ + cs[j].path@ + "\" imports missing component \""@ + p.path + "\"."@
        },
        None => if p.cycle {
            "Component import cycle detected at \""@ + p.path + "\"."@
        } else {
            "Missing root component \""@ + p.path + "\"."@
        },
    }
}

/// The help of a problem of the walk.
pub open spec fn topo_note(p: TopoProblem) -> Seq<char> {
    if p.cycle {
        "Remove the cycle so component imports form a directed acyclic graph."@
    } else {
        "Check the href path in the component import link."@
    }
}

/// `d` reports the problem `p`: at the import in the importer's source
/// where the path can be found there.
pub open spec fn topo_problem_logged(d: Diagnostic, cs: Seq<Component>, p: TopoProblem) -> bool {
    &&& error_with(d, topo_message(cs, p), topo_note(p))
    &&& match p.importer {
        Some(j) => spanned(d, cs[j].path@, Some(cs[j].source@), source_span_spec(cs[j].source@, p.path)),
        None => d.span is None && d.source_line is None,
    }
}

/// `entries` are `base` followed by the reports of `problems`.
pub open spec fn topo_logged(entries: Seq<Diagnostic>, base: Seq<Diagnostic>, cs: Seq<Component>, problems: Seq<TopoProblem>) -> bool {
    &&& entries.len() == base.len() + problems.len()
    &&& entries.take(base.len() as int) == base
    &&& forall|k: int|
        0 <= k < problems.len() ==> topo_problem_logged(#[trigger] entries[base.len() + k], cs, problems[k])
}

/// Number of `false` in `s`.
pub open spec fn count_false(s: Seq<bool>) -> nat
    decreases s.len(),
{
    if s.len() == 0 {
        0
    } else {
        count_false(s.drop_last()) + if s.last() {
            0nat
        } else {
            1nat
        }
    }
}

proof fn lemma_count_false_update(s: Seq<bool>, i: int)
    requires
        0 <= i < s.len(),
        !s[i],
    ensures
        count_false(s) >= 1,
        count_false(s.update(i, true)) + 1 == count_false(s),
    decreases s.len(),
{
    if i < s.len() - 1 {
        assert(s.update(i, true).drop_last() == s.drop_last().update(i, true));
        lemma_count_false_update(s.drop_last(), i);
    } else {
        assert(s.update(i, true).drop_last() == s.drop_last());
    }
}

proof fn lemma_count_false_all(n: nat)
    ensures
        count_false(Seq::new(n, |i: int| false)) == n,
    decreases n,
{
    if n > 0 {
        assert(Seq::new(n, |i: int| false).drop_last() == Seq::new((n - 1) as nat, |i: int| false));
        lemma_count_false_all((n - 1) as nat);
    }
}

/// The walk's state as exec values.
struct Walk {
    visiting: Vec<bool>,
    visited: Vec<bool>,
    order: Vec<usize>,
    problems: Ghost<Seq<TopoProblem>>,
}

impl Walk {
    spec fn state(&self) -> TopoState {
        TopoState {
            visiting: self.visiting@,
            visited: self.visited@,
            order: self.order@.map_values(|x: usize| x as int),
            problems: self.problems@,
        }
    }
}

/// Reports a problem of the walk.
fn log_topo_problem(log: &mut Logger, cs: &[Component], path: &str, importer: Option<usize>, cycle: bool)
    requires
        importer matches Some(j) ==> j < cs@.len(),
    ensures
        final(log).entries() == old(log).entries().push(final(log).entries().last()),
        topo_problem_logged(
            final(log).entries().last(),
            cs@,
            TopoProblem {
                importer: match importer {
                    Some(j) => Some(j as int),
                    None => None,
                },
                path: path@,
                cycle,
            },
        ),
{
    let note = if cycle {
        "Remove the cycle so component imports form a directed acyclic graph."
    } else {
        "Check the href path in the component import link."
    };
    match importer {
        Some(j) => {
            let importer = &cs[j];
            let mut message = if cycle {
                owned("Component import cycle detected: \"")
            } else {
                owned("Component \"")
            };
            message.append(importer.path.as_str());
            if cycle {
                message.append("\" recursively depends on \"");
            } else {
                message.append("\" imports missing component \"");
            }
            message.append(path);
            message.append("\".");
            let span = find_source_span(importer.path.as_str(), importer.source.as_str(), path);
            log.log(Some(importer.source.as_str()), LogEntry { level: LogLevel::Error, span, message, note: Some(note) });
        },
        None => {
            let mut message = if cycle {
                owned("Component import cycle detected at \"")
            } else {
                owned("Missing root component \"")
            };
            message.append(path);
            message.append("\".");
            log.log(None, LogEntry { level: LogLevel::Error, span: None, message, note: Some(note) });
        },
    }
    assert(final(log).entries() =~= old(log).entries().push(final(log).entries().last()));
}

/// Extends `topo_logged` by one report.
proof fn lemma_topo_logged_push(entries: Seq<Diagnostic>, d: Diagnostic, base: Seq<Diagnostic>, cs: Seq<Component>, problems: Seq<TopoProblem>, p: TopoProblem)
    requires
        topo_logged(entries, base, cs, problems),
        topo_problem_logged(d, cs, p),
    ensures
        topo_logged(entries.push(d), base, cs, problems.push(p)),
{
    assert(entries.push(d).take(base.len() as int) == entries.take(base.len() as int));
    assert forall|k: int| 0 <= k < problems.push(p).len() implies topo_problem_logged(
        #[trigger] entries.push(d)[base.len() + k],
        cs,
        problems.push(p)[k],
    ) by {
        if k < problems.len() {
            assert(entries.push(d)[base.len() + k] == entries[base.len() + k]);
        }
    }
}

/// Visits the component at `path` (see [`visit_spec`]).
fn visit(
    log: &mut Logger,
    cs: &[Component],
    path: &str,
    importer: Option<usize>,
    walk: &mut Walk,
    Ghost(base): Ghost<Seq<Diagnostic>>,
    Ghost(fuel): Ghost<nat>,
)
    requires
        old(walk).visiting@.len() == cs@.len(),
        old(walk).visited@.len() == cs@.len(),
        importer matches Some(j) ==> j < cs@.len(),
        count_false(old(walk).visiting@) <= fuel,
        topo_logged(old(log).entries(), base, cs@, old(walk).problems@),
        forall|q: int| 0 <= q < old(walk).order@.len() ==> (#[trigger] old(walk).order@[q]) < cs@.len(),
    ensures
        forall|q: int| 0 <= q < final(walk).order@.len() ==> (#[trigger] final(walk).order@[q]) < cs@.len(),
        final(walk).state() == visit_spec(
            cs@,
            path@,
            match importer {
                Some(j) => Some(j as int),
                None => None,
            },
            old(walk).state(),
            fuel,
        ),
        final(walk).visiting@ == old(walk).visiting@,
        final(walk).visited@.len() == cs@.len(),
        topo_logged(final(log).entries(), base, cs@, final(walk).problems@),
    decreases fuel,
{
    let ghost imp: Option<int> = match importer {
        Some(j) => Some(j as int),
        None => None,
    };
    let ghost st0 = walk.state();
    match lookup_exec(cs, path) {
        None => {
            let ghost e0 = log.entries();
            log_topo_problem(log, cs, path, importer, false);
            let ghost p = TopoProblem { importer: imp, path: path@, cycle: false };
            proof {
                lemma_topo_logged_push(e0, log.entries().last(), base, cs@, walk.problems@, p);
            }
            walk.problems = Ghost(walk.problems@.push(p));
        },
        Some(i) => {
            proof {
                lemma_lookup_upto(cs@, path@, cs@.len() as int);
            }
            if walk.visited[i] {
                return;
            }
            if walk.visiting[i] {
                let ghost e0 = log.entries();
                log_topo_problem(log, cs, path, importer, true);
                let ghost p = TopoProblem { importer: imp, path: path@, cycle: true };
                proof {
                    lemma_topo_logged_push(e0, log.entries().last(), base, cs@, walk.problems@, p);
                }
                walk.problems = Ghost(walk.problems@.push(p));
                return;
            }
            proof {
                lemma_count_false_update(walk.visiting@, i as int);
            }
            let ghost inner_fuel = (fuel - 1) as nat;
            walk.visiting.set(i, true);
            let ghost st1 = walk.state();
            assert(st1 == TopoState { visiting: st0.visiting.update(i as int, true), ..st0 });
            let links = &cs[i].links;
            let mut k: usize = 0;
            while k < links.len()
                invariant
                    i < cs@.len(),
                    links@ == cs@[i as int].links@,
                    k <= links@.len(),
                    walk.visiting@ == st1.visiting,
                    walk.visiting@.len() == cs@.len(),
                    walk.visited@.len() == cs@.len(),
                    inner_fuel + 1 == fuel,
                    forall|q: int| 0 <= q < walk.order@.len() ==> (#[trigger] walk.order@[q]) < cs@.len(),
                    count_false(walk.visiting@) <= inner_fuel,
                    walk.state() == visit_links(cs@, i as int, k as int, st1, inner_fuel),
                    topo_logged(log.entries(), base, cs@, walk.problems@),
                decreases links.len() - k,
            {
                visit(log, cs, links[k].href.as_str(), Some(i), walk, Ghost(base), Ghost(inner_fuel));
                k = k + 1;
            }
            walk.visiting.set(i, false);
            walk.visited.set(i, true);
            walk.order.push(i);
            proof {
                assert(walk.visiting@ == st0.visiting);
                let inner = visit_links(cs@, i as int, cs@[i as int].links@.len() as int, st1, inner_fuel);
                assert(walk.order@.map_values(|x: usize| x as int) == inner.order.push(i as int));
            }
        },
    }
}

/// An import of component `c`: its text, the component's path, and its
/// source line and column offset.
pub open spec fn import_of(cs: Seq<Component>, c: int, imp: ScriptImport) -> (Seq<char>, Seq<char>, int, int) {
    (imp.text@, cs[c].path@, imp.source_line as int, imp.source_column_offset as int)
}

/// The imports of component `c`, in order.
pub open spec fn imports_of(cs: Seq<Component>, c: int) -> Seq<(Seq<char>, Seq<char>, int, int)> {
    cs[c].imports@.map_values(|imp: ScriptImport| import_of(cs, c, imp))
}

/// The imports of the components in `order`, one component after another.
pub open spec fn all_imports(cs: Seq<Component>, order: Seq<int>) -> Seq<(Seq<char>, Seq<char>, int, int)>
    decreases order.len(),
{
    if order.len() == 0 {
        Seq::empty()
    } else {
        all_imports(cs, order.drop_last()) + imports_of(cs, order.last())
    }
}

/// `x` inserted before the first import whose text is greater.
pub open spec fn insert_import(acc: Seq<(Seq<char>, Seq<char>, int, int)>, x: (Seq<char>, Seq<char>, int, int)) -> Seq<(Seq<char>, Seq<char>, int, int)>
    decreases acc.len(),
{
    if acc.len() == 0 {
        seq![x]
    } else if seq_lt(x.0, acc[0].0) {
        seq![x] + acc
    } else {
        seq![acc[0]] + insert_import(acc.drop_first(), x)
    }
}

/// The imports sorted by text, each text once with its first occurrence
/// (a stable sort followed by removing repeated texts).
pub open spec fn select_imports(xs: Seq<(Seq<char>, Seq<char>, int, int)>) -> Seq<(Seq<char>, Seq<char>, int, int)>
    decreases xs.len(),
{
    if xs.len() == 0 {
        Seq::empty()
    } else {
        let acc = select_imports(xs.drop_last());
        if exists|i: int| 0 <= i < acc.len() && (#[trigger] acc[i]).0 == xs.last().0 {
            acc
        } else {
            insert_import(acc, xs.last())
        }
    }
}

proof fn lemma_insert_import_at(acc: Seq<(Seq<char>, Seq<char>, int, int)>, x: (Seq<char>, Seq<char>, int, int), k: int)
    requires
        0 <= k <= acc.len(),
        forall|j: int| 0 <= j < k ==> !seq_lt(x.0, #[trigger] acc[j].0),
        k < acc.len() ==> seq_lt(x.0, acc[k].0),
    ensures
        insert_import(acc, x) == acc.take(k) + seq![x] + acc.skip(k),
    decreases acc.len(),
{
    if acc.len() == 0 {
        assert(acc.take(k) + seq![x] + acc.skip(k) =~= seq![x]);
    } else if k == 0 {
        assert(acc.take(k) + seq![x] + acc.skip(k) =~= seq![x] + acc);
    } else {
        assert(!seq_lt(x.0, acc[0].0));
        let rest = acc.drop_first();
        assert forall|j: int| 0 <= j < k - 1 implies !seq_lt(x.0, #[trigger] rest[j].0) by {
            assert(rest[j] == acc[j + 1]);
        }
        lemma_insert_import_at(rest, x, k - 1);
        assert(seq![acc[0]] + (rest.take(k - 1) + seq![x] + rest.skip(k - 1)) =~= acc.take(k) + seq![x] + acc.skip(k));
    }
}

/// An import chosen for the output: component `.0`, import `.1`.
pub open spec fn chosen_view(cs: Seq<Component>, sel: Seq<(usize, usize)>) -> Seq<(Seq<char>, Seq<char>, int, int)> {
    sel.map_values(|p: (usize, usize)| import_of(cs, p.0 as int, cs[p.0 as int].imports@[p.1 as int]))
}

/// Adds import `k` of component `c` to the selection `sel`.
fn choose_import(cs: &[Component], sel: &mut Vec<(usize, usize)>, c: usize, k: usize)
    requires
        c < cs@.len(),
        k < cs@[c as int].imports@.len(),
        forall|q: int| 0 <= q < old(sel)@.len() ==> (#[trigger] old(sel)@[q]).0 < cs@.len()
            && old(sel)@[q].1 < cs@[old(sel)@[q].0 as int].imports@.len(),
    ensures
        forall|q: int| 0 <= q < final(sel)@.len() ==> (#[trigger] final(sel)@[q]).0 < cs@.len()
            && final(sel)@[q].1 < cs@[final(sel)@[q].0 as int].imports@.len(),
        chosen_view(cs@, final(sel)@) == {
            let acc = chosen_view(cs@, old(sel)@);
            let x = import_of(cs@, c as int, cs@[c as int].imports@[k as int]);
            if exists|i: int| 0 <= i < acc.len() && (#[trigger] acc[i]).0 == x.0 {
                acc
            } else {
                insert_import(acc, x)
            }
        },
{
    let ghost acc = chosen_view(cs@, sel@);
    let ghost x = import_of(cs@, c as int, cs@[c as int].imports@[k as int]);
    let text = cs[c].imports[k].text.as_str();
    let mut j: usize = 0;
    while j < sel.len()
        invariant
            j <= sel@.len(),
            acc == chosen_view(cs@, sel@),
            sel@ == old(sel)@,
            x == import_of(cs@, c as int, cs@[c as int].imports@[k as int]),
            x.0 == text@,
            forall|q: int| 0 <= q < sel@.len() ==> (#[trigger] sel@[q]).0 < cs@.len()
                && sel@[q].1 < cs@[sel@[q].0 as int].imports@.len(),
            forall|q: int| 0 <= q < j ==> acc[q].0 != text@,
        decreases sel.len() - j,
    {
        let (a, b) = sel[j];
        assert(acc[j as int] == import_of(cs@, a as int, cs@[a as int].imports@[b as int]));
        if crate::text::str_eq(cs[a].imports[b].text.as_str(), text) {
            assert(acc[j as int].0 == text@);
            assert(exists|i: int| 0 <= i < acc.len() && (#[trigger] acc[i]).0 == x.0);
            assert(chosen_view(cs@, sel@) == acc);
            return;
        }
        j = j + 1;
    }
    let mut pos: usize = 0;
    while pos < sel.len() && !str_lt(text, cs[sel[pos].0].imports[sel[pos].1].text.as_str())
        invariant
            pos <= sel@.len(),
            acc == chosen_view(cs@, sel@),
            sel@ == old(sel)@,
            x == import_of(cs@, c as int, cs@[c as int].imports@[k as int]),
            x.0 == text@,
            forall|q: int| 0 <= q < sel@.len() ==> (#[trigger] sel@[q]).0 < cs@.len()
                && sel@[q].1 < cs@[sel@[q].0 as int].imports@.len(),
            forall|q: int| 0 <= q < pos ==> !seq_lt(text@, #[trigger] acc[q].0),
        decreases sel.len() - pos,
    {
        pos = pos + 1;
    }
    proof {
        lemma_insert_import_at(acc, x, pos as int);
    }
    sel.insert(pos, (c, k));
    assert(chosen_view(cs@, sel@) =~= acc.take(pos as int) + seq![x] + acc.skip(pos as int));
}

/// The components of `order` that have a script with a known first line.
pub open spec fn scripted(cs: Seq<Component>, order: Seq<int>) -> Seq<int>
    decreases order.len(),
{
    if order.len() == 0 {
        Seq::empty()
    } else {
        scripted(cs, order.drop_last()) + if cs[order.last()].script is Some
            && cs[order.last()].script_source_line is Some {
            seq![order.last()]
        } else {
            Seq::empty()
        }
    }
}

/// Writes the imports, in order.
pub open spec fn write_imports(
    acc: (Seq<char>, Seq<(int, int, Seq<char>, int, int)>),
    imports: Seq<(Seq<char>, Seq<char>, int, int)>,
) -> (Seq<char>, Seq<(int, int, Seq<char>, int, int)>)
    decreases imports.len(),
{
    if imports.len() == 0 {
        acc
    } else {
        let x = imports.last();
        pushed(write_imports(acc, imports.drop_last()), x.0, x.1, x.2, x.3)
    }
}

/// Writes the scripts of the components `list`, separated by line breaks.
pub open spec fn write_scripts(
    acc: (Seq<char>, Seq<(int, int, Seq<char>, int, int)>),
    cs: Seq<Component>,
    list: Seq<int>,
) -> (Seq<char>, Seq<(int, int, Seq<char>, int, int)>)
    decreases list.len(),
{
    if list.len() == 0 {
        acc
    } else {
        let prev = write_scripts(acc, cs, list.drop_last());
        let c = list.last();
        let sep = if list.len() > 1 {
            (prev.0 + "\n"@, prev.1)
        } else {
            prev
        };
        pushed(sep, cs[c].script->Some_0@, cs[c].path@, cs[c].script_source_line->Some_0 as int, 0)
    }
}

/// The module script for the components in `order`: the imports, a blank
/// line, and the script bodies.
pub open spec fn scripts_output(cs: Seq<Component>, order: Seq<int>) -> (Seq<char>, Seq<(int, int, Seq<char>, int, int)>) {
    let imports = write_imports((Seq::empty(), Seq::empty()), select_imports(all_imports(cs, order)));
    write_scripts((imports.0 + "\n"@, imports.1), cs, scripted(cs, order))
}

/// Orders the components by their imports, starting from the main
/// component of `config`, and writes their module imports (sorted, each
/// once) followed by their script bodies, dependencies first, with a line
/// map back to the sources.  Missing components and import cycles are
/// reported.
pub fn render_scripts(log: &mut Logger, config: &Config, components: &[Component]) -> (js: MappedJavaScript)
    ensures
        topo_logged(final(log).entries(), old(log).entries(), components@, topo_walk(components@, config.app.main@).problems),
        (js.source@, js.mappings@.map_values(|m: LineMapping| map_view(m))) == scripts_output(
            components@,
            topo_walk(components@, config.app.main@).order,
        ),
        mappings_ordered(js.mappings@),
{
    let n = components.len();
    let mut visiting: Vec<bool> = Vec::new();
    let mut visited: Vec<bool> = Vec::new();
    let mut i: usize = 0;
    while i < n
        invariant
            i <= n == components@.len(),
            visiting@ == Seq::new(i as nat, |j: int| false),
            visited@ == Seq::new(i as nat, |j: int| false),
        decreases n - i,
    {
        visiting.push(false);
        visited.push(false);
        i = i + 1;
        assert(visiting@ =~= Seq::new(i as nat, |j: int| false));
        assert(visited@ =~= Seq::new(i as nat, |j: int| false));
    }
    let mut walk = Walk { visiting, visited, order: Vec::new(), problems: Ghost(Seq::empty()) };
    let ghost base = log.entries();
    proof {
        lemma_count_false_all(n as nat);
        assert(walk.order@.map_values(|x: usize| x as int) =~= Seq::<int>::empty());
        assert(walk.problems@ =~= Seq::<TopoProblem>::empty());
        assert(walk.state() == topo_start(n as nat));
        assert(log.entries().take(base.len() as int) == base);
    }
    visit(log, components, config.app.main.as_str(), None, &mut walk, Ghost(base), Ghost(n as nat));
    let ghost st = walk.state();
    let order = walk.order;
    proof {
        assert(order@.map_values(|x: usize| x as int) == st.order);
    }
    let mut sel: Vec<(usize, usize)> = Vec::new();
    let mut p: usize = 0;
    while p < order.len()
        invariant
            p <= order@.len(),
            forall|q: int| 0 <= q < order@.len() ==> (#[trigger] order@[q]) < components@.len(),
            forall|q: int| 0 <= q < sel@.len() ==> (#[trigger] sel@[q]).0 < components@.len()
                && sel@[q].1 < components@[sel@[q].0 as int].imports@.len(),
            chosen_view(components@, sel@) == select_imports(all_imports(components@, order@.map_values(|x: usize| x as int).take(p as int))),
        decreases order.len() - p,
    {
        let c = order[p];
        let ghost before = all_imports(components@, order@.map_values(|x: usize| x as int).take(p as int));
        let ghost mine = imports_of(components@, c as int);
        assert(order@.map_values(|x: usize| x as int).take(p + 1).drop_last() == order@.map_values(|x: usize| x as int).take(p as int));
        let mut k: usize = 0;
        while k < components[c].imports.len()
            invariant
                c < components@.len(),
                k <= components@[c as int].imports@.len(),
                mine == imports_of(components@, c as int),
                forall|q: int| 0 <= q < sel@.len() ==> (#[trigger] sel@[q]).0 < components@.len()
                    && sel@[q].1 < components@[sel@[q].0 as int].imports@.len(),
                chosen_view(components@, sel@) == select_imports(before + mine.take(k as int)),
            decreases components@[c as int].imports@.len() - k,
        {
            choose_import(components, &mut sel, c, k);
            assert((before + mine.take(k + 1)).drop_last() == before + mine.take(k as int));
            assert((before + mine.take(k + 1)).last() == mine[k as int]);
            k = k + 1;
        }
        assert(mine.take(k as int) == mine);
        p = p + 1;
    }
    assert(order@.map_values(|x: usize| x as int).take(order@.len() as int) == st.order);
    let mut writer = MappedJavaScriptWriter::new();
    let mut q: usize = 0;
    while q < sel.len()
        invariant
            q <= sel@.len(),
            forall|t: int| 0 <= t < sel@.len() ==> (#[trigger] sel@[t]).0 < components@.len()
                && sel@[t].1 < components@[sel@[t].0 as int].imports@.len(),
            writer.wf(),
            writer.written() == write_imports((Seq::empty(), Seq::empty()), chosen_view(components@, sel@).take(q as int)),
        decreases sel.len() - q,
    {
        let (c, k) = sel[q];
        let imp = &components[c].imports[k];
        writer.push_mapped(imp.text.as_str(), components[c].path.as_str(), imp.source_line, imp.source_column_offset);
        assert(chosen_view(components@, sel@).take(q + 1).drop_last() == chosen_view(components@, sel@).take(q as int));
        q = q + 1;
    }
    assert(chosen_view(components@, sel@).take(sel@.len() as int) == chosen_view(components@, sel@));
    writer.push_unmapped("\n");
    let ghost head = writer.written();
    let mut first = true;
    let mut p: usize = 0;
    while p < order.len()
        invariant
            p <= order@.len(),
            forall|q: int| 0 <= q < order@.len() ==> (#[trigger] order@[q]) < components@.len(),
            writer.wf(),
            writer.written() == write_scripts(head, components@, scripted(components@, order@.map_values(|x: usize| x as int).take(p as int))),
            first == (scripted(components@, order@.map_values(|x: usize| x as int).take(p as int)).len() == 0),
        decreases order.len() - p,
    {
        let c = order[p];
        let ghost prefix = order@.map_values(|x: usize| x as int).take(p as int);
        assert(order@.map_values(|x: usize| x as int).take(p + 1).drop_last() == prefix);
        assert(order@.map_values(|x: usize| x as int).take(p + 1).last() == c as int);
        match (&components[c].script, components[c].script_source_line) {
            (Some(script), Some(line)) => {
                assert(scripted(components@, order@.map_values(|x: usize| x as int).take(p + 1)) == scripted(components@, prefix).push(c as int));
                if !first {
                    writer.push_unmapped("\n");
                }
                first = false;
                writer.push_mapped(script.as_str(), components[c].path.as_str(), line, 0);
                assert(scripted(components@, prefix).push(c as int).drop_last() == scripted(components@, prefix));
            },
            _ => {
                assert(scripted(components@, order@.map_values(|x: usize| x as int).take(p + 1)) == scripted(components@, prefix));
            },
        }
        p = p + 1;
    }
    assert(mappings_ordered(writer.spec_mappings())) by {
        assert forall|i: int| 0 <= i < writer.spec_mappings().len() implies (#[trigger] writer.spec_mappings()[i]).generated_line_start
            <= writer.spec_mappings()[i].generated_line_end by {}
    }
    writer.finish()
}

/// `d` is among the first `p` components of `order`.
pub open spec fn placed_before(order: Seq<int>, d: int, p: int) -> bool {
    exists|q: int| 0 <= q < p && order[q] == d
}

/// An import cycle was reported.
pub open spec fn has_cycle(problems: Seq<TopoProblem>) -> bool {
    exists|k: int| 0 <= k < problems.len() && (#[trigger] problems[k]).cycle
}

/// The import of the missing `path` by component `importer` was reported.
pub open spec fn reported_missing(problems: Seq<TopoProblem>, importer: int, path: Seq<char>) -> bool {
    exists|k: int|
        0 <= k < problems.len() && #[trigger] problems[k] == TopoProblem {
            importer: Some(importer),
            path,
            cycle: false,
        }
}

/// Import `k` of the component at position `p` of the order: a missing
/// component is reported, and one that exists comes earlier in the order
/// unless a cycle was reported.
pub open spec fn dep_ok(cs: Seq<Component>, st: TopoState, p: int, k: int) -> bool {
    let href = cs[st.order[p]].links@[k].href@;
    match lookup(cs, href) {
        None => reported_missing(st.problems, st.order[p], href),
        Some(d) => placed_before(st.order, d, p) || has_cycle(st.problems),
    }
}

/// Import `k` of component `i` has been dealt with: a missing component is
/// reported, and one that exists is done unless a cycle was reported.
pub open spec fn link_handled(cs: Seq<Component>, st: TopoState, i: int, k: int) -> bool {
    let href = cs[i].links@[k].href@;
    match lookup(cs, href) {
        None => reported_missing(st.problems, i, href),
        Some(d) => st.visited[d] || has_cycle(st.problems),
    }
}

/// What holds of every state of the walk.
pub open spec fn topo_inv(cs: Seq<Component>, st: TopoState) -> bool {
    &&& st.visiting.len() == cs.len()
    &&& st.visited.len() == cs.len()
    &&& forall|q: int| 0 <= q < st.order.len() ==> 0 <= #[trigger] st.order[q] < cs.len()
    &&& forall|a: int, b: int|
        #![trigger st.order[a], st.order[b]]
        0 <= a < b < st.order.len() ==> st.order[a] != st.order[b]
    &&& forall|x: int| 0 <= x < cs.len() ==> (#[trigger] st.visited[x] <==> placed_before(st.order, x, st.order.len() as int))
    &&& forall|x: int| 0 <= x < cs.len() ==> !(#[trigger] st.visiting[x] && st.visited[x])
    &&& forall|p: int, k: int|
        0 <= p < st.order.len() && 0 <= k < cs[st.order[p]].links@.len() ==> #[trigger] dep_ok(cs, st, p, k)
}

/// `st2` only adds to `st`: the order and the problems grow at their ends,
/// and what is done stays done.
pub open spec fn topo_extends(st: TopoState, st2: TopoState) -> bool {
    &&& st.order.len() <= st2.order.len()
    &&& st2.order.take(st.order.len() as int) == st.order
    &&& st.problems.len() <= st2.problems.len()
    &&& st2.problems.take(st.problems.len() as int) == st.problems
    &&& st2.visited.len() == st.visited.len()
    &&& forall|x: int| 0 <= x < st.visited.len() && #[trigger] st.visited[x] ==> st2.visited[x]
}

proof fn lemma_extends_trans(a: TopoState, b: TopoState, c: TopoState)
    requires
        topo_extends(a, b),
        topo_extends(b, c),
    ensures
        topo_extends(a, c),
{
    assert(c.order.take(a.order.len() as int) == c.order.take(b.order.len() as int).take(a.order.len() as int));
    assert(c.problems.take(a.problems.len() as int) == c.problems.take(b.problems.len() as int).take(a.problems.len() as int));
}

/// What was reported stays reported when the state grows.
proof fn lemma_extends_keeps(cs: Seq<Component>, st: TopoState, st2: TopoState)
    requires
        topo_extends(st, st2),
    ensures
        has_cycle(st.problems) ==> has_cycle(st2.problems),
        forall|i: int, path: Seq<char>|
            #[trigger] reported_missing(st.problems, i, path) ==> reported_missing(st2.problems, i, path),
        forall|d: int, p: int|
            p <= st.order.len() && #[trigger] placed_before(st.order, d, p) ==> placed_before(st2.order, d, p),
{
    if has_cycle(st.problems) {
        let k = choose|k: int| 0 <= k < st.problems.len() && (#[trigger] st.problems[k]).cycle;
        assert(st2.problems[k] == st.problems[k]);
    }
    assert forall|i: int, path: Seq<char>|
        #[trigger] reported_missing(st.problems, i, path) implies reported_missing(st2.problems, i, path) by {
        let k = choose|k: int|
            0 <= k < st.problems.len() && #[trigger] st.problems[k] == TopoProblem {
                importer: Some(i),
                path,
                cycle: false,
            };
        assert(st2.problems[k] == st.problems[k]);
    }
    assert forall|d: int, p: int|
        p <= st.order.len() && #[trigger] placed_before(st.order, d, p) implies placed_before(st2.order, d, p) by {
        let q = choose|q: int| 0 <= q < p && st.order[q] == d;
        assert(st2.order[q] == st.order[q]);
    }
}

/// A state that grows keeps `dep_ok` at the positions it had.
proof fn lemma_extends_dep_ok(cs: Seq<Component>, st: TopoState, st2: TopoState, p: int, k: int)
    requires
        topo_extends(st, st2),
        0 <= p < st.order.len(),
        dep_ok(cs, st, p, k),
    ensures
        dep_ok(cs, st2, p, k),
{
    lemma_extends_keeps(cs, st, st2);
    assert(st2.order[p] == st.order[p]);
}

/// A state that grows keeps `link_handled`.
proof fn lemma_extends_handled(cs: Seq<Component>, st: TopoState, st2: TopoState, i: int, k: int)
    requires
        topo_extends(st, st2),
        st.visited.len() == cs.len(),
        link_handled(cs, st, i, k),
    ensures
        link_handled(cs, st2, i, k),
{
    lemma_extends_keeps(cs, st, st2);
    lemma_lookup_upto(cs, cs[i].links@[k].href@, cs.len() as int);
}

/// Reporting a problem keeps the invariant.
proof fn lemma_with_problem(cs: Seq<Component>, st: TopoState, pr: TopoProblem)
    requires
        topo_inv(cs, st),
    ensures
        topo_inv(cs, with_topo_problem(st, pr)),
        topo_extends(st, with_topo_problem(st, pr)),
{
    let st2 = with_topo_problem(st, pr);
    assert(st2.problems.take(st.problems.len() as int) == st.problems);
    assert(st2.order.take(st.order.len() as int) == st.order);
    assert forall|p: int, k: int|
        0 <= p < st2.order.len() && 0 <= k < cs[st2.order[p]].links@.len() implies #[trigger] dep_ok(cs, st2, p, k) by {
        assert(dep_ok(cs, st, p, k));
        lemma_extends_dep_ok(cs, st, st2, p, k);
    }
}

/// The walk keeps its invariant, only adds to its state, leaves the
/// components on the current path as they were, and deals with `path`.
proof fn lemma_visit(cs: Seq<Component>, path: Seq<char>, importer: Option<int>, st: TopoState, fuel: nat)
    requires
        topo_inv(cs, st),
        count_false(st.visiting) <= fuel,
    ensures
        topo_inv(cs, visit_spec(cs, path, importer, st, fuel)),
        topo_extends(st, visit_spec(cs, path, importer, st, fuel)),
        visit_spec(cs, path, importer, st, fuel).visiting == st.visiting,
        match lookup(cs, path) {
            None => importer matches Some(i) ==> reported_missing(visit_spec(cs, path, importer, st, fuel).problems, i, path),
            Some(d) => visit_spec(cs, path, importer, st, fuel).visited[d] || has_cycle(
                visit_spec(cs, path, importer, st, fuel).problems,
            ),
        },
    decreases fuel, 0int, 0int,
{
    let r = visit_spec(cs, path, importer, st, fuel);
    lemma_lookup_upto(cs, path, cs.len() as int);
    match lookup(cs, path) {
        None => {
            let pr = TopoProblem { importer, path, cycle: false };
            lemma_with_problem(cs, st, pr);
            if importer is Some {
                assert(r.problems[st.problems.len() as int] == pr);
            }
        },
        Some(i) => {
            if st.visited[i] {
                assert(r.order.take(st.order.len() as int) == st.order);
                assert(r.problems.take(st.problems.len() as int) == st.problems);
            } else if st.visiting[i] {
                let pr = TopoProblem { importer, path, cycle: true };
                lemma_with_problem(cs, st, pr);
                assert(r.problems[st.problems.len() as int] == pr);
            } else {
                lemma_count_false_update(st.visiting, i);
                let st1 = TopoState { visiting: st.visiting.update(i, true), ..st };
                let n = cs[i].links@.len() as int;
                assert(topo_inv(cs, st1)) by {
                    assert forall|p: int, k: int|
                        0 <= p < st1.order.len() && 0 <= k < cs[st1.order[p]].links@.len() implies #[trigger] dep_ok(cs, st1, p, k) by {
                        assert(dep_ok(cs, st, p, k));
                    }
                }
                lemma_visit_links(cs, i, n, st1, (fuel - 1) as nat);
                let inner = visit_links(cs, i, n, st1, (fuel - 1) as nat);
                assert(inner.visiting[i]);
                assert(!inner.visited[i]);
                assert(!placed_before(inner.order, i, inner.order.len() as int));
                assert(r == TopoState {
                    visiting: inner.visiting.update(i, false),
                    visited: inner.visited.update(i, true),
                    order: inner.order.push(i),
                    problems: inner.problems,
                });
                assert(r.visiting =~= st.visiting);
                assert(topo_extends(st, st1)) by {
                    assert(st1.order.take(st.order.len() as int) == st.order);
                    assert(st1.problems.take(st.problems.len() as int) == st.problems);
                }
                lemma_extends_trans(st, st1, inner);
                assert(topo_extends(inner, r)) by {
                    assert(r.order.take(inner.order.len() as int) == inner.order);
                    assert(r.problems.take(inner.problems.len() as int) == inner.problems);
                }
                lemma_extends_trans(st, inner, r);
                lemma_extends_keeps(cs, inner, r);
                // The invariant of the new state.
                assert forall|a: int, b: int|
                    #![trigger r.order[a], r.order[b]]
                    0 <= a < b < r.order.len() implies r.order[a] != r.order[b] by {
                    if b == inner.order.len() {
                        assert(r.order[a] == inner.order[a]);
                        if inner.order[a] == i {
                            assert(placed_before(inner.order, i, inner.order.len() as int));
                        }
                    } else {
                        assert(r.order[a] == inner.order[a]);
                        assert(r.order[b] == inner.order[b]);
                    }
                }
                assert forall|x: int| 0 <= x < cs.len() implies (#[trigger] r.visited[x] <==> placed_before(r.order, x, r.order.len() as int)) by {
                    if x == i {
                        assert(r.order[inner.order.len() as int] == i);
                    } else {
                        assert(r.visited[x] == inner.visited[x]);
                        if placed_before(r.order, x, r.order.len() as int) {
                            let q = choose|q: int| 0 <= q < r.order.len() && r.order[q] == x;
                            assert(q < inner.order.len());
                            assert(inner.order[q] == x);
                            assert(placed_before(inner.order, x, inner.order.len() as int));
                        }
                        if inner.visited[x] {
                            assert(placed_before(inner.order, x, inner.order.len() as int));
                            let q = choose|q: int| 0 <= q < inner.order.len() && inner.order[q] == x;
                            assert(r.order[q] == x);
                        }
                    }
                }
                assert forall|x: int| 0 <= x < cs.len() implies !(#[trigger] r.visiting[x] && r.visited[x]) by {
                    if x != i {
                        assert(r.visiting[x] == inner.visiting[x]);
                        assert(r.visited[x] == inner.visited[x]);
                    }
                }
                assert forall|p: int, k: int|
                    0 <= p < r.order.len() && 0 <= k < cs[r.order[p]].links@.len() implies #[trigger] dep_ok(cs, r, p, k) by {
                    if p < inner.order.len() {
                        assert(dep_ok(cs, inner, p, k));
                        lemma_extends_dep_ok(cs, inner, r, p, k);
                    } else {
                        assert(r.order[p] == i);
                        assert(link_handled(cs, inner, i, k));
                        let href = cs[i].links@[k].href@;
                        lemma_lookup_upto(cs, href, cs.len() as int);
                        match lookup(cs, href) {
                            None => {},
                            Some(d) => {
                                if inner.visited[d] {
                                    assert(placed_before(inner.order, d, inner.order.len() as int));
                                    let q = choose|q: int| 0 <= q < inner.order.len() && inner.order[q] == d;
                                    assert(r.order[q] == d);
                                    assert(placed_before(r.order, d, p));
                                }
                            },
                        }
                    }
                }
                assert(r.order[inner.order.len() as int] == i);
            }
        },
    }
}

/// Visiting the first `k` imports of component `i`, which is on the
/// current path, keeps the invariant and deals with each of them.
proof fn lemma_visit_links(cs: Seq<Component>, i: int, k: int, st: TopoState, fuel: nat)
    requires
        topo_inv(cs, st),
        count_false(st.visiting) <= fuel,
        0 <= i < cs.len(),
        0 <= k <= cs[i].links@.len(),
        st.visiting[i],
    ensures
        topo_inv(cs, visit_links(cs, i, k, st, fuel)),
        topo_extends(st, visit_links(cs, i, k, st, fuel)),
        visit_links(cs, i, k, st, fuel).visiting == st.visiting,
        forall|j: int| 0 <= j < k ==> #[trigger] link_handled(cs, visit_links(cs, i, k, st, fuel), i, j),
    decreases fuel, 1int, k,
{
    let r = visit_links(cs, i, k, st, fuel);
    if k <= 0 {
        assert(r.order.take(st.order.len() as int) == st.order);
        assert(r.problems.take(st.problems.len() as int) == st.problems);
    } else {
        lemma_visit_links(cs, i, k - 1, st, fuel);
        let prev = visit_links(cs, i, k - 1, st, fuel);
        let href = cs[i].links@[k - 1].href@;
        lemma_visit(cs, href, Some(i), prev, fuel);
        lemma_extends_trans(st, prev, r);
        assert forall|j: int| 0 <= j < k implies #[trigger] link_handled(cs, r, i, j) by {
            if j < k - 1 {
                assert(link_handled(cs, prev, i, j));
                lemma_extends_handled(cs, prev, r, i, j);
            }
        }
    }
}

/// More fuel than components off the current path changes nothing: the
/// walk is the plain depth-first walk, never cut short.
pub proof fn lemma_visit_fuel(cs: Seq<Component>, path: Seq<char>, importer: Option<int>, st: TopoState, f1: nat, f2: nat)
    requires
        topo_inv(cs, st),
        count_false(st.visiting) <= f1 <= f2,
    ensures
        visit_spec(cs, path, importer, st, f1) == visit_spec(cs, path, importer, st, f2),
    decreases f1, 0int, 0int,
{
    lemma_lookup_upto(cs, path, cs.len() as int);
    if let Some(i) = lookup(cs, path) {
        if !st.visited[i] && !st.visiting[i] {
            lemma_count_false_update(st.visiting, i);
            let st1 = TopoState { visiting: st.visiting.update(i, true), ..st };
            assert(topo_inv(cs, st1)) by {
                assert forall|p: int, k: int|
                    0 <= p < st1.order.len() && 0 <= k < cs[st1.order[p]].links@.len() implies #[trigger] dep_ok(cs, st1, p, k) by {
                    assert(dep_ok(cs, st, p, k));
                }
            }
            lemma_visit_links_fuel(cs, i, cs[i].links@.len() as int, st1, (f1 - 1) as nat, (f2 - 1) as nat);
        }
    }
}

/// As [`lemma_visit_fuel`], for the imports of a component on the path.
proof fn lemma_visit_links_fuel(cs: Seq<Component>, i: int, k: int, st: TopoState, f1: nat, f2: nat)
    requires
        topo_inv(cs, st),
        count_false(st.visiting) <= f1 <= f2,
        0 <= i < cs.len(),
        0 <= k <= cs[i].links@.len(),
        st.visiting[i],
    ensures
        visit_links(cs, i, k, st, f1) == visit_links(cs, i, k, st, f2),
        topo_inv(cs, visit_links(cs, i, k, st, f1)),
        visit_links(cs, i, k, st, f1).visiting == st.visiting,
    decreases f1, 1int, k,
{
    lemma_visit_links(cs, i, k, st, f1);
    if k > 0 {
        lemma_visit_links_fuel(cs, i, k - 1, st, f1, f2);
        let prev = visit_links(cs, i, k - 1, st, f1);
        lemma_visit_fuel(cs, cs[i].links@[k - 1].href@, Some(i), prev, f1, f2);
    }
}

/// The walk from the main component orders each component once, after
/// the components it imports unless an import cycle is reported, and
/// reports each import of a component that does not exist.  The main
/// component is ordered unless it is missing or a cycle is reported.
pub proof fn lemma_walk_orders_dependencies_first(cs: Seq<Component>, main: Seq<char>)
    ensures
        forall|a: int, b: int|
            #![trigger topo_walk(cs, main).order[a], topo_walk(cs, main).order[b]]
            0 <= a < b < topo_walk(cs, main).order.len() ==> topo_walk(cs, main).order[a] != topo_walk(
                cs,
                main,
            ).order[b],
        forall|q: int|
            0 <= q < topo_walk(cs, main).order.len() ==> 0 <= #[trigger] topo_walk(cs, main).order[q]
                < cs.len(),
        forall|p: int, k: int|
            0 <= p < topo_walk(cs, main).order.len() && 0 <= k < cs[topo_walk(cs, main).order[p]].links@.len()
                ==> #[trigger] dep_ok(cs, topo_walk(cs, main), p, k),
        lookup(cs, main) matches Some(m) ==> placed_before(
            topo_walk(cs, main).order,
            m,
            topo_walk(cs, main).order.len() as int,
        ) || has_cycle(topo_walk(cs, main).problems),
        lookup(cs, main) is None ==> topo_walk(cs, main).problems.len() == 1 && topo_walk(cs, main).order.len() == 0,
{
    let st = topo_start(cs.len());
    lemma_count_false_all(cs.len());
    assert forall|x: int| 0 <= x < cs.len() implies (#[trigger] st.visited[x] <==> placed_before(st.order, x, st.order.len() as int)) by {}
    lemma_visit(cs, main, None, st, cs.len());
    let r = topo_walk(cs, main);
    lemma_lookup_upto(cs, main, cs.len() as int);
    if let Some(m) = lookup(cs, main) {
        if r.visited[m] {
            assert(placed_before(r.order, m, r.order.len() as int));
        }
    }
}

/// The texts of `xs` are in strictly increasing order.
pub open spec fn strictly_sorted(xs: Seq<(Seq<char>, Seq<char>, int, int)>) -> bool {
    forall|a: int, b: int| #![trigger xs[a], xs[b]] 0 <= a < b < xs.len() ==> seq_lt(xs[a].0, xs[b].0)
}

proof fn lemma_insert_import_sorted(acc: Seq<(Seq<char>, Seq<char>, int, int)>, x: (Seq<char>, Seq<char>, int, int))
    requires
        strictly_sorted(acc),
        forall|i: int| 0 <= i < acc.len() ==> (#[trigger] acc[i]).0 != x.0,
    ensures
        strictly_sorted(insert_import(acc, x)),
        insert_import(acc, x).len() == acc.len() + 1,
        insert_import(acc, x).contains(x),
        forall|i: int| 0 <= i < acc.len() ==> insert_import(acc, x).contains(#[trigger] acc[i]),
        forall|e| #[trigger] insert_import(acc, x).contains(e) ==> e == x || acc.contains(e),
    decreases acc.len(),
{
    let r = insert_import(acc, x);
    if acc.len() == 0 {
        assert(r[0] == x);
    } else if seq_lt(x.0, acc[0].0) {
        assert(r[0] == x);
        assert forall|a: int, b: int| #![trigger r[a], r[b]] 0 <= a < b < r.len() implies seq_lt(r[a].0, r[b].0) by {
            if a == 0 {
                if b > 1 {
                    lemma_seq_lt_transitive(x.0, acc[0].0, acc[b - 1].0);
                }
            } else {
                assert(r[a] == acc[a - 1]);
                assert(r[b] == acc[b - 1]);
            }
        }
        assert forall|i: int| 0 <= i < acc.len() implies r.contains(#[trigger] acc[i]) by {
            assert(r[i + 1] == acc[i]);
        }
        assert forall|e| #[trigger] r.contains(e) implies e == x || acc.contains(e) by {
            let j = choose|j: int| 0 <= j < r.len() && r[j] == e;
            if j > 0 {
                assert(acc[j - 1] == e);
            }
        }
    } else {
        let rest = acc.drop_first();
        lemma_seq_lt_total(x.0, acc[0].0);
        assert(seq_lt(acc[0].0, x.0));
        assert(strictly_sorted(rest)) by {
            assert forall|a: int, b: int| #![trigger rest[a], rest[b]] 0 <= a < b < rest.len() implies seq_lt(rest[a].0, rest[b].0) by {
                assert(rest[a] == acc[a + 1]);
                assert(rest[b] == acc[b + 1]);
            }
        }
        assert forall|i: int| 0 <= i < rest.len() implies (#[trigger] rest[i]).0 != x.0 by {
            assert(rest[i] == acc[i + 1]);
        }
        lemma_insert_import_sorted(rest, x);
        let ri = insert_import(rest, x);
        assert(r == seq![acc[0]] + ri);
        assert forall|a: int, b: int| #![trigger r[a], r[b]] 0 <= a < b < r.len() implies seq_lt(r[a].0, r[b].0) by {
            if a == 0 {
                assert(r[b] == ri[b - 1]);
                assert(ri.contains(ri[b - 1]));
                if ri[b - 1] != x {
                    let j = choose|j: int| 0 <= j < rest.len() && rest[j] == ri[b - 1];
                    assert(rest[j] == acc[j + 1]);
                }
            } else {
                assert(r[a] == ri[a - 1]);
                assert(r[b] == ri[b - 1]);
            }
        }
        assert(r[0] == acc[0]);
        assert forall|i: int| 0 <= i < acc.len() implies r.contains(#[trigger] acc[i]) by {
            if i > 0 {
                assert(rest[i - 1] == acc[i]);
                assert(ri.contains(rest[i - 1]));
                let j = choose|j: int| 0 <= j < ri.len() && ri[j] == rest[i - 1];
                assert(r[j + 1] == acc[i]);
            }
        }
        let jx = choose|j: int| 0 <= j < ri.len() && ri[j] == x;
        assert(r[jx + 1] == x);
        assert forall|e| #[trigger] r.contains(e) implies e == x || acc.contains(e) by {
            let j = choose|j: int| 0 <= j < r.len() && r[j] == e;
            if j > 0 {
                assert(ri[j - 1] == e);
                assert(ri.contains(e));
                if e != x {
                    let t = choose|t: int| 0 <= t < rest.len() && rest[t] == e;
                    assert(acc[t + 1] == e);
                }
            }
        }
    }
}

/// The imports written are sorted by text with no text twice, each is
/// one of the imports, and every import's text is among them.
pub proof fn lemma_select_imports(xs: Seq<(Seq<char>, Seq<char>, int, int)>)
    ensures
        strictly_sorted(select_imports(xs)),
        forall|e| #[trigger] select_imports(xs).contains(e) ==> xs.contains(e),
        forall|i: int|
            0 <= i < xs.len() ==> exists|j: int|
                0 <= j < select_imports(xs).len() && (#[trigger] select_imports(xs)[j]).0 == (#[trigger] xs[i]).0,
    decreases xs.len(),
{
    if xs.len() > 0 {
        let init = xs.drop_last();
        lemma_select_imports(init);
        let acc = select_imports(init);
        let r = select_imports(xs);
        if exists|i: int| 0 <= i < acc.len() && (#[trigger] acc[i]).0 == xs.last().0 {
            assert(r == acc);
            assert forall|e| #[trigger] r.contains(e) implies xs.contains(e) by {
                let t = choose|t: int| 0 <= t < init.len() && init[t] == e;
                assert(xs[t] == e);
            }
            assert forall|i: int| 0 <= i < xs.len() implies exists|j: int|
                0 <= j < r.len() && (#[trigger] r[j]).0 == (#[trigger] xs[i]).0 by {
                if i < xs.len() - 1 {
                    assert(xs[i] == init[i]);
                }
            }
        } else {
            lemma_insert_import_sorted(acc, xs.last());
            assert forall|e| #[trigger] r.contains(e) implies xs.contains(e) by {
                if e != xs.last() {
                    assert(acc.contains(e));
                    let t = choose|t: int| 0 <= t < init.len() && init[t] == e;
                    assert(xs[t] == e);
                } else {
                    assert(xs[xs.len() - 1] == e);
                }
            }
            assert forall|i: int| 0 <= i < xs.len() implies exists|j: int|
                0 <= j < r.len() && (#[trigger] r[j]).0 == (#[trigger] xs[i]).0 by {
                if i < xs.len() - 1 {
                    assert(xs[i] == init[i]);
                    let j = choose|j: int| 0 <= j < acc.len() && (#[trigger] acc[j]).0 == init[i].0;
                    assert(r.contains(acc[j]));
                    let t = choose|t: int| 0 <= t < r.len() && r[t] == acc[j];
                    assert(r[t].0 == xs[i].0);
                } else {
                    let t = choose|t: int| 0 <= t < r.len() && r[t] == xs.last();
                    assert(r[t].0 == xs[i].0);
                }
            }
        }
    }
}

/// The custom element of the component that `link` imports, with that
/// component's index.
pub open spec fn link_tag(cs: Seq<Component>, link: Link) -> Option<(Seq<char>, int)> {
    match lookup(cs, link.href@) {
        Some(j) => match cs[j].custom_tag {
            Some(t) => Some((t@, j)),
            None => None,
        },
        None => None,
    }
}

/// Link `k` of component `c` imports a custom element that no later link
/// of `c` imports.
pub open spec fn last_for_tag(cs: Seq<Component>, c: int, k: int) -> bool {
    &&& link_tag(cs, cs[c].links@[k]) is Some
    &&& forall|k2: int|
        k < k2 < cs[c].links@.len() ==> !(#[trigger] link_has_tag(cs, cs[c].links@[k2], link_tag(cs, cs[c].links@[k])->Some_0.0))
}

/// `link` imports a component whose custom element is `t`.
pub open spec fn link_has_tag(cs: Seq<Component>, link: Link, t: Seq<char>) -> bool {
    link_tag(cs, link) is Some && link_tag(cs, link)->Some_0.0 == t
}

/// Component `c` uses the custom element `t`.
pub open spec fn tag_used(cs: Seq<Component>, c: int, t: Seq<char>) -> bool {
    exists|u: int| 0 <= u < cs[c].used_custom_tags@.len() && (#[trigger] cs[c].used_custom_tags@[u]).tag@ == t
}

/// Component `c` imports a component whose custom element is `t`.
pub open spec fn imports_tag(cs: Seq<Component>, c: int, t: Seq<char>) -> bool {
    exists|k: int| 0 <= k < cs[c].links@.len() && #[trigger] link_has_tag(cs, cs[c].links@[k], t)
}

/// Link `k` of component `c` is the import of a custom element that `c`
/// never uses, and is not marked dynamic.
pub open spec fn unused_import(cs: Seq<Component>, c: int, k: int) -> bool {
    &&& last_for_tag(cs, c, k)
    &&& !tag_used(cs, c, link_tag(cs, cs[c].links@[k])->Some_0.0)
    &&& !cs[c].links@[k].dynamic
}

/// A problem that validation finds: an unused import (component, link) or
/// a custom element used without an import (component, used tag).
pub enum CheckProblem {
    Unused(int, int),
    Undeclared(int, int),
}

/// The unused imports among the first `n` links of component `c`.
pub open spec fn unused_imports(cs: Seq<Component>, c: int, n: int) -> Seq<CheckProblem>
    decreases n,
{
    if n <= 0 {
        Seq::empty()
    } else {
        unused_imports(cs, c, n - 1) + if unused_import(cs, c, n - 1) {
            seq![CheckProblem::Unused(c, n - 1)]
        } else {
            Seq::empty()
        }
    }
}

/// The custom elements among the first `n` used by component `c` that it
/// does not import.
pub open spec fn undeclared_tags(cs: Seq<Component>, c: int, n: int) -> Seq<CheckProblem>
    decreases n,
{
    if n <= 0 {
        Seq::empty()
    } else {
        undeclared_tags(cs, c, n - 1) + if !imports_tag(cs, c, cs[c].used_custom_tags@[n - 1].tag@) {
            seq![CheckProblem::Undeclared(c, n - 1)]
        } else {
            Seq::empty()
        }
    }
}

/// The problems of the first `m` components: for each, its unused imports
/// and then its undeclared custom elements.
pub open spec fn check_problems(cs: Seq<Component>, m: int) -> Seq<CheckProblem>
    decreases m,
{
    if m <= 0 {
        Seq::empty()
    } else {
        check_problems(cs, m - 1) + unused_imports(cs, m - 1, cs[m - 1].links@.len() as int)
            + undeclared_tags(cs, m - 1, cs[m - 1].used_custom_tags@.len() as int)
    }
}

/// `p` is the warning about an unused import among the first `n` links of
/// component `c`.
pub open spec fn unused_warning_of(cs: Seq<Component>, c: int, n: int, p: CheckProblem) -> bool {
    match p {
        CheckProblem::Unused(c2, l) => c2 == c && 0 <= l < n && unused_import(cs, c, l),
        _ => false,
    }
}

proof fn lemma_unused_imports_only(cs: Seq<Component>, c: int, n: int)
    ensures
        forall|k: int|
            0 <= k < unused_imports(cs, c, n).len() ==> unused_warning_of(cs, c, n, #[trigger] unused_imports(cs, c, n)[k]),
    decreases n,
{
    if n > 0 {
        lemma_unused_imports_only(cs, c, n - 1);
        let prev = unused_imports(cs, c, n - 1);
        assert forall|k: int| 0 <= k < unused_imports(cs, c, n).len() implies unused_warning_of(cs, c, n, #[trigger] unused_imports(cs, c, n)[k]) by {
            if k < prev.len() {
                assert(unused_imports(cs, c, n)[k] == prev[k]);
            }
        }
    }
}

proof fn lemma_undeclared_tags_only(cs: Seq<Component>, c: int, n: int)
    ensures
        forall|k: int| 0 <= k < undeclared_tags(cs, c, n).len() ==> (#[trigger] undeclared_tags(cs, c, n)[k]) is Undeclared,
        forall|u: int|
            0 <= u < n && !imports_tag(cs, c, cs[c].used_custom_tags@[u].tag@) ==> #[trigger] undeclared_tags(cs, c, n).contains(
                CheckProblem::Undeclared(c, u),
            ),
    decreases n,
{
    if n > 0 {
        lemma_undeclared_tags_only(cs, c, n - 1);
        let prev = undeclared_tags(cs, c, n - 1);
        let cur = undeclared_tags(cs, c, n);
        assert forall|k: int| 0 <= k < cur.len() implies (#[trigger] cur[k]) is Undeclared by {
            if k < prev.len() {
                assert(cur[k] == prev[k]);
            }
        }
        assert forall|u: int|
            0 <= u < n && !imports_tag(cs, c, cs[c].used_custom_tags@[u].tag@) implies #[trigger] cur.contains(
                CheckProblem::Undeclared(c, u),
            ) by {
            if u < n - 1 {
                assert(prev.contains(CheckProblem::Undeclared(c, u)));
                let k = choose|k: int| 0 <= k < prev.len() && prev[k] == CheckProblem::Undeclared(c, u);
                assert(cur[k] == prev[k]);
            } else {
                assert(cur[prev.len() as int] == CheckProblem::Undeclared(c, u));
            }
        }
    }
}

proof fn lemma_undeclared_tags_are(cs: Seq<Component>, c: int, n: int)
    ensures
        forall|k: int|
            0 <= k < undeclared_tags(cs, c, n).len() ==> (#[trigger] undeclared_tags(cs, c, n)[k] matches CheckProblem::Undeclared(
                c2,
                u,
            ) && c2 == c && 0 <= u < n && !imports_tag(cs, c, cs[c].used_custom_tags@[u].tag@)),
    decreases n,
{
    if n > 0 {
        lemma_undeclared_tags_are(cs, c, n - 1);
        let prev = undeclared_tags(cs, c, n - 1);
        let cur = undeclared_tags(cs, c, n);
        assert forall|k: int| 0 <= k < cur.len() implies (#[trigger] cur[k] matches CheckProblem::Undeclared(c2, u) && c2
            == c && 0 <= u < n && !imports_tag(cs, c, cs[c].used_custom_tags@[u].tag@)) by {
            if k < prev.len() {
                assert(cur[k] == prev[k]);
            }
        }
    }
}

proof fn lemma_unused_imports_are(cs: Seq<Component>, c: int, n: int)
    ensures
        forall|k: int| 0 <= k < unused_imports(cs, c, n).len() ==> (#[trigger] unused_imports(cs, c, n)[k]) is Unused,
    decreases n,
{
    if n > 0 {
        lemma_unused_imports_are(cs, c, n - 1);
        let prev = unused_imports(cs, c, n - 1);
        let cur = unused_imports(cs, c, n);
        assert forall|k: int| 0 <= k < cur.len() implies (#[trigger] cur[k]) is Unused by {
            if k < prev.len() {
                assert(cur[k] == prev[k]);
            }
        }
    }
}

/// Validation reports a custom element as used without an import only
/// where it is one of the elements that the component uses and none of the
/// component's links, first or later, imports a component whose custom
/// element it is.
pub proof fn lemma_undeclared_only_without_import(cs: Seq<Component>, m: int)
    requires
        0 <= m <= cs.len(),
    ensures
        forall|c: int, u: int|
            #[trigger] check_problems(cs, m).contains(CheckProblem::Undeclared(c, u)) ==> {
                &&& 0 <= c < m
                &&& 0 <= u < cs[c].used_custom_tags@.len()
                &&& forall|k: int|
                    0 <= k < cs[c].links@.len() ==> !(#[trigger] link_tag(cs, cs[c].links@[k]) matches Some(
                        (t, _),
                    ) && t == cs[c].used_custom_tags@[u].tag@)
            },
    decreases m,
{
    if m > 0 {
        lemma_undeclared_only_without_import(cs, m - 1);
        let prev = check_problems(cs, m - 1);
        let ui = unused_imports(cs, m - 1, cs[m - 1].links@.len() as int);
        let ud = undeclared_tags(cs, m - 1, cs[m - 1].used_custom_tags@.len() as int);
        let cur = check_problems(cs, m);
        assert(cur == prev + ui + ud);
        lemma_unused_imports_are(cs, m - 1, cs[m - 1].links@.len() as int);
        lemma_undeclared_tags_are(cs, m - 1, cs[m - 1].used_custom_tags@.len() as int);
        assert forall|c: int, u: int| #[trigger] cur.contains(CheckProblem::Undeclared(c, u)) implies {
            &&& 0 <= c < m
            &&& 0 <= u < cs[c].used_custom_tags@.len()
            &&& forall|k: int|
                0 <= k < cs[c].links@.len() ==> !(#[trigger] link_tag(cs, cs[c].links@[k]) matches Some((t, _)) && t
                    == cs[c].used_custom_tags@[u].tag@)
        } by {
            let i = choose|i: int| 0 <= i < cur.len() && cur[i] == CheckProblem::Undeclared(c, u);
            if i < prev.len() {
                assert(cur[i] == prev[i]);
                assert(prev.contains(CheckProblem::Undeclared(c, u)));
            } else if i < prev.len() + ui.len() {
                assert(cur[i] == ui[i - prev.len()]);
            } else {
                assert(cur[i] == ud[i - prev.len() - ui.len()]);
                let t = cs[c].used_custom_tags@[u].tag@;
                assert(!imports_tag(cs, c, t));
                assert forall|k: int| 0 <= k < cs[c].links@.len() implies !(#[trigger] link_tag(cs, cs[c].links@[k]) matches Some(
                    (t2, _),
                ) && t2 == t) by {
                    assert(!link_has_tag(cs, cs[c].links@[k], t));
                }
            }
        }
    }
}

/// Validation warns only about links that are not marked dynamic and whose
/// component's custom element goes unused, and reports an error for every
/// custom element that a component uses without importing it.
pub proof fn lemma_validation_problems(cs: Seq<Component>, m: int)
    requires
        0 <= m <= cs.len(),
    ensures
        forall|k: int|
            0 <= k < check_problems(cs, m).len() ==> ((#[trigger] check_problems(cs, m)[k]) matches CheckProblem::Unused(
                c,
                l,
            ) ==> !cs[c].links@[l].dynamic && !tag_used(cs, c, link_tag(cs, cs[c].links@[l])->Some_0.0)),
        forall|c: int, u: int|
            0 <= c < m && 0 <= u < cs[c].used_custom_tags@.len() && !imports_tag(cs, c, cs[c].used_custom_tags@[u].tag@)
                ==> #[trigger] check_problems(cs, m).contains(CheckProblem::Undeclared(c, u)),
    decreases m,
{
    if m > 0 {
        lemma_validation_problems(cs, m - 1);
        let prev = check_problems(cs, m - 1);
        let ui = unused_imports(cs, m - 1, cs[m - 1].links@.len() as int);
        let ud = undeclared_tags(cs, m - 1, cs[m - 1].used_custom_tags@.len() as int);
        let cur = check_problems(cs, m);
        assert(cur == prev + ui + ud);
        lemma_unused_imports_only(cs, m - 1, cs[m - 1].links@.len() as int);
        lemma_undeclared_tags_only(cs, m - 1, cs[m - 1].used_custom_tags@.len() as int);
        assert forall|k: int|
            0 <= k < cur.len() implies ((#[trigger] cur[k]) matches CheckProblem::Unused(c, l) ==> !cs[c].links@[l].dynamic
                && !tag_used(cs, c, link_tag(cs, cs[c].links@[l])->Some_0.0)) by {
            if k < prev.len() {
                assert(cur[k] == prev[k]);
            } else if k < prev.len() + ui.len() {
                assert(cur[k] == ui[k - prev.len()]);
            } else {
                assert(cur[k] == ud[k - prev.len() - ui.len()]);
            }
        }
        assert forall|c: int, u: int|
            0 <= c < m && 0 <= u < cs[c].used_custom_tags@.len() && !imports_tag(cs, c, cs[c].used_custom_tags@[u].tag@)
                implies #[trigger] cur.contains(CheckProblem::Undeclared(c, u)) by {
            if c < m - 1 {
                assert(prev.contains(CheckProblem::Undeclared(c, u)));
                let k = choose|k: int| 0 <= k < prev.len() && prev[k] == CheckProblem::Undeclared(c, u);
                assert(cur[k] == prev[k]);
            } else {
                assert(ud.contains(CheckProblem::Undeclared(c, u)));
                let k = choose|k: int| 0 <= k < ud.len() && ud[k] == CheckProblem::Undeclared(c, u);
                assert(cur[prev.len() + ui.len() + k] == ud[k]);
            }
        }
    }
}

/// `d` reports the problem `p`.
pub open spec fn check_problem_logged(d: Diagnostic, cs: Seq<Component>, p: CheckProblem) -> bool {
    match p {
        CheckProblem::Unused(c, k) => {
            let (t, j) = link_tag(cs, cs[c].links@[k])->Some_0;
            &&& d.level == LogLevel::Warn
            &&& d.code is None
            &&& d.message@ == "Component \""@ + cs[c].path@ + "\" imports \""@ + cs[j].path@ + "\" but never uses <"@
                + t + ">."@
            &&& d.note matches Some(n) && n@
                == "Remove the unused link import, add the matching custom element, or mark a dynamically referenced import with the dynamic attribute."@
            &&& d.span is None
            &&& d.source_line is None
        },
        CheckProblem::Undeclared(c, u) => {
            let used = cs[c].used_custom_tags@[u];
            &&& error_with(
                d,
                "Component \""@ + cs[c].path@ + "\" uses <"@ + used.tag@ + "> without a direct component import."@,
                "Add a matching top-level <link rel=\"component\" href=\"...\"> import for this custom element."@,
            )
            &&& at_span(d, cs[c].path@, cs[c].source@, used.span.start, used.span.end)
        },
    }
}

/// `entries` are `base` followed by the reports of `problems`.
pub open spec fn check_logged(entries: Seq<Diagnostic>, base: Seq<Diagnostic>, cs: Seq<Component>, problems: Seq<CheckProblem>) -> bool {
    &&& entries.len() == base.len() + problems.len()
    &&& entries.take(base.len() as int) == base
    &&& forall|k: int|
        0 <= k < problems.len() ==> check_problem_logged(#[trigger] entries[base.len() + k], cs, problems[k])
}

proof fn lemma_check_logged_push(entries: Seq<Diagnostic>, d: Diagnostic, base: Seq<Diagnostic>, cs: Seq<Component>, problems: Seq<CheckProblem>, p: CheckProblem)
    requires
        check_logged(entries, base, cs, problems),
        check_problem_logged(d, cs, p),
    ensures
        check_logged(entries.push(d), base, cs, problems.push(p)),
{
    assert(entries.push(d).take(base.len() as int) == entries.take(base.len() as int));
    assert forall|k: int| 0 <= k < problems.push(p).len() implies check_problem_logged(
        #[trigger] entries.push(d)[base.len() + k],
        cs,
        problems.push(p)[k],
    ) by {
        if k < problems.len() {
            assert(entries.push(d)[base.len() + k] == entries[base.len() + k]);
        }
    }
}

fn link_tag_exec(cs: &[Component], link: &Link) -> (r: Option<(usize, usize)>)
    ensures
        match link_tag(cs@, *link) {
            None => r is None,
            Some((t, j)) => {
                &&& r is Some
                &&& r->Some_0.0 == j
                &&& j < cs@.len()
                &&& cs@[j].custom_tag is Some
                &&& cs@[j].custom_tag->Some_0@ == t
            },
        },
{
    match lookup_exec(cs, link.href.as_str()) {
        Some(j) => {
            proof {
                lemma_lookup_upto(cs@, link.href@, cs@.len() as int);
            }
            match &cs[j].custom_tag {
                Some(_) => Some((j, 0)),
                None => None,
            }
        },
        None => None,
    }
}

/// Link `k` of component `c` imports the custom element that link `k2`
/// imports.
fn same_tag(cs: &[Component], c: usize, k: usize, k2: usize) -> (b: bool)
    requires
        c < cs@.len(),
        k < cs@[c as int].links@.len(),
        k2 < cs@[c as int].links@.len(),
        link_tag(cs@, cs@[c as int].links@[k as int]) is Some,
    ensures
        b == link_has_tag(cs@, cs@[c as int].links@[k2 as int], link_tag(cs@, cs@[c as int].links@[k as int])->Some_0.0),
{
    let a = link_tag_exec(cs, &cs[c].links[k]);
    let b = link_tag_exec(cs, &cs[c].links[k2]);
    match (a, b) {
        (Some((ja, _)), Some((jb, _))) => {
            match (&cs[ja].custom_tag, &cs[jb].custom_tag) {
                (Some(ta), Some(tb)) => crate::text::str_eq(tb.as_str(), ta.as_str()),
                _ => false,
            }
        },
        _ => false,
    }
}

/// Whether component `c` uses the custom element `t`.
fn tag_used_exec(cs: &[Component], c: usize, t: &str) -> (b: bool)
    requires
        c < cs@.len(),
    ensures
        b == tag_used(cs@, c as int, t@),
{
    let used = &cs[c].used_custom_tags;
    let mut u: usize = 0;
    while u < used.len()
        invariant
            u <= used@.len(),
            used@ == cs@[c as int].used_custom_tags@,
            forall|q: int| 0 <= q < u ==> (#[trigger] used@[q]).tag@ != t@,
        decreases used.len() - u,
    {
        if crate::text::str_eq(used[u].tag.as_str(), t) {
            return true;
        }
        u = u + 1;
    }
    false
}

/// Whether component `c` imports a component whose custom element is `t`.
fn imports_tag_exec(cs: &[Component], c: usize, t: &str) -> (b: bool)
    requires
        c < cs@.len(),
    ensures
        b == imports_tag(cs@, c as int, t@),
{
    let links = &cs[c].links;
    let mut k: usize = 0;
    while k < links.len()
        invariant
            k <= links@.len(),
            links@ == cs@[c as int].links@,
            c < cs@.len(),
            forall|q: int| 0 <= q < k ==> !(#[trigger] link_has_tag(cs@, links@[q], t@)),
        decreases links.len() - k,
    {
        match link_tag_exec(cs, &links[k]) {
            Some((j, _)) => {
                match &cs[j].custom_tag {
                    Some(ct) => {
                        if crate::text::str_eq(ct.as_str(), t) {
                            assert(link_has_tag(cs@, links@[k as int], t@));
                            return true;
                        }
                    },
                    None => {},
                }
            },
            None => {},
        }
        k = k + 1;
    }
    false
}

/// Whether link `k` of component `c` is an unused import.
fn unused_import_exec(cs: &[Component], c: usize, k: usize) -> (b: bool)
    requires
        c < cs@.len(),
        k < cs@[c as int].links@.len(),
    ensures
        b == unused_import(cs@, c as int, k as int),
{
    let links = &cs[c].links;
    let j = match link_tag_exec(cs, &links[k]) {
        Some((j, _)) => j,
        None => return false,
    };
    let n = links.len();
    let mut k2 = k + 1;
    while k2 < links.len()
        invariant
            k < k2 <= links@.len(),
            links@ == cs@[c as int].links@,
            c < cs@.len(),
            link_tag(cs@, links@[k as int]) is Some,
            forall|q: int|
                k < q < k2 ==> !(#[trigger] link_has_tag(cs@, links@[q], link_tag(cs@, links@[k as int])->Some_0.0)),
        decreases links.len() - k2,
    {
        if same_tag(cs, c, k, k2) {
            return false;
        }
        k2 = k2 + 1;
    }
    let tag = match &cs[j].custom_tag {
        Some(t) => t.as_str(),
        None => return false,
    };
    assert(tag@ == link_tag(cs@, links@[k as int])->Some_0.0);
    assert forall|q: int|
        k < q < cs@[c as int].links@.len() implies !(#[trigger] link_has_tag(cs@, cs@[c as int].links@[q], link_tag(cs@, cs@[c as int].links@[k as int])->Some_0.0)) by {
        assert(!link_has_tag(cs@, links@[q], link_tag(cs@, links@[k as int])->Some_0.0));
    }
    assert(last_for_tag(cs@, c as int, k as int));
    !tag_used_exec(cs, c, tag) && !links[k].dynamic
}

/// Checks the component imports: each component should use the custom
/// element of every component it imports, unless the import is marked
/// dynamic (a warning), and should import every custom element it uses
/// (an error).
pub fn validate_components(log: &mut Logger, components: &[Component])
    ensures
        check_logged(final(log).entries(), old(log).entries(), components@, check_problems(components@, components@.len() as int)),
        final(log).spec_format() == old(log).spec_format(),
{
    let ghost base = log.entries();
    let ghost cs = components@;
    let mut c: usize = 0;
    proof {
        assert(log.entries().take(base.len() as int) == base);
    }
    while c < components.len()
        invariant
            c <= cs.len(),
            cs == components@,
            check_logged(log.entries(), base, cs, check_problems(cs, c as int)),
            log.spec_format() == old(log).spec_format(),
        decreases components.len() - c,
    {
        let component = &components[c];
        let ghost before = check_problems(cs, c as int);
        let mut k: usize = 0;
        while k < component.links.len()
            invariant
                c < cs.len(),
                cs == components@,
                *component == cs[c as int],
                k <= cs[c as int].links@.len(),
                check_logged(log.entries(), base, cs, before + unused_imports(cs, c as int, k as int)),
                log.spec_format() == old(log).spec_format(),
            decreases cs[c as int].links@.len() - k,
        {
            if unused_import_exec(components, c, k) {
                let (j, _) = match link_tag_exec(components, &component.links[k]) {
                    Some(x) => x,
                    None => (0, 0),
                };
                let tag = match &components[j].custom_tag {
                    Some(t) => t.as_str(),
                    None => "",
                };
                let mut message = owned("Component \"");
                message.append(component.path.as_str());
                message.append("\" imports \"");
                message.append(components[j].path.as_str());
                message.append("\" but never uses <");
                message.append(tag);
                message.append(">.");
                let ghost e0 = log.entries();
                log.log(
                    Some(component.source.as_str()),
                    LogEntry {
                        level: LogLevel::Warn,
                        span: None,
                        message,
                        note: Some(
                            "Remove the unused link import, add the matching custom element, or mark a dynamically referenced import with the dynamic attribute.",
                        ),
                    },
                );
                proof {
                    assert(log.entries() == e0.push(log.entries().last()));
                    lemma_check_logged_push(e0, log.entries().last(), base, cs, before + unused_imports(cs, c as int, k as int), CheckProblem::Unused(c as int, k as int));
                    assert(before + unused_imports(cs, c as int, k + 1) == (before + unused_imports(cs, c as int, k as int)).push(CheckProblem::Unused(c as int, k as int)));
                }
            } else {
                assert(before + unused_imports(cs, c as int, k + 1) == before + unused_imports(cs, c as int, k as int));
            }
            k = k + 1;
        }
        let ghost mid = before + unused_imports(cs, c as int, cs[c as int].links@.len() as int);
        let mut u: usize = 0;
        while u < component.used_custom_tags.len()
            invariant
                c < cs.len(),
                cs == components@,
                *component == cs[c as int],
                u <= cs[c as int].used_custom_tags@.len(),
                mid == before + unused_imports(cs, c as int, cs[c as int].links@.len() as int),
                check_logged(log.entries(), base, cs, mid + undeclared_tags(cs, c as int, u as int)),
                log.spec_format() == old(log).spec_format(),
            decreases cs[c as int].used_custom_tags@.len() - u,
        {
            let used = &component.used_custom_tags[u];
            if !imports_tag_exec(components, c, used.tag.as_str()) {
                let mut message = owned("Component \"");
                message.append(component.path.as_str());
                message.append("\" uses <");
                message.append(used.tag.as_str());
                message.append("> without a direct component import.");
                let span = crate::vue::log_span(component.path.as_str(), component.source.as_str(), used.span.start, used.span.end);
                let ghost e0 = log.entries();
                log.log(
                    Some(component.source.as_str()),
                    LogEntry {
                        level: LogLevel::Error,
                        span,
                        message,
                        note: Some("Add a matching top-level <link rel=\"component\" href=\"...\"> import for this custom element."),
                    },
                );
                proof {
                    assert(log.entries() == e0.push(log.entries().last()));
                    lemma_check_logged_push(e0, log.entries().last(), base, cs, mid + undeclared_tags(cs, c as int, u as int), CheckProblem::Undeclared(c as int, u as int));
                    assert(mid + undeclared_tags(cs, c as int, u + 1) == (mid + undeclared_tags(cs, c as int, u as int)).push(CheckProblem::Undeclared(c as int, u as int)));
                }
            } else {
                assert(mid + undeclared_tags(cs, c as int, u + 1) == mid + undeclared_tags(cs, c as int, u as int));
            }
            u = u + 1;
        }
        assert(check_problems(cs, c + 1) == mid + undeclared_tags(cs, c as int, cs[c as int].used_custom_tags@.len() as int));
        c = c + 1;
    }
}

/// A built page: the configuration, the module script with its line map,
/// and the page's text.
pub struct Compilation {
    pub config: Config,
    pub javascript: MappedJavaScript,
    pub output: String,
}

/// `page` with the first occurrence of `tag` replaced, when there is one.
pub open spec fn replaced(page: Seq<char>, tag: Seq<char>, replacement: Seq<char>) -> Seq<char> {
    match find_spec(page, tag) {
        Some(i) => page.take(i) + replacement + page.skip(i + tag.len()),
        None => page,
    }
}

/// The module script element of a page.
pub open spec fn script_element(javascript: Seq<char>) -> Seq<char> {
    "<script type=\"module\">\n"@ + javascript + "\n</script>"@
}

/// The page template with its three placeholders filled in: scripts,
/// styles and templates, in that order.
pub open spec fn page_output(page: Seq<char>, scripts: Seq<char>, styles: Seq<char>, templates: Seq<char>) -> Seq<char> {
    replaced(
        replaced(replaced(page, "<!-- SCRIPTS -->"@, scripts), "<!-- STYLES -->"@, styles),
        "<!-- TEMPLATES -->"@,
        templates,
    )
}

/// The placeholders missing from the page as each is filled in, with the
/// page as it was at that point.
pub open spec fn missing_placeholders(page: Seq<char>, scripts: Seq<char>, styles: Seq<char>) -> Seq<(Seq<char>, Seq<char>)> {
    let p1 = replaced(page, "<!-- SCRIPTS -->"@, scripts);
    let p2 = replaced(p1, "<!-- STYLES -->"@, styles);
    (if find_spec(page, "<!-- SCRIPTS -->"@) is None {
        seq![(page, "<!-- SCRIPTS -->"@)]
    } else {
        Seq::empty()
    }) + (if find_spec(p1, "<!-- STYLES -->"@) is None {
        seq![(p1, "<!-- STYLES -->"@)]
    } else {
        Seq::empty()
    }) + (if find_spec(p2, "<!-- TEMPLATES -->"@) is None {
        seq![(p2, "<!-- TEMPLATES -->"@)]
    } else {
        Seq::empty()
    })
}

/// `entries` report the missing placeholders `missing` of page `file`.
pub open spec fn placeholders_logged(entries: Seq<Diagnostic>, file: Seq<char>, missing: Seq<(Seq<char>, Seq<char>)>) -> bool {
    &&& entries.len() == missing.len()
    &&& forall|k: int|
        0 <= k < missing.len() ==> missing_placeholder_logged(#[trigger] entries[k], file, missing[k].0, missing[k].1)
}

/// Fills in one placeholder, extending the reports.
fn fill_placeholder(
    log: &mut Logger,
    file: &str,
    page: &str,
    tag: &str,
    replacement: &str,
    Ghost(base): Ghost<Seq<Diagnostic>>,
    Ghost(missing): Ghost<Seq<(Seq<char>, Seq<char>)>>,
) -> (r: String)
    requires
        old(log).entries().len() >= base.len(),
        old(log).entries().take(base.len() as int) == base,
        placeholders_logged(old(log).entries().skip(base.len() as int), file@, missing),
    ensures
        r@ == replaced(page@, tag@, replacement@),
        final(log).entries().len() >= base.len(),
        final(log).entries().take(base.len() as int) == base,
        final(log).entries().take(old(log).entries().len() as int) == old(log).entries(),
        placeholders_logged(
            final(log).entries().skip(base.len() as int),
            file@,
            missing + if find_spec(page@, tag@) is None {
                seq![(page@, tag@)]
            } else {
                Seq::empty()
            },
        ),
        final(log).spec_format() == old(log).spec_format(),
{
    let ghost e0 = log.entries();
    let r = replace(log, file, page, tag, replacement);
    proof {
        if find_spec(page@, tag@) is None {
            let m2 = missing + seq![(page@, tag@)];
            assert(log.entries().take(base.len() as int) == e0.take(base.len() as int));
            assert(log.entries().take(e0.len() as int) == e0);
            assert forall|k: int| 0 <= k < m2.len() implies missing_placeholder_logged(
                #[trigger] log.entries().skip(base.len() as int)[k],
                file@,
                m2[k].0,
                m2[k].1,
            ) by {
                if k < missing.len() {
                    assert(log.entries().skip(base.len() as int)[k] == e0.skip(base.len() as int)[k]);
                } else {
                    assert(log.entries().skip(base.len() as int)[k] == log.entries().last());
                }
            }
        } else {
            assert(missing + Seq::<(Seq<char>, Seq<char>)>::empty() == missing);
            assert(log.entries().take(e0.len() as int) == e0);
        }
    }
    r
}

/// Builds the page from the components and the page template `page` (the
/// file `config.app.page`): the component imports are checked, the
/// scripts ordered and mapped, and the placeholders `<!-- SCRIPTS -->`,
/// `<!-- STYLES -->` and `<!-- TEMPLATES -->` filled in.
pub fn render_page(log: &mut Logger, config: Config, components: &[Component], page: &str) -> (r: Compilation)
    ensures
        r.config == config,
        (r.javascript.source@, r.javascript.mappings@.map_values(|m: LineMapping| map_view(m))) == scripts_output(
            components@,
            topo_walk(components@, config.app.main@).order,
        ),
        mappings_ordered(r.javascript.mappings@),
        ({
            let n1 = (old(log).entries().len() + check_problems(components@, components@.len() as int).len()) as int;
            let n2 = n1 + topo_walk(components@, config.app.main@).problems.len() as int;
            let styles = "<style>\n"@ + joined(styles_of(components@), "\n"@) + "\n</style>"@;
            let scripts = script_element(r.javascript.source@);
            &&& final(log).entries().len() >= n2
            &&& check_logged(final(log).entries().take(n1), old(log).entries(), components@, check_problems(components@, components@.len() as int))
            &&& topo_logged(final(log).entries().take(n2), final(log).entries().take(n1), components@, topo_walk(components@, config.app.main@).problems)
            &&& placeholders_logged(final(log).entries().skip(n2), config.app.page@, missing_placeholders(page@, scripts, styles))
            &&& r.output@ == page_output(page@, scripts, styles, joined(templates_of(components@), "\n"@))
        }),
{
    validate_components(log, components);
    let ghost e1 = log.entries();
    let javascript = render_scripts(log, &config, components);
    let ghost e2 = log.entries();
    let mut scripts = owned("<script type=\"module\">\n");
    scripts.append(javascript.source.as_str());
    scripts.append("\n</script>");
    let styles = render_styles(components);
    let templates = render_templates(components);
    proof {
        assert(log.entries().skip(e2.len() as int) == Seq::<Diagnostic>::empty());
        assert(log.entries().take(e2.len() as int) == e2);
    }
    let file = config.app.page.as_str();
    let p1 = fill_placeholder(log, file, page, "<!-- SCRIPTS -->", scripts.as_str(), Ghost(e2), Ghost(Seq::empty()));
    let p2 = fill_placeholder(
        log,
        file,
        p1.as_str(),
        "<!-- STYLES -->",
        styles.as_str(),
        Ghost(e2),
        Ghost(
            if find_spec(page@, "<!-- SCRIPTS -->"@) is None {
                seq![(page@, "<!-- SCRIPTS -->"@)]
            } else {
                Seq::empty()
            },
        ),
    );
    let output = fill_placeholder(
        log,
        file,
        p2.as_str(),
        "<!-- TEMPLATES -->",
        templates.as_str(),
        Ghost(e2),
        Ghost(
            (if find_spec(page@, "<!-- SCRIPTS -->"@) is None {
                seq![(page@, "<!-- SCRIPTS -->"@)]
            } else {
                Seq::empty()
            }) + (if find_spec(p1@, "<!-- STYLES -->"@) is None {
                seq![(p1@, "<!-- STYLES -->"@)]
            } else {
                Seq::empty()
            }),
        ),
    );
    proof {
        assert(Seq::<(Seq<char>, Seq<char>)>::empty() + (if find_spec(page@, "<!-- SCRIPTS -->"@) is None {
                seq![(page@, "<!-- SCRIPTS -->"@)]
            } else {
                Seq::empty()
            }) == (if find_spec(page@, "<!-- SCRIPTS -->"@) is None {
                seq![(page@, "<!-- SCRIPTS -->"@)]
            } else {
                Seq::<(Seq<char>, Seq<char>)>::empty()
            }));
        assert(log.entries().take(e2.len() as int).take(e1.len() as int) == log.entries().take(e1.len() as int));
        assert(e2.take(e1.len() as int) == e1);
    }
    Compilation { config, javascript, output }
}

/// `xs` is in strictly increasing order.
pub open spec fn sorted_paths(xs: Seq<Seq<char>>) -> bool {
    forall|a: int, b: int| #![trigger xs[a], xs[b]] 0 <= a < b < xs.len() ==> seq_lt(xs[a], xs[b])
}

/// Inserting `x` into the sorted `xs` at `k`, where it belongs.
proof fn lemma_insert_path(xs: Seq<Seq<char>>, x: Seq<char>, k: int)
    requires
        sorted_paths(xs),
        0 <= k <= xs.len(),
        forall|j: int| 0 <= j < k ==> seq_lt(#[trigger] xs[j], x),
        k < xs.len() ==> seq_lt(x, xs[k]),
    ensures
        sorted_paths(xs.insert(k, x)),
        forall|e: Seq<char>| #[trigger] xs.insert(k, x).contains(e) <==> xs.contains(e) || e == x,
{
    let r = xs.insert(k, x);
    assert forall|a: int, b: int| #![trigger r[a], r[b]] 0 <= a < b < r.len() implies seq_lt(r[a], r[b]) by {
        if b < k {
        } else if b == k {
        } else if a < k {
            lemma_seq_lt_transitive(r[a], x, xs[k]);
            if b - 1 > k {
                lemma_seq_lt_transitive(r[a], xs[k], xs[b - 1]);
            }
        } else if a == k {
            if b - 1 > k {
                lemma_seq_lt_transitive(x, xs[k], xs[b - 1]);
            }
        } else {
            assert(r[a] == xs[a - 1]);
            assert(r[b] == xs[b - 1]);
        }
    }
    assert forall|e: Seq<char>| #[trigger] r.contains(e) <==> xs.contains(e) || e == x by {
        if r.contains(e) {
            let j = choose|j: int| 0 <= j < r.len() && r[j] == e;
            if j < k {
                assert(xs[j] == e);
            } else if j > k {
                assert(xs[j - 1] == e);
            }
        }
        if xs.contains(e) {
            let j = choose|j: int| 0 <= j < xs.len() && xs[j] == e;
            if j < k {
                assert(r[j] == e);
            } else {
                assert(r[j + 1] == e);
            }
        }
        if e == x {
            assert(r[k] == e);
        }
    }
}

/// The component files still to read, smallest path first, and those
/// already read.
pub struct ComponentQueue {
    pending: Vec<String>,
    visited: Vec<String>,
}

impl ComponentQueue {
    /// The paths still to consider, in order.
    pub closed spec fn pending(&self) -> Seq<Seq<char>> {
        self.pending@.map_values(|p: String| p@)
    }

    /// The paths handed out so far, in order.
    pub closed spec fn visited(&self) -> Seq<Seq<char>> {
        self.visited@.map_values(|p: String| p@)
    }

    /// The pending paths are sorted with none twice, and no path was
    /// handed out twice.
    pub open spec fn wf(&self) -> bool {
        &&& sorted_paths(self.pending())
        &&& forall|a: int, b: int|
            #![trigger self.visited()[a], self.visited()[b]]
            0 <= a < b < self.visited().len() ==> self.visited()[a] != self.visited()[b]
    }

    /// A queue holding the main component.
    pub fn new(main: &str) -> (q: ComponentQueue)
        ensures
            q.wf(),
            q.pending() == seq![main@],
            q.visited() == Seq::<Seq<char>>::empty(),
    {
        let mut pending = Vec::new();
        pending.push(owned(main));
        let q = ComponentQueue { pending, visited: Vec::new() };
        assert(q.pending() =~= seq![main@]);
        assert(q.visited() =~= Seq::<Seq<char>>::empty());
        q
    }

    /// Whether `path` was handed out.
    fn was_visited(&self, path: &str) -> (b: bool)
        ensures
            b == self.visited().contains(path@),
    {
        let mut i: usize = 0;
        while i < self.visited.len()
            invariant
                i <= self.visited@.len(),
                forall|j: int| 0 <= j < i ==> (#[trigger] self.visited()[j]) != path@,
            decreases self.visited.len() - i,
        {
            if crate::text::str_eq(self.visited[i].as_str(), path) {
                assert(self.visited()[i as int] == path@);
                return true;
            }
            i = i + 1;
        }
        false
    }

    /// The next path to read: the smallest pending path not handed out
    /// before; the paths before it are dropped.
    pub fn next(&mut self) -> (r: Option<String>)
        requires
            old(self).wf(),
        ensures
            final(self).wf(),
            match r {
                Some(p) => exists|i: int|
                    0 <= i < old(self).pending().len() && old(self).pending()[i] == p@ && !old(self).visited().contains(p@)
                        && (forall|j: int| 0 <= j < i ==> old(self).visited().contains(#[trigger] old(self).pending()[j]))
                        && final(self).pending() == old(self).pending().skip(i + 1)
                        && final(self).visited() == old(self).visited().push(p@),
                None => {
                    &&& forall|j: int|
                        0 <= j < old(self).pending().len() ==> old(self).visited().contains(#[trigger] old(self).pending()[j])
                    &&& final(self).pending().len() == 0
                    &&& final(self).visited() == old(self).visited()
                },
            },
    {
        let ghost start = self.pending();
        let ghost i: int = 0;
        while self.pending.len() > 0
            invariant
                0 <= i <= start.len(),
                self.pending() == start.skip(i),
                self.visited() == old(self).visited(),
                start == old(self).pending(),
                self.wf(),
                forall|j: int| 0 <= j < i ==> self.visited().contains(#[trigger] start[j]),
            decreases self.pending@.len(),
        {
            let ghost before = self.pending@;
            let ghost before_view = self.pending();
            assert(sorted_paths(before_view));
            let path = self.pending.remove(0);
            proof {
                assert(before[0]@ == path@);
                assert(self.pending@ == before.remove(0));
                assert(before.map_values(|p: String| p@) == start.skip(i));
                assert(before.len() > 0);
                assert(start.skip(i).len() == before.len());
                assert(i < start.len());
                assert(start.skip(i)[0] == before[0]@);
                assert(start[i] == path@);
                assert forall|t: int| 0 <= t < self.pending().len() implies self.pending()[t] == start.skip(i + 1)[t] by {
                    assert(self.pending()[t] == before[t + 1]@);
                    assert(start.skip(i)[t + 1] == before[t + 1]@);
                }
                assert(self.pending() =~= start.skip(i + 1));
                assert(sorted_paths(self.pending())) by {
                    assert forall|a: int, b: int| #![trigger self.pending()[a], self.pending()[b]]
                        0 <= a < b < self.pending().len() implies seq_lt(self.pending()[a], self.pending()[b]) by {
                        assert(self.pending()[a] == before_view[a + 1]);
                        assert(self.pending()[b] == before_view[b + 1]);
                    }
                }
            }
            if !self.was_visited(path.as_str()) {
                let ghost p = path@;
                self.visited.push(owned(path.as_str()));
                proof {
                    assert(self.visited() =~= old(self).visited().push(p));
                    assert forall|a: int, b: int|
                        #![trigger self.visited()[a], self.visited()[b]]
                        0 <= a < b < self.visited().len() implies self.visited()[a] != self.visited()[b] by {
                        if b == self.visited().len() - 1 {
                            assert(old(self).visited().contains(self.visited()[a]));
                        } else {
                            assert(self.visited()[a] == old(self).visited()[a]);
                            assert(self.visited()[b] == old(self).visited()[b]);
                        }
                    }
                }
                return Some(path);
            }
            proof {
                i = i + 1;
            }
        }
        proof {
            assert(start.skip(i).len() == 0);
            assert(i == start.len());
        }
        None
    }

    /// Adds `path` to the pending paths, unless it is there already.
    pub fn add(&mut self, path: &str)
        requires
            old(self).wf(),
        ensures
            final(self).wf(),
            final(self).visited() == old(self).visited(),
            forall|e: Seq<char>| #[trigger] final(self).pending().contains(e) <==> old(self).pending().contains(e) || e == path@,
    {
        let ghost xs = self.pending();
        let mut k: usize = 0;
        while k < self.pending.len() && str_lt(self.pending[k].as_str(), path)
            invariant
                k <= self.pending@.len(),
                xs == self.pending(),
                self.wf(),
                forall|j: int| 0 <= j < k ==> seq_lt(#[trigger] xs[j], path@),
            decreases self.pending.len() - k,
        {
            k = k + 1;
        }
        if k < self.pending.len() && crate::text::str_eq(self.pending[k].as_str(), path) {
            assert(xs[k as int] == path@);
            return;
        }
        proof {
            if k < xs.len() {
                assert(!seq_lt(xs[k as int], path@));
                lemma_seq_lt_total(xs[k as int], path@);
            }
            lemma_insert_path(xs, path@, k as int);
        }
        self.pending.insert(k, owned(path));
        assert(self.pending() =~= xs.insert(k as int, path@));
        assert(sorted_paths(self.pending()));
        assert(self.visited() == old(self).visited());
    }

    /// Adds the components that `component` imports.
    pub fn add_links(&mut self, component: &Component)
        requires
            old(self).wf(),
        ensures
            final(self).wf(),
            final(self).visited() == old(self).visited(),
            forall|e: Seq<char>| #[trigger] final(self).pending().contains(e) <==> old(self).pending().contains(e)
                || exists|k: int| 0 <= k < component.links@.len() && (#[trigger] component.links@[k]).href@ == e,
    {
        let mut k: usize = 0;
        while k < component.links.len()
            invariant
                k <= component.links@.len(),
                self.wf(),
                self.visited() == old(self).visited(),
                forall|e: Seq<char>| #[trigger] self.pending().contains(e) <==> old(self).pending().contains(e)
                    || exists|q: int| 0 <= q < k && (#[trigger] component.links@[q]).href@ == e,
            decreases component.links.len() - k,
        {
            self.add(component.links[k].href.as_str());
            proof {
                assert forall|e: Seq<char>| #[trigger] self.pending().contains(e) <==> old(self).pending().contains(e)
                    || exists|q: int| 0 <= q < k + 1 && (#[trigger] component.links@[q]).href@ == e by {
                    if e == component.links@[k as int].href@ {
                    }
                }
            }
            k = k + 1;
        }
    }
}

} // verus!

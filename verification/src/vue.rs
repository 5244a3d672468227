//! Parsing of `.vue` component files.
use vstd::prelude::*;
use crate::component::{Component, Link, SourceSpan, UsedCustomTag};
use crate::html::{
    byte_range_ok, byte_slice, eq_ignore_ascii_case, eq_ignore_case_spec, html_attribute,
    html_attribute_of, html_descendants, html_descendants_of, html_errors, html_errors_of,
    html_nodes, html_nodes_of, html_text_content, html_text_content_of, resolve_span,
    span_resolution, to_ascii_lowercase, unquoted, unquoted_spec, HtmlAttribute, HtmlElement,
    HtmlNode, HtmlTag,
};
use crate::js::{extract_imports, extracted_spec, import_view, ScriptImport};
use crate::log::{logged_message, LineSpan, LogEntry, LogLevel, Logger};
use crate::text::{
    chars_of, join_slash, lemma_split_on_nonempty, lower_spec, owned, push_char, split_bounds,
    split_on, str_eq, string_of_range,
};

verus! {

broadcast use vstd::string::group_string_axioms;

/// The non-empty pieces of `parts`.
pub open spec fn nonempty_parts(parts: Seq<Seq<char>>) -> Seq<Seq<char>>
    decreases parts.len(),
{
    if parts.len() == 0 {
        Seq::empty()
    } else if parts.last().len() == 0 {
        nonempty_parts(parts.drop_last())
    } else {
        nonempty_parts(parts.drop_last()).push(parts.last())
    }
}

/// The directory stack after following the pieces of a relative path:
/// empty pieces and `.` stay, `..` goes up (`None` above the root), any
/// other piece goes down.
pub open spec fn follow_parts(stack: Seq<Seq<char>>, parts: Seq<Seq<char>>) -> Option<Seq<Seq<char>>>
    decreases parts.len(),
{
    if parts.len() == 0 {
        Some(stack)
    } else {
        match follow_parts(stack, parts.drop_last()) {
            None => None,
            Some(st) => {
                let p = parts.last();
                if p.len() == 0 || p == seq!['.'] {
                    Some(st)
                } else if p == seq!['.', '.'] {
                    if st.len() == 0 {
                        None
                    } else {
                        Some(st.drop_last())
                    }
                } else {
                    Some(st.push(p))
                }
            },
        }
    }
}

/// `..` goes up exactly one directory: it fails only where the directories
/// followed so far are already back at the root, and otherwise drops the
/// last of them.
pub proof fn lemma_follow_up_one(stack: Seq<Seq<char>>, parts: Seq<Seq<char>>)
    ensures
        follow_parts(stack, parts) matches Some(s) ==> ((follow_parts(stack, parts.push(seq!['.', '.'])) is None
            <==> s.len() == 0) && (s.len() > 0 ==> follow_parts(stack, parts.push(seq!['.', '.'])) == Some(
            s.drop_last(),
        ))),
        follow_parts(stack, parts) is None ==> follow_parts(stack, parts.push(seq!['.', '.'])) is None,
{
    assert(parts.push(seq!['.', '.']).drop_last() == parts);
}

/// Entering a directory and leaving it with `..` comes back to where the
/// path was: `name/..` changes nothing, at any depth, the root included.
pub proof fn lemma_follow_down_up(stack: Seq<Seq<char>>, parts: Seq<Seq<char>>, name: Seq<char>)
    requires
        name.len() > 0,
        name != seq!['.'],
        name != seq!['.', '.'],
    ensures
        follow_parts(stack, parts.push(name).push(seq!['.', '.'])) == follow_parts(stack, parts),
{
    assert(parts.push(name).drop_last() == parts);
    assert(parts.push(name).push(seq!['.', '.']).drop_last() == parts.push(name));
    let down = parts.push(name);
    let up = down.push(seq!['.', '.']);
    assert(up.last() == seq!['.', '.']);
    assert(down.last() == name);
    assert(seq!['.', '.'].len() == 2);
    match follow_parts(stack, parts) {
        Some(s) => {
            assert(follow_parts(stack, down) == Some(s.push(name)));
            assert(s.push(name).drop_last() == s);
            assert(follow_parts(stack, up) == Some(s));
        },
        None => {
            assert(follow_parts(stack, down) is None);
        },
    }
}

/// `relative_path` resolved against the directory `base_path`, both with
/// `/` separators; `None` where it climbs above the root.
pub open spec fn join_component_path_spec(base_path: Seq<char>, relative_path: Seq<char>) -> Option<Seq<char>> {
    match follow_parts(nonempty_parts(split_on(base_path, '/')), split_on(relative_path, '/')) {
        None => None,
        Some(st) => Some(join_slash(st)),
    }
}

/// The view of a stack of strings.
pub open spec fn strings_view(v: Seq<String>) -> Seq<Seq<char>> {
    v.map_values(|s: String| s@)
}

proof fn lemma_follow_none_stays(stack: Seq<Seq<char>>, parts: Seq<Seq<char>>, i: int)
    requires
        0 <= i <= parts.len(),
        follow_parts(stack, parts.take(i)) is None,
    ensures
        follow_parts(stack, parts) is None,
    decreases parts.len() - i,
{
    if i == parts.len() {
        assert(parts.take(i) == parts);
    } else {
        assert(parts.take(i + 1).drop_last() == parts.take(i));
        lemma_follow_none_stays(stack, parts, i + 1);
    }
}

fn join_strings(stack: &Vec<String>) -> (r: String)
    ensures
        r@ == join_slash(strings_view(stack@)),
{
    let mut r = String::new();
    let mut i: usize = 0;
    while i < stack.len()
        invariant
            i <= stack@.len(),
            r@ == join_slash(strings_view(stack@.take(i as int))),
        decreases stack.len() - i,
    {
        let ghost prev = strings_view(stack@.take(i as int));
        assert(strings_view(stack@.take(i + 1)) == prev.push(stack@[i as int]@));
        if i > 0 {
            push_char(&mut r, '/');
            assert(prev.push(stack@[i as int]@).drop_last() == prev);
        }
        r.append(stack[i].as_str());
        i = i + 1;
    }
    assert(stack@.take(stack@.len() as int) == stack@);
    r
}

/// Resolves a component link against the directory of the linking file.
pub fn join_component_path(base_path: &str, relative_path: &str) -> (r: Option<String>)
    ensures
        r matches Some(s) ==> join_component_path_spec(base_path@, relative_path@) == Some(s@),
        r is None ==> join_component_path_spec(base_path@, relative_path@) is None,
{
    let bv = chars_of(base_path);
    let bb = split_bounds(bv.as_slice(), '/');
    let mut stack: Vec<String> = Vec::new();
    let mut i: usize = 0;
    while i < bb.len()
        invariant
            i <= bb@.len(),
            bb@.len() == split_on(bv@, '/').len(),
            forall|k: int|
                #![trigger bb@[k]]
                0 <= k < bb@.len() ==> {
                    &&& bb@[k].0 <= bb@[k].1 && bb@[k].1 <= bv@.len()
                    &&& split_on(bv@, '/')[k] == bv@.subrange(bb@[k].0 as int, bb@[k].1 as int)
                },
            strings_view(stack@) == nonempty_parts(split_on(bv@, '/').take(i as int)),
        decreases bb.len() - i,
    {
        let (a, b) = bb[i];
        assert(bb@[i as int] == (a, b));
        let ghost parts = split_on(bv@, '/');
        assert(parts.take(i + 1).drop_last() == parts.take(i as int));
        assert(parts.take(i + 1).last() == parts[i as int]);
        if a < b {
            let ghost before = stack@;
            stack.push(string_of_range(bv.as_slice(), a, b));
            assert(strings_view(stack@) == strings_view(before).push(parts[i as int]));
        }
        i = i + 1;
    }
    assert(split_on(bv@, '/').take(bb@.len() as int) == split_on(bv@, '/'));
    let rv = chars_of(relative_path);
    let rb = split_bounds(rv.as_slice(), '/');
    let ghost base_stack = strings_view(stack@);
    let mut j: usize = 0;
    while j < rb.len()
        invariant
            j <= rb@.len(),
            rb@.len() == split_on(rv@, '/').len(),
            forall|k: int|
                #![trigger rb@[k]]
                0 <= k < rb@.len() ==> {
                    &&& rb@[k].0 <= rb@[k].1 && rb@[k].1 <= rv@.len()
                    &&& split_on(rv@, '/')[k] == rv@.subrange(rb@[k].0 as int, rb@[k].1 as int)
                },
            follow_parts(base_stack, split_on(rv@, '/').take(j as int)) == Some(strings_view(stack@)),
            base_stack == nonempty_parts(split_on(bv@, '/')),
            bv@ == base_path@,
            rv@ == relative_path@,
        decreases rb.len() - j,
    {
        let (a, b) = rb[j];
        assert(rb@[j as int] == (a, b));
        let ghost parts = split_on(rv@, '/');
        let ghost p = parts[j as int];
        assert(parts.take(j + 1).drop_last() == parts.take(j as int));
        assert(parts.take(j + 1).last() == p);
        assert(p == rv@.subrange(a as int, b as int));
        let is_dot = b - a == 1 && rv[a] == '.';
        let is_dotdot = b - a == 2 && rv[a] == '.' && rv[a + 1] == '.';
        proof {
            if b - a == 1 {
                assert(is_dot == (p == seq!['.'])) by {
                    assert(p[0] == rv@[a as int]);
                    if rv@[a as int] == '.' {
                        assert(p =~= seq!['.']);
                    }
                }
            } else {
                assert(p.len() != 1);
            }
            if b - a == 2 {
                assert(is_dotdot == (p == seq!['.', '.'])) by {
                    assert(p[0] == rv@[a as int]);
                    assert(p[1] == rv@[a + 1]);
                    if rv@[a as int] == '.' && rv@[a + 1] == '.' {
                        assert(p =~= seq!['.', '.']);
                    }
                }
            } else {
                assert(p.len() != 2);
            }
        }
        if a == b || is_dot {
        } else if is_dotdot {
            if stack.len() == 0 {
                proof {
                    lemma_follow_none_stays(base_stack, parts, j + 1);
                }
                return None;
            }
            let ghost before = stack@;
            stack.pop();
            assert(strings_view(stack@) == strings_view(before).drop_last());
        } else {
            let ghost before = stack@;
            stack.push(string_of_range(rv.as_slice(), a, b));
            assert(strings_view(stack@) == strings_view(before).push(p));
        }
        j = j + 1;
    }
    assert(split_on(rv@, '/').take(rb@.len() as int) == split_on(rv@, '/'));
    Some(join_strings(&stack))
}


/// The line and column span of the bytes `start..end` of `source`, where
/// they lie on character boundaries and resolve.
pub open spec fn resolved_span(source: Seq<char>, start: u32, end: u32) -> Option<(u32, u32, u32, u32)> {
    let bytes = vstd::utf8::encode_utf8(source);
    if start <= end && end <= bytes.len() && vstd::utf8::is_char_boundary(bytes, start as int)
        && vstd::utf8::is_char_boundary(bytes, end as int) {
        match span_resolution(source, start, end) {
            Some(r) => if (r.1 as int) < usize::MAX && (r.3 as int) < usize::MAX {
                Some(r)
            } else {
                None
            },
            None => None,
        }
    } else {
        None
    }
}

/// The location of the bytes `start..end` of `file`'s `source`.
pub fn log_span<'a>(file: &'a str, source: &str, start: u32, end: u32) -> (r: Option<LineSpan<'a>>)
    ensures
        r is Some <==> resolved_span(source@, start, end) is Some,
        r matches Some(sp) ==> {
            let (sl, sc, el, ec) = resolved_span(source@, start, end)->Some_0;
            &&& sp.file == file
            &&& sp.line_start == sl as usize
            &&& sp.column_start == sc as usize
            &&& sp.line_end == el as usize
            &&& sp.column_end == ec as usize
            &&& sp.column_start < usize::MAX && sp.column_end < usize::MAX
        },
{
    let n = source.as_bytes().len();
    if start <= end && (end as usize) <= n && source.is_char_boundary(start as usize)
        && source.is_char_boundary(end as usize) {
        match resolve_span(source, start, end) {
            Some((sl, sc, el, ec)) => {
                if (sc as usize) < usize::MAX && (ec as usize) < usize::MAX {
                    Some(
                        LineSpan {
                            file,
                            line_start: sl as usize,
                            line_end: el as usize,
                            column_start: sc as usize,
                            column_end: ec as usize,
                        },
                    )
                } else {
                    None
                }
            },
            None => None,
        }
    } else {
        None
    }
}

/// `d` is located at the bytes `start..end` of `source`, the file `path`
/// (with one-indexed columns) and carries the line the span starts on;
/// bytes that do not resolve give no location.
pub open spec fn at_span(d: crate::log::Diagnostic, path: Seq<char>, source: Seq<char>, start: u32, end: u32) -> bool {
    match resolved_span(source, start, end) {
        None => d.span is None && d.source_line is None,
        Some((sl, sc, el, ec)) => {
            &&& d.span matches Some(ds)
            &&& ds.file@ == path
            &&& ds.line_start == sl as usize
            &&& ds.line_end == el as usize
            &&& ds.column_start == sc + 1
            &&& ds.column_end == ec + 1
            &&& crate::log::opt_string_view(d.source_line) == crate::log::source_line_of(Some(source), sl as usize)
        },
    }
}

/// Logs `message` against the bytes `start..end` of the component.
fn log_problem(
    log: &mut Logger,
    path: &str,
    source: &str,
    level: LogLevel,
    message: String,
    note: &'static str,
    start: u32,
    end: u32,
)
    ensures
        final(log).spec_format() == old(log).spec_format(),
        final(log).entries() == old(log).entries().push(final(log).entries().last()),
        logged_message(final(log).entries().last(), level, message@, note@),
        at_span(final(log).entries().last(), path@, source@, start, end),
{
    let span = log_span(path, source, start, end);
    let entry = LogEntry { level, span, message, note: Some(note) };
    log.log(Some(source), entry);
    assert(final(log).entries() =~= old(log).entries().push(final(log).entries().last()));
}

/// What a top-level `<link>` gives: a component import, or a problem with
/// its message, help and byte span.
pub enum LinkOutcome {
    Import(Seq<char>, bool),
    Problem(Seq<char>, Seq<char>, u32, u32),
}

/// `"<prefix>\"<path>\"<suffix>"`.
pub open spec fn quoted(prefix: Seq<char>, path: Seq<char>, suffix: Seq<char>) -> Seq<char> {
    prefix + path + suffix
}

/// The import that the top-level `<link>` at `index` of the component at
/// `path` makes, or the problem with it.  `base` is the component's
/// directory and `start..end` the span of the element.
pub open spec fn link_outcome(path: Seq<char>, source: Seq<char>, base: Seq<char>, index: int, start: u32, end: u32) -> LinkOutcome {
    match html_attribute_of(source, index, "rel"@) {
        None => LinkOutcome::Problem(
            quoted("Top-level <link> in component \""@, path, "\" is missing a rel attribute."@),
            "Add rel=\"component\" to the link element."@, start, end),
        Some(rel) => match rel.value {
            None => LinkOutcome::Problem(
                quoted("Top-level <link> in component \""@, path, "\" has an empty rel attribute."@),
                "Set rel=\"component\" on the link element."@, rel.start, rel.end),
            Some(rv) => if unquoted_spec(rv.text@) != "component"@ {
                LinkOutcome::Problem(
                    quoted("Top-level <link> in component \""@, path, "\" must use rel=\"component\"."@),
                    "Remove the link or change it to <link rel=\"component\" href=\"...\">."@, rv.start, rv.end)
            } else {
                match html_attribute_of(source, index, "href"@) {
                    None => LinkOutcome::Problem(
                        quoted("Component import in \""@, path, "\" is missing an href value."@),
                        "Add href=\"...\" to the component import link."@, start, end),
                    Some(href) => match href.value {
                        None => LinkOutcome::Problem(
                            quoted("Component import in \""@, path, "\" has an empty href value."@),
                            "Set href=\"...\" on the component import link."@, href.start, href.end),
                        Some(hv) => match join_component_path_spec(base, unquoted_spec(hv.text@)) {
                            None => LinkOutcome::Problem(
                                quoted("Component import in \""@, path, "\" resolves outside the project root."@),
                                "Use a relative href that stays within the project directory."@, hv.start, hv.end),
                            Some(h) => LinkOutcome::Import(h, html_attribute_of(source, index, "dynamic"@) is Some),
                        },
                    },
                }
            },
        },
    }
}

fn quoted_message(prefix: &str, path: &str, suffix: &str) -> (m: String)
    ensures
        m@ == quoted(prefix@, path@, suffix@),
{
    let mut m = owned(prefix);
    m.append(path);
    m.append(suffix);
    m
}

/// Reads the top-level `<link>` at `index` of the component at
/// `component_path`, logging what is wrong with it.
pub fn parse_component_link(
    log: &mut Logger,
    component_path: &str,
    source: &str,
    component_base_path: &str,
    index: usize,
    element_start: u32,
    element_end: u32,
) -> (r: Option<Link>)
    ensures
        final(log).spec_format() == old(log).spec_format(),
        match link_outcome(component_path@, source@, component_base_path@, index as int, element_start, element_end) {
            LinkOutcome::Import(href, dynamic) => {
                &&& r matches Some(l) && l.href@ == href && l.dynamic == dynamic
                &&& final(log).entries() == old(log).entries()
            },
            LinkOutcome::Problem(message, note, start, end) => {
                &&& r is None
                &&& final(log).entries() == old(log).entries().push(final(log).entries().last())
                &&& logged_message(final(log).entries().last(), LogLevel::Error, message, note)
                &&& at_span(final(log).entries().last(), component_path@, source@, start, end)
            },
        },
{
    let path = component_path;
    let rel = match html_attribute(source, index, "rel") {
        Some(a) => a,
        None => {
            log_problem(log, path, source, LogLevel::Error,
                quoted_message("Top-level <link> in component \"", path, "\" is missing a rel attribute."),
                "Add rel=\"component\" to the link element.", element_start, element_end);
            return None;
        },
    };
    let rel_value = match &rel.value {
        Some(v) => v,
        None => {
            log_problem(log, path, source, LogLevel::Error,
                quoted_message("Top-level <link> in component \"", path, "\" has an empty rel attribute."),
                "Set rel=\"component\" on the link element.", rel.start, rel.end);
            return None;
        },
    };
    let rel_text = unquoted(rel_value.text.as_str());
    if !str_eq(rel_text.as_str(), "component") {
        log_problem(log, path, source, LogLevel::Error,
            quoted_message("Top-level <link> in component \"", path, "\" must use rel=\"component\"."),
            "Remove the link or change it to <link rel=\"component\" href=\"...\">.", rel_value.start, rel_value.end);
        return None;
    }
    let href = match html_attribute(source, index, "href") {
        Some(a) => a,
        None => {
            log_problem(log, path, source, LogLevel::Error,
                quoted_message("Component import in \"", path, "\" is missing an href value."),
                "Add href=\"...\" to the component import link.", element_start, element_end);
            return None;
        },
    };
    let href_value = match &href.value {
        Some(v) => v,
        None => {
            log_problem(log, path, source, LogLevel::Error,
                quoted_message("Component import in \"", path, "\" has an empty href value."),
                "Set href=\"...\" on the component import link.", href.start, href.end);
            return None;
        },
    };
    let href_text = unquoted(href_value.text.as_str());
    let joined = match join_component_path(component_base_path, href_text.as_str()) {
        Some(j) => j,
        None => {
            log_problem(log, path, source, LogLevel::Error,
                quoted_message("Component import in \"", path, "\" resolves outside the project root."),
                "Use a relative href that stays within the project directory.", href_value.start, href_value.end);
            return None;
        },
    };
    let dynamic = html_attribute(source, index, "dynamic").is_some();
    Some(Link { href: joined, dynamic })
}


/// Lexicographic order of strings by character, which is the order of
/// `String`'s `Ord` (UTF-8 keeps the order of code points).
pub open spec fn seq_lt(a: Seq<char>, b: Seq<char>) -> bool
    decreases a.len(),
{
    if a.len() == 0 {
        b.len() > 0
    } else if b.len() == 0 {
        false
    } else if a[0] != b[0] {
        (a[0] as u32) < (b[0] as u32)
    } else {
        seq_lt(a.drop_first(), b.drop_first())
    }
}

pub fn str_lt(a: &str, b: &str) -> (r: bool)
    ensures
        r == seq_lt(a@, b@),
{
    let va = chars_of(a);
    let vb = chars_of(b);
    assert(va@.skip(0) == va@);
    assert(vb@.skip(0) == vb@);
    let mut i: usize = 0;
    while i < va.len() && i < vb.len()
        invariant
            va@ == a@,
            vb@ == b@,
            i <= va@.len(),
            i <= vb@.len(),
            seq_lt(a@, b@) == seq_lt(va@.skip(i as int), vb@.skip(i as int)),
        decreases va.len() - i,
    {
        assert(va@.skip(i as int)[0] == va@[i as int]);
        assert(vb@.skip(i as int)[0] == vb@[i as int]);
        if va[i] != vb[i] {
            return (va[i] as u32) < (vb[i] as u32);
        }
        assert(va@.skip(i as int).drop_first() == va@.skip(i + 1));
        assert(vb@.skip(i as int).drop_first() == vb@.skip(i + 1));
        i = i + 1;
    }
    assert(va@.skip(i as int).len() == va@.len() - i);
    assert(vb@.skip(i as int).len() == vb@.len() - i);
    i == va.len() && i < vb.len()
}

/// The order of strings by character is transitive.
pub proof fn lemma_seq_lt_transitive(a: Seq<char>, b: Seq<char>, c: Seq<char>)
    requires
        seq_lt(a, b),
        seq_lt(b, c),
    ensures
        seq_lt(a, c),
    decreases a.len(),
{
    if a.len() > 0 && b.len() > 0 && c.len() > 0 && a[0] == b[0] && b[0] == c[0] {
        lemma_seq_lt_transitive(a.drop_first(), b.drop_first(), c.drop_first());
    }
}

/// Of two different strings, one comes before the other.
pub proof fn lemma_seq_lt_total(a: Seq<char>, b: Seq<char>)
    requires
        a != b,
    ensures
        seq_lt(a, b) || seq_lt(b, a),
    decreases a.len(),
{
    if a.len() > 0 && b.len() > 0 && a[0] == b[0] {
        if a.drop_first() == b.drop_first() {
            assert(a == seq![a[0]] + a.drop_first());
            assert(b == seq![b[0]] + b.drop_first());
        }
        lemma_seq_lt_total(a.drop_first(), b.drop_first());
    } else if a.len() == 0 && b.len() == 0 {
        assert(a =~= b);
    } else if a.len() > 0 && b.len() > 0 {
        vstd::utf8::char_u32_cast(a[0], a[0] as u32);
        vstd::utf8::char_u32_cast(b[0], b[0] as u32);
        assert((a[0] as u32) != (b[0] as u32));
    }
}

/// The plain values of a used custom tag.
pub open spec fn used_view(t: UsedCustomTag) -> (Seq<char>, u32, u32) {
    (t.tag@, t.span.start, t.span.end)
}

/// A custom element's tag holds a `-`.
pub open spec fn is_custom_tag(tag: Seq<char>) -> bool {
    exists|i: int| 0 <= i < tag.len() && tag[i] == '-'
}

fn has_dash(s: &str) -> (b: bool)
    ensures
        b == is_custom_tag(s@),
{
    let v = chars_of(s);
    let mut i: usize = 0;
    while i < v.len()
        invariant
            v@ == s@,
            i <= v@.len(),
            forall|j: int| 0 <= j < i ==> v@[j] != '-',
        decreases v.len() - i,
    {
        if v[i] == '-' {
            return true;
        }
        i = i + 1;
    }
    false
}

/// `x` inserted before the first entry whose tag is greater.
pub open spec fn insert_sorted(acc: Seq<(Seq<char>, u32, u32)>, x: (Seq<char>, u32, u32)) -> Seq<(Seq<char>, u32, u32)>
    decreases acc.len(),
{
    if acc.len() == 0 {
        seq![x]
    } else if seq_lt(x.0, acc[0].0) {
        seq![x] + acc
    } else {
        seq![acc[0]] + insert_sorted(acc.drop_first(), x)
    }
}

/// One more element of the template: a custom tag not seen before is added
/// in sorted position, with the span of this first use.
pub open spec fn add_used(acc: Seq<(Seq<char>, u32, u32)>, t: HtmlTag) -> Seq<(Seq<char>, u32, u32)> {
    if !is_custom_tag(t.tag@) || (exists|i: int| 0 <= i < acc.len() && (#[trigger] acc[i]).0 == t.tag@) {
        acc
    } else {
        insert_sorted(acc, (t.tag@, t.start, t.end))
    }
}

/// The custom tags used by the elements `tags`, in document order.
pub open spec fn used_tags_spec(tags: Seq<HtmlTag>) -> Seq<(Seq<char>, u32, u32)>
    decreases tags.len(),
{
    if tags.len() == 0 {
        Seq::empty()
    } else {
        add_used(used_tags_spec(tags.drop_last()), tags.last())
    }
}

proof fn lemma_insert_sorted_at(acc: Seq<(Seq<char>, u32, u32)>, x: (Seq<char>, u32, u32), k: int)
    requires
        0 <= k <= acc.len(),
        forall|j: int| 0 <= j < k ==> !seq_lt(x.0, #[trigger] acc[j].0),
        k < acc.len() ==> seq_lt(x.0, acc[k].0),
    ensures
        insert_sorted(acc, x) == acc.take(k) + seq![x] + acc.skip(k),
    decreases acc.len(),
{
    if acc.len() == 0 {
        assert(acc.take(k) + seq![x] + acc.skip(k) =~= seq![x]);
    } else if k == 0 {
        assert(acc.take(k) + seq![x] + acc.skip(k) =~= seq![x] + acc);
    } else {
        assert(!seq_lt(x.0, acc[0].0));
        let rest = acc.drop_first();
        assert forall|j: int| 0 <= j < k - 1 implies !seq_lt(x.0, #[trigger] rest[j].0) by {
            assert(rest[j] == acc[j + 1]);
        }
        lemma_insert_sorted_at(rest, x, k - 1);
        assert(seq![acc[0]] + (rest.take(k - 1) + seq![x] + rest.skip(k - 1)) =~= acc.take(k) + seq![x] + acc.skip(k));
    }
}

/// Adds one element of a template to the sorted custom tags `acc`.
fn add_used_tag(acc: &mut Vec<UsedCustomTag>, t: &HtmlTag)
    ensures
        final(acc)@.map_values(|u: UsedCustomTag| used_view(u)) == add_used(
            old(acc)@.map_values(|u: UsedCustomTag| used_view(u)),
            *t,
        ),
{
    let ghost accv = acc@.map_values(|u: UsedCustomTag| used_view(u));
    if !has_dash(t.tag.as_str()) {
        return;
    }
    let mut j: usize = 0;
    while j < acc.len()
        invariant
            j <= acc@.len(),
            accv == acc@.map_values(|u: UsedCustomTag| used_view(u)),
            forall|q: int| 0 <= q < j ==> accv[q].0 != t.tag@,
        decreases acc.len() - j,
    {
        if str_eq(acc[j].tag.as_str(), t.tag.as_str()) {
            assert(accv[j as int].0 == t.tag@);
            return;
        }
        j = j + 1;
    }
    let mut k: usize = 0;
    while k < acc.len() && !str_lt(t.tag.as_str(), acc[k].tag.as_str())
        invariant
            k <= acc@.len(),
            accv == acc@.map_values(|u: UsedCustomTag| used_view(u)),
            forall|q: int| 0 <= q < k ==> !seq_lt(t.tag@, #[trigger] accv[q].0),
        decreases acc.len() - k,
    {
        assert(accv[k as int].0 == acc@[k as int].tag@);
        k = k + 1;
    }
    proof {
        if k < acc@.len() {
            assert(accv[k as int].0 == acc@[k as int].tag@);
        }
        lemma_insert_sorted_at(accv, (t.tag@, t.start, t.end), k as int);
    }
    let u = UsedCustomTag { tag: owned(t.tag.as_str()), span: SourceSpan { start: t.start, end: t.end } };
    acc.insert(k, u);
    assert(acc@.map_values(|u: UsedCustomTag| used_view(u)) =~= accv.take(k as int) + seq![(t.tag@, t.start, t.end)] + accv.skip(k as int));
}

/// The custom tags of a template root `root` and the `descendants` below
/// it, sorted by tag, each with its first use.
pub fn collect_used_custom_tags(root: &HtmlTag, descendants: &Vec<HtmlTag>) -> (r: Vec<UsedCustomTag>)
    ensures
        r@.map_values(|t: UsedCustomTag| used_view(t)) == used_tags_spec(seq![*root] + descendants@),
{
    let mut acc: Vec<UsedCustomTag> = Vec::new();
    let ghost all = seq![*root] + descendants@;
    add_used_tag(&mut acc, root);
    proof {
        assert(all.take(1).drop_last() =~= Seq::<HtmlTag>::empty());
        assert(Seq::<UsedCustomTag>::empty().map_values(|u: UsedCustomTag| used_view(u)) =~= Seq::<(Seq<char>, u32, u32)>::empty());
        assert(all.take(1).last() == *root);
        assert(used_tags_spec(all.take(1).drop_last()) =~= Seq::<(Seq<char>, u32, u32)>::empty());
        assert(used_tags_spec(all.take(1)) == add_used(Seq::<(Seq<char>, u32, u32)>::empty(), *root));
    }
    let mut i: usize = 0;
    while i < descendants.len()
        invariant
            i <= descendants@.len(),
            all == seq![*root] + descendants@,
            acc@.map_values(|t: UsedCustomTag| used_view(t)) == used_tags_spec(all.take(i + 1)),
        decreases descendants.len() - i,
    {
        assert(all.take(i + 2).drop_last() == all.take(i + 1));
        assert(all.take(i + 2).last() == descendants@[i as int]);
        add_used_tag(&mut acc, &descendants[i]);
        i = i + 1;
    }
    assert(all.take(descendants@.len() + 1int) == all);
    acc
}


proof fn lemma_insert_sorted_sorted(acc: Seq<(Seq<char>, u32, u32)>, x: (Seq<char>, u32, u32))
    requires
        forall|a: int, b: int| #![trigger acc[a], acc[b]] 0 <= a < b < acc.len() ==> seq_lt(acc[a].0, acc[b].0),
        forall|i: int| 0 <= i < acc.len() ==> (#[trigger] acc[i]).0 != x.0,
    ensures
        forall|a: int, b: int|
            #![trigger insert_sorted(acc, x)[a], insert_sorted(acc, x)[b]]
            0 <= a < b < insert_sorted(acc, x).len() ==> seq_lt(insert_sorted(acc, x)[a].0, insert_sorted(acc, x)[b].0),
        insert_sorted(acc, x).contains(x),
        forall|i: int| 0 <= i < acc.len() ==> insert_sorted(acc, x).contains(#[trigger] acc[i]),
        forall|e| #[trigger] insert_sorted(acc, x).contains(e) ==> e == x || acc.contains(e),
    decreases acc.len(),
{
    let r = insert_sorted(acc, x);
    if acc.len() == 0 {
        assert(r[0] == x);
    } else if seq_lt(x.0, acc[0].0) {
        assert(r[0] == x);
        assert forall|a: int, b: int| #![trigger r[a], r[b]] 0 <= a < b < r.len() implies seq_lt(r[a].0, r[b].0) by {
            if a == 0 {
                if b > 1 {
                    lemma_seq_lt_transitive(x.0, acc[0].0, acc[b - 1].0);
                }
            } else {
                assert(r[a] == acc[a - 1]);
                assert(r[b] == acc[b - 1]);
            }
        }
        assert forall|i: int| 0 <= i < acc.len() implies r.contains(#[trigger] acc[i]) by {
            assert(r[i + 1] == acc[i]);
        }
        assert forall|e| #[trigger] r.contains(e) implies e == x || acc.contains(e) by {
            let j = choose|j: int| 0 <= j < r.len() && r[j] == e;
            if j > 0 {
                assert(acc[j - 1] == e);
            }
        }
    } else {
        let rest = acc.drop_first();
        lemma_seq_lt_total(x.0, acc[0].0);
        assert forall|a: int, b: int| #![trigger rest[a], rest[b]] 0 <= a < b < rest.len() implies seq_lt(rest[a].0, rest[b].0) by {
            assert(rest[a] == acc[a + 1]);
            assert(rest[b] == acc[b + 1]);
        }
        assert forall|i: int| 0 <= i < rest.len() implies (#[trigger] rest[i]).0 != x.0 by {
            assert(rest[i] == acc[i + 1]);
        }
        lemma_insert_sorted_sorted(rest, x);
        let ri = insert_sorted(rest, x);
        assert(r == seq![acc[0]] + ri);
        assert forall|a: int, b: int| #![trigger r[a], r[b]] 0 <= a < b < r.len() implies seq_lt(r[a].0, r[b].0) by {
            if a == 0 {
                assert(r[b] == ri[b - 1]);
                assert(ri.contains(ri[b - 1]));
                if ri[b - 1] != x {
                    let j = choose|j: int| 0 <= j < rest.len() && rest[j] == ri[b - 1];
                    assert(rest[j] == acc[j + 1]);
                }
            } else {
                assert(r[a] == ri[a - 1]);
                assert(r[b] == ri[b - 1]);
            }
        }
        assert(r[0] == acc[0]);
        assert forall|i: int| 0 <= i < acc.len() implies r.contains(#[trigger] acc[i]) by {
            if i > 0 {
                assert(rest[i - 1] == acc[i]);
                assert(ri.contains(rest[i - 1]));
                let j = choose|j: int| 0 <= j < ri.len() && ri[j] == rest[i - 1];
                assert(r[j + 1] == acc[i]);
            }
        }
        let jx = choose|j: int| 0 <= j < ri.len() && ri[j] == x;
        assert(r[jx + 1] == x);
        assert forall|e| #[trigger] r.contains(e) implies e == x || acc.contains(e) by {
            let j = choose|j: int| 0 <= j < r.len() && r[j] == e;
            if j > 0 {
                assert(ri[j - 1] == e);
                assert(ri.contains(e));
                if e != x {
                    let t = choose|t: int| 0 <= t < rest.len() && rest[t] == e;
                    assert(acc[t + 1] == e);
                }
            }
        }
    }
}

/// `(tag, start, end)` is element `j` of `tags`, the first with its tag.
pub open spec fn first_use(tags: Seq<HtmlTag>, j: int, u: (Seq<char>, u32, u32)) -> bool {
    &&& 0 <= j < tags.len()
    &&& u == (tags[j].tag@, tags[j].start, tags[j].end)
    &&& forall|j2: int| 0 <= j2 < j ==> (#[trigger] tags[j2]).tag@ != tags[j].tag@
}

/// `u` is the first use of its tag among `tags`.
pub open spec fn has_first_use(tags: Seq<HtmlTag>, u: (Seq<char>, u32, u32)) -> bool {
    exists|j: int| first_use(tags, j, u)
}

/// `r` is sorted by tag with no tag twice, holds custom tags only, each
/// with its first use among `tags`, and every custom tag of `tags`.
pub open spec fn used_tags_law(tags: Seq<HtmlTag>, r: Seq<(Seq<char>, u32, u32)>) -> bool {
    &&& forall|a: int, b: int| #![trigger r[a], r[b]] 0 <= a < b < r.len() ==> seq_lt(r[a].0, r[b].0)
    &&& forall|i: int| 0 <= i < r.len() ==> is_custom_tag((#[trigger] r[i]).0)
    &&& forall|i: int| 0 <= i < r.len() ==> #[trigger] has_first_use(tags, r[i])
    &&& forall|j: int|
        0 <= j < tags.len() && is_custom_tag(#[trigger] tags[j].tag@) ==> exists|i: int|
            0 <= i < r.len() && r[i].0 == tags[j].tag@
}

/// A first use among the first elements stays a first use.
proof fn lemma_first_use_extends(tags: Seq<HtmlTag>)
    requires
        tags.len() > 0,
    ensures
        forall|u: (Seq<char>, u32, u32), j: int| #[trigger] first_use(tags.drop_last(), j, u) ==> first_use(tags, j, u),
{
    let init = tags.drop_last();
    assert forall|u: (Seq<char>, u32, u32), j: int| #[trigger] first_use(init, j, u) implies first_use(tags, j, u) by {
        assert forall|j2: int| 0 <= j2 < j implies (#[trigger] tags[j2]).tag@ != tags[j].tag@ by {
            assert(tags[j2] == init[j2]);
        }
        assert(tags[j] == init[j]);
    }
}

/// The law's step where the last element adds nothing.
proof fn lemma_used_tags_keep(tags: Seq<HtmlTag>, acc: Seq<(Seq<char>, u32, u32)>)
    requires
        tags.len() > 0,
        used_tags_law(tags.drop_last(), acc),
        is_custom_tag(tags.last().tag@) ==> exists|i: int| 0 <= i < acc.len() && (#[trigger] acc[i]).0 == tags.last().tag@,
    ensures
        used_tags_law(tags, acc),
{
    let init = tags.drop_last();
    lemma_first_use_extends(tags);
    assert forall|i: int| 0 <= i < acc.len() implies #[trigger] has_first_use(tags, acc[i]) by {
        assert(has_first_use(init, acc[i]));
        let j = choose|j: int| first_use(init, j, acc[i]);
        assert(first_use(tags, j, acc[i]));
    }
    assert forall|j: int|
        0 <= j < tags.len() && is_custom_tag(#[trigger] tags[j].tag@) implies exists|i: int|
            0 <= i < acc.len() && acc[i].0 == tags[j].tag@ by {
        if j < tags.len() - 1 {
            assert(tags[j] == init[j]);
        }
    }
}

/// The law's step where the last element adds a new custom tag.
proof fn lemma_used_tags_insert(tags: Seq<HtmlTag>, acc: Seq<(Seq<char>, u32, u32)>)
    requires
        tags.len() > 0,
        used_tags_law(tags.drop_last(), acc),
        is_custom_tag(tags.last().tag@),
        forall|i: int| 0 <= i < acc.len() ==> (#[trigger] acc[i]).0 != tags.last().tag@,
    ensures
        used_tags_law(tags, insert_sorted(acc, (tags.last().tag@, tags.last().start, tags.last().end))),
{
    let init = tags.drop_last();
    let t = tags.last();
    let x = (t.tag@, t.start, t.end);
    let r = insert_sorted(acc, x);
    lemma_insert_sorted_sorted(acc, x);
    lemma_first_use_extends(tags);
    assert forall|i: int| 0 <= i < r.len() implies is_custom_tag((#[trigger] r[i]).0) by {
        assert(r.contains(r[i]));
        if r[i] != x {
            let k = choose|k: int| 0 <= k < acc.len() && acc[k] == r[i];
            assert(is_custom_tag(acc[k].0));
        }
    }
    assert forall|j2: int| 0 <= j2 < tags.len() - 1 implies (#[trigger] tags[j2]).tag@ != tags[tags.len() - 1].tag@ by {
        assert(tags[j2] == init[j2]);
        if init[j2].tag@ == t.tag@ {
            let k = choose|k: int| 0 <= k < acc.len() && acc[k].0 == init[j2].tag@;
            assert(acc[k].0 == t.tag@);
        }
    }
    assert(first_use(tags, tags.len() - 1, x));
    assert forall|i: int| 0 <= i < r.len() implies #[trigger] has_first_use(tags, r[i]) by {
        assert(r.contains(r[i]));
        if r[i] != x {
            let k = choose|k: int| 0 <= k < acc.len() && acc[k] == r[i];
            assert(has_first_use(init, acc[k]));
            let j = choose|j: int| first_use(init, j, acc[k]);
            assert(first_use(tags, j, r[i]));
        } else {
            assert(first_use(tags, tags.len() - 1, r[i]));
        }
    }
    assert forall|j: int|
        0 <= j < tags.len() && is_custom_tag(#[trigger] tags[j].tag@) implies exists|i: int|
            0 <= i < r.len() && r[i].0 == tags[j].tag@ by {
        if j < tags.len() - 1 {
            assert(tags[j] == init[j]);
            let k = choose|k: int| 0 <= k < acc.len() && acc[k].0 == init[j].tag@;
            assert(r.contains(acc[k]));
            let i = choose|i: int| 0 <= i < r.len() && r[i] == acc[k];
            assert(r[i].0 == tags[j].tag@);
        } else {
            let i = choose|i: int| 0 <= i < r.len() && r[i] == x;
            assert(r[i].0 == tags[j].tag@);
        }
    }
}

/// The custom tags collected from a template are sorted by tag with no tag
/// twice; each comes with the span of its first use, and every custom tag
/// that the template uses is among them.
pub proof fn lemma_used_tags_sorted_first_uses(tags: Seq<HtmlTag>)
    ensures
        used_tags_law(tags, used_tags_spec(tags)),
    decreases tags.len(),
{
    if tags.len() > 0 {
        let init = tags.drop_last();
        lemma_used_tags_sorted_first_uses(init);
        let acc = used_tags_spec(init);
        let t = tags.last();
        assert(used_tags_spec(tags) == add_used(acc, t));
        if !is_custom_tag(t.tag@) || (exists|i: int| 0 <= i < acc.len() && (#[trigger] acc[i]).0 == t.tag@) {
            lemma_used_tags_keep(tags, acc);
        } else {
            lemma_used_tags_insert(tags, acc);
        }
    }
}

/// What parsing a `.vue` file has found so far, with the diagnostics as
/// (level, message, help).
pub struct VueState {
    pub links: Seq<(Seq<char>, bool)>,
    pub imports: Seq<(Seq<char>, int, int)>,
    pub custom_tag: Option<Seq<char>>,
    pub used: Seq<(Seq<char>, u32, u32)>,
    pub template: Option<Seq<char>>,
    pub script: Option<Seq<char>>,
    pub script_line: Option<usize>,
    pub style: Option<Seq<char>>,
    pub problems: Seq<(LogLevel, Seq<char>, Seq<char>, u32, u32)>,
}

/// `st` with one more diagnostic.
pub open spec fn with_problem(st: VueState, level: LogLevel, message: Seq<char>, note: Seq<char>, start: u32, end: u32) -> VueState {
    VueState { problems: st.problems.push((level, message, note, start, end)), ..st }
}

/// The line that byte `pos` of `source` is on.
pub open spec fn line_at(source: Seq<char>, pos: u32) -> Option<usize> {
    match resolved_span(source, pos, pos) {
        Some(r) => Some(r.0 as usize),
        None => None,
    }
}

/// The line that a script element's content starts on: that of its first
/// child, else that of the element, else 1.
pub open spec fn script_line_spec(source: Seq<char>, el: HtmlElement) -> usize {
    let fallback = match line_at(source, el.start) {
        Some(l) => l,
        None => 1,
    };
    match el.content_start {
        Some(cs) => match line_at(source, cs) {
            Some(l) => l,
            None => fallback,
        },
        None => fallback,
    }
}

/// The text `source[start..end]` (bytes), or empty where that range does
/// not lie on character boundaries.
pub open spec fn outer_html_spec(source: Seq<char>, start: u32, end: u32) -> Seq<char> {
    let b = vstd::utf8::encode_utf8(source);
    if byte_range_ok(b, start as int, end as int) {
        vstd::utf8::decode_utf8(b.subrange(start as int, end as int))
    } else {
        Seq::empty()
    }
}

/// A diagnostic about the component at `path`.
pub open spec fn about(path: Seq<char>, what: Seq<char>) -> Seq<char> {
    "Component \""@ + path + what
}

/// The effect of the top-level element `el` at `index`.
pub open spec fn element_step(path: Seq<char>, source: Seq<char>, base: Seq<char>, st: VueState, index: int, el: HtmlElement) -> VueState {
    if eq_ignore_case_spec(el.tag@, "LINK"@) {
        match link_outcome(path, source, base, index, el.start, el.end) {
            LinkOutcome::Import(h, d) => VueState { links: st.links.push((h, d)), ..st },
            LinkOutcome::Problem(m, n, s, e) => with_problem(st, LogLevel::Error, m, n, s, e),
        }
    } else if eq_ignore_case_spec(el.tag@, "SCRIPT"@) {
        if st.script is Some {
            with_problem(st, LogLevel::Error, about(path, "\" has more than one top-level <script> element."@),
                "Keep a single top-level <script> block in each component."@, el.start, el.end)
        } else {
            let line = script_line_spec(source, el);
            let ex = extracted_spec(html_text_content_of(source, index), line);
            VueState { imports: ex.0, script: Some(ex.1), script_line: Some(line), ..st }
        }
    } else if eq_ignore_case_spec(el.tag@, "STYLE"@) {
        if st.style is Some {
            with_problem(st, LogLevel::Error, about(path, "\" has more than one top-level <style> element."@),
                "Keep a single top-level <style> block in each component."@, el.start, el.end)
        } else {
            VueState { style: Some(html_text_content_of(source, index)), ..st }
        }
    } else if eq_ignore_case_spec(el.tag@, "TEMPLATE"@) || eq_ignore_case_spec(el.tag@, "DIV"@) {
        if st.template is Some {
            with_problem(st, LogLevel::Error, about(path, "\" has more than one top-level template root."@),
                "Use a single top-level <template> or <div> element."@, el.start, el.end)
        } else {
            let st1 = match el.id {
                Some(id) => VueState { custom_tag: Some(id@.map_values(|c: char| lower_spec(c))), ..st },
                None => with_problem(st, LogLevel::Warn,
                    about(path, "\" is missing an id on its top-level <"@ + el.tag@ + "> element."@),
                    "Set the top-level template or div id to the component's custom tag name."@, el.tag_start, el.tag_end),
            };
            VueState {
                used: used_tags_spec(seq![HtmlTag { tag: el.tag, start: el.tag_start, end: el.tag_end }] + html_descendants_of(source, index)),
                template: Some(outer_html_spec(source, el.start, el.end)),
                ..st1
            }
        }
    } else {
        with_problem(st, LogLevel::Error, about(path, "\" has unsupported top-level <"@ + el.tag@ + "> content."@),
            "Use only top-level <link>, <script>, <template>/<div>, and <style> elements."@, el.start, el.end)
    }
}

/// The effect of the top-level node `node` at `index`.
pub open spec fn node_step(path: Seq<char>, source: Seq<char>, base: Seq<char>, st: VueState, index: int, node: HtmlNode) -> VueState {
    match node {
        HtmlNode::Text(text, start, end) => if crate::text::trim_ascii_spec(text@).len() == 0 {
            st
        } else {
            with_problem(st, LogLevel::Error, about(path, "\" has top-level text content outside of elements."@),
                "Consider moving any top-level text into the template or removing it."@, start, end)
        },
        HtmlNode::Element(el) => element_step(path, source, base, st, index, el),
        HtmlNode::Comment => st,
        HtmlNode::Doctype(start, end) => with_problem(st, LogLevel::Error, about(path, "\" must not include a doctype declaration."@),
            "Remove the doctype declaration from the component file."@, start, end),
        HtmlNode::ProcessingInstruction(start, end) => with_problem(st, LogLevel::Error,
            about(path, "\" must not include processing instructions."@),
            "Remove any processing instructions from the component file."@, start, end),
    }
}

/// A comment, or text of ASCII whitespace only.
pub open spec fn is_blank_node(node: HtmlNode) -> bool {
    match node {
        HtmlNode::Comment => true,
        HtmlNode::Text(text, _, _) => crate::text::trim_ascii_spec(text@).len() == 0,
        _ => false,
    }
}

/// A top-level comment, or top-level text of ASCII whitespace only, changes
/// nothing of what is read from a `.vue` file: no field and no diagnostic.
pub proof fn lemma_blank_nodes_change_nothing(
    path: Seq<char>,
    source: Seq<char>,
    base: Seq<char>,
    st: VueState,
    index: int,
    node: HtmlNode,
)
    requires
        is_blank_node(node),
    ensures
        node_step(path, source, base, st, index, node) == st,
{
}

/// The warnings about the parser's errors.
pub open spec fn malformed_warnings(path: Seq<char>, errors: Seq<crate::html::HtmlError>) -> Seq<(LogLevel, Seq<char>, Seq<char>, u32, u32)> {
    errors.map_values(|e: crate::html::HtmlError| (LogLevel::Warn,
        "Malformed HTML in component \""@ + path + "\": "@ + e.message@ + "."@,
        "The component may still be processed, but consider fixing the HTML syntax."@, e.start, e.end))
}

/// The state after the parse errors and the first `n` top-level nodes.
pub open spec fn vue_scan(path: Seq<char>, source: Seq<char>, base: Seq<char>, n: int) -> VueState
    decreases n,
{
    if n <= 0 {
        VueState {
            links: Seq::empty(),
            imports: Seq::empty(),
            custom_tag: None,
            used: Seq::empty(),
            template: None,
            script: None,
            script_line: None,
            style: None,
            problems: malformed_warnings(path, html_errors_of(source)),
        }
    } else {
        node_step(path, source, base, vue_scan(path, source, base, n - 1), n - 1, html_nodes_of(source)[n - 1])
    }
}

/// The directory of a component path.
pub open spec fn base_path_spec(path: Seq<char>) -> Seq<char> {
    match crate::text::rfind_char_spec(path, '/') {
        Some(i) => path.take(i),
        None => Seq::empty(),
    }
}

/// The diagnostics `new` are the problems `ps`, in order.
pub open spec fn problems_logged(
    new: Seq<crate::log::Diagnostic>,
    ps: Seq<(LogLevel, Seq<char>, Seq<char>, u32, u32)>,
    path: Seq<char>,
    source: Seq<char>,
) -> bool {
    &&& new.len() == ps.len()
    &&& forall|i: int| 0 <= i < ps.len() ==> problem_logged(#[trigger] new[i], ps[i], path, source)
}

/// `d` reports the problem `p` at its span of the component at `path`.
pub open spec fn problem_logged(d: crate::log::Diagnostic, p: (LogLevel, Seq<char>, Seq<char>, u32, u32), path: Seq<char>, source: Seq<char>) -> bool {
    logged_message(d, p.0, p.1, p.2) && at_span(d, path, source, p.3, p.4)
}

/// The plain values of a link.
pub open spec fn link_view(l: Link) -> (Seq<char>, bool) {
    (l.href@, l.dynamic)
}

/// The component parsed so far.
struct VueReader {
    links: Vec<Link>,
    imports: Vec<ScriptImport>,
    custom_tag: Option<String>,
    used_custom_tags: Vec<UsedCustomTag>,
    template: Option<String>,
    script: Option<String>,
    script_source_line: Option<usize>,
    style: Option<String>,
}

impl VueReader {
    spec fn holds(&self, st: VueState) -> bool {
        &&& self.links@.map_values(|l: Link| link_view(l)) == st.links
        &&& self.imports@.map_values(|i: ScriptImport| import_view(i)) == st.imports
        &&& crate::paths::opt_view(self.custom_tag) == st.custom_tag
        &&& self.used_custom_tags@.map_values(|t: UsedCustomTag| used_view(t)) == st.used
        &&& crate::paths::opt_view(self.template) == st.template
        &&& crate::paths::opt_view(self.script) == st.script
        &&& self.script_source_line == st.script_line
        &&& crate::paths::opt_view(self.style) == st.style
    }
}

/// The line that byte `pos` of `source` is on.
fn line_of(source: &str, pos: u32) -> (r: Option<usize>)
    ensures
        r == line_at(source@, pos),
{
    match log_span("", source, pos, pos) {
        Some(sp) => Some(sp.line_start),
        None => None,
    }
}

/// `source[start..end]` by bytes, or empty.
fn outer_html(source: &str, start: u32, end: u32) -> (r: String)
    ensures
        r@ == outer_html_spec(source@, start, end),
{
    match byte_slice(source, start as usize, end as usize) {
        Some(t) => {
            proof {
                vstd::utf8::encode_utf8_decode_utf8(t@);
            }
            owned(t)
        },
        None => String::new(),
    }
}

fn report(log: &mut Logger, path: &str, source: &str, level: LogLevel, what: &str, note: &'static str, start: u32, end: u32, Ghost(st): Ghost<VueState>)
    ensures
        final(log).spec_format() == old(log).spec_format(),
        final(log).entries() == old(log).entries().push(final(log).entries().last()),
        logged_message(final(log).entries().last(), level, about(path@, what@), note@),
        at_span(final(log).entries().last(), path@, source@, start, end),
{
    let m = quoted_message("Component \"", path, what);
    log_problem(log, path, source, level, m, note, start, end);
}

proof fn lemma_problems_push(
    start: Seq<crate::log::Diagnostic>,
    before: Seq<crate::log::Diagnostic>,
    after: Seq<crate::log::Diagnostic>,
    ps: Seq<(LogLevel, Seq<char>, Seq<char>, u32, u32)>,
    p: (LogLevel, Seq<char>, Seq<char>, u32, u32),
    path: Seq<char>,
    source: Seq<char>,
)
    requires
        before.take(start.len() as int) == start,
        before.len() >= start.len(),
        problems_logged(before.skip(start.len() as int), ps, path, source),
        after == before.push(after.last()),
        problem_logged(after.last(), p, path, source),
    ensures
        after.take(start.len() as int) == start,
        after.len() >= start.len(),
        problems_logged(after.skip(start.len() as int), ps.push(p), path, source),
{
    assert(after.take(start.len() as int) =~= before.take(start.len() as int));
    let new = after.skip(start.len() as int);
    assert forall|i: int| 0 <= i < ps.len() + 1 implies problem_logged(#[trigger] new[i], ps.push(p)[i], path, source) by {
        if i < ps.len() {
            assert(new[i] == before.skip(start.len() as int)[i]);
        }
    }
}

impl VueReader {
    /// Reads the top-level element at `index`.
    fn read_element(
        &mut self,
        log: &mut Logger,
        path: &str,
        source: &str,
        base: &str,
        index: usize,
        el: &HtmlElement,
        Ghost(st): Ghost<VueState>,
    )
        requires
            old(self).holds(st),
            index < html_nodes_of(source@).len(),
            html_nodes_of(source@)[index as int] == HtmlNode::Element(*el),
        ensures
            final(log).spec_format() == old(log).spec_format(),
            ({
                let next = element_step(path@, source@, base@, st, index as int, *el);
                &&& final(self).holds(next)
                &&& next.problems.len() >= st.problems.len()
                &&& next.problems.take(st.problems.len() as int) == st.problems
                &&& final(log).entries().len() == old(log).entries().len() + (next.problems.len() - st.problems.len())
                &&& final(log).entries().take(old(log).entries().len() as int) == old(log).entries()
                &&& problems_logged(final(log).entries().skip(old(log).entries().len() as int), next.problems.skip(st.problems.len() as int), path@, source@)
            }),
    {
        let ghost next = element_step(path@, source@, base@, st, index as int, *el);
        let ghost old_entries = log.entries();
        let tag = el.tag.as_str();
        let mut pushed: bool = true;
        if eq_ignore_ascii_case(tag, "LINK") {
            match parse_component_link(log, path, source, base, index, el.start, el.end) {
                Some(link) => {
                    let ghost before = self.links@;
                    self.links.push(link);
                    assert(self.links@.map_values(|l: Link| link_view(l)) =~= before.map_values(|l: Link| link_view(l)).push(link_view(link)));
                    pushed = false;
                },
                None => {},
            }
        } else if eq_ignore_ascii_case(tag, "SCRIPT") {
            if self.script.is_some() {
                report(log, path, source, LogLevel::Error, "\" has more than one top-level <script> element.",
                    "Keep a single top-level <script> block in each component.", el.start, el.end, Ghost(st));
            } else {
                let content = html_text_content(source, index);
                let fallback = match line_of(source, el.start) {
                    Some(l) => l,
                    None => 1,
                };
                let line = match el.content_start {
                    Some(cs) => match line_of(source, cs) {
                        Some(l) => l,
                        None => fallback,
                    },
                    None => fallback,
                };
                let (imports, body) = extract_imports(content.as_str(), line);
                self.imports = imports;
                self.script = Some(body);
                self.script_source_line = Some(line);
                pushed = false;
            }
        } else if eq_ignore_ascii_case(tag, "STYLE") {
            if self.style.is_some() {
                report(log, path, source, LogLevel::Error, "\" has more than one top-level <style> element.",
                    "Keep a single top-level <style> block in each component.", el.start, el.end, Ghost(st));
            } else {
                self.style = Some(html_text_content(source, index));
                pushed = false;
            }
        } else if eq_ignore_ascii_case(tag, "TEMPLATE") || eq_ignore_ascii_case(tag, "DIV") {
            if self.template.is_some() {
                report(log, path, source, LogLevel::Error, "\" has more than one top-level template root.",
                    "Use a single top-level <template> or <div> element.", el.start, el.end, Ghost(st));
            } else {
                match &el.id {
                    Some(id) => {
                        self.custom_tag = Some(to_ascii_lowercase(id.as_str()));
                        pushed = false;
                    },
                    None => {
                        let mut what = owned("\" is missing an id on its top-level <");
                        what.append(tag);
                        what.append("> element.");
                        report(log, path, source, LogLevel::Warn, what.as_str(),
                            "Set the top-level template or div id to the component's custom tag name.", el.tag_start, el.tag_end, Ghost(st));
                    },
                }
                let root = crate::html::HtmlTag { tag: el.tag.clone(), start: el.tag_start, end: el.tag_end };
                let descendants = html_descendants(source, index);
                self.used_custom_tags = collect_used_custom_tags(&root, &descendants);
                assert(root == HtmlTag { tag: el.tag, start: el.tag_start, end: el.tag_end });
                self.template = Some(outer_html(source, el.start, el.end));
            }
        } else {
            let mut what = owned("\" has unsupported top-level <");
            what.append(tag);
            what.append("> content.");
            report(log, path, source, LogLevel::Error, what.as_str(),
                "Use only top-level <link>, <script>, <template>/<div>, and <style> elements.", el.start, el.end, Ghost(st));
        }
        proof {
            if pushed {
                assert(next.problems == st.problems.push(next.problems.last()));
                assert(next.problems.skip(st.problems.len() as int) =~= seq![next.problems.last()]);
                assert(log.entries().skip(old_entries.len() as int) =~= seq![log.entries().last()]);
                assert(next.problems.take(st.problems.len() as int) =~= st.problems);
                assert(log.entries().take(old_entries.len() as int) =~= old_entries);
            } else {
                assert(next.problems == st.problems);
                assert(st.problems.skip(st.problems.len() as int) =~= Seq::<(LogLevel, Seq<char>, Seq<char>, u32, u32)>::empty());
                assert(log.entries().skip(old_entries.len() as int) =~= Seq::<crate::log::Diagnostic>::empty());
                assert(st.problems.take(st.problems.len() as int) =~= st.problems);
                assert(log.entries().take(old_entries.len() as int) =~= old_entries);
            }
        }
    }
}


impl VueReader {
    /// Reads the top-level node at `index`.
    fn read_node(
        &mut self,
        log: &mut Logger,
        path: &str,
        source: &str,
        base: &str,
        index: usize,
        node: &HtmlNode,
        Ghost(st): Ghost<VueState>,
    )
        requires
            old(self).holds(st),
            index < html_nodes_of(source@).len(),
            html_nodes_of(source@)[index as int] == *node,
        ensures
            final(log).spec_format() == old(log).spec_format(),
            ({
                let next = node_step(path@, source@, base@, st, index as int, *node);
                &&& final(self).holds(next)
                &&& next.problems.len() >= st.problems.len()
                &&& next.problems.take(st.problems.len() as int) == st.problems
                &&& final(log).entries().len() == old(log).entries().len() + (next.problems.len() - st.problems.len())
                &&& final(log).entries().take(old(log).entries().len() as int) == old(log).entries()
                &&& problems_logged(final(log).entries().skip(old(log).entries().len() as int), next.problems.skip(st.problems.len() as int), path@, source@)
            }),
    {
        let ghost next = node_step(path@, source@, base@, st, index as int, *node);
        let ghost old_entries = log.entries();
        let mut pushed = true;
        match node {
            HtmlNode::Text(text, start, end) => {
                if crate::text::is_ascii_blank(text.as_str()) {
                    pushed = false;
                } else {
                    report(log, path, source, LogLevel::Error, "\" has top-level text content outside of elements.",
                        "Consider moving any top-level text into the template or removing it.", *start, *end, Ghost(st));
                }
            },
            HtmlNode::Element(el) => {
                self.read_element(log, path, source, base, index, el, Ghost(st));
                return;
            },
            HtmlNode::Comment => {
                pushed = false;
            },
            HtmlNode::Doctype(start, end) => {
                report(log, path, source, LogLevel::Error, "\" must not include a doctype declaration.",
                    "Remove the doctype declaration from the component file.", *start, *end, Ghost(st));
            },
            HtmlNode::ProcessingInstruction(start, end) => {
                report(log, path, source, LogLevel::Error, "\" must not include processing instructions.",
                    "Remove any processing instructions from the component file.", *start, *end, Ghost(st));
            },
        }
        proof {
            if pushed {
                assert(next.problems == st.problems.push(next.problems.last()));
                assert(next.problems.skip(st.problems.len() as int) =~= seq![next.problems.last()]);
                assert(log.entries().skip(old_entries.len() as int) =~= seq![log.entries().last()]);
                assert(next.problems.take(st.problems.len() as int) =~= st.problems);
                assert(log.entries().take(old_entries.len() as int) =~= old_entries);
            } else {
                assert(next.problems == st.problems);
                assert(st.problems.skip(st.problems.len() as int) =~= Seq::<(LogLevel, Seq<char>, Seq<char>, u32, u32)>::empty());
                assert(log.entries().skip(old_entries.len() as int) =~= Seq::<crate::log::Diagnostic>::empty());
                assert(st.problems.take(st.problems.len() as int) =~= st.problems);
                assert(log.entries().take(old_entries.len() as int) =~= old_entries);
            }
        }
    }
}

proof fn lemma_problems_extend(
    start: Seq<crate::log::Diagnostic>,
    before: Seq<crate::log::Diagnostic>,
    after: Seq<crate::log::Diagnostic>,
    ps: Seq<(LogLevel, Seq<char>, Seq<char>, u32, u32)>,
    ps2: Seq<(LogLevel, Seq<char>, Seq<char>, u32, u32)>,
    path: Seq<char>,
    source: Seq<char>,
)
    requires
        before.take(start.len() as int) == start,
        before.len() >= start.len(),
        problems_logged(before.skip(start.len() as int), ps, path, source),
        ps2.len() >= ps.len(),
        ps2.take(ps.len() as int) == ps,
        after.len() == before.len() + (ps2.len() - ps.len()),
        after.take(before.len() as int) == before,
        problems_logged(after.skip(before.len() as int), ps2.skip(ps.len() as int), path, source),
    ensures
        after.take(start.len() as int) == start,
        after.len() >= start.len(),
        problems_logged(after.skip(start.len() as int), ps2, path, source),
{
    assert(after.take(start.len() as int) =~= before.take(start.len() as int));
    let new = after.skip(start.len() as int);
    assert forall|i: int| 0 <= i < ps2.len() implies problem_logged(#[trigger] new[i], ps2[i], path, source) by {
        if i < ps.len() {
            assert(new[i] == before.skip(start.len() as int)[i]);
            assert(ps2[i] == ps[i]);
        } else {
            assert(new[i] == after.skip(before.len() as int)[i - ps.len()]);
            assert(ps2[i] == ps2.skip(ps.len() as int)[i - ps.len()]);
        }
    }
}

/// The scan of a whole `.vue` file.
pub open spec fn vue_final(path: Seq<char>, source: Seq<char>) -> VueState {
    vue_scan(path, source, base_path_spec(path), html_nodes_of(source).len() as int)
}

/// The diagnostics of parsing a `.vue` file.
pub open spec fn vue_problems(path: Seq<char>, source: Seq<char>) -> Seq<(LogLevel, Seq<char>, Seq<char>, u32, u32)> {
    vue_final(path, source).problems
}

/// `c` is the component that the `.vue` file at `path` holds.
pub open spec fn vue_component(c: Component, path: Seq<char>, source: Seq<char>) -> bool {
    let st = vue_final(path, source);
    &&& c.path@ == path
    &&& c.source@ == source
    &&& c.links@.map_values(|l: Link| link_view(l)) == st.links
    &&& c.imports@.map_values(|i: ScriptImport| import_view(i)) == st.imports
    &&& crate::paths::opt_view(c.custom_tag) == st.custom_tag
    &&& c.used_custom_tags@.map_values(|t: UsedCustomTag| used_view(t)) == st.used
    &&& crate::paths::opt_view(c.template) == st.template
    &&& crate::paths::opt_view(c.script) == st.script
    &&& c.script_source_line == st.script_line
    &&& crate::paths::opt_view(c.style) == st.style
}

/// Parses a `.vue` component: top-level `<link>` imports, at most one
/// `<script>`, one `<template>` or `<div>` root and one `<style>`; anything
/// else at the top level is reported.
pub fn parse(log: &mut Logger, component_path: &str, source: &str) -> (r: Option<Component>)
    ensures
        final(log).spec_format() == old(log).spec_format(),
        r matches Some(c) && vue_component(c, component_path@, source@),
        final(log).entries().take(old(log).entries().len() as int) == old(log).entries(),
        final(log).entries().len() >= old(log).entries().len(),
        problems_logged(final(log).entries().skip(old(log).entries().len() as int), vue_problems(component_path@, source@), component_path@, source@),
{
    let pv = chars_of(component_path);
    proof {
        assert(pv@.take(pv@.len() as int) == pv@);
        crate::text::lemma_rfind_char_bounds(pv@, '/');
    }
    let base = match crate::text::rfind_char(pv.as_slice(), pv.len(), '/') {
        Some(i) => string_of_range(pv.as_slice(), 0, i),
        None => String::new(),
    };
    proof {
        assert(pv@.take(pv@.len() as int) == pv@);
        crate::text::lemma_rfind_char_bounds(pv@, '/');
    }
    assert(base@ == base_path_spec(component_path@));
    let ghost start_entries = log.entries();
    let errors = html_errors(source);
    let ghost warnings = malformed_warnings(component_path@, html_errors_of(source@));
    let mut i: usize = 0;
    proof {
        assert(log.entries().skip(start_entries.len() as int) =~= Seq::<crate::log::Diagnostic>::empty());
        assert(log.entries().take(start_entries.len() as int) =~= start_entries);
    }
    while i < errors.len()
        invariant
            i <= errors@.len(),
            errors@ == html_errors_of(source@),
            warnings == malformed_warnings(component_path@, html_errors_of(source@)),
            start_entries == old(log).entries(),
            log.spec_format() == old(log).spec_format(),
            log.entries().take(start_entries.len() as int) == start_entries,
            log.entries().len() >= start_entries.len(),
            problems_logged(log.entries().skip(start_entries.len() as int), warnings.take(i as int), component_path@, source@),
        decreases errors.len() - i,
    {
        let e = &errors[i];
        let mut m = owned("Malformed HTML in component \"");
        m.append(component_path);
        m.append("\": ");
        m.append(e.message.as_str());
        m.append(".");
        let ghost before = log.entries();
        log_problem(log, component_path, source, LogLevel::Warn, m,
            "The component may still be processed, but consider fixing the HTML syntax.", e.start, e.end);
        proof {
            assert(warnings.take(i + 1) == warnings.take(i as int).push(warnings[i as int]));
            lemma_problems_push(start_entries, before, log.entries(), warnings.take(i as int), warnings[i as int], component_path@, source@);
        }
        i = i + 1;
    }
    assert(warnings.take(errors@.len() as int) == warnings);
    let nodes = html_nodes(source);
    let mut reader = VueReader {
        links: Vec::new(),
        imports: Vec::new(),
        custom_tag: None,
        used_custom_tags: Vec::new(),
        template: None,
        script: None,
        script_source_line: None,
        style: None,
    };
    proof {
        assert(reader.links@.map_values(|l: Link| link_view(l)) =~= Seq::<(Seq<char>, bool)>::empty());
        assert(reader.imports@.map_values(|i: ScriptImport| import_view(i)) =~= Seq::<(Seq<char>, int, int)>::empty());
        assert(reader.used_custom_tags@.map_values(|t: UsedCustomTag| used_view(t)) =~= Seq::<(Seq<char>, u32, u32)>::empty());
    }
    let mut k: usize = 0;
    while k < nodes.len()
        invariant
            k <= nodes@.len(),
            nodes@ == html_nodes_of(source@),
            base@ == base_path_spec(component_path@),
            start_entries == old(log).entries(),
            log.spec_format() == old(log).spec_format(),
            reader.holds(vue_scan(component_path@, source@, base@, k as int)),
            log.entries().take(start_entries.len() as int) == start_entries,
            log.entries().len() >= start_entries.len(),
            problems_logged(log.entries().skip(start_entries.len() as int), vue_scan(component_path@, source@, base@, k as int).problems, component_path@, source@),
        decreases nodes.len() - k,
    {
        let ghost st = vue_scan(component_path@, source@, base@, k as int);
        let ghost before = log.entries();
        reader.read_node(log, component_path, source, base.as_str(), k, &nodes[k], Ghost(st));
        proof {
            let next = vue_scan(component_path@, source@, base@, k + 1);
            assert(next == node_step(component_path@, source@, base@, st, k as int, nodes@[k as int]));
            lemma_problems_extend(start_entries, before, log.entries(), st.problems, next.problems, component_path@, source@);
        }
        k = k + 1;
    }
    Some(Component {
        path: owned(component_path),
        source: owned(source),
        links: reader.links,
        imports: reader.imports,
        custom_tag: reader.custom_tag,
        used_custom_tags: reader.used_custom_tags,
        template: reader.template,
        script: reader.script,
        script_source_line: reader.script_source_line,
        style: reader.style,
    })
}


/// A top-level `<template>` or `<div>` element, in any letter case.
pub open spec fn is_root_node(node: HtmlNode) -> bool {
    node matches HtmlNode::Element(e) && (eq_ignore_case_spec(e.tag@, "TEMPLATE"@) || eq_ignore_case_spec(e.tag@, "DIV"@))
}

/// A top-level `<script>` element, in any letter case.
pub open spec fn is_script_node(node: HtmlNode) -> bool {
    node matches HtmlNode::Element(e) && eq_ignore_case_spec(e.tag@, "SCRIPT"@)
}

proof fn lemma_tag_kinds(tag: Seq<char>)
    ensures
        eq_ignore_case_spec(tag, "TEMPLATE"@) || eq_ignore_case_spec(tag, "DIV"@) ==> !eq_ignore_case_spec(tag, "LINK"@)
            && !eq_ignore_case_spec(tag, "SCRIPT"@) && !eq_ignore_case_spec(tag, "STYLE"@),
        eq_ignore_case_spec(tag, "SCRIPT"@) ==> !eq_ignore_case_spec(tag, "LINK"@),
{
    reveal_strlit("TEMPLATE");
    reveal_strlit("DIV");
    reveal_strlit("LINK");
    reveal_strlit("SCRIPT");
    reveal_strlit("STYLE");
}

proof fn lemma_node_step_frame(path: Seq<char>, source: Seq<char>, base: Seq<char>, st: VueState, index: int, node: HtmlNode)
    ensures
        ({
            let r = node_step(path, source, base, st, index, node);
            &&& (!is_root_node(node) || st.template is Some) ==> r.custom_tag == st.custom_tag
            &&& st.template is Some ==> r.template is Some
            &&& !is_root_node(node) ==> r.template == st.template
            &&& (!is_script_node(node) || st.script is Some) ==> r.script_line == st.script_line
            &&& st.script is Some ==> r.script is Some
            &&& !is_script_node(node) ==> r.script == st.script
            &&& (is_root_node(node) && st.template is None) ==> (node matches HtmlNode::Element(el) && r.template is Some
                && r.custom_tag == match el.id {
                Some(id) => Some(id@.map_values(|c: char| lower_spec(c))),
                None => st.custom_tag,
            })
            &&& (is_script_node(node) && st.script is None) ==> (node matches HtmlNode::Element(el) && r.script is Some
                && r.script_line == Some(script_line_spec(source, el)))
        }),
{
    match node {
        HtmlNode::Element(el) => lemma_tag_kinds(el.tag@),
        _ => {},
    }
}

/// Without a top-level `<template>` or `<div>` element among the first `n`
/// nodes, a `.vue` file has no template root and no custom element yet.
pub proof fn lemma_no_root_no_custom_tag(path: Seq<char>, source: Seq<char>, base: Seq<char>, n: int)
    requires
        0 <= n <= html_nodes_of(source).len(),
        forall|j: int| 0 <= j < n ==> !is_root_node(#[trigger] html_nodes_of(source)[j]),
    ensures
        vue_scan(path, source, base, n).custom_tag is None,
        vue_scan(path, source, base, n).template is None,
    decreases n,
{
    if n > 0 {
        lemma_no_root_no_custom_tag(path, source, base, n - 1);
        lemma_node_step_frame(path, source, base, vue_scan(path, source, base, n - 1), n - 1, html_nodes_of(source)[n - 1]);
    }
}

proof fn lemma_root_settled(path: Seq<char>, source: Seq<char>, base: Seq<char>, k: int, n: int)
    requires
        0 <= k < n <= html_nodes_of(source).len(),
        vue_scan(path, source, base, k + 1).template is Some,
    ensures
        vue_scan(path, source, base, n).template is Some,
        vue_scan(path, source, base, n).custom_tag == vue_scan(path, source, base, k + 1).custom_tag,
    decreases n - k,
{
    if n > k + 1 {
        lemma_root_settled(path, source, base, k, n - 1);
        lemma_node_step_frame(path, source, base, vue_scan(path, source, base, n - 1), n - 1, html_nodes_of(source)[n - 1]);
    }
}

/// The custom element of a `.vue` component is the id of its first
/// top-level `<template>` or `<div>` element, lowercased, whichever of the
/// two tags that element has (none where it has no id); no later node
/// changes it.
pub proof fn lemma_root_id_names_custom_tag(path: Seq<char>, source: Seq<char>, base: Seq<char>, k: int, n: int)
    requires
        0 <= k < n <= html_nodes_of(source).len(),
        is_root_node(html_nodes_of(source)[k]),
        forall|j: int| 0 <= j < k ==> !is_root_node(#[trigger] html_nodes_of(source)[j]),
    ensures
        html_nodes_of(source)[k] matches HtmlNode::Element(el) && vue_scan(path, source, base, n).custom_tag == match el.id {
            Some(id) => Some(id@.map_values(|c: char| lower_spec(c))),
            None => None,
        },
{
    lemma_no_root_no_custom_tag(path, source, base, k);
    lemma_node_step_frame(path, source, base, vue_scan(path, source, base, k), k, html_nodes_of(source)[k]);
    lemma_root_settled(path, source, base, k, n);
}

proof fn lemma_no_script_yet(path: Seq<char>, source: Seq<char>, base: Seq<char>, n: int)
    requires
        0 <= n <= html_nodes_of(source).len(),
        forall|j: int| 0 <= j < n ==> !is_script_node(#[trigger] html_nodes_of(source)[j]),
    ensures
        vue_scan(path, source, base, n).script is None,
    decreases n,
{
    if n > 0 {
        lemma_no_script_yet(path, source, base, n - 1);
        lemma_node_step_frame(path, source, base, vue_scan(path, source, base, n - 1), n - 1, html_nodes_of(source)[n - 1]);
    }
}

proof fn lemma_script_settled(path: Seq<char>, source: Seq<char>, base: Seq<char>, k: int, n: int)
    requires
        0 <= k < n <= html_nodes_of(source).len(),
        vue_scan(path, source, base, k + 1).script is Some,
    ensures
        vue_scan(path, source, base, n).script is Some,
        vue_scan(path, source, base, n).script_line == vue_scan(path, source, base, k + 1).script_line,
    decreases n - k,
{
    if n > k + 1 {
        lemma_script_settled(path, source, base, k, n - 1);
        lemma_node_step_frame(path, source, base, vue_scan(path, source, base, n - 1), n - 1, html_nodes_of(source)[n - 1]);
    }
}

/// The script of a `.vue` component is numbered from the line on which the
/// content of its first top-level `<script>` element starts, as the parser
/// resolves that byte position; where the element has no content, from the
/// line of the element itself.  No later node changes it.
pub proof fn lemma_script_line_is_content_line(path: Seq<char>, source: Seq<char>, base: Seq<char>, k: int, n: int)
    requires
        0 <= k < n <= html_nodes_of(source).len(),
        is_script_node(html_nodes_of(source)[k]),
        forall|j: int| 0 <= j < k ==> !is_script_node(#[trigger] html_nodes_of(source)[j]),
    ensures
        html_nodes_of(source)[k] matches HtmlNode::Element(el) && ({
            let line = vue_scan(path, source, base, n).script_line;
            &&& (el.content_start matches Some(cs) && line_at(source, cs) is Some) ==> line == line_at(
                source,
                el.content_start->Some_0,
            )
            &&& (el.content_start is None && line_at(source, el.start) is Some) ==> line == line_at(source, el.start)
        }),
{
    lemma_no_script_yet(path, source, base, k);
    lemma_node_step_frame(path, source, base, vue_scan(path, source, base, k), k, html_nodes_of(source)[k]);
    lemma_script_settled(path, source, base, k, n);
}

} // verus!

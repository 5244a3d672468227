//! Extraction of module `import` statements from component scripts.
use vstd::prelude::*;
use crate::text::{
    ascii_ws, chars_of, count_leading_ws, count_trailing_ws, is_ascii_ws, lemma_split_nl_nonempty,
    leading_ws, line_bounds, push_char, push_chars, split_inclusive_nl, split_nl, string_of_range,
    trim_end_spec, trim_start_spec,
};

verus! {

broadcast use vstd::string::group_string_axioms;

/// An `import` statement lifted out of a script, with where it came from.
#[derive(Clone, Debug, PartialEq, Eq)]
pub struct ScriptImport {
    /// The statement without surrounding whitespace, followed by `'\n'`.
    pub text: String,
    /// The one-indexed source line of the statement.
    pub source_line: usize,
    /// The UTF-16 length of the indentation before the statement.
    pub source_column_offset: usize,
}

/// The plain values of a [`ScriptImport`].
pub open spec fn import_view(i: ScriptImport) -> (Seq<char>, int, int) {
    (i.text@, i.source_line as int, i.source_column_offset as int)
}

/// The line starts an import statement: the word `import` followed by ASCII
/// whitespace or by `{`, `*`, `"` or `'`.  (`importFoo`, `import.meta` and
/// `import(...)` are not statements.)
pub open spec fn import_start(s: Seq<char>) -> bool {
    &&& s.len() > 6
    &&& s[0] == 'i' && s[1] == 'm' && s[2] == 'p' && s[3] == 'o' && s[4] == 'r' && s[5] == 't'
    &&& (is_ascii_ws(s[6]) || s[6] == '{' || s[6] == '*' || s[6] == '"' || s[6] == '\'')
}

fn import_start_at(v: &[char], a: usize, e: usize) -> (b: bool)
    requires
        a <= e <= v@.len(),
    ensures
        b == import_start(v@.subrange(a as int, e as int)),
{
    if e - a <= 6 {
        return false;
    }
    let c = v[a + 6];
    v[a] == 'i' && v[a + 1] == 'm' && v[a + 2] == 'p' && v[a + 3] == 'o' && v[a + 4] == 'r' && v[a
        + 5] == 't' && (ascii_ws(c) || c == '{' || c == '*' || c == '"' || c == '\'')
}

pub fn is_import_statement_start(line: &str) -> (b: bool)
    ensures
        b == import_start(line@),
{
    let v = chars_of(line);
    assert(v@.subrange(0, v@.len() as int) == v@);
    import_start_at(v.as_slice(), 0, v.len())
}

/// Imports and remaining script of the first `lines.len()` lines, the first
/// of them being line `first_line`.  An import line leaves only its line
/// break in the script, so that the script keeps its line numbers.
pub open spec fn scan_imports(lines: Seq<Seq<char>>, first_line: int) -> (Seq<(Seq<char>, int, int)>, Seq<char>)
    decreases lines.len(),
{
    if lines.len() == 0 {
        (Seq::empty(), Seq::empty())
    } else {
        let (imports, script) = scan_imports(lines.drop_last(), first_line);
        let line = lines.last();
        let trimmed = trim_start_spec(line);
        if import_start(trimmed) {
            (
                imports.push(
                    (trim_end_spec(trimmed).push('\n'), first_line + lines.len() - 1, leading_ws(line) as int),
                ),
                script + if line.len() > 0 && line.last() == '\n' {
                    seq!['\n']
                } else {
                    Seq::empty()
                },
            )
        } else {
            (imports, script + line)
        }
    }
}

/// Splits `source` into its `import` statements and the rest of the script.
/// `source_line_start` is the line number of the first line of `source`.
pub fn get_imports(source: &str, source_line_start: usize) -> (r: (Vec<ScriptImport>, String))
    requires
        source_line_start + split_nl(source@).len() <= usize::MAX,
    ensures
        r.0@.map_values(|i: ScriptImport| import_view(i)) == scan_imports(
            split_inclusive_nl(source@),
            source_line_start as int,
        ).0,
        r.1@ == scan_imports(split_inclusive_nl(source@), source_line_start as int).1,
{
    let chars = chars_of(source);
    let bounds = line_bounds(chars.as_slice());
    proof {
        lemma_split_nl_nonempty(source@);
    }
    let ghost pieces = split_inclusive_nl(source@);
    let p = bounds.len();
    let (last_a, last_b) = bounds[p - 1];
    let n = if last_a == last_b {
        p - 1
    } else {
        p
    };
    let mut imports: Vec<ScriptImport> = Vec::new();
    let mut script = String::new();
    let mut k: usize = 0;
    while k < n
        invariant
            chars@ == source@,
            p == bounds@.len() == split_nl(source@).len(),
            n <= p,
            n == pieces.len(),
            pieces == split_inclusive_nl(source@),
            source_line_start + p <= usize::MAX,
            k <= n,
            forall|j: int|
                #![trigger bounds@[j]]
                0 <= j < bounds@.len() ==> {
                    &&& bounds@[j].0 <= bounds@[j].1 && bounds@[j].1 <= chars@.len()
                    &&& split_nl(chars@)[j] == chars@.subrange(bounds@[j].0 as int, bounds@[j].1 as int)
                    &&& j < bounds@.len() - 1 ==> bounds@[j].1 < chars@.len() && chars@[bounds@[j].1 as int] == '\n'
                },
            imports@.map_values(|i: ScriptImport| import_view(i)) == scan_imports(
                pieces.take(k as int),
                source_line_start as int,
            ).0,
            script@ == scan_imports(pieces.take(k as int), source_line_start as int).1,
        decreases n - k,
    {
        let (a, b) = bounds[k];
        assert(bounds@[k as int] == (a, b));
        let ghost pre = split_nl(chars@)[k as int];
        // The piece runs to its newline, when it has one.
        let e = if k + 1 < p {
            assert(b < chars@.len());
            assert(b < chars.len());
            b + 1
        } else {
            b
        };
        proof {
            if k + 1 < p {
                assert(chars@.subrange(a as int, e as int) =~= pre.push('\n'));
            } else {
                assert(chars@.subrange(a as int, e as int) =~= pre);
            }
            assert(pieces[k as int] == chars@.subrange(a as int, e as int));
            assert(pieces.take(k + 1).drop_last() == pieces.take(k as int));
        }
        let ghost line = chars@.subrange(a as int, e as int);
        let lead = count_leading_ws(chars.as_slice(), a, e);
        let t = a + lead;
        proof {
            assert(trim_start_spec(line) =~= chars@.subrange(t as int, e as int));
        }
        if import_start_at(chars.as_slice(), t, e) {
            let trail = count_trailing_ws(chars.as_slice(), t, e);
            let mut text = string_of_range(chars.as_slice(), t, e - trail);
            push_char(&mut text, '\n');
            proof {
                assert(trim_end_spec(chars@.subrange(t as int, e as int)) =~= chars@.subrange(
                    t as int,
                    e - trail,
                ));
            }
            let ghost before = imports@;
            imports.push(
                ScriptImport { text, source_line: source_line_start + k, source_column_offset: lead },
            );
            proof {
                assert(imports@.map_values(|i: ScriptImport| import_view(i)) =~= before.map_values(
                    |i: ScriptImport| import_view(i),
                ).push(import_view(imports@.last())));
            }
            if e > a && chars[e - 1] == '\n' {
                push_char(&mut script, '\n');
            } else {
                assert(script@ + Seq::<char>::empty() =~= script@);
            }
        } else {
            push_chars(&mut script, chars.as_slice(), a, e);
        }
        k = k + 1;
    }
    assert(pieces.take(n as int) == pieces);
    (imports, script)
}

} // verus!

verus! {

/// Imports and script of `source` when its first line is `line`; where the
/// line numbers would not fit in `usize`, the script is kept whole.
pub open spec fn extracted_spec(source: Seq<char>, line: usize) -> (Seq<(Seq<char>, int, int)>, Seq<char>) {
    if line + source.len() + 1 <= usize::MAX {
        scan_imports(split_inclusive_nl(source), line as int)
    } else {
        (Seq::empty(), source)
    }
}

/// [`get_imports`] where the line numbers fit.
pub fn extract_imports(source: &str, line: usize) -> (r: (Vec<ScriptImport>, String))
    ensures
        r.0@.map_values(|i: ScriptImport| import_view(i)) == extracted_spec(source@, line).0,
        r.1@ == extracted_spec(source@, line).1,
{
    let n = source.unicode_len();
    if n < usize::MAX && line <= usize::MAX - n - 1 {
        proof {
            lemma_split_nl_nonempty(source@);
        }
        get_imports(source, line)
    } else {
        let imports: Vec<ScriptImport> = Vec::new();
        assert(imports@.map_values(|i: ScriptImport| import_view(i)) =~= Seq::<(Seq<char>, int, int)>::empty());
        (imports, crate::text::owned(source))
    }
}

} // verus!

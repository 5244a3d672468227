//! Character-level text utilities used throughout the library, each with a
//! specification over `Seq<char>`.
use vstd::prelude::*;

verus! {

broadcast use vstd::string::group_string_axioms;

/// ASCII whitespace as `u8::is_ascii_whitespace` defines it.
pub open spec fn is_ascii_ws(c: char) -> bool {
    c == ' ' || c == '\t' || c == '\n' || c == '\x0C' || c == '\r'
}

/// Unicode `White_Space`, as `char::is_whitespace` defines it.
pub open spec fn is_unicode_ws(c: char) -> bool {
    ||| ('\t' <= c && c <= '\r')
    ||| c == ' '
    ||| c == '\u{85}'
    ||| c == '\u{a0}'
    ||| c == '\u{1680}'
    ||| ('\u{2000}' <= c && c <= '\u{200a}')
    ||| c == '\u{2028}'
    ||| c == '\u{2029}'
    ||| c == '\u{202f}'
    ||| c == '\u{205f}'
    ||| c == '\u{3000}'
}

pub fn ascii_ws(c: char) -> (b: bool)
    ensures
        b == is_ascii_ws(c),
{
    c == ' ' || c == '\t' || c == '\n' || c == '\x0C' || c == '\r'
}

pub fn unicode_ws(c: char) -> (b: bool)
    ensures
        b == is_unicode_ws(c),
{
    ('\t' <= c && c <= '\r') || c == ' ' || c == '\u{85}' || c == '\u{a0}' || c == '\u{1680}'
        || ('\u{2000}' <= c && c <= '\u{200a}') || c == '\u{2028}' || c == '\u{2029}'
        || c == '\u{202f}' || c == '\u{205f}' || c == '\u{3000}'
}

/// Number of leading characters of `s` that are Unicode whitespace.
pub open spec fn leading_ws(s: Seq<char>) -> nat
    decreases s.len(),
{
    if s.len() == 0 || !is_unicode_ws(s[0]) {
        0
    } else {
        1 + leading_ws(s.drop_first())
    }
}

/// Number of trailing characters of `s` that are Unicode whitespace.
pub open spec fn trailing_ws(s: Seq<char>) -> nat
    decreases s.len(),
{
    if s.len() == 0 || !is_unicode_ws(s.last()) {
        0
    } else {
        1 + trailing_ws(s.drop_last())
    }
}

/// Number of leading ASCII whitespace characters of `s`.
pub open spec fn leading_ascii_ws(s: Seq<char>) -> nat
    decreases s.len(),
{
    if s.len() == 0 || !is_ascii_ws(s[0]) {
        0
    } else {
        1 + leading_ascii_ws(s.drop_first())
    }
}

/// Number of trailing ASCII whitespace characters of `s`.
pub open spec fn trailing_ascii_ws(s: Seq<char>) -> nat
    decreases s.len(),
{
    if s.len() == 0 || !is_ascii_ws(s.last()) {
        0
    } else {
        1 + trailing_ascii_ws(s.drop_last())
    }
}

/// `str::trim_start`.
pub open spec fn trim_start_spec(s: Seq<char>) -> Seq<char> {
    s.skip(leading_ws(s) as int)
}

/// `str::trim_end`.
pub open spec fn trim_end_spec(s: Seq<char>) -> Seq<char> {
    s.take(s.len() - trailing_ws(s))
}

/// `str::trim_ascii`.
pub open spec fn trim_ascii_spec(s: Seq<char>) -> Seq<char> {
    let t = s.skip(leading_ascii_ws(s) as int);
    t.take(t.len() - trailing_ascii_ws(t))
}

pub proof fn lemma_leading_ws_bound(s: Seq<char>)
    ensures
        leading_ws(s) <= s.len(),
        forall|i: int| 0 <= i < leading_ws(s) ==> is_unicode_ws(#[trigger] s[i]),
        leading_ws(s) < s.len() ==> !is_unicode_ws(s[leading_ws(s) as int]),
    decreases s.len(),
{
    if s.len() > 0 && is_unicode_ws(s[0]) {
        lemma_leading_ws_bound(s.drop_first());
        assert forall|i: int| 0 <= i < leading_ws(s) implies is_unicode_ws(#[trigger] s[i]) by {
            if i > 0 {
                assert(s[i] == s.drop_first()[i - 1]);
            }
        }
    }
}

pub proof fn lemma_trailing_ws_bound(s: Seq<char>)
    ensures
        trailing_ws(s) <= s.len(),
        forall|i: int| s.len() - trailing_ws(s) <= i < s.len() ==> is_unicode_ws(#[trigger] s[i]),
        trailing_ws(s) < s.len() ==> !is_unicode_ws(s[s.len() - trailing_ws(s) - 1]),
    decreases s.len(),
{
    if s.len() > 0 && is_unicode_ws(s.last()) {
        lemma_trailing_ws_bound(s.drop_last());
        assert forall|i: int| s.len() - trailing_ws(s) <= i < s.len() implies is_unicode_ws(
            #[trigger] s[i],
        ) by {
            if i < s.len() - 1 {
                assert(s[i] == s.drop_last()[i]);
            }
        }
    }
}

pub proof fn lemma_leading_ascii_ws_bound(s: Seq<char>)
    ensures
        leading_ascii_ws(s) <= s.len(),
        forall|i: int| 0 <= i < leading_ascii_ws(s) ==> is_ascii_ws(#[trigger] s[i]),
        leading_ascii_ws(s) < s.len() ==> !is_ascii_ws(s[leading_ascii_ws(s) as int]),
    decreases s.len(),
{
    if s.len() > 0 && is_ascii_ws(s[0]) {
        lemma_leading_ascii_ws_bound(s.drop_first());
        assert forall|i: int| 0 <= i < leading_ascii_ws(s) implies is_ascii_ws(#[trigger] s[i]) by {
            if i > 0 {
                assert(s[i] == s.drop_first()[i - 1]);
            }
        }
    }
}

pub proof fn lemma_trailing_ascii_ws_bound(s: Seq<char>)
    ensures
        trailing_ascii_ws(s) <= s.len(),
    decreases s.len(),
{
    if s.len() > 0 && is_ascii_ws(s.last()) {
        lemma_trailing_ascii_ws_bound(s.drop_last());
    }
}

/// Collects the characters of a string slice.
pub fn chars_of(s: &str) -> (v: Vec<char>)
    ensures
        v@ == s@,
{
    let mut v: Vec<char> = Vec::new();
    for c in it: s.chars()
        invariant
            it.seq() == s@,
            v@ == it.seq().take(it.index() as int),
    {
        v.push(c);
    }
    v
}

/// `str::len`: the length of `s` in bytes, that is of its UTF-8 encoding.
/// A `str` is a slice, and the standard library documents that no slice
/// spans more than `isize::MAX` bytes.
#[verifier::external_body]
pub(crate) fn byte_len(s: &str) -> (n: usize)
    ensures
        n == vstd::utf8::encode_utf8(s@).len(),
        n <= isize::MAX,
{
    s.len()
}

/// A string has no more characters than its UTF-8 encoding has bytes.
pub proof fn lemma_chars_le_bytes(s: Seq<char>)
    ensures
        s.len() <= vstd::utf8::encode_utf8(s).len(),
    decreases s.len(),
{
    if s.len() > 0 {
        lemma_chars_le_bytes(s.drop_first());
        assert(vstd::utf8::encode_scalar(s[0] as u32).len() >= 1);
    }
}

/// The number of characters of `s` is below `isize::MAX`.
pub fn char_count_bound(s: &str)
    ensures
        s@.len() <= isize::MAX,
{
    let _ = byte_len(s);
    proof {
        lemma_chars_le_bytes(s@);
    }
}

/// Appends one character to a string (`String::push`).
#[verifier::external_body]
pub(crate) fn push_char(s: &mut String, c: char)
    ensures
        final(s)@ == old(s)@.push(c),
{
    s.push(c);
}

/// Appends the characters `v[from..to]` to `s`.
pub fn push_chars(s: &mut String, v: &[char], from: usize, to: usize)
    requires
        from <= to <= v@.len(),
    ensures
        final(s)@ == old(s)@ + v@.subrange(from as int, to as int),
{
    let ghost start = s@;
    let mut i = from;
    while i < to
        invariant
            from <= i <= to <= v@.len(),
            s@ == start + v@.subrange(from as int, i as int),
        decreases to - i,
    {
        push_char(s, v[i]);
        assert(v@.subrange(from as int, i + 1) == v@.subrange(from as int, i as int).push(
            v@[i as int],
        ));
        i = i + 1;
    }
}

/// Builds a string from a sequence of characters.
pub fn string_of(v: &[char]) -> (s: String)
    ensures
        s@ == v@,
{
    let mut s = String::new();
    push_chars(&mut s, v, 0, v.len());
    assert(v@.subrange(0, v@.len() as int) == v@);
    s
}

/// Builds a string from `v[from..to]`.
pub fn string_of_range(v: &[char], from: usize, to: usize) -> (s: String)
    requires
        from <= to <= v@.len(),
    ensures
        s@ == v@.subrange(from as int, to as int),
{
    let mut s = String::new();
    push_chars(&mut s, v, from, to);
    s
}

/// Copies a string slice into an owned string.
pub fn owned(s: &str) -> (r: String)
    ensures
        r@ == s@,
{
    let mut r = String::new();
    r.append(s);
    r
}

/// The decimal digit character for `d < 10`.
pub open spec fn digit_spec(d: nat) -> char {
    if d == 0 {
        '0'
    } else if d == 1 {
        '1'
    } else if d == 2 {
        '2'
    } else if d == 3 {
        '3'
    } else if d == 4 {
        '4'
    } else if d == 5 {
        '5'
    } else if d == 6 {
        '6'
    } else if d == 7 {
        '7'
    } else if d == 8 {
        '8'
    } else {
        '9'
    }
}

/// The decimal representation of `n`, without leading zeros.
pub open spec fn decimal(n: nat) -> Seq<char>
    decreases n,
{
    if n < 10 {
        seq![digit_spec(n)]
    } else {
        decimal(n / 10).push(digit_spec(n % 10))
    }
}

fn digit(d: usize) -> (c: char)
    requires
        d < 10,
    ensures
        c == digit_spec(d as nat),
{
    if d == 0 {
        '0'
    } else if d == 1 {
        '1'
    } else if d == 2 {
        '2'
    } else if d == 3 {
        '3'
    } else if d == 4 {
        '4'
    } else if d == 5 {
        '5'
    } else if d == 6 {
        '6'
    } else if d == 7 {
        '7'
    } else if d == 8 {
        '8'
    } else {
        '9'
    }
}

/// Appends the decimal representation of `n`.
pub fn push_decimal(s: &mut String, n: usize)
    ensures
        final(s)@ == old(s)@ + decimal(n as nat),
    decreases n,
{
    if n >= 10 {
        push_decimal(s, n / 10);
    }
    let ghost mid = s@;
    push_char(s, digit(n % 10));
    if n >= 10 {
        assert(decimal(n as nat) == decimal((n / 10) as nat).push(digit_spec((n % 10) as nat)));
    }
}

/// The decimal representation of `n` as a string.
pub fn decimal_string(n: usize) -> (s: String)
    ensures
        s@ == decimal(n as nat),
{
    let mut s = String::new();
    push_decimal(&mut s, n);
    s
}

/// Splits `s` at every `sep`; the pieces exclude the separators, so there
/// is always one more piece than there are separators (`str::split`).
pub open spec fn split_on(s: Seq<char>, sep: char) -> Seq<Seq<char>>
    decreases s.len(),
{
    if s.len() == 0 {
        seq![Seq::empty()]
    } else {
        let prev = split_on(s.drop_last(), sep);
        if s.last() == sep {
            prev.push(Seq::empty())
        } else {
            prev.update(prev.len() - 1, prev.last().push(s.last()))
        }
    }
}

/// Splits `s` at every `'\n'`.
pub open spec fn split_nl(s: Seq<char>) -> Seq<Seq<char>> {
    split_on(s, '\n')
}

pub proof fn lemma_split_on_nonempty(s: Seq<char>, sep: char)
    ensures
        split_on(s, sep).len() >= 1,
        split_on(s, sep).len() <= s.len() + 1,
    decreases s.len(),
{
    if s.len() > 0 {
        lemma_split_on_nonempty(s.drop_last(), sep);
    }
}

pub proof fn lemma_split_nl_nonempty(s: Seq<char>)
    ensures
        split_nl(s).len() >= 1,
        split_nl(s).len() <= s.len() + 1,
{
    lemma_split_on_nonempty(s, '\n');
}

/// Removes one trailing `'\r'`.
pub open spec fn strip_cr(s: Seq<char>) -> Seq<char> {
    if s.len() > 0 && s.last() == '\r' {
        s.drop_last()
    } else {
        s
    }
}

/// `str::lines`: lines end at `"\n"` or `"\r\n"`, and a final empty line is
/// not produced.
pub open spec fn lines_spec(s: Seq<char>) -> Seq<Seq<char>> {
    let p = split_nl(s);
    let k = if p.last().len() == 0 {
        p.len() - 1
    } else {
        p.len() as int
    };
    Seq::new(k as nat, |i: int| if i < p.len() - 1 { strip_cr(p[i]) } else { p[i] })
}

/// Number of occurrences of `c` in `s`.
pub open spec fn count_char(s: Seq<char>, c: char) -> nat
    decreases s.len(),
{
    if s.len() == 0 {
        0
    } else {
        count_char(s.drop_last(), c) + if s.last() == c {
            1nat
        } else {
            0nat
        }
    }
}

pub proof fn lemma_count_char_append(a: Seq<char>, b: Seq<char>, c: char)
    ensures
        count_char(a + b, c) == count_char(a, c) + count_char(b, c),
    decreases b.len(),
{
    if b.len() == 0 {
        assert(a + b == a);
    } else {
        lemma_count_char_append(a, b.drop_last(), c);
        assert((a + b).drop_last() == a + b.drop_last());
    }
}

pub proof fn lemma_count_char_last(s: Seq<char>, c: char)
    ensures
        count_char(s, c) <= s.len(),
        s.len() > 0 && s.last() == c ==> count_char(s, c) >= 1,
    decreases s.len(),
{
    if s.len() > 0 {
        lemma_count_char_last(s.drop_last(), c);
    }
}

/// The character ranges of the pieces of `split_on(v, sep)`.
pub fn split_bounds(v: &[char], sep: char) -> (r: Vec<(usize, usize)>)
    ensures
        r@.len() == split_on(v@, sep).len(),
        forall|k: int|
            #![trigger r@[k]]
            0 <= k < r@.len() ==> {
                &&& r@[k].0 <= r@[k].1 && r@[k].1 <= v@.len()
                &&& split_on(v@, sep)[k] == v@.subrange(r@[k].0 as int, r@[k].1 as int)
            },
        forall|k: int|
            #![trigger r@[k]]
            0 <= k < r@.len() - 1 ==> r@[k].1 < v@.len() && v@[r@[k].1 as int] == sep && r@[k
                + 1].0 == r@[k].1 + 1,
        r@.len() >= 1,
        r@.last().1 == v@.len(),
{
    let mut r: Vec<(usize, usize)> = Vec::new();
    let mut start: usize = 0;
    let mut i: usize = 0;
    while i < v.len()
        invariant
            0 <= start <= i <= v@.len(),
            r@.len() + 1 == split_on(v@.take(i as int), sep).len(),
            split_on(v@.take(i as int), sep).last() == v@.subrange(start as int, i as int),
            forall|k: int|
                #![trigger r@[k]]
                0 <= k < r@.len() ==> {
                    &&& r@[k].0 <= r@[k].1 && r@[k].1 <= v@.len()
                    &&& split_on(v@.take(i as int), sep)[k] == v@.subrange(
                        r@[k].0 as int,
                        r@[k].1 as int,
                    )
                },
            forall|k: int|
                #![trigger r@[k]]
                0 <= k < r@.len() ==> r@[k].1 < i && v@[r@[k].1 as int] == sep && (k + 1
                    < r@.len() ==> r@[k + 1].0 == r@[k].1 + 1) && (k + 1 == r@.len() ==> start
                    == r@[k].1 + 1),
        decreases v.len() - i,
    {
        let ghost prev = split_on(v@.take(i as int), sep);
        assert(v@.take(i + 1).drop_last() == v@.take(i as int));
        assert(v@.take(i + 1).last() == v@[i as int]);
        proof {
            lemma_split_on_nonempty(v@.take(i as int), sep);
        }
        if v[i] == sep {
            let ghost old_r = r@;
            let ghost old_start = start;
            assert(split_on(v@.take(i + 1), sep) == prev.push(Seq::empty()));
            r.push((start, i));
            start = i + 1;
            assert(v@.subrange(start as int, i + 1) =~= Seq::<char>::empty());
            assert forall|k: int| 0 <= k < r@.len() implies {
                &&& r@[k].0 <= r@[k].1 && r@[k].1 <= v@.len()
                &&& split_on(v@.take(i + 1), sep)[k] == v@.subrange(r@[k].0 as int, r@[k].1 as int)
            } by {
                if k < old_r.len() {
                    assert(r@[k] == old_r[k]);
                    assert(split_on(v@.take(i + 1), sep)[k] == prev[k]);
                } else {
                    assert(r@[k] == (old_start, i));
                    assert(split_on(v@.take(i + 1), sep)[k] == prev[prev.len() - 1]);
                }
            }
        } else {
            assert(split_on(v@.take(i + 1), sep) == prev.update(
                prev.len() - 1,
                prev.last().push(v@[i as int]),
            ));
            assert(v@.subrange(start as int, i + 1) == v@.subrange(start as int, i as int).push(
                v@[i as int],
            ));
            assert forall|k: int| 0 <= k < r@.len() implies split_on(v@.take(i + 1), sep)[k] == prev[k] by {}
        }
        i = i + 1;
    }
    assert(v@.take(v@.len() as int) == v@);
    proof {
        lemma_split_on_nonempty(v@, sep);
    }
    let ghost before = r@;
    r.push((start, i));
    assert forall|k: int| 0 <= k < r@.len() implies {
        &&& r@[k].0 <= r@[k].1 && r@[k].1 <= v@.len()
        &&& split_on(v@, sep)[k] == v@.subrange(r@[k].0 as int, r@[k].1 as int)
    } by {
        assert(split_on(v@.take(i as int), sep) == split_on(v@, sep));
        if k < before.len() {
            assert(r@[k] == before[k]);
        } else {
            assert(r@[k] == (start, i));
            assert(r@[k].0 == start);
            assert(k == split_on(v@, sep).len() - 1);
        }
    }
    r
}

/// The character ranges of the pieces of `split_nl(v)`.
pub fn line_bounds(v: &[char]) -> (r: Vec<(usize, usize)>)
    ensures
        r@.len() == split_nl(v@).len(),
        forall|k: int|
            #![trigger r@[k]]
            0 <= k < r@.len() ==> {
                &&& r@[k].0 <= r@[k].1 && r@[k].1 <= v@.len()
                &&& split_nl(v@)[k] == v@.subrange(r@[k].0 as int, r@[k].1 as int)
            },
        forall|k: int|
            #![trigger r@[k]]
            0 <= k < r@.len() - 1 ==> r@[k].1 < v@.len() && v@[r@[k].1 as int] == '\n' && r@[k
                + 1].0 == r@[k].1 + 1,
        r@.len() >= 1,
        r@.last().1 == v@.len(),
{
    split_bounds(v, '\n')
}

/// `str::lines`, each line as an owned string.
pub fn lines_of(s: &str) -> (r: Vec<String>)
    ensures
        r@.len() == lines_spec(s@).len(),
        forall|i: int| 0 <= i < r@.len() ==> #[trigger] r@[i]@ == lines_spec(s@)[i],
{
    let chars = chars_of(s);
    let bounds = line_bounds(chars.as_slice());
    proof {
        lemma_split_nl_nonempty(s@);
    }
    let p = bounds.len();
    let (last_start, last_end) = bounds[p - 1];
    let k = if last_start == last_end {
        p - 1
    } else {
        p
    };
    proof {
        assert(split_nl(s@).last() == s@.subrange(last_start as int, last_end as int));
        assert(split_nl(s@).last().len() == 0 <==> last_start == last_end);
    }
    let mut r: Vec<String> = Vec::new();
    let mut n: usize = 0;
    while n < k
        invariant
            chars@ == s@,
            p == bounds@.len() == split_nl(s@).len(),
            p >= 1,
            k <= p,
            k == lines_spec(s@).len(),
            forall|j: int|
                #![trigger bounds@[j]]
                0 <= j < bounds@.len() ==> {
                    &&& bounds@[j].0 <= bounds@[j].1 && bounds@[j].1 <= chars@.len()
                    &&& split_nl(chars@)[j] == chars@.subrange(bounds@[j].0 as int, bounds@[j].1 as int)
                },
            n <= k,
            r@.len() == n,
            forall|i: int| 0 <= i < n ==> #[trigger] r@[i]@ == lines_spec(s@)[i],
        decreases k - n,
    {
        let (a, b) = bounds[n];
        assert(bounds@[n as int] == (a, b));
        let e = if n + 1 < p && a < b && chars[b - 1] == '\r' {
            b - 1
        } else {
            b
        };
        let line = string_of_range(chars.as_slice(), a, e);
        proof {
            let piece = split_nl(s@)[n as int];
            assert(piece == s@.subrange(a as int, b as int));
            if n + 1 < p {
                assert(strip_cr(piece) =~= line@);
            } else {
                assert(piece =~= line@);
            }
            assert(lines_spec(s@)[n as int] == line@);
        }
        r.push(line);
        n += 1;
    }
    r
}

} // verus!

verus! {

/// `str::split_inclusive('\n')`: every piece but possibly the last ends with
/// its `'\n'`, and no empty piece is produced at the end.
pub open spec fn split_inclusive_nl(s: Seq<char>) -> Seq<Seq<char>> {
    let p = split_nl(s);
    let n = if p.last().len() == 0 {
        p.len() - 1
    } else {
        p.len() as int
    };
    Seq::new(n as nat, |i: int| if i < p.len() - 1 { p[i].push('\n') } else { p[i] })
}

/// The number of leading Unicode whitespace characters of `v[a..e]`.
pub fn count_leading_ws(v: &[char], a: usize, e: usize) -> (n: usize)
    requires
        a <= e <= v@.len(),
    ensures
        n == leading_ws(v@.subrange(a as int, e as int)),
        a + n <= e,
{
    let mut i = a;
    while i < e && unicode_ws(v[i])
        invariant
            a <= i <= e <= v@.len(),
            leading_ws(v@.subrange(a as int, e as int)) == (i - a) + leading_ws(
                v@.subrange(i as int, e as int),
            ),
        decreases e - i,
    {
        assert(v@.subrange(i as int, e as int).drop_first() == v@.subrange(i + 1, e as int));
        i = i + 1;
    }
    i - a
}

/// The number of trailing Unicode whitespace characters of `v[a..e]`.
pub fn count_trailing_ws(v: &[char], a: usize, e: usize) -> (n: usize)
    requires
        a <= e <= v@.len(),
    ensures
        n == trailing_ws(v@.subrange(a as int, e as int)),
        a + n <= e,
{
    let mut i = e;
    while i > a && unicode_ws(v[i - 1])
        invariant
            a <= i <= e <= v@.len(),
            trailing_ws(v@.subrange(a as int, e as int)) == (e - i) + trailing_ws(
                v@.subrange(a as int, i as int),
            ),
        decreases i - a,
    {
        assert(v@.subrange(a as int, i as int).drop_last() == v@.subrange(a as int, i - 1));
        i = i - 1;
    }
    e - i
}

/// The number of leading ASCII whitespace characters of `v[a..e]`.
pub fn count_leading_ascii_ws(v: &[char], a: usize, e: usize) -> (n: usize)
    requires
        a <= e <= v@.len(),
    ensures
        n == leading_ascii_ws(v@.subrange(a as int, e as int)),
        a + n <= e,
{
    let mut i = a;
    while i < e && ascii_ws(v[i])
        invariant
            a <= i <= e <= v@.len(),
            leading_ascii_ws(v@.subrange(a as int, e as int)) == (i - a) + leading_ascii_ws(
                v@.subrange(i as int, e as int),
            ),
        decreases e - i,
    {
        assert(v@.subrange(i as int, e as int).drop_first() == v@.subrange(i + 1, e as int));
        i = i + 1;
    }
    i - a
}

/// The number of trailing ASCII whitespace characters of `v[a..e]`.
pub fn count_trailing_ascii_ws(v: &[char], a: usize, e: usize) -> (n: usize)
    requires
        a <= e <= v@.len(),
    ensures
        n == trailing_ascii_ws(v@.subrange(a as int, e as int)),
        a + n <= e,
{
    let mut i = e;
    while i > a && ascii_ws(v[i - 1])
        invariant
            a <= i <= e <= v@.len(),
            trailing_ascii_ws(v@.subrange(a as int, e as int)) == (e - i) + trailing_ascii_ws(
                v@.subrange(a as int, i as int),
            ),
        decreases i - a,
    {
        assert(v@.subrange(a as int, i as int).drop_last() == v@.subrange(a as int, i - 1));
        i = i - 1;
    }
    e - i
}

} // verus!

verus! {

/// `pat` occurs in `s` at index `i`.
pub open spec fn occurs_at(s: Seq<char>, pat: Seq<char>, i: int) -> bool {
    0 <= i && i + pat.len() <= s.len() && s.subrange(i, i + pat.len()) == pat
}

/// The first index at or after `k` where `pat` occurs in `s`.
pub open spec fn find_from(s: Seq<char>, pat: Seq<char>, k: int) -> Option<int>
    decreases s.len() + 1 - k,
{
    if k < 0 || k + pat.len() > s.len() {
        None
    } else if occurs_at(s, pat, k) {
        Some(k)
    } else {
        find_from(s, pat, k + 1)
    }
}

/// The first index where `pat` occurs in `s` (`str::find`).
pub open spec fn find_spec(s: Seq<char>, pat: Seq<char>) -> Option<int> {
    find_from(s, pat, 0)
}

/// The last index of `c` in `s` (`str::rfind` with a character).
pub open spec fn rfind_char_spec(s: Seq<char>, c: char) -> Option<int>
    decreases s.len(),
{
    if s.len() == 0 {
        None
    } else if s.last() == c {
        Some(s.len() - 1)
    } else {
        rfind_char_spec(s.drop_last(), c)
    }
}

pub proof fn lemma_find_from_bounds(s: Seq<char>, pat: Seq<char>, k: int)
    ensures
        find_from(s, pat, k) matches Some(i) ==> k <= i && occurs_at(s, pat, i),
    decreases s.len() + 1 - k,
{
    if !(k < 0 || k + pat.len() > s.len()) && !occurs_at(s, pat, k) {
        lemma_find_from_bounds(s, pat, k + 1);
    }
}

pub proof fn lemma_rfind_char_bounds(s: Seq<char>, c: char)
    ensures
        rfind_char_spec(s, c) matches Some(i) ==> 0 <= i < s.len() && s[i] == c,
    decreases s.len(),
{
    if s.len() > 0 && s.last() != c {
        lemma_rfind_char_bounds(s.drop_last(), c);
    }
}

/// `v[a..a + pat.len()]` equals `pat`.
pub fn matches_at(v: &[char], a: usize, pat: &[char]) -> (b: bool)
    ensures
        b == occurs_at(v@, pat@, a as int),
{
    if a > v.len() || pat.len() > v.len() - a {
        return false;
    }
    let mut j: usize = 0;
    while j < pat.len()
        invariant
            a + pat@.len() <= v@.len(),
            a + pat.len() <= v.len(),
            j <= pat@.len(),
            forall|t: int| 0 <= t < j ==> v@[a + t] == pat@[t],
        decreases pat.len() - j,
    {
        if v[a + j] != pat[j] {
            assert(v@.subrange(a as int, a + pat@.len())[j as int] != pat@[j as int]);
            return false;
        }
        j = j + 1;
    }
    assert(v@.subrange(a as int, a + pat@.len()) =~= pat@);
    true
}

/// The first index where `pat` occurs in `v`.
pub fn find(v: &[char], pat: &[char]) -> (r: Option<usize>)
    ensures
        r matches Some(i) ==> find_spec(v@, pat@) == Some(i as int),
        r is None ==> find_spec(v@, pat@) is None,
{
    if pat.len() == 0 {
        assert(v@.subrange(0, 0) =~= pat@);
        return Some(0);
    }
    if pat.len() > v.len() {
        return None;
    }
    let limit = v.len() - pat.len();
    assert(limit < usize::MAX);
    let mut k: usize = 0;
    while k <= limit
        invariant
            find_from(v@, pat@, 0) == find_from(v@, pat@, k as int),
            limit == v@.len() - pat@.len(),
            limit < usize::MAX,
            pat@.len() >= 1,
            k <= limit + 1,
        decreases limit + 1 - k,
    {
        if matches_at(v, k, pat) {
            return Some(k);
        }
        k = k + 1;
    }
    None
}

/// The last index of `c` in `v[..e]`.
pub fn rfind_char(v: &[char], e: usize, c: char) -> (r: Option<usize>)
    requires
        e <= v@.len(),
    ensures
        r matches Some(i) ==> rfind_char_spec(v@.take(e as int), c) == Some(i as int),
        r is None ==> rfind_char_spec(v@.take(e as int), c) is None,
{
    let mut k = e;
    while k > 0
        invariant
            k <= e <= v@.len(),
            rfind_char_spec(v@.take(e as int), c) == rfind_char_spec(v@.take(k as int), c),
        decreases k,
    {
        assert(v@.take(k as int).last() == v@[k - 1]);
        if v[k - 1] == c {
            return Some(k - 1);
        }
        assert(v@.take(k as int).drop_last() == v@.take(k - 1));
        k = k - 1;
    }
    None
}

/// `v[a..b]` equals `w`.
pub fn range_eq(v: &[char], a: usize, b: usize, w: &[char]) -> (r: bool)
    requires
        a <= b <= v@.len(),
    ensures
        r == (v@.subrange(a as int, b as int) == w@),
{
    if b - a != w.len() {
        return false;
    }
    let r = matches_at(v, a, w);
    r
}

/// The words of `s` separated by ASCII whitespace (`str::split_ascii_whitespace`).
pub open spec fn ascii_words(s: Seq<char>) -> Seq<Seq<char>>
    decreases s.len(),
{
    if s.len() == 0 {
        Seq::empty()
    } else {
        let w = ascii_words(s.drop_last());
        if is_ascii_ws(s.last()) {
            w
        } else if s.len() >= 2 && !is_ascii_ws(s[s.len() - 2]) && w.len() > 0 {
            w.update(w.len() - 1, w.last().push(s.last()))
        } else {
            w.push(seq![s.last()])
        }
    }
}

/// The character ranges of the words of `v[a..e]` separated by ASCII whitespace.
pub fn ascii_word_bounds(v: &[char], a: usize, e: usize) -> (r: Vec<(usize, usize)>)
    requires
        a <= e <= v@.len(),
    ensures
        r@.len() == ascii_words(v@.subrange(a as int, e as int)).len(),
        forall|k: int|
            #![trigger r@[k]]
            0 <= k < r@.len() ==> {
                &&& a <= r@[k].0 <= r@[k].1 <= e
                &&& ascii_words(v@.subrange(a as int, e as int))[k] == v@.subrange(
                    r@[k].0 as int,
                    r@[k].1 as int,
                )
            },
{
    let mut r: Vec<(usize, usize)> = Vec::new();
    let mut i = a;
    while i < e
        invariant
            a <= i <= e <= v@.len(),
            r@.len() == ascii_words(v@.subrange(a as int, i as int)).len(),
            forall|k: int|
                #![trigger r@[k]]
                0 <= k < r@.len() ==> {
                    &&& a <= r@[k].0 <= r@[k].1 <= i
                    &&& ascii_words(v@.subrange(a as int, i as int))[k] == v@.subrange(
                        r@[k].0 as int,
                        r@[k].1 as int,
                    )
                },
            r@.len() > 0 && i > a && !is_ascii_ws(v@[i - 1]) ==> r@.last().1 == i,
        decreases e - i,
    {
        let ghost prev = ascii_words(v@.subrange(a as int, i as int));
        let ghost old_r = r@;
        assert(v@.subrange(a as int, i + 1).drop_last() == v@.subrange(a as int, i as int));
        assert(v@.subrange(a as int, i + 1).last() == v@[i as int]);
        if ascii_ws(v[i]) {
        } else if i > a && !ascii_ws(v[i - 1]) && r.len() > 0 {
            assert(v@.subrange(a as int, i + 1)[i + 1 - a - 2] == v@[i - 1]);
            let last = r.len() - 1;
            let (s0, s1) = r[last];
            assert(r@[last as int] == (s0, s1));
            r.set(last, (s0, i + 1));
            assert(v@.subrange(s0 as int, i + 1) == v@.subrange(s0 as int, i as int).push(v@[i as int]));
            assert forall|k: int| 0 <= k < r@.len() implies {
                &&& a <= r@[k].0 <= r@[k].1 <= i + 1
                &&& ascii_words(v@.subrange(a as int, i + 1))[k] == v@.subrange(
                    r@[k].0 as int,
                    r@[k].1 as int,
                )
            } by {
                if k < last {
                    assert(r@[k] == old_r[k]);
                }
            }
        } else {
            if i > a {
                assert(v@.subrange(a as int, i + 1)[i + 1 - a - 2] == v@[i - 1]);
            }
            r.push((i, i + 1));
            assert(v@.subrange(i as int, i + 1) =~= seq![v@[i as int]]);
            assert forall|k: int| 0 <= k < r@.len() implies {
                &&& a <= r@[k].0 <= r@[k].1 <= i + 1
                &&& ascii_words(v@.subrange(a as int, i + 1))[k] == v@.subrange(
                    r@[k].0 as int,
                    r@[k].1 as int,
                )
            } by {
                if k < old_r.len() {
                    assert(r@[k] == old_r[k]);
                }
            }
        }
        i = i + 1;
    }
    r
}

/// A decimal digit.
pub open spec fn is_digit(c: char) -> bool {
    '0' <= c && c <= '9'
}

/// The value of a string of decimal digits.
pub open spec fn digits_value(s: Seq<char>) -> nat
    decreases s.len(),
{
    if s.len() == 0 {
        0
    } else {
        digits_value(s.drop_last()) * 10 + (s.last() as nat - '0' as nat) as nat
    }
}

/// Every character of `d` is a decimal digit.
pub open spec fn all_digits(d: Seq<char>) -> bool {
    forall|i: int| 0 <= i < d.len() ==> is_digit(#[trigger] d[i])
}

/// `s` without one leading `+`.
pub open spec fn unsigned_part(s: Seq<char>) -> Seq<char> {
    if s.len() > 0 && s[0] == '+' {
        s.drop_first()
    } else {
        s
    }
}

/// `str::parse::<usize>`: an optional `+`, then one or more decimal digits
/// whose value fits in `usize`.
pub open spec fn parse_usize_spec(s: Seq<char>) -> Option<usize> {
    let d = unsigned_part(s);
    if d.len() > 0 && all_digits(d) && digits_value(d) <= usize::MAX {
        Some(digits_value(d) as usize)
    } else {
        None
    }
}

pub proof fn lemma_digits_value_mono(d: Seq<char>, i: int)
    requires
        0 <= i <= d.len(),
        forall|j: int| 0 <= j < d.len() ==> is_digit(#[trigger] d[j]),
    ensures
        digits_value(d.take(i)) <= digits_value(d),
    decreases d.len() - i,
{
    if i < d.len() {
        lemma_digits_value_mono(d, i + 1);
        assert(d.take(i + 1).drop_last() == d.take(i));
    } else {
        assert(d.take(i) == d);
    }
}

/// Parses `v[a..e]` as `str::parse::<usize>` does.
pub fn parse_usize(v: &[char], a: usize, e: usize) -> (r: Option<usize>)
    requires
        a <= e <= v@.len(),
    ensures
        r == parse_usize_spec(v@.subrange(a as int, e as int)),
{
    let ghost s = v@.subrange(a as int, e as int);
    let start = if a < e && v[a] == '+' {
        a + 1
    } else {
        a
    };
    let ghost d = v@.subrange(start as int, e as int);
    assert(d == unsigned_part(s));
    if start == e {
        return None;
    }
    let mut value: u128 = 0;
    let mut over = false;
    let mut i = start;
    while i < e
        invariant
            a <= start <= i <= e <= v@.len(),
            d == v@.subrange(start as int, e as int),
            s == v@.subrange(a as int, e as int),
            d == unsigned_part(s),
            forall|j: int| 0 <= j < i - start ==> is_digit(#[trigger] d[j]),
            !over ==> value == digits_value(d.take(i - start)) && value <= usize::MAX,
            over ==> digits_value(d.take(i - start)) > usize::MAX,
        decreases e - i,
    {
        let c = v[i];
        if !('0' <= c && c <= '9') {
            assert(d[i - start] == c);
            assert(!is_digit(d[i - start]));
            assert(!all_digits(d));
            return None;
        }
        assert(d.take(i + 1 - start).drop_last() == d.take(i - start));
        assert(d.take(i + 1 - start).last() == c);
        let dv = (c as u32 - '0' as u32) as u128;
        if !over {
            value = value * 10 + dv;
            if value > usize::MAX as u128 {
                over = true;
            }
        }
        i = i + 1;
    }
    assert(d.take(e - start) == d);
    if over {
        None
    } else {
        Some(value as usize)
    }
}

} // verus!

verus! {

/// Two strings hold the same characters.
pub fn str_eq(a: &str, b: &str) -> (r: bool)
    ensures
        r == (a@ == b@),
{
    let va = chars_of(a);
    let vb = chars_of(b);
    assert(va@.subrange(0, va@.len() as int) == va@);
    range_eq(va.as_slice(), 0, va.len(), vb.as_slice())
}

/// `'"'` or `'\''`.
pub open spec fn is_quote(c: char) -> bool {
    c == '"' || c == '\''
}

/// Number of leading quote characters of `s`.
pub open spec fn leading_quotes(s: Seq<char>) -> nat
    decreases s.len(),
{
    if s.len() == 0 || !is_quote(s[0]) {
        0
    } else {
        1 + leading_quotes(s.drop_first())
    }
}

/// Number of trailing quote characters of `s`.
pub open spec fn trailing_quotes(s: Seq<char>) -> nat
    decreases s.len(),
{
    if s.len() == 0 || !is_quote(s.last()) {
        0
    } else {
        1 + trailing_quotes(s.drop_last())
    }
}

/// `s` with all leading and trailing quote characters removed
/// (`str::trim_matches` with the two quote characters).
pub open spec fn trim_quotes_spec(s: Seq<char>) -> Seq<char> {
    let t = s.skip(leading_quotes(s) as int);
    t.take(t.len() - trailing_quotes(t))
}

pub proof fn lemma_quotes_bound(s: Seq<char>)
    ensures
        leading_quotes(s) <= s.len(),
        trailing_quotes(s) <= s.len(),
    decreases s.len(),
{
    if s.len() > 0 {
        lemma_quotes_bound(s.drop_first());
        lemma_quotes_bound(s.drop_last());
    }
}

/// Removes surrounding quote characters from a configuration value.
pub fn parse_str(s: &str) -> (r: String)
    ensures
        r@ == trim_quotes_spec(s@),
{
    let v = chars_of(s);
    let e = v.len();
    assert(v@.subrange(0, e as int) == v@);
    let mut i: usize = 0;
    while i < e && (v[i] == '"' || v[i] == '\'')
        invariant
            i <= e == v@.len(),
            leading_quotes(v@) == i + leading_quotes(v@.subrange(i as int, e as int)),
        decreases e - i,
    {
        assert(v@.subrange(i as int, e as int).drop_first() == v@.subrange(i + 1, e as int));
        i = i + 1;
    }
    assert(v@.subrange(0, e as int) == v@);
    let mut j: usize = e;
    while j > i && (v[j - 1] == '"' || v[j - 1] == '\'')
        invariant
            i <= j <= e == v@.len(),
            trailing_quotes(v@.subrange(i as int, e as int)) == (e - j) + trailing_quotes(
                v@.subrange(i as int, j as int),
            ),
        decreases j - i,
    {
        assert(v@.subrange(i as int, j as int).drop_last() == v@.subrange(i as int, j - 1));
        j = j - 1;
    }
    proof {
        assert(v@.skip(i as int) == v@.subrange(i as int, e as int));
    }
    string_of_range(v.as_slice(), i, j)
}

} // verus!

verus! {

/// `char::to_ascii_lowercase`.
pub open spec fn lower_spec(c: char) -> char {
    if 'A' <= c && c <= 'Z' {
        ((c as u32) + 32) as char
    } else {
        c
    }
}

pub fn ascii_lower(c: char) -> (r: char)
    ensures
        r == lower_spec(c),
{
    if 'A' <= c && c <= 'Z' {
        let b = c as u8;
        assert(b as u32 == c as u32);
        ((b + 32) as char)
    } else {
        c
    }
}

} // verus!

verus! {

/// `parts` joined with `/`.
pub open spec fn join_slash(parts: Seq<Seq<char>>) -> Seq<char>
    decreases parts.len(),
{
    if parts.len() == 0 {
        Seq::empty()
    } else if parts.len() == 1 {
        parts[0]
    } else {
        join_slash(parts.drop_last()) + seq!['/'] + parts.last()
    }
}

} // verus!

verus! {

proof fn lemma_all_trailing_ascii(u: Seq<char>)
    requires
        trailing_ascii_ws(u) == u.len(),
    ensures
        forall|i: int| 0 <= i < u.len() ==> is_ascii_ws(#[trigger] u[i]),
    decreases u.len(),
{
    if u.len() > 0 {
        lemma_all_trailing_ascii(u.drop_last());
        assert forall|i: int| 0 <= i < u.len() implies is_ascii_ws(#[trigger] u[i]) by {
            if i < u.len() - 1 {
                assert(u.drop_last()[i] == u[i]);
            }
        }
    }
}

/// `s.trim_ascii().is_empty()`.
pub fn is_ascii_blank(s: &str) -> (b: bool)
    ensures
        b == (trim_ascii_spec(s@).len() == 0),
{
    let v = chars_of(s);
    assert(v@.subrange(0, v@.len() as int) == v@);
    let l = count_leading_ascii_ws(v.as_slice(), 0, v.len());
    proof {
        lemma_leading_ascii_ws_bound(s@);
        let u = s@.skip(l as int);
        lemma_trailing_ascii_ws_bound(u);
        if l < v.len() {
            if trailing_ascii_ws(u) == u.len() {
                lemma_all_trailing_ascii(u);
                assert(u[0] == s@[l as int]);
            }
        }
    }
    l == v.len()
}

/// `str::trim`.
pub open spec fn trim_spec(s: Seq<char>) -> Seq<char> {
    trim_end_spec(trim_start_spec(s))
}

/// `s` without leading and trailing Unicode whitespace.
pub fn trim(s: &str) -> (r: String)
    ensures
        r@ == trim_spec(s@),
{
    let v = chars_of(s);
    let a = count_leading_ws(v.as_slice(), 0, v.len());
    let n = count_trailing_ws(v.as_slice(), a, v.len());
    proof {
        assert(v@.subrange(0, v@.len() as int) == v@);
        assert(v@.subrange(a as int, v@.len() as int) == trim_start_spec(s@));
    }
    string_of_range(v.as_slice(), a, v.len() - n)
}

} // verus!

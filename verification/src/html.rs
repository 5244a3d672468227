//! The HTML of a component file, as the tagsoup parser reads it.  The parser
//! is reached through the wrappers below; the library holds what it reads of
//! the document as plain values.
use vstd::prelude::*;
use crate::html::HtmlNode::{Comment, Doctype, Element, ProcessingInstruction, Text};
use crate::text::{chars_of, lower_spec, ascii_lower, push_char, string_of_range};
use tagsoup::{Document, Node};

verus! {

broadcast use vstd::string::group_string_axioms;

/// A parse error: its byte span and what went wrong.
#[derive(Clone, Debug, PartialEq, Eq)]
pub struct HtmlError {
    pub start: u32,
    pub end: u32,
    pub message: String,
}

/// A top-level element.
#[derive(Clone, Debug, PartialEq, Eq)]
pub struct HtmlElement {
    pub tag: String,
    pub id: Option<String>,
    /// The byte span of the whole element.
    pub start: u32,
    pub end: u32,
    /// The byte span of the tag name.
    pub tag_start: u32,
    pub tag_end: u32,
    /// Where the element's first child starts, if it has one.
    pub content_start: Option<u32>,
}

/// A top-level node; text, a doctype and a processing instruction come
/// with their byte span.
#[derive(Clone, Debug, PartialEq, Eq)]
pub enum HtmlNode {
    Text(String, u32, u32),
    Element(HtmlElement),
    Comment,
    Doctype(u32, u32),
    ProcessingInstruction(u32, u32),
}

/// An attribute: its byte span and its value, as written (quotes kept),
/// with the value's span.
#[derive(Clone, Debug, PartialEq, Eq)]
pub struct HtmlAttribute {
    pub start: u32,
    pub end: u32,
    pub value: Option<HtmlAttributeValue>,
}

/// An attribute value as written, with its byte span.
#[derive(Clone, Debug, PartialEq, Eq)]
pub struct HtmlAttributeValue {
    pub text: String,
    pub start: u32,
    pub end: u32,
}

/// A descendant element: its tag and the byte span of its tag name.
#[derive(Clone, Debug, PartialEq, Eq)]
pub struct HtmlTag {
    pub tag: String,
    pub start: u32,
    pub end: u32,
}

/// The parse errors that `tagsoup::Document::parse` reports for `source`.
pub uninterp spec fn html_errors_of(source: Seq<char>) -> Seq<HtmlError>;

/// The top-level nodes of `Document::parse(source)`.
pub uninterp spec fn html_nodes_of(source: Seq<char>) -> Seq<HtmlNode>;

/// What `Element::get_attribute(key)` finds on the top-level node `index`.
pub uninterp spec fn html_attribute_of(source: Seq<char>, index: int, key: Seq<char>) -> Option<HtmlAttribute>;

/// What `Element::text_content` returns for the top-level node `index`.
pub uninterp spec fn html_text_content_of(source: Seq<char>, index: int) -> Seq<char>;

/// The elements below the top-level node `index`, in the depth-first order
/// of `Element::visit`.
pub uninterp spec fn html_descendants_of(source: Seq<char>, index: int) -> Seq<HtmlTag>;

/// What `SourceSpan::resolve` gives for a byte span of `source`: start line,
/// start column, end line and end column (lines one-indexed, columns
/// zero-indexed).
pub uninterp spec fn span_resolution(source: Seq<char>, start: u32, end: u32) -> Option<(u32, u32, u32, u32)>;

/// Parses `source` with tagsoup and returns its parse errors.
#[verifier::external_body]
pub(crate) fn html_errors(source: &str) -> (r: Vec<HtmlError>)
    ensures
        r@ == html_errors_of(source@),
{
    Document::parse(source).errors.iter().map(|e| HtmlError {
        start: e.span.start,
        end: e.span.end,
        message: e.kind.as_str().to_string(),
    }).collect()
}

/// Parses `source` with tagsoup and returns its top-level nodes.
#[verifier::external_body]
pub(crate) fn html_nodes(source: &str) -> (r: Vec<HtmlNode>)
    ensures
        r@ == html_nodes_of(source@),
{
    Document::parse(source).children.iter().map(|node| match node {
        Node::Text(t) => Text(t.text.to_string(), t.span.start, t.span.end),
        Node::Element(e) => Element(HtmlElement {
            tag: e.tag.to_string(), id: e.id.map(str::to_string), start: e.span.start, end: e.span.end,
            tag_start: e.tag_span.start, tag_end: e.tag_span.end, content_start: e.children.first().map(|c| c.span().start),
        }),
        Node::Doctype(d) => Doctype(d.span.start, d.span.end),
        Node::ProcessingInstruction(p) => ProcessingInstruction(p.span.start, p.span.end),
        _ => Comment,
    }).collect()
}

/// `Element::get_attribute` on the top-level node `index` of `source`
/// (`None` where that node is not an element).
#[verifier::external_body]
pub(crate) fn html_attribute(source: &str, index: usize, key: &str) -> (r: Option<HtmlAttribute>)
    ensures
        r == html_attribute_of(source@, index as int, key@),
{
    match Document::parse(source).children.get(index) {
        Some(tagsoup::Node::Element(e)) => e.get_attribute(key).map(|a| HtmlAttribute {
            start: a.span.start,
            end: a.span.end,
            value: a.value.as_ref().map(|v| HtmlAttributeValue { text: v.value.to_string(), start: v.span.start, end: v.span.end }),
        }),
        _ => None,
    }
}

/// `Element::text_content` of the top-level node `index` of `source`,
/// which must be a `script` or `style` element: their text is copied as it
/// stands, while the entity decoding of other elements can panic on text
/// that tagsoup slices inside a character.
#[verifier::external_body]
pub(crate) fn html_text_content(source: &str, index: usize) -> (r: String)
    requires
        index < html_nodes_of(source@).len(),
        html_nodes_of(source@)[index as int] matches HtmlNode::Element(el) && (eq_ignore_case_spec(
            el.tag@,
            "SCRIPT"@,
        ) || eq_ignore_case_spec(el.tag@, "STYLE"@)),
    ensures
        r@ == html_text_content_of(source@, index as int),
{
    match Document::parse(source).children.get(index) {
        Some(tagsoup::Node::Element(e)) => e.text_content(),
        _ => String::new(),
    }
}

/// The elements below the top-level node `index` of `source`, as
/// `Element::visit` walks them.
#[verifier::external_body]
pub(crate) fn html_descendants(source: &str, index: usize) -> (r: Vec<HtmlTag>)
    ensures
        r@ == html_descendants_of(source@, index as int),
{
    let mut tags = Vec::new();
    if let Some(tagsoup::Node::Element(e)) = Document::parse(source).children.get(index) {
        e.visit(|_, d| { tags.push(HtmlTag { tag: d.tag.to_string(), start: d.tag_span.start, end: d.tag_span.end }); tagsoup::VisitControl::Descend });
    }
    tags
}

/// `SourceSpan::resolve` for a span that lies on character boundaries of
/// `source`.
#[verifier::external_body]
pub(crate) fn resolve_span(source: &str, start: u32, end: u32) -> (r: Option<(u32, u32, u32, u32)>)
    requires
        start <= end,
        end as int <= vstd::utf8::encode_utf8(source@).len(),
        vstd::utf8::is_char_boundary(vstd::utf8::encode_utf8(source@), start as int),
        vstd::utf8::is_char_boundary(vstd::utf8::encode_utf8(source@), end as int),
    ensures
        r == span_resolution(source@, start, end),
{
    tagsoup::SourceSpan { start, end }.resolve(source).map(|r| (r.start_line, r.start_column, r.end_line, r.end_column))
}

/// `AttributeValue::value_raw`: the value without one pair of matching outer
/// quotes.
pub open spec fn unquoted_spec(s: Seq<char>) -> Seq<char> {
    if s.len() >= 2 && ((s[0] == '"' && s.last() == '"') || (s[0] == '\'' && s.last() == '\'')) {
        s.subrange(1, s.len() - 1)
    } else {
        s
    }
}

pub fn unquoted(s: &str) -> (r: String)
    ensures
        r@ == unquoted_spec(s@),
{
    let v = chars_of(s);
    let n = v.len();
    if n >= 2 && ((v[0] == '"' && v[n - 1] == '"') || (v[0] == '\'' && v[n - 1] == '\'')) {
        string_of_range(v.as_slice(), 1, n - 1)
    } else {
        assert(v@.subrange(0, n as int) == v@);
        string_of_range(v.as_slice(), 0, n)
    }
}

/// `str::eq_ignore_ascii_case`.
pub open spec fn eq_ignore_case_spec(a: Seq<char>, b: Seq<char>) -> bool {
    a.len() == b.len() && forall|i: int| 0 <= i < a.len() ==> #[trigger] lower_spec(a[i]) == lower_spec(b[i])
}

pub fn eq_ignore_ascii_case(a: &str, b: &str) -> (r: bool)
    ensures
        r == eq_ignore_case_spec(a@, b@),
{
    let va = chars_of(a);
    let vb = chars_of(b);
    if va.len() != vb.len() {
        return false;
    }
    let mut i: usize = 0;
    while i < va.len()
        invariant
            va@ == a@,
            vb@ == b@,
            va@.len() == vb@.len(),
            i <= va@.len(),
            forall|j: int| 0 <= j < i ==> #[trigger] lower_spec(va@[j]) == lower_spec(vb@[j]),
        decreases va.len() - i,
    {
        if ascii_lower(va[i]) != ascii_lower(vb[i]) {
            return false;
        }
        i = i + 1;
    }
    true
}

/// `str::to_ascii_lowercase`.
pub fn to_ascii_lowercase(s: &str) -> (r: String)
    ensures
        r@ == s@.map_values(|c: char| lower_spec(c)),
{
    let v = chars_of(s);
    let mut r = String::new();
    let mut i: usize = 0;
    while i < v.len()
        invariant
            v@ == s@,
            i <= v@.len(),
            r@ =~= v@.take(i as int).map_values(|c: char| lower_spec(c)),
        decreases v.len() - i,
    {
        push_char(&mut r, ascii_lower(v[i]));
        i = i + 1;
    }
    assert(v@.take(v@.len() as int) == v@);
    r
}

/// The text `source[start..end]`, where the byte range lies on character
/// boundaries.
pub open spec fn byte_range_ok(source: Seq<u8>, start: int, end: int) -> bool {
    &&& 0 <= start <= end <= source.len()
    &&& vstd::utf8::is_char_boundary(source, start)
    &&& vstd::utf8::is_char_boundary(source.skip(start), end - start)
}

/// `&source[start..end]`, or `None` where that slice would panic.
pub fn byte_slice(source: &str, start: usize, end: usize) -> (r: Option<&str>)
    ensures
        r is Some <==> byte_range_ok(vstd::utf8::encode_utf8(source@), start as int, end as int),
        r matches Some(t) ==> vstd::utf8::encode_utf8(t@) == vstd::utf8::encode_utf8(source@).subrange(start as int, end as int),
{
    let n = source.as_bytes().len();
    if start > end || end > n || !source.is_char_boundary(start) {
        return None;
    }
    let (_, rest) = source.split_at(start);
    assert(vstd::utf8::encode_utf8(rest@) == vstd::utf8::encode_utf8(source@).skip(start as int));
    if !rest.is_char_boundary(end - start) {
        return None;
    }
    let (piece, _) = rest.split_at(end - start);
    assert(vstd::utf8::encode_utf8(piece@) =~= vstd::utf8::encode_utf8(source@).subrange(start as int, end as int));
    Some(piece)
}

} // verus!

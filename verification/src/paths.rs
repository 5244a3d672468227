//! File system paths, held as text.  What `std::path` computes on them is
//! reached through the wrappers below; their results are named, since they
//! follow the platform's path rules.
use vstd::prelude::*;

verus! {

/// One component of a path, as `Path::components` yields it.
#[derive(Clone, Debug, PartialEq, Eq)]
pub enum PathPart {
    Prefix,
    RootDir,
    CurDir,
    ParentDir,
    Normal(String),
}

/// What `Path::parent` returns for `path`.
pub uninterp spec fn path_parent_of(path: Seq<char>) -> Option<Seq<char>>;

/// What `Path::join` returns for `base` and `rel`.
pub uninterp spec fn path_joined(base: Seq<char>, rel: Seq<char>) -> Seq<char>;

/// What `Path::is_absolute` returns for `path`.
pub uninterp spec fn path_absolute(path: Seq<char>) -> bool;

/// What `==` on two `Path`s returns.
pub uninterp spec fn paths_equal(a: Seq<char>, b: Seq<char>) -> bool;

/// What `Path::strip_prefix` returns.
pub uninterp spec fn path_stripped(path: Seq<char>, prefix: Seq<char>) -> Option<Seq<char>>;

/// What `Path::components` yields for `path`.
pub uninterp spec fn path_parts_of(path: Seq<char>) -> Seq<PathPart>;

/// What `Path::iter` yields for `path`: the text of each component.
pub uninterp spec fn path_texts_of(path: Seq<char>) -> Seq<Seq<char>>;

/// The view of an optional string.
pub open spec fn opt_view(o: Option<String>) -> Option<Seq<char>> {
    match o {
        Some(s) => Some(s@),
        None => None,
    }
}

/// `Path::parent`: the path without its final component, or `None` for a
/// root or an empty path.
#[verifier::external_body]
pub(crate) fn path_parent(path: &str) -> (r: Option<String>)
    ensures
        opt_view(r) == path_parent_of(path@),
{
    std::path::Path::new(path).parent().map(|p| p.to_string_lossy().into_owned())
}

/// `Path::join`: `rel` appended to `base`; an absolute `rel` replaces `base`.
#[verifier::external_body]
pub(crate) fn path_join(base: &str, rel: &str) -> (r: String)
    ensures
        r@ == path_joined(base@, rel@),
        path_absolute(rel@) ==> r@ == rel@,
{
    std::path::Path::new(base).join(rel).to_string_lossy().into_owned()
}

/// `Path::is_absolute`.
#[verifier::external_body]
pub(crate) fn path_is_absolute(path: &str) -> (b: bool)
    ensures
        b == path_absolute(path@),
{
    std::path::Path::new(path).is_absolute()
}

/// `==` on `Path`s, which compares their components.
#[verifier::external_body]
pub(crate) fn path_eq(a: &str, b: &str) -> (r: bool)
    ensures
        r == paths_equal(a@, b@),
{
    std::path::Path::new(a) == std::path::Path::new(b)
}

/// `Path::strip_prefix`.
#[verifier::external_body]
pub(crate) fn path_strip_prefix(path: &str, prefix: &str) -> (r: Option<String>)
    ensures
        opt_view(r) == path_stripped(path@, prefix@),
{
    std::path::Path::new(path).strip_prefix(prefix).ok().map(|p| p.to_string_lossy().into_owned())
}

/// `Path::components`.
#[verifier::external_body]
pub(crate) fn path_components(path: &str) -> (r: Vec<PathPart>)
    ensures
        r@ == path_parts_of(path@),
{
    std::path::Path::new(path).components().map(|c| match c {
        std::path::Component::Prefix(_) => PathPart::Prefix,
        std::path::Component::RootDir => PathPart::RootDir,
        std::path::Component::CurDir => PathPart::CurDir,
        std::path::Component::ParentDir => PathPart::ParentDir,
        std::path::Component::Normal(n) => PathPart::Normal(n.to_string_lossy().into_owned()),
    }).collect()
}

/// `Path::iter`: the text of each component of `path`.
#[verifier::external_body]
pub(crate) fn path_texts(path: &str) -> (r: Vec<String>)
    ensures
        r@.map_values(|t: String| t@) == path_texts_of(path@),
{
    std::path::Path::new(path).iter().map(|t| t.to_string_lossy().into_owned()).collect()
}

} // verus!

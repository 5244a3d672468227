//! Components: the `.vue`, `.vue.js` and `.vue.css` files of a project.
use vstd::prelude::*;
use crate::js::{extract_imports, extracted_spec, import_view, ScriptImport};
use crate::log::{logged_message, LogEntry, LogLevel, Logger};
use crate::text::owned;
use crate::vue::{problems_logged, vue_component, vue_problems};

verus! {

broadcast use vstd::string::group_string_axioms;

/// A byte span in a component's source.
#[derive(Copy, Clone, Debug, PartialEq, Eq)]
pub struct SourceSpan {
    pub start: u32,
    pub end: u32,
}

/// A custom element that a template uses, with the span of its first use.
#[derive(Clone, Debug, PartialEq, Eq)]
pub struct UsedCustomTag {
    pub tag: String,
    pub span: SourceSpan,
}

/// A component import: `<link rel="component" href="..." [dynamic]>`.
#[derive(Clone, Debug, PartialEq, Eq)]
pub struct Link {
    /// The imported file, relative to the project root.
    pub href: String,
    /// The import is referenced through `<component :is>` and need not
    /// appear as a custom element.
    pub dynamic: bool,
}

/// A parsed component file.
#[derive(Clone, Debug)]
pub struct Component {
    pub path: String,
    pub source: String,
    pub links: Vec<Link>,
    pub imports: Vec<ScriptImport>,
    /// The custom element that the component defines (its root's id).
    pub custom_tag: Option<String>,
    /// The custom elements that its template uses, sorted by tag.
    pub used_custom_tags: Vec<UsedCustomTag>,
    pub template: Option<String>,
    pub script: Option<String>,
    /// The line of the source that the script starts on.
    pub script_source_line: Option<usize>,
    pub style: Option<String>,
}

impl Component {
    /// The component's imports of other components.
    pub fn component_links(&self) -> (r: &Vec<Link>)
        ensures
            r@ == self.links@,
    {
        &self.links
    }
}

/// `s` ends with `suffix`.
pub open spec fn ends_with(s: Seq<char>, suffix: Seq<char>) -> bool {
    suffix.len() <= s.len() && s.skip(s.len() - suffix.len()) == suffix
}

pub fn str_ends_with(s: &str, suffix: &str) -> (b: bool)
    ensures
        b == ends_with(s@, suffix@),
{
    let v = crate::text::chars_of(s);
    let w = crate::text::chars_of(suffix);
    if w.len() > v.len() {
        return false;
    }
    let r = crate::text::range_eq(v.as_slice(), v.len() - w.len(), v.len(), w.as_slice());
    assert(v@.subrange(v@.len() - w@.len(), v@.len() as int) == v@.skip(v@.len() - w@.len()));
    r
}

/// A `.vue.js` helper: a script whose imports are lifted out.
pub fn parse_component_js(component_path: &str, source: &str) -> (r: Option<Component>)
    ensures
        r matches Some(c) && {
            &&& c.path@ == component_path@
            &&& c.source@ == source@
            &&& c.links@.len() == 0
            &&& c.imports@.map_values(|i: ScriptImport| import_view(i)) == extracted_spec(source@, 1).0
            &&& c.custom_tag is None
            &&& c.used_custom_tags@.len() == 0
            &&& c.template is None
            &&& c.script matches Some(s) && s@ == extracted_spec(source@, 1).1
            &&& c.script_source_line == Some(1usize)
            &&& c.style is None
        },
{
    let (imports, script) = extract_imports(source, 1);
    Some(Component {
        path: owned(component_path),
        source: owned(source),
        links: Vec::new(),
        imports,
        custom_tag: None,
        used_custom_tags: Vec::new(),
        template: None,
        script: Some(script),
        script_source_line: Some(1),
        style: None,
    })
}

/// A `.vue.css` file: a style sheet.
pub fn parse_component_css(component_path: &str, source: &str) -> (r: Option<Component>)
    ensures
        r matches Some(c) && {
            &&& c.path@ == component_path@
            &&& c.source@ == source@
            &&& c.links@.len() == 0
            &&& c.imports@.len() == 0
            &&& c.custom_tag is None
            &&& c.used_custom_tags@.len() == 0
            &&& c.template is None
            &&& c.script is None
            &&& c.script_source_line is None
            &&& c.style matches Some(s) && s@ == source@
        },
{
    Some(Component {
        path: owned(component_path),
        source: owned(source),
        links: Vec::new(),
        imports: Vec::new(),
        custom_tag: None,
        used_custom_tags: Vec::new(),
        template: None,
        script: None,
        script_source_line: None,
        style: Some(owned(source)),
    })
}


/// `c` is the `.vue.js` helper at `path`.
pub open spec fn js_component(c: Component, path: Seq<char>, source: Seq<char>) -> bool {
    &&& c.path@ == path
    &&& c.source@ == source
    &&& c.links@.len() == 0
    &&& c.imports@.map_values(|i: ScriptImport| import_view(i)) == extracted_spec(source, 1).0
    &&& c.custom_tag is None
    &&& c.used_custom_tags@.len() == 0
    &&& c.template is None
    &&& c.script matches Some(s) && s@ == extracted_spec(source, 1).1
    &&& c.script_source_line == Some(1usize)
    &&& c.style is None
}

/// `c` is the `.vue.css` style sheet at `path`.
pub open spec fn css_component(c: Component, path: Seq<char>, source: Seq<char>) -> bool {
    &&& c.path@ == path
    &&& c.source@ == source
    &&& c.links@.len() == 0
    &&& c.imports@.len() == 0
    &&& c.custom_tag is None
    &&& c.used_custom_tags@.len() == 0
    &&& c.template is None
    &&& c.script is None
    &&& c.script_source_line is None
    &&& c.style matches Some(s) && s@ == source
}

/// The message about a file that is no component.
pub open spec fn unsupported_message(path: Seq<char>) -> Seq<char> {
    "Unsupported component file type for \""@ + path + "\"."@
}

impl Component {
    /// Parses the component file at `path` by its suffix: `.vue`, `.vue.js`
    /// or `.vue.css`; other files are reported and give `None`.
    pub fn parse(log: &mut Logger, path: &str, text: &str) -> (r: Option<Component>)
        ensures
            final(log).spec_format() == old(log).spec_format(),
            final(log).entries().take(old(log).entries().len() as int) == old(log).entries(),
            final(log).entries().len() >= old(log).entries().len(),
            ends_with(path@, ".vue"@) ==> {
                &&& r matches Some(c) && vue_component(c, path@, text@)
                &&& problems_logged(final(log).entries().skip(old(log).entries().len() as int), vue_problems(path@, text@), path@, text@)
            },
            !ends_with(path@, ".vue"@) && ends_with(path@, ".vue.js"@) ==> {
                &&& r matches Some(c) && js_component(c, path@, text@)
                &&& final(log).entries() == old(log).entries()
            },
            !ends_with(path@, ".vue"@) && !ends_with(path@, ".vue.js"@) && ends_with(path@, ".vue.css"@) ==> {
                &&& r matches Some(c) && css_component(c, path@, text@)
                &&& final(log).entries() == old(log).entries()
            },
            !ends_with(path@, ".vue"@) && !ends_with(path@, ".vue.js"@) && !ends_with(path@, ".vue.css"@) ==> {
                &&& r is None
                &&& final(log).entries().len() == old(log).entries().len() + 1
                &&& crate::config::plain_entry(final(log).entries().last(), LogLevel::Error, unsupported_message(path@),
                    "Use .vue, .vue.js, or .vue.css files for components."@)
            },
    {
        if str_ends_with(path, ".vue") {
            crate::vue::parse(log, path, text)
        } else if str_ends_with(path, ".vue.js") {
            let r = parse_component_js(path, text);
            proof {
                assert(log.entries().take(log.entries().len() as int) =~= log.entries());
            }
            r
        } else if str_ends_with(path, ".vue.css") {
            let r = parse_component_css(path, text);
            proof {
                assert(log.entries().take(log.entries().len() as int) =~= log.entries());
            }
            r
        } else {
            let mut m = owned("Unsupported component file type for \"");
            m.append(path);
            m.append("\".");
            let entry = LogEntry { level: LogLevel::Error, span: None, message: m, note: Some("Use .vue, .vue.js, or .vue.css files for components.") };
            log.log(None, entry);
            proof {
                assert(log.entries().take(old(log).entries().len() as int) =~= old(log).entries());
            }
            None
        }
    }
}

} // verus!

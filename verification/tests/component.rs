use vue_script::component::Component;
use vue_script::log::Logger;

#[test]
fn warns_when_component_root_is_missing_id() {
    let mut log = Logger::new();
    let component = Component::parse(
        &mut log,
        "src/build/tests/missing_root_id.vue",
        "<template><example-child></example-child></template>\n",
    )
    .unwrap();

    assert_eq!(component.custom_tag, None);
    assert_eq!(component.used_custom_tags.len(), 1);
    assert_eq!(component.used_custom_tags[0].tag, "example-child");
    assert_eq!(log.error_count(), 0);
    assert_eq!(log.warning_count(), 1);
}

#[test]
fn allows_top_level_comments_and_whitespace() {
    let mut log = Logger::new();
    let component = Component::parse(
        &mut log,
        "src/build/tests/allows_top_level_comments_and_whitespace.vue",
        "\n<!-- leading comment -->\n<link rel=\"component\" href=\"components/child.vue\">\n<!-- between blocks -->\n<script>\nimport helper from './helper.js';\nconsole.log(helper);\n</script>\n\n<template><div>Hello</div></template>\n<!-- trailing comment -->\n<style>\ndiv { color: red; }\n</style>\n",
    )
    .unwrap();

    let links: Vec<&str> = component.links.iter().map(|link| link.href.as_str()).collect();
    assert_eq!(links, vec!["src/build/tests/components/child.vue"]);
    let imports: Vec<&str> = component.imports.iter().map(|import| import.text.as_str()).collect();
    assert_eq!(imports, vec!["import helper from './helper.js';\n"]);
    assert!(component.script.as_deref().unwrap().contains("console.log(helper);"));
    assert_eq!(component.template.as_deref(), Some("<template><div>Hello</div></template>"));
    assert!(component.style.as_deref().unwrap().contains("div { color: red; }"));
}

#[test]
fn rejects_non_whitespace_top_level_text() {
    let mut log = Logger::new();
    Component::parse(
        &mut log,
        "src/build/tests/rejects_non_whitespace_top_level_text.vue",
        "hello\n<template><div>Hello</div></template>\n",
    );
    assert!(!log.finished(), "non-whitespace top level text should be reported as an error");
}

#[test]
fn parses_vue_shorthand_attributes_in_template_roots() {
    let mut log = Logger::new();
    let component = Component::parse(
        &mut log,
        "src/build/tests/parses_vue_shorthand_attributes_in_template_roots.vue",
        "<script>\nconsole.log('ok');\n</script>\n<div id=\"app\" class=\"app-main\" @drop=\"dropFile\" @dragenter=\"\">\n\t<app-viewer v-if=\"reader != null\" :reader=\"reader\" @set-status=\"setStatusLine\"></app-viewer>\n\t<div class=\"footer\">{{ status }}</div>\n</div>\n<style>\n.app-main { color: red; }\n</style>\n",
    )
    .unwrap();

    let template = component.template.as_deref().expect("template should be present");
    assert!(template.contains("@drop=\"dropFile\""));
    assert!(template.contains("@dragenter=\"\""));
    assert!(template.contains(":reader=\"reader\""));
    assert!(template.contains("@set-status=\"setStatusLine\""));
    assert!(template.contains("<app-viewer"));
}

#[test]
fn parses_helper_scripts_and_style_sheets_by_suffix() {
    let mut log = Logger::new();
    let helper = Component::parse(&mut log, "app/helper.vue.js", "import a from './a.js';\nconst answer = 42;\n").unwrap();
    assert_eq!(helper.imports.len(), 1);
    assert_eq!(helper.imports[0].text, "import a from './a.js';\n");
    assert_eq!(helper.imports[0].source_line, 1);
    assert_eq!(helper.script_source_line, Some(1));
    assert!(helper.script.as_deref().unwrap().contains("const answer = 42;"));

    let sheet = Component::parse(&mut log, "app/look.vue.css", ".a { color: red; }").unwrap();
    assert_eq!(sheet.style.as_deref(), Some(".a { color: red; }"));
    assert!(sheet.script.is_none());
    assert!(log.finished());

    assert!(Component::parse(&mut log, "app/page.html", "<p></p>").is_none());
    assert_eq!(log.error_count(), 1);
    assert_eq!(log.diagnostics()[0].message, "Unsupported component file type for \"app/page.html\".");
}

#[test]
fn reports_links_that_climb_above_the_project_root() {
    let mut log = Logger::new();
    let component = Component::parse(
        &mut log,
        "app/main.vue",
        "<link rel=\"component\" href=\"../../outside.vue\">\n<div id=\"main-app\"></div>\n",
    )
    .unwrap();
    assert!(component.links.is_empty());
    assert_eq!(log.error_count(), 1);
    assert_eq!(component.custom_tag.as_deref(), Some("main-app"));
}

#[test]
fn used_custom_elements_are_sorted_once_each_with_their_first_use() {
    let mut log = Logger::new();
    let source = "<div id=\"main-app\">\n<z-item></z-item>\n<a-item></a-item>\n<z-item></z-item>\n<p></p>\n</div>\n";
    let component = Component::parse(&mut log, "app/main.vue", source).unwrap();
    let tags: Vec<&str> = component.used_custom_tags.iter().map(|used| used.tag.as_str()).collect();
    assert_eq!(tags, vec!["a-item", "z-item"]);
    let first_z = source.find("z-item").unwrap() as u32;
    assert_eq!(component.used_custom_tags[1].span.start, first_z);
    assert_eq!(component.custom_tag.as_deref(), Some("main-app"));
}

#[test]
fn parses_valid_vue_fragment() {
    let mut log = Logger::new();
    let component = Component::parse(
        &mut log,
        "src/build/tests/parses_valid_vue_fragment.vue",
        "<link rel=\"component\" href=\"components/child.vue\">\n<script>\nimport { createApp } from 'vue';\nconsole.log(createApp);\n</script>\n<template>\n\t<div>Hello</div>\n</template>\n<style>\ndiv { color: red; }\n</style>\n",
    )
    .unwrap();

    assert_eq!(component.path, "src/build/tests/parses_valid_vue_fragment.vue");
    let links: Vec<&str> = component.links.iter().map(|link| link.href.as_str()).collect();
    assert_eq!(links, vec!["src/build/tests/components/child.vue"]);
    let imports: Vec<&str> = component.imports.iter().map(|import| import.text.as_str()).collect();
    assert_eq!(imports, vec!["import { createApp } from 'vue';\n"]);
    assert_eq!(component.custom_tag, None);
    assert!(component.script.as_deref().unwrap().contains("console.log"));
    assert!(!component.script.as_deref().unwrap().contains("import { createApp } from 'vue';"));
    assert!(component.template.as_deref().unwrap().starts_with("<template>"));
    assert!(component.style.as_deref().unwrap().contains("div { color: red; }"));
    assert!(!component.style.as_deref().unwrap().contains("<style>"));
}

#[test]
fn normalizes_component_use_paths() {
    let mut log = Logger::new();
    let component = Component::parse(
        &mut log,
        "src/build/tests/normalizes_component_use_paths.vue",
        "<link rel=\"component\" href=\"./components/../../child.vue\">\n<div id=\"normalized\"></div>\n",
    )
    .unwrap();

    let links: Vec<&str> = component.links.iter().map(|link| link.href.as_str()).collect();
    assert_eq!(links, vec!["src/build/child.vue"]);
}

#[test]
fn extracts_multiple_import_lines_from_script_contents() {
    let mut log = Logger::new();
    let component = Component::parse(
        &mut log,
        "src/build/tests/extracts_multiple_import_lines_from_script_contents.vue",
        "<link rel=\"component\" href=\"components/child.vue\">\n<link rel=\"component\" href=\"components/sibling.vue\">\n<script>\nimport { createApp } from 'vue';\nimport helper from './helper.js';\nconsole.log(\"ok\");\n</script>\n",
    )
    .unwrap();

    let links: Vec<&str> = component.links.iter().map(|link| link.href.as_str()).collect();
    assert_eq!(links, vec!["src/build/tests/components/child.vue", "src/build/tests/components/sibling.vue"]);
    let imports: Vec<&str> = component.imports.iter().map(|import| import.text.as_str()).collect();
    assert_eq!(imports, vec!["import { createApp } from 'vue';\n", "import helper from './helper.js';\n"]);
    assert_eq!(component.script.as_deref().unwrap().trim(), "console.log(\"ok\");");
}

#[test]
fn rejects_component_use_paths_above_root() {
    let mut log = Logger::new();
    let _component = Component::parse(
        &mut log,
        "src/build/tests/rejects_component_use_paths_above_root.vue",
        "<link rel=\"component\" href=\"../../../../outside.vue\">\n<div id=\"above-root\"></div>\n",
    )
    .unwrap();
    assert!(!log.finished(), "component use paths above root should be reported as an error");
}

#[test]
fn rejects_non_component_links() {
    let mut log = Logger::new();
    let _component = Component::parse(
        &mut log,
        "src/build/tests/ignores_non_component_links.vue",
        "<link rel=\"stylesheet\" href=\"style.css\">\n<div id=\"plain-link\"></div>\n",
    )
    .unwrap();
    assert!(!log.finished(), "non-component links should be reported as an error");
}

#[test]
fn rejects_component_links_without_href() {
    let mut log = Logger::new();
    let _component = Component::parse(
        &mut log,
        "src/build/tests/rejects_component_links_without_href.vue",
        "<link rel=\"component\">\n<div id=\"no-href\"></div>\n",
    )
    .unwrap();
    assert!(!log.finished(), "component links without href should be reported as an error");
}

#[test]
fn extracts_import_lines_from_vue_js_helpers() {
    let mut log = Logger::new();
    let component = Component::parse(
        &mut log,
        "src/build/tests/extracts_import_lines_from_vue_js_helpers.vue.js",
        "import helper from './helper.js';\n\nconst answer = 42;\n",
    )
    .unwrap();

    let imports: Vec<&str> = component.imports.iter().map(|import| import.text.as_str()).collect();
    assert_eq!(imports, vec!["import helper from './helper.js';\n"]);
    assert_eq!(component.script.as_deref().unwrap().trim(), "const answer = 42;");
}

#[test]
fn ignores_non_statement_import_prefixes() {
    let mut log = Logger::new();
    let component = Component::parse(
        &mut log,
        "src/build/tests/ignores_non_statement_import_prefixes.vue.js",
        "import{ named } from './helper.js';\nlet importedAt;\nimportedAt = Date.now();\nimport.meta.env;\nconst value = import('helper');\n",
    )
    .unwrap();

    let imports: Vec<&str> = component.imports.iter().map(|import| import.text.as_str()).collect();
    assert_eq!(imports, vec!["import{ named } from './helper.js';\n"]);
    assert!(component.script.as_deref().unwrap().contains("importedAt = Date.now();"));
    assert!(component.script.as_deref().unwrap().contains("import.meta.env;"));
    assert!(component.script.as_deref().unwrap().contains("const value = import('helper');"));
}

#[test]
fn rejects_multiple_script_tags() {
    let mut log = Logger::new();
    let _component = Component::parse(
        &mut log,
        "src/build/tests/rejects_multiple_script_tags.vue",
        "<script>\nconsole.log('first');\n</script>\n<script>\nconsole.log('second');\n</script>\n",
    )
    .unwrap();
    assert!(!log.finished(), "multiple script tags should be reported as an error");
}

#[test]
fn rejects_template_and_div_together() {
    let mut log = Logger::new();
    let _component = Component::parse(
        &mut log,
        "src/build/tests/rejects_template_and_div_together.vue",
        "<template id=\"first-root\"><div>One</div></template>\n<div id=\"second-root\">Two</div>\n",
    )
    .unwrap();
    assert!(!log.finished(), "template and div together should be reported as an error");
}

#[test]
fn rejects_full_document() {
    let mut log = Logger::new();
    let _component = Component::parse(
        &mut log,
        "src/build/tests/rejects_full_document.vue",
        "<!DOCTYPE html>\n<html>\n<head><title>Page</title></head>\n<body><div id=\"app\"></div></body>\n</html>\n",
    )
    .unwrap();
    assert!(!log.finished(), "full document should be reported as an error");
}

#[test]
fn script_text_with_entities_is_kept_as_written() {
    let mut log = Logger::new();
    let component = Component::parse(
        &mut log,
        "app/entities.vue",
        "<script>\nconst s = '&aaaaaaaaaaaaaaaé &amp;';\n</script>\n<style>\n.x::after { content: '&lt;é'; }\n</style>\n",
    )
    .unwrap();
    assert_eq!(component.script.as_deref(), Some("\nconst s = '&aaaaaaaaaaaaaaaé &amp;';\n"));
    assert_eq!(component.style.as_deref(), Some("\n.x::after { content: '&lt;é'; }\n"));
    assert!(log.finished());
}

use vue_script::assemble::{
    find_source_span, render_page, render_scripts, render_styles, render_templates, replace, validate_components,
    ComponentQueue, LineMapping, MappedJavaScript, MappedJavaScriptWriter,
};
use vue_script::component::{Component, Link};
use vue_script::config::{Config, ConfigApp, ConfigCheck, ConfigServe, ConfigTarget};
use vue_script::js::ScriptImport;
use vue_script::log::{LogLevel, Logger};

fn component(path: &str, links: &[&str], imports: &[(&str, usize)], script: Option<(&str, usize)>) -> Component {
    Component {
        path: path.to_string(),
        source: String::new(),
        links: links.iter().map(|href| Link { href: href.to_string(), dynamic: false }).collect(),
        imports: imports
            .iter()
            .map(|(text, line)| ScriptImport { text: text.to_string(), source_line: *line, source_column_offset: 0 })
            .collect(),
        custom_tag: None,
        used_custom_tags: Vec::new(),
        template: None,
        script: script.map(|(text, _)| text.to_string()),
        script_source_line: script.map(|(_, line)| line),
        style: None,
    }
}

fn config(main: &str) -> Config {
    Config {
        path: "vue-script.toml".to_string(),
        app: ConfigApp { page: "app/page.html".to_string(), main: main.to_string() },
        target: ConfigTarget { path: None },
        check: ConfigCheck::default(),
        serve: ConfigServe::default(),
    }
}

#[test]
fn build_reports_missing_page_placeholders_without_filesystem() {
    let page = "<html>\n<head></head>\n<body>\n<div>No placeholders here</div>\n</body>\n</html>\n";
    let mut log = Logger::new();
    let with_scripts = replace(&mut log, "app/page.html", page, "<!-- SCRIPTS -->", "<script />");
    let with_styles = replace(&mut log, "app/page.html", &with_scripts, "<!-- STYLES -->", "<style />");
    let with_templates = replace(&mut log, "app/page.html", &with_styles, "<!-- TEMPLATES -->", "<div />");

    assert_eq!(with_templates, page, "page contents should be unchanged when placeholders are missing");
    assert!(!log.finished(), "missing placeholders should be reported as errors");
}

#[test]
fn renders_styles_in_single_tag() {
    let mut one = component("app/one.vue", &[], &[], None);
    one.style = Some(".one { color: red; }".to_string());
    let mut two = component("app/two.vue.css", &[], &[], None);
    two.style = Some(".two { color: blue; }".to_string());
    let components = vec![one, two];

    assert_eq!(render_styles(&components), "<style>\n.one { color: red; }\n.two { color: blue; }\n</style>");
}

#[test]
fn validates_direct_component_import_usage() {
    let mut log = Logger::new();
    let main_component = Component::parse(
        &mut log,
        "src/build/tests/validate_main.vue",
        "<link rel=\"component\" href=\"known-child.vue\">\n<link rel=\"component\" href=\"unused-child.vue\">\n<div id=\"validate-main\">\n	<known-child></known-child>\n	<missing-child></missing-child>\n</div>\n",
    )
    .unwrap();
    let known_child =
        Component::parse(&mut log, "src/build/tests/known-child.vue", "<div id=\"known-child\"></div>\n").unwrap();
    let unused_child =
        Component::parse(&mut log, "src/build/tests/unused-child.vue", "<div id=\"unused-child\"></div>\n").unwrap();

    assert_eq!(log.error_count(), 0);
    assert_eq!(log.warning_count(), 0);

    validate_components(&mut log, &[main_component, known_child, unused_child]);

    assert_eq!(log.error_count(), 1);
    assert_eq!(log.warning_count(), 1);
    assert!(log.has_errors());
    assert!(log.has_warnings());
}

#[test]
fn validation_messages_name_the_components_and_the_dynamic_flag_silences_the_warning() {
    let mut log = Logger::new();
    let main = Component::parse(
        &mut log,
        "app/main.vue",
        "<link rel=\"component\" href=\"page-a.vue\" dynamic>\n<link rel=\"component\" href=\"page-b.vue\">\n<div id=\"main-app\">\n\t<other-thing></other-thing>\n</div>\n",
    )
    .unwrap();
    let a = Component::parse(&mut log, "app/page-a.vue", "<div id=\"page-a\"></div>\n").unwrap();
    let b = Component::parse(&mut log, "app/page-b.vue", "<div id=\"page-b\"></div>\n").unwrap();
    assert!(log.finished());
    let before = log.diagnostics().len();

    validate_components(&mut log, &[main, a, b]);

    let diagnostics = &log.diagnostics()[before..];
    if diagnostics.len() != 2 {
        panic!("{:?}", diagnostics.iter().map(|d| d.message.clone()).collect::<Vec<_>>());
    }
    assert_eq!(diagnostics[0].level, LogLevel::Warn);
    assert_eq!(diagnostics[0].message, "Component \"app/main.vue\" imports \"app/page-b.vue\" but never uses <page-b>.");
    assert_eq!(diagnostics[1].level, LogLevel::Error);
    assert_eq!(diagnostics[1].message, "Component \"app/main.vue\" uses <other-thing> without a direct component import.");
    let span = diagnostics[1].span.as_ref().unwrap();
    assert_eq!(span.file, "app/main.vue");
    assert_eq!(span.line_start, 4);
    assert_eq!(span.column_start, 3);
}

#[test]
fn scripts_come_after_their_dependencies_and_imports_are_sorted_once() {
    let components = vec![
        component("app/a.vue", &["app/c.vue"], &[], Some(("A();", 7))),
        component("app/main.vue", &["app/b.vue", "app/a.vue"], &[("import x from 'x';\n", 2)], Some(("M();", 3))),
        component("app/c.vue", &[], &[("import x from 'x';\n", 4), ("import a from 'a';\n", 5)], Some(("C();", 6))),
        component("app/b.vue", &[], &[], Some(("B();", 9))),
    ];
    let mut log = Logger::new();
    let js = render_scripts(&mut log, &config("app/main.vue"), &components);

    assert!(log.finished());
    assert_eq!(js.source, "import a from 'a';\nimport x from 'x';\n\nB();\nC();\nA();\nM();");
    assert_eq!(js.map_line(1), Some(("app/c.vue", 5)));
    assert_eq!(js.map_line(2), Some(("app/c.vue", 4)));
    assert_eq!(js.map_line(3), None);
    assert_eq!(js.map_line(4), Some(("app/b.vue", 9)));
    assert_eq!(js.map_line(6), Some(("app/a.vue", 7)));
    assert_eq!(js.map_position(7, 2), Some(("app/main.vue", 3, 2)));
}

#[test]
fn import_cycles_are_reported() {
    let components = vec![
        component("app/main.vue", &["app/a.vue"], &[], Some(("M();", 1))),
        component("app/a.vue", &["app/main.vue"], &[], Some(("A();", 1))),
    ];
    let mut log = Logger::new();
    let js = render_scripts(&mut log, &config("app/main.vue"), &components);

    assert!(!js.source.is_empty(), "rendered script output should still be produced for inspection");
    assert_eq!(log.error_count(), 1);
    assert_eq!(
        log.diagnostics()[0].message,
        "Component import cycle detected: \"app/a.vue\" recursively depends on \"app/main.vue\"."
    );
    assert_eq!(js.source, "\nA();\nM();");
}

#[test]
fn missing_components_are_reported() {
    let components = vec![component("app/main.vue", &["app/missing.vue"], &[], Some(("M();", 1)))];
    let mut log = Logger::new();
    render_scripts(&mut log, &config("app/main.vue"), &components);
    assert_eq!(log.error_count(), 1);
    assert_eq!(log.diagnostics()[0].message, "Component \"app/main.vue\" imports missing component \"app/missing.vue\".");

    let mut log = Logger::new();
    let js = render_scripts(&mut log, &config("app/nowhere.vue"), &components);
    assert_eq!(log.diagnostics()[0].message, "Missing root component \"app/nowhere.vue\".");
    assert!(log.diagnostics()[0].span.is_none());
    assert_eq!(js.source, "\n");
}

#[test]
fn source_spans_locate_the_first_occurrence() {
    let span = find_source_span("page.html", "ab\ncd needle needle", "needle").unwrap();
    assert_eq!((span.line_start, span.line_end, span.column_start, span.column_end), (2, 2, 3, 9));
    let empty = find_source_span("page.html", "xyz", "").unwrap();
    assert_eq!((empty.line_start, empty.column_start, empty.column_end), (1, 0, 1));
    assert!(find_source_span("page.html", "xyz", "q").is_none());
}

#[test]
fn missing_placeholders_are_reported_at_the_body_end() {
    let mut log = Logger::new();
    let page = "<html>\n<body>\n</body>\n</html>\n";
    let out = replace(&mut log, "app/page.html", page, "<!-- STYLES -->", "x");
    assert_eq!(out, page);
    let d = &log.diagnostics()[0];
    assert_eq!(d.message, "Page template \"app/page.html\" is missing the required <!-- STYLES --> placeholder.");
    let span = d.span.as_ref().unwrap();
    assert_eq!((span.line_start, span.column_start, span.column_end), (3, 1, 8));
    assert_eq!(d.source_line.as_deref(), Some("</body>"));

    let mut log = Logger::new();
    assert_eq!(replace(&mut log, "p", "a<!-- X -->b<!-- X -->", "<!-- X -->", "Y"), "aYb<!-- X -->");
    assert!(log.diagnostics().is_empty());
}

#[test]
fn templates_are_joined_by_line_breaks() {
    let mut one = component("app/one.vue", &[], &[], None);
    one.template = Some("<template id=\"one\"></template>".to_string());
    let two = component("app/two.vue", &[], &[], None);
    let mut three = component("app/three.vue", &[], &[], None);
    three.template = Some("<div id=\"three\"></div>".to_string());
    assert_eq!(render_templates(&[one, two, three]), "<template id=\"one\"></template>\n<div id=\"three\"></div>");
    assert_eq!(render_templates(&[]), "");
}

#[test]
fn pages_are_assembled_from_their_placeholders() {
    let mut main = component("app/main.vue", &[], &[], Some(("M();", 2)));
    main.template = Some("<div id=\"main-app\"></div>".to_string());
    main.style = Some("p {}".to_string());
    let mut log = Logger::new();
    let compilation = render_page(
        &mut log,
        config("app/main.vue"),
        &[main],
        "<head><!-- STYLES --></head><body><!-- TEMPLATES --><!-- SCRIPTS --></body>",
    );
    assert!(log.finished());
    assert_eq!(compilation.javascript.source, "\nM();");
    assert_eq!(
        compilation.output,
        "<head><style>\np {}\n</style></head><body><div id=\"main-app\"></div><script type=\"module\">\n\nM();\n</script></body>"
    );
}

#[test]
fn writer_maps_each_pushed_line_back() {
    let mut writer = MappedJavaScriptWriter::new();
    assert_eq!(writer.current_line(), 1);
    writer.push_mapped("one\ntwo\n", "a.vue", 10, 4);
    writer.push_mapped("", "b.vue", 1, 0);
    writer.push_unmapped("\n");
    writer.push_mapped("three", "c.vue", 20, 0);
    assert_eq!(writer.current_line(), 4);
    let js = writer.finish();
    assert_eq!(js.source, "one\ntwo\n\nthree");
    assert_eq!(
        js.mappings,
        vec![
            LineMapping {
                generated_line_start: 1,
                generated_line_end: 2,
                source_file: "a.vue".to_string(),
                source_line_start: 10,
                source_column_offset: 4,
            },
            LineMapping {
                generated_line_start: 4,
                generated_line_end: 4,
                source_file: "c.vue".to_string(),
                source_line_start: 20,
                source_column_offset: 0,
            },
        ]
    );
    assert_eq!(js.map_line(2), Some(("a.vue", 11)));
    assert_eq!(js.map_position(1, 3), Some(("a.vue", 10, 7)));
    assert_eq!(js.map_line(3), None);
    let empty = MappedJavaScript { source: String::new(), mappings: Vec::new() };
    assert_eq!(empty.map_position(1, 1), None);
}

#[test]
fn components_are_read_in_sorted_order_once_each() {
    let mut queue = ComponentQueue::new("app/main.vue");
    assert_eq!(queue.next().as_deref(), Some("app/main.vue"));
    queue.add_links(&component("app/main.vue", &["app/z-last.vue", "app/a-first.vue", "app/main.vue"], &[], None));
    assert_eq!(queue.next().as_deref(), Some("app/a-first.vue"));
    queue.add_links(&component("app/a-first.vue", &["app/z-last.vue"], &[], None));
    assert_eq!(queue.next().as_deref(), Some("app/z-last.vue"));
    assert_eq!(queue.next(), None);
}

#[test]
fn build_reports_cycle_and_missing_import_without_filesystem() {
    let mut log = Logger::new();
    let main_component = Component::parse(
        &mut log,
        "src/build/tests/build_reports_cycle_and_missing_import_main.vue",
        "<link rel=\"component\" href=\"build_reports_cycle_and_missing_import_child.vue\">\n<link rel=\"component\" href=\"missing.vue\">\n<script>\nconsole.log('main');\n</script>\n<div id=\"cycle-main\"><cycle-child></cycle-child></div>\n",
    )
    .unwrap();
    let child_component = Component::parse(
        &mut log,
        "src/build/tests/build_reports_cycle_and_missing_import_child.vue",
        "<link rel=\"component\" href=\"build_reports_cycle_and_missing_import_main.vue\">\n<script>\nconsole.log('child');\n</script>\n<div id=\"cycle-child\"><cycle-main></cycle-main></div>\n",
    )
    .unwrap();
    let config = config("src/build/tests/build_reports_cycle_and_missing_import_main.vue");
    let mut log = Logger::new();
    let output = render_scripts(&mut log, &config, &[main_component, child_component]);

    assert!(!output.source.is_empty(), "rendered script output should still be produced for inspection");
    assert!(!log.finished(), "cycles and missing imports should be reported as errors");
}

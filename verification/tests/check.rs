use vue_script::assemble::{LineMapping, MappedJavaScript};
use vue_script::check::{
    check_target, checker_directory, checker_javascript, config_directory, display_source_path, parse_typescript_diagnostic,
    report_typescript_diagnostic, resolve_typescript_location, typescript_arguments, typescript_command,
    typescript_diagnostics, typescript_failure, TypeScriptDiagnostic, PRELUDE,
};
use vue_script::config::{Config, ConfigApp, ConfigCheck, ConfigServe, ConfigTarget};
use vue_script::log::{LogLevel, Logger, MessageFormat};

fn config_with_check(check: ConfigCheck) -> Config {
    Config {
        path: "/work/project/vue-script.toml".to_string(),
        app: ConfigApp { page: "app/page.html".to_string(), main: "app/main.vue".to_string() },
        target: ConfigTarget { path: Some("public/index.html".to_string()) },
        check,
        serve: ConfigServe::default(),
    }
}

#[test]
fn resolves_configured_typescript_paths_from_the_config_file() {
    let config_path = "/work/project/vue-script.toml";
    assert_eq!(typescript_command(config_path, None), "tsc");

    assert_eq!(
        typescript_command(config_path, Some("node_modules/.bin/tsc")),
        "/work/project/node_modules/.bin/tsc",
    );

    let absolute = "/tools/tsc";
    assert_eq!(typescript_command(config_path, Some(absolute)), absolute);
}

#[test]
fn parses_typescript_diagnostics_with_and_without_locations() {
    assert_eq!(
        parse_typescript_diagnostic("/tmp/check.js(12,7): error TS2322: Type 'number' is not assignable to type 'string'."),
        Some(TypeScriptDiagnostic {
            file: Some("/tmp/check.js".to_string()),
            line: Some(12),
            column: Some(7),
            level: LogLevel::Error,
            code: Some("TS2322".to_string()),
            message: "Type 'number' is not assignable to type 'string'.".to_string(),
        })
    );
    assert_eq!(
        parse_typescript_diagnostic("error TS5058: The specified path does not exist."),
        Some(TypeScriptDiagnostic {
            file: None,
            line: None,
            column: None,
            level: LogLevel::Error,
            code: Some("TS5058".to_string()),
            message: "The specified path does not exist.".to_string(),
        })
    );
}

#[test]
fn parses_paths_containing_parentheses() {
    let diagnostic = parse_typescript_diagnostic("/tmp/my (project)/check.js(2,4): warning TS1234: Message").unwrap();
    assert_eq!(diagnostic.file.as_deref(), Some("/tmp/my (project)/check.js"));
    assert_eq!(diagnostic.line, Some(2));
    assert_eq!(diagnostic.column, Some(4));
}

#[test]
fn resolves_relative_typescript_diagnostic_paths_from_the_checker_directory() {
    let displayed = display_source_path("feedback.js", "/work/project", "/work/project/public");

    assert_eq!(displayed, "public/feedback.js");
}

#[test]
fn rejects_malformed_diagnostic_lines() {
    assert_eq!(parse_typescript_diagnostic("hello"), None);
    assert_eq!(parse_typescript_diagnostic("notice TS1: x"), None);
    assert_eq!(parse_typescript_diagnostic("a.js(1,x): error TS1: y"), None);
    assert_eq!(parse_typescript_diagnostic("a.js(1;2): error TS1: y"), None);
    let d = parse_typescript_diagnostic("info: plain").unwrap();
    assert_eq!(d.level, LogLevel::Info);
    assert_eq!(d.code, None);
    assert_eq!(d.message, "plain");
    let d = parse_typescript_diagnostic("a.js(+3,4): warning: w").unwrap();
    assert_eq!(d.line, Some(3));
    assert_eq!(d.level, LogLevel::Warn);
}

#[test]
fn requires_an_explicit_typescript_target() {
    let config = config_with_check(ConfigCheck::default());
    let mut log = Logger::with_format(MessageFormat::Json);

    assert!(check_target(&mut log, &config).is_err());
    assert_eq!(log.error_count(), 1);
}

#[test]
fn checker_prelude_models_vue_instance_globals_and_constructor_props() {
    assert!(PRELUDE.contains("$el: any;"));
    assert!(PRELUDE.contains("$refs: Record<string, any>;"));
    assert!(PRELUDE.contains("$nextTick(callback?: () => void): Promise<void>;"));
    assert!(PRELUDE.contains("abstract new (...args: any[]) => infer I"));
}

#[test]
fn an_empty_target_is_refused_and_a_set_one_accepted() {
    let mut log = Logger::new();
    let empty = config_with_check(ConfigCheck { target: Some(String::new()), typescript: None });
    assert!(check_target(&mut log, &empty).is_err());
    assert_eq!(log.diagnostics()[0].message, "Missing required [check].target setting.");

    let mut log = Logger::new();
    let set = config_with_check(ConfigCheck { target: Some("es2022".to_string()), typescript: None });
    assert!(check_target(&mut log, &set).is_ok());
    assert!(log.diagnostics().is_empty());
}

#[test]
fn the_checker_runs_beside_the_target() {
    assert_eq!(checker_directory(&config_with_check(ConfigCheck::default())), "/work/project/public");
    let mut config = config_with_check(ConfigCheck::default());
    config.target.path = None;
    assert_eq!(checker_directory(&config), "/work/project");
}

#[test]
fn the_checked_script_is_a_module() {
    assert_eq!(checker_javascript("a();"), "a();\nexport {};\n");
    assert_eq!(checker_javascript("a();\n"), "a();\nexport {};\n");
    assert_eq!(checker_javascript(""), "\nexport {};\n");
}

#[test]
fn compiler_arguments_name_the_target_and_the_files() {
    let args = typescript_arguments("es2022", "p.d.ts", "c.js");
    assert_eq!(args.len(), 18);
    assert_eq!(args[9], "--target");
    assert_eq!(args[10], "es2022");
    assert_eq!(args[16], "p.d.ts");
    assert_eq!(args[17], "c.js");
}

#[test]
fn compiler_failures_without_diagnostics_are_described() {
    assert_eq!(typescript_failure(true, 0, "", "", "exit status: 0"), None);
    assert_eq!(typescript_failure(false, 2, "", "", "exit status: 2"), None);
    assert_eq!(
        typescript_failure(false, 0, "  out  ", "\n", "exit status: 1").as_deref(),
        Some("TypeScript failed: out")
    );
    assert_eq!(
        typescript_failure(false, 0, "out", " err \n", "exit status: 1").as_deref(),
        Some("TypeScript failed: err")
    );
    assert_eq!(
        typescript_failure(false, 0, "", "", "exit status: 1").as_deref(),
        Some("TypeScript exited with status exit status: 1 without reporting a diagnostic.")
    );
}

#[test]
fn diagnostics_in_the_checked_script_are_traced_back() {
    let js = MappedJavaScript {
        source: "import a from 'a';\n\nfoo();\n".to_string(),
        mappings: vec![
            LineMapping {
                generated_line_start: 1,
                generated_line_end: 1,
                source_file: "app/util.vue.js".to_string(),
                source_line_start: 3,
                source_column_offset: 2,
            },
            LineMapping {
                generated_line_start: 3,
                generated_line_end: 3,
                source_file: "app/main.vue".to_string(),
                source_line_start: 10,
                source_column_offset: 0,
            },
        ],
    };
    let diagnostic = |file: &str, line: usize, column: usize| TypeScriptDiagnostic {
        file: Some(file.to_string()),
        line: Some(line),
        column: Some(column),
        level: LogLevel::Error,
        code: Some("TS2304".to_string()),
        message: "Cannot find name 'foo'.".to_string(),
    };
    let root = "/work/project";
    let wd = "/work/project/public";
    let path = "/work/project/public/.check.js";

    assert_eq!(
        resolve_typescript_location(&js, root, wd, path, &diagnostic(".check.js", 3, 1)),
        (Some("app/main.vue".to_string()), Some(10), Some(1))
    );
    assert_eq!(
        resolve_typescript_location(&js, root, wd, path, &diagnostic(path, 1, 8)),
        (Some("app/util.vue.js".to_string()), Some(3), Some(10))
    );
    assert_eq!(resolve_typescript_location(&js, root, wd, path, &diagnostic(path, 2, 1)), (None, None, Some(1)));
    assert_eq!(
        resolve_typescript_location(&js, root, wd, path, &diagnostic("feedback.js", 4, 2)),
        (Some("public/feedback.js".to_string()), Some(4), Some(2))
    );

    let mut log = Logger::new();
    report_typescript_diagnostic(
        &mut log,
        (Some("app/main.vue".to_string()), Some(2), Some(3)),
        Some("one\ntwo foo\n"),
        diagnostic(path, 3, 1),
    );
    let d = &log.diagnostics()[0];
    assert_eq!(d.code.as_deref(), Some("TS2304"));
    assert_eq!(d.message, "Cannot find name 'foo'.");
    let span = d.span.as_ref().unwrap();
    assert_eq!((span.line_start, span.column_start, span.column_end), (2, 3, 4));
    assert_eq!(d.source_line.as_deref(), Some("two foo"));
}

#[test]
fn unmapped_script_lines_are_reported_without_a_location_for_any_column() {
    let mut log = Logger::new();
    let diagnostic = TypeScriptDiagnostic {
        file: Some("/tmp/check.js".to_string()),
        line: Some(2),
        column: Some(usize::MAX),
        level: LogLevel::Warn,
        code: None,
        message: "m".to_string(),
    };
    report_typescript_diagnostic(&mut log, (None, None, Some(usize::MAX)), None, diagnostic);
    assert!(log.diagnostics()[0].span.is_none());
    assert_eq!(log.warning_count(), 1);
}

#[test]
fn diagnostics_come_from_stdout_then_stderr() {
    let stdout = "/tmp/check.js(3,5): error TS2304: Cannot find name 'x'.\r\nFound 1 error.\n";
    let stderr = "error TS5058: The specified path does not exist.\n\nnoise";
    let diagnostics = typescript_diagnostics(stdout, stderr);
    assert_eq!(diagnostics.len(), 2);
    assert_eq!(diagnostics[0].file.as_deref(), Some("/tmp/check.js"));
    assert_eq!(diagnostics[0].line, Some(3));
    assert_eq!(diagnostics[0].column, Some(5));
    assert_eq!(diagnostics[0].message, "Cannot find name 'x'.");
    assert_eq!(diagnostics[1].file, None);
    assert_eq!(diagnostics[1].code.as_deref(), Some("TS5058"));
    assert!(typescript_diagnostics("", "").is_empty());
}

#[test]
fn project_root_is_the_config_directory() {
    assert_eq!(config_directory("/work/site/vue-script.toml"), "/work/site");
    assert_eq!(config_directory("site/vue-script.toml"), "site");
    assert_eq!(config_directory("vue-script.toml"), "");
    assert_eq!(config_directory("/"), ".");
}

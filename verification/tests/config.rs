use vue_script::config::{normalize_relative_path, parse_contents, ConfigErrorKind, CONFIG_FILE};
use vue_script::log::Logger;

#[test]
fn parses_repeated_watch_entries_and_ignores_target_output() {
    let mut log = Logger::new();
    let config = parse_contents(
        &mut log,
        "vue-script.toml".to_string(),
        "[app]\nmain = \"app/main.vue\"\n[target]\npath = \"target/index.html\"\n[serve]\nwatch = \"app/**/*\"\nwatch = \"skills/*.md\"\n",
    )
    .expect("config should parse");

    assert_eq!(config.serve.watch.len(), 4);
    assert_eq!(config.serve.watch[0].pattern.as_str(), "app/**/*");
    assert!(config.serve.watch[0].rebuild);
    assert!(config.serve.watch[0].explicit);
    assert_eq!(config.serve.watch[1].pattern.as_str(), "skills/*.md");
    assert!(config.serve.watch[1].rebuild);
    assert!(config.serve.watch[1].explicit);
    assert_eq!(config.serve.watch[2].pattern.as_str(), CONFIG_FILE);
    assert!(config.serve.watch[2].rebuild);
    assert!(!config.serve.watch[2].explicit);
    assert_eq!(config.serve.watch[3].pattern.as_str(), "target/index.html");
    assert!(!config.serve.watch[3].rebuild);
    assert!(!config.serve.watch[3].explicit);
    assert_eq!(config.serve.explicit_watch_count(), 2);
    assert!(config.serve.explicit_watch_count() > 0);

    assert!(config.serve.matches_relative_path("app/main.vue"));
    assert!(config.serve.matches_relative_path("skills/vue-script.md"));
    assert!(config.serve.matches_relative_path(CONFIG_FILE));
    assert!(!config.serve.matches_relative_path("target/index.html"));
    assert!(!config.serve.matches_relative_path("readme.md"));
}

#[test]
fn target_ignore_rule_does_not_count_as_explicit_watch() {
    let mut log = Logger::new();
    let config = parse_contents(&mut log, "vue-script.toml".to_string(), "[target]\npath = \"target/index.html\"\n")
        .expect("config should parse");

    assert_eq!(config.serve.explicit_watch_count(), 0);
    assert!(config.serve.explicit_watch_count() == 0);
    assert!(config.serve.matches_relative_path(CONFIG_FILE));
}

#[test]
fn rejects_invalid_watch_patterns() {
    let mut log = Logger::new();
    let err = match parse_contents(&mut log, "vue-script.toml".to_string(), "[serve]\nwatch = \"[\"\n") {
        Ok(_) => panic!("invalid watch glob should fail"),
        Err(err) => err,
    };

    assert_eq!(err.kind(), ConfigErrorKind::InvalidInput);
    assert!(log.has_errors());
}

#[test]
fn reads_sections_and_warns_about_unknown_ones() {
    let mut log = Logger::new();
    let config = parse_contents(
        &mut log,
        "/p/vue-script.toml".to_string(),
        "[app]\npage = 'web/page.html'\nextra = 1\n[check]\ntarget = \"es2022\"\ntypescript = node_modules/.bin/tsc\n[other]\nx = 1\n",
    )
    .expect("config should parse");
    assert_eq!(config.path, "/p/vue-script.toml");
    assert_eq!(config.app.page, "web/page.html");
    assert_eq!(config.app.main, "app/main.vue");
    assert_eq!(config.target.path, None);
    assert_eq!(config.check.target.as_deref(), Some("es2022"));
    assert_eq!(config.check.typescript.as_deref(), Some("node_modules/.bin/tsc"));
    assert_eq!(config.serve.watch.len(), 1);
    assert_eq!(log.warning_count(), 2);
    assert_eq!(log.diagnostics()[0].message, "Unknown config key [app].extra.");
    assert_eq!(log.diagnostics()[1].message, "Unknown config section [other].");
    assert!(!log.has_errors());
}

#[test]
fn invalid_pattern_message_names_the_pattern() {
    let mut log = Logger::new();
    let err = parse_contents(&mut log, "vue-script.toml".to_string(), "[serve]\nwatch = \"a/***\"\n").err().unwrap();
    assert!(err.message.starts_with("Invalid [serve].watch pattern \"a/***\": "));
    assert_eq!(log.diagnostics()[0].message, err.message);
}

#[test]
fn special_characters_in_the_target_are_escaped() {
    let mut log = Logger::new();
    let config = parse_contents(&mut log, "vue-script.toml".to_string(), "[target]\npath = \"out/[x]*.html\"\n[serve]\nwatch = \"out/**\"\n")
        .unwrap();
    assert_eq!(config.serve.watch[2].pattern, "out/[[]x[]][*].html");
    assert!(!config.serve.matches_relative_path("out/[x]*.html"));
    assert!(config.serve.matches_relative_path("out/x.html"));
}

#[test]
fn normalizes_relative_paths() {
    assert_eq!(normalize_relative_path("./app//main.vue").as_deref(), Some("app/main.vue"));
    assert_eq!(normalize_relative_path("a/../b").as_deref(), Some("a/../b"));
    assert_eq!(normalize_relative_path("/abs/path"), None);
    assert_eq!(normalize_relative_path("").as_deref(), Some(""));
}

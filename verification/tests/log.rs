use vue_script::log::{
    caret_prefix, get_source_line, render_colored_diagnostic, render_plain_diagnostic, write_plain_diagnostic,
    LineSpan, LogEntry, LogLevel, Logger, MessageFormat,
};

#[test]
fn plain_log_carets_preserve_tab_indentation() {
    let entry = LogEntry {
        level: LogLevel::Error,
        span: Some(LineSpan {
            file: "component.vue",
            line_start: 2,
            line_end: 2,
            column_start: 2,
            column_end: 15,
        }),
        message: "bad tag".to_string(),
        note: None,
    };
    let mut log = Logger::with_format(MessageFormat::Json);
    log.log(Some("<div>\n\t<missing-child></missing-child>\n</div>\n"), entry);
    let mut output = Vec::new();

    write_plain_diagnostic(&mut output, &log.diagnostics()[0]);

    let rendered = String::from_utf8(output).unwrap();
    assert!(rendered.contains(" --> component.vue:2:3\n"));
    assert!(rendered.contains("2 | \t<missing-child></missing-child>\n"));
    assert!(rendered.contains("  | \t ^^^^^^^^^^^^^\n"));
}

#[test]
fn logger_counts_levels() {
    let mut log = Logger::new();
    assert!(log.finished());
    log.log(None, LogEntry { level: LogLevel::Warn, span: None, message: "w".to_string(), note: None });
    assert!(log.has_warnings());
    assert!(!log.has_errors());
    assert!(log.finished());
    log.log(None, LogEntry { level: LogLevel::Error, span: None, message: "e".to_string(), note: Some("n") });
    log.log(None, LogEntry { level: LogLevel::Info, span: None, message: "i".to_string(), note: None });
    assert_eq!(log.error_count(), 1);
    assert_eq!(log.warning_count(), 1);
    assert!(log.has_errors());
    assert!(!log.finished());
    assert_eq!(log.summary(), "Finished with 1 error(s), 1 warning(s).");
    log.reset();
    assert_eq!(log.error_count(), 0);
    assert!(log.finished());
}

#[test]
fn level_names() {
    assert_eq!(LogLevel::Error.as_str(), "error");
    assert_eq!(LogLevel::Warn.as_str(), "warn");
    assert_eq!(LogLevel::Info.as_str(), "info");
    assert_eq!(LogLevel::Error.ansi_color(), "1;31");
}

#[test]
fn logged_span_is_one_indexed_with_source_line() {
    let mut log = Logger::new();
    let entry = LogEntry {
        level: LogLevel::Warn,
        span: Some(LineSpan { file: "component.vue", line_start: 4, line_end: 4, column_start: 0, column_end: 3 }),
        message: "test warning".to_string(),
        note: Some("test note"),
    };
    log.log_with_code(Some("a\nb\nc\nbad\r\n"), entry, Some("TS1".to_string()));
    let d = &log.diagnostics()[0];
    let span = d.span.as_ref().unwrap();
    assert_eq!(span.file, "component.vue");
    assert_eq!(span.column_start, 1);
    assert_eq!(span.column_end, 4);
    assert_eq!(d.source_line.as_deref(), Some("bad"));
    assert_eq!(d.note.as_deref(), Some("test note"));
    assert_eq!(d.code.as_deref(), Some("TS1"));
    assert_eq!(
        render_plain_diagnostic(d),
        "warn[TS1]: test warning\n --> component.vue:4:1\n  |\n4 | bad\n  | ^^^\n help: test note\n"
    );
    assert!(render_colored_diagnostic(d).starts_with("\x1b[1;33mwarn[TS1]\x1b[0m"));
}

#[test]
fn source_lines_follow_str_lines() {
    let span = |line| LineSpan { file: "f", line_start: line, line_end: line, column_start: 0, column_end: 0 };
    assert_eq!(get_source_line(Some("a\r\nb\n"), &span(1)), Some("a"));
    assert_eq!(get_source_line(Some("a\r\nb\n"), &span(0)), Some("a"));
    assert_eq!(get_source_line(Some("a\r\nb\n"), &span(2)), Some("b"));
    assert_eq!(get_source_line(Some("a\r\nb\n"), &span(3)), None);
    assert_eq!(get_source_line(Some("a\nb\r"), &span(2)), Some("b\r"));
    assert_eq!(get_source_line(None, &span(1)), None);
}

#[test]
fn caret_prefix_keeps_tabs() {
    assert_eq!(caret_prefix("\tab\tc", 5), "\t  \t");
    assert_eq!(caret_prefix("ab", 10), "  ");
    assert_eq!(caret_prefix("ab", 0), "");
}

#[test]
fn error_counts_grow_with_each_error_logged_and_reset_clears_them() {
    let mut log = Logger::new();
    let entry = |level| LogEntry { level, span: None, message: "m".to_string(), note: None };
    log.log(None, entry(LogLevel::Error));
    log.log(None, entry(LogLevel::Warn));
    log.log(None, entry(LogLevel::Info));
    log.log(None, entry(LogLevel::Error));
    assert_eq!(log.error_count(), 2);
    assert_eq!(log.warning_count(), 1);
    log.reset();
    assert_eq!(log.error_count(), 0);
}

fn json_level(level: LogLevel) -> &'static str {
    match level {
        LogLevel::Error => "error",
        LogLevel::Warn => "warning",
        LogLevel::Info => "info",
    }
}

fn json_of(diagnostics: &[vue_script::log::Diagnostic]) -> String {
    let mut array = Vec::new();
    for d in diagnostics {
        let mut object = serde_json::Map::new();
        object.insert("level".to_string(), serde_json::Value::from(json_level(d.level)));
        if let Some(span) = &d.span {
            let mut s = serde_json::Map::new();
            s.insert("file".to_string(), serde_json::Value::from(span.file.as_str()));
            s.insert("line_start".to_string(), serde_json::Value::from(span.line_start));
            s.insert("line_end".to_string(), serde_json::Value::from(span.line_end));
            s.insert("column_start".to_string(), serde_json::Value::from(span.column_start));
            s.insert("column_end".to_string(), serde_json::Value::from(span.column_end));
            object.insert("span".to_string(), serde_json::Value::Object(s));
        }
        object.insert("message".to_string(), serde_json::Value::from(d.message.as_str()));
        if let Some(note) = &d.note {
            object.insert("note".to_string(), serde_json::Value::from(note.as_str()));
        }
        array.push(serde_json::Value::Object(object));
    }
    serde_json::to_string_pretty(&serde_json::Value::Array(array)).unwrap()
}

#[test]
fn json_log_is_structured_and_uses_one_indexed_columns() {
    let entry = LogEntry {
        level: LogLevel::Warn,
        span: Some(LineSpan {
            file: "component.vue",
            line_start: 4,
            line_end: 4,
            column_start: 0,
            column_end: 3,
        }),
        message: "test warning".to_string(),
        note: Some("test note"),
    };
    let mut log = Logger::with_format(MessageFormat::Json);
    log.log(Some("a\nb\nc\nbad\n"), entry);
    let output = json_of(log.diagnostics());

    let value: serde_json::Value = serde_json::from_str(&output).unwrap();
    assert_eq!(value[0]["level"], "warning");
    assert_eq!(value[0]["span"]["file"], "component.vue");
    assert_eq!(value[0]["span"]["column_start"], 1);
    assert_eq!(value[0]["message"], "test warning");
}

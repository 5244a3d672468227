use vue_script::js::{get_imports, is_import_statement_start};

#[test]
fn recognises_import_statements() {
    assert!(is_import_statement_start("import helper from './helper.js';"));
    assert!(is_import_statement_start("import{ named } from './helper.js';"));
    assert!(is_import_statement_start("import * as all from './all.js';"));
    assert!(is_import_statement_start("import './side-effect.js';"));
    assert!(!is_import_statement_start("importedAt = Date.now();"));
    assert!(!is_import_statement_start("import.meta.env;"));
    assert!(!is_import_statement_start("import('helper');"));
    assert!(!is_import_statement_start("import"));
}

#[test]
fn extracts_imports_with_their_lines() {
    let source = "import { createApp } from 'vue';\n  import helper from './helper.js';  \r\nconsole.log(\"ok\");\nconst value = import('helper');";
    let (imports, script) = get_imports(source, 10);
    assert_eq!(imports.len(), 2);
    assert_eq!(imports[0].text, "import { createApp } from 'vue';\n");
    assert_eq!(imports[0].source_line, 10);
    assert_eq!(imports[0].source_column_offset, 0);
    assert_eq!(imports[1].text, "import helper from './helper.js';\n");
    assert_eq!(imports[1].source_line, 11);
    assert_eq!(imports[1].source_column_offset, 2);
    assert_eq!(script, "\n\nconsole.log(\"ok\");\nconst value = import('helper');");
}

#[test]
fn import_on_last_line_leaves_no_line_break() {
    let (imports, script) = get_imports("a;\nimport x from 'y';", 1);
    assert_eq!(imports.len(), 1);
    assert_eq!(imports[0].text, "import x from 'y';\n");
    assert_eq!(imports[0].source_line, 2);
    assert_eq!(script, "a;\n");
}

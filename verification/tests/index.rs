use context_compiler::index::IndexBuilder;

#[test]
fn resolve_relative_ts_import() {
    assert_eq!(
        IndexBuilder::resolve_import("src/app.ts", "import { X } from './foo'"),
        Some("src/./foo".to_string())
    );
    assert_eq!(
        IndexBuilder::resolve_import("src/app.ts", "import { X } from \"../bar\""),
        Some("src/../bar".to_string())
    );
    assert_eq!(IndexBuilder::resolve_import("main.ts", "import './x'"), Some("./x".to_string()));
}

#[test]
fn resolve_external_imports_to_none() {
    assert_eq!(IndexBuilder::resolve_import("a.ts", "import x from 'lodash'"), None);
    assert_eq!(IndexBuilder::resolve_import("src/main.rs", "use crate::store::Store;"), None);
    assert_eq!(IndexBuilder::resolve_import("src/main.rs", "use std::io;"), None);
    assert_eq!(IndexBuilder::resolve_import("a.rb", "require 'x'"), None);
    assert_eq!(IndexBuilder::resolve_import("a.ts", "import x"), None);
}

#[test]
fn resolve_rust_super_and_python_relative() {
    assert_eq!(
        IndexBuilder::resolve_import("src/a/b.rs", "use super::x;"),
        Some("src/a/../x".to_string())
    );
    assert_eq!(
        IndexBuilder::resolve_import("pkg/mod.py", "from .utils import helper"),
        Some("/utils".to_string())
    );
    assert_eq!(
        IndexBuilder::resolve_import("src/index.js", "require('./lib')"),
        Some("src/./lib".to_string())
    );
}

#[test]
fn resolve_without_parent_directory() {
    assert_eq!(IndexBuilder::resolve_import("", "import a from './a'"), None);
    assert_eq!(IndexBuilder::resolve_import("/", "import a from './a'"), None);
}

#[test]
fn indexable_languages() {
    assert_eq!(IndexBuilder::indexable_language("src/main.rs"), Some("rust"));
    assert_eq!(IndexBuilder::indexable_language("README.md"), Some("unknown"));
    assert_eq!(IndexBuilder::indexable_language("conf.yml"), Some("unknown"));
    assert_eq!(IndexBuilder::indexable_language("Cargo.toml"), Some("unknown"));
    assert_eq!(IndexBuilder::indexable_language("image.bin"), None);
}

#[test]
fn stored_summary_falls_back_to_first_lines() {
    assert_eq!(IndexBuilder::stored_summary("a\n\n  \nb\n", ""), "a\nb");
    assert_eq!(IndexBuilder::stored_summary("a\nb", "Declarations:\nfn x"), "Declarations:\nfn x");
    let mut src = String::new();
    for i in 0..12 {
        src.push_str(&format!("l{}\n", i));
    }
    assert_eq!(IndexBuilder::stored_summary(&src, ""), "l0\nl1\nl2\nl3\nl4\nl5\nl6\nl7\nl8\nl9");
}

#[test]
fn stored_summary_keeps_500_chars() {
    let long = "é".repeat(600);
    let s = IndexBuilder::stored_summary("", &long);
    assert_eq!(s.chars().count(), 500);
}

#[test]
fn import_edges_in_statement_order() {
    let imports = vec![
        "import a from './a'".to_string(),
        "import b from 'b'".to_string(),
        "import c from '../c'".to_string(),
    ];
    let edges = IndexBuilder::import_edges("src/x.ts", &imports);
    assert_eq!(edges.len(), 2);
    assert_eq!(edges[0].from_path, "src/x.ts");
    assert_eq!(edges[0].to_path, "src/./a");
    assert_eq!(edges[1].to_path, "src/../c");
}

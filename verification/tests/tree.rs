use context_compiler::tree::Parser;

#[test]
fn detect_language_by_extension() {
    assert_eq!(Parser::detect_language("src/main.rs"), Some("rust"));
    assert_eq!(Parser::detect_language("web/App.TSX"), Some("typescript"));
    assert_eq!(Parser::detect_language("lib/util.mjs"), Some("javascript"));
    assert_eq!(Parser::detect_language("inc/x.hpp"), Some("cpp"));
    assert_eq!(Parser::detect_language("a.h"), Some("c"));
    assert_eq!(Parser::detect_language("build.kts"), Some("kotlin"));
    assert_eq!(Parser::detect_language("mix.exs"), Some("elixir"));
    assert_eq!(Parser::detect_language("README"), None);
    assert_eq!(Parser::detect_language("notes.md"), None);
    assert_eq!(Parser::detect_language("archive.tar.gz"), None);
}

#[test]
fn is_ignored_dirs_and_extensions() {
    assert!(Parser::is_ignored("proj/node_modules/x.js"));
    assert!(Parser::is_ignored("proj/.git"));
    assert!(Parser::is_ignored("proj/targets/a.rs"));
    assert!(Parser::is_ignored("web/app.min.js"));
    assert!(Parser::is_ignored("img/logo.svg"));
    assert!(Parser::is_ignored("Cargo.lock"));
    assert!(!Parser::is_ignored("src/main.rs"));
    assert!(!Parser::is_ignored("node_modules/x.js"));
}

#[test]
fn count_tokens_rounds_up_quarters() {
    assert_eq!(Parser::count_tokens(""), 0);
    assert_eq!(Parser::count_tokens("abcd"), 1);
    assert_eq!(Parser::count_tokens("abcde"), 2);
    assert_eq!(Parser::count_tokens("é"), 1);
}

#[test]
fn parse_rust_file() {
    let source = "use std::io;\nfn main() {}\n";
    let parsed = Parser::parse(source, "rust").unwrap();
    assert_eq!(parsed.summary, "Declarations:\nfn main() {}");
    assert_eq!(parsed.imports, vec!["use std::io;".to_string()]);
    assert_eq!(parsed.token_count, 7);
    assert_eq!(parsed.tree_hash, Parser::hash(source));
}

#[test]
fn parse_python_with_comments() {
    let source = "#!/usr/bin/env python\n# Tool\nimport os\nfrom x import y\ndef main(): pass\n";
    let parsed = Parser::parse(source, "python").unwrap();
    assert_eq!(
        parsed.summary,
        "#!/usr/bin/env python\nTool\n\nDeclarations:\ndef main(): pass"
    );
    assert_eq!(parsed.imports, vec!["import os".to_string(), "from x import y".to_string()]);
}

#[test]
fn summary_keeps_eight_declarations_cut_to_120_bytes() {
    let mut source = String::new();
    for i in 0..10 {
        source.push_str(&format!("fn f{}() {{}}\n", i));
    }
    let long = format!("pub fn {}", "x".repeat(200));
    let source2 = format!("{}\n", long);
    let s = Parser::extract_summary(&source, "rust");
    assert_eq!(s.lines().count(), 9);
    assert!(s.ends_with("fn f7() {}"));
    let s2 = Parser::extract_summary(&source2, "rust");
    assert_eq!(s2, format!("Declarations:\n{}", &long[..120]));
}

#[test]
fn extract_imports_per_language() {
    let src = "import a from 'a'\nrequire('b')\nuse c;\nextern crate d;\nimport \"e\"\nrequire_relative 'f'\nfrom g import h";
    assert_eq!(
        Parser::extract_imports(src, "typescript"),
        vec!["import a from 'a'", "require('b')", "import \"e\""]
    );
    assert_eq!(Parser::extract_imports(src, "rust"), vec!["use c;", "extern crate d;"]);
    assert_eq!(
        Parser::extract_imports(src, "go"),
        vec!["import a from 'a'", "require('b')", "import \"e\"", "require_relative 'f'"]
    );
    assert_eq!(Parser::extract_imports(src, "ruby"), vec!["require_relative 'f'"]);
    assert_eq!(Parser::extract_imports(src, "python"), vec!["import a from 'a'", "import \"e\"", "from g import h"]);
    assert!(Parser::extract_imports(src, "lua").is_empty());
}

#[test]
fn hash_is_lowercase_hex_and_content_sensitive() {
    let h = Parser::hash("fn main() {}");
    assert!(!h.is_empty());
    assert!(h.chars().all(|c| c.is_ascii_hexdigit() && !c.is_ascii_uppercase()));
    assert_eq!(h, Parser::hash("fn main() {}"));
    assert_ne!(h, Parser::hash("fn main() { }"));
}

#[test]
fn summary_is_cuttable_detects_multibyte_cut() {
    assert!(Parser::summary_is_cuttable("fn main() {}"));
    let cut_inside = format!("pub fn {}é", "x".repeat(112));
    assert!(!Parser::summary_is_cuttable(&cut_inside));
}

use context_compiler::signal::{order_key, ScoredFile};
use context_compiler::trim::Trimmer;

/// The score as the pack shows it: `{:.2}` of the `f32` value.
fn label(score: f32) -> Vec<String> {
    vec![format!("{:.2}", score)]
}

fn scored(path: &str, token_count: usize, score: f32, language: &str, summary: &str) -> ScoredFile {
    ScoredFile {
        path: path.to_string(),
        summary: summary.to_string(),
        token_count,
        language: language.to_string(),
        score: order_key(score.to_bits()),
        semantic_score: 0,
        dependency_score: 0,
        history_score: 0,
        lexical_score: 0,
    }
}

#[test]
fn test_trim_rust_code_preserves_signatures() {
    let source = r#"
fn main() {
    println!("hello");
    let x = 1;
}
"#;
    let (trimmed, original, after) = Trimmer::trim(source, "rust").unwrap();
    assert!(original > 0);
    assert!(after <= original);
    assert!(trimmed.contains("fn main()"));
}

#[test]
fn test_trim_removes_console_log() {
    let source = "function foo() {\n  console.log('debug');\n  return 42;\n}";
    let (trimmed, _, _) = Trimmer::trim(source, "typescript").unwrap();
    assert!(!trimmed.contains("console.log"));
    assert!(trimmed.contains("return 42"));
}

#[test]
fn test_trim_removes_println() {
    let source = "fn main() {\n    println!(\"hello\");\n    let x = 1;\n}";
    let (trimmed, _, _) = Trimmer::trim(source, "rust").unwrap();
    assert!(!trimmed.contains("println!"));
}

#[test]
fn test_trim_keeps_docstrings() {
    let source = "/// Important docs\nfn documented() {}";
    let (trimmed, _, _) = Trimmer::trim(source, "rust").unwrap();
    assert!(trimmed.contains("///"));
    assert!(trimmed.contains("documented"));
}

#[test]
fn test_trim_removes_single_line_comments() {
    let source = "// comment\nlet x = 1;";
    let (trimmed, _, _) = Trimmer::trim(source, "rust").unwrap();
    assert!(!trimmed.contains("// comment"));
    assert!(trimmed.contains("x = 1"));
}

#[test]
fn test_trim_removes_block_comments() {
    let source = "let a = 1;\n/* block\ncomment */\nlet b = 2;";
    let (trimmed, _, _) = Trimmer::trim(source, "rust").unwrap();
    assert!(!trimmed.contains("/*"));
    assert!(!trimmed.contains("block"));
    assert!(trimmed.contains("a = 1"));
    assert!(trimmed.contains("b = 2"));
}

#[test]
fn test_trim_empty_source() {
    let (trimmed, orig, after) = Trimmer::trim("", "rust").unwrap();
    assert!(trimmed.is_empty());
    assert_eq!(orig, 0);
    assert_eq!(after, 0);
}

#[test]
fn test_format_context_basic() {
    let files = vec![scored("test.rs", 50, 0.95, "rust", "test file")];
    let shown = label(0.95);
    let sources = vec![Some("fn hello() {\n    println!(\"hi\");\n}".to_string())];
    let result = Trimmer::format_context(&files, "test task", &shown, &sources);
    assert!(result.contains("test task"));
    assert!(result.contains("test.rs"));
    assert!(result.contains("0.95"));
    assert!(result.contains("trimmed to"));
}

#[test]
fn test_format_context_file_not_found() {
    let files = vec![scored("missing.rs", 0, 0.5, "rust", "")];
    let shown = label(0.5);
    let sources = vec![None];
    let result = Trimmer::format_context(&files, "test", &shown, &sources);
    assert!(result.contains("File not found"));
}

#[test]
fn test_trim_removes_hash_comments() {
    let source = "# a comment\ndef foo(): pass";
    let (trimmed, _, _) = Trimmer::trim(source, "python").unwrap();
    assert!(!trimmed.contains("# a comment"));
    assert!(trimmed.contains("def foo"));
}

#[test]
fn test_trim_preserves_core_logic() {
    let source = "fn calculate(x: i32) -> i32 {\n    // temporary debug\n    x * 2\n}";
    let (trimmed, _, _) = Trimmer::trim(source, "rust").unwrap();
    assert!(trimmed.contains("calculate"));
    assert!(trimmed.contains("x * 2"));
}

#[test]
fn trim_exact_output_and_token_counts() {
    let source = "fn main() {\n\n    // note\n    dbg!(x);\n    let y = 2;\n}\n";
    let (trimmed, original, after) = Trimmer::trim(source, "rust").unwrap();
    assert_eq!(trimmed, "fn main() {\n    let y = 2;\n}");
    assert_eq!(original, (source.len() + 3) / 4);
    assert_eq!(after, (trimmed.len() + 3) / 4);
}

#[test]
fn trim_block_comment_closing_mid_line_ends_comment() {
    let source = "/* start\nstill */ code\nkept();";
    let (trimmed, _, _) = Trimmer::trim(source, "c").unwrap();
    assert_eq!(trimmed, "kept();");
}

#[test]
fn trim_one_line_block_comment_is_kept() {
    // A block comment that closes on its own line is not a comment block.
    let source = "/* inline */\nx();";
    let (trimmed, _, _) = Trimmer::trim(source, "c").unwrap();
    assert_eq!(trimmed, "/* inline */\nx();");
}

#[test]
fn trim_logging_match_is_case_insensitive() {
    let source = "a();\nConsole.Log('x');\nLOGGER.DEBUG(y);\nb();";
    let (trimmed, _, _) = Trimmer::trim(source, "typescript").unwrap();
    assert_eq!(trimmed, "a();\nb();");
}

#[test]
fn trim_never_adds_tokens_on_examples() {
    for source in ["", "x", "// only a comment", "a\n\n\nb", "/**\n * doc\n */\nfn f() {}"] {
        let (_, original, after) = Trimmer::trim(source, "rust").unwrap();
        assert!(after <= original);
    }
}

#[test]
fn format_context_exact_text() {
    let files = vec![scored("test.rs", 50, 0.95, "rust", "test file")];
    let shown = label(0.95);
    let sources = vec![Some("fn hello() {\n    println!(\"hi\");\n}".to_string())];
    let result = Trimmer::format_context(&files, "test task", &shown, &sources);
    let expected = "// Context Compiler — task: test task\n\
// Files: 1 · Total tokens: (trimmed)\n\
// ─────────────────────────────────────────\n\n\
// ═══ test.rs — 50 tok (score: 0.95) ═══\n\
fn hello() {\n}\n// — trimmed to 4 tokens —\n\n";
    assert_eq!(result, expected);
}

#[test]
fn format_context_missing_file_exact_text() {
    let files = vec![scored("missing.rs", 7, 0.5, "rust", "")];
    let shown = label(0.5);
    let result = Trimmer::format_context(&files, "t", &shown, &[None]);
    let expected = "// Context Compiler — task: t\n\
// Files: 1 · Total tokens: (trimmed)\n\
// ─────────────────────────────────────────\n\n\
// ═══ missing.rs — 7 tok (score: 0.50) ═══\n\
// File not found: missing.rs\n\n\n";
    assert_eq!(result, expected);
}

#[test]
fn format_context_shows_the_given_score_label() {
    let f = scored("a.rs", 1, 0.015, "rust", "");
    let result = Trimmer::format_context(&[f], "t", &["0.01".to_string()], &[None]);
    assert!(result.contains("(score: 0.01)"));
}

#[test]
fn format_context_no_files() {
    let result = Trimmer::format_context(&[], "nothing", &[], &[]);
    assert_eq!(
        result,
        "// Context Compiler — task: nothing\n// Files: 0 · Total tokens: (trimmed)\n// ─────────────────────────────────────────\n\n"
    );
}

#[test]
fn trim_only_drops_whole_lines() {
    let source = "use a;\r\n// note\n  fn f() {\r\n\tconsole.log(1);\n  }\n\n/* x\ny */\nz();";
    let (trimmed, _, _) = Trimmer::trim(source, "rust").unwrap();
    let src_lines: Vec<&str> = source.lines().collect();
    for line in trimmed.lines() {
        assert!(!line.trim().is_empty());
        assert!(src_lines.contains(&line));
    }
    assert_eq!(trimmed, "use a;\n  fn f() {\n  }\nz();");
}

#[test]
fn trim_keeps_code_lines_and_doc_comments() {
    let source = "#![allow(dead_code)]\n#[derive(Debug)]\n/// docs\n/** more */\nstruct S;\n-- sql comment\nSELECT 1;";
    let (trimmed, _, _) = Trimmer::trim(source, "rust").unwrap();
    assert_eq!(trimmed, "#[derive(Debug)]\n/// docs\n/** more */\nstruct S;\nSELECT 1;");
}

#[test]
fn trim_twice_is_trim_once() {
    for source in [
        "fn main() {\n    // c\n    println!(\"x\");\n    let y = 1;\n}\n",
        "/* a\nb */\nx();\n\n# c\ndef f(): pass",
        "a\r\nb\r\n",
        "",
    ] {
        let (once, _, _) = Trimmer::trim(source, "rust").unwrap();
        let (twice, _, _) = Trimmer::trim(&once, "rust").unwrap();
        assert_eq!(twice, once);
    }
}

#[test]
fn trim_twice_drops_a_second_carriage_return() {
    // A kept line that still ends with `\r` before a newline loses it on a
    // second pass.
    let (once, _, _) = Trimmer::trim("a\r\r\r\nb", "rust").unwrap();
    assert_eq!(once, "a\r\nb");
    let (twice, _, _) = Trimmer::trim(&once, "rust").unwrap();
    assert_eq!(twice, "a\nb");
}

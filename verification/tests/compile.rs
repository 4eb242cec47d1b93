use context_compiler::compile::Compiler;
use context_compiler::config::Config;
use context_compiler::signal::ScoredFile;

fn file(path: &str) -> ScoredFile {
    ScoredFile {
        path: path.to_string(),
        summary: String::new(),
        token_count: 10,
        language: "rust".to_string(),
        score: 1,
        semantic_score: 0,
        dependency_score: 0,
        history_score: 0,
        lexical_score: 0,
    }
}

#[test]
fn rerank_needs_key_enabled_and_two_files() {
    let mut c = Config::default();
    assert!(!Compiler::should_rerank(&c, &None, 5));
    assert!(Compiler::should_rerank(&c, &Some("tok".to_string()), 5));
    c.openai_key = Some("sk".to_string());
    assert!(Compiler::should_rerank(&c, &None, 2));
    assert!(!Compiler::should_rerank(&c, &None, 1));
    c.use_reranker = Some(false);
    assert!(!Compiler::should_rerank(&c, &None, 5));
    c.use_reranker = None;
    assert!(Compiler::should_rerank(&c, &None, 5));
}

#[test]
fn trimmed_total_sums_read_sources() {
    let sources = vec![
        Some("fn a() {\n    // c\n}".to_string()),
        None,
        Some("let x = 1;".to_string()),
    ];
    // "fn a() {\n}" is 10 bytes (3 tokens); "let x = 1;" is 10 bytes (3 tokens).
    assert_eq!(Compiler::trimmed_total(&sources), 6);
    assert_eq!(Compiler::trimmed_total(&[]), 0);
}

#[test]
fn finish_with_and_without_selection() {
    let (ctx, sel, total) = Compiler::finish("pack".to_string(), vec![], 42);
    assert_eq!(ctx, "// No relevant files found for the task.");
    assert!(sel.is_empty());
    assert_eq!(total, 0);
    let (ctx, sel, total) = Compiler::finish("pack".to_string(), vec![file("a.rs")], 42);
    assert_eq!(ctx, "pack");
    assert_eq!(sel.len(), 1);
    assert_eq!(total, 42);
}

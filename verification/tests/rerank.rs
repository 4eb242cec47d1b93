use context_compiler::config::Config;
use context_compiler::rerank::{RankedFile, RerankPlan, Reranker, MAX_RERANK_CANDIDATES};
use context_compiler::signal::{key_to_bits, order_key, ScoredFile};

fn key(v: f32) -> i64 {
    order_key(v.to_bits())
}

fn file(path: &str, score: i64, summary: &str) -> ScoredFile {
    ScoredFile {
        path: path.to_string(),
        summary: summary.to_string(),
        token_count: 10,
        language: "rust".to_string(),
        score,
        semantic_score: 0,
        dependency_score: 0,
        history_score: 0,
        lexical_score: 0,
    }
}

fn verdict(path: &str, relevance: &str) -> RankedFile {
    RankedFile { path: path.to_string(), relevance: relevance.to_string(), reason: String::new() }
}

#[test]
fn new_uses_configured_model() {
    let r = Reranker::new(&Config::default());
    assert_eq!(r.model, "gpt-4o-mini");
    assert!(r.openai_key.is_none());
    let mut c = Config::default();
    c.reranker_model = None;
    c.openai_key = Some("sk".to_string());
    let r = Reranker::new(&c);
    assert_eq!(r.model, "gpt-4o-mini");
    assert_eq!(r.openai_key.as_deref(), Some("sk"));
}

#[test]
fn plan_cases() {
    let mut c = Config::default();
    let without_key = Reranker::new(&c);
    assert!(matches!(without_key.plan(0, true), RerankPlan::Empty));
    assert!(matches!(without_key.plan(5, true), RerankPlan::Unchanged));
    c.openai_key = Some("sk".to_string());
    let with_key = Reranker::new(&c);
    assert!(matches!(with_key.plan(5, false), RerankPlan::Unchanged));
    assert!(matches!(with_key.plan(3, true), RerankPlan::Ask(3)));
    assert!(matches!(with_key.plan(45, true), RerankPlan::Ask(30)));
    assert_eq!(MAX_RERANK_CANDIDATES, 30);
}

#[test]
fn fenced_json_extraction() {
    assert_eq!(
        Reranker::fenced_json("text ```json\n{\"a\":1}\n``` more").as_deref(),
        Some("\n{\"a\":1}\n")
    );
    assert_eq!(Reranker::fenced_json("{\"a\":1}"), None);
    assert_eq!(Reranker::fenced_json("```json {\"a\":1}"), None);
    assert_eq!(Reranker::fenced_json("```json```").as_deref(), Some(""));
}

#[test]
fn apply_rerank_labels() {
    let candidates = vec![
        file("a.rs", key(0.5), ""),
        file("b.rs", key(0.4), ""),
        file("c.rs", key(0.3), ""),
        file("d.rs", key(0.2), ""),
        file("e.rs", key(0.1), ""),
    ];
    let ranked = vec![
        verdict("b.rs", "CRITICAL"),
        verdict("c.rs", "SKIP"),
        verdict("d.rs", "MEDIUM"),
        verdict("a.rs", "LOW"),
        verdict("e.rs", "HIGH"),
        verdict("zz.rs", "CRITICAL"),
    ];
    let out = Reranker::apply_rerank(&candidates, &ranked);
    let got: Vec<(&str, f32)> =
        out.iter().map(|f| (f.path.as_str(), f32::from_bits(key_to_bits(f.score)))).collect();
    assert_eq!(got, vec![("b.rs", 1.0), ("e.rs", 0.9), ("d.rs", 0.6), ("a.rs", 0.5)]);
}

#[test]
fn apply_rerank_last_verdict_wins() {
    let candidates = vec![file("a.rs", key(0.5), ""), file("b.rs", key(0.4), "")];
    let ranked = vec![verdict("a.rs", "HIGH"), verdict("a.rs", "SKIP")];
    let out = Reranker::apply_rerank(&candidates, &ranked);
    assert_eq!(out.len(), 1);
    assert_eq!(out[0].path, "b.rs");
    let ranked = vec![verdict("a.rs", "SKIP"), verdict("a.rs", "unknown")];
    let out = Reranker::apply_rerank(&candidates, &ranked);
    assert_eq!(out.len(), 2);
    assert_eq!(out[0].score, key(0.5));
}

#[test]
fn user_prompt_text() {
    let fs = vec![file("a.rs", 0, "sum\nline "), file("b.rs", 0, &"x".repeat(250))];
    let p = Reranker::user_prompt("repo", "do it", &fs);
    let expected = format!(
        "Repository: `repo`\n\nTask: do it\n\nCandidate files:\n1. `a.rs` [rust] — sum line\n2. `b.rs` [rust] — {}...\n",
        "x".repeat(200)
    );
    assert_eq!(p, expected);
}

#[test]
fn previews_cuttable_check() {
    let fine = vec![file("a.rs", 0, &"é".repeat(100))];
    assert!(Reranker::previews_are_cuttable(&fine));
    let bad = vec![file("a.rs", 0, &format!("{}é", "x".repeat(199)))];
    assert!(!Reranker::previews_are_cuttable(&bad));
    assert!(Reranker::previews_are_cuttable(&[]));
}

#[test]
fn system_prompt_names_labels() {
    assert!(Reranker::system_prompt().contains("(CRITICAL|HIGH|MEDIUM|LOW|SKIP)"));
}

use context_compiler::signal::{key_to_bits, order_key, FilenameMatch, RelevanceEngine, ScoredFile};
use context_compiler::store::ImportEdge;

fn make_scored(path: &str, tokens: usize, score: f32) -> ScoredFile {
    let key = order_key(score.to_bits());
    ScoredFile {
        path: path.to_string(),
        summary: String::new(),
        token_count: tokens,
        language: "rust".to_string(),
        score: key,
        semantic_score: key,
        dependency_score: 0,
        history_score: 0,
        lexical_score: 0,
    }
}

fn paths(v: &[ScoredFile]) -> Vec<&str> {
    v.iter().map(|f| f.path.as_str()).collect()
}

#[test]
fn test_select_top_empty_input() {
    let result = RelevanceEngine::select_top(vec![], 8192, 0);
    assert!(result.is_empty());
}

#[test]
fn test_select_top_respects_budget() {
    let files = vec![
        make_scored("a.rs", 2000, 0.9),
        make_scored("b.rs", 2000, 0.8),
        make_scored("c.rs", 2000, 0.7),
        make_scored("d.rs", 2000, 0.6),
    ];
    let result = RelevanceEngine::select_top(files, 2500, 0);
    assert_eq!(result.len(), 3);
}

#[test]
fn test_select_top_respects_max_files() {
    let files = vec![
        make_scored("a.rs", 100, 0.9),
        make_scored("b.rs", 100, 0.8),
        make_scored("c.rs", 100, 0.7),
    ];
    let result = RelevanceEngine::select_top(files, 10000, 2);
    assert_eq!(result.len(), 2);
}

#[test]
fn test_select_top_always_includes_top_scorer() {
    let files = vec![make_scored("a.rs", 100_000, 0.9), make_scored("b.rs", 100, 0.8)];
    let result = RelevanceEngine::select_top(files, 1000, 0);
    assert!(!result.is_empty());
    assert_eq!(result[0].path, "a.rs");
}

#[test]
fn test_select_top_keeps_order() {
    let files = vec![
        make_scored("a.rs", 100, 0.9),
        make_scored("b.rs", 100, 0.5),
        make_scored("c.rs", 100, 0.3),
    ];
    let result = RelevanceEngine::select_top(files, 10000, 0);
    assert_eq!(result.len(), 3);
    assert_eq!(result[0].path, "a.rs");
    assert_eq!(result[1].path, "b.rs");
    assert_eq!(result[2].path, "c.rs");
}

#[test]
fn test_select_top_includes_low_score_with_exact_match() {
    let files = vec![
        make_scored("src/App.tsx", 500, 0.1),
        make_scored("src/lib/repos.ts", 300, 0.05),
    ];
    let result = RelevanceEngine::select_top(files, 10000, 0);
    assert_eq!(result.len(), 2);
}

#[test]
fn select_top_cost_is_forty_percent_rounded_down() {
    // 4 tokens cost 1 (1.6 rounded down); 3 tokens cost 1 (1.2); 2 tokens cost 0.
    let files = vec![
        make_scored("a.rs", 4, 0.9),
        make_scored("b.rs", 3, 0.8),
        make_scored("c.rs", 2, 0.7),
        make_scored("d.rs", 4, 0.6),
    ];
    let result = RelevanceEngine::select_top(files, 2, 0);
    assert_eq!(paths(&result), vec!["a.rs", "b.rs", "c.rs"]);
}

#[test]
fn select_top_stops_at_first_file_over_budget() {
    // The second file does not fit; the third would, but selection stops.
    let files = vec![
        make_scored("a.rs", 10, 0.9),
        make_scored("b.rs", 1000, 0.8),
        make_scored("c.rs", 1, 0.7),
    ];
    let result = RelevanceEngine::select_top(files, 10, 0);
    assert_eq!(paths(&result), vec!["a.rs"]);
}

#[test]
fn select_top_zero_budget_keeps_only_first() {
    let files = vec![make_scored("a.rs", 10, 0.9), make_scored("b.rs", 10, 0.8)];
    let result = RelevanceEngine::select_top(files, 0, 0);
    assert_eq!(paths(&result), vec!["a.rs"]);
}

#[test]
fn rank_is_stable_descending() {
    let files = vec![
        make_scored("a.rs", 1, 0.2),
        make_scored("b.rs", 1, 0.9),
        make_scored("c.rs", 1, 0.2),
        make_scored("d.rs", 1, 0.5),
    ];
    let ranked = RelevanceEngine::rank(files);
    assert_eq!(paths(&ranked), vec!["b.rs", "d.rs", "a.rs", "c.rs"]);
}

#[test]
fn rank_empty() {
    assert!(RelevanceEngine::rank(vec![]).is_empty());
}

#[test]
fn filename_patterns_from_task() {
    let pats = RelevanceEngine::filename_patterns("Fix src/App.tsx, and repos.ts! then refactor");
    assert_eq!(pats, vec!["src/app.tsx".to_string(), "repos.ts".to_string()]);
}

#[test]
fn filename_patterns_backslash_and_none() {
    assert_eq!(
        RelevanceEngine::filename_patterns("look at src\\Main.rs?"),
        vec!["src\\main.rs".to_string()]
    );
    assert!(RelevanceEngine::filename_patterns("nothing here").is_empty());
}

#[test]
fn filename_match_levels() {
    let pats = vec!["app.tsx".to_string()];
    assert!(matches!(RelevanceEngine::filename_match(&pats, "src/App.tsx"), FilenameMatch::Exact));
    assert!(matches!(RelevanceEngine::filename_match(&pats, "app.tsx"), FilenameMatch::Exact));
    assert!(matches!(
        RelevanceEngine::filename_match(&pats, "src/myapp.tsx.bak"),
        FilenameMatch::Partial
    ));
    assert!(matches!(RelevanceEngine::filename_match(&pats, "src/main.rs"), FilenameMatch::NoMatch));
    assert!(matches!(RelevanceEngine::filename_match(&vec![], "src/App.tsx"), FilenameMatch::NoMatch));
}

#[test]
fn history_count_counts_every_mention() {
    let similar = vec![
        vec!["a.rs".to_string(), "b.rs".to_string()],
        vec!["a.rs".to_string()],
        vec!["c.rs".to_string(), "a.rs".to_string(), "a.rs".to_string()],
    ];
    assert_eq!(RelevanceEngine::history_count(&similar, "a.rs"), 4);
    assert_eq!(RelevanceEngine::history_count(&similar, "b.rs"), 1);
    assert_eq!(RelevanceEngine::history_count(&similar, "z.rs"), 0);
}

fn edge(from: &str, to: &str) -> ImportEdge {
    ImportEdge { from_path: from.to_string(), to_path: to.to_string() }
}

#[test]
fn importers_and_imports_of() {
    let edges = vec![edge("a.rs", "lib.rs"), edge("b.rs", "lib.rs"), edge("a.rs", "util.rs")];
    assert_eq!(
        RelevanceEngine::importers_of(&edges, "lib.rs"),
        vec!["a.rs".to_string(), "b.rs".to_string()]
    );
    assert_eq!(
        RelevanceEngine::imports_of(&edges, "a.rs"),
        vec!["lib.rs".to_string(), "util.rs".to_string()]
    );
    assert!(RelevanceEngine::importers_of(&edges, "a.rs").is_empty());
}

#[test]
fn order_keys_rank_as_the_floats_do() {
    let values = [-3.5f32, -1.0, -0.25, 0.0, 1e-30, 0.015, 0.25, 0.9, 1.0, 7.5];
    for a in values {
        for b in values {
            let (ka, kb) = (order_key(a.to_bits()), order_key(b.to_bits()));
            assert_eq!(ka < kb, a < b);
            assert_eq!(ka == kb, a == b);
        }
    }
    assert_eq!(order_key((-0.0f32).to_bits()), order_key(0.0f32.to_bits()));
    assert_eq!(order_key(1.0f32.to_bits()), 1065353216);
}

#[test]
fn keys_turn_back_into_the_same_scores() {
    for v in [-2.0f32, -0.5, 0.0, 0.015, 0.95, 1.0, 123.25] {
        assert_eq!(f32::from_bits(key_to_bits(order_key(v.to_bits()))), v);
    }
    assert_eq!(key_to_bits(0), 0);
    assert_eq!(key_to_bits(-1), 0x8000_0001);
}

#[test]
fn larger_budget_or_cap_never_selects_fewer() {
    let files = || {
        vec![
            make_scored("a.rs", 1000, 0.9),
            make_scored("b.rs", 1000, 0.8),
            make_scored("c.rs", 1000, 0.7),
        ]
    };
    let mut last = 0;
    for budget in [0, 400, 800, 1200, 5000] {
        let n = RelevanceEngine::select_top(files(), budget, 0).len();
        assert!(n >= last);
        last = n;
    }
    assert_eq!(last, 3);
    assert_eq!(RelevanceEngine::select_top(files(), 5000, 1).len(), 1);
    assert_eq!(RelevanceEngine::select_top(files(), 5000, 2).len(), 2);
}

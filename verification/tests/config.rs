use context_compiler::config::{
    global_config_path, load_config, load_global_config, Config, ConfigChanges,
};

fn vars(pairs: &[(&str, &str)]) -> Vec<(String, String)> {
    pairs.iter().map(|(k, v)| (k.to_string(), v.to_string())).collect()
}

fn empty() -> Config {
    Config {
        openai_key: None,
        openrouter_key: None,
        deepseek_key: None,
        codex_key: None,
        provider: None,
        openai_base_url: None,
        openrouter_base_url: None,
        deepseek_base_url: None,
        embedding_model: None,
        reranker_model: None,
        use_reranker: None,
        ensemble_rerank: None,
        ensemble_count: None,
        code_chunking: None,
        cross_file_refs: None,
        term_expansion: None,
        parallel_embed: None,
        cache_ttl: None,
    }
}

#[test]
fn defaults() {
    let c = Config::default();
    assert!(c.openai_key.is_none());
    assert_eq!(c.embedding_model.as_deref(), Some("text-embedding-3-small"));
    assert_eq!(c.reranker_model.as_deref(), Some("gpt-4o-mini"));
    assert_eq!(c.use_reranker, Some(true));
    assert_eq!(c.ensemble_rerank, Some(false));
    assert_eq!(c.ensemble_count, Some(2));
    assert_eq!(c.cache_ttl, Some(3600));
}

#[test]
fn from_env_overrides_defaults() {
    let v = vars(&[
        ("OPENAI_API_KEY", "sk-1"),
        ("CONTEXT_COMPILER_PROVIDER", "deepseek"),
        ("CONTEXT_COMPILER_USE_RERANKER", "0"),
        ("CONTEXT_COMPILER_ENSEMBLE_RERANK", "1"),
        ("CONTEXT_COMPILER_CODE_CHUNKING", "yes"),
        ("CONTEXT_COMPILER_RERANKER_MODEL", "m"),
    ]);
    let c = Config::from_env(&v);
    assert_eq!(c.openai_key.as_deref(), Some("sk-1"));
    assert_eq!(c.provider.as_deref(), Some("deepseek"));
    assert_eq!(c.use_reranker, Some(false));
    assert_eq!(c.ensemble_rerank, Some(true));
    assert_eq!(c.code_chunking, Some(false));
    assert_eq!(c.reranker_model.as_deref(), Some("m"));
    assert_eq!(c.embedding_model.as_deref(), Some("text-embedding-3-small"));
}

#[test]
fn compiler_key_variable_wins_over_openai_variable() {
    let v = vars(&[("OPENAI_API_KEY", "sk-plain"), ("CONTEXT_COMPILER_OPENAI_KEY", "sk-ctx")]);
    assert_eq!(Config::from_env(&v).openai_key.as_deref(), Some("sk-ctx"));
    assert_eq!(Config::env_var(&v, "OPENAI_API_KEY").as_deref(), Some("sk-plain"));
    assert!(Config::env_var(&v, "HOME").is_none());
}

#[test]
fn merge_top_wins_and_empty_keys_are_unset() {
    let mut base = empty();
    base.openai_key = Some("sk-base".to_string());
    base.provider = Some("openai".to_string());
    base.cache_ttl = Some(10);
    let mut top = empty();
    top.openai_key = Some(String::new());
    top.provider = Some("openrouter".to_string());
    let m = base.merge(Some(top));
    assert_eq!(m.openai_key.as_deref(), Some("sk-base"));
    assert_eq!(m.provider.as_deref(), Some("openrouter"));
    assert_eq!(m.cache_ttl, Some(10));

    let mut base = empty();
    base.deepseek_key = Some(String::new());
    let m = base.merge(Some(empty()));
    assert!(m.deepseek_key.is_none());

    let mut base = empty();
    base.deepseek_key = Some(String::new());
    let m = base.merge(None);
    assert_eq!(m.deepseek_key.as_deref(), Some(""));
}

#[test]
fn key_checks() {
    let mut c = empty();
    assert!(!c.has_openai_key());
    c.openai_key = Some(String::new());
    assert!(!c.has_openai_key());
    c.openai_key = Some("k".to_string());
    assert!(c.has_openai_key());
    c.openrouter_key = Some("r".to_string());
    assert!(c.has_openrouter_key());
    assert!(!c.has_deepseek_key());
    assert!(!c.has_codex_key(&None));
    assert!(c.has_codex_key(&Some("tok".to_string())));
    c.codex_key = Some("cdx".to_string());
    assert!(c.has_codex_key(&None));
}

#[test]
fn provider_selection() {
    let c = Config::default();
    assert_eq!(c.selected_embedder_provider(&None), "hash");
    assert_eq!(c.selected_reranker_provider(&None), "none");
    assert_eq!(c.selected_embedder_provider(&Some("t".to_string())), "codex");

    let mut c = empty();
    c.deepseek_key = Some("d".to_string());
    c.openrouter_key = Some("r".to_string());
    assert_eq!(c.selected_embedder_provider(&None), "openrouter");
    c.provider = Some("deepseek".to_string());
    assert_eq!(c.selected_reranker_provider(&None), "deepseek");
    c.provider = Some("auto".to_string());
    assert_eq!(c.selected_reranker_provider(&None), "openrouter");

    let mut c = empty();
    c.provider = Some("codex".to_string());
    assert_eq!(c.selected_embedder_provider(&None), "codex");
}

#[test]
fn model_names_follow_provider() {
    let mut c = empty();
    assert_eq!(c.embedding_model_name(&None), "text-embedding-3-small");
    assert_eq!(c.reranker_model_name(&None), "gpt-4o-mini");
    c.openrouter_key = Some("r".to_string());
    assert_eq!(c.embedding_model_name(&None), "openai/text-embedding-3-small");
    assert_eq!(c.reranker_model_name(&None), "openai/gpt-4o-mini");
    c.provider = Some("deepseek".to_string());
    assert_eq!(c.embedding_model_name(&None), "deepseek-embedding");
    assert_eq!(c.reranker_model_name(&None), "deepseek-chat");
    c.embedding_model = Some("mine".to_string());
    assert_eq!(c.embedding_model_name(&None), "mine");
}

#[test]
fn provider_summary_text() {
    assert_eq!(
        Config::default().provider_context_summary(&None),
        "Embed: hash-based · Rerank: disabled"
    );
    let mut c = Config::default();
    c.openai_key = Some("sk".to_string());
    c.ensemble_rerank = Some(true);
    assert_eq!(
        c.provider_context_summary(&None),
        "Embed: openai (text-embedding-3-small) · Rerank: openai (gpt-4o-mini) · Ensemble: on (2 providers)"
    );
    let mut c = empty();
    c.deepseek_key = Some("d".to_string());
    c.ensemble_rerank = Some(true);
    c.ensemble_count = Some(3);
    assert_eq!(
        c.provider_context_summary(&None),
        "Embed: deepseek (deepseek-embedding) · Rerank: deepseek (deepseek-chat) · Ensemble: on (3 providers)"
    );
}

#[test]
fn global_path_from_environment() {
    assert_eq!(global_config_path(&vars(&[("HOME", "/home/u")])), "/home/u/.ctx/config.toml");
    assert_eq!(global_config_path(&vars(&[("HOME", "/home/u/")])), "/home/u/.ctx/config.toml");
    assert_eq!(
        global_config_path(&vars(&[("USERPROFILE", "C:\\Users\\u")])),
        "C:\\Users\\u/.ctx/config.toml"
    );
    assert_eq!(global_config_path(&[]), "./.ctx/config.toml");
}

#[test]
fn loading_layers() {
    let v = vars(&[("CONTEXT_COMPILER_PROVIDER", "openai")]);
    let plain = load_global_config(None, &v);
    assert_eq!(plain.provider.as_deref(), Some("openai"));
    let mut file = empty();
    file.provider = Some("deepseek".to_string());
    file.cache_ttl = Some(5);
    let layered = load_global_config(Some(file), &v);
    assert_eq!(layered.provider.as_deref(), Some("deepseek"));
    assert_eq!(layered.cache_ttl, Some(5));
    assert_eq!(layered.reranker_model.as_deref(), Some("gpt-4o-mini"));

    let mut file = empty();
    file.openai_key = Some("sk-file".to_string());
    let c = Config::load(Some(file), &vars(&[("OPENAI_API_KEY", "sk-env")]));
    assert_eq!(c.openai_key.as_deref(), Some("sk-file"));

    let mut global = empty();
    global.openai_key = Some("g".to_string());
    global.use_reranker = Some(false);
    let mut local = empty();
    local.use_reranker = Some(true);
    let c = load_config(global, local);
    assert_eq!(c.openai_key.as_deref(), Some("g"));
    assert_eq!(c.use_reranker, Some(true));
}

fn no_changes() -> ConfigChanges {
    ConfigChanges {
        set_openai_key: None,
        set_embedding_model: None,
        set_reranker_model: None,
        set_use_reranker: None,
        set_provider: None,
        set_openrouter_key: None,
        set_deepseek_key: None,
        set_codex_key: None,
        set_ensemble_rerank: None,
        set_code_chunking: None,
        set_cross_file_refs: None,
        set_parallel_embed: None,
    }
}

#[test]
fn configure_changes_apply_as_given() {
    let mut c = Config::default();
    c.openai_key = Some("old".to_string());
    let mut ch = no_changes();
    assert!(!ch.any());
    ch.set_openai_key = Some(String::new());
    ch.set_provider = Some("deepseek".to_string());
    ch.set_use_reranker = Some(false);
    ch.set_parallel_embed = Some(true);
    assert!(ch.any());
    c.apply(&ch);
    assert_eq!(c.openai_key.as_deref(), Some(""));
    assert_eq!(c.provider.as_deref(), Some("deepseek"));
    assert_eq!(c.use_reranker, Some(false));
    assert_eq!(c.parallel_embed, Some(true));
    assert_eq!(c.reranker_model.as_deref(), Some("gpt-4o-mini"));
    assert_eq!(c.cache_ttl, Some(3600));
}

#[test]
fn configure_without_changes_keeps_config() {
    let mut c = Config::default();
    c.apply(&no_changes());
    assert!(c.openai_key.is_none());
    assert_eq!(c.embedding_model.as_deref(), Some("text-embedding-3-small"));
    let mut ch = no_changes();
    ch.set_code_chunking = Some(false);
    assert!(ch.any());
}

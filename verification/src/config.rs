//! Context Compiler configuration: defaults, environment overrides, layered
//! merging, and provider/model selection.

use vstd::prelude::*;

use crate::store::{join_path, path_join};
use crate::text::{append_chars, chars_are, chars_of, decimal, decimal_chars, string_of};

verus! {

broadcast use vstd::string::group_string_axioms;

/// Context Compiler configuration (stored as `.ctx/config.toml`).
pub struct Config {
    /// OpenAI API key for embeddings and AI reranker
    pub openai_key: Option<String>,
    /// OpenRouter API key
    pub openrouter_key: Option<String>,
    /// DeepSeek API key
    pub deepseek_key: Option<String>,
    /// GitHub Copilot / Codex OAuth key
    pub codex_key: Option<String>,
    /// Provider selection: "openai", "openrouter", "deepseek", "auto"
    pub provider: Option<String>,
    /// OpenAI base URL override
    pub openai_base_url: Option<String>,
    /// OpenRouter base URL override
    pub openrouter_base_url: Option<String>,
    /// DeepSeek base URL override
    pub deepseek_base_url: Option<String>,
    /// Embedding model to use (default depends on provider)
    pub embedding_model: Option<String>,
    /// Reranker model to use (default depends on provider)
    pub reranker_model: Option<String>,
    /// Whether to use AI reranker (default: true if key is set)
    pub use_reranker: Option<bool>,
    /// Whether to use ensemble reranking (two providers)
    pub ensemble_rerank: Option<bool>,
    /// Number of ensemble rerankers to use
    pub ensemble_count: Option<usize>,
    /// Enable code-level chunking (future)
    pub code_chunking: Option<bool>,
    /// Enable cross-file reference analysis (future)
    pub cross_file_refs: Option<bool>,
    /// Enable term expansion for queries (future)
    pub term_expansion: Option<bool>,
    /// Enable parallel embedding
    pub parallel_embed: Option<bool>,
    /// Cache TTL in seconds
    pub cache_ttl: Option<u64>,
}

/// A configuration with every text field as a character sequence.
pub struct ConfigView {
    pub openai_key: Option<Seq<char>>,
    pub openrouter_key: Option<Seq<char>>,
    pub deepseek_key: Option<Seq<char>>,
    pub codex_key: Option<Seq<char>>,
    pub provider: Option<Seq<char>>,
    pub openai_base_url: Option<Seq<char>>,
    pub openrouter_base_url: Option<Seq<char>>,
    pub deepseek_base_url: Option<Seq<char>>,
    pub embedding_model: Option<Seq<char>>,
    pub reranker_model: Option<Seq<char>>,
    pub use_reranker: Option<bool>,
    pub ensemble_rerank: Option<bool>,
    pub ensemble_count: Option<usize>,
    pub code_chunking: Option<bool>,
    pub cross_file_refs: Option<bool>,
    pub term_expansion: Option<bool>,
    pub parallel_embed: Option<bool>,
    pub cache_ttl: Option<u64>,
}

pub open spec fn opt_view(o: Option<String>) -> Option<Seq<char>> {
    match o {
        Some(s) => Some(s@),
        None => None,
    }
}

impl View for Config {
    type V = ConfigView;

    open spec fn view(&self) -> ConfigView {
        ConfigView {
            openai_key: opt_view(self.openai_key),
            openrouter_key: opt_view(self.openrouter_key),
            deepseek_key: opt_view(self.deepseek_key),
            codex_key: opt_view(self.codex_key),
            provider: opt_view(self.provider),
            openai_base_url: opt_view(self.openai_base_url),
            openrouter_base_url: opt_view(self.openrouter_base_url),
            deepseek_base_url: opt_view(self.deepseek_base_url),
            embedding_model: opt_view(self.embedding_model),
            reranker_model: opt_view(self.reranker_model),
            use_reranker: self.use_reranker,
            ensemble_rerank: self.ensemble_rerank,
            ensemble_count: self.ensemble_count,
            code_chunking: self.code_chunking,
            cross_file_refs: self.cross_file_refs,
            term_expansion: self.term_expansion,
            parallel_embed: self.parallel_embed,
            cache_ttl: self.cache_ttl,
        }
    }
}

/// The built-in defaults.
pub open spec fn default_view() -> ConfigView {
    ConfigView {
        openai_key: None,
        openrouter_key: None,
        deepseek_key: None,
        codex_key: None,
        provider: None,
        openai_base_url: None,
        openrouter_base_url: None,
        deepseek_base_url: None,
        embedding_model: Some("text-embedding-3-small"@),
        reranker_model: Some("gpt-4o-mini"@),
        use_reranker: Some(true),
        ensemble_rerank: Some(false),
        ensemble_count: Some(2),
        code_chunking: Some(false),
        cross_file_refs: Some(false),
        term_expansion: Some(false),
        parallel_embed: Some(false),
        cache_ttl: Some(3600),
    }
}

/// A key that is present and non-empty.
pub open spec fn key_set(k: Option<Seq<char>>) -> bool {
    k matches Some(s) && s.len() > 0
}

/// A key with the empty string treated as unset.
pub open spec fn non_empty(k: Option<Seq<char>>) -> Option<Seq<char>> {
    if key_set(k) {
        k
    } else {
        None
    }
}

pub open spec fn or_else<A>(a: Option<A>, b: Option<A>) -> Option<A> {
    match a {
        Some(x) => Some(x),
        None => b,
    }
}

/// `base` overridden by the set fields of `top` (empty keys count as unset).
pub open spec fn merge_views(base: ConfigView, top: ConfigView) -> ConfigView {
    ConfigView {
        openai_key: or_else(non_empty(top.openai_key), non_empty(base.openai_key)),
        openrouter_key: or_else(non_empty(top.openrouter_key), non_empty(base.openrouter_key)),
        deepseek_key: or_else(non_empty(top.deepseek_key), non_empty(base.deepseek_key)),
        codex_key: or_else(non_empty(top.codex_key), non_empty(base.codex_key)),
        provider: or_else(top.provider, base.provider),
        openai_base_url: or_else(top.openai_base_url, base.openai_base_url),
        openrouter_base_url: or_else(top.openrouter_base_url, base.openrouter_base_url),
        deepseek_base_url: or_else(top.deepseek_base_url, base.deepseek_base_url),
        embedding_model: or_else(top.embedding_model, base.embedding_model),
        reranker_model: or_else(top.reranker_model, base.reranker_model),
        use_reranker: or_else(top.use_reranker, base.use_reranker),
        ensemble_rerank: or_else(top.ensemble_rerank, base.ensemble_rerank),
        ensemble_count: or_else(top.ensemble_count, base.ensemble_count),
        code_chunking: or_else(top.code_chunking, base.code_chunking),
        cross_file_refs: or_else(top.cross_file_refs, base.cross_file_refs),
        term_expansion: or_else(top.term_expansion, base.term_expansion),
        parallel_embed: or_else(top.parallel_embed, base.parallel_embed),
        cache_ttl: or_else(top.cache_ttl, base.cache_ttl),
    }
}

/// The value of the first variable named `name`.
pub open spec fn env_get(vars: Seq<(String, String)>, name: Seq<char>) -> Option<Seq<char>>
    decreases vars.len(),
{
    if vars.len() == 0 {
        None
    } else if vars[0].0@ == name {
        Some(vars[0].1@)
    } else {
        env_get(vars.drop_first(), name)
    }
}

/// An environment flag: "true" or "1" is on, anything else off.
pub open spec fn flag_value(v: Seq<char>) -> bool {
    v == "true"@ || v == "1"@
}

pub open spec fn env_flag(vars: Seq<(String, String)>, name: Seq<char>, dflt: Option<bool>) -> Option<
    bool,
> {
    match env_get(vars, name) {
        Some(v) => Some(flag_value(v)),
        None => dflt,
    }
}

/// The defaults overridden by the `CONTEXT_COMPILER_*` variables (and
/// `OPENAI_API_KEY` when the compiler's own OpenAI variable is unset).
pub open spec fn env_view(vars: Seq<(String, String)>) -> ConfigView {
    let d = default_view();
    ConfigView {
        provider: or_else(env_get(vars, "CONTEXT_COMPILER_PROVIDER"@), d.provider),
        openai_key: or_else(
            env_get(vars, "CONTEXT_COMPILER_OPENAI_KEY"@),
            or_else(env_get(vars, "OPENAI_API_KEY"@), d.openai_key),
        ),
        openrouter_key: or_else(env_get(vars, "CONTEXT_COMPILER_OPENROUTER_KEY"@), d.openrouter_key),
        deepseek_key: or_else(env_get(vars, "CONTEXT_COMPILER_DEEPSEEK_KEY"@), d.deepseek_key),
        codex_key: or_else(env_get(vars, "CONTEXT_COMPILER_CODEX_KEY"@), d.codex_key),
        openai_base_url: or_else(
            env_get(vars, "CONTEXT_COMPILER_OPENAI_BASE_URL"@),
            d.openai_base_url,
        ),
        openrouter_base_url: or_else(
            env_get(vars, "CONTEXT_COMPILER_OPENROUTER_BASE_URL"@),
            d.openrouter_base_url,
        ),
        deepseek_base_url: or_else(
            env_get(vars, "CONTEXT_COMPILER_DEEPSEEK_BASE_URL"@),
            d.deepseek_base_url,
        ),
        embedding_model: or_else(
            env_get(vars, "CONTEXT_COMPILER_EMBEDDING_MODEL"@),
            d.embedding_model,
        ),
        reranker_model: or_else(
            env_get(vars, "CONTEXT_COMPILER_RERANKER_MODEL"@),
            d.reranker_model,
        ),
        use_reranker: env_flag(vars, "CONTEXT_COMPILER_USE_RERANKER"@, d.use_reranker),
        ensemble_rerank: env_flag(vars, "CONTEXT_COMPILER_ENSEMBLE_RERANK"@, d.ensemble_rerank),
        ensemble_count: d.ensemble_count,
        code_chunking: env_flag(vars, "CONTEXT_COMPILER_CODE_CHUNKING"@, d.code_chunking),
        cross_file_refs: env_flag(vars, "CONTEXT_COMPILER_CROSS_FILE_REFS"@, d.cross_file_refs),
        term_expansion: d.term_expansion,
        parallel_embed: env_flag(vars, "CONTEXT_COMPILER_PARALLEL_EMBED"@, d.parallel_embed),
        cache_ttl: d.cache_ttl,
    }
}

/// A provider name that, when configured explicitly, is used as is.
pub open spec fn known_provider(p: Seq<char>) -> bool {
    p == "openai"@ || p == "openrouter"@ || p == "deepseek"@ || p == "codex"@
}

/// The provider chosen for a configuration: an explicitly configured known
/// provider, else the first provider with a key, else `fallback`.
/// `oauth_token` says whether a Codex OAuth token file is available.
pub open spec fn chosen_provider(c: ConfigView, oauth_token: bool, fallback: Seq<char>) -> Seq<
    char,
> {
    if c.provider is Some && known_provider(c.provider->0) {
        c.provider->0
    } else if key_set(c.openai_key) {
        "openai"@
    } else if key_set(c.openrouter_key) {
        "openrouter"@
    } else if key_set(c.deepseek_key) {
        "deepseek"@
    } else if key_set(c.codex_key) || oauth_token {
        "codex"@
    } else {
        fallback
    }
}

pub open spec fn embedder_provider(c: ConfigView, oauth_token: bool) -> Seq<char> {
    chosen_provider(c, oauth_token, "hash"@)
}

pub open spec fn reranker_provider(c: ConfigView, oauth_token: bool) -> Seq<char> {
    chosen_provider(c, oauth_token, "none"@)
}

pub open spec fn embedding_model_for(c: ConfigView, oauth_token: bool) -> Seq<char> {
    match c.embedding_model {
        Some(m) => m,
        None => {
            let p = embedder_provider(c, oauth_token);
            if p == "openrouter"@ {
                "openai/text-embedding-3-small"@
            } else if p == "deepseek"@ {
                "deepseek-embedding"@
            } else {
                "text-embedding-3-small"@
            }
        },
    }
}

pub open spec fn reranker_model_for(c: ConfigView, oauth_token: bool) -> Seq<char> {
    match c.reranker_model {
        Some(m) => m,
        None => {
            let p = reranker_provider(c, oauth_token);
            if p == "openrouter"@ {
                "openai/gpt-4o-mini"@
            } else if p == "deepseek"@ {
                "deepseek-chat"@
            } else {
                "gpt-4o-mini"@
            }
        },
    }
}

pub open spec fn unwrap_or<A>(o: Option<A>, d: A) -> A {
    match o {
        Some(x) => x,
        None => d,
    }
}

/// The human-readable provider line.
pub open spec fn provider_summary(c: ConfigView, oauth_token: bool) -> Seq<char> {
    let ep = embedder_provider(c, oauth_token);
    let rp = reranker_provider(c, oauth_token);
    let embed = if ep == "hash"@ {
        "Embed: hash-based"@
    } else {
        "Embed: "@ + ep + " ("@ + embedding_model_for(c, oauth_token) + ")"@
    };
    if rp == "none"@ {
        embed + " · "@ + "Rerank: disabled"@
    } else {
        let rerank = "Rerank: "@ + rp + " ("@ + reranker_model_for(c, oauth_token) + ")"@;
        if unwrap_or(c.ensemble_rerank, false) {
            embed + " · "@ + rerank + " · "@ + "Ensemble: on ("@ + decimal(
                unwrap_or(c.ensemble_count, 2) as nat,
            ) + " providers)"@
        } else {
            embed + " · "@ + rerank
        }
    }
}

fn clone_opt(o: &Option<String>) -> (r: Option<String>)
    ensures
        opt_view(r) == opt_view(*o),
{
    match o {
        Some(s) => Some(s.clone()),
        None => None,
    }
}

fn is_set(k: &Option<String>) -> (r: bool)
    ensures
        r == key_set(opt_view(*k)),
{
    match k {
        Some(s) => !s.as_str().is_empty(),
        None => false,
    }
}

fn keep_set(k: Option<String>) -> (r: Option<String>)
    ensures
        opt_view(r) == non_empty(opt_view(k)),
{
    if is_set(&k) {
        k
    } else {
        None
    }
}

fn first_of<A>(a: Option<A>, b: Option<A>) -> (r: Option<A>)
    ensures
        r == or_else(a, b),
{
    match a {
        Some(x) => Some(x),
        None => b,
    }
}

fn first_str(a: Option<String>, b: Option<String>) -> (r: Option<String>)
    ensures
        opt_view(r) == or_else(opt_view(a), opt_view(b)),
{
    match a {
        Some(x) => Some(x),
        None => b,
    }
}

fn owned(s: &str) -> (r: String)
    ensures
        r@ == s@,
{
    string_of(&chars_of(s))
}

impl Default for Config {
    /// The built-in defaults.
    fn default() -> (r: Self)
        ensures
            r@ == default_view(),
    {
        Config {
            openai_key: None,
            openrouter_key: None,
            deepseek_key: None,
            codex_key: None,
            provider: None,
            openai_base_url: None,
            openrouter_base_url: None,
            deepseek_base_url: None,
            embedding_model: Some(owned("text-embedding-3-small")),
            reranker_model: Some(owned("gpt-4o-mini")),
            use_reranker: Some(true),
            ensemble_rerank: Some(false),
            ensemble_count: Some(2),
            code_chunking: Some(false),
            cross_file_refs: Some(false),
            term_expansion: Some(false),
            parallel_embed: Some(false),
            cache_ttl: Some(3600),
        }
    }
}

impl Config {
    /// The value of the first variable named `name` in `vars`.
    pub fn env_var(vars: &[(String, String)], name: &str) -> (r: Option<String>)
        ensures
            opt_view(r) == env_get(vars@, name@),
    {
        let n = chars_of(name);
        let mut i: usize = 0;
        proof {
            assert(vars@.skip(0) =~= vars@);
        }
        while i < vars.len()
            invariant
                i <= vars@.len(),
                n@ == name@,
                env_get(vars@, name@) == env_get(vars@.skip(i as int), name@),
            decreases vars.len() - i,
        {
            proof {
                assert(vars@.skip(i as int).drop_first() =~= vars@.skip(i + 1));
                assert(vars@.skip(i as int)[0] == vars@[i as int]);
            }
            if chars_are(&chars_of(vars[i].0.as_str()), name) {
                return Some(vars[i].1.clone());
            }
            i += 1;
        }
        None
    }

    fn env_flag_value(vars: &[(String, String)], name: &str, dflt: Option<bool>) -> (r: Option<
        bool,
    >)
        ensures
            r == env_flag(vars@, name@, dflt),
    {
        match Self::env_var(vars, name) {
            Some(v) => {
                let c = chars_of(v.as_str());
                Some(chars_are(&c, "true") || chars_are(&c, "1"))
            },
            None => dflt,
        }
    }

    /// The defaults overridden by the environment variables in `vars`.
    pub fn from_env(vars: &[(String, String)]) -> (r: Self)
        ensures
            r@ == env_view(vars@),
    {
        let mut config = Self::default();
        if let Some(p) = Self::env_var(vars, "CONTEXT_COMPILER_PROVIDER") {
            config.provider = Some(p);
        }
        if let Some(key) = Self::env_var(vars, "CONTEXT_COMPILER_OPENAI_KEY") {
            config.openai_key = Some(key);
        } else if let Some(key) = Self::env_var(vars, "OPENAI_API_KEY") {
            config.openai_key = Some(key);
        }
        if let Some(key) = Self::env_var(vars, "CONTEXT_COMPILER_OPENROUTER_KEY") {
            config.openrouter_key = Some(key);
        }
        if let Some(key) = Self::env_var(vars, "CONTEXT_COMPILER_DEEPSEEK_KEY") {
            config.deepseek_key = Some(key);
        }
        if let Some(key) = Self::env_var(vars, "CONTEXT_COMPILER_CODEX_KEY") {
            config.codex_key = Some(key);
        }
        if let Some(url) = Self::env_var(vars, "CONTEXT_COMPILER_OPENAI_BASE_URL") {
            config.openai_base_url = Some(url);
        }
        if let Some(url) = Self::env_var(vars, "CONTEXT_COMPILER_OPENROUTER_BASE_URL") {
            config.openrouter_base_url = Some(url);
        }
        if let Some(url) = Self::env_var(vars, "CONTEXT_COMPILER_DEEPSEEK_BASE_URL") {
            config.deepseek_base_url = Some(url);
        }
        if let Some(model) = Self::env_var(vars, "CONTEXT_COMPILER_EMBEDDING_MODEL") {
            config.embedding_model = Some(model);
        }
        if let Some(model) = Self::env_var(vars, "CONTEXT_COMPILER_RERANKER_MODEL") {
            config.reranker_model = Some(model);
        }
        config.use_reranker = Self::env_flag_value(
            vars,
            "CONTEXT_COMPILER_USE_RERANKER",
            config.use_reranker,
        );
        config.ensemble_rerank = Self::env_flag_value(
            vars,
            "CONTEXT_COMPILER_ENSEMBLE_RERANK",
            config.ensemble_rerank,
        );
        config.code_chunking = Self::env_flag_value(
            vars,
            "CONTEXT_COMPILER_CODE_CHUNKING",
            config.code_chunking,
        );
        config.cross_file_refs = Self::env_flag_value(
            vars,
            "CONTEXT_COMPILER_CROSS_FILE_REFS",
            config.cross_file_refs,
        );
        config.parallel_embed = Self::env_flag_value(
            vars,
            "CONTEXT_COMPILER_PARALLEL_EMBED",
            config.parallel_embed,
        );
        config
    }

    /// Merge another config into this one: its set fields win, and empty
    /// keys count as unset.
    pub fn merge(self, other: Option<Self>) -> (r: Self)
        ensures
            r@ == match other {
                Some(o) => merge_views(self@, o@),
                None => self@,
            },
    {
        let other = match other {
            Some(o) => o,
            None => return self,
        };
        Config {
            openai_key: first_str(keep_set(other.openai_key), keep_set(self.openai_key)),
            openrouter_key: first_str(keep_set(other.openrouter_key), keep_set(self.openrouter_key)),
            deepseek_key: first_str(keep_set(other.deepseek_key), keep_set(self.deepseek_key)),
            codex_key: first_str(keep_set(other.codex_key), keep_set(self.codex_key)),
            provider: first_str(other.provider, self.provider),
            openai_base_url: first_str(other.openai_base_url, self.openai_base_url),
            openrouter_base_url: first_str(other.openrouter_base_url, self.openrouter_base_url),
            deepseek_base_url: first_str(other.deepseek_base_url, self.deepseek_base_url),
            embedding_model: first_str(other.embedding_model, self.embedding_model),
            reranker_model: first_str(other.reranker_model, self.reranker_model),
            use_reranker: first_of(other.use_reranker, self.use_reranker),
            ensemble_rerank: first_of(other.ensemble_rerank, self.ensemble_rerank),
            ensemble_count: first_of(other.ensemble_count, self.ensemble_count),
            code_chunking: first_of(other.code_chunking, self.code_chunking),
            cross_file_refs: first_of(other.cross_file_refs, self.cross_file_refs),
            term_expansion: first_of(other.term_expansion, self.term_expansion),
            parallel_embed: first_of(other.parallel_embed, self.parallel_embed),
            cache_ttl: first_of(other.cache_ttl, self.cache_ttl),
        }
    }

    /// Load a project's config: the environment over the defaults, then the
    /// project's config file (already read and parsed) over that.
    pub fn load(file_config: Option<Config>, vars: &[(String, String)]) -> (r: Self)
        ensures
            r@ == match file_config {
                Some(f) => merge_views(env_view(vars@), f@),
                None => env_view(vars@),
            },
    {
        Self::from_env(vars).merge(file_config)
    }

    pub fn has_openai_key(&self) -> (r: bool)
        ensures
            r == key_set(self@.openai_key),
    {
        is_set(&self.openai_key)
    }

    pub fn has_openrouter_key(&self) -> (r: bool)
        ensures
            r == key_set(self@.openrouter_key),
    {
        is_set(&self.openrouter_key)
    }

    pub fn has_deepseek_key(&self) -> (r: bool)
        ensures
            r == key_set(self@.deepseek_key),
    {
        is_set(&self.deepseek_key)
    }

    /// A Codex key is configured, or a Codex OAuth token file was found
    /// (`oauth_token` is what reading that file gave).
    pub fn has_codex_key(&self, oauth_token: &Option<String>) -> (r: bool)
        ensures
            r == (key_set(self@.codex_key) || oauth_token.is_some()),
    {
        if is_set(&self.codex_key) {
            return true;
        }
        oauth_token.is_some()
    }

    fn chosen_provider_exec(&self, oauth_token: &Option<String>, fallback: &'static str) -> (r:
        &'static str)
        ensures
            r@ == chosen_provider(self@, oauth_token.is_some(), fallback@),
    {
        if let Some(p) = &self.provider {
            let c = chars_of(p.as_str());
            if chars_are(&c, "openai") {
                return "openai";
            } else if chars_are(&c, "openrouter") {
                return "openrouter";
            } else if chars_are(&c, "deepseek") {
                return "deepseek";
            } else if chars_are(&c, "codex") {
                return "codex";
            }
        }
        if self.has_openai_key() {
            "openai"
        } else if self.has_openrouter_key() {
            "openrouter"
        } else if self.has_deepseek_key() {
            "deepseek"
        } else if self.has_codex_key(oauth_token) {
            "codex"
        } else {
            fallback
        }
    }

    /// The provider used for embeddings.
    pub fn selected_embedder_provider(&self, oauth_token: &Option<String>) -> (r: &'static str)
        ensures
            r@ == embedder_provider(self@, oauth_token.is_some()),
    {
        self.chosen_provider_exec(oauth_token, "hash")
    }

    /// The provider used for reranking.
    pub fn selected_reranker_provider(&self, oauth_token: &Option<String>) -> (r: &'static str)
        ensures
            r@ == reranker_provider(self@, oauth_token.is_some()),
    {
        self.chosen_provider_exec(oauth_token, "none")
    }

    /// The embedding model name for the selected provider.
    pub fn embedding_model_name(&self, oauth_token: &Option<String>) -> (r: String)
        ensures
            r@ == embedding_model_for(self@, oauth_token.is_some()),
    {
        if let Some(model) = &self.embedding_model {
            return model.clone();
        }
        let p = chars_of(self.selected_embedder_provider(oauth_token));
        if chars_are(&p, "openrouter") {
            owned("openai/text-embedding-3-small")
        } else if chars_are(&p, "deepseek") {
            owned("deepseek-embedding")
        } else {
            owned("text-embedding-3-small")
        }
    }

    /// The reranker model name for the selected provider.
    pub fn reranker_model_name(&self, oauth_token: &Option<String>) -> (r: String)
        ensures
            r@ == reranker_model_for(self@, oauth_token.is_some()),
    {
        if let Some(model) = &self.reranker_model {
            return model.clone();
        }
        let p = chars_of(self.selected_reranker_provider(oauth_token));
        if chars_are(&p, "openrouter") {
            owned("openai/gpt-4o-mini")
        } else if chars_are(&p, "deepseek") {
            owned("deepseek-chat")
        } else {
            owned("gpt-4o-mini")
        }
    }

    /// Human-readable provider summary.
    pub fn provider_context_summary(&self, oauth_token: &Option<String>) -> (r: String)
        ensures
            r@ == provider_summary(self@, oauth_token.is_some()),
    {
        let embed_provider = self.selected_embedder_provider(oauth_token);
        let rerank_provider = self.selected_reranker_provider(oauth_token);
        let embed_model = self.embedding_model_name(oauth_token);
        let rerank_model = self.reranker_model_name(oauth_token);
        let ep = chars_of(embed_provider);
        let rp = chars_of(rerank_provider);
        let mut out: Vec<char> = Vec::new();
        if chars_are(&ep, "hash") {
            append_chars(&mut out, &chars_of("Embed: hash-based"));
        } else {
            append_chars(&mut out, &chars_of("Embed: "));
            append_chars(&mut out, &ep);
            append_chars(&mut out, &chars_of(" ("));
            append_chars(&mut out, &chars_of(embed_model.as_str()));
            append_chars(&mut out, &chars_of(")"));
        }
        let ghost embed = out@;
        append_chars(&mut out, &chars_of(" · "));
        if chars_are(&rp, "none") {
            append_chars(&mut out, &chars_of("Rerank: disabled"));
        } else {
            append_chars(&mut out, &chars_of("Rerank: "));
            append_chars(&mut out, &rp);
            append_chars(&mut out, &chars_of(" ("));
            append_chars(&mut out, &chars_of(rerank_model.as_str()));
            append_chars(&mut out, &chars_of(")"));
            let ensemble = match self.ensemble_rerank {
                Some(b) => b,
                None => false,
            };
            if ensemble {
                let count = match self.ensemble_count {
                    Some(n) => n,
                    None => 2,
                };
                append_chars(&mut out, &chars_of(" · "));
                append_chars(&mut out, &chars_of("Ensemble: on ("));
                append_chars(&mut out, &decimal_chars(count as u64));
                append_chars(&mut out, &chars_of(" providers)"));
            }
        }
        assert(out@ =~= provider_summary(self@, oauth_token.is_some()));
        string_of(&out)
    }
}

/// Law: layering is associative, so stacking defaults, global and local
/// settings gives the same result however the layers are grouped.
pub proof fn law_merge_associative(a: ConfigView, b: ConfigView, c: ConfigView)
    ensures
        merge_views(merge_views(a, b), c) == merge_views(a, merge_views(b, c)),
{
}

/// Law: a layer with nothing set changes nothing but dropping empty keys.
pub proof fn law_merge_empty_top(a: ConfigView)
    ensures
        merge_views(
            a,
            ConfigView {
                openai_key: None,
                openrouter_key: None,
                deepseek_key: None,
                codex_key: None,
                provider: None,
                openai_base_url: None,
                openrouter_base_url: None,
                deepseek_base_url: None,
                embedding_model: None,
                reranker_model: None,
                use_reranker: None,
                ensemble_rerank: None,
                ensemble_count: None,
                code_chunking: None,
                cross_file_refs: None,
                term_expansion: None,
                parallel_embed: None,
                cache_ttl: None,
            },
        ) == (ConfigView {
            openai_key: non_empty(a.openai_key),
            openrouter_key: non_empty(a.openrouter_key),
            deepseek_key: non_empty(a.deepseek_key),
            codex_key: non_empty(a.codex_key),
            ..a
        }),
{
}

/// Law: a configure request that changes nothing leaves the configuration
/// as it was.
pub proof fn law_configure_nothing_keeps_config(c: ConfigView, ch: ConfigChanges)
    requires
        !changes_any(ch),
    ensures
        applied(c, ch) == c,
{
}

/// Law: an explicitly configured known provider is always the one used,
/// whatever keys are set; otherwise the provider used has a key, or is the
/// fallback.
pub proof fn law_provider_choice(c: ConfigView, oauth_token: bool, fallback: Seq<char>)
    ensures
        (c.provider is Some && known_provider(c.provider->0)) ==> chosen_provider(
            c,
            oauth_token,
            fallback,
        ) == c.provider->0,
        !(c.provider is Some && known_provider(c.provider->0)) ==> {
            let r = chosen_provider(c, oauth_token, fallback);
            ||| (r == "openai"@ && key_set(c.openai_key))
            ||| (r == "openrouter"@ && key_set(c.openrouter_key))
            ||| (r == "deepseek"@ && key_set(c.deepseek_key))
            ||| (r == "codex"@ && (key_set(c.codex_key) || oauth_token))
            ||| r == fallback
        },
{
}

/// The settings a configure request asks to change (`None` leaves one as
/// it is).
pub struct ConfigChanges {
    pub set_openai_key: Option<String>,
    pub set_embedding_model: Option<String>,
    pub set_reranker_model: Option<String>,
    pub set_use_reranker: Option<bool>,
    pub set_provider: Option<String>,
    pub set_openrouter_key: Option<String>,
    pub set_deepseek_key: Option<String>,
    pub set_codex_key: Option<String>,
    pub set_ensemble_rerank: Option<bool>,
    pub set_code_chunking: Option<bool>,
    pub set_cross_file_refs: Option<bool>,
    pub set_parallel_embed: Option<bool>,
}

/// Whether a configure request changes any setting.
pub open spec fn changes_any(ch: ConfigChanges) -> bool {
    ||| ch.set_openai_key is Some
    ||| ch.set_embedding_model is Some
    ||| ch.set_reranker_model is Some
    ||| ch.set_use_reranker is Some
    ||| ch.set_provider is Some
    ||| ch.set_openrouter_key is Some
    ||| ch.set_deepseek_key is Some
    ||| ch.set_codex_key is Some
    ||| ch.set_ensemble_rerank is Some
    ||| ch.set_code_chunking is Some
    ||| ch.set_cross_file_refs is Some
    ||| ch.set_parallel_embed is Some
}

/// `c` with each requested setting written over it, as given (an empty key
/// included).
pub open spec fn applied(c: ConfigView, ch: ConfigChanges) -> ConfigView {
    ConfigView {
        openai_key: or_else(opt_view(ch.set_openai_key), c.openai_key),
        openrouter_key: or_else(opt_view(ch.set_openrouter_key), c.openrouter_key),
        deepseek_key: or_else(opt_view(ch.set_deepseek_key), c.deepseek_key),
        codex_key: or_else(opt_view(ch.set_codex_key), c.codex_key),
        provider: or_else(opt_view(ch.set_provider), c.provider),
        embedding_model: or_else(opt_view(ch.set_embedding_model), c.embedding_model),
        reranker_model: or_else(opt_view(ch.set_reranker_model), c.reranker_model),
        use_reranker: or_else(ch.set_use_reranker, c.use_reranker),
        ensemble_rerank: or_else(ch.set_ensemble_rerank, c.ensemble_rerank),
        code_chunking: or_else(ch.set_code_chunking, c.code_chunking),
        cross_file_refs: or_else(ch.set_cross_file_refs, c.cross_file_refs),
        parallel_embed: or_else(ch.set_parallel_embed, c.parallel_embed),
        ..c
    }
}

impl ConfigChanges {
    /// Whether any setting is to change.
    pub fn any(&self) -> (r: bool)
        ensures
            r == changes_any(*self),
    {
        self.set_openai_key.is_some() || self.set_embedding_model.is_some()
            || self.set_reranker_model.is_some() || self.set_use_reranker.is_some()
            || self.set_provider.is_some() || self.set_openrouter_key.is_some()
            || self.set_deepseek_key.is_some() || self.set_codex_key.is_some()
            || self.set_ensemble_rerank.is_some() || self.set_code_chunking.is_some()
            || self.set_cross_file_refs.is_some() || self.set_parallel_embed.is_some()
    }
}

impl Config {
    /// Write the requested settings over this configuration.
    pub fn apply(&mut self, changes: &ConfigChanges)
        ensures
            final(self)@ == applied(old(self)@, *changes),
    {
        if changes.set_openai_key.is_some() {
            self.openai_key = clone_opt(&changes.set_openai_key);
        }
        if changes.set_embedding_model.is_some() {
            self.embedding_model = clone_opt(&changes.set_embedding_model);
        }
        if changes.set_reranker_model.is_some() {
            self.reranker_model = clone_opt(&changes.set_reranker_model);
        }
        if let Some(b) = changes.set_use_reranker {
            self.use_reranker = Some(b);
        }
        if changes.set_provider.is_some() {
            self.provider = clone_opt(&changes.set_provider);
        }
        if changes.set_openrouter_key.is_some() {
            self.openrouter_key = clone_opt(&changes.set_openrouter_key);
        }
        if changes.set_deepseek_key.is_some() {
            self.deepseek_key = clone_opt(&changes.set_deepseek_key);
        }
        if changes.set_codex_key.is_some() {
            self.codex_key = clone_opt(&changes.set_codex_key);
        }
        if let Some(b) = changes.set_ensemble_rerank {
            self.ensemble_rerank = Some(b);
        }
        if let Some(b) = changes.set_code_chunking {
            self.code_chunking = Some(b);
        }
        if let Some(b) = changes.set_cross_file_refs {
            self.cross_file_refs = Some(b);
        }
        if let Some(b) = changes.set_parallel_embed {
            self.parallel_embed = Some(b);
        }
    }
}

/// The home directory named by the environment: `HOME`, else `USERPROFILE`,
/// else the current directory.
pub open spec fn home_dir(vars: Seq<(String, String)>) -> Seq<char> {
    or_else(env_get(vars, "HOME"@), or_else(env_get(vars, "USERPROFILE"@), Some("."@)))->0
}

/// Where the global configuration lives: `.ctx/config.toml` under the home
/// directory.
pub fn global_config_path(vars: &[(String, String)]) -> (r: String)
    ensures
        r@ == path_join(home_dir(vars@), ".ctx/config.toml"@),
{
    let home = match Config::env_var(vars, "HOME") {
        Some(h) => h,
        None => match Config::env_var(vars, "USERPROFILE") {
            Some(h) => h,
            None => string_of(&chars_of(".")),
        },
    };
    string_of(&join_path(&chars_of(home.as_str()), &chars_of(".ctx/config.toml")))
}

/// Load the global config (`~/.ctx/config.toml`, already read and parsed):
/// the environment over the defaults, then the file over that.
pub fn load_global_config(file_config: Option<Config>, vars: &[(String, String)]) -> (r: Config)
    ensures
        r@ == match file_config {
            Some(f) => merge_views(env_view(vars@), f@),
            None => env_view(vars@),
        },
{
    if let Some(config) = file_config {
        Config::from_env(vars).merge(Some(config))
    } else {
        Config::from_env(vars)
    }
}

/// The effective configuration of a project: the project's settings over
/// the global ones.
pub fn load_config(global: Config, local: Config) -> (r: Config)
    ensures
        r@ == merge_views(global@, local@),
{
    global.merge(Some(local))
}


/// Law: which provider is used. A configured provider named openai,
/// openrouter, deepseek or codex is used as is. Otherwise the first of
/// these with a non-empty key is used, in the order openai, openrouter,
/// deepseek, codex (for codex a Codex OAuth token also counts); with none,
/// the fallback (`hash` for embeddings, `none` for reranking).
pub proof fn law_provider_priority(c: ConfigView, oauth_token: bool, fallback: Seq<char>)
    ensures
        ({
            let r = chosen_provider(c, oauth_token, fallback);
            let named = c.provider matches Some(p) && (p == "openai"@ || p == "openrouter"@ || p
                == "deepseek"@ || p == "codex"@);
            let openai = c.openai_key matches Some(k) && k.len() > 0;
            let openrouter = c.openrouter_key matches Some(k) && k.len() > 0;
            let deepseek = c.deepseek_key matches Some(k) && k.len() > 0;
            let codex = (c.codex_key matches Some(k) && k.len() > 0) || oauth_token;
            &&& named ==> r == c.provider->0
            &&& !named && openai ==> r == "openai"@
            &&& !named && !openai && openrouter ==> r == "openrouter"@
            &&& !named && !openai && !openrouter && deepseek ==> r == "deepseek"@
            &&& !named && !openai && !openrouter && !deepseek && codex ==> r == "codex"@
            &&& !named && !openai && !openrouter && !deepseek && !codex ==> r == fallback
        }),
{
}

/// Law: the model names. A configured model is used as is; otherwise the
/// embedding model is `openai/text-embedding-3-small` with OpenRouter,
/// `deepseek-embedding` with DeepSeek and `text-embedding-3-small` with any
/// other provider, and the reranker model `openai/gpt-4o-mini`,
/// `deepseek-chat` and `gpt-4o-mini` likewise.
pub proof fn law_model_names(c: ConfigView, oauth_token: bool)
    ensures
        c.embedding_model matches Some(m) ==> embedding_model_for(c, oauth_token) == m,
        c.embedding_model is None && embedder_provider(c, oauth_token) == "openrouter"@
            ==> embedding_model_for(c, oauth_token) == "openai/text-embedding-3-small"@,
        c.embedding_model is None && embedder_provider(c, oauth_token) == "deepseek"@
            ==> embedding_model_for(c, oauth_token) == "deepseek-embedding"@,
        c.embedding_model is None && embedder_provider(c, oauth_token) != "openrouter"@
            && embedder_provider(c, oauth_token) != "deepseek"@ ==> embedding_model_for(c, oauth_token)
            == "text-embedding-3-small"@,
        c.reranker_model matches Some(m) ==> reranker_model_for(c, oauth_token) == m,
        c.reranker_model is None && reranker_provider(c, oauth_token) == "openrouter"@
            ==> reranker_model_for(c, oauth_token) == "openai/gpt-4o-mini"@,
        c.reranker_model is None && reranker_provider(c, oauth_token) == "deepseek"@
            ==> reranker_model_for(c, oauth_token) == "deepseek-chat"@,
        c.reranker_model is None && reranker_provider(c, oauth_token) != "openrouter"@
            && reranker_provider(c, oauth_token) != "deepseek"@ ==> reranker_model_for(c, oauth_token)
            == "gpt-4o-mini"@,
{
    reveal_strlit("openrouter");
    assert("openrouter"@.len() == 10);
    assert("openrouter"@[0] == 'o');
    assert("openrouter"@[1] == 'p');
    assert("openrouter"@[2] == 'e');
    reveal_strlit("deepseek");
    assert("deepseek"@.len() == 8);
    assert("deepseek"@[0] == 'd');
    assert("deepseek"@[1] == 'e');
    assert("deepseek"@[2] == 'e');
}

/// Law: the built-in defaults: no keys, provider or base URLs; embedding
/// model `text-embedding-3-small`; reranker model `gpt-4o-mini`; reranker
/// on; ensemble off with 2 providers; code chunking, cross-file references,
/// term expansion and parallel embedding off; cache TTL 3600 seconds.
pub proof fn law_defaults()
    ensures
        ({
            let d = default_view();
            &&& d.openai_key is None && d.openrouter_key is None && d.deepseek_key is None
            &&& d.codex_key is None && d.provider is None
            &&& d.openai_base_url is None && d.openrouter_base_url is None && d.deepseek_base_url is None
            &&& d.embedding_model == Some("text-embedding-3-small"@)
            &&& d.reranker_model == Some("gpt-4o-mini"@)
            &&& d.use_reranker == Some(true) && d.ensemble_rerank == Some(false)
            &&& d.ensemble_count == Some(2usize)
            &&& d.code_chunking == Some(false) && d.cross_file_refs == Some(false)
            &&& d.term_expansion == Some(false) && d.parallel_embed == Some(false)
            &&& d.cache_ttl == Some(3600u64)
        }),
{
}

/// Law: the environment variables and what they set. Each of
/// CONTEXT_COMPILER_PROVIDER, _OPENROUTER_KEY, _DEEPSEEK_KEY, _CODEX_KEY,
/// _OPENAI_BASE_URL, _OPENROUTER_BASE_URL, _DEEPSEEK_BASE_URL,
/// _EMBEDDING_MODEL and _RERANKER_MODEL, when set, gives its setting;
/// the OpenAI key comes from CONTEXT_COMPILER_OPENAI_KEY, else
/// OPENAI_API_KEY; the flags _USE_RERANKER, _ENSEMBLE_RERANK,
/// _CODE_CHUNKING, _CROSS_FILE_REFS and _PARALLEL_EMBED are on exactly
/// for "true" or "1"; unset variables leave the defaults.
pub proof fn law_environment(vars: Seq<(String, String)>)
    ensures
        ({
            let e = env_view(vars);
            let d = default_view();
            let flag = |name: Seq<char>, dv: Option<bool>| match env_get(vars, name) {
                Some(v) => Some(v == "true"@ || v == "1"@),
                None => dv,
            };
            let text = |name: Seq<char>, dv: Option<Seq<char>>| match env_get(vars, name) {
                Some(v) => Some(v),
                None => dv,
            };
            &&& e.provider == text("CONTEXT_COMPILER_PROVIDER"@, d.provider)
            &&& e.openai_key == text(
                "CONTEXT_COMPILER_OPENAI_KEY"@,
                text("OPENAI_API_KEY"@, d.openai_key),
            )
            &&& e.openrouter_key == text("CONTEXT_COMPILER_OPENROUTER_KEY"@, d.openrouter_key)
            &&& e.deepseek_key == text("CONTEXT_COMPILER_DEEPSEEK_KEY"@, d.deepseek_key)
            &&& e.codex_key == text("CONTEXT_COMPILER_CODEX_KEY"@, d.codex_key)
            &&& e.openai_base_url == text("CONTEXT_COMPILER_OPENAI_BASE_URL"@, d.openai_base_url)
            &&& e.openrouter_base_url == text(
                "CONTEXT_COMPILER_OPENROUTER_BASE_URL"@,
                d.openrouter_base_url,
            )
            &&& e.deepseek_base_url == text("CONTEXT_COMPILER_DEEPSEEK_BASE_URL"@, d.deepseek_base_url)
            &&& e.embedding_model == text("CONTEXT_COMPILER_EMBEDDING_MODEL"@, d.embedding_model)
            &&& e.reranker_model == text("CONTEXT_COMPILER_RERANKER_MODEL"@, d.reranker_model)
            &&& e.use_reranker == flag("CONTEXT_COMPILER_USE_RERANKER"@, d.use_reranker)
            &&& e.ensemble_rerank == flag("CONTEXT_COMPILER_ENSEMBLE_RERANK"@, d.ensemble_rerank)
            &&& e.code_chunking == flag("CONTEXT_COMPILER_CODE_CHUNKING"@, d.code_chunking)
            &&& e.cross_file_refs == flag("CONTEXT_COMPILER_CROSS_FILE_REFS"@, d.cross_file_refs)
            &&& e.parallel_embed == flag("CONTEXT_COMPILER_PARALLEL_EMBED"@, d.parallel_embed)
            &&& e.ensemble_count == d.ensemble_count && e.term_expansion == d.term_expansion
            &&& e.cache_ttl == d.cache_ttl
        }),
{
}

} // verus!

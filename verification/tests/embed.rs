use context_compiler::config::Config;
use context_compiler::embed::{Embedder, EMBEDDING_DIM};

#[test]
fn test_extract_identifiers_camel_case() {
    let ids = Embedder::extract_identifiers("clearIgnoredDiscoveredRepos");
    assert!(ids.contains(&"clearIgnoredDiscoveredRepos".to_string()), "whole id");
    assert!(ids.contains(&"clear".to_string()), "camel clear");
    assert!(ids.contains(&"ignored".to_string()), "camel ignored");
    assert!(ids.contains(&"discovered".to_string()), "camel discovered");
    assert!(ids.contains(&"repos".to_string()), "camel repos");
}

#[test]
fn test_extract_identifiers_snake_case() {
    let ids = Embedder::extract_identifiers("auth_middleware");
    assert!(ids.contains(&"auth_middleware".to_string()));
    assert!(ids.contains(&"auth".to_string()));
    assert!(ids.contains(&"middleware".to_string()));
}

#[test]
fn test_extract_identifiers_mixed() {
    let ids = Embedder::extract_identifiers("SomeFile.test_runner");
    assert!(ids.contains(&"SomeFile".to_string()));
    assert!(ids.contains(&"test_runner".to_string()));
    assert!(ids.contains(&"test".to_string()));
    assert!(ids.contains(&"runner".to_string()));
}

#[test]
fn test_tokenize_code_identifiers() {
    let words = Embedder::tokenize("AuthMiddleware");
    assert!(words.contains(&"auth".to_string()));
    assert!(words.contains(&"middleware".to_string()));
}

#[test]
fn test_tokenize_paths() {
    let words = Embedder::tokenize("src/auth/middleware.ts");
    assert!(words.contains(&"src".to_string()));
    assert!(words.contains(&"auth".to_string()));
    assert!(words.contains(&"middleware".to_string()));
}

#[test]
fn test_simple_hash_stable() {
    let h1 = Embedder::simple_hash("auth");
    let h2 = Embedder::simple_hash("auth");
    assert_eq!(h1, h2);
}

#[test]
fn test_tokenize_filters_short_words() {
    let words = Embedder::tokenize("a b c d e f");
    assert!(words.is_empty(), "all single-char words should be filtered");
}

#[test]
fn extract_identifiers_exact_order() {
    assert_eq!(
        Embedder::extract_identifiers("auth_middleware"),
        vec!["auth_middleware", "auth", "auth", "middleware", "middleware"]
    );
    assert_eq!(
        Embedder::extract_identifiers("x HTTPServer y"),
        vec!["HTTPServer", "httpserver", "http", "server"]
    );
    assert!(Embedder::extract_identifiers("a b - c").is_empty());
}

#[test]
fn split_camel_case_words_and_acronyms() {
    assert_eq!(
        Embedder::split_camel_case("clearIgnoredDiscoveredRepos"),
        vec!["clear", "Ignored", "Discovered", "Repos"]
    );
    assert_eq!(Embedder::split_camel_case("HTTPServer"), vec!["HTTP", "Server"]);
    assert!(Embedder::split_camel_case("a").is_empty());
    assert_eq!(Embedder::split_camel_case("v2Api"), vec!["v2", "Api"]);
}

#[test]
fn add_with_parts_appends_whole_and_parts() {
    let mut ids = vec!["keep".to_string()];
    Embedder::add_with_parts(&mut ids, "getUser_id");
    assert_eq!(ids, vec!["keep", "getUser_id", "getuser", "get", "user", "id", "id"]);
}

#[test]
fn tokenize_exact_words() {
    assert_eq!(
        Embedder::tokenize("getHTTPResponse2x in src/lib.rs"),
        vec!["get", "httpresponse2x", "in", "src", "lib", "rs"]
    );
    assert_eq!(Embedder::tokenize("AuthMiddleware"), vec!["auth", "middleware"]);
    assert!(Embedder::tokenize("").is_empty());
}

#[test]
fn simple_hash_is_djb2() {
    assert_eq!(Embedder::simple_hash(""), 5381);
    assert_eq!(Embedder::simple_hash("a"), 177670);
    assert_eq!(Embedder::simple_hash("ab"), 5863208);
    assert_ne!(Embedder::simple_hash("ab"), Embedder::simple_hash("ba"));
}

#[test]
fn hash_positions_are_hashes_mod_dimension() {
    assert_eq!(Embedder::hash_positions("ab cd"), vec![296, 364]);
    assert!(Embedder::hash_positions("a").is_empty());
}

#[test]
fn dimension_and_init() {
    assert_eq!(Embedder::dimension(), 1536);
    assert_eq!(EMBEDDING_DIM, 1536);
    let e = Embedder::init(&Config::default());
    assert_eq!(e.model, "text-embedding-3-small");
    assert!(e.openai_key.is_none());
    let mut c = Config::default();
    c.embedding_model = None;
    c.openai_key = Some("sk-x".to_string());
    let e = Embedder::init(&c);
    assert_eq!(e.model, "text-embedding-3-small");
    assert_eq!(e.openai_key.as_deref(), Some("sk-x"));
    c.embedding_model = Some("custom".to_string());
    assert_eq!(Embedder::init(&c).model, "custom");
}

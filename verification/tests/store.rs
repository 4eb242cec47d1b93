use context_compiler::store::{ctx_db, ctx_dir, to_fts_query, ImportEdge};

#[test]
fn ctx_paths() {
    assert_eq!(ctx_dir("/repo"), "/repo/.ctx");
    assert_eq!(ctx_dir("/repo/"), "/repo/.ctx");
    assert_eq!(ctx_db("/repo"), "/repo/.ctx/index.db");
    assert_eq!(ctx_db(""), ".ctx/index.db");
}

#[test]
fn fts_query_drops_stopwords_and_short_words() {
    assert_eq!(to_fts_query("fix the auth bug in a middleware"), "auth OR middleware");
    assert_eq!(to_fts_query("the a to"), "");
    assert_eq!(to_fts_query(""), "");
}

#[test]
fn fts_query_quotes_compound_terms() {
    assert_eq!(
        to_fts_query("update repos.ts and auth_middleware in src/lib x-y"),
        "update OR \"repos.ts\" OR \"auth_middleware\" OR \"src/lib\" OR \"x-y\""
    );
}

#[test]
fn fts_query_is_case_sensitive_on_stopwords() {
    assert_eq!(to_fts_query("The Fix"), "The OR Fix");
}

#[test]
fn fts_query_multibyte_single_char_is_kept() {
    assert_eq!(to_fts_query("é x"), "é");
}

#[test]
fn import_edge_fields() {
    let e = ImportEdge { from_path: "a.rs".to_string(), to_path: "b.rs".to_string() };
    assert_eq!(e.from_path, "a.rs");
    assert_eq!(e.to_path, "b.rs");
}

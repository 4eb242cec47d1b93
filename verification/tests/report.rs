use context_compiler::report::{
    is_maskable, language_counts, mask_key, mask_openai_key, score_bar, total_tokens,
};

#[test]
fn bars() {
    assert_eq!(score_bar(95), "█████████░");
    assert_eq!(score_bar(0), "░░░░░░░░░░");
    assert_eq!(score_bar(100), "██████████");
    assert_eq!(score_bar(123), "████████████");
    assert_eq!(score_bar(9), "░░░░░░░░░░");
}

#[test]
fn masking_keys() {
    assert_eq!(mask_openai_key("sk-abcdefghijklmnop"), "sk-abcde...mnop");
    assert_eq!(mask_openai_key("short-key"), "****");
    assert_eq!(mask_openai_key("exactly12chr"), "****");
    assert_eq!(mask_key("or-12345678"), "or-12345...5678");
    assert_eq!(mask_key("12345678"), "12345678...5678");
}

#[test]
fn maskable_keys() {
    assert!(is_maskable("sk-abcdefghijklmnop"));
    assert!(!is_maskable("short"));
    assert!(!is_maskable("abcdefgéhijk"));
    assert!(!is_maskable("abcdefghéxyz"));
    assert!(is_maskable("abcdefghéwxyz"));
    assert!(is_maskable("abcdefghijéz"));
}

#[test]
fn token_totals() {
    assert_eq!(total_tokens(&[]), 0);
    assert_eq!(total_tokens(&[3, 4, 5]), 12);
}

#[test]
fn languages_most_common_first() {
    let langs: Vec<String> = ["rust", "python", "rust", "go", "python", "rust", "c"]
        .iter()
        .map(|s| s.to_string())
        .collect();
    let stats = language_counts(&langs);
    let got: Vec<(&str, usize)> = stats.iter().map(|(l, n)| (l.as_str(), *n)).collect();
    assert_eq!(got, vec![("rust", 3), ("python", 2), ("go", 1), ("c", 1)]);
    assert_eq!(stats.iter().map(|(_, n)| n).sum::<usize>(), langs.len());
    assert!(language_counts(&vec![]).is_empty());
}

use exom::text::token_counts;
use exom::text::tokens;

fn b(s: &str) -> Vec<u8> {
    s.as_bytes().to_vec()
}

#[test]
fn tokens_split() {
    let result = tokens(b"Hello, WORLD-42_test!");
    assert!(result.contains(&b("hello")));
    assert!(result.contains(&b("world-42_test")));
}

#[test]
fn token_counts_tracks_multiples() {
    let counts = token_counts(b"Rust rust RUST!!!");
    let rust = counts.iter().find(|e| e.0 == b("rust"));
    assert_eq!(rust.map(|e| e.1), Some(3));
}

#[test]
fn tokens_are_distinct_in_first_occurrence_order() {
    let result = tokens(b"b a b c a");
    assert_eq!(result, vec![b("b"), b("a"), b("c")]);
}

#[test]
fn token_counts_of_empty_text_are_empty() {
    assert_eq!(token_counts(b"").len(), 0);
    assert_eq!(token_counts(b"...!!!  ").len(), 0);
}

#[test]
fn tokens_keep_digits_underscore_hyphen() {
    let result = tokens(b"v1.2 snake_case kebab-case");
    assert!(result.contains(&b("v1")));
    assert!(result.contains(&b("2")));
    assert!(result.contains(&b("snake_case")));
    assert!(result.contains(&b("kebab-case")));
}

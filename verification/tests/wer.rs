use kiku::wer::{char_edit_distance, corpus_char_counts, corpus_word_counts, edit_distance, word_edit_distance};

#[test]
fn identical_is_zero() {
    assert_eq!(edit_distance(&["a", "b", "c"], &["a", "b", "c"]), 0);
}

#[test]
fn counts_substitution_deletion_insertion() {
    assert_eq!(edit_distance(&["a", "b", "c"], &["a", "x", "c"]), 1); // sub
    assert_eq!(edit_distance(&["a", "b", "c"], &["a", "c"]), 1); // del
    assert_eq!(edit_distance(&["a", "b"], &["a", "x", "b"]), 1); // ins
}

#[test]
fn corpus_wer_pools_by_reference_length() {
    // 1 edit over 3 ref words + 0 edits over 1 ref word = 1/4.
    let pairs = vec![
        ("a b c".to_string(), "a x c".to_string()),
        ("d".to_string(), "d".to_string()),
    ];
    assert_eq!(corpus_word_counts(&pairs), (1, 4));
}

#[test]
fn corpus_cer_ignores_whitespace_and_pools_by_chars() {
    // "안녕 세상" vs "안녕 세상아": 1 insertion over 4 reference chars.
    let pairs = vec![("안녕 세상".to_string(), "안녕 세상아".to_string())];
    assert_eq!(corpus_char_counts(&pairs), (1, 4));
}

#[test]
fn edit_distance_edge_cases() {
    let empty: [u8; 0] = [];
    assert_eq!(edit_distance(&empty, &empty), 0);
    assert_eq!(edit_distance(&[1u8, 2, 3], &empty), 3);
    assert_eq!(edit_distance(&empty, &[1u8, 2]), 2);
    assert_eq!(edit_distance(&['k', 'i', 't', 't', 'e', 'n'], &['s', 'i', 't', 't', 'i', 'n', 'g']), 3);
}

#[test]
fn edit_distance_is_symmetric_on_an_example() {
    let a = ["the", "cat", "sat"];
    let b = ["a", "cat", "sat", "down"];
    assert_eq!(edit_distance(&a, &b), edit_distance(&b, &a));
    assert_eq!(edit_distance(&a, &b), 2);
}

#[test]
fn word_and_char_distances() {
    assert_eq!(word_edit_distance("a  b c ", " a x c"), 1);
    assert_eq!(char_edit_distance("ab c", "abc"), 0);
    assert_eq!(char_edit_distance("abc", "abd e"), 2);
}

#[test]
fn empty_corpus_has_no_reference_words() {
    let pairs: Vec<(String, String)> = vec![("".to_string(), "x y".to_string())];
    assert_eq!(corpus_word_counts(&pairs), (2, 0));
    assert_eq!(corpus_char_counts(&[]), (0, 0));
}

#[test]
fn pooled_counts_add_over_corpora() {
    let a = vec![("a b c".to_string(), "a x c".to_string())];
    let b = vec![("d e".to_string(), "e".to_string()), ("f".to_string(), "f g".to_string())];
    let both: Vec<(String, String)> = a.iter().chain(b.iter()).cloned().collect();
    let (ea, wa) = corpus_word_counts(&a);
    let (eb, wb) = corpus_word_counts(&b);
    assert_eq!(corpus_word_counts(&both), (ea + eb, wa + wb));
    assert_eq!(corpus_word_counts(&both), (3, 6));
    let (ca, ra) = corpus_char_counts(&a);
    let (cb, rb) = corpus_char_counts(&b);
    assert_eq!(corpus_char_counts(&both), (ca + cb, ra + rb));
}

#[test]
fn edit_distance_obeys_the_triangle_inequality() {
    let a = ["the", "quick", "brown", "fox"];
    let b = ["a", "quick", "fox"];
    let c = ["the", "slow", "fox", "jumps"];
    assert!(edit_distance(&a, &c) <= edit_distance(&a, &b) + edit_distance(&b, &c));
    assert_eq!(edit_distance(&a, &c), 3);
}

/// A word compared without regard to case.
#[derive(Debug)]
struct Caseless(&'static str);

impl PartialEq for Caseless {
    fn eq(&self, other: &Self) -> bool {
        self.0.eq_ignore_ascii_case(other.0)
    }
}

#[test]
fn edit_distance_compares_tokens_by_their_eq() {
    let a = [Caseless("The"), Caseless("Cat"), Caseless("sat")];
    let b = [Caseless("the"), Caseless("cat"), Caseless("SAT"), Caseless("down")];
    assert_eq!(edit_distance(&a, &b), 1);
    assert_eq!(edit_distance(&b, &a), 1);
}

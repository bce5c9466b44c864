use kiku::normalize::{
    currency_text, normalize_basic, normalize_english, normalize_english_numbers,
    normalize_english_spelling, try_normalize_basic, try_normalize_english,
    try_normalize_english_numbers, SpellingMap,
};
use kiku::numbers::{convert_words, decimal_chars, parse_digits, scale_decimal};

fn words(s: &str) -> Vec<Vec<char>> {
    s.split_whitespace().map(|w| w.chars().collect()).collect()
}

fn joined(ws: &[Vec<char>]) -> String {
    ws.iter().map(|w| w.iter().collect::<String>()).collect::<Vec<_>>().join(" ")
}

#[test]
fn decimal_round_trip() {
    for n in [0u128, 7, 10, 99, 1000, 123456789, u128::MAX] {
        let d = decimal_chars(n);
        assert_eq!(d.iter().collect::<String>(), n.to_string());
        assert_eq!(parse_digits(&d), Some(n));
    }
}

#[test]
fn parse_digits_overflow() {
    let big: Vec<char> = "340282366920938463463374607431768211456".chars().collect();
    assert_eq!(parse_digits(&big), None);
    let empty: Vec<char> = Vec::new();
    assert_eq!(parse_digits(&empty), Some(0));
}

#[test]
fn decimals_scale_by_multipliers() {
    let c = |s: &str| s.chars().collect::<Vec<char>>();
    assert_eq!(scale_decimal(&c("2.5"), 1_000_000), Some(2_500_000));
    assert_eq!(scale_decimal(&c("52.4"), 1_000_000), Some(52_400_000));
    assert_eq!(scale_decimal(&c(".5"), 100), Some(50));
    assert_eq!(scale_decimal(&c("5."), 100), Some(500));
    assert_eq!(scale_decimal(&c("1.234"), 100), None);
    assert_eq!(scale_decimal(&c("."), 100), None);
    assert_eq!(scale_decimal(&c("1.2.3"), 100), None);
    assert_eq!(scale_decimal(&c("x"), 100), None);
}

#[test]
fn plain_words_pass_through() {
    let ws = words("the cat sat on the mat");
    assert_eq!(convert_words(&ws), Some(ws.clone()));
}

#[test]
fn machine_converts_spelled_numbers() {
    let out = convert_words(&words("i have twenty one apples and five hundred pears")).unwrap();
    assert_eq!(joined(&out), "i have 21 apples and 500 pears");
    let out = convert_words(&words("minus 3 point 5")).unwrap();
    assert_eq!(joined(&out), "-3.5");
}

#[test]
fn overflow_is_reported() {
    let text = "999999999999999999999999999999999999999999 decillion";
    assert_eq!(try_normalize_english_numbers(text), None);
    assert_eq!(try_normalize_english(text, &SpellingMap::new()), None);
    assert_eq!(
        try_normalize_english_numbers("twenty one"),
        Some("21".to_string())
    );
}

#[test]
fn currency_text_pads_and_trims_cents() {
    assert_eq!(currency_text(true, "$", "2", "7"), "$2.07");
    assert_eq!(currency_text(true, "€", "3", "65"), "€3.65");
    assert_eq!(currency_text(false, "05", "", ""), "¢5");
    assert_eq!(currency_text(false, "36", "", ""), "¢36");
}

#[test]
fn spelling_table_last_entry_wins() {
    let mut m = SpellingMap::new();
    m.insert("colour", "color");
    m.insert("colour", "kolor");
    let w: Vec<char> = "colour".chars().collect();
    assert_eq!(m.get(&w), Some("kolor".chars().collect()));
    let other: Vec<char> = "flavour".chars().collect();
    assert_eq!(m.get(&other), None);
    assert_eq!(normalize_english_spelling("  the colour  of flavour ", &m), "the kolor of flavour");
}

#[test]
fn normalizer_output_is_trimmed() {
    let out = normalize_english("  (aside) Hmm, the Colour! ", &SpellingMap::new());
    assert_eq!(out, "the colour");
    assert_eq!(normalize_basic("  [noise] Hello,   World!  "), "hello world");
    assert_eq!(try_normalize_basic("A-B"), Some("a b".to_string()));
}

#[test]
fn english_normalizer_respells_words() {
    let mut m = SpellingMap::new();
    m.insert("colour", "color");
    assert_eq!(normalize_english("The Colour", &m), "the color");
    assert_eq!(normalize_english_numbers("the colour"), "the colour");
}

#[test]
fn a_digit_replaces_the_zero_of_a_tens_word() {
    assert_eq!(normalize_english_numbers("twenty one"), "21");
    assert_eq!(normalize_english_numbers("nineteen ninety nine"), "1999");
    assert_eq!(normalize_english_numbers("twenty twenty"), "2020");
    assert_eq!(normalize_english_numbers("double oh ninety nine"), "0099");
    assert_eq!(normalize_english_numbers("point forty two"), ".42");
}

#[test]
fn english_normalizer_strips_diacritics() {
    assert_eq!(normalize_english("Café", &SpellingMap::new()), "cafe");
    assert_eq!(normalize_english("Œuvre straße Łódź", &SpellingMap::new()), "oeuvre strasse lodz");
    assert_eq!(normalize_english("50% off!", &SpellingMap::new()), "50% off");
}

#[test]
fn whitespace_collapses_to_single_spaces() {
    assert_eq!(normalize_basic("a\u{3000}\t b\u{2028}\u{a0}c "), "a b c");
    assert_eq!(kiku::text::collapse_whitespace_of("  x \n\n y\t"), " x y ");
    assert_eq!(normalize_english("hello\u{2003}\u{2003}world", &SpellingMap::new()), "hello world");
}

#[test]
fn conversion_never_adds_words() {
    for text in ["two dollars and seventy cents", "seventy six per cent", "minus 500", "a b c"] {
        let ws = words(text);
        let out = convert_words(&ws).unwrap();
        assert!(out.len() <= ws.len(), "{text}");
    }
}

use indexer::indexing::{
    is_long_enough, lowercase_char, lowercase_word, lowercase_words, retain_terms, Tokenizer,
    MIN_TERM_BYTES,
};

fn strings(words: &[&str]) -> Vec<String> {
    words.iter().map(|w| w.to_string()).collect()
}

#[test]
fn tokenize_lowercases_and_keeps_order() {
    let tokens = Tokenizer::new().tokenize("The quick brown fox");
    assert_eq!(tokens, strings(&["the", "quick", "brown", "fox"]));
}

#[test]
fn tokenize_splits_on_word_boundaries_and_drops_punctuation() {
    let tokens = Tokenizer::new().tokenize("The quick (\"brown\") fox can't jump 32.3 feet, right?");
    assert_eq!(
        tokens,
        strings(&["the", "quick", "brown", "fox", "can't", "jump", "32.3", "feet", "right"])
    );
}

#[test]
fn tokenize_empty_text_gives_no_tokens() {
    assert_eq!(Tokenizer::new().tokenize(""), Vec::<String>::new());
}

#[test]
fn tokenize_whitespace_and_punctuation_only_gives_no_tokens() {
    assert_eq!(Tokenizer::new().tokenize("  \t\n ... !? -- "), Vec::<String>::new());
}

#[test]
fn tokenize_drops_words_shorter_than_three_bytes() {
    assert_eq!(Tokenizer::new().tokenize("a an to of it is I we"), Vec::<String>::new());
    assert_eq!(Tokenizer::new().tokenize("go to the zoo"), strings(&["the", "zoo"]));
}

#[test]
fn tokenize_keeps_three_byte_words() {
    assert_eq!(Tokenizer::new().tokenize("ant ant ant"), strings(&["ant", "ant", "ant"]));
}

#[test]
fn tokenize_measures_length_in_bytes_after_lowercasing() {
    // "é" takes two bytes and "ñu" three, so "ñu" is kept and "no" is not.
    assert_eq!(Tokenizer::new().tokenize("é ñu no"), strings(&["ñu"]));
    // "İ" is two bytes; its lowercase form "i" is one.
    assert_eq!(Tokenizer::new().tokenize("İ"), Vec::<String>::new());
    assert_eq!(Tokenizer::new().tokenize("İİİ"), strings(&["iii"]));
}

#[test]
fn tokenize_normalizes_unicode_case() {
    let tokens = Tokenizer::new().tokenize("Café café CAFÉ");
    assert_eq!(tokens, strings(&["café", "café", "café"]));
}

#[test]
fn tokenize_is_deterministic() {
    let tokenizer = Tokenizer::new();
    let text = "Größe matters: ΣΊΣΥΦΟΣ rolled 3 stones, twice.";
    assert_eq!(tokenizer.tokenize(text), tokenizer.tokenize(text));
    assert_eq!(tokenizer.tokenize(text), Tokenizer::new().tokenize(text));
}

#[test]
fn tokens_are_lowercase_and_long_enough() {
    let tokens = Tokenizer::new().tokenize("Ünïcödé WORDS In MiXeD Case, ΟΔΟΣ and Straße; ok?");
    assert!(!tokens.is_empty());
    for token in &tokens {
        assert_eq!(token.to_lowercase(), *token);
        assert!(token.len() > 2);
        assert!(token.len() >= MIN_TERM_BYTES);
    }
}

#[test]
fn lowercase_words_maps_each_word() {
    assert_eq!(lowercase_words(&["The", "QUICK", "fox", "ÉCOLE"]), strings(&["the", "quick", "fox", "école"]));
    assert_eq!(lowercase_words(&[]), Vec::<String>::new());
}

#[test]
fn lowercasing_takes_no_account_of_context() {
    assert_eq!(lowercase_words(&["ΟΔΟΣ"]), strings(&["οδοσ"]));
    assert_eq!(lowercase_word("ΟΔΟΣ"), "οδοσ");
    assert_eq!(lowercase_word("Σ"), "σ");
    assert_eq!(Tokenizer::new().tokenize("ΟΔΟΣ"), strings(&["οδοσ"]));
    assert_eq!(Tokenizer::new().tokenize("ΣΊΣΥΦΟΣ ΟΔΟΣ"), strings(&["σίσυφοσ", "οδοσ"]));
}

#[test]
fn lowercasing_maps_one_code_point_to_one() {
    assert_eq!(lowercase_char('İ'), 'i');
    assert_eq!(lowercase_word("İstanbul"), "istanbul");
    assert_eq!(Tokenizer::new().tokenize("İstanbul"), strings(&["istanbul"]));
    for word in ["Straße", "ÉCOLE", "İİ", "ǅ", "ΟΔΟΣ", "mixed CASE 123"] {
        assert_eq!(lowercase_word(word).chars().count(), word.chars().count());
    }
}

#[test]
fn lowercase_char_lowers_letters_and_keeps_the_rest() {
    assert_eq!(lowercase_char('A'), 'a');
    assert_eq!(lowercase_char('Z'), 'z');
    assert_eq!(lowercase_char('a'), 'a');
    assert_eq!(lowercase_char('É'), 'é');
    assert_eq!(lowercase_char('Σ'), 'σ');
    assert_eq!(lowercase_char('ς'), 'ς');
    assert_eq!(lowercase_char('ǅ'), 'ǆ');
    assert_eq!(lowercase_char('7'), '7');
    assert_eq!(lowercase_char('-'), '-');
    assert_eq!(lowercase_char('日'), '日');
}

#[test]
fn lowercase_word_lowers_each_code_point() {
    assert_eq!(lowercase_word(""), "");
    assert_eq!(lowercase_word("QUICK"), "quick");
    assert_eq!(lowercase_word("Can't"), "can't");
    assert_eq!(lowercase_word("CAFÉ"), "café");
    assert_eq!(lowercase_word("already lower"), "already lower");
}

#[test]
fn is_long_enough_counts_bytes() {
    assert!(!is_long_enough(""));
    assert!(!is_long_enough("a"));
    assert!(!is_long_enough("ab"));
    assert!(is_long_enough("abc"));
    assert!(is_long_enough("abcd"));
    assert!(!is_long_enough("é"));
    assert!(is_long_enough("éa"));
    assert!(is_long_enough("日"));
}

#[test]
fn retain_terms_keeps_long_words_in_order() {
    let kept = retain_terms(strings(&["a", "the", "of", "quick", "", "ox", "fox"]));
    assert_eq!(kept, strings(&["the", "quick", "fox"]));
    assert_eq!(retain_terms(Vec::new()), Vec::<String>::new());
    assert_eq!(retain_terms(strings(&["a", "bc"])), Vec::<String>::new());
}

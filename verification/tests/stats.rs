use indexer::error::{IndexError, MAX_TOKENS};
use indexer::indexing::Tokenizer;
use indexer::stats::{aggregate, count_word_frequencies, term_positions, TermStats};

fn words(text: &str) -> Vec<String> {
    text.split(' ').filter(|w| !w.is_empty()).map(|w| w.to_string()).collect()
}

fn stats(term: &str, frequency: i32, positions: &[i32]) -> TermStats {
    TermStats { term: term.to_string(), frequency, positions: positions.to_vec() }
}

#[test]
fn term_positions_are_ascending_indices_of_the_term() {
    let tokens = words("the quick brown fox jumps over the quick fox");
    assert_eq!(term_positions(&tokens, "quick"), Ok(vec![1, 7]));
    assert_eq!(term_positions(&tokens, "the"), Ok(vec![0, 6]));
    assert_eq!(term_positions(&tokens, "fox"), Ok(vec![3, 8]));
    assert_eq!(term_positions(&tokens, "jumps"), Ok(vec![4]));
}

#[test]
fn term_positions_of_absent_term_are_empty() {
    let tokens = words("alpha beta gamma");
    assert_eq!(term_positions(&tokens, "delta"), Ok(vec![]));
    assert_eq!(term_positions(&[], "alpha"), Ok(vec![]));
}

#[test]
fn count_word_frequencies_counts_each_term() {
    let tokens = words("the quick brown fox jumps over the quick fox");
    let frequencies = count_word_frequencies(&tokens).unwrap();
    assert_eq!(frequencies.len(), 6);
    assert_eq!(frequencies.get("the"), Some(&2));
    assert_eq!(frequencies.get("quick"), Some(&2));
    assert_eq!(frequencies.get("brown"), Some(&1));
    assert_eq!(frequencies.get("fox"), Some(&2));
    assert_eq!(frequencies.get("jumps"), Some(&1));
    assert_eq!(frequencies.get("over"), Some(&1));
    assert_eq!(frequencies.get("lazy"), None);
}

#[test]
fn count_word_frequencies_of_no_tokens_is_empty() {
    let frequencies = count_word_frequencies(&[]).unwrap();
    assert!(frequencies.is_empty());
    assert_eq!(frequencies.len(), 0);
}

#[test]
fn aggregate_lists_terms_in_order_of_first_occurrence() {
    let tokens = words("the quick brown fox jumps over the quick fox");
    assert_eq!(
        aggregate(&tokens),
        Ok(vec![
            stats("the", 2, &[0, 6]),
            stats("quick", 2, &[1, 7]),
            stats("brown", 1, &[2]),
            stats("fox", 2, &[3, 8]),
            stats("jumps", 1, &[4]),
            stats("over", 1, &[5]),
        ])
    );
}

#[test]
fn aggregate_of_no_tokens_is_empty() {
    assert_eq!(aggregate(&[]), Ok(vec![]));
}

#[test]
fn aggregate_of_one_repeated_term_is_a_single_entry() {
    assert_eq!(aggregate(&words("ant ant ant")), Ok(vec![stats("ant", 3, &[0, 1, 2])]));
    assert_eq!(aggregate(&words("solo")), Ok(vec![stats("solo", 1, &[0])]));
}

#[test]
fn aggregate_distinguishes_terms_by_exact_text() {
    assert_eq!(
        aggregate(&words("cafe café cafe")),
        Ok(vec![stats("cafe", 2, &[0, 2]), stats("café", 1, &[1])])
    );
}

#[test]
fn aggregation_is_sound_on_a_longer_text() {
    let tokens = Tokenizer::new().tokenize(
        "It was the best of times, it was the worst of times, it was the age of wisdom, \
         it was the age of foolishness, it was the epoch of belief",
    );
    let entries = aggregate(&tokens).unwrap();
    let mut covered = 0usize;
    for (k, entry) in entries.iter().enumerate() {
        assert!(entry.frequency >= 1);
        assert_eq!(entry.frequency as usize, entry.positions.len());
        for pair in entry.positions.windows(2) {
            assert!(pair[0] < pair[1]);
        }
        for position in &entry.positions {
            assert!(*position >= 0);
            assert_eq!(tokens[*position as usize], entry.term);
        }
        for other in &entries[k + 1..] {
            assert_ne!(other.term, entry.term);
        }
        covered += entry.positions.len();
    }
    assert_eq!(covered, tokens.len());
}

#[test]
fn aggregate_agrees_with_frequencies_and_positions() {
    let tokens = words("one two one three two one");
    let frequencies = count_word_frequencies(&tokens).unwrap();
    let entries = aggregate(&tokens).unwrap();
    assert_eq!(entries.len(), frequencies.len());
    for entry in &entries {
        assert_eq!(frequencies.get(&entry.term), Some(&entry.frequency));
        assert_eq!(term_positions(&tokens, &entry.term), Ok(entry.positions.clone()));
    }
}

#[test]
fn max_tokens_is_the_largest_32_bit_position() {
    assert_eq!(MAX_TOKENS, i32::MAX as usize);
    assert_ne!(IndexError::TooManyTokens, IndexError::UnexpectedEvent);
}

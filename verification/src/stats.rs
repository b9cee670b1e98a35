//! Per-document term statistics: how often each term occurs in a token
//! stream, and at which positions.

use crate::error::{IndexError, MAX_TOKENS};
use crate::select::{
    lemma_ascending_equal, lemma_select_step, lemma_selected, positions_up_to, strictly_ascending,
};
use vstd::hash_map::StringHashMap;
use vstd::prelude::*;

verus! {

/// The test whether `term` stands at a position of `tokens`.
pub open spec fn occurs_at(tokens: Seq<Seq<char>>, term: Seq<char>) -> spec_fn(int) -> bool {
    |i: int| tokens[i] == term
}

/// The positions below `n` at which `term` occurs in `tokens`, ascending.
pub open spec fn positions_below(tokens: Seq<Seq<char>>, term: Seq<char>, n: int) -> Seq<int> {
    positions_up_to(n).filter(occurs_at(tokens, term))
}

/// The positions at which `term` occurs in `tokens`, ascending.
pub open spec fn positions_of(tokens: Seq<Seq<char>>, term: Seq<char>) -> Seq<int> {
    positions_below(tokens, term, tokens.len() as int)
}

/// How often `term` occurs in `tokens`.
pub open spec fn frequency_of(tokens: Seq<Seq<char>>, term: Seq<char>) -> nat {
    tokens.to_multiset().count(term)
}

/// Whether every position and frequency of `tokens` fits in 32 bits.
pub open spec fn within_limits(tokens: Seq<Seq<char>>) -> bool {
    tokens.len() <= MAX_TOKENS
}

/// The frequency of every term of `tokens`, keyed by term.
pub open spec fn frequency_table(tokens: Seq<Seq<char>>) -> Map<Seq<char>, i32> {
    Map::new(
        |term: Seq<char>| tokens.contains(term),
        |term: Seq<char>| frequency_of(tokens, term) as i32,
    )
}

/// The frequency table of `tokens` without the terms that occur below
/// position `n`.
spec fn frequencies_from(tokens: Seq<Seq<char>>, n: int) -> Map<Seq<char>, i32> {
    Map::new(
        |term: Seq<char>| tokens.contains(term) && !tokens.take(n).contains(term),
        |term: Seq<char>| frequency_of(tokens, term) as i32,
    )
}

/// A sequence of 32-bit positions as mathematical integers.
pub open spec fn as_ints(positions: Seq<i32>) -> Seq<int> {
    positions.map_values(|p: i32| p as int)
}

/// The statistics of one term within one document.
#[derive(Clone, Debug, PartialEq, Eq)]
pub struct TermStats {
    /// The term.
    pub term: String,
    /// How often the term occurs in the document's token stream.
    pub frequency: i32,
    /// The positions of the term in the token stream, ascending.
    pub positions: Vec<i32>,
}

/// The mathematical content of a [`TermStats`].
pub struct TermStatsView {
    pub term: Seq<char>,
    pub frequency: int,
    pub positions: Seq<int>,
}

impl View for TermStats {
    type V = TermStatsView;

    open spec fn view(&self) -> TermStatsView {
        TermStatsView {
            term: self.term@,
            frequency: self.frequency as int,
            positions: as_ints(self.positions@),
        }
    }
}

impl DeepView for TermStats {
    type V = TermStatsView;

    open spec fn deep_view(&self) -> TermStatsView {
        self@
    }
}

impl TermStatsView {
    /// Whether the statistics agree with each other: the term occurs at
    /// least once, at as many positions as its frequency says, and the
    /// positions are non-negative and strictly ascending.
    pub open spec fn consistent(self) -> bool {
        &&& self.frequency >= 1
        &&& self.positions.len() == self.frequency
        &&& forall|k: int| 0 <= k < self.positions.len() ==> 0 <= #[trigger] self.positions[k]
        &&& strictly_ascending(self.positions)
    }
}

/// The statistics of `term` within `tokens`.
pub open spec fn stats_of(tokens: Seq<Seq<char>>, term: Seq<char>) -> TermStatsView {
    TermStatsView {
        term,
        frequency: frequency_of(tokens, term) as int,
        positions: positions_of(tokens, term),
    }
}

/// The test whether a position of `tokens` holds a term that does not occur
/// before that position.
pub open spec fn first_at(tokens: Seq<Seq<char>>) -> spec_fn(int) -> bool {
    |i: int| !tokens.take(i).contains(tokens[i])
}

/// The statistics of the term at a position of `tokens`.
pub open spec fn stats_at(tokens: Seq<Seq<char>>) -> spec_fn(int) -> TermStatsView {
    |i: int| stats_of(tokens, tokens[i])
}

/// The positions below `n` at which a term occurs for the first time.
pub open spec fn first_occurrences_below(tokens: Seq<Seq<char>>, n: int) -> Seq<int> {
    positions_up_to(n).filter(first_at(tokens))
}

/// The positions at which a term of `tokens` occurs for the first time.
pub open spec fn first_occurrences(tokens: Seq<Seq<char>>) -> Seq<int> {
    first_occurrences_below(tokens, tokens.len() as int)
}

/// The statistics of every distinct term of `tokens`, in the order in which
/// the terms first occur.
pub open spec fn aggregated(tokens: Seq<Seq<char>>) -> Seq<TermStatsView> {
    first_occurrences(tokens).map_values(stats_at(tokens))
}

/// The frequency of a term in a prefix grows by one with each further
/// occurrence of the term.
pub proof fn lemma_frequency_step(tokens: Seq<Seq<char>>, term: Seq<char>, n: int)
    requires
        0 <= n < tokens.len(),
    ensures
        frequency_of(tokens.take(n + 1), term) == frequency_of(tokens.take(n), term) + (if tokens[n]
            == term {
            1nat
        } else {
            0nat
        }),
        frequency_of(tokens.take(n), term) <= n,
{
    broadcast use vstd::seq_lib::group_to_multiset_ensures;

    assert(tokens.take(n + 1) =~= tokens.take(n).push(tokens[n]));
    assert(tokens.take(n).to_multiset().len() == n);
}

/// No term occurs more often than there are tokens.
pub proof fn lemma_frequency_bound(tokens: Seq<Seq<char>>, term: Seq<char>)
    ensures
        frequency_of(tokens, term) <= tokens.len(),
        frequency_of(tokens, term) > 0 <==> tokens.contains(term),
{
    broadcast use vstd::seq_lib::group_to_multiset_ensures;

    assert(tokens.to_multiset().len() == tokens.len());
}

/// A term occurs in a prefix that is longer by one token if it occurs in
/// the shorter prefix or is the added token.
pub proof fn lemma_prefix_contains_step(tokens: Seq<Seq<char>>, term: Seq<char>, n: int)
    requires
        0 <= n < tokens.len(),
    ensures
        tokens.take(n + 1).contains(term) <==> (tokens.take(n).contains(term) || tokens[n] == term),
{
    let shorter = tokens.take(n);
    let longer = tokens.take(n + 1);
    if shorter.contains(term) {
        let k = choose|k: int| 0 <= k < shorter.len() && shorter[k] == term;
        assert(longer[k] == term);
    }
    if tokens[n] == term {
        assert(longer[n] == term);
    }
    if longer.contains(term) {
        let k = choose|k: int| 0 <= k < longer.len() && longer[k] == term;
        if k < n {
            assert(shorter[k] == term);
        }
    }
}

/// A term occurs in a prefix as often as it has positions in it.
pub proof fn lemma_frequency_counts_positions(tokens: Seq<Seq<char>>, term: Seq<char>, n: int)
    requires
        0 <= n <= tokens.len(),
    ensures
        frequency_of(tokens.take(n), term) == positions_below(tokens, term, n).len(),
    decreases n,
{
    if n == 0 {
        lemma_selected(occurs_at(tokens, term), 0);
        lemma_frequency_bound(tokens.take(0), term);
    } else {
        lemma_frequency_counts_positions(tokens, term, n - 1);
        lemma_frequency_step(tokens, term, n - 1);
        lemma_select_step(occurs_at(tokens, term), n - 1);
    }
}

/// A term that occurs below `n` has a first occurrence below `n`.
pub proof fn lemma_first_occurrence_exists(tokens: Seq<Seq<char>>, term: Seq<char>, n: int)
    requires
        0 <= n <= tokens.len(),
        tokens.take(n).contains(term),
    ensures
        exists|i: int| 0 <= i < n && tokens[i] == term && #[trigger] first_at(tokens)(i),
    decreases n,
{
    if n > 0 {
        lemma_prefix_contains_step(tokens, term, n - 1);
        if tokens.take(n - 1).contains(term) {
            lemma_first_occurrence_exists(tokens, term, n - 1);
            let i = choose|i: int| 0 <= i < n - 1 && tokens[i] == term && #[trigger] first_at(tokens)(i);
            assert(0 <= i < n && tokens[i] == term && first_at(tokens)(i));
        } else {
            assert(first_at(tokens)(n - 1));
        }
    }
}

/// Every entry of the aggregation is sound: its frequency is the number of
/// its positions and at least one, its positions are strictly ascending,
/// and each of them is an index of the token stream at which the entry's
/// term stands.
pub proof fn aggregation_is_sound(tokens: Seq<Seq<char>>)
    ensures
        forall|k: int|
            0 <= k < aggregated(tokens).len() ==> {
                let entry = #[trigger] aggregated(tokens)[k];
                &&& entry.consistent()
                &&& entry == stats_of(tokens, entry.term)
                &&& forall|j: int|
                    0 <= j < entry.positions.len() ==> 0 <= #[trigger] entry.positions[j]
                        < tokens.len() && tokens[entry.positions[j]] == entry.term
            },
{
    let n = tokens.len() as int;
    lemma_selected(first_at(tokens), n);
    assert forall|k: int| 0 <= k < aggregated(tokens).len() implies {
        let entry = #[trigger] aggregated(tokens)[k];
        &&& entry.consistent()
        &&& entry == stats_of(tokens, entry.term)
        &&& forall|j: int|
            0 <= j < entry.positions.len() ==> 0 <= #[trigger] entry.positions[j] < tokens.len()
                && tokens[entry.positions[j]] == entry.term
    } by {
        let at = first_occurrences(tokens)[k];
        let term = tokens[at];
        let entry = aggregated(tokens)[k];
        assert(entry == stats_of(tokens, term));
        assert(tokens.take(n) =~= tokens);
        lemma_frequency_counts_positions(tokens, term, n);
        lemma_selected(occurs_at(tokens, term), n);
        assert(tokens.contains(term));
        lemma_frequency_bound(tokens, term);
    }
}

/// No term has two entries in the aggregation.
pub proof fn aggregated_terms_are_distinct(tokens: Seq<Seq<char>>)
    ensures
        forall|j: int, k: int|
            0 <= j < k < aggregated(tokens).len() ==> (#[trigger] aggregated(tokens)[j]).term != (
            #[trigger] aggregated(tokens)[k]).term,
{
    let n = tokens.len() as int;
    lemma_selected(first_at(tokens), n);
    assert forall|j: int, k: int| 0 <= j < k < aggregated(tokens).len() implies (
    #[trigger] aggregated(tokens)[j]).term != (#[trigger] aggregated(tokens)[k]).term by {
        let earlier = first_occurrences(tokens)[j];
        let later = first_occurrences(tokens)[k];
        assert(earlier < later);
        assert(first_at(tokens)(later));
        if tokens[earlier] == tokens[later] {
            assert(tokens.take(later)[earlier] == tokens[later]);
        }
    }
}

/// The terms of the aggregation are the terms of the token stream: a term
/// has an entry exactly if it occurs.
pub proof fn aggregated_terms_are_the_tokens(tokens: Seq<Seq<char>>, term: Seq<char>)
    ensures
        tokens.contains(term) <==> exists|k: int|
            0 <= k < aggregated(tokens).len() && (#[trigger] aggregated(tokens)[k]).term == term,
{
    let n = tokens.len() as int;
    lemma_selected(first_at(tokens), n);
    if tokens.contains(term) {
        assert(tokens.take(n) =~= tokens);
        lemma_first_occurrence_exists(tokens, term, n);
        let i = choose|i: int| 0 <= i < n && tokens[i] == term && #[trigger] first_at(tokens)(i);
        assert(first_occurrences(tokens).contains(i));
        let k = choose|k: int|
            0 <= k < first_occurrences(tokens).len() && first_occurrences(tokens)[k] == i;
        assert(aggregated(tokens)[k].term == term);
    }
    if exists|k: int|
        0 <= k < aggregated(tokens).len() && (#[trigger] aggregated(tokens)[k]).term == term {
        let k = choose|k: int|
            0 <= k < aggregated(tokens).len() && (#[trigger] aggregated(tokens)[k]).term == term;
        let at = first_occurrences(tokens)[k];
        assert(tokens[at] == term);
    }
}

/// A token stream without tokens has no entries.
pub proof fn no_tokens_no_entries(tokens: Seq<Seq<char>>)
    requires
        tokens.len() == 0,
    ensures
        aggregated(tokens).len() == 0,
{
    lemma_selected(first_at(tokens), 0);
}

/// A token stream that repeats a single term has a single entry: the term,
/// with the number of repetitions as its frequency and every position of
/// the stream as its positions.
pub proof fn repeated_term_has_one_entry(tokens: Seq<Seq<char>>, term: Seq<char>)
    requires
        tokens.len() >= 1,
        forall|i: int| 0 <= i < tokens.len() ==> tokens[i] == term,
    ensures
        aggregated(tokens) == seq![
            TermStatsView {
                term,
                frequency: tokens.len() as int,
                positions: positions_up_to(tokens.len() as int),
            },
        ],
{
    let n = tokens.len() as int;
    let firsts = first_occurrences(tokens);
    lemma_selected(first_at(tokens), n);
    assert forall|x: int| firsts.contains(x) <==> seq![0int].contains(x) by {
        if firsts.contains(x) {
            let k = choose|k: int| 0 <= k < firsts.len() && firsts[k] == x;
            assert(first_at(tokens)(x));
            if x > 0 {
                assert(tokens.take(x)[0] == tokens[x]);
            }
            assert(seq![0int][0] == x);
        }
        if seq![0int].contains(x) {
            assert(x == 0);
            assert(tokens.take(0) =~= Seq::<Seq<char>>::empty());
            assert(first_at(tokens)(0));
        }
    }
    lemma_ascending_equal(firsts, seq![0int]);
    let positions = positions_of(tokens, term);
    lemma_selected(occurs_at(tokens, term), n);
    assert forall|x: int| positions.contains(x) <==> positions_up_to(n).contains(x) by {
        if positions.contains(x) {
            let k = choose|k: int| 0 <= k < positions.len() && positions[k] == x;
            assert(positions_up_to(n)[x] == x);
        }
        if positions_up_to(n).contains(x) {
            let k = choose|k: int| 0 <= k < n && positions_up_to(n)[k] == x;
            assert(occurs_at(tokens, term)(x));
        }
    }
    lemma_ascending_equal(positions, positions_up_to(n));
    assert(tokens.take(n) =~= tokens);
    lemma_frequency_counts_positions(tokens, term, n);
    assert(aggregated(tokens) =~= seq![
        TermStatsView { term, frequency: n, positions: positions_up_to(n) },
    ]);
}

/// The positions at which `term` occurs in `tokens`, counted from 0 and in
/// ascending order.
///
/// Fails with [`IndexError::TooManyTokens`] exactly when `tokens` is longer
/// than [`MAX_TOKENS`].
pub fn term_positions(tokens: &[String], term: &str) -> (found: Result<Vec<i32>, IndexError>)
    ensures
        match found {
            Ok(positions) => within_limits(tokens.deep_view()) && as_ints(positions@)
                == positions_of(tokens.deep_view(), term@),
            Err(e) => !within_limits(tokens.deep_view()) && e == IndexError::TooManyTokens,
        },
{
    if tokens.len() > MAX_TOKENS {
        return Err(IndexError::TooManyTokens);
    }
    let ghost all = tokens.deep_view();
    let needle = term.to_owned();
    let mut positions: Vec<i32> = Vec::new();
    let mut i: usize = 0;
    assert(positions_below(all, term@, 0) =~= Seq::<int>::empty()) by {
        lemma_selected(occurs_at(all, term@), 0);
    }
    while i < tokens.len()
        invariant
            i <= tokens.len() <= MAX_TOKENS,
            all == tokens.deep_view(),
            needle@ == term@,
            as_ints(positions@) == positions_below(all, term@, i as int),
        decreases tokens.len() - i,
    {
        proof {
            lemma_select_step(occurs_at(all, term@), i as int);
        }
        if tokens[i] == needle {
            let ghost before = as_ints(positions@);
            positions.push(i as i32);
            assert(as_ints(positions@) =~= before.push(i as int));
        }
        i += 1;
    }
    Ok(positions)
}

/// How often each term occurs in `tokens`.
///
/// Fails with [`IndexError::TooManyTokens`] exactly when `tokens` is longer
/// than [`MAX_TOKENS`].
pub fn count_word_frequencies(tokens: &[String]) -> (counted: Result<
    StringHashMap<i32>,
    IndexError,
>)
    ensures
        match counted {
            Ok(frequencies) => within_limits(tokens.deep_view()) && frequencies@
                == frequency_table(tokens.deep_view()),
            Err(e) => !within_limits(tokens.deep_view()) && e == IndexError::TooManyTokens,
        },
{
    if tokens.len() > MAX_TOKENS {
        return Err(IndexError::TooManyTokens);
    }
    let ghost all = tokens.deep_view();
    let mut frequencies: StringHashMap<i32> = StringHashMap::new();
    let mut i: usize = 0;
    assert(frequencies@ =~= frequency_table(all.take(0)));
    while i < tokens.len()
        invariant
            i <= tokens.len() <= MAX_TOKENS,
            all == tokens.deep_view(),
            frequencies@ == frequency_table(all.take(i as int)),
        decreases tokens.len() - i,
    {
        let ghost seen = all.take(i as int);
        let ghost before = frequencies@;
        proof {
            assert(all.take(i + 1) =~= seen.push(all[i as int]));
            assert forall|term: Seq<char>| true implies frequency_of(all.take(i + 1), term)
                == frequency_of(seen, term) + (if all[i as int] == term {
                1nat
            } else {
                0nat
            }) && frequency_of(seen, term) <= i by {
                lemma_frequency_step(all, term, i as int);
            }
        }
        let next: i32 = match frequencies.get(tokens[i].as_str()) {
            Some(count) => *count + 1,
            None => 1,
        };
        frequencies.insert(tokens[i].clone(), next);
        assert(frequencies@ =~= frequency_table(all.take(i + 1))) by {
            assert forall|term: Seq<char>| all.take(i + 1).contains(term) <==> (seen.contains(term)
                || all[i as int] == term) by {
                lemma_prefix_contains_step(all, term, i as int);
            }
            lemma_frequency_bound(seen, all[i as int]);
        }
        i += 1;
    }
    proof {
        assert(all.take(tokens.len() as int) =~= all);
    }
    Ok(frequencies)
}

/// The statistics of every distinct term of `tokens`: how often it occurs
/// and where. The terms come in the order in which they first occur.
///
/// Fails with [`IndexError::TooManyTokens`] exactly when `tokens` is longer
/// than [`MAX_TOKENS`].
pub fn aggregate(tokens: &[String]) -> (result: Result<Vec<TermStats>, IndexError>)
    ensures
        match result {
            Ok(stats) => within_limits(tokens.deep_view()) && stats.deep_view() == aggregated(
                tokens.deep_view(),
            ),
            Err(e) => !within_limits(tokens.deep_view()) && e == IndexError::TooManyTokens,
        },
{
    let mut pending = match count_word_frequencies(tokens) {
        Ok(frequencies) => frequencies,
        Err(e) => {
            return Err(e);
        },
    };
    let ghost all = tokens.deep_view();
    let mut stats: Vec<TermStats> = Vec::new();
    let mut i: usize = 0;
    proof {
        lemma_selected(first_at(all), 0);
        assert(stats.deep_view() =~= first_occurrences_below(all, 0).map_values(stats_at(all)));
        assert(all.take(0) =~= Seq::<Seq<char>>::empty());
        assert(pending@ =~= frequencies_from(all, 0));
    }
    while i < tokens.len()
        invariant
            i <= tokens.len() <= MAX_TOKENS,
            all == tokens.deep_view(),
            pending@ == frequencies_from(all, i as int),
            stats.deep_view() == first_occurrences_below(all, i as int).map_values(stats_at(all)),
        decreases tokens.len() - i,
    {
        let ghost seen = all.take(i as int);
        let ghost before = stats.deep_view();
        proof {
            lemma_select_step(first_at(all), i as int);
            assert(all.take(i + 1) =~= seen.push(all[i as int]));
            assert(all.contains(all[i as int]));
        }
        let word = tokens[i].as_str();
        let first = match pending.get(word) {
            Some(frequency) => Some(*frequency),
            None => None,
        };
        if let Some(frequency) = first {
            let positions = match term_positions(tokens, word) {
                Ok(positions) => positions,
                Err(e) => {
                    return Err(e);
                },
            };
            stats.push(TermStats { term: tokens[i].clone(), frequency, positions });
            pending.remove(word);
            proof {
                lemma_frequency_bound(all, all[i as int]);
                assert(stats.deep_view() =~= before.push(stats_at(all)(i as int)));
                assert(first_occurrences_below(all, i as int).push(i as int).map_values(
                    stats_at(all),
                ) =~= before.push(stats_at(all)(i as int)));
            }
        }
        proof {
            assert forall|term: Seq<char>| all.take(i + 1).contains(term) <==> (seen.contains(term)
                || all[i as int] == term) by {
                lemma_prefix_contains_step(all, term, i as int);
            }
            assert(pending@ =~= frequencies_from(all, i + 1));
        }
        i += 1;
    }
    Ok(stats)
}

} // verus!

//! Turning document text into index terms.
//!
//! A text is cut into words on Unicode word boundaries, each word is
//! lowercased code point by code point, and the lowercased words of at
//! least [`MIN_TERM_BYTES`] bytes are kept, in the order in which they
//! occur. Word segmentation and the lowercase mapping of a code point are
//! done by code outside this crate; what is assumed of them is stated on
//! [`unicode_words`] and [`lowercase_mapping`].

use unicode_segmentation::UnicodeSegmentation;
use vstd::prelude::*;
use vstd::utf8::encode_utf8;

verus! {

/// The shortest term that is kept, measured in bytes of its UTF-8 encoding
/// (what `str::len` reports) after lowercasing.
pub const MIN_TERM_BYTES: usize = 3;

/// The words of `text`, in order of occurrence, as `unicode_words` of the
/// `unicode-segmentation` crate yields them.
pub uninterp spec fn unicode_words_of(text: Seq<char>) -> Seq<Seq<char>>;

/// The lowercase mapping of a code point, as `char::to_lowercase` yields
/// it: in general one code point, for U+0130 two.
pub uninterp spec fn lowercase_mapping_of(c: char) -> Seq<char>;

/// The lowercase form of a code point: the first code point of its
/// lowercase mapping, so one code point for one, whatever stands around it.
/// A capital sigma becomes `σ` also at the end of a word, and U+0130, whose
/// mapping is `i` followed by a combining dot, becomes `i`.
pub open spec fn lowercase_of_char(c: char) -> char {
    if lowercase_mapping_of(c).len() == 0 {
        c
    } else {
        lowercase_mapping_of(c)[0]
    }
}

/// The lowercase form of `word`: each of its code points lowercased.
pub open spec fn lowercase_of(word: Seq<char>) -> Seq<char> {
    word.map_values(|c: char| lowercase_of_char(c))
}

/// Whether a lowercased word is long enough to be indexed.
pub open spec fn is_term(word: Seq<char>) -> bool {
    encode_utf8(word).len() >= MIN_TERM_BYTES
}

/// Each of `words` lowercased, in the same order.
pub open spec fn lowercased(words: Seq<Seq<char>>) -> Seq<Seq<char>> {
    words.map_values(|w: Seq<char>| lowercase_of(w))
}

/// Those of `words` that are terms, in the same order.
pub open spec fn retained_terms(words: Seq<Seq<char>>) -> Seq<Seq<char>> {
    words.filter(|w: Seq<char>| is_term(w))
}

/// The token stream of `text`: its words, lowercased, short ones dropped.
pub open spec fn tokens_of(text: Seq<char>) -> Seq<Seq<char>> {
    retained_terms(lowercased(unicode_words_of(text)))
}

/// Trusted: `UnicodeSegmentation::unicode_words` of the `unicode-segmentation`
/// crate, collected into a vector.
///
/// The crate splits the text on the default word boundaries of UAX #29 and
/// keeps the substrings that hold an alphabetic or numeric character. The
/// result depends on the text alone; the contract gives it the name
/// [`unicode_words_of`] and claims nothing else about it.
#[verifier::external_body]
fn unicode_words(text: &str) -> (words: Vec<&str>)
    ensures
        words.deep_view() == unicode_words_of(text@),
{
    text.unicode_words().collect()
}

/// Trusted: `char::to_lowercase` of the standard library, collected into a
/// vector.
///
/// The mapping is that of the Unicode character database, without regard to
/// context or language, so it is a function of the code point alone; the
/// contract names it [`lowercase_mapping_of`] and claims nothing else about
/// it.
#[verifier::external_body]
fn lowercase_mapping(c: char) -> (mapping: Vec<char>)
    ensures
        mapping@ == lowercase_mapping_of(c),
{
    c.to_lowercase().collect()
}

/// Trusted: `String::push` of the standard library appends the code point
/// to the string.
pub assume_specification[ String::push ](text: &mut String, c: char)
    ensures
        final(text)@ == old(text)@.push(c),
;

/// The lowercase form of a code point.
pub fn lowercase_char(c: char) -> (lower: char)
    ensures
        lower == lowercase_of_char(c),
{
    let mapping = lowercase_mapping(c);
    if mapping.len() == 0 {
        c
    } else {
        mapping[0]
    }
}

/// Lowercases a word, code point by code point.
pub fn lowercase_word(word: &str) -> (lower: String)
    ensures
        lower@ == lowercase_of(word@),
{
    let mut lower = String::new();
    for c in it: word.chars()
        invariant
            it.seq() == word@,
            lower@ == lowercase_of(word@.take(it.index())),
    {
        lower.push(lowercase_char(c));
    }
    lower
}

/// Lowercases every word, keeping the order.
pub fn lowercase_words(words: &[&str]) -> (lower: Vec<String>)
    ensures
        lower.deep_view() == lowercased(words.deep_view()),
{
    let mut lower: Vec<String> = Vec::new();
    let mut i: usize = 0;
    while i < words.len()
        invariant
            i <= words.len(),
            lower.len() == i,
            forall|k: int| 0 <= k < i ==> lower[k]@ == lowercase_of(#[trigger] words[k]@),
        decreases words.len() - i,
    {
        lower.push(lowercase_word(words[i]));
        i += 1;
    }
    assert(lower.deep_view() =~= lowercased(words.deep_view()));
    lower
}

/// Whether `word` is long enough to be indexed.
pub fn is_long_enough(word: &str) -> (keep: bool)
    ensures
        keep == is_term(word@),
{
    word.as_bytes().len() >= MIN_TERM_BYTES
}

/// Drops the words that are too short to be indexed and keeps the others in
/// their order.
pub fn retain_terms(words: Vec<String>) -> (terms: Vec<String>)
    ensures
        terms.deep_view() == retained_terms(words.deep_view()),
{
    let ghost all = words.deep_view();
    let mut terms: Vec<String> = Vec::new();
    let mut i: usize = 0;
    while i < words.len()
        invariant
            i <= words.len(),
            all == words.deep_view(),
            terms.deep_view() == retained_terms(all.take(i as int)),
        decreases words.len() - i,
    {
        proof {
            assert(all.take(i + 1) =~= all.take(i as int).push(all[i as int]));
            all.take(i as int).lemma_filter_push(all[i as int], |w: Seq<char>| is_term(w));
        }
        if is_long_enough(words[i].as_str()) {
            let ghost before = terms.deep_view();
            terms.push(words[i].clone());
            assert(terms.deep_view() =~= before.push(all[i as int]));
        }
        i += 1;
    }
    proof {
        assert(all.take(words.len() as int) =~= all);
    }
    terms
}

/// Tokenizing is a function of the text: equal texts have equal token
/// streams, whenever and wherever they are tokenized.
pub proof fn tokenization_is_deterministic(text: Seq<char>, again: Seq<char>)
    requires
        text == again,
    ensures
        tokens_of(text) == tokens_of(again),
{
}

/// Every token is the lowercase form of a word of the text, is at least
/// [`MIN_TERM_BYTES`] bytes long and so not empty.
pub proof fn tokens_are_lowercased_terms(text: Seq<char>)
    ensures
        forall|i: int|
            0 <= i < tokens_of(text).len() ==> {
                let token = #[trigger] tokens_of(text)[i];
                &&& is_term(token)
                &&& token.len() > 0
                &&& exists|j: int|
                    0 <= j < unicode_words_of(text).len() && token == lowercase_of(
                        #[trigger] unicode_words_of(text)[j],
                    )
            },
{
    let words = unicode_words_of(text);
    let lower = lowercased(words);
    let keep = |w: Seq<char>| is_term(w);
    assert forall|i: int| 0 <= i < tokens_of(text).len() implies {
        let token = #[trigger] tokens_of(text)[i];
        &&& is_term(token)
        &&& token.len() > 0
        &&& exists|j: int|
            0 <= j < words.len() && token == lowercase_of(#[trigger] words[j])
    } by {
        let token = tokens_of(text)[i];
        lower.lemma_filter_pred(keep, i);
        assert(lower.filter(keep).contains(token));
        lower.lemma_filter_contains_rev(keep, token);
        let j = choose|j: int| 0 <= j < lower.len() && lower[j] == token;
        assert(token == lowercase_of(words[j]));
    }
}

/// A text none of whose lowercased words is long enough has no tokens.
pub proof fn short_words_yield_no_tokens(text: Seq<char>)
    requires
        forall|j: int|
            0 <= j < unicode_words_of(text).len() ==> !is_term(
                lowercase_of(#[trigger] unicode_words_of(text)[j]),
            ),
    ensures
        tokens_of(text).len() == 0,
{
    let lower = lowercased(unicode_words_of(text));
    let keep = |w: Seq<char>| is_term(w);
    assert forall|k: int| 0 <= k < lower.len() implies !keep(#[trigger] lower[k]) by {
        assert(lower[k] == lowercase_of(unicode_words_of(text)[k]));
    }
    lower.lemma_all_neg_filter_empty(keep);
}

/// Splits text into index terms.
pub struct Tokenizer;

impl Tokenizer {
    /// A tokenizer. It holds no state.
    pub fn new() -> (tokenizer: Self) {
        Tokenizer
    }

    /// The token stream of `text`: its words in order of occurrence,
    /// lowercased, without those shorter than [`MIN_TERM_BYTES`] bytes.
    pub fn tokenize(&self, text: &str) -> (tokens: Vec<String>)
        ensures
            tokens.deep_view() == tokens_of(text@),
    {
        let words = unicode_words(text);
        let lower = lowercase_words(words.as_slice());
        retain_terms(lower)
    }
}

} // verus!

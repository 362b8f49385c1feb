//! The word filter: which raw words may enter the search.

use crate::mask::{is_lowercase_word, lemma_mask_of_lowercase, mask_of, popcount};
use vstd::prelude::*;
use vstd::string::*;
use vstd::utf8::{encode_scalar, encode_utf8, has_width_1_encoding, is_ascii_chars};

verus! {

/// Letters, and so distinct characters, that a word must have.
pub const WORD_LENGTH: usize = 5;

/// A word is kept when it is five bytes long and holds five distinct
/// characters.
pub open spec fn is_kept(word: Seq<char>) -> bool {
    encode_utf8(word).len() == WORD_LENGTH && word.to_set().len() == WORD_LENGTH
}

/// Decides whether the filter keeps a word.
pub fn keeps(word: &str) -> (kept: bool)
    ensures
        kept == is_kept(word@),
        kept == (word@.len() == WORD_LENGTH && word@.no_duplicates() && is_ascii_chars(word@)),
{
    proof {
        lemma_kept_word(word@);
    }
    if word.as_bytes().len() != WORD_LENGTH {
        return false;
    }
    let mut seen: Vec<char> = Vec::new();
    for c in it: word.chars()
        invariant
            it.seq() == word@,
            seen@.no_duplicates(),
            seen@.to_set() == word@.take(it.index() as int).to_set(),
    {
        let ghost before = word@.take(it.index() as int);
        let ghost after = word@.take(it.index() as int + 1);
        proof {
            assert(after =~= before.push(c));
            before.lemma_push_to_set_commute(c);
        }
        if !occurs(&seen, c) {
            proof {
                seen@.lemma_push_to_set_commute(c);
            }
            seen.push(c);
        } else {
            assert(before.to_set().contains(c));
            assert(before.to_set().insert(c) =~= before.to_set());
        }
    }
    proof {
        assert(word@.take(word@.len() as int) =~= word@);
        seen@.unique_seq_to_set();
    }
    seen.len() == WORD_LENGTH
}

/// Keeps, in their order, the words that the filter accepts.
pub fn filter_words(words: Vec<String>) -> (kept: Vec<String>)
    ensures
        kept@ == words@.filter(|w: String| is_kept(w@)),
        forall|k: int|
            0 <= k < kept.len() ==> is_kept(#[trigger] kept[k]@) && kept[k]@.len() == WORD_LENGTH
                && kept[k]@.no_duplicates(),
{
    let ghost pred = |w: String| is_kept(w@);
    let mut kept: Vec<String> = Vec::new();
    for word in it: words
        invariant
            it.seq() == words@,
            pred == |w: String| is_kept(w@),
            kept@ == words@.take(it.index() as int).filter(pred),
            forall|k: int|
                0 <= k < kept.len() ==> is_kept(#[trigger] kept[k]@) && kept[k]@.len()
                    == WORD_LENGTH && kept[k]@.no_duplicates(),
    {
        proof {
            let before = words@.take(it.index() as int);
            assert(words@.take(it.index() as int + 1) =~= before.push(word));
            before.lemma_filter_push(word, pred);
        }
        if keeps(word.as_str()) {
            kept.push(word);
        }
    }
    assert(words@.take(words@.len() as int) =~= words@);
    kept
}

/// Whether `c` occurs among `seen`.
fn occurs(seen: &Vec<char>, c: char) -> (found: bool)
    ensures
        found == seen@.contains(c),
{
    let mut k: usize = 0;
    while k < seen.len()
        invariant
            k <= seen.len(),
            forall|j: int| 0 <= j < k ==> seen@[j] != c,
        decreases seen.len() - k,
    {
        if seen[k] == c {
            return true;
        }
        k = k + 1;
    }
    false
}

/// A kept word is five ASCII characters, no two of them alike; and every such
/// word is kept.
pub proof fn lemma_kept_word(word: Seq<char>)
    ensures
        is_kept(word) <==> word.len() == WORD_LENGTH && word.no_duplicates() && is_ascii_chars(
            word,
        ),
{
    lemma_byte_length(word);
    word.lemma_cardinality_of_set();
    if is_kept(word) {
        word.lemma_no_dup_set_cardinality();
    }
    if word.len() == WORD_LENGTH && word.no_duplicates() && is_ascii_chars(word) {
        word.unique_seq_to_set();
        vstd::utf8::is_ascii_chars_encode_utf8(word);
    }
}

/// The mask of a kept lowercase word holds five letters.
pub proof fn lemma_kept_word_has_five_letters(word: Seq<char>)
    requires
        is_kept(word),
        is_lowercase_word(word),
    ensures
        popcount(mask_of(word)) == 5,
{
    lemma_mask_of_lowercase(word);
}

/// Every character takes at least one byte, and a word as long in bytes as
/// in characters is plain ASCII.
pub proof fn lemma_byte_length(word: Seq<char>)
    ensures
        encode_utf8(word).len() >= word.len(),
        encode_utf8(word).len() == word.len() ==> is_ascii_chars(word),
    decreases word.len(),
{
    if word.len() > 0 {
        let rest = word.drop_first();
        lemma_byte_length(rest);
        vstd::utf8::char_is_scalar(word[0]);
        let first = word[0] as u32;
        assert(encode_scalar(first).len() >= 1);
        assert(encode_scalar(first).len() == 1 ==> has_width_1_encoding(first));
        assert(encode_utf8(word) == encode_scalar(first) + encode_utf8(rest));
        if encode_utf8(word).len() == word.len() {
            assert(encode_scalar(first).len() == 1);
            assert(encode_utf8(rest).len() == rest.len());
            assert(is_ascii_chars(rest));
            assert(first <= 0x7f);
            assert forall|i: int| 0 <= i < word.len() implies '\0' <= #[trigger] word[i]
                <= '\u{7f}' by {
                if i > 0 {
                    assert(word[i] == rest[i - 1]);
                } else {
                    vstd::utf8::char_u32_cast(word[0], first);
                }
            }
        }
    }
}

} // verus!

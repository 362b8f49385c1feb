//! The anagram index: words grouped by mask, and the sorted list of masks.

use crate::mask::{
    encode_word, is_lowercase_word, lemma_mask_of_ignores_order_and_repeats, mask_of, popcount,
};
use crate::words::{is_kept, lemma_kept_word_has_five_letters};
use std::collections::HashMap;
use vstd::prelude::*;

verus! {

/// The character sequences of a list of words.
pub open spec fn spellings(words: Seq<String>) -> Seq<Seq<char>> {
    words.map_values(|w: String| w@)
}

/// The words whose mask is `code`, in their order.
pub open spec fn anagrams(words: Seq<String>, code: u32) -> Seq<String> {
    words.filter(|w: String| mask_of(w@) == code)
}

/// Some word has the mask `code`.
pub open spec fn is_mask_of_some(words: Seq<String>, code: u32) -> bool {
    exists|k: int| 0 <= k < words.len() && mask_of(#[trigger] words[k]@) == code
}

/// `map` groups `words` by mask: its keys are the masks of the words, and
/// under each key stand exactly the words with that mask, in their order.
pub open spec fn is_anagram_map(words: Seq<String>, map: Map<u32, Vec<String>>) -> bool {
    &&& forall|code: u32| #[trigger] map.contains_key(code) <==> is_mask_of_some(words, code)
    &&& forall|code: u32| #[trigger]
        map.contains_key(code) ==> spellings(map[code]@) == spellings(anagrams(words, code))
}

/// `codes` holds the keys of `map`, each once, in ascending order.
pub open spec fn is_unique_mask_set(codes: Seq<u32>, map: Map<u32, Vec<String>>) -> bool {
    &&& forall|j: int, k: int| 0 <= j < k < codes.len() ==> codes[j] < codes[k]
    &&& forall|code: u32| codes.contains(code) <==> #[trigger] map.contains_key(code)
}

/// Groups lowercase words by their letter mask, and lists the masks in
/// ascending order.
pub fn encode(words: &[String]) -> (index: (Vec<u32>, HashMap<u32, Vec<String>>))
    requires
        forall|k: int| 0 <= k < words@.len() ==> is_lowercase_word(#[trigger] words@[k]@),
    ensures
        is_anagram_map(words@, index.1@),
        is_unique_mask_set(index.0@, index.1@),
        forall|code: u32| #[trigger] index.1@.contains_key(code) ==> index.1@[code]@.len() >= 1,
{
    broadcast use vstd::std_specs::hash::group_hash_axioms;

    let mut decoding_map: HashMap<u32, Vec<String>> = HashMap::new();
    let mut i: usize = 0;
    assert(!is_mask_of_some(words@.take(0), 0)) by {
        assert(words@.take(0).len() == 0);
    }
    while i < words.len()
        invariant
            i <= words@.len(),
            forall|k: int| 0 <= k < words@.len() ==> is_lowercase_word(#[trigger] words@[k]@),
            is_anagram_map(words@.take(i as int), decoding_map@),
        decreases words@.len() - i,
    {
        let word = &words[i];
        let code = encode_word(word.as_str());
        let ghost seen = words@.take(i as int);
        let ghost groups = decoding_map@;
        let ghost group: Seq<String> = if groups.contains_key(code) {
            groups[code]@
        } else {
            Seq::empty()
        };
        decoding_map.entry(code).or_insert(Vec::new()).push(word.clone());
        proof {
            assert(words@.take(i as int + 1) =~= seen.push(*word));
            assert(decoding_map@ == groups.insert(code, decoding_map@[code]));
            assert(decoding_map@[code]@ == group.push(*word));
            assert forall|c: u32| #[trigger]
                decoding_map@.contains_key(c) <==> is_mask_of_some(seen.push(*word), c) by {
                lemma_anagrams_push(seen, *word, c);
            }
            assert forall|c: u32| #[trigger] decoding_map@.contains_key(c) implies spellings(
                decoding_map@[c]@,
            ) == spellings(anagrams(seen.push(*word), c)) by {
                lemma_anagrams_push(seen, *word, c);
                if c == code {
                    assert(spellings(group) == spellings(anagrams(seen, code)));
                    assert(spellings(group.push(*word)) =~= spellings(group).push(word@));
                    assert(spellings(anagrams(seen, code).push(*word)) =~= spellings(
                        anagrams(seen, code),
                    ).push(word@));
                } else {
                    assert(groups.contains_key(c));
                    assert(decoding_map@[c] == groups[c]);
                }
            }
        }
        i = i + 1;
    }
    assert(words@.take(words@.len() as int) =~= words@);
    let mut codes: Vec<u32> = Vec::new();
    for code in it: decoding_map.keys()
        invariant
            codes@ == it.seq().take(it.index() as int).unref(),
            it.seq().unref().to_set() == decoding_map@.dom(),
            it.seq().no_duplicates(),
            it.index() == it.seq().len() ==> codes@.to_set() == decoding_map@.dom()
                && codes@.no_duplicates(),
    {
        codes.push(*code);
        assert(it.seq().take(it.index() + 1).unref() =~= it.seq().take(
            it.index() as int,
        ).unref().push(*code));
        assert(it.index() + 1 == it.seq().len() ==> it.seq().take(it.index() + 1) =~= it.seq());
        assert forall|j: int, k: int|
            it.index() + 1 == it.seq().len() && 0 <= j < k < codes@.len() implies codes@[j]
            != codes@[k] by {
            assert(it.seq()[j] != it.seq()[k]);
        }
    }
    let ghost unsorted = codes@;
    sort_codes(&mut codes);
    proof {
        lemma_sorted_distinct(unsorted, codes@);
        assert forall|code: u32| #[trigger]
            decoding_map@.contains_key(code) implies decoding_map@[code]@.len() >= 1 by {
            lemma_groups_nonempty(words@, decoding_map@, code);
        }
        assert forall|code: u32| codes@.contains(code) <==> #[trigger] decoding_map@.contains_key(
            code,
        ) by {
            assert(unsorted.contains(code) <==> unsorted.to_set().contains(code));
        }
    }
    (codes, decoding_map)
}

/// Sorts the masks in ascending order.
///
/// The body is one call of std's `sort` on the vector's slice. The contract
/// claims what its documentation states: afterwards the elements stand in
/// ascending order, and they are the elements from before, each as often as
/// before.
#[verifier::external_body]
fn sort_codes(codes: &mut Vec<u32>)
    ensures
        final(codes)@.to_multiset() == old(codes)@.to_multiset(),
        forall|j: int, k: int|
            0 <= j < k < final(codes)@.len() ==> final(codes)@[j] <= final(codes)@[k],
{
    codes.sort();
}

/// Two words with the same letters stand in the same group of the anagram
/// map, which holds no word with other letters' mask.
pub proof fn lemma_anagrams_share_group(
    words: Seq<String>,
    map: Map<u32, Vec<String>>,
    i: int,
    j: int,
)
    requires
        is_anagram_map(words, map),
        0 <= i < words.len(),
        0 <= j < words.len(),
        words[i]@.to_set() == words[j]@.to_set(),
    ensures
        mask_of(words[i]@) == mask_of(words[j]@),
        map.contains_key(mask_of(words[i]@)),
        spellings(map[mask_of(words[i]@)]@).contains(words[i]@),
        spellings(map[mask_of(words[i]@)]@).contains(words[j]@),
        forall|k: int|
            0 <= k < map[mask_of(words[i]@)]@.len() ==> mask_of(
                #[trigger] map[mask_of(words[i]@)]@[k]@,
            ) == mask_of(words[i]@),
{
    let code = mask_of(words[i]@);
    let pred = |w: String| mask_of(w@) == code;
    let group = anagrams(words, code);
    let shown = spellings(map[code]@);
    lemma_mask_of_ignores_order_and_repeats(words[i]@, words[j]@);
    assert(is_mask_of_some(words, code));
    assert(map.contains_key(code));
    assert(shown == spellings(group));
    assert(group.contains(words[i]));
    assert(group.contains(words[j]));
    let at_i = choose|k: int| 0 <= k < group.len() && group[k] == words[i];
    assert(spellings(group)[at_i] == words[i]@);
    let at_j = choose|k: int| 0 <= k < group.len() && group[k] == words[j];
    assert(spellings(group)[at_j] == words[j]@);
    assert forall|k: int| 0 <= k < map[code]@.len() implies mask_of(#[trigger] map[code]@[k]@)
        == code by {
        assert(shown[k] == map[code]@[k]@);
        assert(shown.len() == group.len());
        assert(spellings(group)[k] == group[k]@);
        words.lemma_filter_pred(pred, k);
        assert(pred(group[k]));
    }
}

/// Where every word is lowercase and passes the filter, every mask of the
/// unique mask set holds five letters.
pub proof fn lemma_codes_have_five_letters(
    words: Seq<String>,
    codes: Seq<u32>,
    map: Map<u32, Vec<String>>,
)
    requires
        forall|k: int|
            0 <= k < words.len() ==> is_lowercase_word(#[trigger] words[k]@) && is_kept(
                words[k]@,
            ),
        is_anagram_map(words, map),
        is_unique_mask_set(codes, map),
    ensures
        forall|i: int| 0 <= i < codes.len() ==> popcount(#[trigger] codes[i]) == 5,
{
    assert forall|i: int| 0 <= i < codes.len() implies popcount(#[trigger] codes[i]) == 5 by {
        assert(codes.contains(codes[i]));
        assert(map.contains_key(codes[i]));
        let k = choose|k: int| 0 <= k < words.len() && mask_of(#[trigger] words[k]@) == codes[i];
        lemma_kept_word_has_five_letters(words[k]@);
    }
}

/// No group of the anagram map is empty.
pub proof fn lemma_groups_nonempty(words: Seq<String>, map: Map<u32, Vec<String>>, code: u32)
    requires
        is_anagram_map(words, map),
        map.contains_key(code),
    ensures
        map[code]@.len() >= 1,
{
    let pred = |w: String| mask_of(w@) == code;
    let k = choose|k: int| 0 <= k < words.len() && mask_of(#[trigger] words[k]@) == code;
    assert(anagrams(words, code).contains(words[k]));
    assert(spellings(map[code]@).len() == spellings(anagrams(words, code)).len());
}

/// The anagrams of a list with one more word.
proof fn lemma_anagrams_push(words: Seq<String>, word: String, code: u32)
    ensures
        anagrams(words.push(word), code) == if mask_of(word@) == code {
            anagrams(words, code).push(word)
        } else {
            anagrams(words, code)
        },
        !is_mask_of_some(words, code) ==> anagrams(words, code) == Seq::<String>::empty(),
        is_mask_of_some(words.push(word), code) <==> is_mask_of_some(words, code) || mask_of(word@)
            == code,
{
    let pred = |w: String| mask_of(w@) == code;
    words.lemma_filter_push(word, pred);
    if !is_mask_of_some(words, code) {
        assert forall|k: int| 0 <= k < words.len() implies !pred(#[trigger] words[k]) by {}
        words.lemma_all_neg_filter_empty(pred);
        assert(anagrams(words, code) =~= Seq::<String>::empty());
    }
    let longer = words.push(word);
    if is_mask_of_some(words, code) {
        let k = choose|k: int| 0 <= k < words.len() && mask_of(#[trigger] words[k]@) == code;
        assert(longer[k] == words[k]);
    }
    if mask_of(word@) == code {
        assert(longer[words.len() as int] == word);
    }
    if is_mask_of_some(longer, code) {
        let k = choose|k: int|
            0 <= k < longer.len() && mask_of(#[trigger] longer[k]@) == code;
        if k < words.len() {
            assert(words[k] == longer[k]);
        }
    }
}

/// A sorted rearrangement of distinct masks is strictly ascending and holds
/// the same masks.
proof fn lemma_sorted_distinct(before: Seq<u32>, after: Seq<u32>)
    requires
        before.no_duplicates(),
        after.to_multiset() == before.to_multiset(),
        forall|j: int, k: int| 0 <= j < k < after.len() ==> after[j] <= after[k],
    ensures
        forall|j: int, k: int| 0 <= j < k < after.len() ==> after[j] < after[k],
        forall|code: u32| after.contains(code) <==> before.contains(code),
{
    before.lemma_multiset_has_no_duplicates();
    after.lemma_multiset_has_no_duplicates_conv();
    assert forall|code: u32| after.contains(code) <==> before.contains(code) by {
        vstd::seq_lib::to_multiset_contains(after, code);
        vstd::seq_lib::to_multiset_contains(before, code);
    }
}

} // verus!

use five_words::index::encode;
use five_words::mask::encode_word;

fn owned(words: &[&str]) -> Vec<String> {
    words.iter().map(|w| w.to_string()).collect()
}

#[test]
fn groups_anagrams_in_discovery_order() {
    let words = owned(&["slate", "fjord", "least", "waltz", "stale", "tesla"]);
    let (codes, map) = encode(&words);
    assert_eq!(codes.len(), 3);
    assert_eq!(map.len(), 3);
    assert_eq!(map[&encode_word("least")], owned(&["slate", "least", "stale", "tesla"]));
    assert_eq!(map[&encode_word("fjord")], owned(&["fjord"]));
    assert_eq!(map[&encode_word("waltz")], owned(&["waltz"]));
}

#[test]
fn codes_are_the_sorted_keys() {
    let words = owned(&["waltz", "vibex", "nymph", "gucks", "fjord", "abcde", "edcba"]);
    let (codes, map) = encode(&words);
    let mut expected: Vec<u32> = ["waltz", "vibex", "nymph", "gucks", "fjord", "abcde"]
        .iter()
        .map(|w| encode_word(w))
        .collect();
    expected.sort();
    assert_eq!(codes, expected);
    assert_eq!(codes[0], 0b11111);
    assert_eq!(map.len(), 6);
    for code in &codes {
        assert!(!map[code].is_empty());
    }
}

#[test]
fn many_codes_come_out_sorted() {
    // 253 words, each with its own letter set, fed in descending order of mask.
    let mut words: Vec<String> = Vec::new();
    let letters: Vec<char> = ('a'..='z').collect();
    for a in (0..22).rev() {
        for b in (a + 1..23).rev() {
            let word: String =
                [letters[a], letters[b], letters[23], letters[24], letters[25]].iter().collect();
            words.push(word);
        }
    }
    let (codes, map) = encode(&words);
    assert_eq!(words.len(), 253);
    assert_eq!(codes.len(), 253);
    assert_eq!(map.len(), codes.len());
    let mut sorted = codes.clone();
    sorted.sort();
    sorted.dedup();
    assert_eq!(codes, sorted);
    for word in &words {
        assert!(codes.binary_search(&encode_word(word)).is_ok());
    }
}

#[test]
fn repeated_word_is_listed_each_time() {
    let words = owned(&["fjord", "fjord"]);
    let (codes, map) = encode(&words);
    assert_eq!(codes, vec![encode_word("fjord")]);
    assert_eq!(map[&codes[0]], owned(&["fjord", "fjord"]));
}

#[test]
fn no_words_no_index() {
    let (codes, map) = encode(&[]);
    assert!(codes.is_empty());
    assert!(map.is_empty());
}

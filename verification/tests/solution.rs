use five_words::index::encode;
use five_words::mask::encode_word;
use five_words::search::solve_outer;
use five_words::solution::{checked_total_count, total_count, Solution};
use std::collections::HashMap;

fn owned(words: &[&str]) -> Vec<String> {
    words.iter().map(|w| w.to_string()).collect()
}

fn tuple(words: [&str; 5]) -> Solution {
    Solution {
        codes: [
            encode_word(words[0]),
            encode_word(words[1]),
            encode_word(words[2]),
            encode_word(words[3]),
            encode_word(words[4]),
        ],
    }
}

#[test]
fn counts_one_combination_for_single_words() {
    let words = owned(&["abcde", "fghij", "klmno", "pqrst", "uvwxy"]);
    let (_, map) = encode(&words);
    let solution = tuple(["uvwxy", "pqrst", "klmno", "fghij", "abcde"]);
    assert_eq!(solution.count(&map), 1);
    assert_eq!(solution.checked_count(&map), Some(1));
}

#[test]
fn counts_two_for_one_pair_of_anagrams() {
    let words = owned(&["abcde", "fghij", "edcba", "klmno", "pqrst", "uvwxy"]);
    let (codes, map) = encode(&words);
    let solutions = solve_outer(&codes);
    assert_eq!(solutions.len(), 1);
    assert_eq!(solutions[0].count(&map), 2);
    assert_eq!(total_count(&solutions, &map), 2);
}

#[test]
fn counts_the_product_of_the_group_sizes() {
    let words = owned(&[
        "abcde", "edcba", "fghij", "jihgf", "ghijf", "klmno", "pqrst", "uvwxy", "yxwvu", "uvwxz",
    ]);
    let (codes, map) = encode(&words);
    let solutions = solve_outer(&codes);
    assert_eq!(solutions.len(), 2);
    // With "uvwxy": 2 * 3 * 1 * 1 * 2; with "uvwxz": 2 * 3 * 1 * 1 * 1.
    assert_eq!(solutions[0].count(&map), 12);
    assert_eq!(solutions[1].count(&map), 6);
    assert_eq!(total_count(&solutions, &map), 18);
    assert_eq!(checked_total_count(&solutions, &map), Some(18));
}

#[test]
fn total_of_no_tuples_is_zero() {
    let map: HashMap<u32, Vec<String>> = HashMap::new();
    assert_eq!(total_count(&[], &map), 0);
    assert_eq!(checked_total_count(&[], &map), Some(0));
}

#[test]
fn checked_count_misses_a_group() {
    let words = owned(&["abcde", "fghij", "klmno", "pqrst"]);
    let (_, map) = encode(&words);
    let solution = tuple(["uvwxy", "pqrst", "klmno", "fghij", "abcde"]);
    assert_eq!(solution.checked_count(&map), None);
    assert_eq!(checked_total_count(&[solution], &map), None);
}

#[test]
fn count_of_an_empty_group_is_zero() {
    let mut map: HashMap<u32, Vec<String>> = HashMap::new();
    for word in ["abcde", "fghij", "klmno", "pqrst"] {
        map.insert(encode_word(word), owned(&[word]));
    }
    map.insert(encode_word("uvwxy"), Vec::new());
    let solution = tuple(["uvwxy", "pqrst", "klmno", "fghij", "abcde"]);
    assert_eq!(solution.checked_count(&map), Some(0));
}

#[test]
fn displays_rows_by_earliest_letter() {
    let words = owned(&["uvwxy", "pqrst", "edcba", "klmno", "fghij", "abcde"]);
    let (_, map) = encode(&words);
    let solution = tuple(["uvwxy", "pqrst", "klmno", "fghij", "abcde"]);
    assert_eq!(
        solution.display(&map),
        owned(&[
            "ABCDE---------------------  edcba / abcde",
            "-----FGHIJ----------------  fghij",
            "----------KLMNO-----------  klmno",
            "---------------PQRST------  pqrst",
            "--------------------UVWXY-  uvwxy",
        ])
    );
}

#[test]
fn displays_interleaved_letters() {
    let words = owned(&["fjord", "gucks", "nymph", "vibex", "waltz"]);
    let (codes, map) = encode(&words);
    let solutions = solve_outer(&codes);
    assert_eq!(solutions.len(), 1);
    assert_eq!(
        solutions[0].display(&map),
        owned(&[
            "A----------L-------T--W--Z  waltz",
            "-B--E---I------------V-X--  vibex",
            "--C---G---K-------S-U-----  gucks",
            "---D-F---J----O--R--------  fjord",
            "-------H----MN-P--------Y-  nymph",
        ])
    );
}

#[test]
fn display_keeps_the_order_of_equal_earliest_letters() {
    let mut map: HashMap<u32, Vec<String>> = HashMap::new();
    for word in ["az", "ay", "b", "ax", "c"] {
        map.insert(encode_word(word), owned(&[word]));
    }
    let solution = tuple(["az", "c", "ay", "b", "ax"]);
    let lines = solution.display(&map);
    let shown: Vec<&str> = lines.iter().map(|l| &l[28..]).collect();
    assert_eq!(shown, vec!["az", "ay", "ax", "b", "c"]);
}

#[test]
fn display_puts_the_empty_mask_last() {
    let mut map: HashMap<u32, Vec<String>> = HashMap::new();
    map.insert(0, Vec::new());
    for word in ["z", "a", "m", "b"] {
        map.insert(encode_word(word), owned(&[word]));
    }
    let solution = Solution {
        codes: [0, encode_word("z"), encode_word("a"), encode_word("m"), encode_word("b")],
    };
    let lines = solution.display(&map);
    assert_eq!(lines[4], "--------------------------  ");
    assert_eq!(lines[0], "A-------------------------  a");
    assert_eq!(lines[3], "-------------------------Z  z");
}

/// A map in which each of the five masks has a group of the given size.
fn groups_of(words: [&str; 5], sizes: [usize; 5]) -> HashMap<u32, Vec<String>> {
    let mut map: HashMap<u32, Vec<String>> = HashMap::new();
    for (word, size) in words.iter().zip(sizes) {
        map.insert(encode_word(word), vec![String::new(); size]);
    }
    map
}

#[test]
fn checked_count_stops_at_a_product_too_large() {
    let words = ["uvwxy", "pqrst", "klmno", "fghij", "abcde"];
    let solution = tuple(words);
    // Five factors of 2^13 on a machine of 64 bits: 2^65.
    let large = 1usize << (usize::BITS / 5 + 1);
    assert_eq!(solution.checked_count(&groups_of(words, [large; 5])), None);
    assert_eq!(checked_total_count(&[solution], &groups_of(words, [large; 5])), None);
}

#[test]
fn checked_count_returns_the_largest_products() {
    let words = ["uvwxy", "pqrst", "klmno", "fghij", "abcde"];
    let solution = tuple(words);
    let large = 1usize << (usize::BITS / 5 + 1);
    let map = groups_of(words, [large, large, large, large, 1]);
    let product = large * large * large * large;
    assert_eq!(solution.checked_count(&map), Some(product));
    assert_eq!(solution.count(&map), product);
    assert_eq!(total_count(&[solution], &map), product);
}

#[test]
fn checked_total_count_stops_at_a_sum_too_large() {
    let words = ["uvwxy", "pqrst", "klmno", "fghij", "abcde"];
    let solution = tuple(words);
    let shift = usize::BITS / 5 + 1;
    let large = 1usize << shift;
    // Each tuple counts for a quarter of 2^64 on a machine of 64 bits.
    let last = 1usize << (usize::BITS - 2 - 4 * shift);
    let map = groups_of(words, [large, large, large, large, last]);
    let each = solution.checked_count(&map);
    assert_eq!(each, Some(1usize << (usize::BITS - 2)));
    assert_eq!(
        checked_total_count(&[solution; 3], &map),
        Some(3usize << (usize::BITS - 2))
    );
    assert_eq!(checked_total_count(&[solution; 4], &map), None);
}

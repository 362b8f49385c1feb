use five_words::index::encode;
use five_words::mask::encode_word;
use five_words::search::{solve_branch, solve_inner, solve_outer, solve_sequential};
use five_words::solution::Solution;

fn owned(words: &[&str]) -> Vec<String> {
    words.iter().map(|w| w.to_string()).collect()
}

fn masks(words: &[&str]) -> Vec<u32> {
    let mut codes: Vec<u32> = words.iter().map(|w| encode_word(w)).collect();
    codes.sort();
    codes.dedup();
    codes
}

/// Every candidate by five nested loops, in lexicographic order of its positions.
fn by_nested_loops(codes: &[u32]) -> Vec<Solution> {
    let n = codes.len();
    let mut found = Vec::new();
    for a in 0..n {
        for b in a + 1..n {
            for c in b + 1..n {
                for d in c + 1..n {
                    for e in d + 1..n {
                        let picked = [codes[a], codes[b], codes[c], codes[d], codes[e]];
                        let mut disjoint = true;
                        for i in 0..5 {
                            for j in i + 1..5 {
                                if picked[i] & picked[j] != 0 {
                                    disjoint = false;
                                }
                            }
                        }
                        if disjoint {
                            found.push(Solution {
                                codes: [codes[e], codes[d], codes[c], codes[b], codes[a]],
                            });
                        }
                    }
                }
            }
        }
    }
    found
}

/// Masks of five letters each, drawn by a fixed linear congruential generator.
fn drawn_masks(count: usize, alphabet: u32, mut state: u64) -> Vec<u32> {
    let mut codes = Vec::new();
    while codes.len() < count {
        let mut mask = 0u32;
        while mask.count_ones() < 5 {
            state = state.wrapping_mul(6364136223846793005).wrapping_add(1442695040888963407);
            mask |= 1 << ((state >> 33) % alphabet as u64);
        }
        if !codes.contains(&mask) {
            codes.push(mask);
        }
    }
    codes.sort();
    codes
}

#[test]
fn finds_the_one_combination() {
    // "ejotz" shares a letter with four of the five other words.
    let words = owned(&["abcde", "fghij", "klmno", "pqrst", "uvwxy", "ejotz"]);
    let (codes, map) = encode(&words);
    let solutions = solve_outer(&codes);
    assert_eq!(
        solutions,
        vec![Solution {
            codes: [
                encode_word("uvwxy"),
                encode_word("pqrst"),
                encode_word("klmno"),
                encode_word("fghij"),
                encode_word("abcde"),
            ]
        }]
    );
    for code in solutions[0].codes {
        assert_eq!(map[&code].len(), 1);
    }
    assert_eq!(map[&encode_word("abcde")], owned(&["abcde"]));
    assert_eq!(map[&encode_word("uvwxy")], owned(&["uvwxy"]));
}

#[test]
fn finds_nothing_where_nothing_is() {
    let codes = masks(&["abcde", "fghij", "klmno", "pqrst", "tuvwx", "ejotz"]);
    assert_eq!(solve_outer(&codes), Vec::<Solution>::new());
    assert_eq!(solve_sequential(&codes), Vec::<Solution>::new());
}

#[test]
fn finds_nothing_among_fewer_than_five() {
    assert_eq!(solve_outer(&[]), Vec::<Solution>::new());
    assert_eq!(solve_outer(&masks(&["abcde", "fghij", "klmno", "pqrst"])), Vec::<Solution>::new());
    assert_eq!(solve_sequential(&[]), Vec::<Solution>::new());
}

#[test]
fn finds_every_combination_of_one_branch() {
    // Two combinations share their first four picks.
    let codes = masks(&["abcde", "fghij", "klmno", "pqrst", "uvwxy", "uvwxz"]);
    let solutions = solve_outer(&codes);
    let first = [
        encode_word("pqrst"),
        encode_word("klmno"),
        encode_word("fghij"),
        encode_word("abcde"),
    ];
    assert_eq!(
        solutions,
        vec![
            Solution {
                codes: [encode_word("uvwxy"), first[0], first[1], first[2], first[3]]
            },
            Solution {
                codes: [encode_word("uvwxz"), first[0], first[1], first[2], first[3]]
            },
        ]
    );
    assert_eq!(solve_branch(&codes, 0), solutions);
    for idx in 1..codes.len() {
        assert_eq!(solve_branch(&codes, idx), Vec::<Solution>::new());
    }
}

#[test]
fn finds_the_known_english_combination() {
    let codes = masks(&[
        "fjord", "gucks", "nymph", "vibex", "waltz", "glent", "jumby", "prick", "vozhd", "waqfs",
        "bling", "treck", "brick", "jumpy", "quick",
    ]);
    let solutions = solve_outer(&codes);
    assert_eq!(solutions, by_nested_loops(&codes));
    assert!(solutions.iter().any(|s| {
        let mut got = s.codes.to_vec();
        got.sort();
        got == masks(&["fjord", "gucks", "nymph", "vibex", "waltz"])
    }));
    assert!(solutions.iter().any(|s| {
        let mut got = s.codes.to_vec();
        got.sort();
        got == masks(&["glent", "jumby", "prick", "vozhd", "waqfs"])
    }));
}

#[test]
fn agrees_with_nested_loops() {
    for (count, alphabet, seed) in [(40, 26, 1u64), (60, 26, 2), (30, 25, 3), (48, 26, 4)] {
        let codes = drawn_masks(count, alphabet, seed);
        let expected = by_nested_loops(&codes);
        assert_eq!(solve_outer(&codes), expected);
        assert_eq!(solve_sequential(&codes), expected);
    }
}

#[test]
fn finds_some_combinations_among_drawn_masks() {
    let codes = drawn_masks(60, 26, 2);
    assert!(!solve_outer(&codes).is_empty());
}

#[test]
fn tuples_are_disjoint_and_drawn_in_descending_slots() {
    let codes = drawn_masks(60, 26, 2);
    for solution in solve_outer(&codes) {
        let mut all = 0u32;
        for code in solution.codes {
            assert!(codes.contains(&code));
            assert_eq!(all & code, 0);
            all |= code;
        }
        assert_eq!(all.count_ones(), 25);
        for d in 0..4 {
            assert!(solution.codes[d] > solution.codes[d + 1]);
        }
    }
}

#[test]
fn no_tuple_is_a_permutation_of_another() {
    let codes = drawn_masks(60, 26, 2);
    let mut seen: Vec<Vec<u32>> = Vec::new();
    for solution in solve_outer(&codes) {
        let mut sorted = solution.codes.to_vec();
        sorted.sort();
        assert!(!seen.contains(&sorted));
        seen.push(sorted);
    }
}

#[test]
fn repeated_runs_agree() {
    let codes = drawn_masks(60, 26, 2);
    let first = solve_outer(&codes);
    for _ in 0..5 {
        assert_eq!(solve_outer(&codes), first);
    }
    assert_eq!(solve_sequential(&codes), first);
}

#[test]
fn branches_join_to_the_whole() {
    let codes = drawn_masks(48, 26, 4);
    let mut joined = Vec::new();
    for idx in 0..codes.len() {
        joined.extend(solve_branch(&codes, idx));
    }
    assert_eq!(joined, solve_outer(&codes));
}

#[test]
fn inner_search_completes_a_partial_tuple() {
    let codes = masks(&["abcde", "fghij", "klmno", "pqrst", "uvwxy", "uvwxz"]);
    // "abcde" and "fghij" picked; "klmno" is tried as the third pick.
    let used = codes[0] | codes[1];
    let mut result = [7, 7, 7, codes[1], codes[0]];
    let mut found = vec![Solution { codes: [1, 2, 3, 4, 5] }];
    solve_inner(&codes, 2, used, 2, &mut result, &mut found);
    assert_eq!(
        found,
        vec![
            Solution { codes: [1, 2, 3, 4, 5] },
            Solution { codes: [codes[4], codes[3], codes[2], codes[1], codes[0]] },
            Solution { codes: [codes[5], codes[3], codes[2], codes[1], codes[0]] },
        ]
    );
    assert_eq!(result[3], codes[1]);
    assert_eq!(result[4], codes[0]);
}

#[test]
fn inner_search_prunes_a_shared_letter() {
    let codes = masks(&["abcde", "fghij", "klmno", "pqrst", "uvwxy"]);
    let mut result = [0; 5];
    let mut found = Vec::new();
    solve_inner(&codes, 1, encode_word("j"), 3, &mut result, &mut found);
    assert_eq!(found, Vec::<Solution>::new());
    assert_eq!(result, [0; 5]);
}

#[test]
fn inner_search_records_the_last_pick() {
    let codes = masks(&["abcde", "fghij"]);
    let mut result = [0, 9, 9, 9, 9];
    let mut found = Vec::new();
    solve_inner(&codes, 1, codes[0], 0, &mut result, &mut found);
    assert_eq!(found, vec![Solution { codes: [codes[1], 9, 9, 9, 9] }]);
}

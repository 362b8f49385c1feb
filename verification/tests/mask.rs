use five_words::mask::{can_encode, encode_word};

#[test]
fn encodes_one_bit_per_letter() {
    assert_eq!(encode_word("a"), 1);
    assert_eq!(encode_word("z"), 1 << 25);
    assert_eq!(encode_word("abcde"), 0b11111);
    assert_eq!(encode_word("fjord"), (1 << 5) | (1 << 9) | (1 << 14) | (1 << 17) | (1 << 3));
}

#[test]
fn empty_word_has_empty_mask() {
    assert_eq!(encode_word(""), 0);
}

#[test]
fn encoding_ignores_order() {
    assert_eq!(encode_word("abcde"), encode_word("edcba"));
    assert_eq!(encode_word("glent"), encode_word("glent"));
    assert_eq!(encode_word("least"), encode_word("slate"));
    assert_eq!(encode_word("least"), encode_word("stale"));
}

#[test]
fn encoding_ignores_repeats() {
    assert_eq!(encode_word("aabcd"), encode_word("abcd"));
    assert_eq!(encode_word("zzzzz"), 1 << 25);
}

#[test]
fn different_letter_sets_differ() {
    assert_ne!(encode_word("abcde"), encode_word("abcdf"));
}

#[test]
fn five_distinct_letters_give_five_bits() {
    for word in ["abcde", "fjord", "waltz", "nymph", "quick", "vibex"] {
        assert_eq!(encode_word(word).count_ones(), 5);
    }
}

#[test]
fn masks_stay_within_26_bits() {
    assert_eq!(encode_word("abcdefghijklmnopqrstuvwxyz"), (1 << 26) - 1);
}

#[test]
fn disjoint_words_have_disjoint_masks() {
    assert_eq!(encode_word("abcde") & encode_word("fghij"), 0);
    assert_eq!(encode_word("abcde") & encode_word("efghi"), 1 << 4);
}

#[test]
fn five_disjoint_words_cover_25_letters() {
    let words = ["fjord", "gucks", "nymph", "vibex", "waltz"];
    let mut all = 0u32;
    for (i, a) in words.iter().enumerate() {
        for b in &words[i + 1..] {
            assert_eq!(encode_word(a) & encode_word(b), 0);
        }
        all |= encode_word(a);
    }
    assert_eq!(all.count_ones(), 25);
}

#[test]
fn overlapping_words_cover_fewer_letters() {
    let words = ["fjord", "gucks", "nymph", "vibex", "walts"];
    let mut all = 0u32;
    for w in words {
        all |= encode_word(w);
    }
    assert_ne!(encode_word("gucks") & encode_word("walts"), 0);
    assert_eq!(all.count_ones(), 24);
}

#[test]
fn lowercase_words_can_be_encoded() {
    assert!(can_encode("abcde"));
    assert!(can_encode("z"));
    assert!(can_encode(""));
}

#[test]
fn other_characters_cannot_be_encoded() {
    assert!(!can_encode("Abcde"));
    assert!(!can_encode("ab-cd"));
    assert!(!can_encode("12345"));
    assert!(!can_encode("abcd{"));
    assert!(!can_encode("abcd`"));
    assert!(!can_encode("h\u{e9}llo"));
}

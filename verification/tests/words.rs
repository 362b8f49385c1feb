use five_words::words::{filter_words, keeps};

fn owned(words: &[&str]) -> Vec<String> {
    words.iter().map(|w| w.to_string()).collect()
}

#[test]
fn keeps_five_distinct_letters() {
    assert!(keeps("abcde"));
    assert!(keeps("fjord"));
    assert!(keeps("waltz"));
}

#[test]
fn rejects_other_lengths() {
    assert!(!keeps(""));
    assert!(!keeps("abcd"));
    assert!(!keeps("abcdef"));
    assert!(!keeps("abcdefghij"));
}

#[test]
fn rejects_repeated_letters() {
    assert!(!keeps("aabcd"));
    assert!(!keeps("hello"));
    assert!(!keeps("zzzzz"));
    assert!(!keeps("abcda"));
}

#[test]
fn length_is_counted_in_bytes() {
    // Five characters, six bytes.
    assert!(!keeps("h\u{e9}llo"));
    // Four characters, five bytes.
    assert!(!keeps("h\u{e9}lo"));
    // Three characters, five bytes.
    assert!(!keeps("\u{e9}\u{e9}a"));
}

#[test]
fn keeps_any_five_distinct_characters() {
    assert!(keeps("12345"));
    assert!(keeps("ab-cd"));
}

#[test]
fn filter_keeps_order_and_drops_the_rest() {
    let kept = filter_words(owned(&[
        "fjord", "hello", "abc", "waltz", "abcdef", "nymph", "aabcd", "fjord",
    ]));
    assert_eq!(kept, owned(&["fjord", "waltz", "nymph", "fjord"]));
}

#[test]
fn filter_of_nothing_is_nothing() {
    assert_eq!(filter_words(Vec::new()), Vec::<String>::new());
    assert_eq!(filter_words(owned(&["a", "bb", "hello"])), Vec::<String>::new());
}

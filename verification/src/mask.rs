//! Letter masks: a word's set of letters packed into the low 26 bits of a `u32`.

use vstd::prelude::*;
use vstd::string::*;

verus! {

/// Number of letters in the alphabet, and so of meaningful bits in a mask.
pub const ALPHABET: u32 = 26;

/// Bit `i` of `mask` is set.
pub open spec fn has_bit(mask: u32, i: u32) -> bool {
    i < 32 && mask & (1u32 << i) != 0
}

/// The mask holds the letter at position `i` of the alphabet (`0` is `a`).
pub open spec fn has_letter(mask: u32, i: int) -> bool {
    0 <= i < 32 && has_bit(mask, i as u32)
}

/// The letters a mask stands for, as positions in the alphabet.
pub open spec fn letters(mask: u32) -> Set<int> {
    Set::new(|i: int| has_letter(mask, i))
}

/// How many letters a mask holds.
pub open spec fn popcount(mask: u32) -> nat {
    letters(mask).len()
}

/// Two masks share no letter.
pub open spec fn disjoint(a: u32, b: u32) -> bool {
    a & b == 0
}

/// No two masks of the sequence share a letter.
pub open spec fn pairwise_disjoint(masks: Seq<u32>) -> bool {
    forall|j: int, k: int|
        0 <= j < k < masks.len() ==> disjoint(#[trigger] masks[j], #[trigger] masks[k])
}

/// The character is one of `a` to `z`.
pub open spec fn is_lowercase(c: char) -> bool {
    'a' <= c <= 'z'
}

/// Every character of the word is one of `a` to `z`.
pub open spec fn is_lowercase_word(word: Seq<char>) -> bool {
    forall|k: int| 0 <= k < word.len() ==> is_lowercase(#[trigger] word[k])
}

/// Position of a lowercase letter in the alphabet.
pub open spec fn letter_index(c: char) -> int {
    c as int - 'a' as int
}

/// The single-letter mask of a lowercase letter.
pub open spec fn letter_bit(c: char) -> u32 {
    1u32 << ((c as u32 - 'a' as u32) as u32)
}

/// The alphabet positions of the characters that occur in a word.
pub open spec fn letter_set(word: Seq<char>) -> Set<int> {
    word.to_set().map(|c: char| letter_index(c))
}

/// The mask of a word: the bitwise OR of the single-letter masks of its
/// characters.
pub open spec fn mask_of(word: Seq<char>) -> u32
    decreases word.len(),
{
    if word.len() == 0 {
        0
    } else {
        mask_of(word.drop_last()) | letter_bit(word.last())
    }
}

/// Decides whether a word can be encoded: whether every character of it is
/// one of `a` to `z`.
pub fn can_encode(word: &str) -> (lowercase: bool)
    ensures
        lowercase == is_lowercase_word(word@),
{
    for c in it: word.chars()
        invariant
            it.seq() == word@,
            forall|k: int| 0 <= k < it.index() ==> is_lowercase(#[trigger] word@[k]),
    {
        if !('a' <= c && c <= 'z') {
            assert(!is_lowercase(word@[it.index() as int]));
            return false;
        }
    }
    true
}

/// Encodes a lowercase word as its letter mask: bit `i` is set exactly when
/// the word contains the letter at position `i` of the alphabet.
pub fn encode_word(word: &str) -> (code: u32)
    requires
        is_lowercase_word(word@),
    ensures
        code == mask_of(word@),
        letters(code) == letter_set(word@),
        popcount(code) == word@.to_set().len(),
        code < 0x400_0000,
{
    let mut code: u32 = 0;
    for c in it: word.chars()
        invariant
            is_lowercase_word(word@),
            it.seq() == word@,
            code == mask_of(word@.take(it.index() as int)),
    {
        assert(is_lowercase(word@[it.index() as int]));
        let shift: u32 = c as u32 - 97;
        code = code | (1u32 << shift);
        proof {
            let next = word@.take(it.index() as int + 1);
            assert(next.drop_last() =~= word@.take(it.index() as int));
            assert(next.last() == c);
        }
    }
    proof {
        assert(word@.take(word@.len() as int) =~= word@);
        lemma_mask_of_lowercase(word@);
    }
    code
}

/// The mask of a lowercase word holds exactly the word's letters, one bit for
/// each distinct character, all within the low 26 bits.
pub proof fn lemma_mask_of_lowercase(word: Seq<char>)
    requires
        is_lowercase_word(word),
    ensures
        letters(mask_of(word)) == letter_set(word),
        popcount(mask_of(word)) == word.to_set().len(),
        forall|i: int| has_letter(mask_of(word), i) ==> i < ALPHABET,
        mask_of(word) < 0x400_0000,
{
    let index = |c: char| letter_index(c);
    assert forall|i: int| letters(mask_of(word)).contains(i) <==> letter_set(word).contains(
        i,
    ) by {
        lemma_mask_of_has_letter(word, i);
        if has_letter(mask_of(word), i) {
            let k = choose|k: int|
                0 <= k < word.len() && has_letter(letter_bit(#[trigger] word[k]), i);
            lemma_letter_bit(word[k]);
            assert(letters(letter_bit(word[k])).contains(i));
            assert(word.to_set().contains(word[k]));
            assert(index(word[k]) == i);
        }
        if letter_set(word).contains(i) {
            let c = choose|c: char| word.to_set().contains(c) && index(c) == i;
            let k = choose|k: int| 0 <= k < word.len() && word[k] == c;
            lemma_letter_bit(word[k]);
            assert(letters(letter_bit(word[k])).contains(i));
        }
    }
    assert(letters(mask_of(word)) =~= letter_set(word));
    vstd::seq_lib::seq_to_set_is_finite(word);
    assert(vstd::relations::injective_on(index, word.to_set()));
    vstd::set_lib::lemma_map_size(word.to_set(), letter_set(word), index);
    assert forall|i: int| has_letter(mask_of(word), i) implies i < ALPHABET by {
        assert(letter_set(word).contains(i));
        let c = choose|c: char| word.to_set().contains(c) && index(c) == i;
        let k = choose|k: int| 0 <= k < word.len() && word[k] == c;
        assert(is_lowercase(word[k]));
    }
    let mask = mask_of(word);
    if mask >= 0x400_0000 {
        let high = mask >> 26;
        assert(mask >= 0x400_0000 ==> mask >> 26 != 0) by (bit_vector);
        vstd::std_specs::bits::axiom_u32_trailing_zeros(high);
        let k = vstd::std_specs::bits::u32_trailing_zeros(high);
        let at = (26 + k) as u32;
        assert(high == mask >> 26 && k < 32 && (high >> k) & 1u32 == 1u32 && at == 26 + k ==> at
            < 32 && mask & (1u32 << at) != 0) by (bit_vector);
        assert(has_letter(mask, at as int));
    }
}

/// The mask depends on which characters occur in a word, not on their order
/// nor on how often each occurs.
pub proof fn lemma_mask_of_ignores_order_and_repeats(a: Seq<char>, b: Seq<char>)
    requires
        a.to_set() == b.to_set(),
    ensures
        mask_of(a) == mask_of(b),
{
    assert forall|i: int| has_letter(mask_of(a), i) <==> has_letter(mask_of(b), i) by {
        lemma_mask_of_has_letter(a, i);
        lemma_mask_of_has_letter(b, i);
        if has_letter(mask_of(a), i) {
            let k = choose|k: int| 0 <= k < a.len() && has_letter(letter_bit(#[trigger] a[k]), i);
            assert(a.to_set().contains(a[k]));
            let j = choose|j: int| 0 <= j < b.len() && b[j] == a[k];
            assert(has_letter(letter_bit(b[j]), i));
        }
        if has_letter(mask_of(b), i) {
            let k = choose|k: int| 0 <= k < b.len() && has_letter(letter_bit(#[trigger] b[k]), i);
            assert(b.to_set().contains(b[k]));
            let j = choose|j: int| 0 <= j < a.len() && a[j] == b[k];
            assert(has_letter(letter_bit(a[j]), i));
        }
    }
    assert(letters(mask_of(a)) =~= letters(mask_of(b)));
    lemma_letters_determine_mask(mask_of(a), mask_of(b));
}

/// Five masks of five letters each hold twenty-five letters between them
/// exactly when no two of them share a letter.
pub proof fn lemma_pairwise_disjoint_iff_25_letters(masks: Seq<u32>)
    requires
        masks.len() == 5,
        forall|k: int| 0 <= k < 5 ==> popcount(#[trigger] masks[k]) == 5,
    ensures
        pairwise_disjoint(masks) <==> popcount(masks[0] | masks[1] | masks[2] | masks[3] | masks[4])
            == 25,
{
    let acc1 = masks[0] | masks[1];
    let acc2 = acc1 | masks[2];
    let acc3 = acc2 | masks[3];
    lemma_popcount_or(masks[0], masks[1]);
    lemma_popcount_or(acc1, masks[2]);
    lemma_popcount_or(acc2, masks[3]);
    lemma_popcount_or(acc3, masks[4]);
    lemma_disjoint_or(masks[0], masks[1], masks[2]);
    lemma_disjoint_or(acc1, masks[2], masks[3]);
    lemma_disjoint_or(masks[0], masks[1], masks[3]);
    lemma_disjoint_or(acc2, masks[3], masks[4]);
    lemma_disjoint_or(acc1, masks[2], masks[4]);
    lemma_disjoint_or(masks[0], masks[1], masks[4]);
    if pairwise_disjoint(masks) {
        assert(disjoint(masks[0], masks[1]));
        assert(disjoint(masks[0], masks[2]) && disjoint(masks[1], masks[2]));
        assert(disjoint(masks[0], masks[3]) && disjoint(masks[1], masks[3]) && disjoint(
            masks[2],
            masks[3],
        ));
        assert(disjoint(masks[0], masks[4]) && disjoint(masks[1], masks[4]) && disjoint(
            masks[2],
            masks[4],
        ) && disjoint(masks[3], masks[4]));
    }
}

/// A bitwise OR holds as many letters as its operands together when they are
/// disjoint, and fewer when they are not.
pub proof fn lemma_popcount_or(a: u32, b: u32)
    ensures
        popcount(a | b) <= popcount(a) + popcount(b),
        popcount(a | b) == popcount(a) + popcount(b) <==> disjoint(a, b),
{
    lemma_letters_finite(a);
    lemma_letters_finite(b);
    lemma_letters_or(a, b);
    lemma_disjoint_letters(a, b);
    vstd::set_lib::lemma_set_intersect_union_lens(letters(a), letters(b));
    vstd::set_lib::lemma_disjoint_iff_empty_intersection(letters(a), letters(b));
    let common = letters(a).intersect(letters(b));
    vstd::set_lib::lemma_len_intersect(letters(a), letters(b));
    assert(common.finite()) by {
        vstd::set_lib::lemma_set_subset_finite(letters(a), common);
    }
    vstd::set_lib::lemma_set_empty_equivalency_len(common);
    assert(common.is_empty() <==> common =~= Set::empty());
}

/// A mask is disjoint from a bitwise OR exactly when it is disjoint from
/// both operands.
pub proof fn lemma_disjoint_or(a: u32, b: u32, c: u32)
    ensures
        disjoint(a | b, c) <==> disjoint(a, c) && disjoint(b, c),
{
    assert(((a | b) & c == 0) <==> (a & c == 0 && b & c == 0)) by (bit_vector);
}

/// Two masks have a zero bitwise AND exactly when their letter sets do not
/// meet.
pub proof fn lemma_disjoint_letters(a: u32, b: u32)
    ensures
        disjoint(a, b) <==> letters(a).disjoint(letters(b)),
{
    if disjoint(a, b) {
        assert forall|i: int| !(letters(a).contains(i) && letters(b).contains(i)) by {
            if 0 <= i < 32 {
                let k = i as u32;
                assert(a & b == 0 ==> !(a & (1u32 << k) != 0 && b & (1u32 << k) != 0))
                    by (bit_vector);
            }
        }
    } else {
        let c = a & b;
        vstd::std_specs::bits::axiom_u32_trailing_zeros(c);
        let k = vstd::std_specs::bits::u32_trailing_zeros(c);
        assert(k < 32);
        assert((c >> k) & 1u32 == 1u32);
        assert(c == a & b && k < 32 && (c >> k) & 1u32 == 1u32 ==> a & (1u32 << k) != 0 && b & (1u32
            << k) != 0) by (bit_vector);
        assert(letters(a).contains(k as int));
        assert(letters(b).contains(k as int));
    }
}

/// Masks with the same letters are the same mask.
pub proof fn lemma_letters_determine_mask(a: u32, b: u32)
    requires
        letters(a) == letters(b),
    ensures
        a == b,
{
    if a != b {
        let c = a ^ b;
        assert(a != b ==> a ^ b != 0) by (bit_vector);
        vstd::std_specs::bits::axiom_u32_trailing_zeros(c);
        let k = vstd::std_specs::bits::u32_trailing_zeros(c);
        assert(c == a ^ b && k < 32 && (c >> k) & 1u32 == 1u32 ==> ((a & (1u32 << k) != 0) != (b & (
        1u32 << k) != 0))) by (bit_vector);
        assert(has_letter(a, k as int) != has_letter(b, k as int));
        assert(letters(a).contains(k as int) == has_letter(a, k as int));
        assert(letters(b).contains(k as int) == has_letter(b, k as int));
    }
}

/// A word's mask holds a letter exactly when the single-letter mask of one of
/// its characters does.
pub proof fn lemma_mask_of_has_letter(word: Seq<char>, i: int)
    ensures
        has_letter(mask_of(word), i) <==> exists|k: int|
            0 <= k < word.len() && has_letter(letter_bit(#[trigger] word[k]), i),
    decreases word.len(),
{
    if word.len() == 0 {
        lemma_letters_empty();
        assert(!letters(0).contains(i));
    } else {
        let rest = word.drop_last();
        lemma_mask_of_has_letter(rest, i);
        lemma_letters_or(mask_of(rest), letter_bit(word.last()));
        assert(letters(mask_of(word)).contains(i) <==> letters(mask_of(rest)).contains(i)
            || letters(letter_bit(word.last())).contains(i));
        if has_letter(mask_of(word), i) {
            if has_letter(mask_of(rest), i) {
                let k = choose|k: int|
                    0 <= k < rest.len() && has_letter(letter_bit(#[trigger] rest[k]), i);
                assert(word[k] == rest[k]);
            } else {
                assert(has_letter(letter_bit(word[word.len() - 1]), i));
            }
        }
        if exists|k: int| 0 <= k < word.len() && has_letter(letter_bit(#[trigger] word[k]), i) {
            let k = choose|k: int|
                0 <= k < word.len() && has_letter(letter_bit(#[trigger] word[k]), i);
            if k < rest.len() {
                assert(rest[k] == word[k]);
            }
        }
    }
}

/// The single-letter mask of a lowercase letter holds that letter and no
/// other.
pub proof fn lemma_letter_bit(c: char)
    requires
        is_lowercase(c),
    ensures
        letters(letter_bit(c)) == set![letter_index(c)],
{
    let shift = (c as u32 - 'a' as u32) as u32;
    lemma_letters_single(shift);
}

/// No mask holds a letter beyond the thirty-second, so the letters form a
/// finite set.
pub proof fn lemma_letters_finite(mask: u32)
    ensures
        letters(mask).finite(),
        popcount(mask) <= 32,
{
    let all = Set::new(|i: int| 0 <= i < 32);
    vstd::set_lib::lemma_int_range(0, 32);
    assert(all =~= vstd::set_lib::set_int_range(0, 32));
    assert(letters(mask).subset_of(all));
    vstd::set_lib::lemma_len_subset(letters(mask), all);
}

/// The empty mask holds no letter.
pub proof fn lemma_letters_empty()
    ensures
        letters(0) == Set::<int>::empty(),
        popcount(0) == 0,
{
    assert forall|i: int| !has_letter(0, i) by {
        let b = i as u32;
        assert(0u32 & (1u32 << b) == 0) by (bit_vector);
    }
    assert(letters(0) =~= Set::<int>::empty());
}

/// A single-letter mask holds exactly that letter.
pub proof fn lemma_letters_single(i: u32)
    requires
        i < 32,
    ensures
        letters(1u32 << i) == set![i as int],
        popcount(1u32 << i) == 1,
{
    assert forall|j: int| has_letter(1u32 << i, j) <==> j == i by {
        let b = j as u32;
        assert(i < 32 && b < 32 ==> (((1u32 << i) & (1u32 << b) != 0) <==> b == i))
            by (bit_vector);
    }
    assert(letters(1u32 << i) =~= set![i as int]);
}

/// The letters of a bitwise OR are the union of the letters of its operands.
pub proof fn lemma_letters_or(a: u32, b: u32)
    ensures
        letters(a | b) == letters(a).union(letters(b)),
{
    assert forall|i: int| has_letter(a | b, i) <==> has_letter(a, i) || has_letter(b, i) by {
        let k = i as u32;
        assert(((a | b) & (1u32 << k) != 0) <==> (a & (1u32 << k) != 0 || b & (1u32 << k) != 0))
            by (bit_vector);
    }
    assert(letters(a | b) =~= letters(a).union(letters(b)));
}

} // verus!

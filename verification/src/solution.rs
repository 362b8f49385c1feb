//! A found tuple of five masks, its count of word combinations and its
//! display.

use crate::index::spellings;
use crate::mask::{has_letter, ALPHABET};
use std::collections::HashMap;
use vstd::prelude::*;
use vstd::std_specs::bits::u32_trailing_zeros;
use vstd::string::StringExecFns;

verus! {

/// Five letter masks.
pub type Codes = [u32; 5];

/// Five letter masks, one for each word of a found combination. Slot `d`
/// holds the mask that was picked when `d` further picks remained, so the
/// first pick stands in slot 4 and the last in slot 0.
#[derive(Clone, Copy, Debug, PartialEq, Eq)]
pub struct Solution {
    pub codes: Codes,
}

/// Number of words filed under `code`.
pub open spec fn group_size(map: Map<u32, Vec<String>>, code: u32) -> nat {
    map[code]@.len()
}

/// The product of the group sizes of the first `n` masks.
pub open spec fn combinations(codes: Seq<u32>, map: Map<u32, Vec<String>>, n: nat) -> nat
    decreases n,
{
    if n == 0 {
        1
    } else {
        combinations(codes, map, (n - 1) as nat) * group_size(map, codes[n - 1])
    }
}

/// Every mask of the tuple has a group in the map.
pub open spec fn has_groups(codes: Seq<u32>, map: Map<u32, Vec<String>>) -> bool {
    forall|d: int| 0 <= d < codes.len() ==> map.contains_key(#[trigger] codes[d])
}

/// The product of the group sizes can be formed in a `usize`, mask by mask.
pub open spec fn product_fits(codes: Seq<u32>, map: Map<u32, Vec<String>>) -> bool {
    forall|n: nat| n <= codes.len() ==> #[trigger] combinations(codes, map, n) <= usize::MAX
}

/// Every tuple of the list can be counted: each of its masks has a group,
/// and the product of its group sizes can be formed in a `usize`.
pub open spec fn can_count_all(solutions: Seq<Solution>, map: Map<u32, Vec<String>>) -> bool {
    forall|k: int|
        0 <= k < solutions.len() ==> has_groups((#[trigger] solutions[k]).codes@, map)
            && product_fits(solutions[k].codes@, map)
}

/// The word combinations of all the tuples of a list together.
pub open spec fn total_combinations(solutions: Seq<Solution>, map: Map<u32, Vec<String>>) -> nat
    decreases solutions.len(),
{
    if solutions.len() == 0 {
        0
    } else {
        total_combinations(solutions.drop_last(), map) + combinations(
            solutions.last().codes@,
            map,
            5,
        )
    }
}

/// The position in the alphabet of the earliest letter of a mask; 32 for the
/// empty mask.
pub open spec fn lowest_letter(code: u32) -> u32 {
    u32_trailing_zeros(code)
}

/// Mask `j` of the tuple is shown before mask `i`: its earliest letter comes
/// first, or they have the same earliest letter and `j` stands first in the
/// tuple.
pub open spec fn shown_before(codes: Seq<u32>, j: int, i: int) -> bool {
    lowest_letter(codes[j]) < lowest_letter(codes[i]) || (lowest_letter(codes[j]) == lowest_letter(
        codes[i],
    ) && j < i)
}

/// How many of the first `n` masks of the tuple are shown before mask `i`.
pub open spec fn shown_before_among(codes: Seq<u32>, i: int, n: nat) -> nat
    decreases n,
{
    if n == 0 {
        0
    } else {
        shown_before_among(codes, i, (n - 1) as nat) + if shown_before(codes, n - 1, i) {
            1nat
        } else {
            0nat
        }
    }
}

/// The line on which mask `i` of the tuple is shown: as many lines precede
/// it as there are masks shown before it.
pub open spec fn display_slot(codes: Seq<u32>, i: int) -> nat {
    shown_before_among(codes, i, codes.len())
}

/// The 26 characters that show a mask: the capital letter where the mask
/// holds the letter, a hyphen where it does not.
pub open spec fn grid_row(code: u32) -> Seq<char> {
    Seq::new(
        ALPHABET as nat,
        |i: int|
            if has_letter(code, i) {
                (i + 65) as char
            } else {
                '-'
            },
    )
}

/// The words, with ` / ` between each two of them.
pub open spec fn joined(words: Seq<Seq<char>>) -> Seq<char>
    decreases words.len(),
{
    if words.len() == 0 {
        Seq::empty()
    } else if words.len() == 1 {
        words[0]
    } else {
        joined(words.drop_last()) + seq![' ', '/', ' '] + words.last()
    }
}

/// The line that shows a mask: its grid row, two spaces, and its words.
pub open spec fn display_line(code: u32, map: Map<u32, Vec<String>>) -> Seq<char> {
    grid_row(code) + seq![' ', ' '] + joined(spellings(map[code]@))
}

/// std's `String::push`. The contract claims what its documentation states:
/// the character is appended to the end of the string, and nothing else of
/// the string changes.
pub assume_specification[ String::push ](s: &mut String, c: char)
    ensures
        final(s)@ == old(s)@.push(c),
;

impl Solution {
    /// The number of word combinations that the tuple stands for: the
    /// product of the sizes of its masks' groups, formed mask by mask from
    /// slot 0 on. Every mask must have a group, and every running product
    /// must fit in a `usize`.
    pub fn count(&self, decoding_map: &HashMap<u32, Vec<String>>) -> (n: usize)
        requires
            has_groups(self.codes@, decoding_map@),
            product_fits(self.codes@, decoding_map@),
        ensures
            n == combinations(self.codes@, decoding_map@, 5),
    {
        broadcast use vstd::std_specs::hash::group_hash_axioms;

        let mut n: usize = 1;
        let mut d: usize = 0;
        while d < 5
            invariant
                d <= 5,
                has_groups(self.codes@, decoding_map@),
                product_fits(self.codes@, decoding_map@),
                n == combinations(self.codes@, decoding_map@, d as nat),
            decreases 5 - d,
        {
            let code = self.codes[d];
            assert(decoding_map@.contains_key(self.codes@[d as int]));
            let group = decoding_map.get(&code).unwrap();
            assert(combinations(self.codes@, decoding_map@, (d + 1) as nat) <= usize::MAX);
            n = n * group.len();
            d = d + 1;
        }
        n
    }

    /// The number of word combinations that the tuple stands for, or `None`
    /// where a mask has no group or the product does not fit.
    pub fn checked_count(&self, decoding_map: &HashMap<u32, Vec<String>>) -> (n: Option<usize>)
        ensures
            n is Some <==> has_groups(self.codes@, decoding_map@) && product_fits(
                self.codes@,
                decoding_map@,
            ),
            n is Some ==> n->0 == combinations(self.codes@, decoding_map@, 5),
    {
        broadcast use vstd::std_specs::hash::group_hash_axioms;

        let mut n: usize = 1;
        let mut d: usize = 0;
        while d < 5
            invariant
                d <= 5,
                forall|e: int| 0 <= e < d ==> decoding_map@.contains_key(#[trigger] self.codes@[e]),
                forall|m: nat|
                    m <= d ==> #[trigger] combinations(self.codes@, decoding_map@, m)
                        <= usize::MAX,
                n == combinations(self.codes@, decoding_map@, d as nat),
            decreases 5 - d,
        {
            let code = self.codes[d];
            match decoding_map.get(&code) {
                None => {
                    assert(!decoding_map@.contains_key(self.codes@[d as int]));
                    return None;
                },
                Some(group) => {
                    match n.checked_mul(group.len()) {
                        None => {
                            assert(combinations(self.codes@, decoding_map@, (d + 1) as nat)
                                > usize::MAX);
                            return None;
                        },
                        Some(product) => {
                            n = product;
                        },
                    }
                },
            }
            d = d + 1;
        }
        Some(n)
    }

    /// The five lines that show the tuple, one for each mask, in ascending
    /// order of the masks' earliest letters: each line holds the mask's grid
    /// row, two spaces, and the words of its group joined by ` / `.
    pub fn display(&self, decoding_map: &HashMap<u32, Vec<String>>) -> (lines: Vec<String>)
        requires
            has_groups(self.codes@, decoding_map@),
        ensures
            lines@.len() == 5,
            forall|i: int|
                0 <= i < 5 ==> (#[trigger] lines@[display_slot(self.codes@, i) as int])@
                    == display_line(self.codes@[i], decoding_map@),
    {
        broadcast use vstd::std_specs::hash::group_hash_axioms;

        let mut ordered: [u32; 5] = [0, 0, 0, 0, 0];
        let mut i: usize = 0;
        while i < 5
            invariant
                i <= 5,
                forall|e: int|
                    0 <= e < i ==> ordered@[display_slot(self.codes@, e) as int]
                        == #[trigger] self.codes@[e],
            decreases 5 - i,
        {
            let key = self.codes[i].trailing_zeros();
            let mut slot: usize = 0;
            let mut j: usize = 0;
            while j < 5
                invariant
                    j <= 5,
                    i < 5,
                    key == lowest_letter(self.codes@[i as int]),
                    slot == shown_before_among(self.codes@, i as int, j as nat),
                    slot <= j,
                decreases 5 - j,
            {
                let other = self.codes[j].trailing_zeros();
                if other < key || (other == key && j < i) {
                    slot = slot + 1;
                }
                j = j + 1;
            }
            proof {
                lemma_slot_bound(self.codes@, i as int, 5);
                assert forall|e: int| 0 <= e < i implies #[trigger] display_slot(self.codes@, e)
                    != display_slot(self.codes@, i as int) && display_slot(self.codes@, e)
                    < 5 by {
                    lemma_display_order(self.codes@, e, i as int);
                    lemma_display_order(self.codes@, i as int, e);
                }
            }
            ordered[slot] = self.codes[i];
            i = i + 1;
        }
        let mut lines: Vec<String> = Vec::new();
        let mut k: usize = 0;
        assert forall|e: int| 0 <= e < 5 implies #[trigger] display_slot(self.codes@, e) < 5 by {
            lemma_display_order(self.codes@, e, e);
        }
        while k < 5
            invariant
                k <= 5,
                lines@.len() == k,
                has_groups(self.codes@, decoding_map@),
                forall|e: int| 0 <= e < 5 ==> #[trigger] display_slot(self.codes@, e) < 5,
                forall|e: int|
                    0 <= e < 5 ==> ordered@[display_slot(self.codes@, e) as int]
                        == #[trigger] self.codes@[e],
                forall|e: int|
                    0 <= e < 5 && display_slot(self.codes@, e) < k ==> (
                    #[trigger] lines@[display_slot(self.codes@, e) as int])@ == display_line(
                        self.codes@[e],
                        decoding_map@,
                    ),
            decreases 5 - k,
        {
            let code = ordered[k];
            proof {
                lemma_slots_cover(self.codes@, k as int);
                let e = choose|e: int| 0 <= e < 5 && display_slot(self.codes@, e) == k;
                assert(self.codes@[e] == code);
                reveal_strlit("  ");
                assert("  "@ =~= seq![' ', ' ']);
            }
            let group = decoding_map.get(&code).unwrap();
            let mut line = render_row(code);
            line.append("  ");
            let words = join_words(group);
            line.append(words.as_str());
            lines.push(line);
            k = k + 1;
        }
        lines
    }
}

/// The number of word combinations of all the tuples together.
pub fn total_count(solutions: &[Solution], decoding_map: &HashMap<u32, Vec<String>>) -> (total:
    usize)
    requires
        can_count_all(solutions@, decoding_map@),
        total_combinations(solutions@, decoding_map@) <= usize::MAX,
    ensures
        total == total_combinations(solutions@, decoding_map@),
{
    let mut total: usize = 0;
    let mut k: usize = 0;
    while k < solutions.len()
        invariant
            k <= solutions@.len(),
            can_count_all(solutions@, decoding_map@),
            total_combinations(solutions@, decoding_map@) <= usize::MAX,
            total == total_combinations(solutions@.take(k as int), decoding_map@),
        decreases solutions@.len() - k,
    {
        let n = solutions[k].count(decoding_map);
        proof {
            let longer = solutions@.take(k as int + 1);
            assert(longer.drop_last() =~= solutions@.take(k as int));
            assert(longer.last() == solutions@[k as int]);
            lemma_total_grows(solutions@, decoding_map@, k as int + 1);
        }
        total = total + n;
        k = k + 1;
    }
    assert(solutions@.take(solutions@.len() as int) =~= solutions@);
    total
}

/// The number of word combinations of all the tuples together, or `None`
/// where a mask has no group or a product or the sum does not fit.
pub fn checked_total_count(
    solutions: &[Solution],
    decoding_map: &HashMap<u32, Vec<String>>,
) -> (total: Option<usize>)
    ensures
        total is Some <==> can_count_all(solutions@, decoding_map@) && total_combinations(
            solutions@,
            decoding_map@,
        ) <= usize::MAX,
        total is Some ==> total->0 == total_combinations(solutions@, decoding_map@),
{
    let mut total: usize = 0;
    let mut k: usize = 0;
    while k < solutions.len()
        invariant
            k <= solutions@.len(),
            forall|j: int|
                0 <= j < k ==> has_groups((#[trigger] solutions@[j]).codes@, decoding_map@)
                    && product_fits(solutions@[j].codes@, decoding_map@),
            total == total_combinations(solutions@.take(k as int), decoding_map@),
        decreases solutions@.len() - k,
    {
        proof {
            let longer = solutions@.take(k as int + 1);
            assert(longer.drop_last() =~= solutions@.take(k as int));
            assert(longer.last() == solutions@[k as int]);
            lemma_total_grows(solutions@, decoding_map@, k as int + 1);
        }
        match solutions[k].checked_count(decoding_map) {
            None => {
                return None;
            },
            Some(n) => {
                match total.checked_add(n) {
                    None => {
                        return None;
                    },
                    Some(sum) => {
                        total = sum;
                    },
                }
            },
        }
        k = k + 1;
    }
    assert(solutions@.take(solutions@.len() as int) =~= solutions@);
    Some(total)
}

/// The row of 26 characters that shows a mask.
fn render_row(code: u32) -> (row: String)
    ensures
        row@ == grid_row(code),
{
    let mut row = String::new();
    let mut idx: u8 = 0;
    while idx < 26
        invariant
            idx <= 26,
            row@ == grid_row(code).take(idx as int),
        decreases 26 - idx,
    {
        let c: char = if code & (1u32 << idx) != 0 {
            (idx + 65) as char
        } else {
            '-'
        };
        row.push(c);
        proof {
            assert(has_letter(code, idx as int) == (code & (1u32 << idx) != 0));
            assert(grid_row(code).take(idx as int + 1) =~= grid_row(code).take(idx as int).push(c));
        }
        idx = idx + 1;
    }
    assert(grid_row(code).take(26) =~= grid_row(code));
    row
}

/// The words of a group with ` / ` between each two of them.
fn join_words(words: &Vec<String>) -> (line: String)
    ensures
        line@ == joined(spellings(words@)),
{
    let mut line = String::new();
    let mut k: usize = 0;
    while k < words.len()
        invariant
            k <= words@.len(),
            line@ == joined(spellings(words@.take(k as int))),
        decreases words@.len() - k,
    {
        proof {
            let before = spellings(words@.take(k as int));
            let after = spellings(words@.take(k as int + 1));
            assert(after.drop_last() =~= before);
            assert(after.last() == words@[k as int]@);
            reveal_strlit(" / ");
            assert(" / "@ =~= seq![' ', '/', ' ']);
            assert(Seq::<char>::empty() + words@[k as int]@ =~= words@[k as int]@);
        }
        if k > 0 {
            line.append(" / ");
        }
        line.append(words[k].as_str());
        k = k + 1;
    }
    assert(words@.take(words@.len() as int) =~= words@);
    line
}

/// Where no group is empty, the running products do not exceed the whole
/// product.
pub proof fn lemma_product_fits(codes: Seq<u32>, map: Map<u32, Vec<String>>)
    requires
        forall|d: int| 0 <= d < codes.len() ==> group_size(map, #[trigger] codes[d]) >= 1,
        combinations(codes, map, codes.len()) <= usize::MAX,
    ensures
        product_fits(codes, map),
{
    assert forall|n: nat| n <= codes.len() implies #[trigger] combinations(codes, map, n)
        <= usize::MAX by {
        lemma_product_grows(codes, map, n, codes.len());
    }
}

/// Of two masks of a tuple of five, the one shown before the other has the
/// earlier line: no two masks share a line, and the lines ascend by earliest
/// letter.
pub proof fn lemma_display_order(codes: Seq<u32>, i: int, j: int)
    requires
        codes.len() == 5,
        0 <= i < 5,
        0 <= j < 5,
    ensures
        display_slot(codes, i) < 5,
        shown_before(codes, i, j) <==> display_slot(codes, i) < display_slot(codes, j),
{
    reveal_with_fuel(shown_before_among, 6);
}

/// Where no group is empty, the product grows with every further mask.
proof fn lemma_product_grows(codes: Seq<u32>, map: Map<u32, Vec<String>>, n: nat, m: nat)
    requires
        n <= m <= codes.len(),
        forall|d: int| 0 <= d < codes.len() ==> group_size(map, #[trigger] codes[d]) >= 1,
    ensures
        combinations(codes, map, n) <= combinations(codes, map, m),
    decreases m - n,
{
    if n < m {
        lemma_product_grows(codes, map, n, (m - 1) as nat);
        let shorter = combinations(codes, map, (m - 1) as nat);
        let size = group_size(map, codes[m - 1]);
        assert(shorter <= shorter * size) by (nonlinear_arith)
            requires
                size >= 1,
                shorter >= 0,
        ;
    }
}

/// The total of the first tuples of a list does not exceed the total of all.
proof fn lemma_total_grows(solutions: Seq<Solution>, map: Map<u32, Vec<String>>, k: int)
    requires
        0 <= k <= solutions.len(),
    ensures
        total_combinations(solutions.take(k), map) <= total_combinations(solutions, map),
    decreases solutions.len() - k,
{
    if k < solutions.len() {
        lemma_total_grows(solutions, map, k + 1);
        let longer = solutions.take(k + 1);
        assert(longer.drop_last() =~= solutions.take(k));
    } else {
        assert(solutions.take(k) =~= solutions);
    }
}

/// Fewer masks are shown before a mask than there are masks.
proof fn lemma_slot_bound(codes: Seq<u32>, i: int, n: nat)
    ensures
        shown_before_among(codes, i, n) <= n,
        0 <= i < n ==> shown_before_among(codes, i, n) < n,
    decreases n,
{
    if n > 0 {
        lemma_slot_bound(codes, i, (n - 1) as nat);
    }
}

/// Every line of five shows one of the five masks.
proof fn lemma_slots_cover(codes: Seq<u32>, k: int)
    requires
        codes.len() == 5,
        0 <= k < 5,
    ensures
        exists|e: int| 0 <= e < 5 && display_slot(codes, e) == k,
{
    lemma_display_order(codes, 0, 1);
    lemma_display_order(codes, 0, 2);
    lemma_display_order(codes, 0, 3);
    lemma_display_order(codes, 0, 4);
    lemma_display_order(codes, 1, 2);
    lemma_display_order(codes, 1, 3);
    lemma_display_order(codes, 1, 4);
    lemma_display_order(codes, 2, 3);
    lemma_display_order(codes, 2, 4);
    lemma_display_order(codes, 3, 4);
    lemma_display_order(codes, 1, 0);
    lemma_display_order(codes, 2, 0);
    lemma_display_order(codes, 3, 0);
    lemma_display_order(codes, 4, 0);
    lemma_display_order(codes, 2, 1);
    lemma_display_order(codes, 3, 1);
    lemma_display_order(codes, 4, 1);
    lemma_display_order(codes, 3, 2);
    lemma_display_order(codes, 4, 2);
    lemma_display_order(codes, 4, 3);
    let s0 = display_slot(codes, 0);
    let s1 = display_slot(codes, 1);
    let s2 = display_slot(codes, 2);
    let s3 = display_slot(codes, 3);
    let s4 = display_slot(codes, 4);
    if s0 != k && s1 != k && s2 != k && s3 != k && s4 != k {
        assert(false);
    }
}


} // verus!

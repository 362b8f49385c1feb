//! The search for all selections of five pairwise disjoint masks.

use crate::mask::{
    disjoint, lemma_disjoint_or, lemma_pairwise_disjoint_iff_25_letters, pairwise_disjoint,
    popcount,
};
use crate::solution::{Codes, Solution};
use rayon::iter::{IntoParallelIterator, ParallelIterator};
use vstd::prelude::*;

verus! {

/// Masks in a tuple.
pub const PICKS: usize = 5;

/// `picks` are positions into `codes`, strictly increasing, whose masks are
/// pairwise disjoint.
pub open spec fn is_selection(codes: Seq<u32>, picks: Seq<int>) -> bool {
    &&& forall|k: int| 0 <= k < picks.len() ==> 0 <= #[trigger] picks[k] < codes.len()
    &&& forall|j: int, k: int|
        0 <= j < k < picks.len() ==> #[trigger] picks[j] < #[trigger] picks[k]
    &&& forall|j: int, k: int|
        0 <= j < k < picks.len() ==> disjoint(
            codes[#[trigger] picks[j]],
            codes[#[trigger] picks[k]],
        )
}

/// None of the picked masks shares a letter with `used`.
pub open spec fn avoids(codes: Seq<u32>, used: u32, picks: Seq<int>) -> bool {
    forall|k: int| 0 <= k < picks.len() ==> disjoint(used, codes[#[trigger] picks[k]])
}

/// A candidate: five positions, strictly increasing, whose masks are pairwise
/// disjoint.
pub open spec fn is_candidate(codes: Seq<u32>, picks: Seq<int>) -> bool {
    picks.len() == PICKS && is_selection(codes, picks)
}

/// Lexicographic order on position sequences.
pub open spec fn lex_less(a: Seq<int>, b: Seq<int>) -> bool
    decreases a.len(),
{
    a.len() > 0 && b.len() > 0 && (a[0] < b[0] || (a[0] == b[0] && lex_less(
        a.drop_first(),
        b.drop_first(),
    )))
}

/// `picks` continues a partial tuple whose letters are `used`: it is a
/// selection of `len` positions that avoids `used` and starts within
/// `lo..hi`.
pub open spec fn is_extension(
    codes: Seq<u32>,
    used: u32,
    lo: int,
    hi: int,
    len: nat,
    picks: Seq<int>,
) -> bool {
    &&& picks.len() == len
    &&& len > 0
    &&& lo <= picks[0] < hi
    &&& is_selection(codes, picks)
    &&& avoids(codes, used, picks)
}

/// `list` holds every extension once, in lexicographic order.
pub open spec fn lists_extensions(
    codes: Seq<u32>,
    used: u32,
    lo: int,
    hi: int,
    len: nat,
    list: Seq<Seq<int>>,
) -> bool {
    &&& forall|k: int|
        0 <= k < list.len() ==> is_extension(codes, used, lo, hi, len, #[trigger] list[k])
    &&& forall|j: int, k: int|
        0 <= j < k < list.len() ==> lex_less(#[trigger] list[j], #[trigger] list[k])
    &&& forall|picks: Seq<int>| #[trigger]
        is_extension(codes, used, lo, hi, len, picks) ==> list.contains(picks)
}

/// `list` holds every candidate whose first pick is `first`, each once, in
/// lexicographic order.
pub open spec fn lists_branch(codes: Seq<u32>, first: int, list: Seq<Seq<int>>) -> bool {
    &&& forall|k: int|
        0 <= k < list.len() ==> is_candidate(codes, #[trigger] list[k]) && list[k][0] == first
    &&& forall|j: int, k: int|
        0 <= j < k < list.len() ==> lex_less(#[trigger] list[j], #[trigger] list[k])
    &&& forall|picks: Seq<int>| #[trigger]
        is_candidate(codes, picks) && picks[0] == first ==> list.contains(picks)
}

/// `list` holds every candidate once, in lexicographic order.
pub open spec fn lists_candidates(codes: Seq<u32>, list: Seq<Seq<int>>) -> bool {
    &&& forall|k: int| 0 <= k < list.len() ==> is_candidate(codes, #[trigger] list[k])
    &&& forall|j: int, k: int|
        0 <= j < k < list.len() ==> lex_less(#[trigger] list[j], #[trigger] list[k])
    &&& forall|picks: Seq<int>| #[trigger] is_candidate(codes, picks) ==> list.contains(picks)
}

/// The partial tuple with its low slots filled from `picks`: the first pick
/// goes to slot `picks.len() - 1`, the last to slot 0.
pub open spec fn fill(partial: Seq<u32>, codes: Seq<u32>, picks: Seq<int>) -> Seq<u32> {
    Seq::new(
        PICKS as nat,
        |d: int|
            if d < picks.len() {
                codes[picks[picks.len() - 1 - d]]
            } else {
                partial[d]
            },
    )
}

/// The tuple that a candidate is reported as.
pub open spec fn tuple_of(codes: Seq<u32>, picks: Seq<int>) -> Seq<u32> {
    Seq::new(PICKS as nat, |d: int| codes[picks[PICKS - 1 - d]])
}

/// The mask tuples of a list of solutions.
pub open spec fn tuples(found: Seq<Solution>) -> Seq<Seq<u32>> {
    found.map_values(|s: Solution| s.codes@)
}

/// The tuples that a list of extensions is reported as.
pub open spec fn fills(partial: Seq<u32>, codes: Seq<u32>, list: Seq<Seq<int>>) -> Seq<Seq<u32>> {
    list.map_values(|picks: Seq<int>| fill(partial, codes, picks))
}

/// The tuples that a list of candidates is reported as, one for one.
pub open spec fn reported(codes: Seq<u32>, list: Seq<Seq<int>>) -> Seq<Seq<u32>> {
    list.map_values(|picks: Seq<int>| tuple_of(codes, picks))
}

/// The extensions of `depth + 1` picks that start at `first`, in
/// lexicographic order.
pub closed spec fn extensions_at(codes: Seq<u32>, used: u32, first: int, depth: nat) -> Seq<
    Seq<int>,
>
    decreases depth, 0nat,
{
    if !(0 <= first < codes.len()) || !disjoint(used, codes[first]) {
        Seq::empty()
    } else if depth == 0 {
        seq![seq![first]]
    } else {
        extensions_between(
            codes,
            used | codes[first],
            first + 1,
            codes.len() as int,
            (depth - 1) as nat,
        ).map_values(|rest: Seq<int>| seq![first] + rest)
    }
}

/// The extensions of `depth + 1` picks that start within `lo..hi`, in
/// lexicographic order.
pub closed spec fn extensions_between(
    codes: Seq<u32>,
    used: u32,
    lo: int,
    hi: int,
    depth: nat,
) -> Seq<Seq<int>>
    decreases depth, 1 + hi - lo,
{
    if hi <= lo {
        Seq::empty()
    } else {
        extensions_between(codes, used, lo, hi - 1, depth) + extensions_at(
            codes,
            used,
            hi - 1,
            depth,
        )
    }
}

/// The candidates of `codes` whose first pick is `first`, in lexicographic
/// order.
pub closed spec fn branch(codes: Seq<u32>, first: int) -> Seq<Seq<int>> {
    extensions_at(codes, 0, first, (PICKS - 1) as nat)
}

/// The candidates of `codes` whose first pick is below `hi`, in
/// lexicographic order.
pub closed spec fn selections_below(codes: Seq<u32>, hi: int) -> Seq<Seq<int>> {
    extensions_between(codes, 0, 0, hi, (PICKS - 1) as nat)
}

/// The candidates of `codes`, in lexicographic order.
pub closed spec fn selections(codes: Seq<u32>) -> Seq<Seq<int>> {
    selections_below(codes, codes.len() as int)
}

/// What the search of one outer branch returns: the tuples of the candidates
/// whose first pick is `first`, in lexicographic order of their picks.
pub open spec fn is_branch_result(codes: Seq<u32>, first: int, found: Seq<Solution>) -> bool {
    tuples(found) == reported(codes, branch(codes, first))
}

/// Tries `codes[idx]` as the next pick of a partial tuple and appends to
/// `found` every tuple that completes it.
///
/// `prev_code` holds the letters of the picks made so far, which stand in
/// the slots of `result` above `depth`; `depth` further picks remain after
/// this one. Slots of `result` up to `depth` are scratch space.
pub fn solve_inner(
    codes: &[u32],
    idx: usize,
    prev_code: u32,
    depth: usize,
    result: &mut Codes,
    found: &mut Vec<Solution>,
)
    requires
        idx < codes@.len(),
        depth < PICKS,
    ensures
        tuples(final(found)@) == tuples(old(found)@) + fills(
            old(result)@,
            codes@,
            extensions_at(codes@, prev_code, idx as int, depth as nat),
        ),
        lists_extensions(
            codes@,
            prev_code,
            idx as int,
            idx + 1,
            (depth + 1) as nat,
            extensions_at(codes@, prev_code, idx as int, depth as nat),
        ),
        forall|d: int| depth < d < PICKS ==> final(result)@[d] == old(result)@[d],
    decreases depth,
{
    proof {
        lemma_extensions_at(codes@, prev_code, idx as int, depth as nat);
    }
    let new_code = codes[idx];
    if prev_code & new_code != 0 {
        assert(tuples(found@) + Seq::<Seq<u32>>::empty() =~= tuples(found@));
        return ;
    }
    result[depth] = new_code;
    if depth == 0 {
        found.push(Solution { codes: *result });
        proof {
            let picks = seq![idx as int];
            assert(result@ =~= fill(old(result)@, codes@, picks));
            assert(tuples(found@) =~= tuples(old(found)@) + fills(
                old(result)@,
                codes@,
                seq![picks],
            ));
        }
        return ;
    }
    let new_prev_code = prev_code | new_code;
    let new_depth = depth - 1;
    let ghost initial = old(result)@;
    let ghost written = result@;
    let mut new_idx = idx + 1;
    while new_idx < codes.len()
        invariant
            idx < new_idx <= codes@.len(),
            new_depth + 1 == depth,
            depth < PICKS,
            written == initial.update(depth as int, codes@[idx as int]),
            initial.len() == PICKS,
            forall|d: int| depth <= d < PICKS ==> result@[d] == written[d],
            tuples(found@) == tuples(old(found)@) + fills(
                written,
                codes@,
                extensions_between(
                    codes@,
                    new_prev_code,
                    idx + 1,
                    new_idx as int,
                    new_depth as nat,
                ),
            ),
        decreases codes@.len() - new_idx,
    {
        let ghost before = result@;
        let ghost listed = extensions_between(
            codes@,
            new_prev_code,
            idx + 1,
            new_idx as int,
            new_depth as nat,
        );
        let ghost more = extensions_at(codes@, new_prev_code, new_idx as int, new_depth as nat);
        solve_inner(codes, new_idx, new_prev_code, new_depth, result, found);
        proof {
            lemma_lengths_at(codes@, new_prev_code, new_idx as int, new_depth as nat);
            lemma_fills_agree(before, written, codes@, more, depth as nat);
            assert(fills(written, codes@, listed + more) =~= fills(written, codes@, listed)
                + fills(written, codes@, more));
        }
        new_idx = new_idx + 1;
    }
    proof {
        let rest = extensions_between(
            codes@,
            new_prev_code,
            idx + 1,
            codes@.len() as int,
            new_depth as nat,
        );
        lemma_lengths_between(
            codes@,
            new_prev_code,
            idx + 1,
            codes@.len() as int,
            new_depth as nat,
        );
        lemma_fills_prepend(old(result)@, codes@, idx as int, rest, depth as nat);
        assert(initial == old(result)@);
        assert forall|d: int| depth < d < PICKS implies result@[d] == old(result)@[d] by {
            assert(result@[d] == written[d]);
            assert(written[d] == initial[d]);
        }
    }
}

/// Finds every candidate whose first pick is `idx`: the outer branch of
/// `idx`.
pub fn solve_branch(codes: &[u32], idx: usize) -> (found: Vec<Solution>)
    requires
        idx < codes@.len(),
    ensures
        is_branch_result(codes@, idx as int, found@),
        lists_branch(codes@, idx as int, branch(codes@, idx as int)),
{
    let mut result: Codes = [0, 0, 0, 0, 0];
    let mut found: Vec<Solution> = Vec::new();
    solve_inner(codes, idx, 0, PICKS - 1, &mut result, &mut found);
    proof {
        let list = branch(codes@, idx as int);
        lemma_branch(codes@, idx as int);
        lemma_lengths_at(codes@, 0, idx as int, (PICKS - 1) as nat);
        lemma_fills_reported(seq![0u32, 0u32, 0u32, 0u32, 0u32], codes@, list);
        assert(tuples(Seq::<Solution>::empty()) + reported(codes@, list) =~= reported(
            codes@,
            list,
        ));
    }
    found
}

/// Finds every candidate, one outer branch after the other on the calling
/// thread.
///
/// The solutions are the tuples of the candidates, one for each, in
/// lexicographic order of the candidates' positions.
pub fn solve_sequential(codes: &[u32]) -> (solutions: Vec<Solution>)
    ensures
        tuples(solutions@) == reported(codes@, selections(codes@)),
        lists_candidates(codes@, selections(codes@)),
        forall|k: int|
            0 <= k < solutions@.len() ==> pairwise_disjoint((#[trigger] solutions@[k]).codes@),
        forall|k: int, d: int|
            0 <= k < solutions@.len() && 0 <= d < PICKS ==> codes@.contains(
                #[trigger] solutions@[k].codes@[d],
            ),
        codes@.no_duplicates() ==> forall|j: int, k: int|
            0 <= j < k < solutions@.len() ==> (#[trigger] solutions@[j]).codes@.to_multiset() != (
            #[trigger] solutions@[k]).codes@.to_multiset(),
{
    let mut result: Codes = [0, 0, 0, 0, 0];
    let mut solutions: Vec<Solution> = Vec::new();
    let mut idx: usize = 0;
    proof {
        lemma_selections_step(codes@, 0);
        assert(tuples(solutions@) =~= reported(codes@, selections_below(codes@, 0)));
    }
    while idx < codes.len()
        invariant
            idx <= codes@.len(),
            tuples(solutions@) == reported(codes@, selections_below(codes@, idx as int)),
        decreases codes@.len() - idx,
    {
        let ghost partial = result@;
        solve_inner(codes, idx, 0, PICKS - 1, &mut result, &mut solutions);
        proof {
            lemma_lengths_at(codes@, 0, idx as int, (PICKS - 1) as nat);
            lemma_fills_reported(partial, codes@, branch(codes@, idx as int));
            lemma_selections_step(codes@, idx as int);
        }
        idx = idx + 1;
    }
    proof {
        lemma_solutions(codes@, solutions@);
    }
    solutions
}

/// Searches every outer branch of `codes` on rayon's thread pool.
///
/// The body hands the positions `0..codes.len()` to rayon's
/// `into_par_iter`, `map` and `collect`. The contract claims of them that
/// the closure runs once for each position and that `collect` returns the
/// closure's results in the order of the positions; the closure is one call
/// of [`solve_branch`], whose own contract then holds of each entry.
#[verifier::external_body]
fn solve_branches(codes: &[u32]) -> (branches: Vec<Vec<Solution>>)
    ensures
        branches@.len() == codes@.len(),
        forall|first: int|
            0 <= first < codes@.len() ==> is_branch_result(
                codes@,
                first,
                (#[trigger] branches@[first])@,
            ),
{
    (0..codes.len()).into_par_iter().map(|idx| solve_branch(codes, idx)).collect()
}

/// Finds every candidate, the outer branches searched in parallel and their
/// results joined in the order of the first pick.
///
/// The solutions are the tuples of the candidates, one for each, in
/// lexicographic order of the candidates' positions: the same list that
/// [`solve_sequential`] returns.
pub fn solve_outer(codes: &[u32]) -> (solutions: Vec<Solution>)
    ensures
        tuples(solutions@) == reported(codes@, selections(codes@)),
        lists_candidates(codes@, selections(codes@)),
        forall|k: int|
            0 <= k < solutions@.len() ==> pairwise_disjoint((#[trigger] solutions@[k]).codes@),
        forall|k: int, d: int|
            0 <= k < solutions@.len() && 0 <= d < PICKS ==> codes@.contains(
                #[trigger] solutions@[k].codes@[d],
            ),
        codes@.no_duplicates() ==> forall|j: int, k: int|
            0 <= j < k < solutions@.len() ==> (#[trigger] solutions@[j]).codes@.to_multiset() != (
            #[trigger] solutions@[k]).codes@.to_multiset(),
{
    let branches = solve_branches(codes);
    let mut solutions: Vec<Solution> = Vec::new();
    let mut first: usize = 0;
    proof {
        lemma_selections_step(codes@, 0);
        assert(tuples(solutions@) =~= reported(codes@, selections_below(codes@, 0)));
    }
    while first < branches.len()
        invariant
            first <= branches@.len(),
            branches@.len() == codes@.len(),
            forall|b: int|
                0 <= b < codes@.len() ==> is_branch_result(codes@, b, (#[trigger] branches@[b])@),
            tuples(solutions@) == reported(codes@, selections_below(codes@, first as int)),
        decreases branches@.len() - first,
    {
        let found = &branches[first];
        let ghost joined = solutions@;
        let mut k: usize = 0;
        while k < found.len()
            invariant
                k <= found@.len(),
                solutions@ == joined + found@.take(k as int),
            decreases found@.len() - k,
        {
            solutions.push(found[k]);
            proof {
                assert(found@.take(k as int + 1) =~= found@.take(k as int).push(found@[k as int]));
                assert(solutions@ =~= joined + found@.take(k as int + 1));
            }
            k = k + 1;
        }
        proof {
            assert(found@.take(found@.len() as int) =~= found@);
            assert(tuples(joined + found@) =~= tuples(joined) + tuples(found@));
            lemma_selections_step(codes@, first as int);
        }
        first = first + 1;
    }
    proof {
        lemma_solutions(codes@, solutions@);
    }
    solutions
}

/// The extensions listed from one first pick are all of them, each once, in
/// lexicographic order.
pub proof fn lemma_extensions_at(codes: Seq<u32>, used: u32, first: int, depth: nat)
    ensures
        lists_extensions(
            codes,
            used,
            first,
            first + 1,
            depth + 1,
            extensions_at(codes, used, first, depth),
        ),
    decreases depth, 0nat,
{
    let list = extensions_at(codes, used, first, depth);
    if !(0 <= first < codes.len()) || !disjoint(used, codes[first]) {
        assert forall|picks: Seq<int>| #[trigger]
            is_extension(codes, used, first, first + 1, depth + 1, picks) implies list.contains(
            picks,
        ) by {
            assert(picks[0] == first);
        }
    } else if depth == 0 {
        let only = seq![first];
        assert(list[0] == only);
        assert(is_extension(codes, used, first, first + 1, 1, only));
        assert forall|picks: Seq<int>| #[trigger]
            is_extension(codes, used, first, first + 1, 1, picks) implies list.contains(picks) by {
            assert(picks =~= only);
        }
    } else {
        let left = used | codes[first];
        let rests = extensions_between(
            codes,
            left,
            first + 1,
            codes.len() as int,
            (depth - 1) as nat,
        );
        lemma_extensions_between(codes, left, first + 1, codes.len() as int, (depth - 1) as nat);
        assert forall|k: int| 0 <= k < list.len() implies is_extension(
            codes,
            used,
            first,
            first + 1,
            depth + 1,
            #[trigger] list[k],
        ) by {
            assert(list[k] == seq![first] + rests[k]);
            lemma_prepend(codes, used, first, rests[k], depth);
        }
        assert forall|j: int, k: int| 0 <= j < k < list.len() implies lex_less(
            #[trigger] list[j],
            #[trigger] list[k],
        ) by {
            assert(list[j] == seq![first] + rests[j]);
            assert(list[k] == seq![first] + rests[k]);
            assert(list[j].drop_first() =~= rests[j]);
            assert(list[k].drop_first() =~= rests[k]);
            assert(lex_less(rests[j], rests[k]));
        }
        assert forall|picks: Seq<int>| #[trigger]
            is_extension(codes, used, first, first + 1, depth + 1, picks) implies list.contains(
            picks,
        ) by {
            lemma_tail(codes, used, first, first + 1, depth + 1, picks);
            let rest = picks.drop_first();
            assert(is_extension(codes, left, first + 1, codes.len() as int, depth, rest));
            assert(rests.contains(rest));
            let k = choose|k: int| 0 <= k < rests.len() && rests[k] == rest;
            assert(list[k] == picks);
        }
    }
}

/// The extensions listed from a range of first picks are all of them, each
/// once, in lexicographic order.
pub proof fn lemma_extensions_between(codes: Seq<u32>, used: u32, lo: int, hi: int, depth: nat)
    ensures
        lists_extensions(
            codes,
            used,
            lo,
            hi,
            depth + 1,
            extensions_between(codes, used, lo, hi, depth),
        ),
    decreases depth, 1 + hi - lo,
{
    let list = extensions_between(codes, used, lo, hi, depth);
    if lo < hi {
        let before = extensions_between(codes, used, lo, hi - 1, depth);
        let last = extensions_at(codes, used, hi - 1, depth);
        lemma_extensions_between(codes, used, lo, hi - 1, depth);
        lemma_extensions_at(codes, used, hi - 1, depth);
        assert forall|k: int| 0 <= k < list.len() implies is_extension(
            codes,
            used,
            lo,
            hi,
            depth + 1,
            #[trigger] list[k],
        ) by {
            if k < before.len() {
                assert(list[k] == before[k]);
                assert(is_extension(codes, used, lo, hi - 1, depth + 1, before[k]));
            } else {
                assert(list[k] == last[k - before.len()]);
                assert(is_extension(codes, used, hi - 1, hi, depth + 1, last[k - before.len()]));
            }
        }
        assert forall|j: int, k: int| 0 <= j < k < list.len() implies lex_less(
            #[trigger] list[j],
            #[trigger] list[k],
        ) by {
            if k < before.len() {
                assert(list[j] == before[j] && list[k] == before[k]);
            } else if j >= before.len() {
                assert(list[j] == last[j - before.len()] && list[k] == last[k - before.len()]);
            } else {
                assert(list[j] == before[j] && list[k] == last[k - before.len()]);
                assert(is_extension(codes, used, lo, hi - 1, depth + 1, before[j]));
                assert(is_extension(codes, used, hi - 1, hi, depth + 1, last[k - before.len()]));
            }
        }
        assert forall|picks: Seq<int>| #[trigger]
            is_extension(codes, used, lo, hi, depth + 1, picks) implies list.contains(picks) by {
            if picks[0] < hi - 1 {
                assert(is_extension(codes, used, lo, hi - 1, depth + 1, picks));
                assert(before.contains(picks));
                let k = choose|k: int| 0 <= k < before.len() && before[k] == picks;
                assert(list[k] == picks);
            } else {
                assert(is_extension(codes, used, hi - 1, hi, depth + 1, picks));
                assert(last.contains(picks));
                let k = choose|k: int| 0 <= k < last.len() && last[k] == picks;
                assert(list[before.len() + k] == picks);
            }
        }
    }
}

/// The branch of `first` holds every candidate whose first pick is `first`,
/// each once, in lexicographic order.
pub proof fn lemma_branch(codes: Seq<u32>, first: int)
    ensures
        lists_branch(codes, first, branch(codes, first)),
{
    let list = branch(codes, first);
    lemma_extensions_at(codes, 0, first, (PICKS - 1) as nat);
    assert forall|k: int| 0 <= k < list.len() implies is_candidate(codes, #[trigger] list[k])
        && list[k][0] == first by {
        lemma_candidate_is_extension(codes, first, first + 1, list[k]);
    }
    assert forall|picks: Seq<int>| #[trigger]
        is_candidate(codes, picks) && picks[0] == first implies list.contains(picks) by {
        lemma_candidate_is_extension(codes, first, first + 1, picks);
    }
}

/// `selections(codes)` holds every candidate of `codes`, each once, in
/// lexicographic order.
pub proof fn lemma_selections(codes: Seq<u32>)
    ensures
        lists_candidates(codes, selections(codes)),
{
    let list = selections(codes);
    let len = codes.len() as int;
    lemma_extensions_between(codes, 0, 0, len, (PICKS - 1) as nat);
    assert forall|k: int| 0 <= k < list.len() implies is_candidate(codes, #[trigger] list[k]) by {
        lemma_candidate_is_extension(codes, 0, len, list[k]);
    }
    assert forall|picks: Seq<int>| #[trigger] is_candidate(codes, picks) implies list.contains(
        picks,
    ) by {
        lemma_candidate_is_extension(codes, 0, len, picks);
        assert(0 <= picks[0] < len);
    }
}

/// Only one list holds every candidate once in lexicographic order: any
/// such list is `selections(codes)`, and the tuples reported from it are
/// those that every run of the search returns.
pub proof fn lemma_candidate_list_unique(codes: Seq<u32>, list: Seq<Seq<int>>)
    requires
        lists_candidates(codes, list),
    ensures
        list == selections(codes),
        reported(codes, list) == reported(codes, selections(codes)),
{
    let all = selections(codes);
    lemma_selections(codes);
    assert forall|x: Seq<int>| list.contains(x) <==> all.contains(x) by {
        if list.contains(x) {
            let k = choose|k: int| 0 <= k < list.len() && list[k] == x;
            assert(is_candidate(codes, x));
        }
        if all.contains(x) {
            let k = choose|k: int| 0 <= k < all.len() && all[k] == x;
            assert(is_candidate(codes, x));
        }
    }
    lemma_ascending_lists_equal(list, all);
}

/// The tuple of a candidate holds masks of `codes`, no two of which share a
/// letter.
pub proof fn lemma_candidate_tuple(codes: Seq<u32>, picks: Seq<int>)
    requires
        is_candidate(codes, picks),
    ensures
        tuple_of(codes, picks).len() == PICKS,
        pairwise_disjoint(tuple_of(codes, picks)),
        forall|d: int| 0 <= d < PICKS ==> codes.contains(#[trigger] tuple_of(codes, picks)[d]),
{
    let tuple = tuple_of(codes, picks);
    assert forall|j: int, k: int| 0 <= j < k < tuple.len() implies disjoint(
        #[trigger] tuple[j],
        #[trigger] tuple[k],
    ) by {
        let late = picks[PICKS - 1 - j];
        let early = picks[PICKS - 1 - k];
        assert(disjoint(codes[early], codes[late]));
        lemma_disjoint_basics(codes[early], codes[late]);
    }
    assert forall|d: int| 0 <= d < PICKS implies codes.contains(#[trigger] tuple[d]) by {
        let at = picks[PICKS - 1 - d];
        assert(0 <= at < codes.len());
        assert(codes[at] == tuple[d]);
    }
}

/// Five strictly increasing positions are reported exactly when no two of
/// their masks share a letter.
pub proof fn lemma_reported_iff_disjoint(codes: Seq<u32>, picks: Seq<int>)
    requires
        picks.len() == PICKS,
        forall|k: int| 0 <= k < picks.len() ==> 0 <= #[trigger] picks[k] < codes.len(),
        forall|j: int, k: int|
            0 <= j < k < picks.len() ==> #[trigger] picks[j] < #[trigger] picks[k],
    ensures
        selections(codes).contains(picks) <==> pairwise_disjoint(tuple_of(codes, picks)),
        reported(codes, selections(codes)).contains(tuple_of(codes, picks)) <==> pairwise_disjoint(
            tuple_of(codes, picks),
        ),
{
    let list = selections(codes);
    let tuple = tuple_of(codes, picks);
    lemma_selections(codes);
    if pairwise_disjoint(tuple) {
        assert forall|j: int, k: int| 0 <= j < k < picks.len() implies disjoint(
            codes[#[trigger] picks[j]],
            codes[#[trigger] picks[k]],
        ) by {
            assert(tuple[PICKS - 1 - k] == codes[picks[k]]);
            assert(tuple[PICKS - 1 - j] == codes[picks[j]]);
            assert(disjoint(tuple[PICKS - 1 - k], tuple[PICKS - 1 - j]));
            lemma_disjoint_basics(codes[picks[k]], codes[picks[j]]);
        }
        assert(is_candidate(codes, picks));
        assert(list.contains(picks));
        let k = choose|k: int| 0 <= k < list.len() && list[k] == picks;
        assert(reported(codes, list)[k] == tuple);
    }
    if list.contains(picks) {
        lemma_candidate_tuple(codes, picks);
    }
    if reported(codes, list).contains(tuple) {
        let k = choose|k: int| 0 <= k < reported(codes, list).len() && reported(codes, list)[k]
            == tuple;
        assert(is_candidate(codes, list[k]));
        lemma_candidate_tuple(codes, list[k]);
    }
}

/// Where every mask of `codes` has five letters, five strictly increasing
/// positions are reported exactly when their masks hold twenty-five letters
/// between them.
pub proof fn lemma_reported_iff_25_letters(codes: Seq<u32>, picks: Seq<int>)
    requires
        forall|i: int| 0 <= i < codes.len() ==> popcount(#[trigger] codes[i]) == 5,
        picks.len() == PICKS,
        forall|k: int| 0 <= k < picks.len() ==> 0 <= #[trigger] picks[k] < codes.len(),
        forall|j: int, k: int|
            0 <= j < k < picks.len() ==> #[trigger] picks[j] < #[trigger] picks[k],
    ensures
        reported(codes, selections(codes)).contains(tuple_of(codes, picks)) <==> popcount(
            tuple_of(codes, picks)[0] | tuple_of(codes, picks)[1] | tuple_of(codes, picks)[2]
                | tuple_of(codes, picks)[3] | tuple_of(codes, picks)[4],
        ) == 25,
{
    let tuple = tuple_of(codes, picks);
    lemma_reported_iff_disjoint(codes, picks);
    assert forall|d: int| 0 <= d < 5 implies popcount(#[trigger] tuple[d]) == 5 by {
        assert(tuple[d] == codes[picks[PICKS - 1 - d]]);
    }
    lemma_pairwise_disjoint_iff_25_letters(tuple);
}

/// Where no mask occurs twice in `codes`, two different candidates never
/// hold the same masks: no reported tuple is a permutation of another.
pub proof fn lemma_no_permuted_duplicates(codes: Seq<u32>, j: int, k: int)
    requires
        codes.no_duplicates(),
        0 <= j < k < selections(codes).len(),
    ensures
        reported(codes, selections(codes))[j].to_set() != reported(
            codes,
            selections(codes),
        )[k].to_set(),
        reported(codes, selections(codes))[j].to_multiset() != reported(
            codes,
            selections(codes),
        )[k].to_multiset(),
{
    let list = selections(codes);
    let a = list[j];
    let b = list[k];
    let ta = tuple_of(codes, a);
    let tb = tuple_of(codes, b);
    lemma_selections(codes);
    assert(reported(codes, list)[j] == ta);
    assert(reported(codes, list)[k] == tb);
    assert(is_candidate(codes, a) && is_candidate(codes, b));
    assert(lex_less(a, b));
    if ta.to_set() == tb.to_set() {
        // Each pick of `a` is a pick of `b`, and at the same place.
        assert forall|i: int| 0 <= i < PICKS implies a[i] == b[i] by {
            lemma_same_place(codes, a, b, ta, tb, 0);
            lemma_same_place(codes, a, b, ta, tb, 1);
            lemma_same_place(codes, a, b, ta, tb, 2);
            lemma_same_place(codes, a, b, ta, tb, 3);
            lemma_same_place(codes, a, b, ta, tb, 4);
        }
        assert(a =~= b);
        lemma_lex_irreflexive(a);
    }
    if ta.to_multiset() == tb.to_multiset() {
        assert forall|m: u32| ta.to_set().contains(m) == tb.to_set().contains(m) by {
            vstd::seq_lib::to_multiset_contains(ta, m);
            vstd::seq_lib::to_multiset_contains(tb, m);
        }
        assert(ta.to_set() =~= tb.to_set());
    }
}

/// Any two lists that hold exactly the candidates hold the same selections
/// and report the same tuples, whatever their order.
pub proof fn lemma_same_solution_set(codes: Seq<u32>, a: Seq<Seq<int>>, b: Seq<Seq<int>>)
    requires
        forall|k: int| 0 <= k < a.len() ==> is_candidate(codes, #[trigger] a[k]),
        forall|k: int| 0 <= k < b.len() ==> is_candidate(codes, #[trigger] b[k]),
        forall|picks: Seq<int>| #[trigger] is_candidate(codes, picks) ==> a.contains(picks),
        forall|picks: Seq<int>| #[trigger] is_candidate(codes, picks) ==> b.contains(picks),
    ensures
        a.to_set() == b.to_set(),
        reported(codes, a).to_set() == reported(codes, b).to_set(),
{
    assert(a.to_set() =~= b.to_set());
    let tuple = |picks: Seq<int>| tuple_of(codes, picks);
    a.lemma_to_set_map_commutes(tuple);
    b.lemma_to_set_map_commutes(tuple);
}

/// Solutions that report the candidates hold masks of `codes`, pairwise
/// disjoint within each tuple; and where no mask occurs twice in `codes`, no
/// two of them hold the same masks.
proof fn lemma_solutions(codes: Seq<u32>, solutions: Seq<Solution>)
    requires
        tuples(solutions) == reported(codes, selections(codes)),
    ensures
        lists_candidates(codes, selections(codes)),
        forall|k: int|
            0 <= k < solutions.len() ==> pairwise_disjoint((#[trigger] solutions[k]).codes@),
        forall|k: int, d: int|
            0 <= k < solutions.len() && 0 <= d < PICKS ==> codes.contains(
                #[trigger] solutions[k].codes@[d],
            ),
        codes.no_duplicates() ==> forall|j: int, k: int|
            0 <= j < k < solutions.len() ==> (#[trigger] solutions[j]).codes@.to_multiset() != (
            #[trigger] solutions[k]).codes@.to_multiset(),
{
    let list = selections(codes);
    lemma_selections(codes);
    if codes.no_duplicates() {
        assert forall|j: int, k: int| 0 <= j < k < solutions.len() implies (
        #[trigger] solutions[j]).codes@.to_multiset() != (
        #[trigger] solutions[k]).codes@.to_multiset() by {
            assert(tuples(solutions).len() == solutions.len());
            assert(reported(codes, list).len() == list.len());
            assert(tuples(solutions)[j] == solutions[j].codes@);
            assert(tuples(solutions)[k] == solutions[k].codes@);
            lemma_no_permuted_duplicates(codes, j, k);
        }
    }
    assert(solutions.len() == list.len()) by {
        assert(tuples(solutions).len() == solutions.len());
        assert(reported(codes, list).len() == list.len());
    }
    assert forall|k: int| 0 <= k < solutions.len() implies pairwise_disjoint(
        (#[trigger] solutions[k]).codes@,
    ) && (forall|d: int| 0 <= d < PICKS ==> codes.contains(#[trigger] solutions[k].codes@[d])) by {
        assert(tuples(solutions)[k] == solutions[k].codes@);
        assert(reported(codes, list)[k] == tuple_of(codes, list[k]));
        lemma_candidate_tuple(codes, list[k]);
    }
}

/// A first pick put before an extension of what it leaves is an extension.
proof fn lemma_prepend(codes: Seq<u32>, used: u32, first: int, rest: Seq<int>, len: nat)
    requires
        0 <= first < codes.len(),
        disjoint(used, codes[first]),
        is_extension(codes, used | codes[first], first + 1, codes.len() as int, len, rest),
    ensures
        is_extension(codes, used, first, first + 1, len + 1, seq![first] + rest),
{
    let picks = seq![first] + rest;
    assert forall|k: int| 0 <= k < rest.len() implies first < #[trigger] rest[k] by {
        if k > 0 {
            assert(rest[0] < rest[k]);
        }
    }
    assert forall|k: int| 0 <= k < picks.len() implies 0 <= #[trigger] picks[k] < codes.len() by {
        if k > 0 {
            assert(picks[k] == rest[k - 1]);
        }
    }
    assert forall|j: int, k: int| 0 <= j < k < picks.len() implies #[trigger] picks[j]
        < #[trigger] picks[k] && disjoint(codes[picks[j]], codes[picks[k]]) by {
        assert(picks[k] == rest[k - 1]);
        lemma_disjoint_or(used, codes[first], codes[rest[k - 1]]);
        if j > 0 {
            assert(picks[j] == rest[j - 1]);
        }
    }
    assert forall|k: int| 0 <= k < picks.len() implies disjoint(
        used,
        codes[#[trigger] picks[k]],
    ) by {
        if k > 0 {
            assert(picks[k] == rest[k - 1]);
            lemma_disjoint_or(used, codes[first], codes[rest[k - 1]]);
        }
    }
}

/// What follows the first pick of an extension is an extension of what the
/// first pick leaves.
proof fn lemma_tail(codes: Seq<u32>, used: u32, lo: int, hi: int, len: nat, picks: Seq<int>)
    requires
        len >= 2,
        is_extension(codes, used, lo, hi, len, picks),
    ensures
        is_extension(
            codes,
            used | codes[picks[0]],
            picks[0] + 1,
            codes.len() as int,
            (len - 1) as nat,
            picks.drop_first(),
        ),
        picks == seq![picks[0]] + picks.drop_first(),
        0 <= picks[0] < codes.len(),
        disjoint(used, codes[picks[0]]),
{
    let rest = picks.drop_first();
    assert(picks =~= seq![picks[0]] + rest);
    assert(picks[0] < picks[1]);
    assert forall|k: int| 0 <= k < rest.len() implies 0 <= #[trigger] rest[k] < codes.len() by {
        assert(rest[k] == picks[k + 1]);
    }
    assert forall|j: int, k: int| 0 <= j < k < rest.len() implies #[trigger] rest[j]
        < #[trigger] rest[k] && disjoint(codes[rest[j]], codes[rest[k]]) by {
        assert(rest[j] == picks[j + 1]);
        assert(rest[k] == picks[k + 1]);
    }
    assert forall|k: int| 0 <= k < rest.len() implies disjoint(
        used | codes[picks[0]],
        codes[#[trigger] rest[k]],
    ) by {
        assert(rest[k] == picks[k + 1]);
        assert(picks[0] < picks[k + 1]);
        lemma_disjoint_or(used, codes[picks[0]], codes[picks[k + 1]]);
    }
}

/// The candidates are the extensions of the empty tuple by five picks.
proof fn lemma_candidate_is_extension(codes: Seq<u32>, lo: int, hi: int, picks: Seq<int>)
    ensures
        is_extension(codes, 0, lo, hi, PICKS as nat, picks) <==> is_candidate(codes, picks) && lo
            <= picks[0] < hi,
{
    assert forall|k: int| 0 <= k < picks.len() implies disjoint(0, codes[#[trigger] picks[k]]) by {
        lemma_disjoint_basics(codes[picks[k]], 0);
    }
}

/// Every mask is disjoint from the empty mask, whichever side it stands on.
proof fn lemma_disjoint_basics(a: u32, b: u32)
    ensures
        disjoint(0, a),
        disjoint(a, b) == disjoint(b, a),
{
    assert(0u32 & a == 0) by (bit_vector);
    assert((a & b == 0) == (b & a == 0)) by (bit_vector);
}

/// No sequence comes before itself.
proof fn lemma_lex_irreflexive(a: Seq<int>)
    ensures
        !lex_less(a, a),
    decreases a.len(),
{
    if a.len() > 0 {
        lemma_lex_irreflexive(a.drop_first());
    }
}

/// Lexicographic order is transitive.
proof fn lemma_lex_transitive(a: Seq<int>, b: Seq<int>, c: Seq<int>)
    requires
        lex_less(a, b),
        lex_less(b, c),
    ensures
        lex_less(a, c),
    decreases a.len(),
{
    if a[0] == b[0] && b[0] == c[0] {
        lemma_lex_transitive(a.drop_first(), b.drop_first(), c.drop_first());
    }
}

/// Two lists in strictly ascending lexicographic order that hold the same
/// sequences are the same list.
proof fn lemma_ascending_lists_equal(a: Seq<Seq<int>>, b: Seq<Seq<int>>)
    requires
        forall|j: int, k: int| 0 <= j < k < a.len() ==> lex_less(#[trigger] a[j], #[trigger] a[k]),
        forall|j: int, k: int| 0 <= j < k < b.len() ==> lex_less(#[trigger] b[j], #[trigger] b[k]),
        forall|x: Seq<int>| a.contains(x) <==> b.contains(x),
    ensures
        a == b,
    decreases a.len(),
{
    if a.len() == 0 {
        if b.len() > 0 {
            assert(b.contains(b[0]));
        }
        assert(a =~= b);
    } else {
        assert(a.contains(a[0]));
        let j = choose|j: int| 0 <= j < b.len() && b[j] == a[0];
        assert(b.contains(b[0]));
        let i = choose|i: int| 0 <= i < a.len() && a[i] == b[0];
        lemma_lex_irreflexive(a[0]);
        if j > 0 {
            assert(lex_less(b[0], b[j]));
            if i > 0 {
                assert(lex_less(a[0], a[i]));
                lemma_lex_transitive(a[0], b[0], a[0]);
            }
        }
        assert(a[0] == b[0]);
        let a_rest = a.drop_first();
        let b_rest = b.drop_first();
        assert forall|x: Seq<int>| a_rest.contains(x) <==> b_rest.contains(x) by {
            lemma_lex_irreflexive(x);
            if a_rest.contains(x) {
                let k = choose|k: int| 0 <= k < a_rest.len() && a_rest[k] == x;
                assert(a[k + 1] == x);
                assert(lex_less(a[0], a[k + 1]));
                assert(a.contains(x));
                let m = choose|m: int| 0 <= m < b.len() && b[m] == x;
                assert(m > 0);
                assert(b_rest[m - 1] == x);
            }
            if b_rest.contains(x) {
                let k = choose|k: int| 0 <= k < b_rest.len() && b_rest[k] == x;
                assert(b[k + 1] == x);
                assert(lex_less(b[0], b[k + 1]));
                assert(b.contains(x));
                let m = choose|m: int| 0 <= m < a.len() && a[m] == x;
                assert(m > 0);
                assert(a_rest[m - 1] == x);
            }
        }
        assert forall|j: int, k: int| 0 <= j < k < a_rest.len() implies lex_less(
            #[trigger] a_rest[j],
            #[trigger] a_rest[k],
        ) by {
            assert(lex_less(a[j + 1], a[k + 1]));
        }
        assert forall|j: int, k: int| 0 <= j < k < b_rest.len() implies lex_less(
            #[trigger] b_rest[j],
            #[trigger] b_rest[k],
        ) by {
            assert(lex_less(b[j + 1], b[k + 1]));
        }
        lemma_ascending_lists_equal(a_rest, b_rest);
        assert(a =~= seq![a[0]] + a_rest);
        assert(b =~= seq![b[0]] + b_rest);
    }
}

/// A pick of one candidate whose mask occurs in the tuple of another is a
/// pick of that other.
proof fn lemma_same_place(
    codes: Seq<u32>,
    a: Seq<int>,
    b: Seq<int>,
    ta: Seq<u32>,
    tb: Seq<u32>,
    i: int,
)
    requires
        codes.no_duplicates(),
        is_candidate(codes, a),
        is_candidate(codes, b),
        ta == tuple_of(codes, a),
        tb == tuple_of(codes, b),
        ta.to_set() == tb.to_set(),
        0 <= i < PICKS,
    ensures
        exists|at: int| 0 <= at < PICKS && b[at] == a[i],
        exists|at: int| 0 <= at < PICKS && a[at] == b[i],
{
    assert(ta[PICKS - 1 - i] == codes[a[i]]);
    assert(ta.to_set().contains(codes[a[i]]));
    assert(tb.contains(codes[a[i]]));
    let d = choose|d: int| 0 <= d < tb.len() && tb[d] == codes[a[i]];
    assert(codes[b[PICKS - 1 - d]] == codes[a[i]]);
    assert(b[PICKS - 1 - d] == a[i]);
    assert(tb[PICKS - 1 - i] == codes[b[i]]);
    assert(tb.to_set().contains(codes[b[i]]));
    assert(ta.contains(codes[b[i]]));
    let e = choose|e: int| 0 <= e < ta.len() && ta[e] == codes[b[i]];
    assert(codes[a[PICKS - 1 - e]] == codes[b[i]]);
    assert(a[PICKS - 1 - e] == b[i]);
}

/// Every extension listed from one first pick has `depth + 1` picks.
proof fn lemma_lengths_at(codes: Seq<u32>, used: u32, first: int, depth: nat)
    ensures
        forall|k: int|
            0 <= k < extensions_at(codes, used, first, depth).len() ==> (#[trigger] extensions_at(
                codes,
                used,
                first,
                depth,
            )[k]).len() == depth + 1,
    decreases depth, 0nat,
{
    let list = extensions_at(codes, used, first, depth);
    if 0 <= first < codes.len() && disjoint(used, codes[first]) && depth > 0 {
        let rests = extensions_between(
            codes,
            used | codes[first],
            first + 1,
            codes.len() as int,
            (depth - 1) as nat,
        );
        lemma_lengths_between(
            codes,
            used | codes[first],
            first + 1,
            codes.len() as int,
            (depth - 1) as nat,
        );
        assert forall|k: int| 0 <= k < list.len() implies (#[trigger] list[k]).len() == depth
            + 1 by {
            assert(list[k] == seq![first] + rests[k]);
        }
    }
}

/// Every extension listed from a range of first picks has `depth + 1` picks.
proof fn lemma_lengths_between(codes: Seq<u32>, used: u32, lo: int, hi: int, depth: nat)
    ensures
        forall|k: int|
            0 <= k < extensions_between(codes, used, lo, hi, depth).len() ==> (
            #[trigger] extensions_between(codes, used, lo, hi, depth)[k]).len() == depth + 1,
    decreases depth, 1 + hi - lo,
{
    if lo < hi {
        let list = extensions_between(codes, used, lo, hi, depth);
        let before = extensions_between(codes, used, lo, hi - 1, depth);
        let last = extensions_at(codes, used, hi - 1, depth);
        lemma_lengths_between(codes, used, lo, hi - 1, depth);
        lemma_lengths_at(codes, used, hi - 1, depth);
        assert forall|k: int| 0 <= k < list.len() implies (#[trigger] list[k]).len() == depth
            + 1 by {
            if k < before.len() {
                assert(list[k] == before[k]);
            } else {
                assert(list[k] == last[k - before.len()]);
            }
        }
    }
}

/// Only the slots that the picks leave free are read from the partial tuple.
proof fn lemma_fills_agree(a: Seq<u32>, b: Seq<u32>, codes: Seq<u32>, list: Seq<Seq<int>>, len: nat)
    requires
        forall|k: int| 0 <= k < list.len() ==> (#[trigger] list[k]).len() == len,
        forall|d: int| len <= d < PICKS ==> a[d] == b[d],
    ensures
        fills(a, codes, list) == fills(b, codes, list),
{
    assert forall|k: int| 0 <= k < list.len() implies fill(a, codes, list[k]) == fill(
        b,
        codes,
        list[k],
    ) by {
        assert(fill(a, codes, list[k]) =~= fill(b, codes, list[k]));
    }
    assert(fills(a, codes, list) =~= fills(b, codes, list));
}

/// Writing a pick into its slot and then filling in the rest is the same as
/// filling in the pick together with the rest.
proof fn lemma_fills_prepend(
    partial: Seq<u32>,
    codes: Seq<u32>,
    first: int,
    list: Seq<Seq<int>>,
    len: nat,
)
    requires
        partial.len() == PICKS,
        len < PICKS,
        forall|k: int| 0 <= k < list.len() ==> (#[trigger] list[k]).len() == len,
    ensures
        fills(partial.update(len as int, codes[first]), codes, list) == fills(
            partial,
            codes,
            list.map_values(|rest: Seq<int>| seq![first] + rest),
        ),
{
    let written = partial.update(len as int, codes[first]);
    let longer = list.map_values(|rest: Seq<int>| seq![first] + rest);
    assert forall|k: int| 0 <= k < list.len() implies fill(written, codes, list[k]) == fill(
        partial,
        codes,
        longer[k],
    ) by {
        assert(fill(written, codes, list[k]) =~= fill(partial, codes, longer[k]));
    }
    assert(fills(written, codes, list) =~= fills(partial, codes, longer));
}

/// A full selection leaves no slot of the partial tuple to read.
proof fn lemma_fills_reported(partial: Seq<u32>, codes: Seq<u32>, list: Seq<Seq<int>>)
    requires
        forall|k: int| 0 <= k < list.len() ==> (#[trigger] list[k]).len() == PICKS,
    ensures
        fills(partial, codes, list) == reported(codes, list),
{
    assert forall|k: int| 0 <= k < list.len() implies fill(partial, codes, list[k]) == tuple_of(
        codes,
        list[k],
    ) by {
        assert(fill(partial, codes, list[k]) =~= tuple_of(codes, list[k]));
    }
    assert(fills(partial, codes, list) =~= reported(codes, list));
}

/// The candidates below `hi + 1` are those below `hi` followed by the branch
/// of `hi`.
proof fn lemma_selections_step(codes: Seq<u32>, hi: int)
    requires
        0 <= hi,
    ensures
        selections_below(codes, 0) == Seq::<Seq<int>>::empty(),
        selections_below(codes, hi + 1) == selections_below(codes, hi) + branch(codes, hi),
        reported(codes, selections_below(codes, hi + 1)) == reported(
            codes,
            selections_below(codes, hi),
        ) + reported(codes, branch(codes, hi)),
{
    assert(reported(codes, selections_below(codes, hi) + branch(codes, hi)) =~= reported(
        codes,
        selections_below(codes, hi),
    ) + reported(codes, branch(codes, hi)));
}

} // verus!

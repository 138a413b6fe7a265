use core::cmp::Ordering;
use vstd::prelude::*;

use crate::merge::{merge, runs_sorted};
use crate::order::{callable, follows, is_sorted, keeps_ties, ties_of};
use crate::runs::{
    detect_runs, falling_runs_untied, get_merge_sort_runs, is_run_split, lemma_runs_sorted_after,
    lemma_sorted_single_run, lemma_tiles_disjoint, orient_pair_runs, pair_run_oriented,
    unify_order_of_runs,
};

verus! {

/// Sorts `vec` in place: finds the maximal monotone runs, turns the falling
/// ones around, and merges the runs. Whatever `cmp` answers, the result holds
/// the same items. Where `cmp` answers as a total preorder `ord` does, the
/// result is the order in which no item is asked to come after a later one; a
/// sequence already in that order is left as it is; tied items keep their
/// order unless a falling run holds two of them, for such a run is turned
/// around whole.
pub fn sort<T, F: Fn(&T, &T) -> Ordering>(vec: &mut Vec<T>, cmp: F)
    requires
        callable(cmp),
    ensures
        final(vec).len() == old(vec).len(),
        final(vec)@.to_multiset() == old(vec)@.to_multiset(),
        forall|ord: spec_fn(T, T) -> Ordering|
            #[trigger] follows(cmp, ord) ==> {
                &&& is_sorted(ord, final(vec)@)
                &&& is_sorted(ord, old(vec)@) ==> final(vec)@ == old(vec)@
                &&& falling_runs_untied(ord, old(vec)@) ==> keeps_ties(ord, old(vec)@, final(vec)@)
            },
{
    let ghost s0 = vec@;
    let (runs, descending) = detect_runs(vec, &cmp);
    proof {
        lemma_tiles_disjoint(runs@, s0.len() as int);
    }
    unify_order_of_runs(&runs, &descending, vec);
    let ghost s1 = vec@;
    proof {
        assert forall|ord: spec_fn(T, T) -> Ordering| #[trigger] follows(cmp, ord) implies runs_sorted(
            ord,
            s1,
            runs@,
            0,
            runs.len() as int,
        ) by {
            reveal(runs_sorted);
            lemma_runs_sorted_after(ord, s0, s1, runs@, descending@);
        }
    }
    let ghost r = runs@;
    merge(runs, vec, &cmp);
    proof {
        assert forall|ord: spec_fn(T, T) -> Ordering| #[trigger] follows(cmp, ord) implies {
            &&& is_sorted(ord, vec@)
            &&& is_sorted(ord, s0) ==> vec@ == s0
            &&& falling_runs_untied(ord, s0) ==> keeps_ties(ord, s0, vec@)
        } by {
            assert(is_run_split(ord, s0, r));
            if is_sorted(ord, s0) {
                lemma_sorted_single_run(ord, s0, r);
                assert forall|i: int| 0 <= i < s1.len() implies #[trigger] s1[i] == s0[i] by {
                    if r.len() == 1 {
                        assert(r[0].0 <= i < r[0].1);
                        assert(!descending@[0]);
                    }
                }
                assert(s1 =~= s0);
            }
            if falling_runs_untied(ord, s0) {
                assert(keeps_ties(ord, s0, s1));
                assert forall|e: T| #[trigger] ties_of(ord, vec@, e) == ties_of(ord, s0, e) by {
                    assert(ties_of(ord, vec@, e) == ties_of(ord, s1, e));
                }
            }
        }
    }
}

/// Sorts `vec` in place like `sort`, but starts from runs of two items each
/// instead of the monotone runs already present. Where `cmp` answers as a
/// total preorder does, tied items always keep their order.
pub fn merge_sort<T, F: Fn(&T, &T) -> Ordering>(vec: &mut Vec<T>, cmp: F)
    requires
        callable(cmp),
    ensures
        final(vec).len() == old(vec).len(),
        final(vec)@.to_multiset() == old(vec)@.to_multiset(),
        forall|ord: spec_fn(T, T) -> Ordering|
            #[trigger] follows(cmp, ord) ==> is_sorted(ord, final(vec)@) && keeps_ties(
                ord,
                old(vec)@,
                final(vec)@,
            ),
{
    let ghost s0 = vec@;
    let runs = get_merge_sort_runs(vec, &cmp);
    let descending = orient_pair_runs(&runs, vec, &cmp);
    proof {
        lemma_tiles_disjoint(runs@, s0.len() as int);
    }
    unify_order_of_runs(&runs, &descending, vec);
    let ghost s1 = vec@;
    proof {
        assert forall|ord: spec_fn(T, T) -> Ordering| #[trigger] follows(cmp, ord) implies runs_sorted(
            ord,
            s1,
            runs@,
            0,
            runs.len() as int,
        ) && keeps_ties(ord, s0, s1) by {
            reveal(runs_sorted);
            assert forall|k: int| 0 <= k < runs.len() implies pair_run_oriented(ord, s0, #[trigger] runs@[k], descending@[k]) by {}
            lemma_runs_sorted_after(ord, s0, s1, runs@, descending@);
        }
    }
    merge(runs, vec, &cmp);
    proof {
        assert forall|ord: spec_fn(T, T) -> Ordering| #[trigger] follows(cmp, ord) implies keeps_ties(ord, s0, vec@) by {
            assert(keeps_ties(ord, s0, s1));
            assert forall|e: T| #[trigger] ties_of(ord, vec@, e) == ties_of(ord, s0, e) by {
                assert(ties_of(ord, vec@, e) == ties_of(ord, s1, e));
            }
        }
    }
}

} // verus!

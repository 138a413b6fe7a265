use core::cmp::Ordering;
use vstd::prelude::*;

use crate::order::{
    callable, flip, follows, is_sorted, keeps_ties, leads, lemma_chain_sorted, lemma_reverse_untied,
    lemma_ties_local, order_laws, sorted_between, ties_of, untied_between,
};

verus! {

/// The answer of the comparator for the neighbours at `k` and `k + 1`.
pub open spec fn step<T>(ord: spec_fn(T, T) -> Ordering, s: Seq<T>, k: int) -> Ordering {
    ord(s[k], s[k + 1])
}

/// The first answer other than `Equal` among the neighbours of `s[lo..hi]`,
/// or `Equal` when there is none.
pub open spec fn direction<T>(ord: spec_fn(T, T) -> Ordering,
    s: Seq<T>,
    lo: int,
    hi: int,
) -> Ordering
    decreases hi - lo,
{
    if hi - lo < 2 {
        Ordering::Equal
    } else if step(ord, s, lo) != Ordering::Equal {
        step(ord, s, lo)
    } else {
        direction(ord, s, lo + 1, hi)
    }
}

/// Every pair of neighbours in `s[lo..hi]` answers `Equal` or the direction.
pub open spec fn monotone<T>(ord: spec_fn(T, T) -> Ordering,
    s: Seq<T>,
    lo: int,
    hi: int,
) -> bool {
    forall|k: int|
        lo <= k < hi - 1 ==> #[trigger] step(ord, s, k) == Ordering::Equal || step(ord, s, k)
            == direction(ord, s, lo, hi)
}

/// The ranges in `runs` are non-empty, contiguous, in order, and cover `[lo, hi)`.
///
/// Run lists are `Vec`s: the merge passes read them by position, two at a
/// time, and build the next list by pushing at the back, which is all that a
/// queue was used for.
pub open spec fn tiles(runs: Seq<(usize, usize)>, lo: int, hi: int) -> bool {
    &&& runs.len() == 0 ==> lo == hi
    &&& runs.len() > 0 ==> runs[0].0 == lo && runs.last().1 == hi
    &&& forall|k: int|
        0 <= k < runs.len() ==> lo <= (#[trigger] runs[k]).0 < runs[k].1 <= hi
    &&& forall|k: int| 0 <= k < runs.len() - 1 ==> (#[trigger] runs[k]).1 == runs[k + 1].0
}

/// The run `r` is monotone, and unless it ends the sequence it has a direction
/// that the next pair of neighbours contradicts.
pub open spec fn maximal_run<T>(ord: spec_fn(T, T) -> Ordering,
    s: Seq<T>,
    r: (usize, usize),
) -> bool {
    &&& monotone(ord, s, r.0 as int, r.1 as int)
    &&& r.1 < s.len() ==> {
        let d = direction(ord, s, r.0 as int, r.1 as int);
        d != Ordering::Equal && step(ord, s, r.1 - 1) == flip(d)
    }
}

/// `runs` is the split of `s` into maximal monotone runs, from left to right.
pub open spec fn is_run_split<T>(ord: spec_fn(T, T) -> Ordering,
    s: Seq<T>,
    runs: Seq<(usize, usize)>,
) -> bool {
    &&& tiles(runs, 0, s.len() as int)
    &&& forall|k: int| 0 <= k < runs.len() ==> maximal_run(ord, s, #[trigger] runs[k])
}

proof fn lemma_direction_extend<T>(ord: spec_fn(T, T) -> Ordering,
    s: Seq<T>,
    lo: int,
    hi: int,
)
    requires
        lo < hi,
    ensures
        direction(ord, s, lo, hi + 1) == if direction(ord, s, lo, hi) != Ordering::Equal {
            direction(ord, s, lo, hi)
        } else {
            step(ord, s, hi - 1)
        },
    decreases hi - lo,
{
    if hi - lo >= 2 {
        if step(ord, s, lo) == Ordering::Equal {
            lemma_direction_extend(ord, s, lo + 1, hi);
        }
    } else {
        assert(direction(ord, s, lo + 1, hi + 1) == Ordering::Equal);
    }
}

/// What the sweep of `detect_runs` knows under `ord` when it stands at `i`.
#[verifier::opaque]
pub open spec fn sweep_state<T>(
    ord: spec_fn(T, T) -> Ordering,
    s: Seq<T>,
    runs: Seq<(usize, usize)>,
    descending: Seq<bool>,
    start: int,
    order: Option<Ordering>,
    i: int,
) -> bool {
    &&& forall|k: int| 0 <= k < runs.len() ==> maximal_run(ord, s, #[trigger] runs[k])
    &&& forall|k: int|
        0 <= k < runs.len() ==> #[trigger] descending[k] == (direction(
            ord,
            s,
            runs[k].0 as int,
            runs[k].1 as int,
        ) == Ordering::Less)
    &&& i < s.len() ==> match order {
        None => true,
        Some(o) => o == direction(ord, s, start, i + 1) && monotone(ord, s, start, i + 1),
    }
}

/// One step of the sweep over the neighbours at `i` and `i + 1`, whose answer is `c`.
proof fn lemma_sweep_step<T>(
    ord: spec_fn(T, T) -> Ordering,
    s: Seq<T>,
    r0: Seq<(usize, usize)>,
    d0: Seq<bool>,
    st0: usize,
    o0: Option<Ordering>,
    i: usize,
    c: Ordering,
    runs: Seq<(usize, usize)>,
    descending: Seq<bool>,
    start: usize,
    order: Option<Ordering>,
)
    requires
        sweep_state(ord, s, r0, d0, st0 as int, o0, i as int),
        d0.len() == r0.len(),
        i + 1 < s.len(),
        c == ord(s[i as int], s[i + 1]),
        st0 <= i,
        o0 is None ==> st0 == i,
        o0 is Some ==> st0 < i,
        (o0 is None || o0 == Some(Ordering::Equal)) ==> runs == r0 && descending == d0 && start
            == st0 && order == Some(c),
        o0 == Some(Ordering::Greater) && c == Ordering::Less ==> runs == r0.push((st0, (i + 1) as usize))
            && descending == d0.push(false) && start == i + 1 && order is None,
        o0 == Some(Ordering::Less) && c == Ordering::Greater ==> runs == r0.push((st0, (i + 1) as usize))
            && descending == d0.push(true) && start == i + 1 && order is None,
        o0 == Some(Ordering::Greater) && c != Ordering::Less ==> runs == r0 && descending == d0 && start == st0
            && order == o0,
        o0 == Some(Ordering::Less) && c != Ordering::Greater ==> runs == r0 && descending == d0 && start == st0
            && order == o0,
    ensures
        sweep_state(ord, s, runs, descending, start as int, order, i + 1),
{
    reveal(sweep_state);
    lemma_direction_extend(ord, s, st0 as int, i + 1);
    if runs.len() > r0.len() {
        assert forall|k: int| 0 <= k < runs.len() implies maximal_run(ord, s, #[trigger] runs[k]) && descending[k] == (direction(
            ord,
            s,
            runs[k].0 as int,
            runs[k].1 as int,
        ) == Ordering::Less) by {
            if k < r0.len() {
                assert(runs[k] == r0[k]);
                assert(descending[k] == d0[k]);
            }
        }
    }
}

/// The last step of the sweep: the open run is closed at the end.
proof fn lemma_sweep_close<T>(
    ord: spec_fn(T, T) -> Ordering,
    s: Seq<T>,
    r0: Seq<(usize, usize)>,
    d0: Seq<bool>,
    st0: usize,
    o0: Option<Ordering>,
    runs: Seq<(usize, usize)>,
    descending: Seq<bool>,
)
    requires
        0 < s.len() <= usize::MAX,
        d0.len() == r0.len(),
        sweep_state(ord, s, r0, d0, st0 as int, o0, s.len() - 1),
        st0 <= s.len() - 1,
        o0 is None ==> st0 == s.len() - 1,
        runs == r0.push((st0, s.len() as usize)),
        descending == d0.push(o0 == Some(Ordering::Less)),
    ensures
        sweep_state(ord, s, runs, descending, st0 as int, o0, s.len() as int),
{
    reveal(sweep_state);
    let last = r0.len() as int;
    assert(runs[last] == (st0, s.len() as usize));
    assert(descending[last] == (o0 == Some(Ordering::Less)));
    match o0 {
        Some(o) => {
            assert(o == direction(ord, s, st0 as int, s.len() - 1 + 1));
            assert(monotone(ord, s, st0 as int, s.len() - 1 + 1));
            assert(s.len() - 1 + 1 == s.len());
        },
        None => {
            assert(direction(ord, s, st0 as int, s.len() as int) == Ordering::Equal);
        },
    }
    assert(maximal_run(ord, s, runs[last]));
    assert forall|k: int| 0 <= k < runs.len() implies maximal_run(ord, s, #[trigger] runs[k]) && descending[k] == (direction(
        ord,
        s,
        runs[k].0 as int,
        runs[k].1 as int,
    ) == Ordering::Less) by {
        if k < r0.len() {
            assert(runs[k] == r0[k]);
            assert(descending[k] == d0[k]);
        } else {
            assert(k == last);
        }
    }
}

/// Splits `vec` into maximal monotone runs and tells for each whether its
/// direction is `Less`.
pub(crate) fn detect_runs<T, F: Fn(&T, &T) -> Ordering>(vec: &Vec<T>, cmp: &F) -> (r: (
    Vec<(usize, usize)>,
    Vec<bool>,
))
    requires
        callable(*cmp),
    ensures
        tiles(r.0@, 0, vec.len() as int),
        r.1.len() == r.0.len(),
        forall|ord: spec_fn(T, T) -> Ordering|
            #[trigger] follows(*cmp, ord) ==> is_run_split(ord, vec@, r.0@) && forall|k: int|
                0 <= k < r.0.len() ==> r.1[k] == (direction(
                    ord,
                    vec@,
                    r.0[k].0 as int,
                    r.0[k].1 as int,
                ) == Ordering::Less),
{
    let n = vec.len();
    let mut runs: Vec<(usize, usize)> = Vec::new();
    let mut descending: Vec<bool> = Vec::new();
    let mut start: usize = 0;
    let mut order: Option<Ordering> = None;
    let mut i: usize = 0;
    proof {
        reveal(sweep_state);
    }
    while i < n
        invariant
            callable(*cmp),
            n == vec.len(),
            i <= n,
            descending.len() == runs.len(),
            i < n ==> start <= i && tiles(runs@, 0, start as int),
            i == n ==> tiles(runs@, 0, n as int),
            i < n ==> match order {
                None => start == i,
                Some(o) => start < i,
            },
            forall|ord: spec_fn(T, T) -> Ordering|
                #[trigger] follows(*cmp, ord) ==> sweep_state(
                    ord,
                    vec@,
                    runs@,
                    descending@,
                    start as int,
                    order,
                    i as int,
                ),
        decreases n - i,
    {
        let ghost r0 = runs@;
        let ghost d0 = descending@;
        let ghost st0 = start;
        let ghost o0 = order;
        if i + 1 < n {
            let c = cmp(&vec[i], &vec[i + 1]);
            match order {
                None => {
                    order = Some(c);
                },
                Some(Ordering::Equal) => {
                    order = Some(c);
                },
                Some(o) => {
                    let turns = match (o, c) {
                        (Ordering::Greater, Ordering::Less) => true,
                        (Ordering::Less, Ordering::Greater) => true,
                        _ => false,
                    };
                    if turns {
                        let down = match o {
                            Ordering::Less => true,
                            _ => false,
                        };
                        runs.push((start, i + 1));
                        descending.push(down);
                        start = i + 1;
                        order = None;
                    }
                },
            }
            proof {
                assert forall|ord: spec_fn(T, T) -> Ordering| #[trigger]
                    follows(*cmp, ord) implies sweep_state(
                    ord,
                    vec@,
                    runs@,
                    descending@,
                    start as int,
                    order,
                    i + 1,
                ) by {
                    lemma_sweep_step(ord, vec@, r0, d0, st0, o0, i, c, runs@, descending@, start, order);
                }
            }
        } else {
            let down = match order {
                Some(Ordering::Less) => true,
                _ => false,
            };
            runs.push((start, n));
            descending.push(down);
            proof {
                assert forall|ord: spec_fn(T, T) -> Ordering| #[trigger]
                    follows(*cmp, ord) implies sweep_state(
                    ord,
                    vec@,
                    runs@,
                    descending@,
                    start as int,
                    order,
                    i + 1,
                ) by {
                    lemma_sweep_close(ord, vec@, r0, d0, st0, o0, runs@, descending@);
                }
            }
        }
        i += 1;
    }
    proof {
        assert forall|ord: spec_fn(T, T) -> Ordering| #[trigger] follows(*cmp, ord) implies is_run_split(ord, vec@, runs@) && forall|k: int|
            0 <= k < runs.len() ==> descending[k] == (direction(
                ord,
                vec@,
                runs[k].0 as int,
                runs[k].1 as int,
            ) == Ordering::Less) by {
            reveal(sweep_state);
        }
    }
    (runs, descending)
}

/// No falling run of `s` holds two tied items, so turning the falling runs
/// around keeps the relative order of tied items.
pub open spec fn falling_runs_untied<T>(ord: spec_fn(T, T) -> Ordering, s: Seq<T>) -> bool {
    forall|runs: Seq<(usize, usize)>|
        #[trigger] is_run_split(ord, s, runs) ==> forall|k: int|
            0 <= k < runs.len() && direction(ord, s, runs[k].0 as int, runs[k].1 as int)
                == Ordering::Less ==> untied_between(
                ord,
                s,
                (#[trigger] runs[k]).0 as int,
                runs[k].1 as int,
            )
}

/// The runs of a tiling stand in order: each ends before the next begins.
pub proof fn lemma_tiles_ordered(runs: Seq<(usize, usize)>, lo: int, hi: int, j: int, k: int)
    requires
        tiles(runs, lo, hi),
        0 <= j < k < runs.len(),
    ensures
        runs[j].1 <= runs[k].0,
    decreases k - j,
{
    if j + 1 < k {
        lemma_tiles_ordered(runs, lo, hi, j + 1, k);
        assert(runs[j + 1].0 < runs[j + 1].1);
    }
}

proof fn lemma_monotone_sorted<T>(ord: spec_fn(T, T) -> Ordering,
    s: Seq<T>,
    lo: int,
    hi: int,
)
    requires
        order_laws(ord),
        0 <= lo <= hi <= s.len(),
        monotone(ord, s, lo, hi),
        direction(ord, s, lo, hi) != Ordering::Less,
    ensures
        sorted_between(ord, s, lo, hi),
{
    assert forall|k: int| lo <= k < hi - 1 implies #[trigger] leads(ord, s[k], s[k + 1]) by {
        assert(step(ord, s, k) == Ordering::Equal || step(ord, s, k) == direction(ord, s, lo, hi));
    }
    lemma_chain_sorted(ord, s, lo, hi);
}

proof fn lemma_monotone_reversed_sorted<T>(ord: spec_fn(T, T) -> Ordering,
    s: Seq<T>,
    t: Seq<T>,
    lo: int,
    hi: int,
)
    requires
        order_laws(ord),
        monotone(ord, s, lo, hi),
        direction(ord, s, lo, hi) == Ordering::Less,
        0 <= lo <= hi <= s.len(),
        hi <= t.len(),
        forall|k: int| lo <= k < hi ==> #[trigger] t[k] == s[lo + hi - 1 - k],
    ensures
        sorted_between(ord, t, lo, hi),
{
    reveal(order_laws);
    assert forall|k: int| lo <= k < hi - 1 implies #[trigger] leads(ord, t[k], t[k + 1]) by {
        let m = lo + hi - 2 - k;
        assert(t[k] == s[m + 1]);
        assert(t[k + 1] == s[m]);
        assert(step(ord, s, m) == Ordering::Equal || step(ord, s, m) == Ordering::Less);
        assert(ord(s[m], s[m + 1]) == flip(ord(s[m + 1], s[m])));
    }
    lemma_chain_sorted(ord, t, lo, hi);
}

proof fn lemma_swap_multiset<T>(s: Seq<T>, i: int, j: int)
    requires
        0 <= i < j < s.len(),
    ensures
        s.update(i, s[j]).update(j, s[i]).to_multiset() =~= s.to_multiset(),
{
    broadcast use vstd::seq_lib::to_multiset_update;
    broadcast use vstd::seq_lib::to_multiset_contains;
    broadcast use vstd::multiset::group_multiset_axioms;

    let m = s.to_multiset();
    let s1 = s.update(i, s[j]);
    let s2 = s1.update(j, s[i]);
    assert(s1[j] == s[j]);
    assert(s1.to_multiset() == m.insert(s[j]).remove(s[i]));
    assert(s2.to_multiset() == s1.to_multiset().insert(s[i]).remove(s[j]));
    assert(s.contains(s[i]));
    assert(m.count(s[i]) > 0);
    assert(m.insert(s[j]).remove(s[i]).insert(s[i]).remove(s[j]) =~= m);
}

/// Relies on `<[T]>::swap`: the items at `i` and `j` trade places.
#[verifier::external_body]
fn swap_items<T>(vec: &mut Vec<T>, i: usize, j: usize)
    requires
        i < old(vec).len(),
        j < old(vec).len(),
    ensures
        final(vec)@ == old(vec)@.update(i as int, old(vec)@[j as int]).update(
            j as int,
            old(vec)@[i as int],
        ),
{
    vec.swap(i, j);
}

/// Reverses `vec[lo..hi]` in place.
fn reverse_range<T>(vec: &mut Vec<T>, lo: usize, hi: usize)
    requires
        lo <= hi <= old(vec).len(),
    ensures
        final(vec).len() == old(vec).len(),
        final(vec)@.to_multiset() == old(vec)@.to_multiset(),
        forall|k: int|
            0 <= k < final(vec).len() ==> #[trigger] final(vec)@[k] == if lo <= k < hi {
                old(vec)@[lo + hi - 1 - k]
            } else {
                old(vec)@[k]
            },
{
    if lo == hi {
        return;
    }
    let ghost s0 = vec@;
    let mut i: usize = lo;
    let mut j: usize = hi - 1;
    while i < j
        invariant
            lo <= i,
            i <= j + 1,
            j < hi,
            i + j == lo + hi - 1,
            hi <= s0.len(),
            vec.len() == s0.len(),
            vec@.to_multiset() == s0.to_multiset(),
            forall|k: int|
                0 <= k < vec.len() ==> #[trigger] vec@[k] == if (lo <= k < i || j < k < hi) {
                    s0[lo + hi - 1 - k]
                } else {
                    s0[k]
                },
        decreases hi - i,
    {
        proof {
            lemma_swap_multiset(vec@, i as int, j as int);
        }
        swap_items(vec, i, j);
        i += 1;
        j -= 1;
    }
    assert forall|k: int| 0 <= k < vec.len() implies #[trigger] vec@[k] == if lo <= k < hi {
        s0[lo + hi - 1 - k]
    } else {
        s0[k]
    } by {
        if i <= k <= j {
            assert(k == lo + hi - 1 - k);
        }
    }
}

/// The ranges in `runs` lie within `[0, n)` and no two overlap.
pub open spec fn disjoint_runs(runs: Seq<(usize, usize)>, n: int) -> bool {
    &&& forall|k: int| 0 <= k < runs.len() ==> (#[trigger] runs[k]).0 <= runs[k].1 <= n
    &&& forall|j: int, k: int|
        0 <= j < runs.len() && 0 <= k < runs.len() && j != k ==> (#[trigger] runs[j]).1
            <= (#[trigger] runs[k]).0 || runs[k].1 <= runs[j].0
}

/// The runs of a tiling are disjoint.
pub proof fn lemma_tiles_disjoint(runs: Seq<(usize, usize)>, n: int)
    requires
        tiles(runs, 0, n),
    ensures
        disjoint_runs(runs, n),
{
    assert forall|j: int, k: int|
        0 <= j < runs.len() && 0 <= k < runs.len() && j != k implies (#[trigger] runs[j]).1
        <= (#[trigger] runs[k]).0 || runs[k].1 <= runs[j].0 by {
        if j < k {
            lemma_tiles_ordered(runs, 0, n, j, k);
        } else {
            lemma_tiles_ordered(runs, 0, n, k, j);
        }
    }
}

/// Reverses in place every run marked in `descending`; every other item
/// stays where it is.
pub fn unify_order_of_runs<T>(runs: &Vec<(usize, usize)>, descending: &Vec<bool>, vec: &mut Vec<T>)
    requires
        descending.len() == runs.len(),
        disjoint_runs(runs@, old(vec).len() as int),
    ensures
        final(vec).len() == old(vec).len(),
        final(vec)@.to_multiset() == old(vec)@.to_multiset(),
        forall|k: int, i: int|
            #![trigger runs[k], final(vec)@[i]]
            0 <= k < runs.len() && runs[k].0 <= i < runs[k].1 ==> final(vec)@[i] == if descending[k] {
                old(vec)@[runs[k].0 + runs[k].1 - 1 - i]
            } else {
                old(vec)@[i]
            },
        forall|i: int|
            0 <= i < final(vec).len() && (forall|k: int|
                0 <= k < runs.len() ==> !((#[trigger] runs[k]).0 <= i < runs[k].1)) ==> #[trigger] final(vec)@[i]
                == old(vec)@[i],
        forall|ord: spec_fn(T, T) -> Ordering|
            order_laws(ord) && (forall|k: int|
                0 <= k < runs.len() && #[trigger] descending[k] ==> untied_between(
                    ord,
                    old(vec)@,
                    runs[k].0 as int,
                    runs[k].1 as int,
                )) ==> #[trigger] keeps_ties(ord, old(vec)@, final(vec)@),
{
    let ghost s0 = vec@;
    let n = vec.len();
    let mut k: usize = 0;
    while k < runs.len()
        invariant
            descending.len() == runs.len(),
            disjoint_runs(runs@, s0.len() as int),
            k <= runs.len(),
            n == s0.len(),
            vec.len() == n,
            vec@.to_multiset() == s0.to_multiset(),
            forall|q: int, i: int|
                #![trigger runs[q], vec@[i]]
                0 <= q < k && runs[q].0 <= i < runs[q].1 ==> vec@[i] == if descending[q] {
                    s0[runs[q].0 + runs[q].1 - 1 - i]
                } else {
                    s0[i]
                },
            forall|i: int|
                0 <= i < n && (forall|q: int|
                    0 <= q < k ==> !((#[trigger] runs[q]).0 <= i < runs[q].1)) ==> #[trigger] vec@[i]
                    == s0[i],
            forall|ord: spec_fn(T, T) -> Ordering|
                order_laws(ord) && (forall|q: int|
                    0 <= q < runs.len() && #[trigger] descending[q] ==> untied_between(
                        ord,
                        s0,
                        runs[q].0 as int,
                        runs[q].1 as int,
                    )) ==> #[trigger] keeps_ties(ord, s0, vec@),
        decreases runs.len() - k,
    {
        let (lo, hi) = runs[k];
        let ghost before = vec@;
        proof {
            assert forall|i: int| lo <= i < hi implies #[trigger] before[i] == s0[i] by {
                assert forall|q: int| 0 <= q < k implies !((#[trigger] runs[q]).0 <= i < runs[q].1) by {
                    assert(runs[q as int] == runs@[q]);
                }
            }
        }
        if descending[k] {
            reverse_range(vec, lo, hi);
        }
        proof {
            let w = vec@;
            assert forall|q: int, i: int|
                #![trigger runs[q], w[i]]
                0 <= q < k + 1 && runs[q].0 <= i < runs[q].1 implies w[i] == if descending[q] {
                    s0[runs[q].0 + runs[q].1 - 1 - i]
                } else {
                    s0[i]
                } by {
                if q < k {
                    assert(!(lo <= i < hi));
                    assert(w[i] == before[i]);
                } else if descending[q] {
                    assert(before[lo + hi - 1 - i] == s0[lo + hi - 1 - i]);
                }
            }
            assert forall|i: int|
                0 <= i < n && (forall|q: int|
                    0 <= q < k + 1 ==> !((#[trigger] runs[q]).0 <= i < runs[q].1)) implies #[trigger] w[i]
                == s0[i] by {
                assert(!(runs[k as int].0 <= i < runs[k as int].1));
                assert(w[i] == before[i]);
            }
            assert forall|ord: spec_fn(T, T) -> Ordering|
                order_laws(ord) && (forall|q: int|
                    0 <= q < runs.len() && #[trigger] descending[q] ==> untied_between(
                        ord,
                        s0,
                        runs[q].0 as int,
                        runs[q].1 as int,
                    )) implies #[trigger] keeps_ties(ord, s0, w) by {
                assert(keeps_ties(ord, s0, before));
                if descending[k as int] {
                    assert(untied_between(ord, s0, lo as int, hi as int));
                    let x = before.subrange(lo as int, hi as int);
                    assert(x =~= s0.subrange(lo as int, hi as int));
                    assert(w.subrange(lo as int, hi as int) =~= x.reverse());
                    assert forall|e: T| #[trigger] ties_of(ord, w.subrange(lo as int, hi as int), e)
                        == ties_of(ord, before.subrange(lo as int, hi as int), e) by {
                        lemma_reverse_untied(ord, x, e);
                    }
                    lemma_ties_local(ord, before, w, lo as int, hi as int);
                    assert forall|e: T| #[trigger] ties_of(ord, w, e) == ties_of(ord, s0, e) by {
                        assert(ties_of(ord, w, e) == ties_of(ord, before, e));
                    }
                } else {
                    assert(w =~= before);
                }
            }
        }
        k += 1;
    }
}

/// After the falling runs of a split have been turned around, every run is
/// sorted under `ord`.
pub proof fn lemma_runs_sorted_after<T>(
    ord: spec_fn(T, T) -> Ordering,
    s: Seq<T>,
    t: Seq<T>,
    runs: Seq<(usize, usize)>,
    descending: Seq<bool>,
)
    requires
        order_laws(ord),
        t.len() == s.len(),
        descending.len() == runs.len(),
        forall|k: int|
            0 <= k < runs.len() ==> (#[trigger] runs[k]).0 <= runs[k].1 <= s.len() && monotone(
                ord,
                s,
                runs[k].0 as int,
                runs[k].1 as int,
            ) && descending[k] == (direction(ord, s, runs[k].0 as int, runs[k].1 as int)
                == Ordering::Less),
        forall|k: int, i: int|
            #![trigger runs[k], t[i]]
            0 <= k < runs.len() && runs[k].0 <= i < runs[k].1 ==> t[i] == if descending[k] {
                s[runs[k].0 + runs[k].1 - 1 - i]
            } else {
                s[i]
            },
    ensures
        forall|k: int|
            0 <= k < runs.len() ==> sorted_between(ord, t, (#[trigger] runs[k]).0 as int, runs[k].1 as int),
{
    assert forall|k: int| 0 <= k < runs.len() implies sorted_between(ord, t, (#[trigger] runs[k]).0 as int, runs[k].1 as int) by {
        let (lo, hi) = runs[k];
        assert forall|i: int| lo <= i < hi implies #[trigger] t[i] == if descending[k] {
            s[lo + hi - 1 - i]
        } else {
            s[i]
        } by {
            assert(runs[k] == (lo, hi));
        }
        if descending[k] {
            lemma_monotone_reversed_sorted(ord, s, t, lo as int, hi as int);
        } else {
            lemma_monotone_sorted(ord, s, lo as int, hi as int);
            assert forall|i: int, j: int| lo <= i < j < hi implies #[trigger] leads(ord, t[i], t[j]) by {
                assert(leads(ord, s[i], s[j]));
            }
        }
    }
}

proof fn lemma_direction_is_a_step<T>(ord: spec_fn(T, T) -> Ordering,
    s: Seq<T>,
    lo: int,
    hi: int,
) -> (k: int)
    requires
        direction(ord, s, lo, hi) != Ordering::Equal,
    ensures
        lo <= k < hi - 1,
        step(ord, s, k) == direction(ord, s, lo, hi),
    decreases hi - lo,
{
    if step(ord, s, lo) != Ordering::Equal {
        lo
    } else {
        lemma_direction_is_a_step(ord, s, lo + 1, hi)
    }
}

/// A sorted sequence holds no turn: its split has a single run.
pub proof fn lemma_sorted_single_run<T>(ord: spec_fn(T, T) -> Ordering,
    s: Seq<T>,
    runs: Seq<(usize, usize)>,
)
    requires
        is_sorted(ord, s),
        is_run_split(ord, s, runs),
    ensures
        runs.len() == if s.len() == 0 { 0int } else { 1int },
        forall|k: int|
            0 <= k < runs.len() ==> direction(ord, s, (#[trigger] runs[k]).0 as int, runs[k].1 as int)
                != Ordering::Less,
{
    assert forall|k: int| 0 <= k < runs.len() implies direction(ord, s, (#[trigger] runs[k]).0 as int, runs[k].1 as int)
        != Ordering::Less && runs[k].1 == s.len() by {
        let (lo, hi) = runs[k];
        if direction(ord, s, lo as int, hi as int) != Ordering::Equal {
            let i = lemma_direction_is_a_step(ord, s, lo as int, hi as int);
            assert(leads(ord, s[i], s[i + 1]));
        }
        if hi < s.len() {
            assert(leads(ord, s[hi - 1], s[(hi - 1) + 1]));
        }
    }
    if runs.len() >= 2 {
        assert(runs[0].1 == runs[1].0);
    }
}

/// Splits `vec` into its maximal monotone runs, from left to right.
pub fn get_runs<T, F: Fn(&T, &T) -> Ordering>(vec: &Vec<T>, cmp: &F) -> (runs: Vec<(usize, usize)>)
    requires
        callable(*cmp),
    ensures
        tiles(runs@, 0, vec.len() as int),
        forall|ord: spec_fn(T, T) -> Ordering|
            #[trigger] follows(*cmp, ord) ==> is_run_split(ord, vec@, runs@) && (is_sorted(ord, vec@)
                ==> runs.len() == if vec.len() == 0 { 0int } else { 1int }),
{
    let (runs, _) = detect_runs(vec, cmp);
    proof {
        assert forall|ord: spec_fn(T, T) -> Ordering| #[trigger] follows(*cmp, ord) implies is_run_split(ord, vec@, runs@) && (is_sorted(ord, vec@)
            ==> runs.len() == if vec.len() == 0 { 0int } else { 1int }) by {
            if is_sorted(ord, vec@) {
                lemma_sorted_single_run(ord, vec@, runs@);
            }
        }
    }
    runs
}

/// Cuts `vec` into runs of two items, the last of one item where the length
/// is odd. No question is put to `cmp`.
pub fn get_merge_sort_runs<T, F: Fn(&T, &T) -> Ordering>(vec: &Vec<T>, cmp: &F) -> (runs: Vec<
    (usize, usize),
>)
    ensures
        tiles(runs@, 0, vec.len() as int),
        runs.len() == (vec.len() + 1) / 2,
        forall|k: int|
            0 <= k < runs.len() ==> #[trigger] runs[k] == (
                (2 * k) as usize,
                if 2 * k + 2 <= vec.len() { (2 * k + 2) as usize } else { vec.len() },
            ),
{
    let n = vec.len();
    let mut runs: Vec<(usize, usize)> = Vec::new();
    let mut i: usize = 0;
    while i < n
        invariant
            n == vec.len(),
            i <= n,
            i == 2 * runs.len() || (i == n && i + 1 == 2 * runs.len()),
            tiles(runs@, 0, i as int),
            forall|k: int|
                0 <= k < runs.len() ==> #[trigger] runs[k] == (
                    (2 * k) as usize,
                    if 2 * k + 2 <= n { (2 * k + 2) as usize } else { n },
                ),
        decreases n - i,
    {
        if n - i < 2 {
            runs.push((i, i + 1));
            i += 1;
        } else {
            runs.push((i, i + 2));
            i += 2;
        }
    }
    runs
}

/// Decides the direction of each run of at most two items by asking `cmp`
/// about its two items once.
pub(crate) fn orient_pair_runs<T, F: Fn(&T, &T) -> Ordering>(
    runs: &Vec<(usize, usize)>,
    vec: &Vec<T>,
    cmp: &F,
) -> (descending: Vec<bool>)
    requires
        callable(*cmp),
        tiles(runs@, 0, vec.len() as int),
        forall|k: int| 0 <= k < runs.len() ==> (#[trigger] runs[k]).1 - runs[k].0 <= 2,
    ensures
        descending.len() == runs.len(),
        forall|ord: spec_fn(T, T) -> Ordering|
            #[trigger] follows(*cmp, ord) ==> pair_runs_oriented(ord, vec@, runs@, descending@, runs.len() as int),
{
    let mut descending: Vec<bool> = Vec::new();
    let mut k: usize = 0;
    while k < runs.len()
        invariant
            callable(*cmp),
            tiles(runs@, 0, vec.len() as int),
            forall|q: int| 0 <= q < runs.len() ==> (#[trigger] runs[q]).1 - runs[q].0 <= 2,
            k <= runs.len(),
            descending.len() == k,
            forall|ord: spec_fn(T, T) -> Ordering|
                #[trigger] follows(*cmp, ord) ==> pair_runs_oriented(ord, vec@, runs@, descending@, k as int),
        decreases runs.len() - k,
    {
        let (lo, hi) = runs[k];
        let ghost d0 = descending@;
        let down = if hi - lo == 2 {
            let c = cmp(&vec[lo], &vec[lo + 1]);
            let down = match c {
                Ordering::Less => true,
                _ => false,
            };
            proof {
                assert forall|ord: spec_fn(T, T) -> Ordering| #[trigger] follows(*cmp, ord) implies {
                    &&& monotone(ord, vec@, lo as int, hi as int)
                    &&& down == (direction(ord, vec@, lo as int, hi as int) == Ordering::Less)
                    &&& down ==> untied_between(ord, vec@, lo as int, hi as int)
                } by {
                    reveal(order_laws);
                    assert(c == ord(vec@[lo as int], vec@[lo + 1]));
                    assert(direction(ord, vec@, lo + 1, hi as int) == Ordering::Equal);
                    assert(direction(ord, vec@, lo as int, hi as int) == step(ord, vec@, lo as int));
                    assert(ord(vec@[lo + 1], vec@[lo as int]) == flip(ord(vec@[lo as int], vec@[lo + 1])));
                }
            }
            down
        } else {
            false
        };
        descending.push(down);
        proof {
            assert forall|ord: spec_fn(T, T) -> Ordering| #[trigger] follows(*cmp, ord) implies pair_runs_oriented(ord, vec@, runs@, descending@, k + 1) by {
                assert(pair_runs_oriented(ord, vec@, runs@, d0, k as int));
                assert forall|q: int| 0 <= q < k + 1 implies pair_run_oriented(ord, vec@, #[trigger] runs@[q], descending@[q]) by {
                    if q < k {
                        assert(descending@[q] == d0[q]);
                    }
                }
            }
        }
        k += 1;
    }
    descending
}

/// The run `r` is monotone, `down` tells whether its direction is `Less`, and
/// a falling run holds no two tied items.
pub open spec fn pair_run_oriented<T>(ord: spec_fn(T, T) -> Ordering, s: Seq<T>, r: (usize, usize), down: bool) -> bool {
    &&& monotone(ord, s, r.0 as int, r.1 as int)
    &&& down == (direction(ord, s, r.0 as int, r.1 as int) == Ordering::Less)
    &&& down ==> untied_between(ord, s, r.0 as int, r.1 as int)
}

/// The first `k` runs are oriented by `descending`.
pub open spec fn pair_runs_oriented<T>(
    ord: spec_fn(T, T) -> Ordering,
    s: Seq<T>,
    runs: Seq<(usize, usize)>,
    descending: Seq<bool>,
    k: int,
) -> bool {
    forall|q: int| 0 <= q < k ==> pair_run_oriented(ord, s, #[trigger] runs[q], descending[q])
}

} // verus!

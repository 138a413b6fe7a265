use core::cmp::Ordering;
use vstd::prelude::*;

use crate::order::{
    callable, flip, follows, is_sorted, keeps_ties, leads, lemma_no_ties, lemma_ties_local,
    lemma_ties_meet, order_laws, sorted_between, tied_to, ties_of,
};
use crate::runs::{lemma_tiles_ordered, tiles};

verus! {

/// A sorted range followed by a sorted range, where each item of the first may
/// stand before each item of the second, is sorted as a whole.
proof fn lemma_join_sorted<T>(ord: spec_fn(T, T) -> Ordering,
    s: Seq<T>,
    lo: int,
    mid: int,
    hi: int,
)
    requires
        sorted_between(ord, s, lo, mid),
        sorted_between(ord, s, mid, hi),
        forall|i: int, j: int| lo <= i < mid <= j < hi ==> #[trigger] leads(ord, s[i], s[j]),
    ensures
        sorted_between(ord, s, lo, hi),
{
    assert forall|i: int, j: int| lo <= i < j < hi implies #[trigger] leads(ord, s[i], s[j]) by {
        if i < mid && j < mid {
        } else if i >= mid {
        } else {
        }
    }
}

/// Where the items stand while `merge_adjacent` works on `[l0, rb)`: the
/// merged prefix `[l0, lt)`, the rest of the left run at `[lt, rt)`, and the
/// rest of the right run, unmoved, at `[rt, rb)`.
pub open spec fn merge_layout<T>(s0: Seq<T>, v: Seq<T>, l0: int, l1: int, lt: int, rt: int, rb: int) -> bool {
    &&& 0 <= l0 <= lt < rb
    &&& lt <= rt <= rb
    &&& l0 < l1 <= rt
    &&& rt + l0 <= lt + l1
    &&& rb <= s0.len()
    &&& v.len() == s0.len()
    &&& forall|k: int| rt <= k < rb ==> #[trigger] v[k] == s0[k]
    &&& forall|k: int| lt <= k < rt ==> #[trigger] v[k] == s0[k + l1 - rt]
}

/// What `merge_adjacent` knows under `ord`: both runs were sorted, the prefix
/// is sorted and may stand before all that is left, each right item taken
/// comes strictly before each left item still waiting, and the ties of the
/// prefix are those of the left items taken followed by those of the right.
#[verifier::opaque]
pub open spec fn merge_state<T>(
    ord: spec_fn(T, T) -> Ordering,
    s0: Seq<T>,
    v: Seq<T>,
    l0: int,
    l1: int,
    lt: int,
    rt: int,
    rb: int,
) -> bool {
    &&& sorted_between(ord, s0, l0, l1)
    &&& sorted_between(ord, s0, l1, rb)
    &&& sorted_between(ord, v, l0, lt)
    &&& forall|i: int, j: int| l0 <= i < lt <= j < rb ==> #[trigger] leads(ord, v[i], v[j])
    &&& forall|i: int, j: int|
        l1 <= i < rt && lt <= j < rt ==> #[trigger] ord(s0[i], v[j]) == Ordering::Greater
    &&& forall|e: T|
        #[trigger] ties_of(ord, v.subrange(l0, lt), e) == ties_of(ord, s0.subrange(l0, lt + l1 - rt), e)
            + ties_of(ord, s0.subrange(l1, rt), e)
}

/// What the count of questions rests on: where the runs stand in order
/// already, nothing has moved and the right run is untouched; where the last
/// right item must come before the first left one, no left item is taken.
pub open spec fn count_facts<T>(
    ord: spec_fn(T, T) -> Ordering,
    s0: Seq<T>,
    v: Seq<T>,
    l0: int,
    l1: int,
    lt: int,
    rt: int,
    rb: int,
) -> bool {
    &&& leads(ord, s0[l1 - 1], s0[l1]) ==> rt == l1 && v == s0
    &&& ord(s0[l0], s0[rb - 1]) == Ordering::Less ==> lt + l1 == rt + l0
}

proof fn lemma_count_step<T>(
    ord: spec_fn(T, T) -> Ordering,
    s0: Seq<T>,
    v: Seq<T>,
    l0: int,
    l1: int,
    lt: int,
    rt: int,
    rb: int,
    c: Ordering,
)
    requires
        order_laws(ord),
        merge_layout(s0, v, l0, l1, lt, rt, rb),
        lt < rt < rb,
        merge_state(ord, s0, v, l0, l1, lt, rt, rb),
        count_facts(ord, s0, v, l0, l1, lt, rt, rb),
        c == ord(v[lt], v[rt]),
    ensures
        leads(ord, s0[l1 - 1], s0[l1]) ==> c != Ordering::Less,
        ord(s0[l0], s0[rb - 1]) == Ordering::Less ==> c == Ordering::Less,
{
    reveal(order_laws);
    reveal(merge_state);
    if leads(ord, s0[l1 - 1], s0[l1]) {
        assert(v[lt] == s0[lt]);
        assert(v[rt] == s0[l1]);
        if lt < l1 - 1 {
            assert(leads(ord, s0[lt], s0[l1 - 1]));
        }
    }
    if ord(s0[l0], s0[rb - 1]) == Ordering::Less {
        assert(v[lt] == s0[l0]);
        assert(v[rt] == s0[rt]);
        if rt < rb - 1 {
            assert(leads(ord, s0[rt], s0[rb - 1]));
        }
        if c != Ordering::Less {
            assert(leads(ord, s0[l0], s0[rt]));
        }
    }
}

proof fn lemma_take_right<T>(
    ord: spec_fn(T, T) -> Ordering,
    s0: Seq<T>,
    v: Seq<T>,
    w: Seq<T>,
    l0: int,
    l1: int,
    lt: int,
    rt: int,
    rb: int,
)
    requires
        order_laws(ord),
        merge_layout(s0, v, l0, l1, lt, rt, rb),
        lt < rt < rb,
        merge_state(ord, s0, v, l0, l1, lt, rt, rb),
        ord(v[lt], v[rt]) == Ordering::Less,
        w.len() == v.len(),
        w[lt] == v[rt],
        forall|k: int| lt < k <= rt ==> #[trigger] w[k] == v[k - 1],
        forall|k: int| rt < k < w.len() ==> #[trigger] w[k] == v[k],
        forall|k: int| 0 <= k < lt ==> #[trigger] w[k] == v[k],
    ensures
        merge_state(ord, s0, w, l0, l1, lt + 1, rt + 1, rb),
{
    reveal(order_laws);
    reveal(merge_state);
    assert(ord(v[lt], v[rt]) == flip(ord(v[rt], v[lt])));
    assert(leads(ord, v[rt], v[lt]));
    assert forall|j: int| lt < j < rb implies #[trigger] leads(
        ord,
        w[lt as int],
        w[j],
    ) by {
        if j <= rt {
            assert(w[j] == v[j - 1]);
            if j - 1 > lt {
                assert(v[lt as int] == s0[lt + l1 - rt]);
                assert(v[j - 1] == s0[j - 1 + l1 - rt]);
                assert(leads(ord, s0[lt + l1 - rt], s0[j - 1 + l1 - rt]));
                assert(leads(ord, v[rt as int], v[lt as int]));
            }
        } else {
            assert(w[j] == s0[j]);
            assert(v[rt as int] == s0[rt as int]);
            assert(leads(ord, s0[rt as int], s0[j]));
        }
    }
    assert forall|i: int, j: int|
        l0 <= i < lt + 1 <= j < rb implies #[trigger] leads(ord, w[i], w[j]) by {
        if i < lt {
            if j <= rt {
                assert(w[j] == v[j - 1]);
                assert(leads(ord, v[i], v[j - 1]));
            } else {
                assert(leads(ord, v[i], v[j]));
            }
        }
    }
    assert forall|i: int, j: int|
        l0 <= i < j < lt + 1 implies #[trigger] leads(ord, w[i], w[j]) by {
        if j < lt {
            assert(leads(ord, v[i], v[j]));
        } else {
            assert(leads(ord, v[i], v[rt as int]));
        }
    }
    assert forall|i: int, j: int|
        l1 <= i < rt + 1 && lt + 1 <= j < rt + 1 implies #[trigger] ord(s0[i],
        w[j],
    ) == Ordering::Greater by {
        assert(w[j] == v[j - 1]);
        if i < rt {
        } else {
            let z = v[j - 1];
            let y = s0[rt as int];
            assert(y == v[rt as int]);
            if j - 1 > lt {
                assert(v[lt as int] == s0[lt + l1 - rt]);
                assert(z == s0[j - 1 + l1 - rt]);
                assert(leads(ord, s0[lt + l1 - rt], s0[j - 1 + l1 - rt]));
            }
            assert(leads(ord, v[lt as int], z));
            assert(leads(ord, y, v[lt as int]));
            assert(leads(ord, y, z));
            assert(ord(y, z) == flip(ord(z, y)));
            if ord(y, z) == Ordering::Equal {
                assert(leads(ord, z, y));
                assert(leads(ord, v[lt as int], y));
            }
        }
    }
    assert(w.subrange(l0 as int, lt + 1) =~= v.subrange(l0 as int, lt as int).push(v[rt as int]));
    assert(s0.subrange(l1 as int, rt + 1) =~= s0.subrange(l1 as int, rt as int).push(s0[rt as int]));
    assert(lt + 1 + l1 - (rt + 1) == lt + l1 - rt);
    assert forall|e: T| #[trigger] ties_of(ord, w.subrange(l0 as int, lt + 1), e) == ties_of(
        ord,
        s0.subrange(l0 as int, lt + 1 + l1 - (rt + 1)),
        e,
    ) + ties_of(ord, s0.subrange(l1 as int, rt + 1), e) by {
        let pr = v.subrange(l0 as int, lt as int);
        assert(ties_of(ord, pr, e) == ties_of(ord, s0.subrange(l0 as int, lt + l1 - rt), e) + ties_of(ord, s0.subrange(l1 as int, rt as int), e));
        pr.lemma_filter_push(v[rt as int], tied_to(ord, e));
        s0.subrange(l1 as int, rt as int).lemma_filter_push(s0[rt as int], tied_to(ord, e));
        let a = ties_of(ord, s0.subrange(l0 as int, lt + l1 - rt), e);
        let b = ties_of(ord, s0.subrange(l1 as int, rt as int), e);
        if tied_to(ord, e)(v[rt as int]) {
            assert((a + b).push(v[rt as int]) =~= a + b.push(v[rt as int]));
        }
    }
}

proof fn lemma_take_left<T>(
    ord: spec_fn(T, T) -> Ordering,
    s0: Seq<T>,
    v: Seq<T>,
    l0: int,
    l1: int,
    lt: int,
    rt: int,
    rb: int,
)
    requires
        order_laws(ord),
        merge_layout(s0, v, l0, l1, lt, rt, rb),
        lt < rt < rb,
        merge_state(ord, s0, v, l0, l1, lt, rt, rb),
        ord(v[lt], v[rt]) != Ordering::Less,
    ensures
        merge_state(ord, s0, v, l0, l1, lt + 1, rt, rb),
{
    reveal(order_laws);
    reveal(merge_state);
    assert(leads(ord, v[lt as int], v[rt as int]));
    assert forall|j: int| lt < j < rb implies #[trigger] leads(
        ord,
        v[lt as int],
        v[j],
    ) by {
        if j < rt {
            assert(leads(ord, s0[lt + l1 - rt], s0[j + l1 - rt]));
        } else if j > rt {
            assert(leads(ord, s0[rt as int], s0[j]));
        }
    }
    assert forall|i: int, j: int|
        l0 <= i < j < lt + 1 implies #[trigger] leads(ord, v[i], v[j]) by {
        if j == lt {
            assert(leads(ord, v[i], v[lt as int]));
        }
    }
    let z = v[lt as int];
    assert(z == s0[lt + l1 - rt]);
    assert(v.subrange(l0 as int, lt + 1) =~= v.subrange(l0 as int, lt as int).push(z));
    assert(s0.subrange(l0 as int, lt + 1 + l1 - rt) =~= s0.subrange(l0 as int, lt + l1 - rt).push(z));
    assert forall|e: T| #[trigger] ties_of(ord, v.subrange(l0 as int, lt + 1), e) == ties_of(
        ord,
        s0.subrange(l0 as int, lt + 1 + l1 - rt),
        e,
    ) + ties_of(ord, s0.subrange(l1 as int, rt as int), e) by {
        let pr = v.subrange(l0 as int, lt as int);
        let lc = s0.subrange(l0 as int, lt + l1 - rt);
        let rc = s0.subrange(l1 as int, rt as int);
        assert(ties_of(ord, pr, e) == ties_of(ord, lc, e) + ties_of(ord, rc, e));
        pr.lemma_filter_push(z, tied_to(ord, e));
        lc.lemma_filter_push(z, tied_to(ord, e));
        if tied_to(ord, e)(z) {
            assert forall|i: int| 0 <= i < rc.len() implies ord(#[trigger] rc[i], e) != Ordering::Equal by {
                assert(rc[i] == s0[l1 + i]);
                assert(ord(s0[l1 + i], v[lt as int]) == Ordering::Greater);
                if ord(rc[i], e) == Ordering::Equal {
                    lemma_ties_meet(ord, rc[i], z, e);
                }
            }
            lemma_no_ties(ord, rc, e);
            assert(ties_of(ord, rc, e) =~= Seq::<T>::empty());
            let a = ties_of(ord, lc, e);
            assert((a + Seq::<T>::empty()).push(z) =~= a.push(z) + Seq::<T>::empty());
        }
    }
}

proof fn lemma_merge_done<T>(
    ord: spec_fn(T, T) -> Ordering,
    s0: Seq<T>,
    v: Seq<T>,
    l0: int,
    l1: int,
    lt: int,
    rt: int,
    rb: int,
)
    requires
        order_laws(ord),
        merge_layout(s0, v, l0, l1, lt, rt, rb),
        lt == rt || rt == rb,
        merge_state(ord, s0, v, l0, l1, lt, rt, rb),
    ensures
        sorted_between(ord, v, l0, rb),
        forall|e: T| #[trigger] ties_of(ord, v.subrange(l0, rb), e) == ties_of(ord, s0.subrange(l0, rb), e),
{
    reveal(order_laws);
    reveal(merge_state);
    assert(sorted_between(ord, v, lt as int, rb as int)) by {
        assert forall|i: int, j: int| lt <= i < j < rb implies #[trigger] leads(
            ord,
            v[i],
            v[j],
        ) by {
            if lt == rt {
                assert(leads(ord, s0[i], s0[j]));
            } else {
                assert(leads(ord, s0[i + l1 - rt], s0[j + l1 - rt]));
            }
        }
    }
    lemma_join_sorted(ord, v, l0 as int, lt as int, rb as int);
    let lc = s0.subrange(l0 as int, lt + l1 - rt);
    let lr = s0.subrange(lt + l1 - rt, l1 as int);
    let rc = s0.subrange(l1 as int, rt as int);
    let rr = s0.subrange(rt as int, rb as int);
    let pr = v.subrange(l0 as int, lt as int);
    assert(v.subrange(lt as int, rt as int) =~= lr);
    assert(v.subrange(rt as int, rb as int) =~= rr);
    assert(v.subrange(l0 as int, rb as int) =~= pr + lr + rr);
    assert(s0.subrange(l0 as int, rb as int) =~= lc + lr + rc + rr);
    assert forall|e: T| #[trigger] ties_of(ord, v.subrange(l0 as int, rb as int), e) == ties_of(
        ord,
        s0.subrange(l0 as int, rb as int),
        e,
    ) by {
        broadcast use Seq::filter_distributes_over_add;

        let p = tied_to(ord, e);
        assert(ties_of(ord, pr, e) == lc.filter(p) + rc.filter(p));
        if lt == rt {
            assert(lr =~= Seq::<T>::empty());
            assert(lr.filter(p) =~= Seq::<T>::empty()) by {
                lemma_no_ties(ord, lr, e);
            }
            assert((pr + lr + rr).filter(p) =~= lc.filter(p) + lr.filter(p) + rc.filter(p) + rr.filter(p));
        } else {
            assert(rr =~= Seq::<T>::empty());
            assert(rr.filter(p) =~= Seq::<T>::empty()) by {
                lemma_no_ties(ord, rr, e);
            }
            if rc.filter(p).len() > 0 && lr.filter(p).len() > 0 {
                let y = rc.filter(p)[0];
                let z = lr.filter(p)[0];
                rc.lemma_filter_pred(p, 0);
                lr.lemma_filter_pred(p, 0);
                assert(rc.filter(p).contains(y));
                assert(lr.filter(p).contains(z));
                rc.lemma_filter_contains_rev(p, y);
                lr.lemma_filter_contains_rev(p, z);
                let i = choose|i: int| 0 <= i < rc.len() && rc[i] == y;
                let j = choose|j: int| 0 <= j < lr.len() && lr[j] == z;
                assert(ord(s0[l1 + i], v[lt + j]) == Ordering::Greater);
                lemma_ties_meet(ord, y, z, e);
            }
            if rc.filter(p).len() == 0 {
                assert(rc.filter(p) =~= Seq::<T>::empty());
            } else {
                assert(lr.filter(p) =~= Seq::<T>::empty());
            }
            assert((pr + lr + rr).filter(p) =~= lc.filter(p) + lr.filter(p) + rc.filter(p) + rr.filter(p));
        }
    }
}

/// Merges the adjacent sorted runs `left` and `right` in place by moving each
/// item of `right` that must come earlier leftwards into its place. Returns
/// the merged run and the number of questions put to `cmp`: fewer than the
/// items of both runs, as many as the left run has where the runs already
/// stand in order (and then nothing moves), as many as the right run has
/// where all of it must come first. Whatever `cmp` answers, the items of the
/// range stay the same and nothing outside it moves.
pub fn merge_adjacent<T, F: Fn(&T, &T) -> Ordering>(
    left: (usize, usize),
    right: (usize, usize),
    vec: &mut Vec<T>,
    cmp: &F,
) -> (r: ((usize, usize), usize))
    requires
        callable(*cmp),
        left.1 == right.0,
        left.0 < left.1 < right.1 <= old(vec).len(),
        forall|ord: spec_fn(T, T) -> Ordering|
            #[trigger] follows(*cmp, ord) ==> sorted_between(ord, old(vec)@, left.0 as int, left.1 as int)
                && sorted_between(ord, old(vec)@, right.0 as int, right.1 as int),
    ensures
        r.0 == (left.0, right.1),
        r.1 < right.1 - left.0,
        final(vec).len() == old(vec).len(),
        final(vec)@.to_multiset() == old(vec)@.to_multiset(),
        forall|k: int|
            0 <= k < final(vec).len() && !(left.0 <= k < right.1) ==> #[trigger] final(vec)@[k]
                == old(vec)@[k],
        forall|ord: spec_fn(T, T) -> Ordering|
            #[trigger] follows(*cmp, ord) ==> sorted_between(ord, final(vec)@, left.0 as int, right.1 as int)
                && forall|e: T|
                #[trigger] ties_of(ord, final(vec)@.subrange(left.0 as int, right.1 as int), e)
                    == ties_of(ord, old(vec)@.subrange(left.0 as int, right.1 as int), e),
        forall|ord: spec_fn(T, T) -> Ordering|
            #[trigger] follows(*cmp, ord) ==> {
                &&& leads(ord, old(vec)@[left.1 - 1], old(vec)@[left.1 as int]) ==> final(vec)@ == old(vec)@
                    && r.1 == left.1 - left.0
                &&& ord(old(vec)@[left.0 as int], old(vec)@[right.1 - 1]) == Ordering::Less ==> r.1
                    == right.1 - right.0
            },
{
    broadcast use vstd::seq_lib::to_multiset_remove;
    broadcast use vstd::seq_lib::to_multiset_insert;
    broadcast use vstd::seq_lib::to_multiset_contains;
    broadcast use vstd::multiset::group_multiset_axioms;

    let ghost s0 = vec@;
    let (l0, l1) = left;
    let rb = right.1;
    let mut lt = l0;
    let mut rt = l1;
    let mut queries: usize = 0;
    proof {
        assert forall|ord: spec_fn(T, T) -> Ordering| #[trigger] follows(*cmp, ord) implies merge_state(
            ord,
            s0,
            vec@,
            l0 as int,
            l1 as int,
            lt as int,
            rt as int,
            rb as int,
        ) by {
            reveal(merge_state);
            assert(vec@.subrange(l0 as int, l0 as int) =~= Seq::<T>::empty());
            assert(s0.subrange(l1 as int, l1 as int) =~= Seq::<T>::empty());
            assert(s0.subrange(l0 as int, l0 as int) =~= Seq::<T>::empty());
            assert forall|e: T| #[trigger] ties_of(ord, Seq::<T>::empty(), e) == Seq::<T>::empty() by {
                lemma_no_ties(ord, Seq::<T>::empty(), e);
            }
            assert(Seq::<T>::empty() + Seq::<T>::empty() =~= Seq::<T>::empty());
        }
        assert(vec@ == s0);
    }
    while lt < rt && rt < rb
        invariant
            callable(*cmp),
            merge_layout(s0, vec@, l0 as int, l1 as int, lt as int, rt as int, rb as int),
            queries == lt - l0,
            vec@.to_multiset() == s0.to_multiset(),
            forall|k: int|
                0 <= k < vec.len() && !(l0 <= k < rb) ==> #[trigger] vec@[k] == s0[k],
            forall|ord: spec_fn(T, T) -> Ordering|
                #[trigger] follows(*cmp, ord) ==> merge_state(
                    ord,
                    s0,
                    vec@,
                    l0 as int,
                    l1 as int,
                    lt as int,
                    rt as int,
                    rb as int,
                ) && count_facts(ord, s0, vec@, l0 as int, l1 as int, lt as int, rt as int, rb as int),
        decreases rb - lt,
    {
        let c = cmp(&vec[lt], &vec[rt]);
        queries += 1;
        let ghost v = vec@;
        match c {
            Ordering::Less => {
                proof {
                    assert(v.contains(v[rt as int]));
                }
                let x = vec.remove(rt);
                vec.insert(lt, x);
                proof {
                    let w = vec@;
                    let m = v.to_multiset();
                    assert(w == v.remove(rt as int).insert(lt as int, x));
                    assert(x == v[rt as int]);
                    vstd::seq_lib::to_multiset_remove(v, rt as int);
                    vstd::seq_lib::to_multiset_insert(v.remove(rt as int), lt as int, x);
                    assert(w.to_multiset() == m.remove(x).insert(x));
                    vstd::seq_lib::to_multiset_contains(v, x);
                    assert(m.count(x) > 0);
                    assert(w.to_multiset() =~= m);
                    assert(w[lt as int] == v[rt as int]);
                    assert forall|k: int| lt < k <= rt implies #[trigger] w[k] == v[k - 1] by {}
                    assert forall|k: int| rt < k < w.len() implies #[trigger] w[k] == v[k] by {}
                    assert forall|k: int| 0 <= k < lt implies #[trigger] w[k] == v[k] by {}
                    assert(merge_layout(s0, w, l0 as int, l1 as int, lt + 1, rt + 1, rb as int));
                    assert forall|ord: spec_fn(T, T) -> Ordering| #[trigger] follows(*cmp, ord) implies merge_state(
                        ord,
                        s0,
                        w,
                        l0 as int,
                        l1 as int,
                        lt + 1,
                        rt + 1,
                        rb as int,
                    ) && count_facts(ord, s0, w, l0 as int, l1 as int, lt + 1, rt + 1, rb as int) by {
                        assert(c == ord(v[lt as int], v[rt as int]));
                        lemma_take_right(ord, s0, v, w, l0 as int, l1 as int, lt as int, rt as int, rb as int);
                        lemma_count_step(ord, s0, v, l0 as int, l1 as int, lt as int, rt as int, rb as int, c);
                    }
                }
                lt += 1;
                rt += 1;
            },
            _ => {
                proof {
                    assert forall|ord: spec_fn(T, T) -> Ordering| #[trigger] follows(*cmp, ord) implies merge_state(
                        ord,
                        s0,
                        v,
                        l0 as int,
                        l1 as int,
                        lt + 1,
                        rt as int,
                        rb as int,
                    ) && count_facts(ord, s0, v, l0 as int, l1 as int, lt + 1, rt as int, rb as int) by {
                        assert(c == ord(v[lt as int], v[rt as int]));
                        lemma_take_left(ord, s0, v, l0 as int, l1 as int, lt as int, rt as int, rb as int);
                        lemma_count_step(ord, s0, v, l0 as int, l1 as int, lt as int, rt as int, rb as int, c);
                    }
                }
                lt += 1;
            },
        }
    }
    proof {
        assert forall|ord: spec_fn(T, T) -> Ordering| #[trigger] follows(*cmp, ord) implies sorted_between(ord, vec@, l0 as int, rb as int)
            && forall|e: T|
            #[trigger] ties_of(ord, vec@.subrange(l0 as int, rb as int), e)
                == ties_of(ord, s0.subrange(l0 as int, rb as int), e) by {
            lemma_merge_done(ord, s0, vec@, l0 as int, l1 as int, lt as int, rt as int, rb as int);
        }
        assert forall|ord: spec_fn(T, T) -> Ordering| #[trigger] follows(*cmp, ord) implies {
            &&& leads(ord, s0[l1 - 1], s0[l1 as int]) ==> vec@ == s0 && queries == l1 - l0
            &&& ord(s0[l0 as int], s0[rb - 1]) == Ordering::Less ==> queries == rb - l1
        } by {
            assert(count_facts(ord, s0, vec@, l0 as int, l1 as int, lt as int, rt as int, rb as int));
        }
    }
    ((l0, rb), queries)
}

/// A range keeps its order where none of its items moved.
proof fn lemma_sorted_kept<T>(ord: spec_fn(T, T) -> Ordering,
    v: Seq<T>,
    w: Seq<T>,
    lo: int,
    hi: int,
)
    requires
        sorted_between(ord, v, lo, hi),
        forall|i: int| lo <= i < hi ==> #[trigger] w[i] == v[i],
    ensures
        sorted_between(ord, w, lo, hi),
{
    assert forall|i: int, j: int| lo <= i < j < hi implies #[trigger] leads(ord, w[i], w[j]) by {
        assert(leads(ord, v[i], v[j]));
    }
}

/// Runs `from..to` of `runs` are each sorted in `s` under `ord`.
#[verifier::opaque]
pub open spec fn runs_sorted<T>(
    ord: spec_fn(T, T) -> Ordering,
    s: Seq<T>,
    runs: Seq<(usize, usize)>,
    from: int,
    to: int,
) -> bool {
    forall|q: int| from <= q < to ==> sorted_between(ord, s, (#[trigger] runs[q]).0 as int, runs[q].1 as int)
}

proof fn lemma_pass_step<T>(
    ord: spec_fn(T, T) -> Ordering,
    s0: Seq<T>,
    v: Seq<T>,
    w: Seq<T>,
    runs: Seq<(usize, usize)>,
    nx: Seq<(usize, usize)>,
    next: Seq<(usize, usize)>,
    k: int,
)
    requires
        tiles(runs, 0, v.len() as int),
        0 <= k,
        k + 1 < runs.len(),
        tiles(nx, 0, runs[k].0 as int),
        runs_sorted(ord, v, nx, 0, nx.len() as int),
        runs_sorted(ord, v, runs, k, runs.len() as int),
        keeps_ties(ord, s0, v),
        w.len() == v.len(),
        forall|i: int| 0 <= i < w.len() && !(runs[k].0 <= i < runs[k + 1].1) ==> #[trigger] w[i] == v[i],
        sorted_between(ord, w, runs[k].0 as int, runs[k + 1].1 as int),
        forall|e: T|
            #[trigger] ties_of(ord, w.subrange(runs[k].0 as int, runs[k + 1].1 as int), e) == ties_of(
                ord,
                v.subrange(runs[k].0 as int, runs[k + 1].1 as int),
                e,
            ),
        next == nx.push((runs[k].0, runs[k + 1].1)),
    ensures
        runs_sorted(ord, w, next, 0, next.len() as int),
        runs_sorted(ord, w, runs, k + 2, runs.len() as int),
        keeps_ties(ord, s0, w),
{
    reveal(runs_sorted);
    let lo = runs[k].0 as int;
    let hi = runs[k + 1].1 as int;
    lemma_ties_local(ord, v, w, lo, hi);
    assert forall|e: T| #[trigger] ties_of(ord, w, e) == ties_of(ord, s0, e) by {
        assert(ties_of(ord, w, e) == ties_of(ord, v, e));
    }
    assert forall|q: int| 0 <= q < next.len() implies sorted_between(
        ord,
        w,
        (#[trigger] next[q]).0 as int,
        next[q].1 as int,
    ) by {
        if q < nx.len() {
            assert(next[q] == nx[q]);
            lemma_sorted_kept(ord, v, w, nx[q].0 as int, nx[q].1 as int);
        }
    }
    assert forall|q: int| k + 2 <= q < runs.len() implies sorted_between(
        ord,
        w,
        (#[trigger] runs[q]).0 as int,
        runs[q].1 as int,
    ) by {
        lemma_tiles_ordered(runs, 0, v.len() as int, k + 1, q);
        lemma_sorted_kept(ord, v, w, runs[q].0 as int, runs[q].1 as int);
    }
}

/// One pass: merges the runs two by two, in order; an odd run out is kept.
#[verifier::rlimit(40)]
fn merge_pass<T, F: Fn(&T, &T) -> Ordering>(
    runs: &Vec<(usize, usize)>,
    vec: &mut Vec<T>,
    cmp: &F,
) -> (next: Vec<(usize, usize)>)
    requires
        callable(*cmp),
        runs.len() > 1,
        tiles(runs@, 0, old(vec).len() as int),
        forall|ord: spec_fn(T, T) -> Ordering|
            #[trigger] follows(*cmp, ord) ==> runs_sorted(ord, old(vec)@, runs@, 0, runs.len() as int),
    ensures
        final(vec).len() == old(vec).len(),
        final(vec)@.to_multiset() == old(vec)@.to_multiset(),
        next.len() < runs.len(),
        tiles(next@, 0, old(vec).len() as int),
        forall|ord: spec_fn(T, T) -> Ordering|
            #[trigger] follows(*cmp, ord) ==> runs_sorted(ord, final(vec)@, next@, 0, next.len() as int)
                && keeps_ties(ord, old(vec)@, final(vec)@),
{
    let ghost s0 = vec@;
    let n = vec.len();
    let mut next: Vec<(usize, usize)> = Vec::new();
    let mut k: usize = 0;
    proof {
        reveal(runs_sorted);
    }
    while k < runs.len()
        invariant
            callable(*cmp),
            n == s0.len(),
            vec.len() == n,
            vec@.to_multiset() == s0.to_multiset(),
            tiles(runs@, 0, n as int),
            runs.len() > 1,
            k <= runs.len(),
            2 * next.len() == k || (2 * next.len() == k + 1 && k == runs.len()),
            tiles(next@, 0, if k < runs.len() { runs[k as int].0 as int } else { n as int }),
            forall|ord: spec_fn(T, T) -> Ordering|
                #[trigger] follows(*cmp, ord) ==> runs_sorted(ord, vec@, next@, 0, next.len() as int)
                    && runs_sorted(ord, vec@, runs@, k as int, runs.len() as int) && keeps_ties(
                    ord,
                    s0,
                    vec@,
                ),
        decreases runs.len() - k,
    {
        if k + 1 < runs.len() {
            let ghost v = vec@;
            let ghost nx = next@;
            let left = runs[k];
            let right = runs[k + 1];
            assert(left.1 == right.0);
            proof {
                assert forall|ord: spec_fn(T, T) -> Ordering| #[trigger] follows(*cmp, ord) implies sorted_between(ord, v, left.0 as int, left.1 as int)
                    && sorted_between(ord, v, right.0 as int, right.1 as int) by {
                    reveal(runs_sorted);
                    assert(runs@[k as int] == left);
                    assert(runs@[k + 1] == right);
                }
            }
            let (merged, _) = merge_adjacent(left, right, vec, cmp);
            next.push(merged);
            proof {
                let w = vec@;
                if k + 2 < runs.len() {
                    assert(runs[k + 1].1 == runs[k + 2].0);
                }
                assert forall|ord: spec_fn(T, T) -> Ordering| #[trigger] follows(*cmp, ord) implies runs_sorted(ord, w, next@, 0, next.len() as int)
                    && runs_sorted(ord, w, runs@, k + 2, runs.len() as int) && keeps_ties(ord, s0, w) by {
                    lemma_pass_step(ord, s0, v, w, runs@, nx, next@, k as int);
                }
            }
            k += 2;
        } else {
            let ghost nx = next@;
            next.push(runs[k]);
            proof {
                assert forall|ord: spec_fn(T, T) -> Ordering| #[trigger] follows(*cmp, ord) implies runs_sorted(ord, vec@, next@, 0, next.len() as int)
                    && runs_sorted(ord, vec@, runs@, k + 1, runs.len() as int) by {
                    reveal(runs_sorted);
                    assert forall|q: int| 0 <= q < next.len() implies sorted_between(
                        ord,
                        vec@,
                        (#[trigger] next@[q]).0 as int,
                        next@[q].1 as int,
                    ) by {
                        if q < nx.len() {
                            assert(next@[q] == nx[q]);
                        }
                    }
                }
            }
            k += 1;
        }
    }
    next
}

/// Merges neighbouring runs pairwise, pass after pass, until one run covers
/// the whole of `vec`.
pub(crate) fn merge<T, F: Fn(&T, &T) -> Ordering>(
    runs: Vec<(usize, usize)>,
    vec: &mut Vec<T>,
    cmp: &F,
)
    requires
        callable(*cmp),
        tiles(runs@, 0, old(vec).len() as int),
        forall|ord: spec_fn(T, T) -> Ordering|
            #[trigger] follows(*cmp, ord) ==> runs_sorted(ord, old(vec)@, runs@, 0, runs.len() as int),
    ensures
        final(vec).len() == old(vec).len(),
        final(vec)@.to_multiset() == old(vec)@.to_multiset(),
        runs.len() <= 1 ==> final(vec)@ == old(vec)@,
        forall|ord: spec_fn(T, T) -> Ordering|
            #[trigger] follows(*cmp, ord) ==> is_sorted(ord, final(vec)@) && keeps_ties(
                ord,
                old(vec)@,
                final(vec)@,
            ),
{
    let ghost s0 = vec@;
    let ghost initial = runs.len();
    let n = vec.len();
    let mut runs = runs;
    while runs.len() > 1
        invariant
            callable(*cmp),
            initial <= 1 ==> runs.len() == initial && vec@ == s0,
            n == s0.len(),
            vec.len() == n,
            vec@.to_multiset() == s0.to_multiset(),
            tiles(runs@, 0, n as int),
            forall|ord: spec_fn(T, T) -> Ordering|
                #[trigger] follows(*cmp, ord) ==> runs_sorted(ord, vec@, runs@, 0, runs.len() as int)
                    && keeps_ties(ord, s0, vec@),
        decreases runs.len(),
    {
        let ghost v = vec@;
        runs = merge_pass(&runs, vec, cmp);
        proof {
            assert forall|ord: spec_fn(T, T) -> Ordering| #[trigger] follows(*cmp, ord) implies keeps_ties(ord, s0, vec@) by {
                assert forall|e: T| #[trigger] ties_of(ord, vec@, e) == ties_of(ord, s0, e) by {
                    assert(ties_of(ord, vec@, e) == ties_of(ord, v, e));
                }
            }
        }
    }
    proof {
        assert forall|ord: spec_fn(T, T) -> Ordering| #[trigger] follows(*cmp, ord) implies is_sorted(ord, vec@) by {
            reveal(runs_sorted);
            if runs.len() == 1 {
                assert(sorted_between(ord, vec@, runs[0].0 as int, runs[0].1 as int));
            }
        }
    }
}

} // verus!

use core::cmp::Ordering;
use vstd::prelude::*;

verus! {

/// The answer for `(b, a)` when `o` is the answer for `(a, b)`.
pub open spec fn flip(o: Ordering) -> Ordering {
    match o {
        Ordering::Less => Ordering::Greater,
        Ordering::Equal => Ordering::Equal,
        Ordering::Greater => Ordering::Less,
    }
}

/// `a` may stand before `b`: the order does not ask for `b` to come first.
pub open spec fn leads<T>(ord: spec_fn(T, T) -> Ordering, a: T, b: T) -> bool {
    ord(a, b) != Ordering::Less
}

/// `ord` answers `(b, a)` with the reverse of `(a, b)`, and `leads` is
/// transitive: a total preorder, read as "may stand before".
#[verifier::opaque]
pub open spec fn order_laws<T>(ord: spec_fn(T, T) -> Ordering) -> bool {
    &&& forall|a: T, b: T| #[trigger] ord(a, b) == flip(ord(b, a))
    &&& forall|a: T, b: T, c: T|
        #[trigger] leads(ord, a, b) && #[trigger] leads(ord, b, c) ==> leads(ord, a, c)
}

/// `cmp` can be called on any pair.
pub open spec fn callable<T, F: Fn(&T, &T) -> Ordering>(cmp: F) -> bool {
    forall|a: &T, b: &T| #[trigger] call_requires(cmp, (a, b))
}

/// Each answer that `cmp` gives is the one that `ord` gives, and `ord` is a
/// total preorder.
pub open spec fn follows<T, F: Fn(&T, &T) -> Ordering>(cmp: F, ord: spec_fn(T, T) -> Ordering) -> bool {
    &&& forall|a: &T, b: &T, r: Ordering| #[trigger] call_ensures(cmp, (a, b), r) ==> r == ord(*a, *b)
    &&& order_laws(ord)
}


/// Holds of the items that `ord` finds `Equal` to `e`.
pub open spec fn tied_to<T>(ord: spec_fn(T, T) -> Ordering, e: T) -> spec_fn(T) -> bool {
    |x: T| ord(x, e) == Ordering::Equal
}

/// The items of `s` that `ord` finds `Equal` to `e`, in their order in `s`.
pub open spec fn ties_of<T>(ord: spec_fn(T, T) -> Ordering, s: Seq<T>, e: T) -> Seq<T> {
    s.filter(tied_to(ord, e))
}

/// `t` holds the items that `ord` finds equal in the same relative order as
/// `s` does: the order is stable.
pub open spec fn keeps_ties<T>(ord: spec_fn(T, T) -> Ordering, s: Seq<T>, t: Seq<T>) -> bool {
    forall|e: T| #[trigger] ties_of(ord, t, e) == ties_of(ord, s, e)
}

/// Every item of `s[lo..hi]` may stand before every later one.
pub open spec fn sorted_between<T>(ord: spec_fn(T, T) -> Ordering,
    s: Seq<T>,
    lo: int,
    hi: int,
) -> bool {
    forall|i: int, j: int| lo <= i < j < hi ==> #[trigger] leads(ord, s[i], s[j])
}

/// `s` is in the order that `ord` asks for.
pub open spec fn is_sorted<T>(ord: spec_fn(T, T) -> Ordering, s: Seq<T>) -> bool {
    sorted_between(ord, s, 0, s.len() as int)
}

/// Where each item may stand before its right neighbour, the range is sorted.
pub proof fn lemma_chain_sorted<T>(ord: spec_fn(T, T) -> Ordering,
    s: Seq<T>,
    lo: int,
    hi: int,
)
    requires
        order_laws(ord),
        0 <= lo,
        hi <= s.len(),
        forall|k: int| lo <= k < hi - 1 ==> #[trigger] leads(ord, s[k], s[k + 1]),
    ensures
        sorted_between(ord, s, lo, hi),
    decreases hi - lo,
{
    reveal(order_laws);
    if hi - lo >= 2 {
        lemma_chain_sorted(ord, s, lo, hi - 1);
        assert forall|i: int, j: int| lo <= i < j < hi implies #[trigger] leads(ord, s[i], s[j]) by {
            if j == hi - 1 && i < hi - 2 {
                assert(leads(ord, s[i], s[hi - 2]));
                assert(leads(ord, s[hi - 2], s[(hi - 2) + 1]));
            }
        }
    }
}

/// No two items of `s[lo..hi]` at different places are tied.
pub open spec fn untied_between<T>(ord: spec_fn(T, T) -> Ordering,
    s: Seq<T>,
    lo: int,
    hi: int,
) -> bool {
    forall|i: int, j: int| lo <= i < hi && lo <= j < hi && i != j ==> #[trigger] ord(s[i], s[j]) != Ordering::Equal
}

/// Two items tied to the same item are tied to each other.
pub proof fn lemma_ties_meet<T>(ord: spec_fn(T, T) -> Ordering, y: T, z: T, e: T)
    requires
        order_laws(ord),
        ord(y, e) == Ordering::Equal,
        ord(z, e) == Ordering::Equal,
    ensures
        ord(y, z) == Ordering::Equal,
{
    reveal(order_laws);
    assert(ord(e, z) == flip(ord(z, e)));
    assert(ord(e, y) == flip(ord(y, e)));
    assert(leads(ord, y, e) && leads(ord, e, z));
    assert(leads(ord, z, e) && leads(ord, e, y));
    assert(ord(y, z) == flip(ord(z, y)));
}

/// No item of `s` is tied to `e`, so none is kept.
pub proof fn lemma_no_ties<T>(ord: spec_fn(T, T) -> Ordering, s: Seq<T>, e: T)
    requires
        forall|i: int| 0 <= i < s.len() ==> ord(#[trigger] s[i], e) != Ordering::Equal,
    ensures
        ties_of(ord, s, e) == Seq::<T>::empty(),
{
    s.lemma_all_neg_filter_empty(tied_to(ord, e));
    assert(ties_of(ord, s, e) =~= Seq::<T>::empty());
}

/// Where only the item at `i` is tied to `e`, it is all that is kept.
proof fn lemma_single_tie<T>(ord: spec_fn(T, T) -> Ordering, s: Seq<T>, e: T, i: int)
    requires
        0 <= i < s.len(),
        ord(s[i], e) == Ordering::Equal,
        forall|j: int| 0 <= j < s.len() && j != i ==> ord(#[trigger] s[j], e) != Ordering::Equal,
    ensures
        ties_of(ord, s, e) == seq![s[i]],
{
    broadcast use Seq::filter_distributes_over_add;

    let p = tied_to(ord, e);
    let a = s.subrange(0, i);
    let b = s.subrange(i + 1, s.len() as int);
    assert(s =~= a + seq![s[i]] + b);
    assert forall|j: int| 0 <= j < a.len() implies ord(#[trigger] a[j], e) != Ordering::Equal by {
        assert(a[j] == s[j]);
    }
    assert forall|j: int| 0 <= j < b.len() implies ord(#[trigger] b[j], e) != Ordering::Equal by {
        assert(b[j] == s[i + 1 + j]);
    }
    lemma_no_ties(ord, a, e);
    lemma_no_ties(ord, b, e);
    Seq::<T>::empty().lemma_filter_push(s[i], p);
    assert(seq![s[i]] =~= Seq::<T>::empty().push(s[i]));
    assert(Seq::<T>::empty().filter(p) =~= Seq::<T>::empty()) by {
        lemma_no_ties(ord, Seq::<T>::empty(), e);
    }
    assert(ties_of(ord, s, e) =~= a.filter(p) + seq![s[i]].filter(p) + b.filter(p));
}

/// Turning around a range whose items are pairwise untied keeps every tie.
pub proof fn lemma_reverse_untied<T>(ord: spec_fn(T, T) -> Ordering, x: Seq<T>, e: T)
    requires
        order_laws(ord),
        untied_between(ord, x, 0, x.len() as int),
    ensures
        ties_of(ord, x.reverse(), e) == ties_of(ord, x, e),
{
    let r = x.reverse();
    if exists|i: int| 0 <= i < x.len() && ord(#[trigger] x[i], e) == Ordering::Equal {
        let i = choose|i: int| 0 <= i < x.len() && ord(#[trigger] x[i], e) == Ordering::Equal;
        assert forall|j: int| 0 <= j < x.len() && j != i implies ord(#[trigger] x[j], e) != Ordering::Equal by {
            if ord(x[j], e) == Ordering::Equal {
                lemma_ties_meet(ord, x[j], x[i], e);
            }
        }
        let k = x.len() - 1 - i;
        assert(r[k] == x[i]);
        assert forall|j: int| 0 <= j < r.len() && j != k implies ord(#[trigger] r[j], e) != Ordering::Equal by {
            assert(r[j] == x[x.len() - 1 - j]);
        }
        lemma_single_tie(ord, x, e, i);
        lemma_single_tie(ord, r, e, k);
    } else {
        assert forall|j: int| 0 <= j < r.len() implies ord(#[trigger] r[j], e) != Ordering::Equal by {
            assert(r[j] == x[x.len() - 1 - j]);
        }
        lemma_no_ties(ord, x, e);
        lemma_no_ties(ord, r, e);
    }
}

/// Where `w` differs from `v` only inside `[lo, hi)`, and keeps the ties of
/// that range, it keeps the ties of the whole.
pub proof fn lemma_ties_local<T>(ord: spec_fn(T, T) -> Ordering,
    v: Seq<T>,
    w: Seq<T>,
    lo: int,
    hi: int,
)
    requires
        0 <= lo <= hi <= v.len(),
        w.len() == v.len(),
        forall|k: int| 0 <= k < v.len() && !(lo <= k < hi) ==> #[trigger] w[k] == v[k],
        forall|e: T| #[trigger] ties_of(ord, w.subrange(lo, hi), e) == ties_of(ord, v.subrange(lo, hi), e),
    ensures
        keeps_ties(ord, v, w),
{
    broadcast use Seq::filter_distributes_over_add;

    assert(v =~= v.subrange(0, lo) + v.subrange(lo, hi) + v.subrange(hi, v.len() as int));
    assert(w =~= w.subrange(0, lo) + w.subrange(lo, hi) + w.subrange(hi, w.len() as int));
    assert(w.subrange(0, lo) =~= v.subrange(0, lo));
    assert(w.subrange(hi, w.len() as int) =~= v.subrange(hi, v.len() as int));
    assert forall|e: T| #[trigger] ties_of(ord, w, e) == ties_of(ord, v, e) by {
        assert(ties_of(ord, w.subrange(lo, hi), e) == ties_of(ord, v.subrange(lo, hi), e));
    }
}

} // verus!

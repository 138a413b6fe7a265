use core::cmp::Ordering;
use vstd::prelude::*;

use crate::order::flip;

verus! {

/// A remembered answer: the oracle said `.2` of the pair `(.0, .1)`.
pub type Answer = (Seq<char>, Seq<char>, Ordering);

/// The two answers concern the same two items, in either order.
pub open spec fn same_pair(x: Answer, y: Answer) -> bool {
    (x.0 == y.0 && x.1 == y.1) || (x.0 == y.1 && x.1 == y.0)
}

/// No answer is about an item and itself, none is `Equal`, and no two
/// answers concern the same two items.
pub open spec fn is_clean(m: Seq<Answer>) -> bool {
    &&& forall|i: int| 0 <= i < m.len() ==> (#[trigger] m[i]).0 != m[i].1 && m[i].2 != Ordering::Equal
    &&& forall|i: int, j: int|
        0 <= i < m.len() && 0 <= j < m.len() && i != j ==> !same_pair(#[trigger] m[i], #[trigger] m[j])
}

/// The answer stored under the ordered key `(a, b)`, if any.
pub open spec fn stored(m: Seq<Answer>, a: Seq<char>, b: Seq<char>) -> Option<Ordering> {
    if exists|i: int| 0 <= i < m.len() && (#[trigger] m[i]).0 == a && m[i].1 == b {
        let i = choose|i: int| 0 <= i < m.len() && (#[trigger] m[i]).0 == a && m[i].1 == b;
        Some(m[i].2)
    } else {
        None
    }
}

/// What the cache answers for `(a, b)` without asking the oracle: `Equal` for
/// one item with itself, else the reverse of what is stored for `(b, a)`,
/// else what is stored for `(a, b)`, else nothing.
pub open spec fn answer(m: Seq<Answer>, a: Seq<char>, b: Seq<char>) -> Option<Ordering> {
    if a == b {
        Some(Ordering::Equal)
    } else {
        match stored(m, b, a) {
            Some(o) => Some(flip(o)),
            None => stored(m, a, b),
        }
    }
}

/// The answers after the oracle said `o` of `(a, b)`: an answer of the same
/// two items is replaced in its place, else the new one is added at the end.
/// Nothing is kept of an item and itself, nor an `Equal`.
pub open spec fn recorded(m: Seq<Answer>, a: Seq<char>, b: Seq<char>, o: Ordering) -> Seq<Answer> {
    if a == b || o == Ordering::Equal {
        m
    } else if exists|i: int| 0 <= i < m.len() && same_pair(#[trigger] m[i], (a, b, o)) {
        let i = choose|i: int| 0 <= i < m.len() && same_pair(#[trigger] m[i], (a, b, o));
        m.update(i, (a, b, o))
    } else {
        m.push((a, b, o))
    }
}

/// The oracle's answers remembered so far, in the order they were first given.
///
/// The answers are kept in a `Vec` searched from the front rather than in a
/// hash map keyed by the two texts: the contracts need the view of the store
/// and what a lookup returns, which the verifier can prove of a `Vec` and of
/// `String` equality, while for a map keyed by `String`s it proves neither.
/// A human answers at most a few thousand questions, so the linear search
/// costs nothing that matters; the order also fixes the order of the saved
/// lines.
pub struct ComparisonCache {
    entries: Vec<(String, String, Ordering)>,
}

impl View for ComparisonCache {
    type V = Seq<Answer>;

    closed spec fn view(&self) -> Seq<Answer> {
        self.entries@.map_values(|e: (String, String, Ordering)| (e.0@, e.1@, e.2))
    }
}

/// The answer for `(b, a)` when `o` is the answer for `(a, b)`.
pub fn reversed(o: Ordering) -> (r: Ordering)
    ensures
        r == flip(o),
{
    match o {
        Ordering::Less => Ordering::Greater,
        Ordering::Equal => Ordering::Equal,
        Ordering::Greater => Ordering::Less,
    }
}

impl ComparisonCache {
    /// The cache holds no answer twice and none it should not hold.
    pub open spec fn wf(&self) -> bool {
        is_clean(self@)
    }

    /// An empty cache.
    pub fn new() -> (c: Self)
        ensures
            c.wf(),
            c@ == Seq::<Answer>::empty(),
    {
        let c = ComparisonCache { entries: Vec::new() };
        assert(c@ =~= Seq::<Answer>::empty());
        c
    }

    /// The number of remembered answers.
    pub fn len(&self) -> (n: usize)
        ensures
            n == self@.len(),
    {
        self.entries.len()
    }

    /// The remembered answer at `i`, in order of first recording.
    pub fn entry(&self, i: usize) -> (r: (&String, &String, Ordering))
        requires
            i < self@.len(),
        ensures
            (r.0@, r.1@, r.2) == self@[i as int],
    {
        let e = &self.entries[i];
        (&e.0, &e.1, e.2)
    }

    /// Finds the stored answer under the ordered key `(a, b)`.
    fn find(&self, a: &String, b: &String) -> (r: Option<Ordering>)
        requires
            self.wf(),
        ensures
            r == stored(self@, a@, b@),
    {
        let ghost m = self@;
        let mut i: usize = 0;
        while i < self.entries.len()
            invariant
                m == self@,
                is_clean(m),
                i <= m.len(),
                forall|j: int| 0 <= j < i ==> !((#[trigger] m[j]).0 == a@ && m[j].1 == b@),
            decreases self.entries.len() - i,
        {
            let e = &self.entries[i];
            assert(m[i as int] == (e.0@, e.1@, e.2));
            if e.0 == *a && e.1 == *b {
                proof {
                    let k = choose|k: int| 0 <= k < m.len() && (#[trigger] m[k]).0 == a@ && m[k].1 == b@;
                    if k != i {
                        assert(same_pair(m[k], m[i as int]));
                    }
                }
                return Some(e.2);
            }
            i += 1;
        }
        None
    }

    /// Answers `(a, b)` from the cache alone, as `answer` says; `None` means
    /// that the oracle has to be asked.
    pub fn lookup(&self, a: &String, b: &String) -> (r: Option<Ordering>)
        requires
            self.wf(),
        ensures
            r == answer(self@, a@, b@),
    {
        if *a == *b {
            return Some(Ordering::Equal);
        }
        match self.find(b, a) {
            Some(o) => Some(reversed(o)),
            None => self.find(a, b),
        }
    }

    /// Remembers that the oracle said `order` of `(a, b)`.
    pub fn record(&mut self, a: String, b: String, order: Ordering)
        requires
            old(self).wf(),
        ensures
            final(self).wf(),
            final(self)@ == recorded(old(self)@, a@, b@, order),
    {
        let ghost m = self@;
        let ghost e = (a@, b@, order);
        if a == b {
            return;
        }
        if let Ordering::Equal = order {
            return;
        }
        let mut i: usize = 0;
        while i < self.entries.len()
            invariant
                m == self@,
                is_clean(m),
                i <= m.len(),
                e == (a@, b@, order),
                m == old(self)@,
                a@ != b@,
                order != Ordering::Equal,
                forall|j: int| 0 <= j < i ==> !same_pair(#[trigger] m[j], e),
            decreases self.entries.len() - i,
        {
            let found = {
                let x = &self.entries[i];
                assert(m[i as int] == (x.0@, x.1@, x.2));
                (x.0 == a && x.1 == b) || (x.0 == b && x.1 == a)
            };
            if found {
                self.entries.set(i, (a, b, order));
                proof {
                    assert(same_pair(m[i as int], e));
                    let k = choose|k: int| 0 <= k < m.len() && same_pair(#[trigger] m[k], e);
                    if k != i {
                        assert(same_pair(m[k], m[i as int]));
                    }
                    assert(self@ =~= m.update(i as int, e));
                    let n = self@;
                    assert forall|p: int, q: int|
                        0 <= p < n.len() && 0 <= q < n.len() && p != q implies !same_pair(
                        #[trigger] n[p],
                        #[trigger] n[q],
                    ) by {
                        if p != i && q != i {
                            assert(n[p] == m[p] && n[q] == m[q]);
                        } else if p == i {
                            assert(!same_pair(m[q], m[i as int]));
                        } else {
                            assert(!same_pair(m[p], m[i as int]));
                        }
                    }
                }
                return;
            }
            i += 1;
        }
        self.entries.push((a, b, order));
        proof {
            assert(self@ =~= m.push(e));
            let n = self@;
            assert forall|p: int, q: int|
                0 <= p < n.len() && 0 <= q < n.len() && p != q implies !same_pair(
                #[trigger] n[p],
                #[trigger] n[q],
            ) by {
                if p < m.len() && q < m.len() {
                    assert(n[p] == m[p] && n[q] == m[q]);
                }
            }
        }
    }
}

/// Where the cache holds no answer twice, it answers `(b, a)` with the
/// reverse of what it answers for `(a, b)`, and knows one exactly when it
/// knows the other.
pub proof fn lemma_answers_symmetric(m: Seq<Answer>, a: Seq<char>, b: Seq<char>)
    requires
        is_clean(m),
    ensures
        match answer(m, a, b) {
            Some(o) => answer(m, b, a) == Some(flip(o)),
            None => answer(m, b, a) is None,
        },
{
    if a != b && stored(m, b, a) is Some && stored(m, a, b) is Some {
        let i = choose|i: int| 0 <= i < m.len() && (#[trigger] m[i]).0 == b && m[i].1 == a;
        let j = choose|j: int| 0 <= j < m.len() && (#[trigger] m[j]).0 == a && m[j].1 == b;
        assert(same_pair(m[i], m[j]));
    }
}

/// After the oracle's answer `o` for two different items `a` and `b` is
/// recorded, the cache answers `(a, b)` with `o` and `(b, a)` with its
/// reverse, with no further question to the oracle.
pub proof fn lemma_one_resolution_answers_both(m: Seq<Answer>, a: Seq<char>, b: Seq<char>, o: Ordering)
    requires
        is_clean(m),
        a != b,
        o != Ordering::Equal,
    ensures
        answer(recorded(m, a, b, o), a, b) == Some(o),
        answer(recorded(m, a, b, o), b, a) == Some(flip(o)),
{
    let n = recorded(m, a, b, o);
    let e = (a, b, o);
    let k: int = if exists|i: int| 0 <= i < m.len() && same_pair(#[trigger] m[i], e) {
        choose|i: int| 0 <= i < m.len() && same_pair(#[trigger] m[i], e)
    } else {
        m.len() as int
    };
    assert(n[k] == e);
    assert(is_clean(n)) by {
        assert forall|p: int, q: int|
            0 <= p < n.len() && 0 <= q < n.len() && p != q implies !same_pair(
            #[trigger] n[p],
            #[trigger] n[q],
        ) by {
            if p != k && q != k {
                assert(n[p] == m[p] && n[q] == m[q]);
            } else if p == k {
                if q < m.len() && k < m.len() {
                    assert(!same_pair(m[q], m[k]));
                }
            } else {
                if p < m.len() && k < m.len() {
                    assert(!same_pair(m[p], m[k]));
                }
            }
        }
    }
    assert(stored(n, a, b) == Some(o)) by {
        let j = choose|j: int| 0 <= j < n.len() && (#[trigger] n[j]).0 == a && n[j].1 == b;
        if j != k {
            assert(same_pair(n[j], n[k]));
        }
    }
    assert(stored(n, b, a) is None) by {
        if exists|j: int| 0 <= j < n.len() && (#[trigger] n[j]).0 == b && n[j].1 == a {
            let j = choose|j: int| 0 <= j < n.len() && (#[trigger] n[j]).0 == b && n[j].1 == a;
            if j != k {
                assert(same_pair(n[j], n[k]));
            }
        }
    }
    lemma_answers_symmetric(n, a, b);
}

} // verus!

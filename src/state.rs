use core::cmp::Ordering;
use vstd::prelude::*;
use vstd::string::*;

use crate::cache::{is_clean, recorded, same_pair, Answer, ComparisonCache};

verus! {

/// Why a line of a saved state could not be read. `line` counts from 0.
pub enum StateError {
    /// The line holds no `|`, so no ordering field.
    MissingOrdering { line: usize },
    /// The line holds a single `|`, so no second item.
    MissingB { line: usize },
    /// The ordering field is neither `<` nor `>`.
    UnknownOrdering { line: usize, token: String },
}

/// The position of the first `|` at or after `from`, or the length of `s`.
pub open spec fn next_bar(s: Seq<char>, from: int) -> int
    decreases s.len() - from,
{
    if from >= s.len() {
        s.len() as int
    } else if s[from] == '|' {
        from
    } else {
        next_bar(s, from + 1)
    }
}

/// End of the first field of a line.
pub open spec fn first_cut(s: Seq<char>) -> int {
    next_bar(s, 0)
}

/// End of the ordering field of a line.
pub open spec fn second_cut(s: Seq<char>) -> int {
    next_bar(s, first_cut(s) + 1)
}

/// The ordering field of a line that has one.
pub open spec fn ordering_field(s: Seq<char>) -> Seq<char> {
    s.subrange(first_cut(s) + 1, second_cut(s))
}

/// The answer that a line of the form `a|<|b` or `a|>|b` records; fields past
/// the third are ignored.
pub open spec fn line_answer(s: Seq<char>) -> Option<Answer> {
    let p = first_cut(s);
    let q = second_cut(s);
    if p < s.len() && q < s.len() {
        let a = s.subrange(0, p);
        let b = s.subrange(q + 1, next_bar(s, q + 1));
        if ordering_field(s) == seq!['<'] {
            Some((a, b, Ordering::Less))
        } else if ordering_field(s) == seq!['>'] {
            Some((a, b, Ordering::Greater))
        } else {
            None
        }
    } else {
        None
    }
}

/// `e` is the error for line `i`, whose text is `s`.
pub open spec fn describes(e: StateError, i: int, s: Seq<char>) -> bool {
    match e {
        StateError::MissingOrdering { line } => line == i && first_cut(s) == s.len(),
        StateError::MissingB { line } => line == i && first_cut(s) < s.len() && second_cut(s)
            == s.len(),
        StateError::UnknownOrdering { line, token } => line == i && first_cut(s) < s.len()
            && second_cut(s) < s.len() && token@ == ordering_field(s) && line_answer(s) is None,
    }
}

/// The answers that a saved state holds once every line is read in order,
/// each recorded as the oracle's answer would be.
pub open spec fn replay(lines: Seq<Seq<char>>) -> Seq<Answer>
    decreases lines.len(),
{
    if lines.len() == 0 {
        Seq::empty()
    } else {
        let m = replay(lines.drop_last());
        match line_answer(lines.last()) {
            Some(x) => recorded(m, x.0, x.1, x.2),
            None => m,
        }
    }
}

/// The line that saves one answer: `a|<|b` for `Less`, `a|>|b` otherwise.
///
/// The symbol is the answer of the comparator for `(a, b)`, as the sort reads
/// it: `>` (`Greater`) is what the operator gave by choosing `a`, so `a`
/// comes first in the sorted list; `<` (`Less`) puts `b` first. Files saved
/// by earlier sessions use the same convention.
pub open spec fn render(x: Answer) -> Seq<char> {
    x.0 + seq!['|', if x.2 == Ordering::Less { '<' } else { '>' }, '|'] + x.1
}

/// The item holds no `|`, so that a line can carry it.
pub open spec fn bar_free(s: Seq<char>) -> bool {
    forall|i: int| 0 <= i < s.len() ==> s[i] != '|'
}

proof fn lemma_next_bar(s: Seq<char>, from: int, k: int)
    requires
        0 <= from <= k <= s.len(),
        forall|j: int| from <= j < k ==> s[j] != '|',
        k == s.len() || s[k] == '|',
    ensures
        next_bar(s, from) == k,
    decreases k - from,
{
    if from < k {
        lemma_next_bar(s, from + 1, k);
    }
}

/// A rendered answer reads back as itself.
pub proof fn lemma_line_round_trip(x: Answer)
    requires
        bar_free(x.0),
        bar_free(x.1),
    ensures
        line_answer(render(x)) == Some((x.0, x.1, if x.2 == Ordering::Less { Ordering::Less } else { Ordering::Greater })),
{
    let s = render(x);
    let p = x.0.len() as int;
    let c = if x.2 == Ordering::Less { '<' } else { '>' };
    assert(s[p] == '|');
    assert(s[p + 1] == c);
    assert(s[p + 2] == '|');
    assert forall|j: int| 0 <= j < p implies s[j] != '|' by {
        assert(s[j] == x.0[j]);
    }
    lemma_next_bar(s, 0, p);
    lemma_next_bar(s, p + 1, p + 2);
    assert forall|j: int| p + 3 <= j < s.len() implies s[j] != '|' by {
        assert(s[j] == x.1[j - p - 3]);
    }
    lemma_next_bar(s, p + 3, s.len() as int);
    assert(s.subrange(0, p) =~= x.0);
    assert(s.subrange(p + 3, s.len() as int) =~= x.1);
    assert(first_cut(s) == p);
    assert(second_cut(s) == p + 2);
    assert(ordering_field(s) =~= seq![c]);
    if x.2 != Ordering::Less {
        assert(seq!['>'][0] != seq!['<'][0]);
        assert(ordering_field(s) != seq!['<']);
    }
}

/// Saving the answers of a cache and reading the lines back gives the same
/// answers, in the same order, where no item holds a `|`.
pub proof fn lemma_state_round_trip(m: Seq<Answer>)
    requires
        is_clean(m),
        forall|i: int| 0 <= i < m.len() ==> bar_free((#[trigger] m[i]).0) && bar_free(m[i].1),
    ensures
        forall|i: int| 0 <= i < m.len() ==> line_answer(#[trigger] render(m[i])) == Some(m[i]),
        replay(m.map_values(|x: Answer| render(x))) == m,
    decreases m.len(),
{
    assert forall|i: int| 0 <= i < m.len() implies line_answer(#[trigger] render(m[i])) == Some(m[i]) by {
        lemma_line_round_trip(m[i]);
    }
    let lines = m.map_values(|x: Answer| render(x));
    if m.len() > 0 {
        let prefix = m.drop_last();
        assert(is_clean(prefix)) by {
            assert forall|i: int, j: int|
                0 <= i < prefix.len() && 0 <= j < prefix.len() && i != j implies !same_pair(
                #[trigger] prefix[i],
                #[trigger] prefix[j],
            ) by {
                assert(prefix[i] == m[i] && prefix[j] == m[j]);
            }
        }
        lemma_state_round_trip(prefix);
        assert(lines.drop_last() =~= prefix.map_values(|x: Answer| render(x)));
        let x = m.last();
        assert(line_answer(lines.last()) == Some(x)) by {
            lemma_line_round_trip(x);
        }
        assert forall|i: int| 0 <= i < prefix.len() implies !same_pair(#[trigger] prefix[i], (x.0, x.1, x.2)) by {
            assert(prefix[i] == m[i]);
            assert(!same_pair(m[i], m[m.len() - 1]));
        }
        assert(recorded(prefix, x.0, x.1, x.2) == prefix.push(x));
        assert(prefix.push(x) =~= m);
    } else {
        assert(lines.len() == 0);
        assert(m =~= Seq::<Answer>::empty());
    }
}

/// The saved form of the cache: one line per answer, in order.
pub fn state_lines(cache: &ComparisonCache) -> (lines: Vec<String>)
    requires
        cache.wf(),
    ensures
        lines@.map_values(|l: String| l@) == cache@.map_values(|x: Answer| render(x)),
{
    let mut lines: Vec<String> = Vec::new();
    let mut i: usize = 0;
    while i < cache.len()
        invariant
            cache.wf(),
            i <= cache@.len(),
            lines.len() == i,
            forall|k: int| 0 <= k < i ==> #[trigger] lines[k]@ == render(cache@[k]),
        decreases cache@.len() - i,
    {
        let (a, b, o) = cache.entry(i);
        let mut line = a.clone();
        match o {
            Ordering::Less => {
                line.append("|<|");
                proof {
                    reveal_strlit("|<|");
                }
            },
            _ => {
                line.append("|>|");
                proof {
                    reveal_strlit("|>|");
                }
            },
        }
        line.append(b.as_str());
        assert(line@ =~= render(cache@[i as int]));
        lines.push(line);
        i += 1;
    }
    assert(lines@.map_values(|l: String| l@) =~= cache@.map_values(|x: Answer| render(x)));
    lines
}

/// The position of the first `|` in `s` at or after `from`, or the length.
fn find_bar(s: &str, n: usize, from: usize) -> (r: usize)
    requires
        n == s@.len(),
        from <= n,
    ensures
        from <= r <= n,
        r == next_bar(s@, from as int),
{
    let mut j = from;
    while j < n && s.get_char(j) != '|'
        invariant
            n == s@.len(),
            from <= j <= n,
            forall|k: int| from <= k < j ==> s@[k] != '|',
        decreases n - j,
    {
        j += 1;
    }
    proof {
        lemma_next_bar(s@, from as int, j as int);
    }
    j
}

/// Reads line `i` of a saved state, with text `line`.
fn read_state_line(line: &String, i: usize) -> (r: Result<(String, String, Ordering), StateError>)
    ensures
        match r {
            Ok(x) => line_answer(line@) == Some((x.0@, x.1@, x.2)),
            Err(e) => describes(e, i as int, line@) && line_answer(line@) is None,
        },
{
    let s = line.as_str();
    let n = s.unicode_len();
    let p = find_bar(s, n, 0);
    if p == n {
        return Err(StateError::MissingOrdering { line: i });
    }
    let q = find_bar(s, n, p + 1);
    if q == n {
        return Err(StateError::MissingB { line: i });
    }
    let r = find_bar(s, n, q + 1);
    let a = s.substring_char(0, p).to_owned();
    let b = s.substring_char(q + 1, r).to_owned();
    let field = s.substring_char(p + 1, q);
    let ghost f = ordering_field(s@);
    assert(field@ == f);
    let one = q == p + 2;
    if one && s.get_char(p + 1) == '<' {
        assert(f =~= seq!['<']);
        Ok((a, b, Ordering::Less))
    } else if one && s.get_char(p + 1) == '>' {
        assert(f =~= seq!['>']);
        assert(f != seq!['<']) by {
            assert(f[0] != seq!['<'][0]);
        }
        Ok((a, b, Ordering::Greater))
    } else {
        proof {
            if f == seq!['<'] || f == seq!['>'] {
                assert(f.len() == 1);
                assert(f[0] == s@[p + 1]);
            }
        }
        Err(StateError::UnknownOrdering { line: i, token: field.to_owned() })
    }
}

/// Reads a saved state, line by line, into a new cache. The first line that
/// cannot be read stops the reading with its error.
pub fn parse_state_lines(lines: &Vec<String>) -> (r: Result<ComparisonCache, StateError>)
    ensures
        match r {
            Ok(c) => c.wf() && (forall|i: int|
                0 <= i < lines.len() ==> line_answer(#[trigger] lines[i]@) is Some) && c@ == replay(
                lines@.map_values(|l: String| l@),
            ),
            Err(e) => exists|i: int|
                0 <= i < lines.len() && (forall|j: int|
                    0 <= j < i ==> line_answer(#[trigger] lines[j]@) is Some) && describes(
                    e,
                    i,
                    lines[i]@,
                ),
        },
{
    let ghost texts = lines@.map_values(|l: String| l@);
    let mut cache = ComparisonCache::new();
    let mut i: usize = 0;
    while i < lines.len()
        invariant
            texts == lines@.map_values(|l: String| l@),
            i <= lines.len(),
            cache.wf(),
            forall|j: int| 0 <= j < i ==> line_answer(#[trigger] lines[j]@) is Some,
            cache@ == replay(texts.take(i as int)),
        decreases lines.len() - i,
    {
        match read_state_line(&lines[i], i) {
            Ok(x) => {
                let (a, b, o) = x;
                proof {
                    assert(texts.take(i + 1).drop_last() =~= texts.take(i as int));
                    assert(texts.take(i + 1).last() == lines[i as int]@);
                }
                cache.record(a, b, o);
            },
            Err(e) => {
                return Err(e);
            },
        }
        i += 1;
    }
    assert(texts.take(i as int) =~= texts);
    Ok(cache)
}

} // verus!

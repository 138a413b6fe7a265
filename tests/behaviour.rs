use std::cell::Cell;
use std::cmp::Ordering;

use a_b_list_sorter::reply::{parse_reply, read_reply, Reply};
use a_b_list_sorter::runs::unify_order_of_runs;
use a_b_list_sorter::state::{parse_state_lines, state_lines, StateError};
use a_b_list_sorter::{get_merge_sort_runs, get_runs, merge_adjacent, merge_sort, sort, ComparisonCache};

fn s(text: &str) -> String {
    text.to_string()
}

#[test]
fn descending_oracle_puts_smallest_first() {
    let mut v = vec![2, 6, 10, 11, 3, 5, 7, 9];
    sort(&mut v, |a, b| b.cmp(a));
    assert_eq!(v, vec![2, 3, 5, 6, 7, 9, 10, 11]);
}

#[test]
fn ascending_oracle_puts_largest_first() {
    let mut v = vec![4, 3, 2, 1, 6, 5];
    sort(&mut v, |a, b| a.cmp(b));
    assert_eq!(v, vec![6, 5, 4, 3, 2, 1]);
}

#[test]
fn all_equal_gives_one_run_and_no_change() {
    let mut v = vec![1, 2, 1, 2, 1, 2, 1, 2];
    let runs = get_runs(&v, &|_: &i32, _: &i32| Ordering::Equal);
    assert_eq!(runs, vec![(0, 8)]);
    let calls = Cell::new(0);
    sort(&mut v, |_, _| {
        calls.set(calls.get() + 1);
        Ordering::Equal
    });
    assert_eq!(v, vec![1, 2, 1, 2, 1, 2, 1, 2]);
    assert_eq!(calls.get(), 7);
}

#[test]
fn runs_of_empty_and_single() {
    let empty: Vec<i32> = Vec::new();
    assert_eq!(get_runs(&empty, &|a: &i32, b: &i32| a.cmp(b)), vec![]);
    assert_eq!(get_runs(&vec![7], &|a: &i32, b: &i32| a.cmp(b)), vec![(0, 1)]);
    assert_eq!(get_merge_sort_runs(&vec![1, 2, 3], &|a: &i32, b: &i32| a.cmp(b)), vec![(0, 2), (2, 3)]);
}

#[test]
fn runs_break_where_the_direction_turns() {
    let v = vec![1, 2, 3, 2, 1, 1, 5];
    let runs = get_runs(&v, &|a: &i32, b: &i32| a.cmp(b));
    assert_eq!(runs, vec![(0, 3), (3, 6), (6, 7)]);
}

#[test]
fn sorted_input_is_left_alone_with_one_sweep() {
    let mut v = vec![1, 2, 2, 3, 8, 9];
    let calls = Cell::new(0);
    sort(&mut v, |a, b| {
        calls.set(calls.get() + 1);
        b.cmp(a)
    });
    assert_eq!(v, vec![1, 2, 2, 3, 8, 9]);
    assert_eq!(calls.get(), 5);
}

#[test]
fn sort_of_empty_and_single() {
    let mut e: Vec<i32> = Vec::new();
    sort(&mut e, |a, b| a.cmp(b));
    assert!(e.is_empty());
    let mut one = vec![5];
    merge_sort(&mut one, |a, b| a.cmp(b));
    assert_eq!(one, vec![5]);
}

#[test]
fn sort_is_stable_on_keys() {
    let mut v = vec![(1, 'a'), (0, 'b'), (1, 'c'), (0, 'd'), (1, 'e')];
    merge_sort(&mut v, |x, y| y.0.cmp(&x.0));
    assert_eq!(v, vec![(0, 'b'), (0, 'd'), (1, 'a'), (1, 'c'), (1, 'e')]);
}

#[test]
fn merge_adjacent_asks_fewer_than_the_items() {
    let mut v = vec![1, 3, 5, 2, 4, 6];
    let calls = Cell::new(0);
    let cmp = |a: &i32, b: &i32| {
        calls.set(calls.get() + 1);
        b.cmp(a)
    };
    let (merged, queries) = merge_adjacent((0, 3), (3, 6), &mut v, &cmp);
    assert_eq!(merged, (0, 6));
    assert_eq!(v, vec![1, 2, 3, 4, 5, 6]);
    assert_eq!(queries, calls.get());
    assert!(queries <= 5);
    assert_eq!(queries, 5);
}

#[test]
fn merge_adjacent_stops_when_left_is_used_up() {
    let mut v = vec![1, 2, 3, 4];
    let (merged, queries) = merge_adjacent((0, 2), (2, 4), &mut v, &|a: &i32, b: &i32| b.cmp(a));
    assert_eq!(merged, (0, 4));
    assert_eq!(v, vec![1, 2, 3, 4]);
    assert_eq!(queries, 2);
}

#[test]
fn cache_answers_equal_items_without_a_record() {
    let c = ComparisonCache::new();
    assert_eq!(c.lookup(&s("x"), &s("x")), Some(Ordering::Equal));
    assert_eq!(c.lookup(&s("x"), &s("y")), None);
}

#[test]
fn cache_answers_both_directions_after_one_answer() {
    let mut c = ComparisonCache::new();
    c.record(s("apple"), s("banana"), Ordering::Less);
    assert_eq!(c.lookup(&s("apple"), &s("banana")), Some(Ordering::Less));
    assert_eq!(c.lookup(&s("banana"), &s("apple")), Some(Ordering::Greater));
    assert_eq!(c.len(), 1);
}

#[test]
fn cache_keeps_one_answer_per_pair() {
    let mut c = ComparisonCache::new();
    c.record(s("apple"), s("banana"), Ordering::Less);
    c.record(s("banana"), s("apple"), Ordering::Less);
    assert_eq!(c.len(), 1);
    assert_eq!(c.lookup(&s("apple"), &s("banana")), Some(Ordering::Greater));
    c.record(s("apple"), s("apple"), Ordering::Less);
    c.record(s("x"), s("y"), Ordering::Equal);
    assert_eq!(c.len(), 1);
}

#[test]
fn state_round_trip() {
    let mut c = ComparisonCache::new();
    c.record(s("apple"), s("banana"), Ordering::Less);
    c.record(s("cherry"), s("apple"), Ordering::Greater);
    let lines = state_lines(&c);
    assert_eq!(lines, vec![s("apple|<|banana"), s("cherry|>|apple")]);
    let back = parse_state_lines(&lines).ok().unwrap();
    assert_eq!(back.len(), 2);
    assert_eq!(back.lookup(&s("banana"), &s("apple")), Some(Ordering::Greater));
    assert_eq!(back.lookup(&s("apple"), &s("cherry")), Some(Ordering::Less));
}

#[test]
fn state_agreeing_lines_keep_the_later_one() {
    let lines = vec![s("apple|<|banana"), s("banana|>|apple")];
    let c = parse_state_lines(&lines).ok().unwrap();
    assert_eq!(c.len(), 1);
    assert_eq!(state_lines(&c), vec![s("banana|>|apple")]);
    assert_eq!(c.lookup(&s("apple"), &s("banana")), Some(Ordering::Less));
}

#[test]
fn state_contradicting_lines_the_later_one_wins() {
    let lines = vec![s("apple|<|banana"), s("banana|<|apple")];
    let c = parse_state_lines(&lines).ok().unwrap();
    assert_eq!(c.len(), 1);
    assert_eq!(c.lookup(&s("apple"), &s("banana")), Some(Ordering::Greater));
    assert_eq!(c.lookup(&s("banana"), &s("apple")), Some(Ordering::Less));
}

#[test]
fn state_errors_name_the_line() {
    let r = parse_state_lines(&vec![s("a|<|b"), s("lonely")]);
    assert!(matches!(r, Err(StateError::MissingOrdering { line: 1 })));
    let r = parse_state_lines(&vec![s("a|<")]);
    assert!(matches!(r, Err(StateError::MissingB { line: 0 })));
    let r = parse_state_lines(&vec![s("a|<|b"), s("c|d|x"), s("e")]);
    match r {
        Err(StateError::UnknownOrdering { line, token }) => {
            assert_eq!(line, 1);
            assert_eq!(token, "d");
        }
        _ => panic!("expected an unknown ordering"),
    }
}

#[test]
fn state_extra_fields_are_ignored() {
    let c = parse_state_lines(&vec![s("a|>|b|c")]).ok().unwrap();
    assert_eq!(c.lookup(&s("a"), &s("b")), Some(Ordering::Greater));
}

#[test]
fn replies_are_read() {
    assert!(matches!(parse_reply("a"), Reply::First));
    assert!(matches!(parse_reply("b"), Reply::Second));
    assert!(matches!(parse_reply("ab"), Reply::Unknown));
    assert!(matches!(parse_reply(""), Reply::Unknown));
    assert_eq!(parse_reply("a").ordering(), Some(Ordering::Greater));
    assert_eq!(parse_reply("b").ordering(), Some(Ordering::Less));
    assert_eq!(parse_reply("x").ordering(), None);
}

#[test]
fn replies_are_trimmed() {
    assert!(matches!(read_reply("  a \n"), Reply::First));
    assert!(matches!(read_reply("b\r\n"), Reply::Second));
    match read_reply("save   state.txt  \n") {
        Reply::Save(name) => assert_eq!(name, "state.txt"),
        _ => panic!("expected a save"),
    }
}

#[test]
fn sort_keeps_ties_when_no_falling_run_holds_them() {
    let mut v = vec![(0, 'a'), (2, 'b'), (1, 'c'), (2, 'd'), (1, 'e')];
    sort(&mut v, |x, y| y.0.cmp(&x.0));
    assert_eq!(v, vec![(0, 'a'), (1, 'c'), (1, 'e'), (2, 'b'), (2, 'd')]);
}

#[test]
fn sort_turns_a_falling_run_with_ties_around() {
    let mut v = vec![(0, 'a'), (1, 'b'), (1, 'c')];
    sort(&mut v, |x, y| x.0.cmp(&y.0));
    assert_eq!(v, vec![(1, 'c'), (1, 'b'), (0, 'a')]);
}

#[test]
fn merge_adjacent_worked_example_asks_six_times() {
    let mut v = vec![2, 6, 10, 11, 3, 5, 7, 9];
    let calls = Cell::new(0);
    let cmp = |a: &i32, b: &i32| {
        calls.set(calls.get() + 1);
        b.cmp(a)
    };
    let (merged, queries) = merge_adjacent((0, 4), (4, 8), &mut v, &cmp);
    assert_eq!(merged, (0, 8));
    assert_eq!(v, vec![2, 3, 5, 6, 7, 9, 10, 11]);
    assert_eq!(calls.get(), 6);
    assert_eq!(queries, 6);
}

#[test]
fn merge_adjacent_right_run_first_asks_once_per_right_item() {
    let mut v = vec![5, 6, 1, 2, 3];
    let (merged, queries) = merge_adjacent((0, 2), (2, 5), &mut v, &|a: &i32, b: &i32| b.cmp(a));
    assert_eq!(merged, (0, 5));
    assert_eq!(v, vec![1, 2, 3, 5, 6]);
    assert_eq!(queries, 3);
}

#[test]
fn normalizer_turns_marked_runs_only() {
    let mut v = vec![1, 2, 3, 4, 5, 6, 7];
    unify_order_of_runs(&vec![(0, 3), (3, 4), (4, 6)], &vec![true, true, false], &mut v);
    assert_eq!(v, vec![3, 2, 1, 4, 5, 6, 7]);
    let mut w = vec![1, 2, 3, 4];
    unify_order_of_runs(&vec![(2, 4), (0, 1)], &vec![true, true], &mut w);
    assert_eq!(w, vec![1, 2, 4, 3]);
}

#[test]
fn inconsistent_comparator_keeps_the_items() {
    let mut v = vec![3, 1, 4, 1, 5, 9, 2, 6];
    sort(&mut v, |_, _| Ordering::Less);
    let mut got = v.clone();
    got.sort();
    assert_eq!(got, vec![1, 1, 2, 3, 4, 5, 6, 9]);
    let mut w = vec![3, 1, 4, 1, 5];
    let flip = Cell::new(false);
    merge_sort(&mut w, |_, _| {
        flip.set(!flip.get());
        if flip.get() { Ordering::Less } else { Ordering::Greater }
    });
    w.sort();
    assert_eq!(w, vec![1, 1, 3, 4, 5]);
}

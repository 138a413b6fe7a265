use std::cell::Cell;
use std::cmp::Ordering;

use a_b_list_sorter::{get_merge_sort_runs, get_runs, merge_adjacent, merge_sort, sort};
use rand::seq::SliceRandom;

#[test]
fn sort_test_1() {
    let mut original_list = vec![2, 6, 10, 11, 3, 5, 7, 9];
    let mut cloned_list = original_list.clone();
    sort(&mut original_list, |a, b| b.cmp(a));
    cloned_list.sort();
    assert_eq!(original_list, cloned_list);
}

#[test]
fn sort_test_2() {
    let mut original_list = vec![4, 3, 2, 1, 6, 5];
    let mut cloned_list = original_list.clone();
    sort(&mut original_list, |a, b| a.cmp(b));
    cloned_list.sort_by(|a, b| b.cmp(a));
    assert_eq!(original_list, cloned_list);
}

#[test]
fn sort_test_3() {
    let mut vec = Vec::with_capacity(100);
    let mut rng = rand::thread_rng();
    for i in 0..100 {
        vec.push(i);
    }
    for _ in 0..10000 {
        let mut sorted = vec.clone();
        sorted.shuffle(&mut rng);
        sort(&mut sorted, |a, b| b.cmp(a));
        assert_eq!(vec, sorted);
    }
}

#[test]
fn merge_sort_test_1() {
    let mut original_list = vec![2, 6, 10, 11, 3, 5, 7, 9];
    let mut cloned_list = original_list.clone();
    merge_sort(&mut original_list, |a, b| b.cmp(a));
    cloned_list.sort();
    assert_eq!(original_list, cloned_list);
}

#[test]
fn merge_sort_test_2() {
    let mut original_list = vec![4, 3, 2, 1, 6, 5];
    let mut cloned_list = original_list.clone();
    merge_sort(&mut original_list, |a, b| a.cmp(b));
    cloned_list.sort_by(|a, b| b.cmp(a));
    assert_eq!(original_list, cloned_list);
}

#[test]
fn merge_sort_test_3() {
    let mut vec = Vec::with_capacity(100);
    let mut rng = rand::thread_rng();
    for i in 0..100 {
        vec.push(i);
    }
    for _ in 0..10000 {
        let mut sorted = vec.clone();
        sorted.shuffle(&mut rng);
        merge_sort(&mut sorted, |a, b| b.cmp(a));
        assert_eq!(vec, sorted);
    }
}

#[test]
fn runs_should_be_the_same() {
    let mut vec = vec![1, 2, 1, 2, 1, 2, 1, 2];
    let merge_runs = get_merge_sort_runs(&mut vec, &mut (|_, _| Ordering::Equal));
    let other_runs = get_runs(&mut vec, &mut (|a, b| a.cmp(b)));
    println!("merge {:?}\nnonmerge {:?}", merge_runs, other_runs);
    assert_eq!(merge_runs, other_runs);
}

#[test]
fn merge_is_better() {
    let mut vec = Vec::with_capacity(500);
    let mut rng = rand::thread_rng();
    for i in 0..100 {
        vec.push(i);
    }
    let sort_cmps = Cell::new(0);
    for _ in 0..10000 {
        let mut sorted = vec.clone();
        sorted.shuffle(&mut rng);
        sort(&mut sorted, |a, b| {
            sort_cmps.set(sort_cmps.get() + 1);
            b.cmp(a)
        });
        assert_eq!(vec, sorted);
    }
    println!("{}", sort_cmps.get());

    let merge_sort_cmps = Cell::new(0);
    for _ in 0..10000 {
        let mut sorted = vec.clone();
        sorted.shuffle(&mut rng);
        merge_sort(&mut sorted, |a, b| {
            merge_sort_cmps.set(merge_sort_cmps.get() + 1);
            b.cmp(a)
        });
        assert_eq!(vec, sorted);
    }
    println!("{}", merge_sort_cmps.get());

    assert!(merge_sort_cmps.get() < sort_cmps.get());
}

#[test]
fn merge_is_better_2() {
    let mut vec = Vec::with_capacity(100);
    let mut rng = rand::thread_rng();
    for i in 0..100 {
        vec.push(i);
    }
    let mut merge_score = 0;
    for _ in 0..10000 {
        let mut sorted = vec.clone();
        sorted.shuffle(&mut rng);
        let mut sorted2 = sorted.clone();
        let merge_cmps = Cell::new(0);
        merge_sort(&mut sorted, |a, b| {
            merge_cmps.set(merge_cmps.get() + 1);
            b.cmp(a)
        });
        let merge_runs_cmps = Cell::new(0);
        sort(&mut sorted2, |a, b| {
            merge_runs_cmps.set(merge_runs_cmps.get() + 1);
            b.cmp(a)
        });
        println!("merge: {}, merge_runs: {}", merge_cmps.get(), merge_runs_cmps.get());
        if merge_cmps.get() < merge_runs_cmps.get() {
            merge_score += 1;
        } else {
            merge_score -= 1;
        }
    }
    assert!(merge_score == 10000);
}

#[test]
fn merge_is_better_than_std() {
    let mut vec = Vec::with_capacity(100);
    let mut rng = rand::thread_rng();
    for i in 0..100 {
        vec.push(i);
    }
    let mut merge_score = 0;
    for _ in 0..10000 {
        let mut sorted = vec.clone();
        sorted.shuffle(&mut rng);
        let mut sorted2 = sorted.clone();
        let merge_cmps = Cell::new(0);
        merge_sort(&mut sorted, |a, b| {
            merge_cmps.set(merge_cmps.get() + 1);
            b.cmp(a)
        });
        let mut std_cmps = 0;
        sorted2.sort_by(|a, b| {
            std_cmps += 1;
            b.cmp(a)
        });
        println!("merge: {}, std: {}", merge_cmps.get(), std_cmps);
        if merge_cmps.get() < std_cmps {
            merge_score += 1;
        } else {
            merge_score -= 1;
        }
    }
    assert!(merge_score == 10000);
}

#[test]
fn merge_is_better_than_std_unstable() {
    let mut vec = Vec::with_capacity(100);
    let mut rng = rand::thread_rng();
    for i in 0..100 {
        vec.push(i);
    }
    let mut merge_score = 0;
    for _ in 0..10000 {
        let mut sorted = vec.clone();
        sorted.shuffle(&mut rng);
        let mut sorted2 = sorted.clone();
        let merge_cmps = Cell::new(0);
        merge_sort(&mut sorted, |a, b| {
            merge_cmps.set(merge_cmps.get() + 1);
            b.cmp(a)
        });
        let mut std_cmps = 0;
        sorted2.sort_unstable_by(|a, b| {
            std_cmps += 1;
            b.cmp(a)
        });
        println!("merge: {}, std: {}", merge_cmps.get(), std_cmps);
        if merge_cmps.get() < std_cmps {
            merge_score += 1;
        } else {
            merge_score -= 1;
        }
    }
    assert!(merge_score == 10000);
}

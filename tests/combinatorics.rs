use labisu::combinatorics::{binomial, GraySubsets};

#[test]
fn binomial_examples() {
    assert_eq!(1, binomial(10, 0));
    assert_eq!(10, binomial(10, 1));
    assert_eq!(252, binomial(10, 5));
    assert_eq!(1, binomial(10, 10));
    assert_eq!(0, binomial(10, 11));
}

#[test]
fn binomial_boundaries() {
    for n in 0..40 {
        assert_eq!(1, binomial(n, 0));
        assert_eq!(1, binomial(n, n));
        assert_eq!(0, binomial(n, n + 1));
        assert_eq!(0, binomial(n, n + 7));
    }
}

#[test]
fn binomial_large_values_fit() {
    assert_eq!(155_117_520, binomial(30, 15));
    assert_eq!(10_272_278_170, binomial(50, 10));
    assert_eq!(465_428_353_255_261_088, binomial(62, 31));
}

#[test]
fn binomial_matches_pascal() {
    for n in 1..30 {
        for k in 1..n {
            assert_eq!(binomial(n, k), binomial(n - 1, k - 1) + binomial(n - 1, k));
        }
    }
}

fn walk(n: usize, k: usize) -> (Vec<usize>, Vec<(usize, usize)>) {
    let mut gray = GraySubsets::new(n, k);
    let first = gray.init();
    let mut steps = Vec::new();
    while let Some(step) = gray.next() {
        steps.push(step);
    }
    (first, steps)
}

#[test]
fn gray_subsets_transition_count() {
    for n in 0..10 {
        for k in 0..n + 2 {
            let expected = std::cmp::max(1, binomial(n, k)) - 1;
            let (_, steps) = walk(n, k);
            assert_eq!(expected, steps.len(), "n = {}, k = {}", n, k);
        }
    }
}

#[test]
fn gray_subsets_visit_every_subset_once() {
    for n in 0..11 {
        for k in 0..n + 1 {
            let (first, steps) = walk(n, k);
            let mut current = first.clone();
            let mut seen = std::collections::HashSet::new();
            assert_eq!(k, current.iter().filter(|b| **b == 1).count());
            seen.insert(current.clone());
            for (removed, added) in steps {
                assert_eq!(1, current[removed]);
                assert_eq!(0, current[added]);
                current[removed] = 0;
                current[added] = 1;
                assert_eq!(k, current.iter().filter(|b| **b == 1).count());
                assert!(seen.insert(current.clone()), "repeat at n = {}, k = {}", n, k);
            }
            assert_eq!(binomial(n, k), seen.len());
        }
    }
}

#[test]
fn gray_subsets_initial_subset() {
    let gray = GraySubsets::new(5, 2);
    assert_eq!(vec![1, 1, 0, 0, 0], gray.init());
    let gray = GraySubsets::new(4, 0);
    assert_eq!(vec![0, 0, 0, 0], gray.init());
    let gray = GraySubsets::new(3, 3);
    assert_eq!(vec![1, 1, 1], gray.init());
}

#[test]
fn gray_subsets_degenerate_walks_are_empty() {
    assert_eq!(0, walk(6, 0).1.len());
    assert_eq!(0, walk(6, 6).1.len());
    assert_eq!(0, walk(6, 9).1.len());
    assert_eq!(0, walk(0, 0).1.len());
}

#[test]
fn gray_subsets_stay_finished() {
    let mut gray = GraySubsets::new(4, 2);
    let mut count = 0;
    while gray.next().is_some() {
        count += 1;
    }
    assert_eq!(5, count);
    assert_eq!(None, gray.next());
    assert_eq!(None, gray.next());
}

#[test]
fn gray_subsets_revolving_door_order() {
    let (first, steps) = walk(4, 2);
    assert_eq!(vec![1, 1, 0, 0], first);
    assert_eq!(vec![(0, 2), (1, 0), (0, 3), (2, 1), (1, 0)], steps);
    let (_, steps) = walk(5, 2);
    assert_eq!(vec![(0, 2), (1, 0), (0, 3), (2, 1), (1, 0), (0, 4), (3, 2), (2, 1), (1, 0)], steps);
}

use unfold::{unfold, unfold_count, unfold_nth, unfold_vector, Unfold, UnfoldError};

#[test]
fn test_fibonacci() {
    let mut gen = Unfold::new(|(a, b)| (b, a + b), (0, 1));
    let mut fib = None;
    for _ in 0..8 {
        fib = gen.next().map(|(a, _)| a);
    }
    assert_eq!(fib.unwrap(), 13);
}

#[test]
fn test_unfold_nth() {
    let fib = unfold_nth(|(a, b)| (b, a + b), (0, 1), 8).unwrap().0;
    assert_eq!(fib, 13);
}

#[test]
fn test_unfold_vector() {
    let count = unfold_vector(|x| x + 1, 0, 10);
    let result: Vec<i32> = (0..10).collect();
    assert_eq!(count, result);
}

#[test]
fn test_unfold_count() {
    let mut iter = unfold_count(|x| x + 1, 0, 5);
    assert_eq!(iter.next(), Some(0));
    assert_eq!(iter.next(), Some(1));
    assert_eq!(iter.next(), Some(2));
    assert_eq!(iter.next(), Some(3));
    assert_eq!(iter.next(), Some(4));
    assert_eq!(iter.next(), None);
}

#[test]
fn vector_element_k_is_transform_applied_k_times() {
    let f = |x: u64| 3 * x + 1;
    let v = unfold_vector(f, 2, 6);
    assert_eq!(v.len(), 6);
    for k in 0..6 {
        let mut expected = 2;
        for _ in 0..k {
            expected = f(expected);
        }
        assert_eq!(v[k], expected);
    }
    assert_eq!(v, vec![2, 7, 22, 67, 202, 607]);
}

#[test]
fn vector_of_length_zero_is_empty() {
    let v: Vec<u32> = unfold_vector(|x| x + 1, 0, 0);
    assert!(v.is_empty());
}

#[test]
fn vector_geometric_growth() {
    let v = unfold_vector(|x| 2 * x, 1, 10);
    assert_eq!(v, vec![1, 2, 4, 8, 16, 32, 64, 128, 256, 512]);
}

#[test]
fn nth_is_transform_applied_index_minus_one_times() {
    assert_eq!(unfold_nth(|x| x + 1, 0, 10), Ok(9));
    assert_eq!(unfold_nth(|x| x * 3, 5, 1), Ok(5));
    assert_eq!(unfold_nth(|x| x * 3, 5, 2), Ok(15));
    assert_eq!(unfold_nth(|x| x * 3, 5, 4), Ok(135));
}

#[test]
fn nth_at_zero_is_invalid_argument() {
    assert_eq!(unfold_nth(|x| x + 1, 0, 0), Err(UnfoldError::InvalidArgument));
    assert_eq!(unfold_nth(|(a, b)| (b, a + b), (0, 1), 0), Err(UnfoldError::InvalidArgument));
}

#[test]
fn count_stride_two() {
    let mut odd = unfold_count(|x| x + 2, 1, 3);
    assert_eq!(odd.next(), Some(1));
    assert_eq!(odd.next(), Some(3));
    assert_eq!(odd.next(), Some(5));
    assert_eq!(odd.next(), None);
}

#[test]
fn count_zero_ends_at_once_and_stays_ended() {
    let mut empty = unfold_count(|x| x + 1, 7, 0);
    assert_eq!(empty.next(), None);
    assert_eq!(empty.next(), None);
}

#[test]
fn count_yields_what_vector_collects() {
    let f = |(a, b): (u64, u64)| (b, a + b);
    let expected = unfold_vector(f, (0, 1), 12);
    let mut it = unfold_count(f, (0, 1), 12);
    let mut got = Vec::new();
    while let Some(x) = it.next() {
        got.push(x);
    }
    assert_eq!(got, expected);
    assert_eq!(it.next(), None);
}

#[test]
fn generator_counts_down_without_end() {
    let mut down = unfold(|x| x - 1, 100);
    assert_eq!(down.next(), Some(100));
    assert_eq!(down.next(), Some(99));
    assert_eq!(down.next(), Some(98));
}

fn newton_sqrt(n: f64) -> Option<f64> {
    let mut it = unfold_count(|x| ((x * x) + n) / (2.0 * x), n, 100);
    let mut last = None;
    while let Some(x) = it.next() {
        if ((x * x) - n).abs() > 1e-8 {
            last = Some(x);
        } else {
            break;
        }
    }
    last
}

#[test]
fn newton_iteration_reaches_the_square_root() {
    let r = newton_sqrt(100.0).unwrap();
    assert!((r - 10.0).abs() < 1e-4);
    for i in 2..20 {
        let n = i as f64;
        let res = newton_sqrt(n * n).unwrap();
        assert!((res - n).abs() < 1e-4);
    }
}

use stats::engine::{StatisticsEngine, StatsError, Summary};
use stats::median::Median;
use stats::heap::Heap;
use stats::order::Middle;
use stats::columns::{Columns, RowError};

fn run(xs: &[i64]) -> Result<Summary, StatsError> {
    let mut e = StatisticsEngine::new();
    for &x in xs {
        e.feed(x);
    }
    e.finalize()
}

fn sorted_middle(xs: &[i64]) -> Middle {
    let mut v = xs.to_vec();
    v.sort();
    let n = v.len();
    if n == 0 {
        Middle::Empty
    } else if n % 2 == 1 {
        Middle::Single(v[n / 2])
    } else {
        Middle::Pair(v[n / 2 - 1], v[n / 2])
    }
}

#[test]
fn four_values() {
    let s = run(&[1, 2, 3, 4]).unwrap();
    assert_eq!(s.count, 4);
    assert_eq!(s.min, 1);
    assert_eq!(s.max, 4);
    assert_eq!(s.median, Middle::Pair(2, 3));
    assert!(s.has_spread());
}

#[test]
fn single_value() {
    let s = run(&[5]).unwrap();
    assert_eq!(s, Summary { count: 1, min: 5, max: 5, median: Middle::Single(5) });
    assert!(!s.has_spread());
}

#[test]
fn two_values_have_spread() {
    let s = run(&[7, -2]).unwrap();
    assert_eq!(s, Summary { count: 2, min: -2, max: 7, median: Middle::Pair(-2, 7) });
    assert!(s.has_spread());
}

#[test]
fn empty_stream_is_insufficient() {
    assert_eq!(run(&[]), Err(StatsError::InsufficientData));
}

#[test]
fn order_does_not_matter() {
    let a = run(&[5, 1, 4, 2, 3, 9]).unwrap();
    let b = run(&[9, 3, 2, 1, 5, 4]).unwrap();
    let c = run(&[1, 2, 3, 4, 5, 9]).unwrap();
    assert_eq!(a, b);
    assert_eq!(a, c);
    assert_eq!(a, Summary { count: 6, min: 1, max: 9, median: Middle::Pair(3, 4) });
}

#[test]
fn median_matches_sorting_at_every_step() {
    let xs: [i64; 16] = [10, -3, 7, 7, 0, 22, -15, 7, 3, 3, 100, -1, 7, 8, 2, 2];
    let mut m = Median::new();
    assert_eq!(m.get(), Middle::Empty);
    for k in 0..xs.len() {
        m.update(xs[k]);
        assert_eq!(m.get(), sorted_middle(&xs[..k + 1]));
    }
}

#[test]
fn halves_stay_balanced() {
    let xs: [i64; 12] = [1, 2, 3, 4, 5, 6, 7, 8, 9, 10, 11, 12];
    let mut m = Median::new();
    for &x in xs.iter() {
        m.update(x);
        let l = m.lower_len() as i64;
        let u = m.upper_len() as i64;
        assert!((l - u).abs() <= 1);
    }
    let mut d = Median::new();
    for &x in xs.iter().rev() {
        d.update(x);
        let l = d.lower_len() as i64;
        let u = d.upper_len() as i64;
        assert!((l - u).abs() <= 1);
    }
    assert_eq!(d.get(), Middle::Pair(6, 7));
}

#[test]
fn equal_values_split_the_same_way() {
    let mut a = Median::new();
    let mut b = Median::new();
    for _ in 0..3 {
        a.update(3);
        b.update(3);
        assert_eq!(a.lower_len(), b.lower_len());
        assert_eq!(a.upper_len(), b.upper_len());
    }
    assert_eq!((a.lower_len(), a.upper_len()), (2, 1));
    assert_eq!(a.get(), Middle::Single(3));
}

#[test]
fn extreme_samples() {
    let s = run(&[i64::MAX, i64::MIN, i64::MAX, i64::MIN]).unwrap();
    assert_eq!(s.min, i64::MIN);
    assert_eq!(s.max, i64::MAX);
    assert_eq!(s.median, Middle::Pair(i64::MIN, i64::MAX));
    let t = run(&[i64::MAX, i64::MAX, i64::MIN]).unwrap();
    assert_eq!(t.median, Middle::Single(i64::MAX));
}

#[test]
fn engine_tracks_count_and_median() {
    let mut e = StatisticsEngine::new();
    assert_eq!(e.count(), 0);
    e.feed(4);
    e.feed(-8);
    e.feed(6);
    assert_eq!(e.count(), 3);
    assert_eq!(e.median().get(), Middle::Single(4));
}

#[test]
fn columns_are_fed_independently() {
    let mut c = Columns::new(2);
    assert_eq!(c.width(), 2);
    assert_eq!(c.feed_row(&vec![Some(1), Some(10)]), Ok(()));
    assert_eq!(c.feed_row(&vec![None, Some(30)]), Ok(()));
    assert_eq!(c.feed_row(&vec![Some(3), Some(20)]), Ok(()));
    let out = c.finalize();
    assert_eq!(out.len(), 2);
    assert_eq!(out[0], Ok(Summary { count: 2, min: 1, max: 3, median: Middle::Pair(1, 3) }));
    assert_eq!(out[1], Ok(Summary { count: 3, min: 10, max: 30, median: Middle::Single(20) }));
}

#[test]
fn row_of_other_width_is_refused() {
    let mut c = Columns::new(2);
    assert_eq!(c.feed_row(&vec![Some(4), Some(5)]), Ok(()));
    assert_eq!(
        c.feed_row(&vec![Some(1), Some(2), Some(3)]),
        Err(RowError::WidthMismatch { expected: 2, found: 3 })
    );
    assert_eq!(c.feed_row(&vec![Some(1)]), Err(RowError::WidthMismatch { expected: 2, found: 1 }));
    let out = c.finalize();
    assert_eq!(out[0], Ok(Summary { count: 1, min: 4, max: 4, median: Middle::Single(4) }));
}

#[test]
fn column_without_samples_is_insufficient() {
    let mut c = Columns::new(2);
    assert_eq!(c.feed_row(&vec![Some(8), None]), Ok(()));
    let out = c.finalize();
    assert_eq!(out[1], Err(StatsError::InsufficientData));
}

#[test]
fn heap_largest_first() {
    let mut h = Heap::new(true);
    for &x in [4, -1, 9, 4, 0, 7].iter() {
        h.push(x);
    }
    assert_eq!(h.len(), 6);
    assert_eq!(h.peek(), 9);
    let mut out = Vec::new();
    while h.len() > 0 {
        out.push(h.pop());
    }
    assert_eq!(out, vec![9, 7, 4, 4, 0, -1]);
}

#[test]
fn heap_smallest_first() {
    let mut h = Heap::new(false);
    for &x in [4, -1, 9, 4, 0, 7, i64::MIN, i64::MAX].iter() {
        h.push(x);
    }
    assert_eq!(h.peek(), i64::MIN);
    let mut out = Vec::new();
    while h.len() > 0 {
        out.push(h.pop());
    }
    assert_eq!(out, vec![i64::MIN, -1, 0, 4, 4, 7, 9, i64::MAX]);
}

#[test]
fn long_stream_median() {
    let mut m = Median::new();
    let mut seen = Vec::new();
    let mut x: i64 = 17;
    for _ in 0..500 {
        x = (x * 1103 + 12345) % 1009 - 500;
        m.update(x);
        seen.push(x);
        let l = m.lower_len() as i64;
        let u = m.upper_len() as i64;
        assert!((l - u).abs() <= 1);
    }
    assert_eq!(m.get(), sorted_middle(&seen));
}

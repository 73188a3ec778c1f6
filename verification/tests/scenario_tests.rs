use quantiles::{Fraction, CKMS};

fn frac(num: u64, den: u64) -> Fraction {
    Fraction { num, den }
}

#[test]
fn empty_summary_answers_nothing() {
    let ckms = CKMS::new(frac(1, 1000));
    assert_eq!(ckms.query(frac(1, 2)), None);
    assert_eq!(ckms.count(), 0);
    assert_eq!(ckms.last(), None);
    assert_eq!(ckms.sum(), None);
}

#[test]
fn zero_error_is_clamped_up() {
    let ckms = CKMS::new(frac(0, 5));
    assert_eq!(ckms.error, frac(1, 100_000_000));
    assert_eq!(ckms.insert_threshold, 50_000_000);
}

#[test]
fn error_of_one_or_more_is_clamped_down() {
    let a = CKMS::new(frac(7, 7));
    assert_eq!(a.error, frac(99, 100));
    assert_eq!(a.insert_threshold, 1);
    let b = CKMS::new(frac(12, 5));
    assert_eq!(b.error, frac(99, 100));
}

#[test]
fn threshold_matches_half_inverse_error() {
    let ckms = CKMS::new(frac(1, 1000));
    assert_eq!(ckms.insert_threshold, 500);
    let coarse = CKMS::new(frac(1, 10));
    assert_eq!(coarse.insert_threshold, 5);
}

#[test]
fn sum_wraps_like_the_element_type() {
    let mut ckms = CKMS::new(frac(1, 1000));
    ckms.insert(i64::MAX);
    ckms.insert(1);
    assert_eq!(ckms.sum(), Some(i64::MIN));
    assert_eq!(ckms.count(), 2);
}

#[test]
fn last_tracks_most_recent_insert() {
    let mut ckms = CKMS::new(frac(1, 10));
    ckms.insert(1);
    ckms.insert(2);
    ckms.insert(3);
    assert_eq!(Some(3), ckms.last());
    assert_eq!(Some(6), ckms.sum());
}

#[test]
fn absorbing_an_empty_summary_clears_last() {
    let mut a = CKMS::new(frac(1, 1000));
    a.insert(10);
    let b = CKMS::new(frac(1, 1000));
    a.absorb(b);
    assert_eq!(a.last(), None);
    assert_eq!(a.sum(), Some(10));
    assert_eq!(a.count(), 1);
}

#[test]
fn absorb_combines_sum_and_takes_other_last() {
    let mut a = CKMS::new(frac(1, 1000));
    a.insert(1);
    let mut b = CKMS::new(frac(1, 1000));
    b.insert(2);
    a.absorb(b);
    assert_eq!(a.sum(), Some(3));
    assert_eq!(a.last(), Some(2));
    assert_eq!(a.count(), 2);
}

#[test]
fn merge_of_disjoint_streams_answers_for_the_union() {
    let mut a = CKMS::new(frac(1, 1000));
    for i in 1..=500i64 {
        a.insert(i);
    }
    let mut b = CKMS::new(frac(1, 1000));
    for i in 501..=1000i64 {
        b.insert(i);
    }
    a.absorb(b);
    assert_eq!(a.count(), 1000);
    assert_eq!(a.query(frac(0, 100)), Some((1, 1)));
    assert_eq!(a.query(frac(50, 100)), Some((500, 500)));
    assert_eq!(a.query(frac(100, 100)), Some((1000, 1000)));
}

#[test]
fn quantile_zero_is_exact_after_many_inserts() {
    let mut ckms = CKMS::new(frac(1, 10));
    for i in 0..2000i64 {
        ckms.insert((i * 131) % 401 - 200);
    }
    assert_eq!(ckms.query(frac(0, 1)).map(|p| p.1), Some(-200));
}

#[test]
fn endpoints_are_exact_on_an_ascending_stream() {
    let mut ckms = CKMS::new(frac(1, 10));
    for i in -700..=700i64 {
        ckms.insert(i);
    }
    assert_eq!(ckms.query(frac(0, 1)).map(|p| p.1), Some(-700));
    assert_eq!(ckms.query(frac(1, 1)).map(|p| p.1), Some(700));
}

#[test]
fn duplicate_values_are_all_counted() {
    let mut ckms = CKMS::new(frac(1, 1000));
    for _ in 0..10 {
        ckms.insert(4);
    }
    assert_eq!(ckms.count(), 10);
    assert_eq!(ckms.query(frac(1, 2)), Some((5, 4)));
    assert_eq!(ckms.sum(), Some(40));
}

#[test]
fn compression_keeps_count_and_order() {
    let mut ckms = CKMS::new(frac(1, 10));
    for i in (1..=300i64).rev() {
        ckms.insert(i);
    }
    ckms.compress();
    assert_eq!(ckms.count(), 300);
    let mut prev = ckms.samples[0].v;
    for ent in &ckms.samples {
        assert!(prev <= ent.v);
        prev = ent.v;
    }
    assert_eq!(ckms.samples[0].v, 1);
    assert_eq!(ckms.samples[ckms.samples.len() - 1].v, 300);
}

#[test]
fn absorb_joins_summaries_of_different_tolerance() {
    let mut a = CKMS::new(frac(1, 1000));
    for i in 1..=100i64 {
        a.insert(i);
    }
    let mut b = CKMS::new(frac(1, 10));
    for i in 101..=200i64 {
        b.insert(i);
    }
    let b_samples = b.samples.len();
    a.absorb(b);
    // only the retained representatives of the other summary are re-inserted
    assert_eq!(a.count(), 100 + b_samples);
    assert_eq!(a.query(frac(0, 1)), Some((1, 1)));
    assert_eq!(a.query(frac(1, 1)).map(|p| p.1), Some(200));
}

#[test]
fn out_of_range_quantile_is_defined() {
    let mut ckms = CKMS::new(frac(1, 1000));
    for i in 1..=10i64 {
        ckms.insert(i);
    }
    // a quantile above one still terminates and lands on the last sample
    assert_eq!(ckms.query(frac(2, 1)), Some((10, 10)));
}

#[test]
fn query_rank_stays_within_the_window() {
    let mut ckms = CKMS::new(frac(1, 10));
    for i in 1..=5000i64 {
        ckms.insert(i);
    }
    // at tolerance one tenth a mid quantile must sit within eps * n of the
    // target rank
    let (rank, _) = ckms.query(frac(1, 2)).unwrap();
    let target = 2500i64;
    let slack = 500i64;
    assert!((rank as i64 - target).abs() <= slack);
}

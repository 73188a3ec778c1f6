use quantiles::{Fraction, CKMS};

fn frac(num: u64, den: u64) -> Fraction {
    Fraction { num, den }
}

fn build(eps: Fraction, data: &[i64]) -> CKMS {
    let mut ckms = CKMS::new(eps);
    for d in data {
        ckms.insert(*d);
    }
    ckms
}

// max(1, floor(2 * eps * r)) computed in floating point, as a cross-check.
fn invariant_f64(eps: f64, r: f64) -> usize {
    let i = (2.0 * eps * r).floor() as usize;
    if 1 > i {
        1
    } else {
        i
    }
}

fn percentile(data: &Vec<f64>, prcnt: f64) -> f64 {
    let idx = (prcnt * (data.len() as f64)) as usize;
    data[idx]
}

#[test]
fn error_nominal_test() {
    let streams: Vec<Vec<i64>> = vec![
        (1..=200).collect(),
        vec![5; 40],
        (-60..=60).rev().collect(),
    ];
    for raw in streams {
        let mut sorted = raw.clone();
        sorted.sort();
        let data: Vec<f64> = sorted.iter().map(|x| *x as f64).collect();
        let err = 0.001;
        let ckms = build(frac(1, 1000), &raw);
        for k in 0..20u64 {
            let prcnt = (k as f64) / 20.0;
            let (_, v) = ckms.query(frac(k, 20)).unwrap();
            assert!(
                ((v as f64) - percentile(&data, prcnt)) < err,
                "v: {} | percentile: {} | prcnt: {} | data: {:?}",
                v,
                percentile(&data, prcnt),
                prcnt,
                data
            );
        }
    }
}

#[test]
fn error_nominal_with_merge_test() {
    let pairs: Vec<(Vec<i64>, Vec<i64>)> = vec![
        ((1..=120).collect(), (121..=240).collect()),
        ((-50..=0).collect(), (1..=50).collect()),
        (vec![7, 7, 7], vec![1, 2, 3, 4, 5]),
    ];
    for (lhs, rhs) in pairs {
        let mut merged = lhs.clone();
        merged.extend(rhs.clone());
        merged.sort();
        let data: Vec<f64> = merged.iter().map(|x| *x as f64).collect();
        let err = 0.001;
        let mut ckms = build(frac(1, 1000), &lhs);
        let ckms_rhs = build(frac(1, 1000), &rhs);
        ckms.absorb(ckms_rhs);
        for k in 0..20u64 {
            let prcnt = (k as f64) / 20.0;
            let (_, v) = ckms.query(frac(k, 20)).unwrap();
            assert!(
                ((v as f64) - percentile(&data, prcnt)) < err,
                "v: {} | percentile: {} | prcnt: {} | data: {:?}",
                v,
                percentile(&data, prcnt),
                prcnt,
                data
            );
        }
    }
}

#[test]
fn n_invariant_test() {
    let streams: Vec<Vec<i64>> = vec![
        vec![],
        vec![42],
        vec![3, 1, 2, 5, 4],
        (0..500).map(|x| (x * 37) % 113 - 50).collect(),
    ];
    for fs in streams {
        let l = fs.len();
        let ckms = build(frac(1, 1000), &fs);
        assert_eq!(ckms.count(), l);
    }
}

#[test]
fn add_assign_test() {
    let pairs: Vec<(i64, i64)> = vec![(1, 2), (-5, 7), (0, 0)];
    for pair in pairs {
        let mut lhs = CKMS::new(frac(1, 1000));
        lhs.insert(pair.0);
        let mut rhs = CKMS::new(frac(1, 1000));
        rhs.insert(pair.1);

        let expected: i64 = pair.0 + pair.1;
        lhs.absorb(rhs);

        assert_eq!(lhs.sum(), Some(expected));
        assert_eq!(lhs.last(), Some(pair.1));
    }
}

#[test]
fn query_invariant_test() {
    let streams: Vec<Vec<i64>> = vec![
        vec![9],
        (0..300).map(|x| (x * 91) % 233 - 100).collect(),
    ];
    let phis: Vec<(u64, u64)> = vec![(0, 1), (1, 4), (1, 2), (3, 4), (9, 10), (1, 1)];
    for fs in streams {
        let ckms = build(frac(1, 1000), &fs);
        for (pn, pd) in &phis {
            let phi = (*pn as f64) / (*pd as f64);
            match ckms.query(frac(*pn, *pd)) {
                None => panic!("nonempty summary answered nothing"),
                Some((rank, _)) => {
                    let nphi = phi * (ckms.count() as f64);
                    let fdiv2 = (invariant_f64(0.001, nphi) as f64) / 2.0;
                    assert!(
                        ((nphi - fdiv2) <= (rank as f64)) || ((rank as f64) <= (nphi + fdiv2))
                    );
                }
            }
        }
    }
}

#[test]
fn insert_test() {
    let mut ckms = CKMS::new(frac(1, 1000));
    for i in 0..2 {
        ckms.insert(i as i64);
    }

    assert_eq!(0, ckms.samples[0].v);
    assert_eq!(1, ckms.samples[1].v);
}

#[test]
fn asc_samples_test() {
    let streams: Vec<Vec<i64>> = vec![
        vec![],
        vec![1, 1, 1, 1],
        (0..400).map(|x| 200 - x).collect(),
        (0..400).map(|x| (x * 53) % 97 - 48).collect(),
    ];
    for fs in streams {
        let fsc = fs.clone();
        let ckms = build(frac(1, 1000), &fs);

        if ckms.samples.len() == 0 && fsc.len() == 0 {
            continue;
        }
        let mut cur = ckms.samples[0].v;
        for ent in &ckms.samples {
            let s = ent.v;
            assert!(s >= cur);
            cur = s;
        }
    }
}

#[test]
fn f_invariant_test() {
    let streams: Vec<Vec<i64>> = vec![
        vec![10, -3, 4, 4, 0],
        (0..800).map(|x| (x * 67) % 251 - 125).collect(),
    ];
    for fs in streams {
        let ckms = build(frac(1, 1000), &fs);

        let s = ckms.samples.len();
        let mut r = 0;
        for i in 1..s {
            let prev = &ckms.samples[i - 1];
            let cur = &ckms.samples[i];

            r += prev.g;

            let res = (cur.g + cur.delta) <= invariant_f64(0.001, r as f64);
            assert!(
                res,
                "{:?} <= {:?} | samples: {:?}",
                cur.g + cur.delta,
                invariant_f64(0.001, r as f64),
                ckms.samples
            );
        }
    }
}

#[test]
fn compression_test() {
    let mut ckms = CKMS::new(frac(1, 10));
    for i in 1..10000 {
        ckms.insert(i);
    }
    ckms.compress();

    let l = ckms.samples.len();
    let n = ckms.count();
    assert_eq!(9999, n);
    assert_eq!(316, l);
}

#[test]
fn compression_bound_test() {
    let streams: Vec<Vec<i64>> = vec![
        (1..=15).collect(),
        (0..100).map(|x| (x * 31) % 67).collect(),
    ];
    for fs in streams {
        let mut ckms = build(frac(1, 1000), &fs);
        ckms.compress();

        let error = 0.001;
        let s = ckms.samples.len() as f64;
        let bound = (1.0 / error) * (error * (ckms.count() as f64)).log10().powi(2);

        assert!(
            s <= bound,
            "error: {:?} n: {:?} | {:?} <= {:?}",
            error,
            ckms.count(),
            s,
            bound
        );
    }
}

#[test]
fn test_basics() {
    let mut ckms = CKMS::new(frac(1, 1000));
    for i in 1..1001 {
        ckms.insert(i as i64);
    }

    assert_eq!(ckms.query(frac(0, 100)), Some((1, 1)));
    assert_eq!(ckms.query(frac(5, 100)), Some((50, 50)));
    assert_eq!(ckms.query(frac(10, 100)), Some((100, 100)));
    assert_eq!(ckms.query(frac(15, 100)), Some((150, 150)));
    assert_eq!(ckms.query(frac(20, 100)), Some((200, 200)));
    assert_eq!(ckms.query(frac(25, 100)), Some((250, 250)));
    assert_eq!(ckms.query(frac(30, 100)), Some((300, 300)));
    assert_eq!(ckms.query(frac(35, 100)), Some((350, 350)));
    assert_eq!(ckms.query(frac(40, 100)), Some((400, 400)));
    assert_eq!(ckms.query(frac(45, 100)), Some((450, 450)));
    assert_eq!(ckms.query(frac(50, 100)), Some((500, 500)));
    assert_eq!(ckms.query(frac(55, 100)), Some((550, 550)));
    assert_eq!(ckms.query(frac(60, 100)), Some((600, 600)));
    assert_eq!(ckms.query(frac(65, 100)), Some((650, 650)));
    assert_eq!(ckms.query(frac(70, 100)), Some((700, 700)));
    assert_eq!(ckms.query(frac(75, 100)), Some((750, 750)));
    assert_eq!(ckms.query(frac(80, 100)), Some((800, 800)));
    assert_eq!(ckms.query(frac(85, 100)), Some((850, 850)));
    assert_eq!(ckms.query(frac(90, 100)), Some((900, 900)));
    assert_eq!(ckms.query(frac(95, 100)), Some((950, 950)));
    assert_eq!(ckms.query(frac(99, 100)), Some((990, 990)));
    assert_eq!(ckms.query(frac(100, 100)), Some((1000, 1000)));
}

#[test]
fn test_basics_float() {
    // the original exercises the same stream with floating-point elements;
    // here the integral values are carried by the library's element type
    let mut ckms = CKMS::new(frac(1, 1000));
    for i in 1..1001 {
        ckms.insert(i as i64);
    }

    assert_eq!(ckms.query(frac(0, 100)), Some((1, 1)));
    assert_eq!(ckms.query(frac(100, 100)), Some((1000, 1000)));
}

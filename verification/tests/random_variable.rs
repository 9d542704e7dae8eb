use rtilience_sim_rust::base::random_variable::{Deterministic, DetVar, RandomVariable, Uniform};

#[test]
fn deterministic_always_same() {
    let mut d = Deterministic::new(42);
    assert_eq!(d.sample(), 42);
    assert_eq!(d.sample(), 42);
}

#[test]
fn uniform_in_range() {
    let mut u = Uniform::new(10, 20, 42);
    for _ in 0..100 {
        let s = u.sample();
        assert!(s >= 10 && s <= 20);
    }
}

#[test]
fn uniform_reproducible() {
    let mut u1 = Uniform::new(10, 20, 42);
    let mut u2 = Uniform::new(10, 20, 42);

    for _ in 0..100 {
        assert_eq!(u1.sample(), u2.sample());
    }
}

#[test]
fn detvar_sequence() {
    let mut dv = DetVar::from_vec(vec![1, 2, 3, 4, 5]);
    assert_eq!(dv.sample(), 1);
    assert_eq!(dv.sample(), 2);
    assert_eq!(dv.sample(), 3);
    assert_eq!(dv.sample(), 4);
    assert_eq!(dv.sample(), 5);
    assert_eq!(dv.sample(), -1);
}

#[test]
fn deterministic_bounds_and_description() {
    let d = Deterministic::new(-8);
    assert_eq!(d.min(), Some(-8));
    assert_eq!(d.max(), Some(-8));
    assert_eq!(d.describe(), "Deterministic(-8)");
}

#[test]
fn uniform_bounds_and_description() {
    let u = Uniform::new(10, 20, 1);
    assert_eq!(u.min(), Some(10));
    assert_eq!(u.max(), Some(20));
    assert_eq!(u.describe(), "Uniform(10, 20)");
}

// A one-point range always gives its point.
#[test]
fn uniform_single_point() {
    let mut u = Uniform::new(5, 5, 9);
    for _ in 0..10 {
        assert_eq!(u.sample(), 5);
    }
}

// A copy of a generator gives the same values as the generator it copies, from then on.
#[test]
fn uniform_clone_continues_sequence() {
    let mut u = Uniform::new(0, 1000, 3);
    u.sample();
    let mut copy = u.clone();
    for _ in 0..20 {
        assert_eq!(u.sample(), copy.sample());
    }
}

#[test]
fn detvar_bounds_and_description() {
    let dv = DetVar::from_vec(vec![4, -2, 9, 4]);
    assert_eq!(dv.min(), Some(-2));
    assert_eq!(dv.max(), Some(9));
    assert_eq!(dv.describe(), "DetVar(4 values)");
}

#[test]
fn detvar_empty() {
    let mut dv = DetVar::from_vec(vec![]);
    assert_eq!(dv.min(), None);
    assert_eq!(dv.max(), None);
    assert_eq!(dv.sample(), -1);
    assert_eq!(dv.describe(), "DetVar(0 values)");
}

// Once the values are used up, every sample gives -1.
#[test]
fn detvar_stays_exhausted() {
    let mut dv = DetVar::from_vec(vec![7]);
    assert_eq!(dv.sample(), 7);
    assert_eq!(dv.sample(), -1);
    assert_eq!(dv.sample(), -1);
}

// Values read from text: one time per line, between white space.
#[test]
fn detvar_from_text_reads_lines() {
    let mut dv = DetVar::from_text("1\n  -4 \r\n+5\n").unwrap();
    assert_eq!(dv.sample(), 1);
    assert_eq!(dv.sample(), -4);
    assert_eq!(dv.sample(), 5);
    assert_eq!(dv.sample(), -1);
    let mut last = DetVar::from_text("7\n8").unwrap();
    assert_eq!(last.sample(), 7);
    assert_eq!(last.sample(), 8);
    assert_eq!(last.describe(), "DetVar(2 values)");
}

#[test]
fn detvar_from_text_empty() {
    let dv = DetVar::from_text("").unwrap();
    assert_eq!(dv.describe(), "DetVar(0 values)");
}

// A line that holds no time refuses the whole text.
#[test]
fn detvar_from_text_refuses_bad_lines() {
    assert!(DetVar::from_text("1\n\n2").is_none());
    assert!(DetVar::from_text("1x").is_none());
    assert!(DetVar::from_text("-").is_none());
    assert!(DetVar::from_text("9223372036854775808").is_none());
    assert!(DetVar::from_text("99999999999999999999999").is_none());
}

#[test]
fn detvar_from_text_range_ends() {
    let mut dv = DetVar::from_text("-9223372036854775808\n9223372036854775807\n").unwrap();
    assert_eq!(dv.sample(), i64::MIN);
    assert_eq!(dv.sample(), i64::MAX);
}

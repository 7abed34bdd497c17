use segsieve::{sieve, PrimeRecord, PrimeStore};

/// Trial-division reference: no divisor other than 1 and itself.
fn is_prime_ref(n: u64) -> bool {
    if n < 2 {
        return false;
    }
    let mut d = 2;
    while d < n {
        if n % d == 0 {
            return false;
        }
        d += 1;
    }
    true
}

fn collect(store: &mut PrimeStore) -> Vec<PrimeRecord> {
    let mut out = Vec::new();
    store.rewind();
    while let Some(rec) = store.read_next() {
        out.push(rec);
    }
    out
}

fn primes_of(store: &mut PrimeStore) -> Vec<u64> {
    collect(store).iter().map(|r| r.p).collect()
}

fn check_against_trial_division(window_size: u32, upper_limit: u64) {
    let mut store = sieve(window_size, upper_limit);
    let got = primes_of(&mut store);
    let want: Vec<u64> = (2..upper_limit).filter(|&n| is_prime_ref(n)).collect();
    assert_eq!(got, want, "window {} limit {}", window_size, upper_limit);
}

#[test]
fn matches_trial_division_window_smaller_than_limit() {
    check_against_trial_division(7, 100);
}

#[test]
fn matches_trial_division_window_equal_to_limit() {
    check_against_trial_division(50, 50);
}

#[test]
fn matches_trial_division_window_larger_than_limit() {
    check_against_trial_division(64, 30);
}

#[test]
fn matches_trial_division_limit_not_multiple_of_window() {
    check_against_trial_division(10, 97);
}

#[test]
fn matches_trial_division_window_one() {
    check_against_trial_division(1, 40);
}

#[test]
fn upper_limit_zero_yields_no_records() {
    let mut store = sieve(10, 0);
    assert_eq!(collect(&mut store).len(), 0);
}

#[test]
fn upper_limit_one_yields_no_records() {
    let mut store = sieve(10, 1);
    assert_eq!(collect(&mut store).len(), 0);
}

#[test]
fn upper_limit_two_yields_no_records() {
    // The upper limit is exclusive: no prime lies in [2, 2).
    let mut store = sieve(10, 2);
    assert_eq!(collect(&mut store).len(), 0);
}

#[test]
fn smallest_nonempty_run_yields_single_record() {
    let mut store = sieve(2, 3);
    let recs = collect(&mut store);
    assert_eq!(recs.len(), 1);
    assert_eq!(recs[0].p, 2);
    assert_eq!(recs[0].nextval, 4);
}

#[test]
fn window_ten_limit_thirty_exact_records() {
    let mut store = sieve(10, 30);
    let recs = collect(&mut store);
    let want = vec![
        (2, 30),
        (3, 30),
        (5, 30),
        (7, 35),
        (11, 33),
        (13, 39),
        (17, 34),
        (19, 38),
        (23, 46),
        (29, 58),
    ];
    assert_eq!(recs.len(), want.len());
    for (rec, (p, nextval)) in recs.iter().zip(want.iter()) {
        assert_eq!(rec.p, *p);
        assert_eq!(rec.nextval, *nextval);
    }
}

#[test]
fn record_invariant_holds_after_sieving() {
    // Every record's nextval is a multiple of p strictly greater than p.
    let mut store = sieve(9, 200);
    for rec in collect(&mut store) {
        assert!(rec.nextval % rec.p == 0);
        assert!(rec.nextval > rec.p);
    }
}

#[test]
fn record_count_nondecreasing_in_upper_limit() {
    let mut last = 0;
    for u in [0u64, 1, 2, 10, 30, 100, 200] {
        let mut store = sieve(13, u);
        let count = collect(&mut store).len();
        assert!(count >= last);
        last = count;
    }
}

#[test]
fn repeated_runs_yield_identical_records() {
    // The sieve is a function of window size and upper limit alone; a
    // run under any pacing regime returns the same records.
    let mut s1 = sieve(11, 150);
    let mut s2 = sieve(11, 150);
    let r1 = collect(&mut s1);
    let r2 = collect(&mut s2);
    assert_eq!(r1.len(), r2.len());
    for (a, b) in r1.iter().zip(r2.iter()) {
        assert_eq!(a.p, b.p);
        assert_eq!(a.nextval, b.nextval);
    }
}

#[test]
fn window_size_does_not_change_prime_set() {
    let mut base = sieve(100, 100);
    let want = primes_of(&mut base);
    for w in [1u32, 2, 3, 10, 33, 99, 101] {
        let mut store = sieve(w, 100);
        assert_eq!(primes_of(&mut store), want, "window {}", w);
    }
}

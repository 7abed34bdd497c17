use segsieve::{export_csv, sieve, PrimeRecord, PrimeStore};

#[test]
fn export_of_empty_store_is_empty() {
    let mut store = PrimeStore::new();
    assert!(export_csv(&mut store).is_empty());
}

#[test]
fn export_formats_one_line_per_record() {
    let mut store = PrimeStore::new();
    store.append(PrimeRecord { p: 2, nextval: 4 });
    store.append(PrimeRecord { p: 104729, nextval: 209458 });
    let out = export_csv(&mut store);
    assert_eq!(String::from_utf8(out).unwrap(), "2,4\n104729,209458\n");
}

#[test]
fn export_twice_is_byte_identical() {
    let mut store = sieve(10, 100);
    let first = export_csv(&mut store);
    let second = export_csv(&mut store);
    assert_eq!(first, second);
}

#[test]
fn export_does_not_change_the_records() {
    let mut store = sieve(10, 50);
    let before: Vec<(u64, u64)> = {
        let mut v = Vec::new();
        for i in 0..store.record_count() {
            let r = store.get(i);
            v.push((r.p, r.nextval));
        }
        v
    };
    let _ = export_csv(&mut store);
    for (i, (p, nextval)) in before.iter().enumerate() {
        let r = store.get(i);
        assert_eq!(r.p, *p);
        assert_eq!(r.nextval, *nextval);
    }
}

#[test]
fn window_ten_limit_thirty_export_text() {
    let mut store = sieve(10, 30);
    let out = export_csv(&mut store);
    let text = String::from_utf8(out).unwrap();
    assert_eq!(
        text,
        "2,30\n3,30\n5,30\n7,35\n11,33\n13,39\n17,34\n19,38\n23,46\n29,58\n"
    );
    assert_eq!(text.lines().count(), 10);
}

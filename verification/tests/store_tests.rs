use segsieve::{PrimeRecord, PrimeStore, StoreError};

#[test]
fn new_store_is_empty_and_at_end() {
    let mut store = PrimeStore::new();
    assert_eq!(store.record_count(), 0);
    assert!(store.read_next().is_none());
}

#[test]
fn append_then_read_round_trip() {
    let mut store = PrimeStore::new();
    store.append(PrimeRecord { p: 2, nextval: 4 });
    store.append(PrimeRecord { p: 3, nextval: 6 });
    store.rewind();
    let first = store.read_next().unwrap();
    assert_eq!(first.p, 2);
    assert_eq!(first.nextval, 4);
    let second = store.read_next().unwrap();
    assert_eq!(second.p, 3);
    assert_eq!(second.nextval, 6);
    assert!(store.read_next().is_none());
}

#[test]
fn rewrite_last_updates_in_place() {
    let mut store = PrimeStore::new();
    store.append(PrimeRecord { p: 2, nextval: 4 });
    store.append(PrimeRecord { p: 3, nextval: 6 });
    store.rewind();
    let rec = store.read_next().unwrap();
    store.rewrite_last(PrimeRecord { p: rec.p, nextval: rec.nextval + rec.p });
    // The rewritten record keeps its position; the cursor reads on.
    let second = store.read_next().unwrap();
    assert_eq!(second.p, 3);
    store.rewind();
    let first = store.read_next().unwrap();
    assert_eq!(first.p, 2);
    assert_eq!(first.nextval, 6);
    assert_eq!(store.record_count(), 2);
}

#[test]
fn byte_image_round_trip() {
    let mut store = PrimeStore::new();
    store.append(PrimeRecord { p: 2, nextval: 10 });
    store.append(PrimeRecord { p: 0x1122334455667788, nextval: u64::MAX });
    let bytes = store.to_bytes();
    assert_eq!(bytes.len(), 32);
    let mut reloaded = PrimeStore::from_bytes(&bytes).unwrap();
    assert_eq!(reloaded.record_count(), 2);
    let first = reloaded.read_next().unwrap();
    assert_eq!(first.p, 2);
    assert_eq!(first.nextval, 10);
    let second = reloaded.read_next().unwrap();
    assert_eq!(second.p, 0x1122334455667788);
    assert_eq!(second.nextval, u64::MAX);
}

#[test]
fn record_encoding_is_little_endian_and_positional() {
    let mut store = PrimeStore::new();
    store.append(PrimeRecord { p: 0x0102030405060708, nextval: 0x0909090909090909 });
    let bytes = store.to_bytes();
    assert_eq!(
        bytes,
        vec![8, 7, 6, 5, 4, 3, 2, 1, 9, 9, 9, 9, 9, 9, 9, 9]
    );
}

#[test]
fn truncated_image_is_rejected() {
    let bytes: Vec<u8> = vec![0; 24];
    match PrimeStore::from_bytes(&bytes) {
        Err(StoreError::TruncatedRecord) => {}
        Ok(_) => panic!("a 24-byte image holds one and a half records"),
    }
}

#[test]
fn empty_image_is_a_clean_empty_store() {
    let bytes: Vec<u8> = Vec::new();
    let mut store = PrimeStore::from_bytes(&bytes).unwrap();
    assert_eq!(store.record_count(), 0);
    assert!(store.read_next().is_none());
}

#[test]
fn get_reads_without_moving_the_cursor() {
    let mut store = PrimeStore::new();
    store.append(PrimeRecord { p: 5, nextval: 10 });
    store.rewind();
    assert_eq!(store.get(0).p, 5);
    let rec = store.read_next().unwrap();
    assert_eq!(rec.p, 5);
}

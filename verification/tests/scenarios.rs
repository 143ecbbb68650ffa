use bytesbox::ByteBox;

#[test]
fn one_bucket_holds_three_pairs() {
    let mut table = ByteBox::prealloc(1);
    table.insert(b"content-length", b"74892034");
    table.insert(b"content-type", b"text/html");
    table.insert(b"content-disposition", b"form-data");

    assert_eq!(table.len(), 3);
    assert_eq!(table.get(b"content-length"), Some(&b"74892034"[..]));
    assert_eq!(table.get(b"content-type"), Some(&b"text/html"[..]));
    assert_eq!(table.get(b"content-disposition"), Some(&b"form-data"[..]));
}

#[test]
fn twenty_keys_grow_default_capacity() {
    let mut table = ByteBox::new();
    assert_eq!(table.allocation(), 16);
    for i in 0..20 {
        let key = format!("key{}", i);
        assert!(table.insert(key.as_bytes(), b"value"));
    }
    assert_eq!(table.allocation(), 32);
    for i in 0..20 {
        let key = format!("key{}", i);
        assert_eq!(table.get(key.as_bytes()), Some(&b"value"[..]));
    }
}

#[test]
fn second_insert_overwrites() {
    let mut table = ByteBox::new();
    assert!(table.insert(b"key", b"value1"));
    assert!(!table.insert(b"key", b"value2"));
    assert_eq!(table.get(b"key"), Some(&b"value2"[..]));
}

#[test]
fn remove_hands_value_over_once() {
    let mut table = ByteBox::new();
    table.insert(b"key", b"value");
    assert_eq!(table.remove(b"key"), Some(b"value".to_vec()));
    assert_eq!(table.get(b"key"), None);
    assert_eq!(table.remove(b"key"), None);
}

#[test]
fn clear_empties_but_keeps_capacity() {
    let mut table = ByteBox::new();
    table.insert(b"alpha", b"1");
    table.insert(b"beta", b"2");
    let capacity_before = table.allocation();
    table.clear();
    assert_eq!(table.len(), 0);
    assert_eq!(table.get(b"alpha"), None);
    assert_eq!(table.get(b"beta"), None);
    assert_eq!(table.allocation(), capacity_before);
}

#[test]
fn zero_capacity_is_raised_to_one() {
    let mut table = ByteBox::prealloc(0);
    assert_eq!(table.allocation(), 1);
    assert!(table.insert(b"key", b"value"));
    assert_eq!(table.get(b"key"), Some(&b"value"[..]));
}

#[test]
fn empty_key_and_empty_value_round_trip() {
    let mut table = ByteBox::new();
    assert!(table.insert(b"", b""));
    assert_eq!(table.len(), 1);
    assert_eq!(table.get(b""), Some(&b""[..]));
    assert_eq!(table.remove(b""), Some(Vec::new()));
    assert_eq!(table.len(), 0);
}

#[test]
fn count_tracks_inserts_and_removes() {
    let mut table = ByteBox::prealloc(2);
    assert_eq!(table.len(), 0);
    table.insert(b"a", b"1");
    table.insert(b"b", b"2");
    table.insert(b"a", b"3");
    assert_eq!(table.len(), 2);
    table.remove(b"a");
    assert_eq!(table.len(), 1);
    table.remove(b"a");
    assert_eq!(table.len(), 1);
    table.remove(b"b");
    assert_eq!(table.len(), 0);
}

#[test]
fn collisions_keep_keys_independent() {
    let mut table = ByteBox::prealloc(1);
    table.insert(b"first", b"1");
    table.insert(b"second", b"2");
    table.insert(b"third", b"3");
    assert_eq!(table.remove(b"second"), Some(b"2".to_vec()));
    assert_eq!(table.get(b"first"), Some(&b"1"[..]));
    assert_eq!(table.get(b"second"), None);
    assert_eq!(table.get(b"third"), Some(&b"3"[..]));
    assert_eq!(table.len(), 2);
}

#[test]
fn growth_preserves_data_from_capacity_one() {
    let mut table = ByteBox::prealloc(1);
    for i in 0..50 {
        let key = format!("entry-{}", i);
        let value = format!("payload-{}", i);
        assert!(table.insert(key.as_bytes(), value.as_bytes()));
    }
    assert_eq!(table.len(), 50);
    // capacity >= count / threshold, i.e. 4 * count <= 3 * capacity + 4
    assert!(4 * table.len() <= 3 * table.allocation() + 4);
    for i in 0..50 {
        let key = format!("entry-{}", i);
        let value = format!("payload-{}", i);
        assert_eq!(table.get(key.as_bytes()), Some(value.as_bytes()));
    }
}

#[test]
fn iteration_yields_each_pair_once() {
    let mut table = ByteBox::prealloc(2);
    for i in 0..10 {
        table.insert(format!("k{}", i).as_bytes(), format!("v{}", i).as_bytes());
    }
    let mut seen: Vec<(Vec<u8>, Vec<u8>)> = Vec::new();
    let mut iter = table.iter();
    while let Some(pair) = iter.next() {
        assert!(!seen.iter().any(|p| p.0 == pair.0), "key yielded twice");
        seen.push(pair);
    }
    assert_eq!(seen.len(), table.len());
    for i in 0..10 {
        let key = format!("k{}", i).into_bytes();
        let value = format!("v{}", i).into_bytes();
        assert!(seen.contains(&(key, value)));
    }
}

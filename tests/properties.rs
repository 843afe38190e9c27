use zomdb::{
    deserialize, encode_put, get_bytes, put_bytes, scan_bytes, serialize, to_errno,
    DeserializationError, Error, HeapTuple, InputError, Iter, Step, ERR_DATA, ERR_IO,
    ERR_KEY_SIZE, ERR_NOT_FOUND, ERR_UTF8, ERR_VALUE_SIZE, MAX_TUPLE_SIZE,
};

fn pairs(heap: &[u8]) -> Vec<(Vec<u8>, Vec<u8>)> {
    scan_bytes(heap)
        .unwrap()
        .into_iter()
        .map(|t| (t.key, t.value))
        .collect()
}

#[test]
fn serialize_literal() {
    assert_eq!(
        serialize(b"key", b"value"),
        vec![b'v', b'a', b'l', b'u', b'e', b'k', b'e', b'y', 0x00, 0x05, 0x02]
    );
}

#[test]
fn serialize_largest_tuple() {
    let key = vec![7u8; 256];
    let value = vec![9u8; 1024];
    let bytes = serialize(&key, &value);
    assert_eq!(bytes.len(), 256 + 1024 + 3);
    assert_eq!(bytes.len(), MAX_TUPLE_SIZE);
    assert_eq!(&bytes[bytes.len() - 3..], &[0x04, 0x00, 0xFF]);
    assert_eq!(deserialize(&bytes).unwrap(), HeapTuple::from(&key, &value));
}

#[test]
fn serialize_smallest_tuple() {
    let bytes = serialize(b"k", b"");
    assert_eq!(bytes, vec![b'k', 0, 0, 0]);
    let t = deserialize(&bytes).unwrap();
    assert_eq!(t.key, b"k".to_vec());
    assert!(t.value.is_empty());
}

#[test]
fn round_trip_many_sizes() {
    for klen in [1usize, 2, 100, 255, 256] {
        for vlen in [0usize, 1, 255, 256, 257, 1023, 1024] {
            let key: Vec<u8> = (0..klen).map(|i| (i * 7) as u8).collect();
            let value: Vec<u8> = (0..vlen).map(|i| (i * 13 + 255) as u8).collect();
            let bytes = serialize(&key, &value);
            assert_eq!(bytes.len(), klen + vlen + 3);
            let t = deserialize(&bytes).unwrap();
            assert_eq!(t.key, key);
            assert_eq!(t.value, value);
            assert_eq!(t.disk_len(), bytes.len());
        }
    }
}

#[test]
fn deserialize_reads_the_last_record_only() {
    let mut bytes = serialize(b"a", b"one");
    bytes.extend(serialize(b"bb", b"two"));
    assert_eq!(deserialize(&bytes).unwrap(), HeapTuple::from(b"bb", b"two"));
}

#[test]
fn deserialize_too_short() {
    assert!(matches!(deserialize(&[0, 0, 0]), Err(DeserializationError::DataTooShort)));
    // Announces a five-byte value and a three-byte key, holds less.
    assert!(matches!(
        deserialize(&[b'k', b'e', b'y', 0, 5, 2]),
        Err(DeserializationError::DataTooShort)
    ));
}

#[test]
fn deserialize_value_too_big() {
    // 0x0401 = 1025 bytes of value.
    assert!(matches!(
        deserialize(&[b'k', 0x04, 0x01, 0]),
        Err(DeserializationError::ValueSizeTooBig)
    ));
}

#[test]
fn three_puts_three_gets() {
    let mut heap = Vec::new();
    put_bytes(&mut heap, b"key1", b"value1").unwrap();
    put_bytes(&mut heap, b"key2", b"value2").unwrap();
    put_bytes(&mut heap, b"key3", b"value3").unwrap();
    assert_eq!(get_bytes(&heap, b"key2").unwrap(), Some(b"value2".to_vec()));
    assert_eq!(get_bytes(&heap, b"key1").unwrap(), Some(b"value1".to_vec()));
    assert_eq!(get_bytes(&heap, b"missing").unwrap(), None);
}

#[test]
fn shadowing() {
    let mut heap = Vec::new();
    put_bytes(&mut heap, b"k", b"red").unwrap();
    put_bytes(&mut heap, b"m", b"green").unwrap();
    put_bytes(&mut heap, b"k", b"blue").unwrap();
    assert_eq!(
        pairs(&heap),
        vec![
            (b"k".to_vec(), b"blue".to_vec()),
            (b"m".to_vec(), b"green".to_vec())
        ]
    );
    assert_eq!(get_bytes(&heap, b"k").unwrap(), Some(b"blue".to_vec()));
}

#[test]
fn get_returns_last_put_of_each_key() {
    let mut heap = Vec::new();
    for round in 0..5u8 {
        for key in [b"a", b"b", b"c"] {
            put_bytes(&mut heap, key, &[key[0], round]).unwrap();
        }
    }
    put_bytes(&mut heap, b"b", b"final").unwrap();
    assert_eq!(get_bytes(&heap, b"a").unwrap(), Some(vec![b'a', 4]));
    assert_eq!(get_bytes(&heap, b"b").unwrap(), Some(b"final".to_vec()));
    assert_eq!(get_bytes(&heap, b"c").unwrap(), Some(vec![b'c', 4]));
}

#[test]
fn iterator_is_newest_first_dedup() {
    let puts: [(&[u8], &[u8]); 6] = [
        (b"x", b"1"),
        (b"y", b"2"),
        (b"z", b"3"),
        (b"y", b"4"),
        (b"x", b"5"),
        (b"w", b""),
    ];
    let mut heap = Vec::new();
    for (k, v) in puts {
        put_bytes(&mut heap, k, v).unwrap();
    }
    assert_eq!(
        pairs(&heap),
        vec![
            (b"w".to_vec(), b"".to_vec()),
            (b"x".to_vec(), b"5".to_vec()),
            (b"y".to_vec(), b"4".to_vec()),
            (b"z".to_vec(), b"3".to_vec()),
        ]
    );
}

#[test]
fn no_phantom_records() {
    let mut heap = Vec::new();
    for i in 0..200u32 {
        let key = format!("key{}", i % 37);
        let value = vec![(i % 251) as u8; (i as usize * 5) % 700];
        put_bytes(&mut heap, key.as_bytes(), &value).unwrap();
    }
    assert_eq!(scan_bytes(&heap).unwrap().len(), 37);
}

#[test]
fn empty_heap() {
    assert!(scan_bytes(&[]).unwrap().is_empty());
    assert_eq!(get_bytes(&[], b"key").unwrap(), None);
}

#[test]
fn chunk_straddling_tuples() {
    let key1 = vec![b'a'; 256];
    let key2 = vec![b'b'; 256];
    let value1 = vec![0xAAu8; 390];
    let value2 = vec![0xBBu8; 390];
    let mut heap = Vec::new();
    put_bytes(&mut heap, &key1, &value1).unwrap();
    put_bytes(&mut heap, &key2, &value2).unwrap();
    assert!(heap.len() > MAX_TUPLE_SIZE);
    assert_eq!(pairs(&heap), vec![(key2.clone(), value2), (key1.clone(), value1.clone())]);
    assert_eq!(get_bytes(&heap, &key1).unwrap(), Some(value1));
}

#[test]
fn many_large_records_across_chunks() {
    let mut heap = Vec::new();
    let mut expected = Vec::new();
    for i in 0..20usize {
        let key = vec![i as u8; 1 + (i * 37) % 256];
        let value = vec![(i * 3) as u8; (i * 211) % 1025];
        put_bytes(&mut heap, &key, &value).unwrap();
        expected.push((key, value));
    }
    expected.reverse();
    assert_eq!(pairs(&heap), expected);
}

#[test]
fn non_utf8_value() {
    let mut heap = Vec::new();
    put_bytes(&mut heap, b"key", &[0x6B, 0x65, 0xF2]).unwrap();
    assert_eq!(get_bytes(&heap, b"key").unwrap(), Some(vec![0x6B, 0x65, 0xF2]));
    let mut heap = Vec::new();
    put_bytes(&mut heap, &[0xFF, 0x00], &[0xFF, 0xFF, 0x00, 0xC3]).unwrap();
    assert_eq!(get_bytes(&heap, &[0xFF, 0x00]).unwrap(), Some(vec![0xFF, 0xFF, 0x00, 0xC3]));
}

#[test]
fn oversized_input() {
    let mut heap = serialize(b"key", b"value");
    let before = heap.clone();
    assert!(matches!(
        put_bytes(&mut heap, b"", b"v"),
        Err(Error::Input(InputError::KeySize(0)))
    ));
    assert!(matches!(
        put_bytes(&mut heap, b"k", &vec![0u8; 1025]),
        Err(Error::Input(InputError::ValueSize(1025)))
    ));
    assert!(matches!(
        put_bytes(&mut heap, &vec![1u8; 257], b"v"),
        Err(Error::Input(InputError::KeySize(257)))
    ));
    assert_eq!(heap, before);
}

#[test]
fn encode_put_accepts_the_limits() {
    let bytes = encode_put(&vec![1u8; 256], &vec![2u8; 1024]).unwrap();
    assert_eq!(bytes.len(), MAX_TUPLE_SIZE);
    assert!(matches!(encode_put(b"", b""), Err(Error::Input(InputError::KeySize(0)))));
}

#[test]
fn corrupt_header_is_a_data_error() {
    let mut heap = serialize(b"key", b"value");
    heap.extend_from_slice(&[b'k', 0x05, 0x00, 0x00]);
    assert!(matches!(scan_bytes(&heap), Err(DeserializationError::ValueSizeTooBig)));
    assert!(matches!(get_bytes(&heap, b"key"), Err(DeserializationError::ValueSizeTooBig)));
}

#[test]
fn stray_leading_bytes_are_a_data_error() {
    let mut heap = vec![1u8, 2];
    heap.extend(serialize(b"key", b"value"));
    assert!(matches!(scan_bytes(&heap), Err(DeserializationError::DataTooShort)));
    assert!(matches!(get_bytes(&heap, b"nope"), Err(DeserializationError::DataTooShort)));
    // A lookup that finds its key before the damage still succeeds.
    assert_eq!(get_bytes(&heap, b"key").unwrap(), Some(b"value".to_vec()));
}

#[test]
fn step_protocol_by_hand() {
    let mut heap = Vec::new();
    put_bytes(&mut heap, b"a", b"1").unwrap();
    put_bytes(&mut heap, b"b", b"2").unwrap();
    let mut it = Iter::new();
    assert!(matches!(it.next_step(), Step::Measure));
    it.start(heap.len() as u64);
    let (offset, len) = match it.next_step() {
        Step::Read { offset, len } => (offset, len),
        other => panic!("expected a read, got {:?}", other),
    };
    assert_eq!((offset, len), (0, heap.len()));
    it.fill(heap[offset as usize..offset as usize + len].to_vec());
    match it.next_step() {
        Step::Yield(t) => assert_eq!(t, HeapTuple::from(b"b", b"2")),
        other => panic!("expected a record, got {:?}", other),
    }
    match it.next_step() {
        Step::Yield(t) => assert_eq!(t, HeapTuple::from(b"a", b"1")),
        other => panic!("expected a record, got {:?}", other),
    }
    assert!(matches!(it.next_step(), Step::Done));
}

#[test]
fn step_reads_whole_chunks_from_the_end() {
    let mut heap = Vec::new();
    for i in 0..3u8 {
        put_bytes(&mut heap, &[i; 200], &[i; 1000]).unwrap();
    }
    let mut it = Iter::new();
    assert!(matches!(it.next_step(), Step::Measure));
    it.start(heap.len() as u64);
    match it.next_step() {
        Step::Read { offset, len } => {
            assert_eq!(len, MAX_TUPLE_SIZE);
            assert_eq!(offset as usize, heap.len() - MAX_TUPLE_SIZE);
        }
        other => panic!("expected a read, got {:?}", other),
    }
}

#[test]
fn find_step_stops_at_the_key() {
    let mut heap = Vec::new();
    put_bytes(&mut heap, b"a", b"old").unwrap();
    put_bytes(&mut heap, b"b", b"x").unwrap();
    put_bytes(&mut heap, b"a", b"new").unwrap();
    let mut it = Iter::new();
    assert!(matches!(it.find_step(b"a"), Step::Measure));
    it.start(heap.len() as u64);
    assert!(matches!(it.find_step(b"a"), Step::Read { .. }));
    it.fill(heap.clone());
    match it.find_step(b"a") {
        Step::Yield(t) => assert_eq!(t.value, b"new".to_vec()),
        other => panic!("expected a record, got {:?}", other),
    }
}

#[test]
fn error_codes() {
    assert_eq!(ERR_NOT_FOUND, 1);
    assert_eq!(to_errno(&Error::IO(std::io::Error::new(std::io::ErrorKind::Other, "x"))), ERR_IO);
    assert_eq!(ERR_IO, 10);
    let utf8 = std::str::from_utf8(&[0xFFu8]).unwrap_err();
    assert_eq!(to_errno(&Error::Input(InputError::Utf8(utf8))), ERR_UTF8);
    assert_eq!(ERR_UTF8, 30);
    assert_eq!(to_errno(&Error::Input(InputError::KeySize(0))), ERR_KEY_SIZE);
    assert_eq!(ERR_KEY_SIZE, 31);
    assert_eq!(to_errno(&Error::Input(InputError::ValueSize(1025))), ERR_VALUE_SIZE);
    assert_eq!(ERR_VALUE_SIZE, 32);
    assert_eq!(
        to_errno(&Error::Data(DeserializationError::ValueSizeTooBig)),
        ERR_DATA
    );
    assert_eq!(ERR_DATA, 50);
}

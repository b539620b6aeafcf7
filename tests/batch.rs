use wasmflow::abi::AbiFault;
use wasmflow::frame::frame_at;
use wasmflow::memory::GuestMemory;
use wasmflow::record::FlowRecord;

fn rec(key: Option<&[u8]>, value: Option<&[u8]>, headers: Vec<(&str, Vec<u8>)>, offset: i64) -> FlowRecord {
    FlowRecord {
        key: key.map(|k| k.to_vec()),
        value: value.map(|v| v.to_vec()),
        headers: headers.into_iter().map(|(n, v)| (n.to_string(), v)).collect(),
        topic: "batch-topic".to_string(),
        partition: 2,
        offset,
        timestamp: 17,
    }
}

#[test]
fn batch_round_trip() {
    let recs = vec![
        rec(Some(b"a"), None, vec![("h", vec![1])], 10),
        rec(None, Some(b"second"), vec![], 11),
        rec(Some(b""), Some(b"x"), vec![("n1", vec![]), ("n2", vec![5, 6])], -1),
    ];
    let mut mem = GuestMemory::new();
    let (ptr, len) = mem.lower_batch(&recs).unwrap();
    assert_eq!(len, 3);
    assert_eq!(ptr % 8, 0);
    let back = mem.lift_batch(ptr, len).unwrap();
    assert_eq!(back.len(), 3);
    for (b, r) in back.iter().zip(recs.iter()) {
        assert_eq!(b.key, r.key);
        assert_eq!(b.value, r.value);
        assert_eq!(b.headers, r.headers);
        assert_eq!(b.offset, r.offset);
    }
}

#[test]
fn batch_frames_in_memory() {
    let recs = vec![rec(None, Some(b"v"), vec![], 99)];
    let mut mem = GuestMemory::new();
    mem.allocate(1, 5).unwrap();
    let (ptr, len) = mem.lower_batch(&recs).unwrap();
    assert_eq!((ptr, len), (8, 1));
    let frame_bytes = mem.read(ptr as i64, 40).unwrap();
    let f = frame_at(&frame_bytes, 0).unwrap();
    assert_eq!(f.key_disc, 0);
    assert_eq!(f.value_disc, 1);
    assert_eq!(f.value_len, 1);
    assert_eq!(f.headers_len, 0);
    assert_eq!(f.offset, 99);
    assert_eq!(mem.read(f.value_ptr as i64, 1).unwrap(), b"v".to_vec());
}

#[test]
fn batch_empty_and_out_of_bounds() {
    let mut mem = GuestMemory::new();
    let (ptr, len) = mem.lower_batch(&Vec::new()).unwrap();
    assert_eq!(len, 0);
    assert!(mem.lift_batch(ptr, len).unwrap().is_empty());
    assert!(matches!(mem.lift_batch(0, 1), Err(AbiFault::OutOfBounds)));
    assert!(matches!(mem.lift_batch(-8, 0), Err(AbiFault::OutOfBounds)));
}

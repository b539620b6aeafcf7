use wasmflow::abi::{allocation_plan, call_args, lowered_regions, AbiFault, AllocRequest, CallArgs};
use wasmflow::frame::{frame_at, push_frame, Frame, FRAME_SIZE};
use wasmflow::memory::GuestMemory;
use wasmflow::record::FlowRecord;
use wasmflow::status::Status;

fn sample() -> FlowRecord {
    FlowRecord {
        key: Some(b"k1".to_vec()),
        value: Some(b"hello world".to_vec()),
        headers: vec![
            ("trace".to_string(), vec![1, 2, 3]),
            ("trace".to_string(), vec![]),
            ("é".to_string(), vec![0xff]),
        ],
        topic: "orders".to_string(),
        partition: 7,
        offset: -5,
        timestamp: 1_700_000_000,
    }
}

fn same(a: &FlowRecord, b: &FlowRecord) -> bool {
    a.key == b.key
        && a.value == b.value
        && a.headers == b.headers
        && a.topic == b.topic
        && a.partition == b.partition
        && a.offset == b.offset
        && a.timestamp == b.timestamp
}

#[test]
fn round_trip_full_record() {
    let rec = sample();
    let mut mem = GuestMemory::new();
    let args = mem.lower(&rec).unwrap();
    let back = mem.lift(&args).unwrap();
    assert!(same(&rec, &back));
}

#[test]
fn round_trip_after_other_data() {
    let mut mem = GuestMemory::new();
    mem.allocate(1, 3).unwrap();
    let rec = sample();
    let args = mem.lower(&rec).unwrap();
    assert_eq!(args.headers_ptr % 4, 0);
    let back = mem.lift(&args).unwrap();
    assert!(same(&rec, &back));
}

#[test]
fn optional_key_absent() {
    let rec = FlowRecord {
        key: None,
        value: Some(b"hello".to_vec()),
        headers: vec![],
        topic: "t".to_string(),
        partition: 0,
        offset: 0,
        timestamp: -1,
    };
    let mut mem = GuestMemory::new();
    let args = mem.lower(&rec).unwrap();
    assert_eq!(args.key_disc, 0);
    assert_eq!(args.key_ptr, 0);
    assert_eq!(args.key_len, 0);
    assert_eq!(args.value_disc, 1);
    assert_eq!(args.value_len, 5);
    assert_eq!(args.headers_len, 0);
    assert_eq!(args.timestamp, -1);
    let back = mem.lift(&args).unwrap();
    assert_eq!(back.key, None);
    assert_eq!(back.value, Some(b"hello".to_vec()));
}

#[test]
fn plan_and_regions() {
    let rec = sample();
    let plan = allocation_plan(&rec).unwrap();
    let sizes: Vec<u32> = plan.iter().map(|r| r.size).collect();
    // key, value, topic, then name and value of each header, then the table
    assert_eq!(sizes, vec![2, 11, 6, 5, 3, 5, 0, 2, 1, 48]);
    assert_eq!(plan[plan.len() - 1], AllocRequest { align: 4, size: 48 });
    assert!(plan[..plan.len() - 1].iter().all(|r| r.align == 1));
    let ptrs: Vec<u32> = (0..plan.len() as u32).map(|i| 100 * (i + 1)).collect();
    let regions = lowered_regions(&rec, &ptrs);
    assert_eq!(regions[0], b"k1".to_vec());
    assert_eq!(regions[2], b"orders".to_vec());
    assert_eq!(regions[7], "é".as_bytes().to_vec());
    let table = &regions[9];
    assert_eq!(table.len(), 48);
    // first header: name at region 3, value at region 4
    assert_eq!(&table[0..4], &400u32.to_le_bytes());
    assert_eq!(&table[4..8], &5u32.to_le_bytes());
    assert_eq!(&table[8..12], &500u32.to_le_bytes());
    assert_eq!(&table[12..16], &3u32.to_le_bytes());
    let args = call_args(&rec, &ptrs);
    assert_eq!(
        args,
        CallArgs {
            key_disc: 1,
            key_ptr: 100,
            key_len: 2,
            value_disc: 1,
            value_ptr: 200,
            value_len: 11,
            headers_ptr: 1000,
            headers_len: 3,
            topic_ptr: 300,
            topic_len: 6,
            partition: 7,
            offset: -5,
            timestamp: 1_700_000_000,
        }
    );
}

#[test]
fn lift_invalid_discriminant() {
    let mut mem = GuestMemory::new();
    let mut args = mem.lower(&sample()).unwrap();
    args.value_disc = 2;
    assert!(matches!(mem.lift(&args), Err(AbiFault::InvalidVariant)));
}

#[test]
fn lift_out_of_bounds() {
    let mut mem = GuestMemory::new();
    let mut args = mem.lower(&sample()).unwrap();
    args.key_len = mem.size() as i32 - args.key_ptr + 1;
    assert!(matches!(mem.lift(&args), Err(AbiFault::OutOfBounds)));
    let mut args2 = mem.lower(&sample()).unwrap();
    args2.topic_ptr = -4;
    assert!(matches!(mem.lift(&args2), Err(AbiFault::OutOfBounds)));
}

#[test]
fn lift_invalid_utf8_topic() {
    let mut mem = GuestMemory::new();
    let rec = FlowRecord {
        key: Some(vec![0xc3, 0x28]),
        value: None,
        headers: vec![],
        topic: "x".to_string(),
        partition: 1,
        offset: 1,
        timestamp: 1,
    };
    let mut args = mem.lower(&rec).unwrap();
    args.topic_ptr = args.key_ptr;
    args.topic_len = args.key_len;
    assert!(matches!(mem.lift(&args), Err(AbiFault::InvalidUtf8)));
    assert_eq!(AbiFault::InvalidUtf8.kind(), "invalid-utf8");
    assert_eq!(AbiFault::OutOfBounds.kind(), "guest-memory-out-of-bounds");
    assert_eq!(AbiFault::InvalidVariant.kind(), "invalid-variant");
}

#[test]
fn memory_write_and_read() {
    let mut mem = GuestMemory::new();
    let p = mem.allocate(8, 10).unwrap();
    assert_eq!(p, 0);
    let q = mem.allocate(8, 4).unwrap();
    assert_eq!(q, 16);
    assert_eq!(mem.size(), 20);
    mem.write(q, &[9, 8, 7, 6]).unwrap();
    assert_eq!(mem.read(16, 4).unwrap(), vec![9, 8, 7, 6]);
    assert!(matches!(mem.write(18, &[1, 2, 3]), Err(AbiFault::OutOfBounds)));
    assert!(matches!(mem.read(18, 3), Err(AbiFault::OutOfBounds)));
}

#[test]
fn status_codes() {
    assert_eq!(Status::from_code(0), Ok(Status::Success));
    assert_eq!(Status::from_code(1), Ok(Status::Error));
    assert_eq!(Status::from_code(2), Err(AbiFault::InvalidVariant));
    assert_eq!(Status::Success.code(), 0);
    assert_eq!(Status::Error.code(), 1);
    assert_eq!(Status::of_call(Ok(0)), Status::Success);
    assert_eq!(Status::of_call(Ok(7)), Status::Error);
    assert_eq!(Status::of_call(Err(())), Status::Error);
}

#[test]
fn frame_layout_offsets() {
    let f = Frame {
        key_disc: 1,
        key_ptr: 0x0102_0304,
        key_len: 5,
        value_disc: 0,
        value_ptr: 0,
        value_len: 0,
        headers_ptr: 0x1000,
        headers_len: 2,
        offset: -2,
    };
    let mut out = vec![0xaa];
    push_frame(&mut out, &f);
    assert_eq!(out.len(), 1 + FRAME_SIZE);
    let b = &out[1..];
    assert_eq!(FRAME_SIZE, 40);
    assert_eq!(b[0], 1);
    assert_eq!(&b[4..8], &[4, 3, 2, 1]);
    assert_eq!(&b[8..12], &5u32.to_le_bytes());
    assert_eq!(b[12], 0);
    assert_eq!(&b[24..28], &0x1000u32.to_le_bytes());
    assert_eq!(&b[28..32], &2u32.to_le_bytes());
    assert_eq!(&b[32..40], &(-2i64).to_le_bytes());
    assert_eq!(frame_at(&out, 1), Ok(f));
}

#[test]
fn frame_invalid_discriminant() {
    let f = Frame {
        key_disc: 0,
        key_ptr: 0,
        key_len: 0,
        value_disc: 1,
        value_ptr: 8,
        value_len: 1,
        headers_ptr: 0,
        headers_len: 0,
        offset: 3,
    };
    let mut out = Vec::new();
    push_frame(&mut out, &f);
    out[12] = 3;
    assert_eq!(frame_at(&out, 0), Err(AbiFault::InvalidVariant));
}

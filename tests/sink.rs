use wasmflow::config::{ConfigError, Sink};
use wasmflow::dispatch::RecordCounter;
use wasmflow::flush::{object_key, BufferedSink, WallClock};
use wasmflow::sink::PartitionBuffers;

fn s3(file_size: u16) -> Sink {
    Sink::S3 {
        region: "us-east-1".to_string(),
        bucket: "bucket".to_string(),
        key_prefix: "prefix".to_string(),
        file_size,
    }
}

#[test]
fn flush_threshold_at_801_bytes() {
    let mut b = PartitionBuffers::new(1000);
    assert_eq!(b.append(0, &[1u8; 400]), None);
    assert_eq!(b.append(0, &[2u8; 400]), None);
    assert_eq!(b.pending(0).len(), 800);
    let flushed = b.append(0, &[3u8]).unwrap();
    assert_eq!(flushed.len(), 801);
    assert_eq!(&flushed[..400], &[1u8; 400][..]);
    assert_eq!(&flushed[400..800], &[2u8; 400][..]);
    assert_eq!(flushed[800], 3);
    assert!(b.pending(0).is_empty());
    assert_eq!(b.append(0, &[4u8; 10]), None);
    assert_eq!(b.pending(0), vec![4u8; 10]);
}

#[test]
fn partitions_are_independent() {
    let mut b = PartitionBuffers::new(10);
    assert_eq!(b.append(1, &[1u8; 8]), None);
    assert_eq!(b.append(2, &[2u8; 8]), None);
    assert_eq!(b.append(1, &[9u8]).unwrap(), {
        let mut v = vec![1u8; 8];
        v.push(9);
        v
    });
    assert_eq!(b.pending(2), vec![2u8; 8]);
    assert!(b.pending(3).is_empty());
}

#[test]
fn per_partition_order_kept() {
    let mut b = PartitionBuffers::new(5);
    let mut out: Vec<u8> = Vec::new();
    for chunk in [&b"ab"[..], b"cd", b"ef", b"g", b"hij"] {
        if let Some(f) = b.append(4, chunk) {
            out.extend_from_slice(&f);
        }
    }
    out.extend_from_slice(&b.pending(4));
    assert_eq!(out, b"abcdefghij".to_vec());
}

#[test]
fn happy_path_single_object() {
    let mut sink = BufferedSink::new(&s3(1000)).unwrap();
    let mut counter = RecordCounter::new("topic");
    counter.record(0);
    assert!(sink.write(0, &[b'a'; 400]).is_none());
    counter.record(0);
    assert!(sink.write(0, &[b'b'; 400]).is_none());
    counter.record(0);
    let req = sink.write(0, &[b'c'; 400]).unwrap();
    assert_eq!(counter.count(0), 3);
    assert_eq!(req.body.len(), 1200);
    let mut expected = vec![b'a'; 400];
    expected.extend_from_slice(&[b'b'; 400]);
    expected.extend_from_slice(&[b'c'; 400]);
    assert_eq!(req.body, expected);
    assert_eq!(req.partition, 0);
    let parts: Vec<&str> = req.key.split('/').collect();
    assert_eq!(parts.len(), 9);
    assert_eq!(parts[0], "prefix");
    assert_eq!(parts[1], "0");
    assert_eq!(parts[2].len(), 4);
    for p in &parts[3..8] {
        assert_eq!(p.len(), 2);
        assert!(p.chars().all(|c| c.is_ascii_digit()));
    }
    let id: Vec<char> = parts[8].chars().collect();
    assert_eq!(id.len(), 36);
    for (i, c) in id.iter().enumerate() {
        if [8, 13, 18, 23].contains(&i) {
            assert_eq!(*c, '-');
        } else {
            assert!(c.is_ascii_hexdigit() && !c.is_ascii_uppercase());
        }
    }
    assert_eq!(id[14], '4');
    assert!(['8', '9', 'a', 'b'].contains(&id[19]));
    assert!(sink.pending(0).is_empty());
    assert_eq!(sink.bucket(), "bucket");
}

#[test]
fn disabled_sink_refused() {
    assert!(matches!(BufferedSink::new(&Sink::Disabled), Err(ConfigError::SinkDisabled)));
    assert_eq!(
        ConfigError::SinkDisabled.message(),
        "Cannot create S3Writer when sink is None"
    );
}

#[test]
fn object_key_format() {
    let t = WallClock { year: 2024, month: 3, day: 9, hour: 7, minute: 0, second: 59 };
    let k = object_key("my-stream", 12, &t, "0f0e0d0c-0b0a-4908-8706-050403020100");
    assert_eq!(k, "my-stream/12/2024/03/09/07/00/59/0f0e0d0c-0b0a-4908-8706-050403020100");
    let early = WallClock { year: 987, month: 12, day: 31, hour: 23, minute: 5, second: 1 };
    assert_eq!(object_key("p", -1, &early, "id"), "p/-1/0987/12/31/23/05/01/id");
    let far = WallClock { year: 10000, month: 1, day: 2, hour: 3, minute: 4, second: 5 };
    assert_eq!(object_key("p", 0, &far, "id"), "p/0/+10000/01/02/03/04/05/id");
    let before = WallClock { year: -5, month: 1, day: 2, hour: 3, minute: 4, second: 5 };
    assert_eq!(object_key("p", 0, &before, "id"), "p/0/-0005/01/02/03/04/05/id");
}

#[test]
fn interleaved_partitions_keep_order() {
    let mut sink = BufferedSink::new(&s3(10)).unwrap();
    let writes: Vec<(i32, Vec<u8>)> = (0u8..30).map(|i| ((i % 3) as i32, vec![i, i])).collect();
    let mut objects: Vec<(i32, Vec<u8>)> = Vec::new();
    for (p, body) in &writes {
        if let Some(req) = sink.write(*p, body) {
            objects.push((req.partition, req.body));
        }
    }
    for p in 0..3 {
        let mut seen: Vec<u8> = objects
            .iter()
            .filter(|(q, _)| *q == p)
            .flat_map(|(_, b)| b.clone())
            .collect();
        seen.extend_from_slice(&sink.pending(p));
        let sent: Vec<u8> = writes
            .iter()
            .filter(|(q, _)| *q == p)
            .flat_map(|(_, b)| b.clone())
            .collect();
        assert_eq!(seen, sent);
    }
    assert!(objects.iter().all(|(_, b)| b.len() * 5 > 10 * 4));
}

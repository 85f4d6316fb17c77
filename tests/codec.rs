use kvs::codec::decode_payload;
use kvs::{deserialize, serialize, KvsError, RecordParser, Request};

fn put(k: &str, v: &str) -> Request {
    Request::Put { key: k.to_string(), val: v.to_string() }
}

#[test]
fn serialize_put_exact_bytes() {
    assert_eq!(serialize(&put("key1", "value1")), b"16\nset 4 key1value1\n".to_vec());
}

#[test]
fn serialize_rm_and_get_exact_bytes() {
    assert_eq!(serialize(&Request::Rm { key: "k".to_string() }), b"4\nrm k\n".to_vec());
    assert_eq!(serialize(&Request::Get { key: "abc".to_string() }), b"7\nget abc\n".to_vec());
}

#[test]
fn serialize_counts_bytes_of_unicode_keys() {
    // "é" is two bytes in UTF-8.
    assert_eq!(serialize(&put("é", "x")), b"9\nset 2 \xc3\xa9x\n".to_vec());
}

#[test]
fn round_trip_of_each_request() {
    let reqs = vec![
        put("key1", "value1"),
        put("", ""),
        put("ключ", "значение\nс переводом строки"),
        Request::Rm { key: "key1".to_string() },
        Request::Get { key: "key 2".to_string() },
    ];
    for r in reqs {
        assert_eq!(deserialize(&serialize(&r)), Ok(r.clone()));
    }
}

#[test]
fn round_trip_of_a_large_value() {
    let v = "x".repeat(1 << 20);
    let r = put("big", &v);
    assert_eq!(deserialize(&serialize(&r)), Ok(r));
}

#[test]
fn deserialize_rejects_a_bad_frame() {
    assert!(matches!(deserialize(b""), Err(KvsError::Parser(_))));
    assert!(matches!(deserialize(b"5\nrm k\n"), Err(KvsError::Parser(_))));
    assert!(matches!(deserialize(b"4\nrm k\nextra"), Err(KvsError::Parser(_))));
    assert!(matches!(deserialize(b"x\nrm k\n"), Err(KvsError::Parser(_))));
    assert!(matches!(deserialize(b"99999999999999999999999\nrm k\n"), Err(KvsError::Parser(_))));
}

#[test]
fn deserialize_rejects_an_unknown_payload() {
    match deserialize(b"5\nput k\n") {
        Err(KvsError::KvsDeserializer(p, _)) => assert_eq!(p, b"put k".to_vec()),
        other => panic!("unexpected {:?}", other),
    }
    // The key length runs past the payload.
    assert!(matches!(deserialize(b"9\nset 9 abc\n"), Err(KvsError::KvsDeserializer(_, _))));
}

#[test]
fn deserialize_rejects_invalid_utf8() {
    assert!(matches!(decode_payload(b"rm \xff"), Err(KvsError::Utf8(_))));
    assert!(matches!(decode_payload(b"set 1 a\xfe"), Err(KvsError::Utf8(_))));
}

#[test]
fn parser_yields_each_record_with_its_offsets() {
    let mut buf = serialize(&put("a", "1"));
    let first = buf.len();
    buf.extend(serialize(&Request::Rm { key: "a".to_string() }));
    let total = buf.len();
    let mut p = RecordParser::new(&buf);
    let (s0, e0, p0) = p.next().unwrap();
    assert_eq!((s0, e0), (0, first));
    assert_eq!(p0, b"set 1 a1".to_vec());
    assert_eq!(p.read_so_far(), first);
    let (s1, e1, p1) = p.next().unwrap();
    assert_eq!((s1, e1), (first, total));
    assert_eq!(p1, b"rm a".to_vec());
    assert!(p.next().is_none());
    assert_eq!(p.read_so_far(), total);
}

#[test]
fn parser_stops_at_a_torn_tail() {
    let mut buf = serialize(&put("a", "1"));
    let first = buf.len();
    let second = serialize(&put("b", "2"));
    buf.extend_from_slice(&second[..second.len() - 1]);
    let mut p = RecordParser::new(&buf);
    assert!(p.next().is_some());
    assert!(p.next().is_none());
    assert_eq!(p.read_so_far(), first);
}

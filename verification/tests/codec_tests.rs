use minilog::Record;
use minilog::decode;
use minilog::decode_stream;
use minilog::encode;

#[test]
fn round_trip_record() {
    let b = encode(1598832039, 0xd5b4cb20);
    assert_eq!(b.len(), 8);
    let r = decode(&b);
    assert_eq!(r, Record { t: 1598832039, a: 0xd5b4cb20 });
}

#[test]
fn round_trip_negative_timestamp() {
    let b = encode(-1, 1);
    let r = decode(&b);
    assert_eq!(r.t, -1);
    assert_eq!(r.a, 1);
}

#[test]
fn round_trip_extremes() {
    for &t in &[i32::MIN, -86401, -1, 0, 1, 86400, i32::MAX] {
        for &a in &[0u32, 1, 0xd5b4cb20, u32::MAX] {
            let r = decode(&encode(t, a));
            assert_eq!((r.t, r.a), (t, a));
        }
    }
}

#[test]
fn encode_bytes_layout() {
    let b = encode(1598832039, 0xd5b4cb20);
    assert_eq!(b, vec![0x5f, 0x4c, 0x3d, 0xa7, 0xd5, 0xb4, 0xcb, 0x20]);
}

#[test]
fn decode_all_ones() {
    let b = vec![0xffu8; 8];
    let r = decode(&b);
    assert_eq!(r.t, -1);
    assert_eq!(r.a, u32::MAX);
}

#[test]
fn truncation_tolerance() {
    for extra in 0..8usize {
        let mut data = encode(100, 5);
        let mut second = encode(200, 6);
        data.append(&mut second);
        for x in 0..extra {
            data.push(x as u8);
        }
        let rs = decode_stream(&data);
        assert_eq!(rs.len(), 2);
        assert_eq!(rs[0], Record { t: 100, a: 5 });
        assert_eq!(rs[1], Record { t: 200, a: 6 });
    }
}

#[test]
fn short_stream_yields_nothing() {
    for len in 0..8usize {
        let data = vec![0xabu8; len];
        assert_eq!(decode_stream(&data).len(), 0);
    }
}

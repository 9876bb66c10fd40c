use red_mod::bytes::bytes_lt;
use red_mod::key::{read_text, RaxKey};
use red_mod::sds::SDS;
use red_mod::stream::StreamID;

#[test]
fn unsigned_keys_are_big_endian() {
    assert_eq!(0x0102u16.encode(), vec![1, 2]);
    assert_eq!(0x01020304u32.encode(), vec![1, 2, 3, 4]);
    assert_eq!(1u64.encode(), vec![0, 0, 0, 0, 0, 0, 0, 1]);
    assert_eq!(0x0102030405060708u64.encode(), vec![1, 2, 3, 4, 5, 6, 7, 8]);
    assert_eq!(
        0x0102030405060708090a0b0c0d0e0f10u128.encode(),
        vec![1, 2, 3, 4, 5, 6, 7, 8, 9, 10, 11, 12, 13, 14, 15, 16]
    );
    assert_eq!(u64::MAX.encode(), vec![255; 8]);
    assert_eq!(1usize.encode().len(), std::mem::size_of::<usize>());
    assert_eq!(*1usize.encode().last().unwrap(), 1);
}

#[test]
fn signed_keys_are_shifted_so_that_negatives_sort_first() {
    assert_eq!(i16::MIN.encode(), vec![0, 0]);
    assert_eq!((-1i16).encode(), vec![0x7f, 0xff]);
    assert_eq!(0i16.encode(), vec![0x80, 0]);
    assert_eq!(i16::MAX.encode(), vec![0xff, 0xff]);
    assert_eq!(0i32.encode(), vec![0x80, 0, 0, 0]);
    assert_eq!(i64::MIN.encode(), vec![0; 8]);
    assert_eq!(1i64.encode(), vec![0x80, 0, 0, 0, 0, 0, 0, 1]);
    assert_eq!(i128::MIN.encode(), vec![0; 16]);
    assert_eq!((-1i128).encode(), {
        let mut v = vec![255u8; 16];
        v[0] = 0x7f;
        v
    });
    assert_eq!(i128::MAX.encode(), vec![255; 16]);
    assert_eq!(isize::MIN.encode(), vec![0; std::mem::size_of::<isize>()]);
}

#[test]
fn round_trip_u16() {
    for k in [0u16, 1, 255, 256, u16::MAX] {
        assert_eq!(u16::decode(&k.encode()), k);
    }
}

#[test]
fn round_trip_i16() {
    for k in [0i16, 1, -1, i16::MIN, i16::MAX] {
        assert_eq!(i16::decode(&k.encode()), k);
    }
}

#[test]
fn round_trip_u32() {
    for k in [0u32, 1, 65536, u32::MAX] {
        assert_eq!(u32::decode(&k.encode()), k);
    }
}

#[test]
fn round_trip_i32() {
    for k in [0i32, 1, -1, i32::MIN, i32::MAX] {
        assert_eq!(i32::decode(&k.encode()), k);
    }
}

#[test]
fn round_trip_u64() {
    for k in [0u64, 1, 1 << 40, u64::MAX] {
        assert_eq!(u64::decode(&k.encode()), k);
    }
}

#[test]
fn round_trip_i64() {
    for k in [0i64, 1, -1, i64::MIN, i64::MAX] {
        assert_eq!(i64::decode(&k.encode()), k);
    }
}

#[test]
fn round_trip_u128() {
    for k in [0u128, 1, 1 << 100, u128::MAX] {
        assert_eq!(u128::decode(&k.encode()), k);
    }
}

#[test]
fn round_trip_i128() {
    for k in [0i128, 1, -1, i128::MIN, i128::MAX] {
        assert_eq!(i128::decode(&k.encode()), k);
    }
}

#[test]
fn round_trip_usize_and_isize() {
    for k in [0usize, 1, usize::MAX] {
        assert_eq!(usize::decode(&k.encode()), k);
    }
    for k in [0isize, 1, -1, isize::MIN, isize::MAX] {
        assert_eq!(isize::decode(&k.encode()), k);
    }
}

#[test]
fn round_trip_text_and_bytes() {
    for k in ["", "hello", "héllo wörld", "日本語", "\u{10ffff}"] {
        assert_eq!(String::decode(&k.to_string().encode()), k);
        assert_eq!(k.to_string().encode(), k.as_bytes().to_vec());
    }
    let raw = SDS::from_bytes(&[0, 255, 1, 0]);
    assert_eq!(SDS::decode(&raw.encode()).as_bytes(), &[0, 255, 1, 0]);
    assert_eq!(SDS::empty().len(), 0);
    assert_eq!(SDS::new("hé").as_bytes(), "hé".as_bytes());
}

#[test]
fn round_trip_stream_id() {
    for (ms, seq) in [(0u64, 0u64), (1, 2), (u64::MAX, 0), (0, u64::MAX), (u64::MAX, u64::MAX)] {
        let id = StreamID { ms, seq };
        assert_eq!(StreamID::decode(&id.encode()), id);
    }
    assert_eq!(
        StreamID { ms: 1, seq: 2 }.encode(),
        vec![0, 0, 0, 0, 0, 0, 0, 1, 0, 0, 0, 0, 0, 0, 0, 2]
    );
    assert_eq!(StreamID::default(), StreamID { ms: 0, seq: 0 });
}

#[test]
fn bytes_of_another_length_decode_to_the_default() {
    assert_eq!(u16::decode(&[1]), 0);
    assert_eq!(u16::decode(&[1, 2, 3]), 0);
    assert_eq!(i32::decode(&[]), 0);
    assert_eq!(u64::decode(&[1; 7]), 0);
    assert_eq!(i64::decode(&[1; 9]), 0);
    assert_eq!(u128::decode(&[1; 8]), 0);
    assert_eq!(i128::decode(&[1; 17]), 0);
    assert_eq!(usize::decode(&[1; 3]), 0);
    assert_eq!(isize::decode(&[1; 3]), 0);
    assert_eq!(StreamID::decode(&[1; 15]), StreamID { ms: 0, seq: 0 });
    assert_eq!(String::decode(&[0xff, 0xfe]), "");
}

fn sorted_as_encoded<K: RaxKey + PartialOrd + Copy + std::fmt::Debug>(keys: &[K]) {
    for a in keys {
        for b in keys {
            assert_eq!(bytes_lt(&a.encode(), &b.encode()), a < b, "{:?} {:?}", a, b);
        }
    }
}

#[test]
fn encodings_sort_as_the_keys_do() {
    sorted_as_encoded(&[0u16, 1, 255, 256, 257, u16::MAX]);
    sorted_as_encoded(&[i16::MIN, -256, -1, 0, 1, 255, 256, i16::MAX]);
    sorted_as_encoded(&[0u32, 1, 255, 65536, u32::MAX]);
    sorted_as_encoded(&[i32::MIN, -65536, -1, 0, 1, 65536, i32::MAX]);
    sorted_as_encoded(&[0u64, 1, 5, 255, 256, 1 << 32, u64::MAX]);
    sorted_as_encoded(&[i64::MIN, -(1 << 40), -1, 0, 1, 1 << 40, i64::MAX]);
    sorted_as_encoded(&[0u128, 1, 1 << 64, u128::MAX]);
    sorted_as_encoded(&[i128::MIN, -(1 << 100), -1, 0, 1, 1 << 100, i128::MAX]);
    sorted_as_encoded(&[0usize, 1, 256, usize::MAX]);
    sorted_as_encoded(&[isize::MIN, -1, 0, 1, isize::MAX]);
}

#[test]
fn stream_ids_sort_by_millisecond_then_by_number() {
    let ids = [(0u64, 0u64), (0, 1), (0, u64::MAX), (1, 0), (1, 1), (u64::MAX, 0)];
    for a in ids {
        for b in ids {
            let ea = StreamID { ms: a.0, seq: a.1 }.encode();
            let eb = StreamID { ms: b.0, seq: b.1 }.encode();
            assert_eq!(bytes_lt(&ea, &eb), a < b);
        }
    }
}

#[test]
fn texts_sort_by_their_bytes() {
    let texts = ["", "a", "ab", "b", "hello", "hello-war", "hello-wares", "hello-way", "é"];
    for a in texts {
        for b in texts {
            assert_eq!(bytes_lt(&a.to_string().encode(), &b.to_string().encode()), a < b);
        }
    }
}

#[test]
fn byte_order_is_lexicographic() {
    assert!(bytes_lt(b"hello", b"hello-war"));
    assert!(!bytes_lt(b"hello-war", b"hello"));
    assert!(!bytes_lt(b"hello", b"hello"));
    assert!(bytes_lt(b"", b"\0"));
    assert!(!bytes_lt(b"", b""));
    assert!(bytes_lt(&[1, 255], &[2]));
    assert!(bytes_lt(&[1, 2, 3], &[1, 2, 4]));
}

#[test]
fn text_is_read_from_utf8_bytes_only() {
    assert_eq!(read_text("héllo".as_bytes()).unwrap(), "héllo");
    assert_eq!(read_text(b"").unwrap(), "");
    assert!(matches!(read_text(&[0xc3]), Err(red_mod::error::RedError::FromUtf8(_))));
    assert!(matches!(read_text(&[0xed, 0xa0, 0x80]), Err(red_mod::error::RedError::FromUtf8(_))));
    assert!(matches!(read_text(&[0xc0, 0x80]), Err(red_mod::error::RedError::FromUtf8(_))));
}

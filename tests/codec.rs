use sbi::{DeSerialize, Serialize, SBI};

fn encode<T: Serialize>(value: T) -> Vec<u8> {
    let mut buf = SBI::new();
    buf.serialize(value);
    buf.data
}

fn decode<T: DeSerialize>(bytes: Vec<u8>) -> Result<T, ()> {
    let mut buf = SBI { data: bytes };
    buf.deserialize::<T>()
}

#[test]
fn new_buffer_is_empty() {
    let buf = SBI::new();
    assert!(buf.data.is_empty());
}

#[test]
fn unsigned_integers_are_big_endian() {
    assert_eq!(encode(0xabu8), vec![0xab]);
    assert_eq!(encode(0x0102u16), vec![0x01, 0x02]);
    assert_eq!(encode(0x0102_0304u32), vec![1, 2, 3, 4]);
    assert_eq!(encode(0x0102_0304_0506_0708u64), vec![1, 2, 3, 4, 5, 6, 7, 8]);
    assert_eq!(
        encode(0x0102_0304_0506_0708_090a_0b0c_0d0e_0f10u128),
        (1u8..=16).collect::<Vec<u8>>()
    );
    assert_eq!(encode(1usize), {
        let mut v = vec![0u8; std::mem::size_of::<usize>() - 1];
        v.push(1);
        v
    });
}

#[test]
fn signed_integers_are_twos_complement() {
    assert_eq!(encode(-1i8), vec![0xff]);
    assert_eq!(encode(-2i16), vec![0xff, 0xfe]);
    assert_eq!(encode(-2i32), vec![0xff, 0xff, 0xff, 0xfe]);
    assert_eq!(encode(i64::MIN), vec![0x80, 0, 0, 0, 0, 0, 0, 0]);
    assert_eq!(encode(1i128).len(), 16);
    assert_eq!(encode(-1isize), vec![0xff; std::mem::size_of::<isize>()]);
}

#[test]
fn integers_round_trip() {
    for v in [0u8, 1, 127, 128, u8::MAX] {
        assert_eq!(decode::<u8>(encode(v)), Ok(v));
    }
    for v in [0u16, 1, 0x1234, u16::MAX] {
        assert_eq!(decode::<u16>(encode(v)), Ok(v));
    }
    for v in [0u32, 1, 0xdead_beef, u32::MAX] {
        assert_eq!(decode::<u32>(encode(v)), Ok(v));
    }
    for v in [0u64, 1, 0x0123_4567_89ab_cdef, u64::MAX] {
        assert_eq!(decode::<u64>(encode(v)), Ok(v));
    }
    for v in [0u128, 1, u128::MAX] {
        assert_eq!(decode::<u128>(encode(v)), Ok(v));
    }
    for v in [0usize, 1, usize::MAX] {
        assert_eq!(decode::<usize>(encode(v)), Ok(v));
    }
    for v in [i8::MIN, -1, 0, 1, i8::MAX] {
        assert_eq!(decode::<i8>(encode(v)), Ok(v));
    }
    for v in [i16::MIN, -1, 0, 1, i16::MAX] {
        assert_eq!(decode::<i16>(encode(v)), Ok(v));
    }
    for v in [i32::MIN, -1, 0, 1, i32::MAX] {
        assert_eq!(decode::<i32>(encode(v)), Ok(v));
    }
    for v in [i64::MIN, -1, 0, 1, i64::MAX] {
        assert_eq!(decode::<i64>(encode(v)), Ok(v));
    }
    for v in [i128::MIN, -1, 0, 1, i128::MAX] {
        assert_eq!(decode::<i128>(encode(v)), Ok(v));
    }
    for v in [isize::MIN, -1, 0, 1, isize::MAX] {
        assert_eq!(decode::<isize>(encode(v)), Ok(v));
    }
}

#[test]
fn decoding_reads_given_bytes() {
    assert_eq!(decode::<u16>(vec![0x12, 0x34]), Ok(0x1234));
    assert_eq!(decode::<i16>(vec![0xff, 0xfe]), Ok(-2));
    assert_eq!(decode::<i32>(vec![0x80, 0, 0, 0]), Ok(i32::MIN));
}

#[test]
fn truncated_integers_fail() {
    assert_eq!(decode::<u8>(vec![]), Err(()));
    assert_eq!(decode::<u16>(vec![1]), Err(()));
    assert_eq!(decode::<i32>(vec![1, 2, 3]), Err(()));
    assert_eq!(decode::<u64>(vec![0; 7]), Err(()));
    assert_eq!(decode::<i128>(vec![0; 15]), Err(()));
    assert_eq!(decode::<usize>(vec![0; std::mem::size_of::<usize>() - 1]), Err(()));
}

#[test]
fn truncated_encodings_fail() {
    let bytes = encode(vec![String::from("ab"), String::from("cd")]);
    for k in 0..bytes.len() {
        assert_eq!(decode::<Vec<String>>(bytes[..k].to_vec()), Err(()));
    }
    assert!(decode::<Vec<String>>(bytes).is_ok());
}

#[test]
fn text_layout_and_round_trip() {
    let bytes = encode(String::from("hé"));
    assert_eq!(bytes, vec![0, 0, 0, 0, 0, 0, 0, 3, b'h', 0xc3, 0xa9]);
    assert_eq!(decode::<String>(bytes), Ok(String::from("hé")));
    assert_eq!(encode(String::new()), vec![0; 8]);
    assert_eq!(decode::<String>(vec![0; 8]), Ok(String::new()));
}

#[test]
fn invalid_utf8_is_replaced() {
    let bytes = vec![0, 0, 0, 0, 0, 0, 0, 3, b'f', 0xff, b'g'];
    assert_eq!(decode::<String>(bytes), Ok(String::from("f\u{FFFD}g")));
}

#[test]
fn text_length_past_end_fails() {
    let bytes = vec![0, 0, 0, 0, 0, 0, 0, 5, b'a', b'b'];
    assert_eq!(decode::<String>(bytes), Err(()));
    let huge = vec![0xff, 0xff, 0xff, 0xff, 0xff, 0xff, 0xff, 0xff, b'a'];
    assert_eq!(decode::<String>(huge), Err(()));
    assert_eq!(decode::<String>(vec![0, 0, 0]), Err(()));
}

#[test]
fn sequence_layout_and_round_trip() {
    let bytes = encode(vec![1u16, 2, 0xffff]);
    assert_eq!(bytes, vec![0, 0, 0, 0, 0, 0, 0, 3, 0, 1, 0, 2, 0xff, 0xff]);
    assert_eq!(decode::<Vec<u16>>(bytes), Ok(vec![1u16, 2, 0xffff]));
    assert_eq!(encode(Vec::<u32>::new()), vec![0; 8]);
    assert_eq!(decode::<Vec<u32>>(vec![0; 8]), Ok(Vec::new()));
}

#[test]
fn sequence_count_past_content_fails() {
    let bytes = vec![0, 0, 0, 0, 0, 0, 0, 3, 7, 8];
    assert_eq!(decode::<Vec<u8>>(bytes), Err(()));
    let huge = vec![0xff, 0xff, 0xff, 0xff, 0xff, 0xff, 0xff, 0xff, 1, 2, 3];
    assert_eq!(decode::<Vec<u64>>(huge), Err(()));
    assert_eq!(decode::<Vec<u8>>(vec![0; 7]), Err(()));
}

#[test]
fn nested_sequences_of_text() {
    let value = vec![
        vec![String::from("ab"), String::from("cd")],
        vec![String::from("e")],
    ];
    let bytes = encode(value.clone());
    let mut expected: Vec<u8> = Vec::new();
    expected.extend_from_slice(&[0, 0, 0, 0, 0, 0, 0, 2]);
    expected.extend_from_slice(&[0, 0, 0, 0, 0, 0, 0, 2]);
    expected.extend_from_slice(&[0, 0, 0, 0, 0, 0, 0, 2, b'a', b'b']);
    expected.extend_from_slice(&[0, 0, 0, 0, 0, 0, 0, 2, b'c', b'd']);
    expected.extend_from_slice(&[0, 0, 0, 0, 0, 0, 0, 1]);
    expected.extend_from_slice(&[0, 0, 0, 0, 0, 0, 0, 1, b'e']);
    assert_eq!(bytes, expected);
    assert_eq!(decode::<Vec<Vec<String>>>(bytes), Ok(value));
}

#[test]
fn encoding_is_deterministic() {
    let first = encode(vec![String::from("x"), String::from("yz")]);
    let second = encode(vec![String::from("x"), String::from("yz")]);
    assert_eq!(first, second);
    assert_eq!(encode(-7i64), encode(-7i64));
}

#[test]
fn trailing_bytes_are_ignored() {
    let mut bytes = encode(0x0102u16);
    bytes.extend_from_slice(&[9, 9, 9]);
    assert_eq!(decode::<u16>(bytes), Ok(0x0102));
    let mut text = encode(String::from("ok"));
    text.push(0xff);
    assert_eq!(decode::<String>(text), Ok(String::from("ok")));
}

#[test]
fn records_back_to_back_with_cursor() {
    let mut buf = SBI::new();
    buf.serialize(5u32);
    buf.serialize(String::from("hi"));
    buf.serialize(-3i8);
    assert_eq!(buf.data.len(), 4 + 8 + 2 + 1);
    let mut offset: usize = 0;
    assert_eq!(<u32 as DeSerialize>::deserialize(&mut buf, &mut offset), Ok(5));
    assert_eq!(offset, 4);
    assert_eq!(
        <String as DeSerialize>::deserialize(&mut buf, &mut offset),
        Ok(String::from("hi"))
    );
    assert_eq!(offset, 14);
    assert_eq!(<i8 as DeSerialize>::deserialize(&mut buf, &mut offset), Ok(-3));
    assert_eq!(offset, 15);
    assert_eq!(<u8 as DeSerialize>::deserialize(&mut buf, &mut offset), Err(()));
}

#[test]
fn serialize_appends_to_existing_bytes() {
    let mut buf = SBI { data: vec![0xaa] };
    0x0bu8.serialize(&mut buf);
    assert_eq!(buf.data, vec![0xaa, 0x0b]);
}

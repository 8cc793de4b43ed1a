use typed_kv::{
    decode, decode_length, encode, encode_length, CompoundKey, KeyDeserializeError, KeyEncoding,
    KeySerde, KeyType,
};

#[test]
fn test_length_serde() {
    let test_cases: Vec<usize> = vec![
        0,
        1,
        15,
        16,
        255,
        256,
        257,
        1024,
        1025,
        1026,
        4095,
        4096,
        4097,
        65535,
        65536,
        65537,
        0xFFFFFFFF,
        0x100000000,
        0x100000001,
        0xFFFFFFFFFFFFFFFF,
        0x7FFFFFFFFFFFFFFF,
        0x8000000000000000,
        0x8000000000000001,
    ];
    for len in test_cases {
        let encoded = encode_length(len).unwrap();
        let decoded = decode_length(&mut encoded.as_slice()).unwrap();
        assert_eq!(len, decoded);
    }
}

#[test]
fn test_keyserde() {
    let key = 42usize;
    let encoded = encode::<KeyEncoding>(&key).unwrap();
    let decoded = decode::<usize, KeyEncoding>(encoded.as_slice()).unwrap();
    assert_eq!(key, decoded);

    let key = 42u64;
    let encoded = encode::<KeyEncoding>(&key).unwrap();
    let decoded = decode::<u64, KeyEncoding>(encoded.as_slice()).unwrap();
    assert_eq!(key, decoded);

    let key = 42i64;
    let encoded = encode::<KeyEncoding>(&key).unwrap();
    let decoded = decode::<i64, KeyEncoding>(encoded.as_slice()).unwrap();
    assert_eq!(key, decoded);

    let key = -42i64;
    let encoded = encode::<KeyEncoding>(&key).unwrap();
    let decoded = decode::<i64, KeyEncoding>(encoded.as_slice()).unwrap();
    assert_eq!(key, decoded);

    let key = "hello".to_string();
    let encoded = encode::<KeyEncoding>(&key).unwrap();
    let decoded = decode::<String, KeyEncoding>(encoded.as_slice()).unwrap();
    assert_eq!(key, decoded);

    let key: Vec<u8> = vec![1, 2, 3, 4];
    let encoded = encode::<KeyEncoding>(&key).unwrap();
    let decoded = decode::<Vec<u8>, KeyEncoding>(encoded.as_slice()).unwrap();
    assert_eq!(key, decoded);

    let key = (42usize, "hello".to_string());
    let encoded = encode::<KeyEncoding>(&key).unwrap();
    let decoded = decode::<(usize, String), KeyEncoding>(encoded.as_slice()).unwrap();
    assert_eq!(key, decoded);

    let key = (42usize, "hello".to_string(), vec![1u8, 2, 3, 4]);
    let encoded = encode::<KeyEncoding>(&key).unwrap();
    let decoded = decode::<(usize, String, Vec<u8>), KeyEncoding>(encoded.as_slice()).unwrap();
    assert_eq!(key, decoded);

    let key = (42usize, "hello".to_string(), vec![1u8, 2, 3, 4], 42u64);
    let encoded = encode::<KeyEncoding>(&key).unwrap();
    let decoded =
        decode::<(usize, String, Vec<u8>, u64), KeyEncoding>(encoded.as_slice()).unwrap();
    assert_eq!(key, decoded);
}

#[test]
fn length_code_has_the_documented_bytes() {
    assert_eq!(encode_length(0).unwrap(), vec![0x00]);
    assert_eq!(encode_length(15).unwrap(), vec![0x0F]);
    assert_eq!(encode_length(16).unwrap(), vec![0x10, 0x10]);
    assert_eq!(encode_length(255).unwrap(), vec![0x10, 0xFF]);
    assert_eq!(encode_length(256).unwrap(), vec![0x11, 0x00]);
    assert_eq!(encode_length(4095).unwrap(), vec![0x1F, 0xFF]);
    assert_eq!(encode_length(4096).unwrap(), vec![0x20, 0x10, 0x00]);
    assert_eq!(encode_length(65535).unwrap(), vec![0x20, 0xFF, 0xFF]);
    assert_eq!(encode_length(65536).unwrap(), vec![0x21, 0x00, 0x00]);
    assert_eq!(
        encode_length(0xFFFF_FFFF).unwrap(),
        vec![0x40, 0xFF, 0xFF, 0xFF, 0xFF]
    );
    assert_eq!(
        encode_length(0x1_0000_0000).unwrap(),
        vec![0x41, 0x00, 0x00, 0x00, 0x00]
    );
    assert_eq!(
        encode_length(usize::MAX).unwrap(),
        vec![0x80, 0xFF, 0xFF, 0xFF, 0xFF, 0xFF, 0xFF, 0xFF, 0xFF]
    );
}

#[test]
fn length_codes_round_trip_and_sort_as_the_lengths() {
    let lengths: Vec<usize> = vec![
        0,
        1,
        15,
        16,
        255,
        256,
        65535,
        65536,
        0xFFFF_FFFF,
        0x1_0000_0000,
        usize::MAX,
    ];
    for (i, n) in lengths.iter().enumerate() {
        let code = encode_length(*n).unwrap();
        let mut rest = code.as_slice();
        assert_eq!(decode_length(&mut rest), Ok(*n));
        assert!(rest.is_empty());
        for m in lengths.iter().skip(i + 1) {
            assert!(code < encode_length(*m).unwrap());
        }
    }
}

#[test]
fn length_decoding_leaves_what_follows() {
    let bytes: Vec<u8> = vec![0x11, 0x00, 0xAA, 0xBB];
    let mut rest = bytes.as_slice();
    assert_eq!(decode_length(&mut rest), Ok(256));
    assert_eq!(rest, &[0xAA, 0xBB]);
}

#[test]
fn length_decoding_reports_missing_bytes() {
    let empty: Vec<u8> = vec![];
    let mut rest = empty.as_slice();
    assert_eq!(
        decode_length(&mut rest),
        Err(KeyDeserializeError::NotEnoughBytes(1, 0))
    );
    let short: Vec<u8> = vec![0x20, 0x10];
    let mut rest = short.as_slice();
    assert_eq!(
        decode_length(&mut rest),
        Err(KeyDeserializeError::NotEnoughBytes(3, 2))
    );
    assert_eq!(rest, &[0x20, 0x10]);
}

#[test]
fn length_decoding_refuses_what_no_usize_holds() {
    let wide: Vec<u8> = vec![0x90, 0, 0, 0, 0, 0, 0, 0, 0, 0];
    let mut rest = wide.as_slice();
    assert_eq!(
        decode_length(&mut rest),
        Err(KeyDeserializeError::InvalidLength(8, 9))
    );
    let high: Vec<u8> = vec![0x81, 0, 0, 0, 0, 0, 0, 0, 0];
    let mut rest = high.as_slice();
    assert_eq!(
        decode_length(&mut rest),
        Err(KeyDeserializeError::InvalidLength(8, 9))
    );
}

#[test]
fn unsigned_integers_are_big_endian() {
    assert_eq!(encode::<KeyEncoding>(&0x12u8).unwrap(), vec![0x12]);
    assert_eq!(encode::<KeyEncoding>(&0x1234u16).unwrap(), vec![0x12, 0x34]);
    assert_eq!(
        encode::<KeyEncoding>(&0x1234_5678u32).unwrap(),
        vec![0x12, 0x34, 0x56, 0x78]
    );
    assert_eq!(
        encode::<KeyEncoding>(&42u64).unwrap(),
        vec![0, 0, 0, 0, 0, 0, 0, 42]
    );
    assert_eq!(
        encode::<KeyEncoding>(&1u128).unwrap(),
        vec![0, 0, 0, 0, 0, 0, 0, 0, 0, 0, 0, 0, 0, 0, 0, 1]
    );
    assert_eq!(
        encode::<KeyEncoding>(&42usize).unwrap(),
        42usize.to_be_bytes().to_vec()
    );
}

#[test]
fn signed_integers_start_at_all_zero_bytes() {
    assert_eq!(encode::<KeyEncoding>(&i8::MIN).unwrap(), vec![0x00]);
    assert_eq!(encode::<KeyEncoding>(&-1i8).unwrap(), vec![0x7F]);
    assert_eq!(encode::<KeyEncoding>(&0i8).unwrap(), vec![0x80]);
    assert_eq!(encode::<KeyEncoding>(&i8::MAX).unwrap(), vec![0xFF]);
    assert_eq!(
        encode::<KeyEncoding>(&-42i64).unwrap(),
        ((-42i64) ^ i64::MIN).to_be_bytes().to_vec()
    );
    assert_eq!(
        encode::<KeyEncoding>(&i32::MIN).unwrap(),
        vec![0, 0, 0, 0]
    );
    assert_eq!(
        encode::<KeyEncoding>(&i32::MAX).unwrap(),
        vec![0xFF, 0xFF, 0xFF, 0xFF]
    );
    assert_eq!(
        encode::<KeyEncoding>(&i128::MIN).unwrap(),
        vec![0u8; 16]
    );
    assert_eq!(
        encode::<KeyEncoding>(&i128::MAX).unwrap(),
        vec![0xFFu8; 16]
    );
    assert_eq!(
        encode::<KeyEncoding>(&-7isize).unwrap(),
        ((-7isize) ^ isize::MIN).to_be_bytes().to_vec()
    );
}

#[test]
fn every_integer_type_round_trips() {
    for v in [0u8, 1, 127, 128, 255] {
        assert_eq!(decode::<u8, KeyEncoding>(&encode::<KeyEncoding>(&v).unwrap()), Ok(v));
    }
    for v in [0u16, 1, 255, 256, u16::MAX] {
        assert_eq!(decode::<u16, KeyEncoding>(&encode::<KeyEncoding>(&v).unwrap()), Ok(v));
    }
    for v in [0u32, 1, 65536, u32::MAX] {
        assert_eq!(decode::<u32, KeyEncoding>(&encode::<KeyEncoding>(&v).unwrap()), Ok(v));
    }
    for v in [0u64, 1, 1 << 40, u64::MAX] {
        assert_eq!(decode::<u64, KeyEncoding>(&encode::<KeyEncoding>(&v).unwrap()), Ok(v));
    }
    for v in [0u128, 1, 1 << 100, u128::MAX] {
        assert_eq!(decode::<u128, KeyEncoding>(&encode::<KeyEncoding>(&v).unwrap()), Ok(v));
    }
    for v in [0usize, 1, usize::MAX] {
        assert_eq!(decode::<usize, KeyEncoding>(&encode::<KeyEncoding>(&v).unwrap()), Ok(v));
    }
    for v in [i8::MIN, -1, 0, 1, i8::MAX] {
        assert_eq!(decode::<i8, KeyEncoding>(&encode::<KeyEncoding>(&v).unwrap()), Ok(v));
    }
    for v in [i16::MIN, -1, 0, 1, i16::MAX] {
        assert_eq!(decode::<i16, KeyEncoding>(&encode::<KeyEncoding>(&v).unwrap()), Ok(v));
    }
    for v in [i32::MIN, -1, 0, 1, i32::MAX] {
        assert_eq!(decode::<i32, KeyEncoding>(&encode::<KeyEncoding>(&v).unwrap()), Ok(v));
    }
    for v in [i64::MIN, -42, 0, 42, i64::MAX] {
        assert_eq!(decode::<i64, KeyEncoding>(&encode::<KeyEncoding>(&v).unwrap()), Ok(v));
    }
    for v in [i128::MIN, -1, 0, 1, i128::MAX] {
        assert_eq!(decode::<i128, KeyEncoding>(&encode::<KeyEncoding>(&v).unwrap()), Ok(v));
    }
    for v in [isize::MIN, -1, 0, 1, isize::MAX] {
        assert_eq!(decode::<isize, KeyEncoding>(&encode::<KeyEncoding>(&v).unwrap()), Ok(v));
    }
}

#[test]
fn integers_sort_as_their_bytes() {
    let signed = [i32::MIN, -70000, -256, -1, 0, 1, 255, 256, 70000, i32::MAX];
    for (i, a) in signed.iter().enumerate() {
        for b in signed.iter().skip(i + 1) {
            assert!(encode::<KeyEncoding>(a).unwrap() < encode::<KeyEncoding>(b).unwrap());
        }
    }
    let unsigned = [0u64, 1, 255, 256, 65535, 65536, u64::MAX];
    for (i, a) in unsigned.iter().enumerate() {
        for b in unsigned.iter().skip(i + 1) {
            assert!(encode::<KeyEncoding>(a).unwrap() < encode::<KeyEncoding>(b).unwrap());
        }
    }
}

#[test]
fn truncated_integer_is_not_enough_bytes() {
    assert_eq!(
        decode::<u32, KeyEncoding>(&[1, 2]),
        Err(KeyDeserializeError::NotEnoughBytes(4, 2))
    );
    assert_eq!(
        decode::<i64, KeyEncoding>(&[]),
        Err(KeyDeserializeError::NotEnoughBytes(8, 0))
    );
    assert_eq!(
        decode::<u128, KeyEncoding>(&[0; 15]),
        Err(KeyDeserializeError::NotEnoughBytes(16, 15))
    );
}

#[test]
fn text_is_its_length_and_its_bytes() {
    assert_eq!(
        encode::<KeyEncoding>(&"hello".to_string()).unwrap(),
        vec![5, b'h', b'e', b'l', b'l', b'o']
    );
    assert_eq!(encode::<KeyEncoding>(&String::new()).unwrap(), vec![0]);
    let long = "x".repeat(300);
    let encoded = encode::<KeyEncoding>(&long).unwrap();
    assert_eq!(&encoded[..2], &[0x11, 0x2C]);
    assert_eq!(encoded.len(), 302);
    assert_eq!(decode::<String, KeyEncoding>(&encoded), Ok(long));
    assert_eq!(
        decode::<String, KeyEncoding>(&encode::<KeyEncoding>(&"grüße".to_string()).unwrap()),
        Ok("grüße".to_string())
    );
}

#[test]
fn text_decoding_reports_what_is_wrong() {
    assert_eq!(
        decode::<String, KeyEncoding>(&[]),
        Err(KeyDeserializeError::NotEnoughBytes(1, 0))
    );
    assert_eq!(
        decode::<String, KeyEncoding>(&[3, b'a', b'b']),
        Err(KeyDeserializeError::NotEnoughBytes(3, 2))
    );
    assert_eq!(
        decode::<String, KeyEncoding>(&[2, 0xFF, 0xFE]),
        Err(KeyDeserializeError::Utf8Error)
    );
    assert_eq!(
        decode::<Vec<u8>, KeyEncoding>(&[2, 0xFF, 0xFE]),
        Ok(vec![0xFF, 0xFE])
    );
}

#[test]
fn failed_decoding_leaves_the_input_in_place() {
    let bytes: Vec<u8> = vec![2, 0xFF, 0xFE, 9];
    let mut rest = bytes.as_slice();
    assert_eq!(
        <String as typed_kv::Decodable<KeyEncoding>>::decode(&mut rest),
        Err(KeyDeserializeError::Utf8Error)
    );
    assert_eq!(rest, bytes.as_slice());
    let bytes: Vec<u8> = vec![0, 0, 0, 7, 5, b'a'];
    let mut rest = bytes.as_slice();
    assert_eq!(
        <(u32, String) as typed_kv::Decodable<KeyEncoding>>::decode(&mut rest),
        Err(KeyDeserializeError::NotEnoughBytes(5, 1))
    );
    assert_eq!(rest, bytes.as_slice());
}

#[test]
fn shorter_text_sorts_first() {
    let a = encode::<KeyEncoding>(&"b".to_string()).unwrap();
    let b = encode::<KeyEncoding>(&"aa".to_string()).unwrap();
    assert!(a < b);
    let c = encode::<KeyEncoding>(&"ab".to_string()).unwrap();
    assert!(b < c);
    let empty = encode::<KeyEncoding>(&String::new()).unwrap();
    assert!(empty < a);
}

#[test]
fn unit_and_optional_segments() {
    assert_eq!(encode::<KeyEncoding>(&()).unwrap(), Vec::<u8>::new());
    assert_eq!(decode::<(), KeyEncoding>(&[1, 2, 3]), Ok(()));
    assert_eq!(encode::<KeyEncoding>(&None::<u16>).unwrap(), Vec::<u8>::new());
    assert_eq!(encode::<KeyEncoding>(&Some(7u16)).unwrap(), vec![0, 7]);
    assert_eq!(decode::<Option<u16>, KeyEncoding>(&[]), Ok(None));
    assert_eq!(decode::<Option<u16>, KeyEncoding>(&[0, 7]), Ok(Some(7)));
    assert_eq!(
        decode::<Option<u16>, KeyEncoding>(&[7]),
        Err(KeyDeserializeError::NotEnoughBytes(2, 1))
    );
    assert_eq!(
        decode::<(u8, Option<String>), KeyEncoding>(&[9]),
        Ok((9, None))
    );
    assert_eq!(decode::<Option<()>, KeyEncoding>(&[]), Ok(None));
}

#[test]
fn tuples_are_their_segments_in_order() {
    let key = (1u8, "ab".to_string(), -1i16);
    assert_eq!(
        encode::<KeyEncoding>(&key).unwrap(),
        vec![1, 2, b'a', b'b', 0x7F, 0xFF]
    );
    let five = (1u8, 2u16, 3u32, "x".to_string(), vec![9u8]);
    let encoded = encode::<KeyEncoding>(&five).unwrap();
    assert_eq!(encoded, vec![1, 0, 2, 0, 0, 0, 3, 1, b'x', 1, 9]);
    assert_eq!(
        decode::<(u8, u16, u32, String, Vec<u8>), KeyEncoding>(&encoded),
        Ok(five)
    );
    let six = (1u8, 2u8, 3u8, 4u8, 5u8, 6u8);
    assert_eq!(
        decode::<(u8, u8, u8, u8, u8, u8), KeyEncoding>(&encode::<KeyEncoding>(&six).unwrap()),
        Ok(six)
    );
}

#[test]
fn tuples_sort_segment_by_segment() {
    let keys = [
        (0u8, "b".to_string()),
        (0u8, "aa".to_string()),
        (1u8, "".to_string()),
        (1u8, "a".to_string()),
        (2u8, "".to_string()),
    ];
    for (i, a) in keys.iter().enumerate() {
        for b in keys.iter().skip(i + 1) {
            assert!(encode::<KeyEncoding>(a).unwrap() < encode::<KeyEncoding>(b).unwrap());
        }
    }
}

#[test]
fn compound_key_reads_as_far_as_the_bytes_go() {
    type Key = CompoundKey<String, CompoundKey<u16, ()>>;
    let whole = CompoundKey::new("ab".to_string(), CompoundKey::new(7u16, ()));
    let encoded = encode::<KeyEncoding>(&whole).unwrap();
    assert_eq!(encoded, vec![2, b'a', b'b', 0, 7]);
    assert_eq!(decode::<Key, KeyEncoding>(&encoded), Ok(whole));

    let mut rest = encoded.as_slice();
    let partial = <Key as KeySerde>::partial_decode(&mut rest).unwrap().unwrap();
    assert_eq!(partial.0, "ab".to_string());
    assert_eq!(partial.1, Some(CompoundKey(7u16, None)));
    assert!(rest.is_empty());

    let mut rest = &encoded[..3];
    let partial = <Key as KeySerde>::partial_decode(&mut rest).unwrap().unwrap();
    assert_eq!(partial.0, "ab".to_string());
    assert_eq!(partial.1, None);

    let mut rest: &[u8] = &[];
    assert_eq!(<Key as KeySerde>::partial_decode(&mut rest), Ok(None));

    let mut rest = &encoded[..4];
    assert_eq!(
        <Key as KeySerde>::partial_decode(&mut rest),
        Err(KeyDeserializeError::NotEnoughBytes(2, 1))
    );
    assert_eq!(rest, &encoded[..4]);
}

#[test]
fn partial_decode_tells_the_end_of_the_key_from_bad_bytes() {
    let mut rest: &[u8] = &[];
    assert_eq!(<usize as KeySerde>::partial_decode(&mut rest), Ok(None));
    let mut rest: &[u8] = &[1, 2, 3];
    assert_eq!(
        <usize as KeySerde>::partial_decode(&mut rest),
        Err(KeyDeserializeError::NotEnoughBytes(8, 3))
    );
    let mut rest: &[u8] = &[];
    assert_eq!(<String as KeySerde>::partial_decode(&mut rest), Ok(None));
    let mut rest: &[u8] = &[1, b'a', 5];
    assert_eq!(
        <String as KeySerde>::partial_decode(&mut rest),
        Ok(Some("a".to_string()))
    );
    assert_eq!(rest, &[5]);
    let mut rest: &[u8] = &[2, b'a'];
    assert_eq!(
        <String as KeySerde>::partial_decode(&mut rest),
        Err(KeyDeserializeError::NotEnoughBytes(2, 1))
    );
    let mut rest: &[u8] = &[];
    assert_eq!(<() as KeySerde>::partial_decode(&mut rest), Ok(None));
    let mut rest: &[u8] = &[4, 2];
    assert_eq!(<() as KeySerde>::partial_decode(&mut rest), Ok(Some(())));
    assert_eq!(rest, &[4, 2]);
}

#[test]
fn compound_key_failure_names_the_part() {
    type Key = CompoundKey<u16, String>;
    let mut rest: &[u8] = &[1];
    assert_eq!(
        Key::decode_tagged(&mut rest),
        Err((Some(KeyDeserializeError::NotEnoughBytes(2, 1)), None))
    );
    let mut rest: &[u8] = &[0, 1, 4, b'a'];
    assert_eq!(
        Key::decode_tagged(&mut rest),
        Err((None, Some(KeyDeserializeError::NotEnoughBytes(4, 1))))
    );
    assert_eq!(rest, &[0, 1, 4, b'a']);
    let mut rest: &[u8] = &[0, 1, 1, b'a', 9];
    assert_eq!(
        Key::decode_tagged(&mut rest),
        Ok(CompoundKey(1u16, "a".to_string()))
    );
    assert_eq!(rest, &[9]);
}

#[test]
fn raw_keys_stand_for_themselves() {
    let raw: KeyType<String> = KeyType::Raw(vec![9, 8, 7]);
    assert_eq!(encode::<KeyEncoding>(&raw).unwrap(), vec![9, 8, 7]);
    let typed: KeyType<String> = KeyType::Key("ab".to_string());
    assert_eq!(encode::<KeyEncoding>(&typed).unwrap(), vec![2, b'a', b'b']);
    assert_eq!(
        decode::<KeyType<String>, KeyEncoding>(&[2, b'a', b'b']),
        Ok(KeyType::Key("ab".to_string()))
    );
}

fn step(state: &mut u64) -> u64 {
    *state = state
        .wrapping_mul(6364136223846793005)
        .wrapping_add(1442695040888963407);
    *state >> 11
}

#[test]
fn encodings_sort_as_the_values_over_many_values() {
    let mut state = 42u64;
    for _ in 0..2000 {
        let a = step(&mut state) as i64 >> (step(&mut state) % 50);
        let b = step(&mut state) as i64 >> (step(&mut state) % 50);
        let (a, b) = (a.wrapping_neg() ^ b, b);
        let ea = encode::<KeyEncoding>(&a).unwrap();
        let eb = encode::<KeyEncoding>(&b).unwrap();
        assert_eq!(a.cmp(&b), ea.cmp(&eb));
        assert_eq!(decode::<i64, KeyEncoding>(&ea), Ok(a));

        let (x, y) = (a as u32, b as u32);
        assert_eq!(
            x.cmp(&y),
            encode::<KeyEncoding>(&x).unwrap().cmp(&encode::<KeyEncoding>(&y).unwrap())
        );
        let (s, t) = (a as i16, b as i16);
        assert_eq!(
            s.cmp(&t),
            encode::<KeyEncoding>(&s).unwrap().cmp(&encode::<KeyEncoding>(&t).unwrap())
        );

        let n = (step(&mut state) % 70000) as usize;
        let m = (step(&mut state) % 70000) as usize;
        assert_eq!(
            n.cmp(&m),
            encode_length(n).unwrap().cmp(&encode_length(m).unwrap())
        );

        let p: Vec<u8> = (0..step(&mut state) % 20).map(|_| step(&mut state) as u8).collect();
        let q: Vec<u8> = (0..step(&mut state) % 20).map(|_| step(&mut state) as u8).collect();
        let by_length_first = (p.len(), &p).cmp(&(q.len(), &q));
        assert_eq!(
            by_length_first,
            encode::<KeyEncoding>(&p).unwrap().cmp(&encode::<KeyEncoding>(&q).unwrap())
        );
        let pair_a = (x, p.clone());
        let pair_b = (y, q.clone());
        let expected = x.cmp(&y).then(by_length_first);
        assert_eq!(
            expected,
            encode::<KeyEncoding>(&pair_a).unwrap().cmp(&encode::<KeyEncoding>(&pair_b).unwrap())
        );
        assert_eq!(
            decode::<(u32, Vec<u8>), KeyEncoding>(&encode::<KeyEncoding>(&pair_a).unwrap()),
            Ok(pair_a)
        );
    }
}

#[test]
fn long_tuples_round_trip() {
    let key = (
        1u8,
        -2i16,
        3u32,
        -4i64,
        5u128,
        "six".to_string(),
        vec![7u8],
        8usize,
        -9isize,
        10u16,
        (),
    );
    let encoded = encode::<KeyEncoding>(&key).unwrap();
    assert_eq!(encoded.len(), 1 + 2 + 4 + 8 + 16 + 4 + 2 + 8 + 8 + 2);
    assert_eq!(
        decode::<(u8, i16, u32, i64, u128, String, Vec<u8>, usize, isize, u16, ()), KeyEncoding>(
            &encoded
        ),
        Ok(key)
    );
    let seven = (1u8, 2u8, 3u8, 4u8, 5u8, 6u8, 7u8);
    assert_eq!(encode::<KeyEncoding>(&seven).unwrap(), vec![1, 2, 3, 4, 5, 6, 7]);
    assert_eq!(
        decode::<(u8, u8, u8, u8, u8, u8, u8), KeyEncoding>(&[1, 2, 3, 4, 5, 6]),
        Err(KeyDeserializeError::NotEnoughBytes(1, 0))
    );
}

#[test]
fn compound_key_encodes_its_parts_one_after_another() {
    let key = CompoundKey::new(7usize, "ab".to_string());
    let mut expected = 7usize.to_be_bytes().to_vec();
    expected.extend_from_slice(&[2, b'a', b'b']);
    assert_eq!(key.encode_tagged(), Ok(expected.clone()));
    assert_eq!(encode::<KeyEncoding>(&key), Ok(expected));
    let empty = CompoundKey::new((), ());
    assert_eq!(empty.encode_tagged(), Ok(Vec::new()));
}

#[test]
fn compound_key_partial_failure_names_the_part() {
    type Key = CompoundKey<usize, usize>;
    let bytes: Vec<u8> = vec![0, 0, 0, 0, 0, 0, 0, 7, 0xAA];
    let mut rest = bytes.as_slice();
    assert_eq!(
        Key::partial_decode_tagged(&mut rest),
        Err((None, Some(KeyDeserializeError::NotEnoughBytes(8, 1))))
    );
    assert_eq!(rest, bytes.as_slice());
    let mut rest = bytes.as_slice();
    assert_eq!(
        <Key as KeySerde>::partial_decode(&mut rest),
        Err(KeyDeserializeError::NotEnoughBytes(8, 1))
    );
    assert_eq!(rest, bytes.as_slice());

    let mut rest = &bytes[..3];
    assert_eq!(
        Key::partial_decode_tagged(&mut rest),
        Err((Some(KeyDeserializeError::NotEnoughBytes(8, 3)), None))
    );
    assert_eq!(rest, &bytes[..3]);

    let mut rest = &bytes[..8];
    assert_eq!(
        Key::partial_decode_tagged(&mut rest),
        Ok(Some(CompoundKey(7usize, None)))
    );
    assert!(rest.is_empty());

    let mut rest: &[u8] = &[];
    assert_eq!(Key::partial_decode_tagged(&mut rest), Ok(None));

    let whole: Vec<u8> = vec![0, 0, 0, 0, 0, 0, 0, 7, 0, 0, 0, 0, 0, 0, 0, 9, 1];
    let mut rest = whole.as_slice();
    assert_eq!(
        Key::partial_decode_tagged(&mut rest),
        Ok(Some(CompoundKey(7usize, Some(9usize))))
    );
    assert_eq!(rest, &[1]);
}

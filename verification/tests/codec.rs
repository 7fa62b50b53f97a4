use bencodec::{decode, decode_dict, decode_integer, decode_list, decode_raw_string, decode_string, dict_insert, Bencode, DecodeError};

#[test]
fn test_bencoded_string() {
    let test_cases = vec![
        (b"5:hello" as &[u8], Bencode::Str("hello".to_string())),
        (b"5:hello13432143124", Bencode::Str("hello".to_string())),
        (
            b"15:123456789012345",
            Bencode::Str("123456789012345".to_string()),
        ),
    ];

    for (input, expected) in test_cases {
        let (result, _rest) = decode(input).expect("Should decode");
        assert_eq!(result, expected);
    }
}

#[test]
fn test_bencoded_int() {
    let test_cases = vec![
        (b"i52e" as &[u8], Bencode::Int(52)),
        (b"i-52e", Bencode::Int(-52)),
        (b"i-123456789012345e", Bencode::Int(-123456789012345)),
        (b"i52esadw", Bencode::Int(52)),
    ];

    for (input, expected) in test_cases {
        let (result, _rest) = decode(input).expect("Should decode");
        assert_eq!(result, expected);
    }
}

#[test]
fn test_bencoded_list() {
    let test_cases = vec![
        (
            b"l5:helloe" as &[u8],
            Bencode::List(vec![Bencode::Str("hello".to_string())]),
        ),
        (
            b"l5:helloi52ee",
            Bencode::List(vec![Bencode::Str("hello".to_string()), Bencode::Int(52)]),
        ),
        (
            b"l5:helloi52ee12345",
            Bencode::List(vec![Bencode::Str("hello".to_string()), Bencode::Int(52)]),
        ),
        (
            b"l5:helloi52e5:helloe",
            Bencode::List(vec![
                Bencode::Str("hello".to_string()),
                Bencode::Int(52),
                Bencode::Str("hello".to_string()),
            ]),
        ),
        (
            b"l5:helloi42el9:innerlisti-1eei52e5:halloe",
            Bencode::List(vec![
                Bencode::Str("hello".to_string()),
                Bencode::Int(42),
                Bencode::List(vec![
                    Bencode::Str("innerlist".to_string()),
                    Bencode::Int(-1),
                ]),
                Bencode::Int(52),
                Bencode::Str("hallo".to_string()),
            ]),
        ),
    ];

    for (input, expected) in test_cases {
        let (result, _rest) = decode(input).expect("Should decode");
        assert_eq!(result, expected);
    }
}

#[test]
fn test_bencoded_dict() {
    let test_cases = vec![
        (b"d3:foo3:bar5:helloi52ee" as &[u8], {
            let mut dict = Vec::new();
            dict_insert(&mut dict, "foo".to_string(), Bencode::Str("bar".to_string()));
            dict_insert(&mut dict, "hello".to_string(), Bencode::Int(52));
            Bencode::Dict(dict)
        }),
        (b"de", Bencode::Dict(Vec::new())),
        (b"d4:spam4:eggse", {
            let mut dict = Vec::new();
            dict_insert(
                &mut dict,
                "spam".to_string(),
                Bencode::Str("eggs".to_string()),
            );
            Bencode::Dict(dict)
        }),
        (b"d3:numi123e3:str5:hello4:nestd3:key5:valueee", {
            let mut nested = Vec::new();
            dict_insert(
                &mut nested,
                "key".to_string(),
                Bencode::Str("value".to_string()),
            );

            let mut dict = Vec::new();
            dict_insert(&mut dict, "num".to_string(), Bencode::Int(123));
            dict_insert(
                &mut dict,
                "str".to_string(),
                Bencode::Str("hello".to_string()),
            );
            dict_insert(&mut dict, "nest".to_string(), Bencode::Dict(nested));
            Bencode::Dict(dict)
        }),
        (b"d1:ad1:bd1:ci1eeee", {
            let mut level3 = Vec::new();
            dict_insert(&mut level3, "c".to_string(), Bencode::Int(1));
            let mut level2 = Vec::new();
            dict_insert(&mut level2, "b".to_string(), Bencode::Dict(level3));
            let mut level1 = Vec::new();
            dict_insert(&mut level1, "a".to_string(), Bencode::Dict(level2));
            Bencode::Dict(level1)
        }),
        (b"d4:listl3:one3:two5:threee3:numi99ee", {
            let mut dict = Vec::new();
            dict_insert(
                &mut dict,
                "list".to_string(),
                Bencode::List(vec![
                    Bencode::Str("one".to_string()),
                    Bencode::Str("two".to_string()),
                    Bencode::Str("three".to_string()),
                ]),
            );
            dict_insert(&mut dict, "num".to_string(), Bencode::Int(99));
            Bencode::Dict(dict)
        }),
        (b"d1:xi0e1:yi-42ee", {
            let mut dict = Vec::new();
            dict_insert(&mut dict, "x".to_string(), Bencode::Int(0));
            dict_insert(&mut dict, "y".to_string(), Bencode::Int(-42));
            Bencode::Dict(dict)
        }),
    ];

    for (input, expected) in test_cases {
        let (result, _rest) = decode(input).expect("Should decode");
        assert_eq!(result, expected);
    }
}

#[test]
fn test_encode() {
    assert_eq!(Bencode::Str("hello".to_string()).encode(), b"5:hello");
    assert_eq!(
        Bencode::Str("123456789012345".to_string()).encode(),
        b"15:123456789012345"
    );
    assert_eq!(Bencode::Int(52).encode(), b"i52e");
    assert_eq!(Bencode::Int(-52).encode(), b"i-52e");
    assert_eq!(
        Bencode::Int(-123456789012345).encode(),
        b"i-123456789012345e"
    );
    assert_eq!(
        Bencode::List(vec![Bencode::Str("hello".to_string())]).encode(),
        b"l5:helloe"
    );
    assert_eq!(
        {
            let mut dict = Vec::new();
            dict_insert(&mut dict, "foo".to_string(), Bencode::Str("bar".to_string()));
            dict_insert(&mut dict, "hello".to_string(), Bencode::Int(52));
            Bencode::Dict(dict).encode()
        },
        b"d3:foo3:bar5:helloi52ee"
    );
}

#[test]
fn test_scenario_integer() {
    let (value, consumed) = decode(b"i52e").expect("Should decode");
    assert_eq!(value, Bencode::Int(52));
    assert_eq!(consumed, 4);
}

#[test]
fn test_scenario_string() {
    let (value, consumed) = decode(b"4:spam").expect("Should decode");
    assert_eq!(value, Bencode::Str("spam".to_string()));
    assert_eq!(consumed, 6);
}

#[test]
fn test_scenario_list() {
    let (value, consumed) = decode(b"l4:spam4:eggse").expect("Should decode");
    assert_eq!(
        value,
        Bencode::List(vec![
            Bencode::Str("spam".to_string()),
            Bencode::Str("eggs".to_string()),
        ])
    );
    assert_eq!(consumed, 14);
}

#[test]
fn test_scenario_dict_reencodes_canonically() {
    let input = b"d3:cow3:moo4:spam4:eggse";
    let (value, consumed) = decode(input).expect("Should decode");
    let mut dict = Vec::new();
    dict_insert(&mut dict, "cow".to_string(), Bencode::Str("moo".to_string()));
    dict_insert(
        &mut dict,
        "spam".to_string(),
        Bencode::Str("eggs".to_string()),
    );
    assert_eq!(value, Bencode::Dict(dict));
    assert_eq!(consumed, 24);
    assert_eq!(value.encode(), input);
}

#[test]
fn test_round_trip_reproduces_value_and_length() {
    let inputs: Vec<&[u8]> = vec![
        b"i0e",
        b"i-9223372036854775808e",
        b"0:",
        b"3:abc",
        b"le",
        b"de",
        b"l5:helloi42el9:innerlisti-1eei52e5:halloe",
        b"d4:listl3:one3:two5:threee3:numi99ee",
    ];
    for input in inputs {
        let (value, consumed) = decode(input).expect("Should decode");
        assert_eq!(consumed, input.len());
        let encoded = value.encode();
        let (again, reconsumed) = decode(&encoded).expect("Should decode its own encoding");
        assert_eq!(again, value);
        assert_eq!(reconsumed, encoded.len());
    }
}

#[test]
fn test_raw_string_keeps_non_utf8_bytes() {
    let input = b"4:\xffab\xfe";
    let (value, consumed) = decode(input).expect("Should decode");
    assert_eq!(value, Bencode::RawStr(vec![0xff, b'a', b'b', 0xfe]));
    assert_eq!(consumed, 6);
    assert_eq!(value.encode(), input);
}

#[test]
fn test_canonical_dict_ordering_ignores_insertion_order() {
    let mut forward = Vec::new();
    dict_insert(&mut forward, "a".to_string(), Bencode::Int(1));
    dict_insert(&mut forward, "b".to_string(), Bencode::Int(2));
    dict_insert(&mut forward, "c".to_string(), Bencode::Int(3));
    let mut backward = Vec::new();
    dict_insert(&mut backward, "c".to_string(), Bencode::Int(3));
    dict_insert(&mut backward, "a".to_string(), Bencode::Int(1));
    dict_insert(&mut backward, "b".to_string(), Bencode::Int(2));
    let forward = Bencode::Dict(forward);
    let backward = Bencode::Dict(backward);
    assert_eq!(forward, backward);
    assert_eq!(forward.encode(), backward.encode());
    assert_eq!(forward.encode(), b"d1:ai1e1:bi2e1:ci3ee");
}

#[test]
fn test_dict_insert_overwrites_equal_key() {
    let mut dict = Vec::new();
    dict_insert(&mut dict, "k".to_string(), Bencode::Int(1));
    dict_insert(&mut dict, "k".to_string(), Bencode::Int(2));
    assert_eq!(Bencode::Dict(dict).encode(), b"d1:ki2ee");
}

#[test]
fn test_duplicate_key_in_document_overwrites_silently() {
    let (value, _) = decode(b"d1:ki1e1:ki2ee").expect("Should decode");
    assert_eq!(value.encode(), b"d1:ki2ee");
}

#[test]
fn test_empty_input_is_a_syntax_error() {
    assert_eq!(decode(b""), Err(DecodeError::UnexpectedEnd));
}

#[test]
fn test_malformed_integers_are_rejected() {
    assert_eq!(decode(b"i e"), Err(DecodeError::InvalidInteger));
    assert_eq!(decode(b"ie"), Err(DecodeError::InvalidInteger));
    assert_eq!(decode(b"i-e"), Err(DecodeError::InvalidInteger));
    assert_eq!(decode(b"i12x4e"), Err(DecodeError::InvalidInteger));
    assert_eq!(decode(b"i52"), Err(DecodeError::MissingTerminator));
    assert_eq!(
        decode(b"i99999999999999999999999e"),
        Err(DecodeError::InvalidInteger)
    );
    assert_eq!(
        decode(b"i-9223372036854775809e"),
        Err(DecodeError::InvalidInteger)
    );
    let (value, _) = decode(b"i-9223372036854775808e").expect("Should decode");
    assert_eq!(value, Bencode::Int(i64::MIN));
}

#[test]
fn test_malformed_strings_are_rejected() {
    assert_eq!(decode(b"5abc"), Err(DecodeError::MissingColon));
    assert_eq!(decode(b"5:abc"), Err(DecodeError::OutOfBounds));
    assert_eq!(
        decode(b"99999999999999999999999:a"),
        Err(DecodeError::InvalidLength)
    );
    assert_eq!(decode(b"x"), Err(DecodeError::UnknownPrefix));
    assert_eq!(
        decode_string(b":abc"),
        Err(DecodeError::InvalidLength)
    );
    assert_eq!(
        decode_string(b"2:\xff\xfe"),
        Err(DecodeError::InvalidUtf8)
    );
    assert_eq!(
        decode_raw_string(b"2:\xff\xfe"),
        Ok((vec![0xffu8, 0xfeu8], 4))
    );
}

#[test]
fn test_truncated_containers_are_rejected() {
    assert_eq!(decode(b"l5:hello"), Err(DecodeError::UnexpectedEnd));
    assert_eq!(decode(b"d3:foo"), Err(DecodeError::UnexpectedEnd));
    assert_eq!(decode(b"d"), Err(DecodeError::MissingColon));
    assert_eq!(decode(b"d2:\xff\xfei1ee"), Err(DecodeError::InvalidUtf8));
}

#[test]
fn test_decode_integer_directly() {
    assert_eq!(decode_integer(b"i52e"), Ok((52, 4)));
    assert_eq!(decode_integer(b"i-52etrailing"), Ok((-52, 5)));
    assert_eq!(decode_integer(b"52e"), Err(DecodeError::UnknownPrefix));
    assert_eq!(decode_integer(b""), Err(DecodeError::UnknownPrefix));
}

#[test]
fn test_decode_list_directly() {
    let (items, consumed) = decode_list(b"li1ei2ee").expect("Should decode");
    assert_eq!(items, vec![Bencode::Int(1), Bencode::Int(2)]);
    assert_eq!(consumed, 8);
    assert_eq!(decode_list(b"i1e"), Err(DecodeError::UnknownPrefix));
}

#[test]
fn test_decode_dict_directly() {
    let (entries, consumed) = decode_dict(b"d1:bi2e1:ai1ee").expect("Should decode");
    assert_eq!(consumed, 14);
    assert_eq!(entries.len(), 2);
    assert_eq!(entries[0].0, "a");
    assert_eq!(entries[0].1, Bencode::Int(1));
    assert_eq!(entries[1].0, "b");
    assert_eq!(entries[1].1, Bencode::Int(2));
    assert_eq!(decode_dict(b"le"), Err(DecodeError::UnknownPrefix));
}

#[test]
fn test_decode_string_directly() {
    assert_eq!(
        decode_string(b"5:hello"),
        Ok(("hello".to_string(), 7))
    );
}

#[test]
fn test_hex_rendering_of_bytes() {
    assert_eq!(bencodec::hex::hex_string(&[]), "");
    assert_eq!(bencodec::hex::hex_string(&[0x00, 0xff, 0x0a]), "00ff0a");
}

#[test]
fn test_dict_get_finds_bound_values() {
    let mut dict = Vec::new();
    bencodec::dict_insert(&mut dict, "k".to_string(), Bencode::Int(7));
    assert_eq!(bencodec::dict_get(&dict, "k"), Some(&Bencode::Int(7)));
    assert_eq!(bencodec::dict_get(&dict, "missing"), None);
}

use bencodec::{decode, dict_insert, Bencode};

#[test]
fn test_render_integer() {
    assert_eq!(Bencode::Int(52).render(), "52");
    assert_eq!(Bencode::Int(0).render(), "0");
    assert_eq!(Bencode::Int(-7).render(), "-7");
    assert_eq!(
        Bencode::Int(i64::MIN).render(),
        "-9223372036854775808"
    );
}

#[test]
fn test_render_string_is_quoted() {
    assert_eq!(Bencode::Str("spam".to_string()).render(), "\"spam\"");
}

#[test]
fn test_render_raw_string_is_lossy() {
    assert_eq!(
        Bencode::RawStr(vec![0xff, b'a']).render(),
        "\"\u{fffd}a\""
    );
}

#[test]
fn test_render_list() {
    let (value, _) = decode(b"l4:spami52ee").expect("Should decode");
    assert_eq!(value.render(), "[\"spam\", 52]");
}

#[test]
fn test_render_dict_in_sorted_key_order() {
    let mut dict = Vec::new();
    dict_insert(&mut dict, "spam".to_string(), Bencode::Str("eggs".to_string()));
    dict_insert(&mut dict, "cow".to_string(), Bencode::Str("moo".to_string()));
    assert_eq!(
        Bencode::Dict(dict).render(),
        "{\"cow\":\"moo\",\"spam\":\"eggs\"}"
    );
}

#[test]
fn test_render_nested() {
    let (value, _) = decode(b"d4:listl3:one3:two5:threee3:numi99ee").expect("Should decode");
    assert_eq!(
        value.render(),
        "{\"list\":[\"one\", \"two\", \"three\"],\"num\":99}"
    );
}

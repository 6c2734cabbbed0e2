use bencode::Bencode;
use bencode::BencodeError;
use bencode::InfoDict;
use bencode::JsonValue;
use bencode::calculate_hash;
use bencode::decode_bencoded_value;
use bencode::get_info_announce;
use bencode::get_info_hash;
use bencode::get_info_length;
use bencode::integer_bencode;
use bencode::list_bencode;
use bencode::string_bencode;

fn dict_of(pairs: Vec<(&[u8], Bencode)>) -> InfoDict {
    let owned: Vec<(Vec<u8>, Bencode)> = pairs.into_iter().map(|(k, v)| (k.to_vec(), v)).collect();
    InfoDict::from_pairs(owned)
}

#[test]
fn decode_string_scenario() {
    let (v, used) = decode_bencoded_value(b"5:hello").unwrap();
    assert_eq!(v, Bencode::String(b"hello".to_vec()));
    assert_eq!(used, b"5:hello".len());
}

#[test]
fn decode_empty_string() {
    let (v, used) = decode_bencoded_value(b"0:").unwrap();
    assert_eq!(v, Bencode::String(Vec::new()));
    assert_eq!(used, 2);
}

#[test]
fn decode_negative_integer_scenario() {
    let (v, used) = decode_bencoded_value(b"i-52e").unwrap();
    assert_eq!(v, Bencode::Integer(-52));
    assert_eq!(used, b"i-52e".len());
}

#[test]
fn decode_list_scenario() {
    let (v, used) = decode_bencoded_value(b"l5:helloi52ee").unwrap();
    assert_eq!(
        v,
        Bencode::List(vec![Bencode::String(b"hello".to_vec()), Bencode::Integer(52)])
    );
    assert_eq!(used, b"l5:helloi52ee".len());
}

#[test]
fn decode_leaves_remainder() {
    let input = b"5:helloi52ee";
    let (v, used) = decode_bencoded_value(input).unwrap();
    assert_eq!(v, Bencode::String(b"hello".to_vec()));
    assert_eq!(&input[used..], b"i52ee");
}

#[test]
fn decode_dictionary_reencodes_canonically() {
    let input = b"d3:foo3:bar5:helloi52ee";
    let (v, used) = decode_bencoded_value(input).unwrap();
    assert_eq!(used, input.len());
    let first = v.bencode();
    let second = v.bencode();
    assert_eq!(first, input.to_vec());
    assert_eq!(first, second);
}

#[test]
fn decode_out_of_order_keys_reencodes_sorted() {
    let input = b"d5:helloi52e3:foo3:bare";
    let (v, used) = decode_bencoded_value(input).unwrap();
    assert_eq!(used, input.len());
    assert_eq!(v.bencode(), b"d3:foo3:bar5:helloi52ee".to_vec());
}

#[test]
fn decode_duplicate_key_last_wins() {
    let (v, _) = decode_bencoded_value(b"d1:ai1e1:ai2ee").unwrap();
    let d = dict_of(vec![(b"a", Bencode::Integer(2))]);
    assert_eq!(v, Bencode::Dictionary(d));
}

#[test]
fn encode_string() {
    assert_eq!(string_bencode(&b"hello".to_vec()), b"5:hello".to_vec());
    assert_eq!(string_bencode(&Vec::new()), b"0:".to_vec());
}

#[test]
fn encode_integers() {
    assert_eq!(integer_bencode(&-52), b"i-52e".to_vec());
    assert_eq!(integer_bencode(&0), b"i0e".to_vec());
    assert_eq!(integer_bencode(&52), b"i52e".to_vec());
    assert_eq!(
        integer_bencode(&i64::MIN),
        b"i-9223372036854775808e".to_vec()
    );
    assert_eq!(
        integer_bencode(&i64::MAX),
        b"i9223372036854775807e".to_vec()
    );
}

#[test]
fn encode_list() {
    let l = vec![Bencode::String(b"hello".to_vec()), Bencode::Integer(52)];
    assert_eq!(list_bencode(&l), b"l5:helloi52ee".to_vec());
    assert_eq!(list_bencode(&Vec::new()), b"le".to_vec());
}

#[test]
fn round_trip_nested_value() {
    let inner = dict_of(vec![
        (b"length", Bencode::Integer(420)),
        (b"name", Bencode::String(b"a.txt".to_vec())),
    ]);
    let v = Bencode::List(vec![
        Bencode::Integer(-7),
        Bencode::String(b"spam".to_vec()),
        Bencode::Dictionary(inner),
        Bencode::List(vec![Bencode::Integer(0)]),
    ]);
    let encoded = v.bencode();
    let (decoded, used) = decode_bencoded_value(&encoded).unwrap();
    assert_eq!(used, encoded.len());
    assert_eq!(decoded, v);
}

#[test]
fn encode_after_decode_is_idempotent() {
    let input = b"d5:helloi52e3:foo3:bare";
    let (v1, _) = decode_bencoded_value(input).unwrap();
    let e1 = v1.bencode();
    let (v2, used) = decode_bencoded_value(&e1).unwrap();
    assert_eq!(used, e1.len());
    assert_eq!(v2, v1);
    assert_eq!(v2.bencode(), e1);
}

#[test]
fn encoding_deterministic_regardless_of_insertion_order() {
    let d1 = dict_of(vec![
        (b"10", Bencode::Integer(1)),
        (b"2", Bencode::Integer(2)),
    ]);
    let d2 = dict_of(vec![
        (b"2", Bencode::Integer(2)),
        (b"10", Bencode::Integer(1)),
    ]);
    let e1 = Bencode::Dictionary(d1).bencode();
    let e2 = Bencode::Dictionary(d2).bencode();
    assert_eq!(e1, e2);
    // byte order sorts "10" before "2"
    assert_eq!(e1, b"d2:10i1e1:2i2ee".to_vec());
}

#[test]
fn from_pairs_last_binding_wins() {
    let d = dict_of(vec![
        (b"a", Bencode::Integer(1)),
        (b"a", Bencode::Integer(2)),
    ]);
    assert_eq!(d.len(), 1);
    assert_eq!(d.get(b"a"), Some(&Bencode::Integer(2)));
    let mut e = InfoDict::new();
    e.insert(b"a".to_vec(), Bencode::Integer(2));
    assert_eq!(d, e);
}

#[test]
fn decode_empty_input_is_malformed() {
    assert_eq!(
        decode_bencoded_value(b"").unwrap_err(),
        BencodeError::MalformedInput
    );
}

#[test]
fn decode_unsupported_leading_byte_is_malformed() {
    assert_eq!(
        decode_bencoded_value(b"x123").unwrap_err(),
        BencodeError::MalformedInput
    );
}

#[test]
fn decode_truncated_payload_is_malformed() {
    assert!(decode_bencoded_value(b"5:hel").is_err());
    assert!(decode_bencoded_value(b"5").is_err());
    assert!(decode_bencoded_value(b"5hello").is_err());
}

#[test]
fn decode_bad_integers_are_malformed() {
    assert!(decode_bencoded_value(b"ie").is_err());
    assert!(decode_bencoded_value(b"i-e").is_err());
    assert!(decode_bencoded_value(b"i12x3e").is_err());
    assert!(decode_bencoded_value(b"i+5e").is_err());
    assert!(decode_bencoded_value(b"i52").is_err());
}

#[test]
fn decode_integer_range() {
    let (v, _) = decode_bencoded_value(b"i9223372036854775807e").unwrap();
    assert_eq!(v, Bencode::Integer(i64::MAX));
    let (v, _) = decode_bencoded_value(b"i-9223372036854775808e").unwrap();
    assert_eq!(v, Bencode::Integer(i64::MIN));
    assert!(decode_bencoded_value(b"i9223372036854775808e").is_err());
    assert!(decode_bencoded_value(b"i-9223372036854775809e").is_err());
}

#[test]
fn decode_unterminated_containers_are_malformed() {
    assert!(decode_bencoded_value(b"l5:hello").is_err());
    assert!(decode_bencoded_value(b"d3:foo3:bar").is_err());
}

#[test]
fn decode_non_string_key_is_malformed() {
    assert_eq!(
        decode_bencoded_value(b"di1e3:fooe").unwrap_err(),
        BencodeError::MalformedInput
    );
}

#[test]
fn info_dict_get() {
    let d = dict_of(vec![
        (b"foo", Bencode::String(b"bar".to_vec())),
        (b"hello", Bencode::Integer(52)),
    ]);
    assert_eq!(d.get(b"foo"), Some(&Bencode::String(b"bar".to_vec())));
    assert_eq!(d.get(b"hello"), Some(&Bencode::Integer(52)));
    assert_eq!(d.get(b"missing"), None);
}

#[test]
fn accessors_read_torrent_fields() {
    let info = dict_of(vec![
        (b"length", Bencode::Integer(420)),
        (b"name", Bencode::String(b"a.txt".to_vec())),
    ]);
    let root = dict_of(vec![
        (b"announce", Bencode::String(b"http://example.com/a".to_vec())),
        (b"info", Bencode::Dictionary(info)),
    ]);
    let v = Bencode::Dictionary(root);
    assert_eq!(v.announce(), Some(String::from("http://example.com/a")));
    assert_eq!(get_info_announce(&v), Some(String::from("http://example.com/a")));
    assert_eq!(v.length(), Some(420));
    assert_eq!(get_info_length(&v), Some(420));
    let h = v.info_hash().unwrap();
    assert_eq!(h.len(), 40);
    assert!(h.bytes().all(|b| b.is_ascii_hexdigit() && !b.is_ascii_uppercase()));
}

#[test]
fn accessors_absent_fields() {
    let v = Bencode::Dictionary(dict_of(vec![]));
    assert_eq!(v.announce(), None);
    assert_eq!(v.length(), None);
    assert_eq!(v.info_hash(), None);
    assert_eq!(get_info_hash(&Bencode::Integer(3)), None);
}

#[test]
fn info_hash_ignores_surrounding_fields_and_key_order() {
    // same `info` content; outer fields and on-disk key order differ
    let t1 = b"d8:announce3:url4:infod6:lengthi420e4:name5:a.txtee";
    let t2 = b"d4:infod4:name5:a.txt6:lengthi420ee5:other2:xye";
    let (v1, _) = decode_bencoded_value(t1).unwrap();
    let (v2, _) = decode_bencoded_value(t2).unwrap();
    let h1 = get_info_hash(&v1).unwrap();
    let h2 = get_info_hash(&v2).unwrap();
    assert_eq!(h1, h2);
    assert_eq!(h1.len(), 40);
}

#[test]
fn calculate_hash_known_digests() {
    assert_eq!(
        calculate_hash(Vec::new()).unwrap(),
        String::from("da39a3ee5e6b4b0d3255bfef95601890afd80709")
    );
    assert_eq!(
        calculate_hash(b"abc".to_vec()).unwrap(),
        String::from("a9993e364706816aba3e25717850c26c9cd0d89d")
    );
}

#[test]
fn to_json_projects_values() {
    let (v, _) = decode_bencoded_value(b"d3:cow3:moo4:spam4:eggse").unwrap();
    let j = v.to_json().unwrap();
    assert_eq!(
        j,
        JsonValue::Object(vec![
            (String::from("cow"), JsonValue::String(String::from("moo"))),
            (String::from("spam"), JsonValue::String(String::from("eggs"))),
        ])
    );
    let (v, _) = decode_bencoded_value(b"l5:helloi-52ee").unwrap();
    assert_eq!(
        v.to_json().unwrap(),
        JsonValue::Array(vec![
            JsonValue::String(String::from("hello")),
            JsonValue::Number(-52),
        ])
    );
}

#[test]
fn to_json_rejects_non_utf8() {
    let v = Bencode::String(vec![0xff, 0xfe]);
    assert_eq!(v.to_json().unwrap_err(), BencodeError::NonUtf8Payload);
    let d = dict_of(vec![(b"k", Bencode::String(vec![0xff]))]);
    assert_eq!(
        Bencode::Dictionary(d).to_json().unwrap_err(),
        BencodeError::NonUtf8Payload
    );
}

#[test]
fn announce_not_utf8_is_absent() {
    let root = dict_of(vec![(b"announce", Bencode::String(vec![0xff, 0x00]))]);
    assert_eq!(get_info_announce(&Bencode::Dictionary(root)), None);
}

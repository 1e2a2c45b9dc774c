use kvs::codec::{decode_rec, encode_record, DecodeOut, Record};
use kvs::strutil::{chars_of, string_of};

fn enc_str(r: &Record) -> String {
    string_of(&encode_record(r))
}

#[test]
fn set_record_encoding_is_one_json_line() {
    let r = Record::Put { key: "k".to_string(), value: "v".to_string() };
    assert_eq!(enc_str(&r), "{\"Set\":{\"key\":\"k\",\"value\":\"v\"}}\n");
}

#[test]
fn remove_record_encoding_is_one_json_line() {
    let r = Record::Remove { key: "k1".to_string() };
    assert_eq!(enc_str(&r), "{\"Remove\":{\"key\":\"k1\"}}\n");
}

#[test]
fn quotes_backslashes_and_controls_are_escaped() {
    let r = Record::Put { key: "a\"b".to_string(), value: "c\\d\ne\u{1}".to_string() };
    assert_eq!(enc_str(&r), "{\"Set\":{\"key\":\"a\\\"b\",\"value\":\"c\\\\d\\ne\\u0001\"}}\n");
}

#[test]
fn short_escapes_encode_and_decode() {
    let r = Record::Put { key: "k".to_string(), value: "\u{8}\t\n\u{c}\r".to_string() };
    assert_eq!(enc_str(&r), "{\"Set\":{\"key\":\"k\",\"value\":\"\\b\\t\\n\\f\\r\"}}\n");
    let text = encode_record(&r);
    match decode_rec(&text, 0) {
        DecodeOut::Parsed(back, end) => {
            assert_eq!(end, text.len());
            match back {
                Record::Put { value, .. } => assert_eq!(value, "\u{8}\t\n\u{c}\r"),
                _ => panic!("variant changed in the round trip"),
            }
        },
        _ => panic!("the canonical encoding must decode"),
    }
}

#[test]
fn long_escapes_for_short_escaped_controls_are_not_canonical() {
    let text = chars_of("{\"Set\":{\"key\":\"k\",\"value\":\"\\u000a\"}}\n");
    assert!(matches!(decode_rec(&text, 0), DecodeOut::Mismatch));
}

#[test]
fn decode_of_encode_is_identity() {
    let cases = vec![
        Record::Put { key: "k".to_string(), value: "v".to_string() },
        Record::Put { key: "a\"b\\c".to_string(), value: "x\ny\u{1f}z".to_string() },
        Record::Put { key: String::new(), value: String::new() },
        Record::Remove { key: "gone".to_string() },
    ];
    for r in cases {
        let text = encode_record(&r);
        match decode_rec(&text, 0) {
            DecodeOut::Parsed(back, end) => {
                assert_eq!(end, text.len());
                match (&r, &back) {
                    (
                        Record::Put { key: k1, value: v1 },
                        Record::Put { key: k2, value: v2 },
                    ) => {
                        assert_eq!(k1, k2);
                        assert_eq!(v1, v2);
                    },
                    (Record::Remove { key: k1 }, Record::Remove { key: k2 }) => {
                        assert_eq!(k1, k2)
                    },
                    _ => panic!("variant changed in the round trip"),
                }
            },
            _ => panic!("the canonical encoding must decode"),
        }
    }
}

#[test]
fn encode_of_decode_is_identity() {
    let text = chars_of("{\"Set\":{\"key\":\"a\\\"b\",\"value\":\"c\\u0001\"}}\n");
    match decode_rec(&text, 0) {
        DecodeOut::Parsed(rec, end) => {
            assert_eq!(end, text.len());
            assert_eq!(string_of(&encode_record(&rec)), string_of(&text));
        },
        _ => panic!("a well-formed record must decode"),
    }
}

#[test]
fn truncated_record_asks_for_more() {
    let text = chars_of("{\"Set\":{\"key\":\"k\",\"va");
    assert!(matches!(decode_rec(&text, 0), DecodeOut::MoreNeeded));
}

#[test]
fn malformed_record_is_a_mismatch() {
    let text = chars_of("{\"Frob\":{\"key\":\"k\"}}\n");
    assert!(matches!(decode_rec(&text, 0), DecodeOut::Mismatch));
    let text2 = chars_of("garbage\n");
    assert!(matches!(decode_rec(&text2, 0), DecodeOut::Mismatch));
}

#[test]
fn two_records_decode_in_sequence() {
    let text = chars_of("{\"Set\":{\"key\":\"a\",\"value\":\"1\"}}\n{\"Remove\":{\"key\":\"a\"}}\n");
    let end1 = match decode_rec(&text, 0) {
        DecodeOut::Parsed(rec, end) => {
            assert!(matches!(rec, Record::Put { .. }));
            end
        },
        _ => panic!("first record must decode"),
    };
    match decode_rec(&text, end1) {
        DecodeOut::Parsed(rec, end) => {
            assert!(matches!(rec, Record::Remove { .. }));
            assert_eq!(end, text.len());
        },
        _ => panic!("second record must decode"),
    }
}

use bittorrent::bencode::{decode_bencoded_value, encode_bencoded_value, BencodeValue};
use bittorrent::error::BittorrentError;

fn bytes(s: &str) -> Vec<u8> {
    s.as_bytes().to_vec()
}

#[test]
fn decode_dictionary() {
    let expected = BencodeValue::Dictionary(vec![
        (bytes("foo"), BencodeValue::ByteString(bytes("bar"))),
        (bytes("hello"), BencodeValue::Integer(52)),
    ]);
    assert_eq!(
        (expected, &b""[..]),
        decode_bencoded_value(b"d3:foo3:bar5:helloi52ee").unwrap()
    );
}

#[test]
fn decode_list() {
    assert_eq!(
        (
            BencodeValue::List(vec![
                BencodeValue::ByteString(bytes("hello")),
                BencodeValue::Integer(52)
            ]),
            &b""[..]
        ),
        decode_bencoded_value(b"l5:helloi52ee").unwrap()
    );
}

#[test]
fn decode_string() {
    assert_eq!(
        (BencodeValue::ByteString(bytes("hello")), &b""[..]),
        decode_bencoded_value(b"5:hello").unwrap()
    );
}

#[test]
fn decode_integer() {
    assert_eq!(
        (BencodeValue::Integer(52), &b""[..]),
        decode_bencoded_value(b"i52e").unwrap()
    );
}

#[test]
fn decode_keeps_dictionary_order() {
    let (v, rest) = decode_bencoded_value(b"d5:hello1:a3:foo1:be").unwrap();
    assert!(rest.is_empty());
    assert_eq!(
        v,
        BencodeValue::Dictionary(vec![
            (bytes("hello"), BencodeValue::ByteString(bytes("a"))),
            (bytes("foo"), BencodeValue::ByteString(bytes("b"))),
        ])
    );
}

#[test]
fn decode_returns_remaining_bytes() {
    let (v, rest) = decode_bencoded_value(b"i-7ei3e").unwrap();
    assert_eq!(v, BencodeValue::Integer(-7));
    assert_eq!(rest, &b"i3e"[..]);
}

#[test]
fn decode_empty_list_and_dictionary() {
    assert_eq!(decode_bencoded_value(b"le").unwrap().0, BencodeValue::List(vec![]));
    assert_eq!(decode_bencoded_value(b"de").unwrap().0, BencodeValue::Dictionary(vec![]));
    assert_eq!(decode_bencoded_value(b"0:").unwrap().0, BencodeValue::ByteString(vec![]));
}

#[test]
fn decode_integer_limits() {
    assert_eq!(
        decode_bencoded_value(b"i-9223372036854775808e").unwrap().0,
        BencodeValue::Integer(i64::MIN)
    );
    assert_eq!(
        decode_bencoded_value(b"i9223372036854775807e").unwrap().0,
        BencodeValue::Integer(i64::MAX)
    );
    assert_eq!(
        decode_bencoded_value(b"i9223372036854775808e"),
        Err(BittorrentError::DecodeError)
    );
}

#[test]
fn decode_truncated_byte_string_fails() {
    assert_eq!(decode_bencoded_value(b"10:hello"), Err(BittorrentError::DecodeError));
    assert_eq!(
        decode_bencoded_value(b"99999999999999999999999:x"),
        Err(BittorrentError::DecodeError)
    );
}

#[test]
fn decode_non_string_key_fails() {
    assert_eq!(decode_bencoded_value(b"di1ei2ee"), Err(BittorrentError::DecodeError));
}

#[test]
fn decode_malformed_inputs_fail() {
    assert_eq!(decode_bencoded_value(b""), Err(BittorrentError::DecodeError));
    assert_eq!(decode_bencoded_value(b"x"), Err(BittorrentError::DecodeError));
    assert_eq!(decode_bencoded_value(b"i12"), Err(BittorrentError::DecodeError));
    assert_eq!(decode_bencoded_value(b"ie"), Err(BittorrentError::DecodeError));
    assert_eq!(decode_bencoded_value(b"i1x2e"), Err(BittorrentError::DecodeError));
    assert_eq!(decode_bencoded_value(b"l5:hello"), Err(BittorrentError::DecodeError));
    assert_eq!(decode_bencoded_value(b"d3:fooe"), Err(BittorrentError::DecodeError));
    assert_eq!(decode_bencoded_value(b"d1:ai1e1:ai2ee"), Err(BittorrentError::DecodeError));
}

#[test]
fn decode_depth_is_bounded() {
    let mut deep = vec![b'l'; 65];
    deep.extend(vec![b'e'; 65]);
    assert_eq!(decode_bencoded_value(&deep), Err(BittorrentError::DecodeError));
    let mut ok = vec![b'l'; 64];
    ok.extend(vec![b'e'; 64]);
    assert!(decode_bencoded_value(&ok).is_ok());
}

#[test]
fn encode_each_kind() {
    assert_eq!(encode_bencoded_value(&BencodeValue::Integer(52)), b"i52e".to_vec());
    assert_eq!(encode_bencoded_value(&BencodeValue::Integer(-3)), b"i-3e".to_vec());
    assert_eq!(encode_bencoded_value(&BencodeValue::Integer(0)), b"i0e".to_vec());
    assert_eq!(
        encode_bencoded_value(&BencodeValue::Integer(i64::MIN)),
        b"i-9223372036854775808e".to_vec()
    );
    assert_eq!(
        encode_bencoded_value(&BencodeValue::ByteString(bytes("hello"))),
        b"5:hello".to_vec()
    );
    let v = BencodeValue::Dictionary(vec![
        (bytes("foo"), BencodeValue::ByteString(bytes("bar"))),
        (
            bytes("hello"),
            BencodeValue::List(vec![BencodeValue::Integer(52), BencodeValue::List(vec![])]),
        ),
    ]);
    assert_eq!(encode_bencoded_value(&v), b"d3:foo3:bar5:helloli52eleee".to_vec());
}

#[test]
fn round_trip_examples() {
    let values = vec![
        BencodeValue::Integer(-12345),
        BencodeValue::ByteString(vec![0, 255, 101, 58]),
        BencodeValue::List(vec![BencodeValue::Integer(1), BencodeValue::ByteString(vec![])]),
        BencodeValue::Dictionary(vec![
            (bytes("z"), BencodeValue::Integer(1)),
            (bytes("a"), BencodeValue::Dictionary(vec![(bytes("k"), BencodeValue::Integer(2))])),
        ]),
    ];
    for v in values {
        let e = encode_bencoded_value(&v);
        let (back, rest) = decode_bencoded_value(&e).unwrap();
        assert_eq!(back, v);
        assert!(rest.is_empty());
    }
}

use kvs::decode_command;
use kvs::decode_request;
use kvs::decode_response;
use kvs::encode_command;
use kvs::encode_request;
use kvs::encode_response;
use kvs::Command;
use kvs::Request;
use kvs::Response;

#[test]
fn test_encode_set_record_exact() {
    let bytes = encode_command(&Command::SET("a".to_owned(), "1".to_owned()));
    assert_eq!(bytes, b"{\"SET\":[\"a\",\"1\"]}".to_vec());
}

#[test]
fn test_encode_rm_record_exact() {
    let bytes = encode_command(&Command::RM("a".to_owned()));
    assert_eq!(bytes, b"{\"RM\":\"a\"}".to_vec());
}

#[test]
fn test_record_round_trip() {
    let cmd = Command::SET("key one".to_owned(), "value two".to_owned());
    let bytes = encode_command(&cmd);
    let (decoded, end) = decode_command(&bytes, 0).unwrap();
    assert_eq!(end, bytes.len());
    match decoded {
        Command::SET(k, v) => {
            assert_eq!(k, "key one");
            assert_eq!(v, "value two");
        }
        Command::RM(_) => panic!("decoded the wrong variant"),
    }
}

#[test]
fn test_record_escapes_exact() {
    let cmd = Command::SET("a\"b\\c\n".to_owned(), "\u{2713}".to_owned());
    let bytes = encode_command(&cmd);
    let mut expected: Vec<u8> = Vec::new();
    expected.extend_from_slice(b"{\"SET\":[\"a\\\"b\\\\c\\u000a\",\"");
    expected.extend_from_slice(&[0xe2, 0x9c, 0x93]);
    expected.extend_from_slice(b"\"]}");
    assert_eq!(bytes, expected);

    let (decoded, _end) = decode_command(&bytes, 0).unwrap();
    match decoded {
        Command::SET(k, v) => {
            assert_eq!(k, "a\"b\\c\n");
            assert_eq!(v, "\u{2713}");
        }
        Command::RM(_) => panic!("decoded the wrong variant"),
    }
}

#[test]
fn test_records_are_self_delimiting() {
    let mut bytes = encode_command(&Command::SET("a".to_owned(), "1".to_owned()));
    let first_len = bytes.len();
    bytes.extend_from_slice(&encode_command(&Command::RM("a".to_owned())));
    let (first, end) = decode_command(&bytes, 0).unwrap();
    assert_eq!(end, first_len);
    assert!(matches!(first, Command::SET(_, _)));
    let (second, end2) = decode_command(&bytes, end).unwrap();
    assert_eq!(end2, bytes.len());
    assert!(matches!(second, Command::RM(_)));
}

#[test]
fn test_decode_rejects_garbage() {
    assert!(decode_command(&b"hello".to_vec(), 0).is_err());
    assert!(decode_command(&b"{\"SET\":[\"a\"".to_vec(), 0).is_err());
    assert!(decode_command(&b"{\"SET\":[\"a\",\"1\"]".to_vec(), 0).is_err());
    assert!(decode_command(&Vec::new(), 0).is_err());
}

#[test]
fn test_decode_rejects_stray_escapes() {
    // A raw control byte, an unknown escape letter, a non-ASCII
    // \u escape and a truncated \u escape are all refused.
    assert!(decode_command(&b"{\"RM\":\"a\x01\"}".to_vec(), 0).is_err());
    assert!(decode_command(&b"{\"RM\":\"a\\x\"}".to_vec(), 0).is_err());
    assert!(decode_command(&b"{\"RM\":\"\\u00e9\"}".to_vec(), 0).is_err());
    assert!(decode_command(&b"{\"RM\":\"\\u004\"}".to_vec(), 0).is_err());
}

#[test]
fn test_decode_accepts_standard_escapes() {
    // The writer is canonical, but records written by other JSON
    // encoders use the short escapes and uppercase or non-control
    // \u escapes; the decoder takes them all.
    let (cmd, _end) = decode_command(&b"{\"SET\":[\"a\\tb\",\"c\\nd\"]}".to_vec(), 0).unwrap();
    match cmd {
        Command::SET(k, v) => {
            assert_eq!(k, "a\tb");
            assert_eq!(v, "c\nd");
        }
        Command::RM(_) => panic!("decoded the wrong variant"),
    }
    let (cmd, _end) = decode_command(&b"{\"RM\":\"\\b\\f\\r\\/\\u000A\\u0041\"}".to_vec(), 0).unwrap();
    match cmd {
        Command::RM(k) => assert_eq!(k, "\u{8}\u{c}\r/\nA"),
        Command::SET(_, _) => panic!("decoded the wrong variant"),
    }
}

#[test]
fn test_recover_log_with_standard_escapes() {
    // A segment written by another JSON encoder replays: short
    // escapes in its records decode to the same mapping.
    let data = b"{\"SET\":[\"k\\n1\",\"line\\tone\"]}{\"RM\":\"other\"}".to_vec();
    let store = kvs::KvStore::open(vec![kvs::Segment { number: 0, data }]).unwrap();
    assert_eq!(
        store.get("k\n1".to_owned()).unwrap(),
        Some("line\tone".to_owned())
    );
}

#[test]
fn test_encode_request_exact() {
    assert_eq!(
        encode_request(&Request::SET("foo".to_owned(), "bar".to_owned())),
        b"{\"SET\":[\"foo\",\"bar\"]}".to_vec()
    );
    assert_eq!(
        encode_request(&Request::RM("foo".to_owned())),
        b"{\"RM\":\"foo\"}".to_vec()
    );
    assert_eq!(
        encode_request(&Request::GET("foo".to_owned())),
        b"{\"GET\":\"foo\"}".to_vec()
    );
}

#[test]
fn test_encode_response_exact() {
    assert_eq!(encode_response(&Response::Okay(None)), b"{\"Ok\":null}".to_vec());
    assert_eq!(
        encode_response(&Response::Okay(Some("bar".to_owned()))),
        b"{\"Ok\":\"bar\"}".to_vec()
    );
    assert_eq!(
        encode_response(&Response::Error("boom".to_owned())),
        b"{\"Err\":\"boom\"}".to_vec()
    );
}

#[test]
fn test_request_round_trip() {
    let reqs = vec![
        Request::SET("k".to_owned(), "v".to_owned()),
        Request::RM("k".to_owned()),
        Request::GET("k".to_owned()),
    ];
    for req in reqs {
        let bytes = encode_request(&req);
        let (decoded, end) = decode_request(&bytes, 0).unwrap();
        assert_eq!(end, bytes.len());
        match (req, decoded) {
            (Request::SET(k1, v1), Request::SET(k2, v2)) => {
                assert_eq!(k1, k2);
                assert_eq!(v1, v2);
            }
            (Request::RM(k1), Request::RM(k2)) => assert_eq!(k1, k2),
            (Request::GET(k1), Request::GET(k2)) => assert_eq!(k1, k2),
            _ => panic!("round trip changed the variant"),
        }
    }
}

#[test]
fn test_response_round_trip() {
    let resps = vec![
        Response::Okay(None),
        Response::Okay(Some("value".to_owned())),
        Response::Error("Key not found".to_owned()),
    ];
    for resp in resps {
        let bytes = encode_response(&resp);
        let (decoded, end) = decode_response(&bytes, 0).unwrap();
        assert_eq!(end, bytes.len());
        match (resp, decoded) {
            (Response::Okay(v1), Response::Okay(v2)) => assert_eq!(v1, v2),
            (Response::Error(m1), Response::Error(m2)) => assert_eq!(m1, m2),
            _ => panic!("round trip changed the variant"),
        }
    }
}

#[test]
fn test_decode_response_rejects_garbage() {
    assert!(decode_response(&b"{\"Ok\":nul}".to_vec(), 0).is_err());
    assert!(decode_response(&b"{\"Okay\":null}".to_vec(), 0).is_err());
    assert!(decode_request(&b"{\"PUT\":\"x\"}".to_vec(), 0).is_err());
}

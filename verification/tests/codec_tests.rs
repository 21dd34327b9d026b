use miniredis::codec::{
    encode_integer, encode_null_array, encode_null_bulk, encode_resp_array,
    encode_resp_bulk_string, encode_simple_string, encode_error_string, hex_to_binary,
    u64_to_decimal, Frame,
};
use miniredis::decoder::{decode_frame, DecodeOutcome};

fn decode_all(buf: &[u8]) -> (Vec<Frame>, usize, bool) {
    let v = buf.to_vec();
    let mut frames = Vec::new();
    let mut pos = 0usize;
    loop {
        let rest = v[pos..].to_vec();
        match decode_frame(&rest, 0) {
            DecodeOutcome::Complete(f, n) => {
                frames.push(f);
                pos += n;
            }
            DecodeOutcome::Incomplete => return (frames, pos, false),
            DecodeOutcome::Malformed => return (frames, pos, true),
        }
    }
}

#[test]
fn u64_decimal_renders_canonically() {
    assert_eq!(u64_to_decimal(0), b"0".to_vec());
    assert_eq!(u64_to_decimal(6379), b"6379".to_vec());
    assert_eq!(u64_to_decimal(u64::MAX), b"18446744073709551615".to_vec());
}

#[test]
fn encode_simple_and_error() {
    assert_eq!(encode_simple_string(b"PONG"), b"+PONG\r\n".to_vec());
    assert_eq!(encode_error_string(b"ERR x"), b"-ERR x\r\n".to_vec());
}

#[test]
fn encode_integers() {
    assert_eq!(encode_integer(0), b":0\r\n".to_vec());
    assert_eq!(encode_integer(42), b":42\r\n".to_vec());
    assert_eq!(encode_integer(-17), b":-17\r\n".to_vec());
    assert_eq!(encode_integer(i64::MIN), b":-9223372036854775808\r\n".to_vec());
}

#[test]
fn encode_bulk_and_nulls() {
    assert_eq!(encode_resp_bulk_string(b"hello"), b"$5\r\nhello\r\n".to_vec());
    assert_eq!(encode_resp_bulk_string(b""), b"$0\r\n\r\n".to_vec());
    assert_eq!(encode_null_bulk(), b"$-1\r\n".to_vec());
    assert_eq!(encode_null_array(), b"*-1\r\n".to_vec());
}

#[test]
fn encode_array_of_bulks() {
    let items = vec![b"ECHO".to_vec(), b"hello".to_vec()];
    assert_eq!(
        encode_resp_array(&items),
        b"*2\r\n$4\r\nECHO\r\n$5\r\nhello\r\n".to_vec()
    );
}

#[test]
fn round_trip_each_category() {
    let frames: Vec<Vec<u8>> = vec![
        encode_simple_string(b"OK"),
        encode_error_string(b"ERR bad"),
        encode_integer(-5),
        encode_resp_bulk_string(b"binary\x00data"),
        encode_null_bulk(),
        encode_resp_array(&vec![b"SET".to_vec(), b"k".to_vec(), b"v".to_vec()]),
        encode_null_array(),
    ];
    for bytes in frames {
        let v = bytes.clone();
        match decode_frame(&v, 0) {
            DecodeOutcome::Complete(_, n) => assert_eq!(n, bytes.len()),
            _ => panic!("expected a whole frame for {:?}", bytes),
        }
    }
}

#[test]
fn round_trip_preserves_bulk_payload() {
    let payload = b"hello\r\nworld";
    let bytes = encode_resp_bulk_string(payload);
    match decode_frame(&bytes, 0) {
        DecodeOutcome::Complete(Frame::Bulk(p), n) => {
            assert_eq!(p, payload.to_vec());
            assert_eq!(n, bytes.len());
        }
        _ => panic!("bulk payload did not round-trip"),
    }
}

#[test]
fn every_strict_prefix_is_incomplete() {
    let bytes = encode_resp_array(&vec![b"SET".to_vec(), b"foo".to_vec(), b"bar".to_vec()]);
    for i in 0..bytes.len() {
        let prefix = bytes[..i].to_vec();
        match decode_frame(&prefix, 0) {
            DecodeOutcome::Incomplete => {}
            _ => panic!("prefix of length {} was not reported incomplete", i),
        }
    }
}

#[test]
fn split_feeding_yields_the_same_frames() {
    let mut stream = Vec::new();
    stream.extend_from_slice(&encode_simple_string(b"PONG"));
    stream.extend_from_slice(&encode_resp_array(&vec![b"GET".to_vec(), b"k".to_vec()]));
    stream.extend_from_slice(&encode_integer(7));
    let (whole, consumed, bad) = decode_all(&stream);
    assert_eq!(whole.len(), 3);
    assert_eq!(consumed, stream.len());
    assert!(!bad);
    for i in 0..=stream.len() {
        let (first, used, bad1) = decode_all(&stream[..i]);
        assert!(!bad1);
        let mut rest = stream[used..i].to_vec();
        rest.extend_from_slice(&stream[i..]);
        let (second, _, bad2) = decode_all(&rest);
        assert!(!bad2);
        assert_eq!(first.len() + second.len(), 3, "split at {}", i);
    }
}

#[test]
fn bad_tag_is_malformed() {
    let v = b"hello\r\n".to_vec();
    assert!(matches!(decode_frame(&v, 0), DecodeOutcome::Malformed));
}

#[test]
fn leading_zero_length_is_malformed() {
    let v = b"$007\r\nabcdefg\r\n".to_vec();
    assert!(matches!(decode_frame(&v, 0), DecodeOutcome::Malformed));
}

#[test]
fn bare_lf_in_line_is_malformed() {
    let v = b"+PO\nNG\r\n".to_vec();
    assert!(matches!(decode_frame(&v, 0), DecodeOutcome::Malformed));
}

#[test]
fn integer_out_of_range_is_malformed() {
    let v = b":9223372036854775808\r\n".to_vec();
    assert!(matches!(decode_frame(&v, 0), DecodeOutcome::Malformed));
    let v2 = b":-9223372036854775809\r\n".to_vec();
    assert!(matches!(decode_frame(&v2, 0), DecodeOutcome::Malformed));
}

#[test]
fn hex_to_binary_decodes_pairs() {
    let hex = b"48656c6c6f".to_vec();
    assert_eq!(hex_to_binary(&hex), Some(b"Hello".to_vec()));
    let upper = b"DEADBEEF".to_vec();
    assert_eq!(hex_to_binary(&upper), Some(vec![0xde, 0xad, 0xbe, 0xef]));
}

#[test]
fn hex_to_binary_rejects_bad_input() {
    assert_eq!(hex_to_binary(&b"abc".to_vec()), None);
    assert_eq!(hex_to_binary(&b"zz".to_vec()), None);
}

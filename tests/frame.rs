use my_mini_redis::codec::{decode, encode_frame, parse_decimal, write_decimal};
use my_mini_redis::command::{Command, CommandError};
use my_mini_redis::decoder::FrameDecoder;
use my_mini_redis::frame::{Decoded, Frame, FrameError};
use my_mini_redis::server::dispatch;
use my_mini_redis::store::Store;

fn samples() -> Vec<Frame> {
    vec![
        Frame::Simple("OK".to_string()),
        Frame::Simple(String::new()),
        Frame::Simple("héllo wörld".to_string()),
        Frame::Error("ERR bad".to_string()),
        Frame::Integer(0),
        Frame::Integer(42),
        Frame::Integer(u64::MAX),
        Frame::Bulk(b"hello".to_vec()),
        Frame::Bulk(Vec::new()),
        Frame::Bulk(b"a\r\nb\0c".to_vec()),
        Frame::Null,
    ]
}

#[test]
fn encodes_by_the_grammar() {
    assert_eq!(encode_frame(&Frame::Simple("OK".to_string())).unwrap(), b"+OK\r\n".to_vec());
    assert_eq!(encode_frame(&Frame::Error("oops".to_string())).unwrap(), b"-oops\r\n".to_vec());
    assert_eq!(encode_frame(&Frame::Integer(1234)).unwrap(), b":1234\r\n".to_vec());
    assert_eq!(encode_frame(&Frame::Bulk(b"world".to_vec())).unwrap(), b"$5\r\nworld\r\n".to_vec());
    assert_eq!(encode_frame(&Frame::Null).unwrap(), b"$-1\r\n".to_vec());
    assert_eq!(encode_frame(&Frame::Integer(u64::MAX)).unwrap(), b":18446744073709551615\r\n".to_vec());
}

#[test]
fn unencodable_frames_are_refused() {
    assert_eq!(encode_frame(&Frame::Array(vec![Frame::Null])), Err(FrameError::Unencodable));
    assert_eq!(encode_frame(&Frame::Simple("a\r\nb".to_string())), Err(FrameError::Unencodable));
    assert_eq!(encode_frame(&Frame::Error("a\nb".to_string())), Err(FrameError::Unencodable));
}

#[test]
fn large_bulk_encodes() {
    let payload = vec![7u8; 1 << 20];
    let bytes = encode_frame(&Frame::Bulk(payload.clone())).unwrap();
    assert_eq!(&bytes[..10], b"$1048576\r\n");
    assert_eq!(bytes.len(), 10 + (1 << 20) + 2);
    assert_eq!(&bytes[10..10 + (1 << 20)], &payload[..]);
    assert_eq!(&bytes[bytes.len() - 2..], b"\r\n");
}

#[test]
fn decimal_helpers() {
    let mut out = Vec::new();
    write_decimal(907, &mut out);
    assert_eq!(out, b"907".to_vec());
    assert_eq!(parse_decimal(b"x907x", 1, 4), Some(907));
    assert_eq!(parse_decimal(b"18446744073709551616", 0, 20), None);
    assert_eq!(parse_decimal(b"12a", 0, 3), None);
    assert_eq!(parse_decimal(b"", 0, 0), None);
}

#[test]
fn round_trip_of_every_sample() {
    for f in samples() {
        let bytes = encode_frame(&f).unwrap();
        assert_eq!(decode(&bytes), Decoded::Complete(f, bytes.len()));
    }
}

#[test]
fn round_trip_leaves_following_bytes() {
    let mut bytes = encode_frame(&Frame::Bulk(b"hello".to_vec())).unwrap();
    bytes.extend_from_slice(b"+next\r\n");
    assert_eq!(decode(&bytes), Decoded::Complete(Frame::Bulk(b"hello".to_vec()), 11));
}

#[test]
fn incremental_delivery_at_every_cut() {
    for f in samples() {
        let bytes = encode_frame(&f).unwrap();
        for cut in 0..=bytes.len() {
            let mut decoder = FrameDecoder::new();
            decoder.receive(&bytes[..cut]);
            if cut < bytes.len() {
                assert_eq!(decoder.parse_frame(), Ok(None));
                assert_eq!(decoder.buffered_len(), cut);
                decoder.receive(&bytes[cut..]);
            }
            assert_eq!(decoder.parse_frame(), Ok(Some(f_clone(&f))));
            assert_eq!(decoder.buffered_len(), 0);
        }
    }
}

#[test]
fn byte_at_a_time_delivery() {
    let bytes = encode_frame(&Frame::Bulk(b"hello".to_vec())).unwrap();
    let mut decoder = FrameDecoder::new();
    for (i, b) in bytes.iter().enumerate() {
        decoder.receive(&[*b]);
        let r = decoder.parse_frame();
        if i + 1 < bytes.len() {
            assert_eq!(r, Ok(None));
        } else {
            assert_eq!(r, Ok(Some(Frame::Bulk(b"hello".to_vec()))));
        }
    }
}

fn f_clone(f: &Frame) -> Frame {
    match f {
        Frame::Simple(s) => Frame::Simple(s.clone()),
        Frame::Error(s) => Frame::Error(s.clone()),
        Frame::Integer(n) => Frame::Integer(*n),
        Frame::Bulk(b) => Frame::Bulk(b.clone()),
        Frame::Null => Frame::Null,
        Frame::Array(_) => panic!("no arrays among the samples"),
    }
}

#[test]
fn truncated_frame_is_connection_reset() {
    for f in samples() {
        let bytes = encode_frame(&f).unwrap();
        let mut decoder = FrameDecoder::new();
        decoder.receive(&bytes[..bytes.len() - 1]);
        assert_eq!(decoder.parse_frame(), Ok(None));
        assert_eq!(decoder.end_of_stream(), Err(FrameError::ConnectionReset));
    }
}

#[test]
fn clean_end_of_stream() {
    let mut decoder = FrameDecoder::new();
    assert_eq!(decoder.end_of_stream(), Ok(None));
    decoder.receive(b"+OK\r\n");
    assert_eq!(decoder.parse_frame(), Ok(Some(Frame::Simple("OK".to_string()))));
    assert_eq!(decoder.end_of_stream(), Ok(None));
}

#[test]
fn two_frames_in_one_read() {
    let mut decoder = FrameDecoder::new();
    decoder.receive(b":1\r\n:2\r\n:3");
    assert_eq!(decoder.parse_frame(), Ok(Some(Frame::Integer(1))));
    assert_eq!(decoder.parse_frame(), Ok(Some(Frame::Integer(2))));
    assert_eq!(decoder.parse_frame(), Ok(None));
    assert_eq!(decoder.buffered_len(), 2);
}

#[test]
fn unknown_tag_is_malformed() {
    for b in [b'x', b'0', b'\r', b'#', b'!', 0u8, 255u8] {
        assert_eq!(decode(&[b]), Decoded::Malformed);
        assert_eq!(decode(&[b, b'+', b'O', b'K', b'\r', b'\n']), Decoded::Malformed);
    }
    let mut decoder = FrameDecoder::new();
    decoder.receive(b"?hello\r\n");
    assert_eq!(decoder.parse_frame(), Err(FrameError::Malformed));
    assert_eq!(decoder.buffered_len(), 8);
}

#[test]
fn malformed_fields() {
    assert_eq!(decode(b":12a\r\n"), Decoded::Malformed);
    assert_eq!(decode(b":\r\n"), Decoded::Malformed);
    assert_eq!(decode(b":18446744073709551616\r\n"), Decoded::Malformed);
    assert_eq!(decode(b"$abc\r\n"), Decoded::Malformed);
    assert_eq!(decode(b"$-2\r\n"), Decoded::Malformed);
    assert_eq!(decode(b"$999999999999\r\n"), Decoded::Malformed);
    assert_eq!(decode(b"$536870913\r\n"), Decoded::Malformed);
    assert_eq!(decode(b"$3\r\nabcd\r\n"), Decoded::Malformed);
    assert_eq!(decode(b"+\xff\xfe\r\n"), Decoded::Malformed);
    assert_eq!(decode(b"*1\r\n*0\r\n"), Decoded::Malformed);
}

#[test]
fn incomplete_fields() {
    assert_eq!(decode(b""), Decoded::Incomplete);
    assert_eq!(decode(b"+OK"), Decoded::Incomplete);
    assert_eq!(decode(b"+OK\r"), Decoded::Incomplete);
    assert_eq!(decode(b"$536870912\r\n"), Decoded::Incomplete);
    assert_eq!(decode(b"*2\r\n$3\r\nGET\r\n"), Decoded::Incomplete);
}

#[test]
fn decodes_arrays() {
    let bytes = b"*2\r\n$3\r\nGET\r\n+key\r\n";
    assert_eq!(
        decode(bytes),
        Decoded::Complete(
            Frame::Array(vec![Frame::Bulk(b"GET".to_vec()), Frame::Simple("key".to_string())]),
            bytes.len()
        )
    );
    assert_eq!(decode(b"*0\r\n"), Decoded::Complete(Frame::Array(Vec::new()), 4));
}

fn request(parts: &[&[u8]]) -> Frame {
    Frame::Array(parts.iter().map(|p| Frame::Bulk(p.to_vec())).collect())
}

#[test]
fn parses_get_and_set() {
    assert_eq!(
        Command::from_frame(&request(&[b"get", b"hello"])),
        Ok(Command::Get { key: "hello".to_string() })
    );
    assert_eq!(
        Command::from_frame(&request(&[b"SeT", b"hello", b"world"])),
        Ok(Command::SetValue { key: "hello".to_string(), value: b"world".to_vec() })
    );
    assert_eq!(
        Command::from_frame(&Frame::Array(vec![
            Frame::Simple("GET".to_string()),
            Frame::Simple("k".to_string())
        ])),
        Ok(Command::Get { key: "k".to_string() })
    );
}

#[test]
fn rejects_other_requests() {
    assert_eq!(Command::from_frame(&request(&[b"ping"])), Err(CommandError::Protocol));
    assert_eq!(Command::from_frame(&request(&[b"get"])), Err(CommandError::Protocol));
    assert_eq!(Command::from_frame(&request(&[b"get", b"a", b"b"])), Err(CommandError::Protocol));
    assert_eq!(Command::from_frame(&request(&[b"set", b"a"])), Err(CommandError::Protocol));
    assert_eq!(Command::from_frame(&request(&[b"gets", b"a"])), Err(CommandError::Protocol));
    assert_eq!(Command::from_frame(&request(&[b"get", b"\xff"])), Err(CommandError::Protocol));
    assert_eq!(Command::from_frame(&request(&[])), Err(CommandError::Protocol));
    assert_eq!(Command::from_frame(&Frame::Bulk(b"get".to_vec())), Err(CommandError::Protocol));
    assert_eq!(
        Command::from_frame(&Frame::Array(vec![Frame::Bulk(b"get".to_vec()), Frame::Integer(1)])),
        Err(CommandError::Protocol)
    );
}

fn serve(store: &mut Store, decoder: &mut FrameDecoder, input: &[u8]) -> Vec<u8> {
    decoder.receive(input);
    let frame = decoder.parse_frame().unwrap().unwrap();
    let command = Command::from_frame(&frame).unwrap();
    encode_frame(&dispatch(command, store)).unwrap()
}

#[test]
fn set_get_session_over_the_wire() {
    let mut store = Store::new();
    let mut decoder = FrameDecoder::new();
    let reply = serve(
        &mut store,
        &mut decoder,
        b"*3\r\n$3\r\nSET\r\n$5\r\nhello\r\n$5\r\nworld\r\n",
    );
    assert_eq!(reply, b"+OK\r\n".to_vec());
    let reply = serve(&mut store, &mut decoder, b"*2\r\n$3\r\nGET\r\n$5\r\nhello\r\n");
    assert_eq!(reply, b"$5\r\nworld\r\n".to_vec());
    let reply = serve(&mut store, &mut decoder, b"*2\r\n$3\r\nGET\r\n$7\r\nmissing\r\n");
    assert_eq!(reply, b"$-1\r\n".to_vec());
}

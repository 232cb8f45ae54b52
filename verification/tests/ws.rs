use wireparse::stream::ByteStream;
use wireparse::ws::{decode_frame_body, frame_opts, parse_frame, Frame};

#[test]
fn opts() {
    let bytes: Vec<u8> = vec![128 + 3, 128 + 3];
    let mut stream = ByteStream::wrap(bytes);
    let opts = stream.apply(frame_opts()).unwrap();
    assert_eq!(opts.fin, true);
    assert_eq!(opts.code, 3);
    assert_eq!(opts.mask, true);
    assert_eq!(opts.len, 3);
}

#[test]
fn frame1() {
    let bytes: Vec<u8> = vec![128 + 9, 128 + 7, 1, 2, 3, 4, 10, 11, 12, 13, 14, 15, 16];
    let mut stream = ByteStream::wrap(bytes);
    let opt = parse_frame(&mut stream);
    assert!(opt.is_some());
    let frame = opt.unwrap();
    assert!(frame.fin);
    assert_eq!(frame.opcode, 9);
    assert_eq!(frame.len, 7);
    assert_eq!(frame.mask, Some([1, 2, 3, 4]));
    assert_eq!(frame.body, vec![10, 11, 12, 13, 14, 15, 16]);
}

#[test]
fn frame2() {
    let bytes: Vec<u8> = vec![15, 3, 10, 20, 30];
    let mut stream = ByteStream::wrap(bytes);
    let opt = parse_frame(&mut stream);
    assert!(opt.is_some());
    let frame = opt.unwrap();
    assert!(!frame.fin);
    assert_eq!(frame.opcode, 15);
    assert_eq!(frame.len, 3);
    assert_eq!(frame.mask, None);
    assert_eq!(frame.body, vec![10, 20, 30]);
}

#[test]
fn frame_hello() {
    let expected = "hello!";
    let bytes: Vec<u8> = vec![129, 134, 87, 35, 230, 82, 63, 70, 138, 62, 56, 2];
    let mut stream = ByteStream::wrap(bytes);
    let opt = parse_frame(&mut stream);
    assert!(opt.is_some());
    let frame = opt.unwrap();
    assert!(frame.fin);
    assert_eq!(frame.opcode, 1);
    assert_eq!(frame.len, expected.len() as u64);
    assert_eq!(frame.mask, Some([87, 35, 230, 82]));
    assert_eq!(
        decode_frame_body(&frame.body, &frame.mask.unwrap()),
        expected.as_bytes()
    );
}

#[test]
fn extended_length_16() {
    // length class 126: a 16-bit big-endian extension follows
    let mut bytes: Vec<u8> = vec![0x81, 126, 0x00, 0xFF];
    for i in 0..255u32 {
        bytes.push(i as u8);
    }
    let mut stream = ByteStream::wrap(bytes);
    let frame = parse_frame(&mut stream).unwrap();
    assert_eq!(frame.len, 255);
    assert_eq!(frame.body.len(), 255);
}

#[test]
fn extended_length_64() {
    // length class 127: a 64-bit big-endian extension follows
    let mut bytes: Vec<u8> = vec![0x81, 127, 0, 0, 0, 0, 0, 0, 1, 4];
    for i in 0..260u32 {
        bytes.push(i as u8);
    }
    let mut stream = ByteStream::wrap(bytes);
    let frame = parse_frame(&mut stream).unwrap();
    assert_eq!(frame.len, 260);
    assert_eq!(frame.body.len(), 260);
    assert_eq!(frame.mask, None);
}

#[test]
fn truncated_frame_fails() {
    let mut stream = ByteStream::wrap(vec![0x81]);
    assert!(parse_frame(&mut stream).is_none());
    let mut stream2 = ByteStream::wrap(vec![0x81, 5, 1, 2, 3]);
    assert!(parse_frame(&mut stream2).is_none());
}

#[test]
fn text_frame_roundtrip() {
    let frame = Frame::text("hi there");
    assert!(frame.fin);
    assert_eq!(frame.opcode, 1);
    assert_eq!(frame.len, 8);
    assert_eq!(frame.mask, None);
    let wire = frame.into_bytes();
    assert_eq!(wire, vec![0x81, 8, b'h', b'i', b' ', b't', b'h', b'e', b'r', b'e']);
    let mut stream = ByteStream::wrap(wire);
    let back = parse_frame(&mut stream).unwrap();
    assert!(back.fin);
    assert_eq!(back.opcode, 1);
    assert_eq!(back.len, 8);
    assert_eq!(back.mask, None);
    assert_eq!(back.body, b"hi there");
}

#[test]
fn sixteen_bit_encode() {
    let body: Vec<u8> = (0..300u32).map(|i| i as u8).collect();
    let frame = Frame {
        fin: true,
        opcode: 2,
        len: 300,
        mask: None,
        body: body.clone(),
    };
    let wire = frame.into_bytes();
    assert_eq!(wire[0], 0x82);
    assert_eq!(wire[1], 126);
    assert_eq!(wire[2], 0x01);
    assert_eq!(wire[3], 0x2C);
    assert_eq!(&wire[4..], body.as_slice());
    let mut stream = ByteStream::wrap(wire);
    let back = parse_frame(&mut stream).unwrap();
    assert_eq!(back.len, 300);
    assert_eq!(back.body, body);
}

#[test]
fn unmasking_is_an_involution() {
    let body = vec![1, 2, 3, 4, 5, 6, 7];
    let mask = [0xAA, 0xBB, 0xCC, 0xDD];
    let once = decode_frame_body(&body, &mask);
    let twice = decode_frame_body(&once, &mask);
    assert_eq!(twice, body);
}

use quic_framing::cursor::Cursor;
use quic_framing::frame::{
    Ack, AckFrame, CloseFrame, Frame, PaddingFrame, PathFrame, StreamFrame, StreamIdBlockedFrame,
};

fn round_trip(frame: Frame) -> Frame {
    let mut buf: Vec<u8> = Vec::new();
    frame.encode(&mut buf);
    assert_eq!(frame.buf_len(), buf.len());
    let mut read = Cursor::new(buf);
    let decoded = Frame::decode(&mut read).expect("decoding an encoded frame must succeed");
    assert_eq!(read.pos, read.data.len());
    decoded
}

#[test]
fn test_padding_roundtrip() {
    let bytes = b"\x00\x00\x00\x00\x01";
    let frame = {
        let mut read = Cursor::new(bytes.to_vec());
        let frame = Frame::decode(&mut read).unwrap();
        assert_eq!(&read.data[read.pos..], b"\x01");
        frame
    };
    assert_eq!(frame, Frame::Padding(PaddingFrame(4)));

    let mut buf = vec![0u8; 16];
    frame.encode(&mut buf);
    assert_eq!(&bytes[..4], &buf[..4]);
}

#[test]
fn test_ack_round_trip() {
    let obj = Frame::Ack(AckFrame {
        largest: 485971334,
        ack_delay: 0,
        blocks: vec![Ack::Ack(0)],
    });
    let bytes = b"\x0d\x9c\xf7\x55\x86\x00\x00\x00";
    assert_eq!(obj.buf_len(), bytes.len());

    let mut buf = Vec::with_capacity(64);
    obj.encode(&mut buf);
    assert_eq!(&buf[..], &bytes[..]);

    let mut read = Cursor::new(bytes.to_vec());
    let decoded = Frame::decode(&mut read).unwrap();
    assert_eq!(decoded, obj);
}

#[test]
fn stream_frame_end_to_end() {
    let obj = StreamFrame {
        id: 4,
        fin: true,
        offset: 0,
        len: Some(5),
        data: b"hello".to_vec(),
    };
    let mut buf: Vec<u8> = Vec::new();
    Frame::Stream(obj).encode(&mut buf);
    let mut read = Cursor::new(buf);
    match Frame::decode(&mut read).unwrap() {
        Frame::Stream(d) => {
            assert_eq!(d.id, 4);
            assert!(d.fin);
            assert_eq!(d.offset, 0);
            assert_eq!(d.len, Some(5));
            assert_eq!(d.data, b"hello".to_vec());
        }
        other => panic!("expected a stream frame, got {:?}", other),
    }
}

#[test]
fn stream_offset_zero_is_not_encoded() {
    let obj = Frame::Stream(StreamFrame {
        id: 9,
        fin: false,
        offset: 0,
        len: Some(2),
        data: vec![1, 2],
    });
    let mut buf: Vec<u8> = Vec::new();
    obj.encode(&mut buf);
    assert_eq!(buf[0] & 0x04, 0);
    let decoded = round_trip(obj);
    match decoded {
        Frame::Stream(d) => assert_eq!(d.offset, 0),
        other => panic!("expected a stream frame, got {:?}", other),
    }
}

#[test]
fn stream_frame_with_offset_and_implicit_length() {
    let obj = Frame::Stream(StreamFrame {
        id: 17,
        fin: false,
        offset: 70000,
        len: None,
        data: b"tail bytes".to_vec(),
    });
    let decoded = round_trip(obj);
    match decoded {
        Frame::Stream(d) => {
            assert_eq!(d.id, 17);
            assert_eq!(d.offset, 70000);
            assert_eq!(d.len, None);
            assert_eq!(d.data, b"tail bytes".to_vec());
        }
        other => panic!("expected a stream frame, got {:?}", other),
    }
}

#[test]
fn every_variant_round_trips() {
    let frames = vec![
        Frame::Ping,
        Frame::Padding(PaddingFrame(3)),
        Frame::PathChallenge(PathFrame([1, 2, 3, 4, 5, 6, 7, 8])),
        Frame::PathResponse(PathFrame([8, 7, 6, 5, 4, 3, 2, 1])),
        Frame::ApplicationClose(CloseFrame {
            code: 0xbeef,
            reason: "gone away".as_bytes().to_vec(),
        }),
        Frame::ConnectionClose(CloseFrame {
            code: 7,
            reason: Vec::new(),
        }),
        Frame::StreamIdBlocked(StreamIdBlockedFrame(77)),
        Frame::Ack(AckFrame {
            largest: 9000,
            ack_delay: 64,
            blocks: vec![Ack::Ack(2), Ack::Gap(5), Ack::Ack(1)],
        }),
        Frame::Stream(StreamFrame {
            id: 0x3fff,
            fin: true,
            offset: 1,
            len: Some(0),
            data: Vec::new(),
        }),
    ];
    for frame in frames {
        let mut buf: Vec<u8> = Vec::new();
        frame.encode(&mut buf);
        assert_eq!(frame.buf_len(), buf.len());
        let mut read = Cursor::new(buf);
        let decoded = Frame::decode(&mut read).unwrap();
        assert_eq!(decoded, frame);
        assert_eq!(read.pos, read.data.len());
    }
}

#[test]
fn varint_width_boundaries() {
    for id in [0u64, 63, 64, 16383, 16384, 0x3fff_ffff, 0x4000_0000, 0x3fff_ffff_ffff_ffff] {
        let obj = Frame::StreamIdBlocked(StreamIdBlockedFrame(id));
        let expected_len = 1 + if id < 64 {
            1
        } else if id < 16384 {
            2
        } else if id < 0x4000_0000 {
            4
        } else {
            8
        };
        assert_eq!(obj.buf_len(), expected_len);
        match round_trip(obj) {
            Frame::StreamIdBlocked(d) => assert_eq!(d.0, id),
            other => panic!("expected a blocked-id frame, got {:?}", other),
        }
    }
}

#[test]
fn close_reason_keeps_utf8_text() {
    let obj = Frame::ApplicationClose(CloseFrame {
        code: 0x0101,
        reason: "caf\u{e9} \u{2713}".as_bytes().to_vec(),
    });
    let decoded = round_trip(obj);
    match decoded {
        Frame::ApplicationClose(c) => {
            assert_eq!(c.code, 0x0101);
            assert_eq!(String::from_utf8(c.reason).unwrap(), "caf\u{e9} \u{2713}");
        }
        other => panic!("expected an application close, got {:?}", other),
    }
}

#[test]
fn close_with_invalid_utf8_is_rejected() {
    // type 0x03, code 0x0000, length 2, bytes that are not UTF-8
    let bytes = vec![0x03u8, 0x00, 0x00, 0x02, 0xff, 0xfe];
    let mut read = Cursor::new(bytes);
    assert!(Frame::decode(&mut read).is_err());
}

#[test]
fn unknown_type_byte_is_rejected() {
    let mut read = Cursor::new(vec![0x05u8, 0x00]);
    assert!(Frame::decode(&mut read).is_err());
}

#[test]
fn truncated_frames_are_rejected() {
    // empty buffer
    assert!(Frame::decode(&mut Cursor::new(Vec::new())).is_err());
    // ack frame cut inside its first varint
    assert!(Frame::decode(&mut Cursor::new(vec![0x0d, 0x9c, 0xf7])).is_err());
    // path challenge with fewer than 8 payload bytes
    assert!(Frame::decode(&mut Cursor::new(vec![0x0e, 1, 2, 3])).is_err());
    // stream frame whose explicit length exceeds the buffer
    assert!(Frame::decode(&mut Cursor::new(vec![0x12, 0x04, 0x05, b'h', b'i'])).is_err());
}

#[test]
fn padding_run_stops_at_first_non_zero() {
    let mut read = Cursor::new(vec![0, 0, 7, 0]);
    let decoded = Frame::decode(&mut read).unwrap();
    assert_eq!(decoded, Frame::Padding(PaddingFrame(2)));
    assert_eq!(read.pos, 2);
}

#[test]
fn ack_blocks_alternate_on_the_wire() {
    // largest=1, delay=0, two extra blocks after the first
    let obj = Frame::Ack(AckFrame {
        largest: 1,
        ack_delay: 0,
        blocks: vec![Ack::Ack(3), Ack::Gap(4), Ack::Ack(5)],
    });
    let mut buf: Vec<u8> = Vec::new();
    obj.encode(&mut buf);
    assert_eq!(buf, vec![0x0d, 0x01, 0x00, 0x02, 0x03, 0x04, 0x05]);
    let mut read = Cursor::new(buf);
    match Frame::decode(&mut read).unwrap() {
        Frame::Ack(a) => {
            assert_eq!(a.blocks, vec![Ack::Ack(3), Ack::Gap(4), Ack::Ack(5)]);
        }
        other => panic!("expected an ack frame, got {:?}", other),
    }
}

#[test]
fn ping_and_close_lengths_are_exact() {
    assert_eq!(Frame::Ping.buf_len(), 1);
    let close = Frame::ConnectionClose(CloseFrame {
        code: 0,
        reason: b"bye".to_vec(),
    });
    // 1 type byte + 2 code bytes + 1 length byte + 3 reason bytes
    assert_eq!(close.buf_len(), 7);
}

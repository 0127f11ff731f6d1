use zstream::{copy_encode, decode_all, encode_all, should_retry, test_full_cycle};
use zstream::{Decoder, Encoder, Error, ErrorKind, SinkMode, ThrottledSink, FINISH_ATTEMPTS};

#[test]
fn test_end_of_frame() {
    let mut enc = Encoder::new(Vec::new(), 1).unwrap();
    enc.write(b"foo").unwrap();
    let mut compressed = enc.finish().unwrap();

    // Add footer/whatever to underlying storage.
    compressed.push(0);

    // Drain the stream until end-of-frame.
    let mut dec = Decoder::new(&compressed[..]).unwrap().single_frame();
    let mut buf = Vec::new();
    dec.read_to_end(&mut buf).unwrap();
    assert_eq!(&buf, b"foo");
}

#[test]
fn test_concatenated_frames() {
    let mut buffer = Vec::new();
    copy_encode(&b"foo"[..], &mut buffer, 1).unwrap();
    copy_encode(&b"bar"[..], &mut buffer, 2).unwrap();
    copy_encode(&b"baz"[..], &mut buffer, 3).unwrap();

    assert_eq!(&decode_all(&buffer[..]).unwrap(), b"foobarbaz");
}

#[test]
fn test_flush() {
    let buf = Vec::new();
    let mut z = Encoder::new(buf, 19).unwrap();

    z.write(b"hello").unwrap();

    z.flush().unwrap();
    let buf = z.finish().unwrap();

    let s = decode_all(&buf[..]).unwrap();
    let s = ::std::str::from_utf8(&s).unwrap();
    assert_eq!(s, "hello");
}

fn setup_try_finish() -> Encoder<ThrottledSink> {
    let buf = ThrottledSink::new(SinkMode::Unlimited);
    let mut z = Encoder::new(buf, 19).unwrap();

    z.write(b"hello").unwrap();

    z.set_sink_mode(SinkMode::Refuse(ErrorKind::WouldBlock));

    let (z, err) = match z.try_finish() {
        Ok(_) => panic!("try_finish should have blocked"),
        Err(pair) => pair,
    };
    assert_eq!(err.kind(), ErrorKind::WouldBlock);

    z
}

#[test]
fn test_try_finish() {
    let mut z = setup_try_finish();

    z.set_sink_mode(SinkMode::Unlimited);

    // flush() should continue to work even though write() doesn't.
    z.flush().unwrap();

    let buf = match z.try_finish() {
        Ok(sink) => sink.into_bytes(),
        Err((_z, e)) => panic!("try_finish failed with {:?}", e),
    };

    // Make sure the multiple try_finish calls didn't screw up the internal
    // buffer and continued to produce valid compressed data.
    assert_eq!(&decode_all(&buf[..]).unwrap(), b"hello");
}

#[test]
fn test_failing_write() {
    let buf = ThrottledSink::new(SinkMode::Refuse(ErrorKind::WouldBlock));
    let mut z = Encoder::new(buf, 1).unwrap();

    // Fill in enough data to make sure the buffer gets written out.
    let input = "b".repeat(128 * 1024).into_bytes();
    // This should work even though the inner writer rejects writes.
    assert_eq!(z.write(&input).unwrap(), 128 * 1024);

    // The next write would fail (the buffer still has some data in it).
    assert_eq!(z.write(b"abc").unwrap_err().kind(), ErrorKind::WouldBlock);

    z.set_sink_mode(SinkMode::Unlimited);

    // This shouldn't have led to any corruption.
    let buf = z.finish().unwrap().into_bytes();
    assert_eq!(&decode_all(&buf[..]).unwrap(), &input);
}

#[test]
fn blocked_finish_is_retried_to_identical_bytes() {
    let mut z = setup_try_finish();
    for _ in 0..3 {
        z = match z.try_finish() {
            Ok(_) => panic!("sink still refuses"),
            Err((z, e)) => {
                assert_eq!(e.kind(), ErrorKind::WouldBlock);
                z
            }
        };
    }
    z.set_sink_mode(SinkMode::Limited(2));
    let blocked = z.finish().unwrap().into_bytes();

    let mut plain = Encoder::new(Vec::new(), 19).unwrap();
    plain.write(b"hello").unwrap();
    let unblocked = plain.finish().unwrap();
    assert_eq!(blocked, unblocked);
}

#[test]
fn refusals_pass_through_unchanged() {
    let mut z = Encoder::new(ThrottledSink::new(SinkMode::Limited(0)), 1).unwrap();
    z.write(b"one").unwrap();
    assert_eq!(z.write(b"two").unwrap_err().kind(), ErrorKind::WouldBlock);
    assert_eq!(z.flush().unwrap_err().kind(), ErrorKind::WouldBlock);
    z.set_sink_mode(SinkMode::Refuse(ErrorKind::Other));
    let z = match z.try_finish() {
        Ok(_) => panic!("sink refuses"),
        Err((z, e)) => {
            assert_eq!(e.kind(), ErrorKind::Other);
            z
        }
    };
    assert_eq!(z.finish().err().map(|e| e.kind()), Some(ErrorKind::Other));
}

#[test]
fn retry_decision() {
    let wb = Error::new(ErrorKind::WouldBlock);
    assert!(should_retry(&wb, 0));
    assert!(!should_retry(&wb, FINISH_ATTEMPTS));
    assert!(!should_retry(&Error::new(ErrorKind::Other), 0));
}

#[test]
fn test_invalid_frame() {
    let data = &[1u8, 2u8, 3u8, 4u8, 5u8];
    let mut dec = Decoder::new(&data[..]).unwrap();
    assert_eq!(
        dec.read_to_end(&mut Vec::new()).err().map(|e| e.kind()),
        Some(ErrorKind::Other)
    );
}

#[test]
fn test_incomplete_frame() {
    let mut enc = Encoder::new(Vec::new(), 1).unwrap();
    enc.write(b"This is a regular string").unwrap();
    let mut compressed = enc.finish().unwrap();

    let half_size = compressed.len() - 2;
    compressed.truncate(half_size);

    let mut dec = Decoder::new(&compressed[..]).unwrap();
    assert_eq!(
        dec.read_to_end(&mut Vec::new()).err().map(|e| e.kind()),
        Some(ErrorKind::UnexpectedEof)
    );
}

fn long_text() -> Vec<u8> {
    let mut data = Vec::new();
    for i in 0..20000u32 {
        data.extend_from_slice(format!("line {} of a fairly long text, {}\n", i, i * 7919 % 1000).as_bytes());
    }
    data
}

#[test]
fn test_ll_source() {
    let data = long_text();
    // Test a few compression levels.
    for level in 1..5 {
        assert!(test_full_cycle(&data, level));
    }
}

/// Builds a frame of an older header version (no level byte) by hand.
fn legacy_frame(version: u8, payload: &[u8]) -> Vec<u8> {
    let mut f = vec![0x28, 0xB5, 0x2F, version];
    for chunk in payload.chunks(1000) {
        f.push(1);
        f.push((chunk.len() % 256) as u8);
        f.push((chunk.len() / 256) as u8);
        f.extend_from_slice(chunk);
    }
    f.push(0);
    f
}

#[test]
fn test_legacy() {
    let target = long_text();
    let current = decode_all(&encode_all(&target, 3).unwrap()).unwrap();
    assert!(current == target);
    for version in &[5u8, 6, 7] {
        let frame = legacy_frame(*version, &target);
        let mut decoder = Decoder::new(&frame).unwrap();
        let mut buffer = Vec::new();
        decoder.read_to_end(&mut buffer).unwrap();
        assert!(target == buffer, "Error decompressing legacy version {}", version);
    }
    let mut v8 = legacy_frame(8, &target);
    v8.insert(4, 3);
    assert!(decode_all(&v8).unwrap() == target);
}

#[test]
fn round_trip_empty_input() {
    let e = encode_all(b"", 1).unwrap();
    assert_eq!(e, vec![0x28, 0xB5, 0x2F, 8, 1, 0]);
    assert_eq!(decode_all(&e).unwrap(), Vec::<u8>::new());
}

#[test]
fn exact_frame_bytes() {
    let e = encode_all(b"ab", 7).unwrap();
    assert_eq!(e, vec![0x28, 0xB5, 0x2F, 8, 7, 1, 2, 0, b'a', b'b', 0]);
}

#[test]
fn invalid_levels_are_rejected() {
    assert_eq!(Encoder::new(Vec::new(), 0).err().map(|e| e.kind()), Some(ErrorKind::InvalidArgument));
    assert_eq!(Encoder::new(Vec::new(), 23).err().map(|e| e.kind()), Some(ErrorKind::InvalidArgument));
    assert_eq!(encode_all(b"x", -1).err().map(|e| e.kind()), Some(ErrorKind::InvalidArgument));
    let mut out = vec![9u8];
    assert!(copy_encode(b"x", &mut out, 99).is_err());
    assert_eq!(out, vec![9u8]);
}

#[test]
fn block_boundaries_round_trip() {
    for n in [65534usize, 65535, 65536, 131071, 131072] {
        let data: Vec<u8> = (0..n).map(|i| (i % 251) as u8).collect();
        let e = encode_all(&data, 5).unwrap();
        assert_eq!(decode_all(&e).unwrap(), data);
    }
}

#[test]
fn single_frame_ignores_following_frames() {
    let mut buffer = Vec::new();
    copy_encode(b"first", &mut buffer, 1).unwrap();
    copy_encode(b"second", &mut buffer, 1).unwrap();
    let mut dec = Decoder::new(&buffer).unwrap().single_frame();
    let mut out = Vec::new();
    assert_eq!(dec.read_to_end(&mut out).unwrap(), 5);
    assert_eq!(out, b"first".to_vec());
    assert_eq!(decode_all(&buffer).unwrap(), b"firstsecond".to_vec());
}

#[test]
fn read_in_small_pieces() {
    let mut buffer = Vec::new();
    copy_encode(b"hello ", &mut buffer, 1).unwrap();
    copy_encode(b"", &mut buffer, 1).unwrap();
    copy_encode(b"world", &mut buffer, 1).unwrap();
    let mut dec = Decoder::new(&buffer).unwrap();
    let mut out = Vec::new();
    loop {
        let piece = dec.read(4).unwrap();
        assert!(piece.len() <= 4);
        if piece.is_empty() {
            break;
        }
        out.extend_from_slice(&piece);
    }
    assert_eq!(out, b"hello world".to_vec());
    assert_eq!(dec.read(0).unwrap(), Vec::<u8>::new());
}

#[test]
fn truncated_inputs_report_eof() {
    let e = encode_all(b"payload", 2).unwrap();
    for cut in 1..e.len() {
        let r = decode_all(&e[..cut]);
        assert_eq!(r.err().map(|x| x.kind()), Some(ErrorKind::UnexpectedEof));
    }
    // Nothing at all is an empty stream, not an error.
    assert_eq!(decode_all(&[]).unwrap(), Vec::<u8>::new());
}

#[test]
fn malformed_headers_and_tags() {
    // Wrong version byte.
    assert_eq!(decode_all(&[0x28, 0xB5, 0x2F, 4, 1]).err().map(|e| e.kind()), Some(ErrorKind::Other));
    // Level byte out of range.
    assert_eq!(decode_all(&[0x28, 0xB5, 0x2F, 8, 0]).err().map(|e| e.kind()), Some(ErrorKind::Other));
    // Unknown block tag.
    assert_eq!(decode_all(&[0x28, 0xB5, 0x2F, 8, 1, 7]).err().map(|e| e.kind()), Some(ErrorKind::Other));
    // Good frame followed by garbage.
    let mut e = encode_all(b"ok", 1).unwrap();
    e.push(0x11);
    assert_eq!(decode_all(&e).err().map(|x| x.kind()), Some(ErrorKind::Other));
}

#[test]
fn partial_sink_limited_writes() {
    let mut z = Encoder::new(ThrottledSink::new(SinkMode::Limited(3)), 4).unwrap();
    let data = long_text();
    for chunk in data.chunks(777) {
        assert_eq!(z.write(chunk).unwrap(), chunk.len());
        z.flush().unwrap();
    }
    let out = z.finish().unwrap().into_bytes();
    assert_eq!(decode_all(&out).unwrap(), data);
}

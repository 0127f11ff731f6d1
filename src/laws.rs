use vstd::prelude::*;
use crate::frame::{
    block_bytes, blocks_ok, decode_single, decode_stream, encode_blocks, flatten, frame_bytes,
    header_bytes, is_frame_of, lemma_stream_step, parse_blocks, parse_frame, parse_header,
    valid_level, valid_version, ErrorKind, BLOCK_MAX, TAG_END, TAG_RAW, VERSION_CURRENT,
};

verus! {

/// The bytes of a stored block read back as its length and payload.
proof fn lemma_block_fields(b: Seq<u8>, t: Seq<u8>)
    requires
        b.len() <= BLOCK_MAX,
    ensures
        ({
            let s = block_bytes(b) + t;
            &&& s.len() == 3 + b.len() + t.len()
            &&& s[0] == TAG_RAW
            &&& s[1] as nat + 256 * s[2] as nat == b.len()
            &&& s.subrange(3, 3 + b.len() as int) == b
            &&& s.skip(3 + b.len() as int) == t
        }),
{
    let s = block_bytes(b) + t;
    let n = b.len();
    assert(s[1] == (n % 256) as u8);
    assert(s[2] == (n / 256) as u8);
    assert((n % 256) as u8 as nat == n % 256);
    assert((n / 256) as u8 as nat == n / 256);
    assert(s.subrange(3, 3 + n as int) =~= b);
    assert(s.skip(3 + n as int) =~= t);
}

/// Encoded blocks followed by the end tag parse back to their payload,
/// whatever follows.
proof fn lemma_blocks_round_trip(bs: Seq<Seq<u8>>, t: Seq<u8>)
    requires
        blocks_ok(bs),
    ensures
        parse_blocks(encode_blocks(bs) + seq![TAG_END] + t) == Ok::<(Seq<u8>, nat), ErrorKind>(
            (flatten(bs), encode_blocks(bs).len() + 1),
        ),
    decreases bs.len(),
{
    let s = encode_blocks(bs) + seq![TAG_END] + t;
    if bs.len() == 0 {
        assert(s[0] == TAG_END);
    } else {
        let b = bs[0];
        let rest = bs.drop_first();
        assert(blocks_ok(rest)) by {
            assert forall|i: int| 0 <= i < rest.len() implies 0 < #[trigger] rest[i].len() <= BLOCK_MAX by {
                assert(rest[i] == bs[i + 1]);
            }
        }
        assert(0 < bs[0].len() <= BLOCK_MAX);
        let tail = encode_blocks(rest) + seq![TAG_END] + t;
        assert(s =~= block_bytes(b) + tail);
        lemma_block_fields(b, tail);
        lemma_blocks_round_trip(rest, t);
    }
}

/// A frame of any decodable version parses to its payload, whatever follows.
proof fn lemma_frame_round_trip(version: u8, level: i32, bs: Seq<Seq<u8>>, t: Seq<u8>)
    requires
        valid_version(version),
        valid_level(level),
        blocks_ok(bs),
    ensures
        parse_frame(frame_bytes(version, level, bs) + t) == Ok::<(Seq<u8>, nat), ErrorKind>(
            (flatten(bs), frame_bytes(version, level, bs).len()),
        ),
{
    let h = header_bytes(version, level);
    let s = frame_bytes(version, level, bs) + t;
    assert(s =~= h + (encode_blocks(bs) + seq![TAG_END] + t));
    assert(parse_header(s) == Ok::<nat, ErrorKind>(h.len()));
    assert(s.skip(h.len() as int) =~= encode_blocks(bs) + seq![TAG_END] + t);
    lemma_blocks_round_trip(bs, t);
}

/// Decoding a frame followed by more input yields the frame's payload
/// followed by whatever the rest decodes to.
pub proof fn lemma_frame_then_stream(version: u8, level: i32, bs: Seq<Seq<u8>>, t: Seq<u8>)
    requires
        valid_version(version),
        valid_level(level),
        blocks_ok(bs),
    ensures
        decode_stream(frame_bytes(version, level, bs) + t) == match decode_stream(t) {
            Ok(q) => Ok::<Seq<u8>, ErrorKind>(flatten(bs) + q),
            Err(e) => Err::<Seq<u8>, ErrorKind>(e),
        },
{
    let f = frame_bytes(version, level, bs);
    lemma_frame_round_trip(version, level, bs, t);
    lemma_stream_step(f + t);
    assert((f + t).skip(f.len() as int) =~= t);
}

/// Round trip: an encoded frame decodes to exactly the bytes it was made from.
pub proof fn lemma_round_trip(level: i32, data: Seq<u8>, bytes: Seq<u8>)
    requires
        valid_level(level),
        is_frame_of(level, data, bytes),
    ensures
        decode_stream(bytes) == Ok::<Seq<u8>, ErrorKind>(data),
{
    let bs = choose|bs: Seq<Seq<u8>>|
        blocks_ok(bs) && flatten(bs) == data && bytes == frame_bytes(VERSION_CURRENT, level, bs);
    lemma_frame_then_stream(VERSION_CURRENT, level, bs, Seq::empty());
    assert(bytes + Seq::<u8>::empty() =~= bytes);
    assert(data + Seq::<u8>::empty() =~= data);
}

/// Concatenation: independently encoded frames, decoded back to back, yield
/// the concatenation of their inputs.
pub proof fn lemma_concatenation(
    la: i32,
    a: Seq<u8>,
    ea: Seq<u8>,
    lb: i32,
    b: Seq<u8>,
    eb: Seq<u8>,
    lc: i32,
    c: Seq<u8>,
    ec: Seq<u8>,
)
    requires
        valid_level(la),
        valid_level(lb),
        valid_level(lc),
        is_frame_of(la, a, ea),
        is_frame_of(lb, b, eb),
        is_frame_of(lc, c, ec),
    ensures
        decode_stream(ea + eb + ec) == Ok::<Seq<u8>, ErrorKind>(a + b + c),
{
    let bsa = choose|bs: Seq<Seq<u8>>|
        blocks_ok(bs) && flatten(bs) == a && ea == frame_bytes(VERSION_CURRENT, la, bs);
    let bsb = choose|bs: Seq<Seq<u8>>|
        blocks_ok(bs) && flatten(bs) == b && eb == frame_bytes(VERSION_CURRENT, lb, bs);
    lemma_round_trip(lc, c, ec);
    lemma_frame_then_stream(VERSION_CURRENT, lb, bsb, ec);
    lemma_frame_then_stream(VERSION_CURRENT, la, bsa, eb + ec);
    assert(ea + eb + ec =~= ea + (eb + ec));
    assert(a + (b + c) =~= a + b + c);
}

/// Single-frame decoding yields the first frame's input and ignores whatever
/// bytes follow it.
pub proof fn lemma_single_frame_ignores_trailing(level: i32, data: Seq<u8>, bytes: Seq<u8>, t: Seq<u8>)
    requires
        valid_level(level),
        is_frame_of(level, data, bytes),
    ensures
        decode_single(bytes + t) == Ok::<Seq<u8>, ErrorKind>(data),
{
    let bs = choose|bs: Seq<Seq<u8>>|
        blocks_ok(bs) && flatten(bs) == data && bytes == frame_bytes(VERSION_CURRENT, level, bs);
    lemma_frame_round_trip(VERSION_CURRENT, level, bs, t);
}

/// Five bytes that are not a frame header are reported as malformed input,
/// not as a truncated frame.
pub proof fn lemma_bad_header(s: Seq<u8>)
    requires
        s.len() == 5,
        parse_header(s) is Err,
    ensures
        decode_stream(s) == Err::<Seq<u8>, ErrorKind>(ErrorKind::Other),
{
    lemma_stream_step(s);
}

/// Encoded blocks that lose their last byte end too early.
proof fn lemma_blocks_cut(bs: Seq<Seq<u8>>)
    requires
        blocks_ok(bs),
        bs.len() > 0,
    ensures
        encode_blocks(bs).len() > 0,
        parse_blocks(encode_blocks(bs).take(encode_blocks(bs).len() - 1)) == Err::<
            (Seq<u8>, nat),
            ErrorKind,
        >(ErrorKind::UnexpectedEof),
    decreases bs.len(),
{
    let b = bs[0];
    let rest = bs.drop_first();
    assert(0 < bs[0].len() <= BLOCK_MAX);
    assert(blocks_ok(rest)) by {
        assert forall|i: int| 0 <= i < rest.len() implies 0 < #[trigger] rest[i].len() <= BLOCK_MAX by {
            assert(rest[i] == bs[i + 1]);
        }
    }
    let e = encode_blocks(bs);
    let er = encode_blocks(rest);
    assert(e == block_bytes(b) + er);
    if rest.len() == 0 {
        assert(er == Seq::<u8>::empty());
        let s = e.take(e.len() - 1);
        lemma_block_fields(b, Seq::empty());
        assert(e =~= block_bytes(b) + Seq::<u8>::empty());
        assert(s[0] == TAG_RAW && s[1] == e[1] && s[2] == e[2]);
    } else {
        lemma_blocks_cut(rest);
        let tail = er.take(er.len() - 1);
        let s = e.take(e.len() - 1);
        assert(s =~= block_bytes(b) + tail);
        lemma_block_fields(b, tail);
    }
}

/// A frame that loses its last two bytes is reported as truncated.
pub proof fn lemma_truncated(level: i32, data: Seq<u8>, bytes: Seq<u8>)
    requires
        valid_level(level),
        is_frame_of(level, data, bytes),
    ensures
        bytes.len() >= 6,
        decode_stream(bytes.take(bytes.len() - 2)) == Err::<Seq<u8>, ErrorKind>(ErrorKind::UnexpectedEof),
{
    let bs = choose|bs: Seq<Seq<u8>>|
        blocks_ok(bs) && flatten(bs) == data && bytes == frame_bytes(VERSION_CURRENT, level, bs);
    let h = header_bytes(VERSION_CURRENT, level);
    let e = encode_blocks(bs);
    let s = bytes.take(bytes.len() - 2);
    if bs.len() == 0 {
        assert(e == Seq::<u8>::empty());
        assert(s =~= h.take(4));
        assert(s.len() == 4);
    } else {
        lemma_blocks_cut(bs);
        assert(s =~= h + e.take(e.len() - 1));
        assert(parse_header(s) == Ok::<nat, ErrorKind>(5));
        assert(s.skip(5) =~= e.take(e.len() - 1));
    }
    lemma_stream_step(s);
}

/// Frames of every decodable header version give the same output as a frame
/// of the current version over the same blocks.
pub proof fn lemma_legacy_versions(version: u8, level: i32, bs: Seq<Seq<u8>>)
    requires
        valid_version(version),
        valid_level(level),
        blocks_ok(bs),
    ensures
        decode_stream(frame_bytes(version, level, bs)) == decode_stream(
            frame_bytes(VERSION_CURRENT, level, bs),
        ),
        decode_stream(frame_bytes(version, level, bs)) == Ok::<Seq<u8>, ErrorKind>(flatten(bs)),
{
    lemma_frame_then_stream(version, level, bs, Seq::empty());
    lemma_frame_then_stream(VERSION_CURRENT, level, bs, Seq::empty());
    assert(frame_bytes(version, level, bs) + Seq::<u8>::empty() =~= frame_bytes(version, level, bs));
    assert(frame_bytes(VERSION_CURRENT, level, bs) + Seq::<u8>::empty() =~= frame_bytes(
        VERSION_CURRENT,
        level,
        bs,
    ));
    assert(flatten(bs) + Seq::<u8>::empty() =~= flatten(bs));
}

} // verus!

use vstd::prelude::*;

verus! {

/// Failure categories reported by the adapters.
#[derive(Clone, Copy, Debug, PartialEq, Eq, Structural)]
pub enum ErrorKind {
    /// A construction parameter is out of range.
    InvalidArgument,
    /// The sink or source cannot make progress now; retrying loses nothing.
    WouldBlock,
    /// The input ended inside a frame.
    UnexpectedEof,
    /// The sink accepted no byte of a non-empty write.
    WriteZero,
    /// The input is not a frame this library understands.
    Other,
}

/// An error with its category.
#[derive(Clone, Copy, Debug, PartialEq, Eq, Structural)]
pub struct Error {
    pub kind: ErrorKind,
}

impl Error {
    pub fn new(kind: ErrorKind) -> (r: Error)
        ensures
            r.kind == kind,
    {
        Error { kind }
    }

    pub fn kind(&self) -> (r: ErrorKind)
        ensures
            r == self.kind,
    {
        self.kind
    }
}

/// Largest number of payload bytes held by one stored block.
pub const BLOCK_MAX: usize = 65535;

pub const MAGIC0: u8 = 0x28;

pub const MAGIC1: u8 = 0xB5;

pub const MAGIC2: u8 = 0x2F;

/// Header version written by the encoder; it carries a level byte.
pub const VERSION_CURRENT: u8 = 8;

/// Oldest header version still decoded; versions below the current one carry
/// no level byte.
pub const VERSION_OLDEST: u8 = 5;

/// Block tag that ends a frame.
pub const TAG_END: u8 = 0;

/// Block tag of a stored block: two length bytes (little endian), then the payload.
pub const TAG_RAW: u8 = 1;

pub const LEVEL_MIN: i32 = 1;

pub const LEVEL_MAX: i32 = 22;

pub open spec fn valid_level(level: i32) -> bool {
    LEVEL_MIN <= level <= LEVEL_MAX
}

pub open spec fn valid_version(v: u8) -> bool {
    VERSION_OLDEST <= v <= VERSION_CURRENT
}

// ---------------------------------------------------------------------------
// What the encoder produces.

pub open spec fn header_bytes(version: u8, level: i32) -> Seq<u8> {
    if version == VERSION_CURRENT {
        seq![MAGIC0, MAGIC1, MAGIC2, version, level as u8]
    } else {
        seq![MAGIC0, MAGIC1, MAGIC2, version]
    }
}

pub open spec fn block_bytes(b: Seq<u8>) -> Seq<u8> {
    seq![TAG_RAW, (b.len() % 256) as u8, (b.len() / 256) as u8] + b
}

pub open spec fn encode_blocks(bs: Seq<Seq<u8>>) -> Seq<u8>
    decreases bs.len(),
{
    if bs.len() == 0 {
        Seq::empty()
    } else {
        block_bytes(bs[0]) + encode_blocks(bs.drop_first())
    }
}

pub open spec fn flatten(bs: Seq<Seq<u8>>) -> Seq<u8>
    decreases bs.len(),
{
    if bs.len() == 0 {
        Seq::empty()
    } else {
        bs[0] + flatten(bs.drop_first())
    }
}

pub open spec fn blocks_ok(bs: Seq<Seq<u8>>) -> bool {
    forall|i: int| 0 <= i < bs.len() ==> 0 < #[trigger] bs[i].len() <= BLOCK_MAX
}

/// A complete frame of the given header version over the given blocks.
pub open spec fn frame_bytes(version: u8, level: i32, bs: Seq<Seq<u8>>) -> Seq<u8> {
    header_bytes(version, level) + encode_blocks(bs) + seq![TAG_END]
}

/// `bytes` is one current-version frame at `level` whose payload is `data`.
pub open spec fn is_frame_of(level: i32, data: Seq<u8>, bytes: Seq<u8>) -> bool {
    exists|bs: Seq<Seq<u8>>|
        blocks_ok(bs) && flatten(bs) == data && bytes == frame_bytes(VERSION_CURRENT, level, bs)
}

// ---------------------------------------------------------------------------
// What the decoder accepts.

pub open spec fn magic_mismatch(s: Seq<u8>) -> bool {
    (s.len() > 0 && s[0] != MAGIC0) || (s.len() > 1 && s[1] != MAGIC1) || (s.len() > 2 && s[2]
        != MAGIC2)
}

/// Length of the frame header at the start of `s`, or why there is none.
pub open spec fn parse_header(s: Seq<u8>) -> Result<nat, ErrorKind> {
    if magic_mismatch(s) {
        Err(ErrorKind::Other)
    } else if s.len() < 4 {
        Err(ErrorKind::UnexpectedEof)
    } else if !valid_version(s[3]) {
        Err(ErrorKind::Other)
    } else if s[3] != VERSION_CURRENT {
        Ok(4)
    } else if s.len() < 5 {
        Err(ErrorKind::UnexpectedEof)
    } else if !valid_level(s[4] as i32) {
        Err(ErrorKind::Other)
    } else {
        Ok(5)
    }
}

/// The payload of the blocks at the start of `s` up to and including the end
/// tag, with the number of bytes they span.
pub open spec fn parse_blocks(s: Seq<u8>) -> Result<(Seq<u8>, nat), ErrorKind>
    decreases s.len(),
{
    if s.len() == 0 {
        Err(ErrorKind::UnexpectedEof)
    } else if s[0] == TAG_END {
        Ok((Seq::empty(), 1))
    } else if s[0] != TAG_RAW {
        Err(ErrorKind::Other)
    } else if s.len() < 3 {
        Err(ErrorKind::UnexpectedEof)
    } else {
        let n = s[1] as nat + 256 * s[2] as nat;
        if s.len() < 3 + n {
            Err(ErrorKind::UnexpectedEof)
        } else {
            match parse_blocks(s.skip(3 + n as int)) {
                Ok((p, c)) => Ok((s.subrange(3, 3 + n as int) + p, 3 + n + c)),
                Err(e) => Err(e),
            }
        }
    }
}

/// The payload of the frame at the start of `s`, with the frame's length.
pub open spec fn parse_frame(s: Seq<u8>) -> Result<(Seq<u8>, nat), ErrorKind> {
    match parse_header(s) {
        Ok(h) => match parse_blocks(s.skip(h as int)) {
            Ok((p, c)) => Ok((p, h + c)),
            Err(e) => Err(e),
        },
        Err(e) => Err(e),
    }
}

/// The payloads of all frames of `s`, concatenated, or the first failure.
pub open spec fn decode_stream(s: Seq<u8>) -> Result<Seq<u8>, ErrorKind>
    decreases s.len(),
{
    if s.len() == 0 {
        Ok(Seq::empty())
    } else {
        match parse_frame(s) {
            Ok((p, n)) => if 0 < n <= s.len() {
                match decode_stream(s.skip(n as int)) {
                    Ok(q) => Ok(p + q),
                    Err(e) => Err(e),
                }
            } else {
                Err(ErrorKind::Other)
            },
            Err(e) => Err(e),
        }
    }
}

/// The payload of the first frame of `s`; whatever follows it is ignored.
pub open spec fn decode_single(s: Seq<u8>) -> Result<Seq<u8>, ErrorKind> {
    match parse_frame(s) {
        Ok((p, n)) => Ok(p),
        Err(e) => Err(e),
    }
}

/// Parsed blocks never reach past the input.
pub proof fn lemma_blocks_len(s: Seq<u8>)
    ensures
        parse_blocks(s) matches Ok((p, c)) ==> 1 <= c <= s.len(),
    decreases s.len(),
{
    if s.len() >= 3 && s[0] == TAG_RAW {
        let n = s[1] as nat + 256 * s[2] as nat;
        if s.len() >= 3 + n {
            lemma_blocks_len(s.skip(3 + n as int));
        }
    }
}

/// A parsed frame spans at least a header and an end tag, and lies inside the input.
pub proof fn lemma_frame_len(s: Seq<u8>)
    ensures
        parse_frame(s) matches Ok((p, n)) ==> 5 <= n <= s.len(),
{
    if let Ok(h) = parse_header(s) {
        lemma_blocks_len(s.skip(h as int));
    }
}

/// One step of multi-frame decoding.
pub proof fn lemma_stream_step(s: Seq<u8>)
    requires
        s.len() > 0,
    ensures
        decode_stream(s) == match parse_frame(s) {
            Ok((p, n)) => match decode_stream(s.skip(n as int)) {
                Ok(q) => Ok::<Seq<u8>, ErrorKind>(p + q),
                Err(e) => Err::<Seq<u8>, ErrorKind>(e),
            },
            Err(e) => Err::<Seq<u8>, ErrorKind>(e),
        },
{
    lemma_frame_len(s);
}

/// Appending a block appends its bytes and its payload.
pub proof fn lemma_push_block(bs: Seq<Seq<u8>>, b: Seq<u8>)
    ensures
        encode_blocks(bs.push(b)) == encode_blocks(bs) + block_bytes(b),
        flatten(bs.push(b)) == flatten(bs) + b,
    decreases bs.len(),
{
    if bs.len() == 0 {
        assert(bs.push(b).drop_first() =~= Seq::<Seq<u8>>::empty());
        assert(bs.push(b)[0] == b);
        assert(encode_blocks(bs.push(b).drop_first()) == Seq::<u8>::empty());
        assert(flatten(bs.push(b).drop_first()) == Seq::<u8>::empty());
        assert(encode_blocks(bs) == Seq::<u8>::empty());
        assert(flatten(bs) == Seq::<u8>::empty());
        assert(encode_blocks(bs.push(b)) =~= block_bytes(b));
        assert(flatten(bs.push(b)) =~= b);
    } else {
        lemma_push_block(bs.drop_first(), b);
        assert(bs.push(b).drop_first() =~= bs.drop_first().push(b));
        assert(encode_blocks(bs.push(b)) =~= encode_blocks(bs) + block_bytes(b));
        assert(flatten(bs.push(b)) =~= flatten(bs) + b);
    }
}

} // verus!

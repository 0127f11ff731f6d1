use vstd::prelude::*;
use crate::decoder::Decoder;
use crate::encoder::Encoder;
use crate::frame::{decode_stream, is_frame_of, valid_level, Error, ErrorKind};
use crate::laws::lemma_round_trip;

verus! {

/// Encodes `data` as one frame at `level`.
pub fn encode_all(data: &[u8], level: i32) -> (r: Result<Vec<u8>, Error>)
    ensures
        valid_level(level) <==> r is Ok,
        r matches Ok(v) ==> is_frame_of(level, data@, v@),
        r matches Err(e) ==> e.kind == ErrorKind::InvalidArgument,
{
    let mut enc = match Encoder::new(Vec::new(), level) {
        Ok(enc) => enc,
        Err(e) => {
            return Err(e);
        },
    };
    match enc.write(data) {
        Ok(_) => {},
        Err(e) => {
            return Err(e);
        },
    }
    proof {
        assert(Seq::<u8>::empty() + data@ =~= data@);
    }
    match enc.finish() {
        Ok(v) => {
            proof {
                assert(v@.skip(0) =~= v@);
            }
            Ok(v)
        },
        Err(e) => Err(e),
    }
}

/// Decodes every frame of `data`, back to back.
pub fn decode_all(data: &[u8]) -> (r: Result<Vec<u8>, Error>)
    ensures
        match decode_stream(data@) {
            Ok(x) => r matches Ok(v) && v@ == x,
            Err(e) => r matches Err(er) && er.kind == e,
        },
{
    let mut dec = match Decoder::new(data) {
        Ok(d) => d,
        Err(e) => {
            return Err(e);
        },
    };
    let mut out: Vec<u8> = Vec::new();
    match dec.read_to_end(&mut out) {
        Ok(_) => {
            proof {
                if let Ok(x) = decode_stream(data@) {
                    assert(Seq::<u8>::empty() + x =~= x);
                }
            }
            Ok(out)
        },
        Err(e) => Err(e),
    }
}

/// Encodes `input` as one frame at `level` and appends it to `out`.
pub fn copy_encode(input: &[u8], out: &mut Vec<u8>, level: i32) -> (r: Result<(), Error>)
    ensures
        valid_level(level) <==> r is Ok,
        r is Ok ==> final(out)@ == old(out)@ + final(out)@.skip(old(out)@.len() as int)
            && is_frame_of(level, input@, final(out)@.skip(old(out)@.len() as int)),
        r is Err ==> final(out)@ == old(out)@,
{
    let v = match encode_all(input, level) {
        Ok(v) => v,
        Err(e) => {
            return Err(e);
        },
    };
    let ghost o = out@;
    let mut k: usize = 0;
    while k < v.len()
        invariant
            0 <= k <= v@.len(),
            out@ == o + v@.take(k as int),
        decreases v@.len() - k,
    {
        out.push(v[k]);
        k = k + 1;
        proof {
            assert(v@.take(k as int) =~= v@.take(k - 1) + seq![v@[k - 1]]);
            assert(o + v@.take(k as int) =~= o + v@.take(k - 1) + seq![v@[k - 1]]);
        }
    }
    proof {
        assert(v@.take(v@.len() as int) =~= v@);
        assert(out@.skip(o.len() as int) =~= v@);
    }
    Ok(())
}

fn same_bytes(a: &Vec<u8>, b: &[u8]) -> (r: bool)
    ensures
        r == (a@ == b@),
{
    if a.len() != b.len() {
        return false;
    }
    let mut k: usize = 0;
    while k < a.len()
        invariant
            a@.len() == b@.len(),
            0 <= k <= a@.len(),
            a@.take(k as int) == b@.take(k as int),
        decreases a@.len() - k,
    {
        if a[k] != b[k] {
            proof {
                assert(a@[k as int] != b@[k as int]);
            }
            return false;
        }
        proof {
            assert(a@.take(k + 1) =~= a@.take(k as int) + seq![a@[k as int]]);
            assert(b@.take(k + 1) =~= b@.take(k as int) + seq![b@[k as int]]);
        }
        k = k + 1;
    }
    proof {
        assert(a@.take(a@.len() as int) =~= a@);
        assert(b@.take(b@.len() as int) =~= b@);
    }
    true
}

/// Compresses `input` at `level`, decompresses the result, and reports
/// whether the input came back unchanged.
pub fn test_full_cycle(input: &[u8], level: i32) -> (r: bool)
    requires
        valid_level(level),
    ensures
        r,
{
    let enc = match encode_all(input, level) {
        Ok(v) => v,
        Err(_) => {
            return false;
        },
    };
    proof {
        lemma_round_trip(level, input@, enc@);
    }
    match decode_all(enc.as_slice()) {
        Ok(dec) => same_bytes(&dec, input),
        Err(_) => false,
    }
}

} // verus!

use vstd::prelude::*;
use crate::frame::{
    parse_blocks, parse_frame, parse_header, ErrorKind, LEVEL_MAX, LEVEL_MIN, MAGIC0, MAGIC1,
    MAGIC2, TAG_END, TAG_RAW, VERSION_CURRENT, VERSION_OLDEST,
};

verus! {

fn header_at(data: &[u8], pos: usize) -> (r: Result<usize, ErrorKind>)
    requires
        pos <= data@.len(),
    ensures
        match parse_header(data@.skip(pos as int)) {
            Ok(h) => r == Ok::<usize, ErrorKind>(h as usize) && pos + h <= data@.len(),
            Err(e) => r == Err::<usize, ErrorKind>(e),
        },
{
    let ghost s = data@.skip(pos as int);
    let len = data.len() - pos;
    if (len > 0 && data[pos] != MAGIC0) || (len > 1 && data[pos + 1] != MAGIC1) || (len > 2
        && data[pos + 2] != MAGIC2) {
        return Err(ErrorKind::Other);
    }
    if len < 4 {
        return Err(ErrorKind::UnexpectedEof);
    }
    let v = data[pos + 3];
    if v < VERSION_OLDEST || v > VERSION_CURRENT {
        return Err(ErrorKind::Other);
    }
    if v != VERSION_CURRENT {
        return Ok(4);
    }
    if len < 5 {
        return Err(ErrorKind::UnexpectedEof);
    }
    let level = data[pos + 4] as i32;
    if level < LEVEL_MIN || level > LEVEL_MAX {
        return Err(ErrorKind::Other);
    }
    Ok(5)
}

/// Decodes the frame that starts at `pos`, appends its payload to `out` and
/// returns the frame's length. On failure `out` is left as it was.
pub fn decode_frame_at(data: &[u8], pos: usize, out: &mut Vec<u8>) -> (r: Result<usize, ErrorKind>)
    requires
        pos <= data@.len(),
    ensures
        r matches Ok(n) ==> pos + n <= data@.len() && (parse_frame(data@.skip(pos as int)) matches Ok(
            (p, m),
        ) && m == n && final(out)@ == old(out)@ + p),
        r matches Err(e) ==> parse_frame(data@.skip(pos as int)) == Err::<(Seq<u8>, nat), ErrorKind>(e)
            && final(out)@ == old(out)@,
{
    let h = match header_at(data, pos) {
        Ok(h) => h,
        Err(e) => return Err(e),
    };
    let dlen = data.len();
    assert(pos + h <= dlen);
    let start = pos + h;
    let ghost s0 = data@.skip(start as int);
    assert(data@.skip(pos as int).skip(h as int) =~= s0);
    let mut i: usize = start;
    let mut acc: Vec<u8> = Vec::new();
    loop
        invariant
            pos <= start <= i <= data@.len(),
            dlen == data@.len(),
            out@ == old(out)@,
            s0 == data@.skip(start as int),
            parse_frame(data@.skip(pos as int)) == match parse_blocks(s0) {
                Ok((p, c)) => Ok::<(Seq<u8>, nat), ErrorKind>((p, ((start - pos) as nat + c) as nat)),
                Err(e) => Err::<(Seq<u8>, nat), ErrorKind>(e),
            },
            parse_blocks(s0) == match parse_blocks(data@.skip(i as int)) {
                Ok((p, c)) => Ok::<(Seq<u8>, nat), ErrorKind>((acc@ + p, ((i - start) as nat + c) as nat)),
                Err(e) => Err::<(Seq<u8>, nat), ErrorKind>(e),
            },
        decreases data@.len() - i,
    {
        let ghost s = data@.skip(i as int);
        assert(s.len() == dlen - i);
        if i == data.len() {
            return Err(ErrorKind::UnexpectedEof);
        }
        let tag = data[i];
        assert(s[0] == tag);
        if tag == TAG_END {
            let n = i + 1 - pos;
            let mut k: usize = 0;
            let ghost o = out@;
            while k < acc.len()
                invariant
                    0 <= k <= acc@.len(),
                    out@ == o + acc@.take(k as int),
                decreases acc@.len() - k,
            {
                out.push(acc[k]);
                k = k + 1;
                proof {
                    assert(acc@.take(k as int) == acc@.take(k - 1) + seq![acc@[k - 1]]);
                }
            }
            proof {
                assert(acc@.take(acc@.len() as int) == acc@);
                assert(acc@ + Seq::<u8>::empty() == acc@);
            }
            return Ok(n);
        }
        if tag != TAG_RAW {
            return Err(ErrorKind::Other);
        }
        if data.len() - i < 3 {
            return Err(ErrorKind::UnexpectedEof);
        }
        let n: usize = data[i + 1] as usize + 256 * data[i + 2] as usize;
        assert(s[1] == data@[i + 1] && s[2] == data@[i + 2]);
        if data.len() - i - 3 < n {
            return Err(ErrorKind::UnexpectedEof);
        }
        let ghost before = acc@;
        let mut k: usize = 0;
        while k < n
            invariant
                0 <= k <= n,
                dlen == data@.len(),
                i + 3 + n <= dlen,
                acc@ == before + data@.subrange(i + 3, i + 3 + k),
            decreases n - k,
        {
            acc.push(data[i + 3 + k]);
            k = k + 1;
            proof {
                assert(data@.subrange(i + 3, i + 3 + k) == data@.subrange(i + 3, i + 3 + k - 1)
                    + seq![data@[i + 3 + k - 1]]);
            }
        }
        proof {
            assert(s.skip(3 + n as int) == data@.skip(i + 3 + n));
            assert(s.subrange(3, 3 + n as int) == data@.subrange(i + 3, i + 3 + n));
            match parse_blocks(data@.skip(i + 3 + n)) {
                Ok((p, c)) => {
                    assert(before + (data@.subrange(i + 3, i + 3 + n as int) + p) == acc@ + p);
                },
                Err(e) => {},
            }
        }
        i = i + 3 + n;
    }
}

} // verus!

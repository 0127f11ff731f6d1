use vstd::prelude::*;
use crate::decode::decode_frame_at;
use crate::frame::{
    decode_single, decode_stream, lemma_frame_len, lemma_stream_step, parse_frame, Error, ErrorKind,
};

verus! {

/// Decoding adapter over an in-memory source of concatenated frames.
pub struct Decoder {
    data: Vec<u8>,
    pos: usize,
    single: bool,
    done_one: bool,
    out: Vec<u8>,
    out_pos: usize,
}

/// What decoding `rest` still yields under the given termination policy.
pub open spec fn tail_outcome(single: bool, done_one: bool, rest: Seq<u8>) -> Result<Seq<u8>, ErrorKind> {
    if single {
        if done_one {
            Ok(Seq::empty())
        } else {
            decode_single(rest)
        }
    } else {
        decode_stream(rest)
    }
}

impl Decoder {
    pub closed spec fn wf(&self) -> bool {
        self.pos <= self.data@.len() && self.out_pos <= self.out@.len()
    }

    /// Everything the remaining reads yield, or the failure they end in.
    pub closed spec fn outcome(&self) -> Result<Seq<u8>, ErrorKind> {
        match tail_outcome(self.single, self.done_one, self.data@.skip(self.pos as int)) {
            Ok(x) => Ok(self.out@.skip(self.out_pos as int) + x),
            Err(e) => Err(e),
        }
    }

    pub closed spec fn is_single_frame(&self) -> bool {
        self.single
    }

    /// A multi-frame decoder over `data`.
    pub fn new(data: &[u8]) -> (r: Result<Decoder, Error>)
        ensures
            r is Ok,
            r matches Ok(d) ==> d.wf() && d.outcome() == decode_stream(data@)
                && !d.is_single_frame() && d.data_untouched() && d.remaining() == data@,
    {
        let mut v: Vec<u8> = Vec::new();
        let mut k: usize = 0;
        while k < data.len()
            invariant
                0 <= k <= data@.len(),
                v@ == data@.take(k as int),
            decreases data@.len() - k,
        {
            v.push(data[k]);
            k = k + 1;
            proof {
                assert(data@.take(k as int) == data@.take(k - 1) + seq![data@[k - 1]]);
            }
        }
        let d = Decoder { data: v, pos: 0, single: false, done_one: false, out: Vec::new(), out_pos: 0 };
        proof {
            assert(data@.take(data@.len() as int) == data@);
            assert(d.data@.skip(0) == data@);
            assert(d.out@.skip(0) + decode_stream(data@)->Ok_0 == decode_stream(data@)->Ok_0);
        }
        Ok(d)
    }

    /// Switches to single-frame mode: decoding stops after the first frame and
    /// whatever follows it is left unread.
    pub fn single_frame(self) -> (r: Decoder)
        requires
            self.wf(),
            self.data_untouched(),
        ensures
            r.wf(),
            r.is_single_frame(),
            r.outcome() == decode_single(self.remaining()),
    {
        let mut d = self;
        d.single = true;
        proof {
            match decode_single(d.data@.skip(d.pos as int)) {
                Ok(x) => { assert(d.out@.skip(d.out_pos as int) + x == x); },
                Err(e) => {},
            }
        }
        d
    }

    /// Nothing has been read yet.
    pub closed spec fn data_untouched(&self) -> bool {
        !self.done_one && self.out@.len() == 0 && self.out_pos == 0
    }

    /// The source bytes not yet consumed.
    pub closed spec fn remaining(&self) -> Seq<u8> {
        self.data@.skip(self.pos as int)
    }

    proof fn lemma_tail_step(single: bool, done_one: bool, rest: Seq<u8>)
        requires
            if single { !done_one } else { rest.len() > 0 },
        ensures
            tail_outcome(single, done_one, rest) == match parse_frame(rest) {
                Ok((p, n)) => match tail_outcome(single, true, rest.skip(n as int)) {
                    Ok(q) => Ok::<Seq<u8>, ErrorKind>(p + q),
                    Err(e) => Err::<Seq<u8>, ErrorKind>(e),
                },
                Err(e) => Err::<Seq<u8>, ErrorKind>(e),
            },
    {
        lemma_frame_len(rest);
        if single {
            if let Ok((p, n)) = parse_frame(rest) {
                assert(p + Seq::<u8>::empty() =~= p);
            }
        } else {
            lemma_stream_step(rest);
        }
    }

    /// Decodes frames until output is pending or the stream is exhausted.
    fn fill(&mut self) -> (r: Result<(), ErrorKind>)
        requires
            old(self).wf(),
        ensures
            final(self).wf(),
            match old(self).outcome() {
                Ok(x) => r is Ok && final(self).outcome() == Ok::<Seq<u8>, ErrorKind>(x)
                    && (final(self).out_pos == final(self).out@.len() ==> x.len() == 0),
                Err(e) => (r is Ok && final(self).outcome() == Err::<Seq<u8>, ErrorKind>(e)
                    && final(self).out_pos < final(self).out@.len()) || r == Err::<(), ErrorKind>(e),
            },
    {
        if self.out_pos < self.out.len() {
            return Ok(());
        }
        let ghost o = self.outcome();
        self.out = Vec::new();
        self.out_pos = 0;
        proof {
            assert(old(self).out@.skip(old(self).out_pos as int) =~= Seq::<u8>::empty());
            assert(self.out@.skip(0) =~= Seq::<u8>::empty());
            match tail_outcome(self.single, self.done_one, self.data@.skip(self.pos as int)) {
                Ok(x) => {
                    assert(Seq::<u8>::empty() + x =~= x);
                },
                Err(e) => {},
            }
            assert(self.outcome() == o);
        }
        loop
            invariant
                self.wf(),
                self.out_pos == 0,
                self.out@.len() == 0,
                self.outcome() == o,
                o == old(self).outcome(),
            decreases self.data@.len() - self.pos, if self.done_one { 0int } else { 1int },
        {
            let at_end = if self.single { self.done_one } else { self.pos == self.data.len() };
            if at_end {
                proof {
                    if !self.single {
                        assert(self.data@.skip(self.pos as int).len() == 0);
                    }
                    assert(self.out@.skip(0) + Seq::<u8>::empty() =~= Seq::<u8>::empty());
                }
                return Ok(());
            }
            let ghost rest = self.data@.skip(self.pos as int);
            proof {
                Self::lemma_tail_step(self.single, self.done_one, rest);
            }
            let dlen = self.data.len();
            let res = decode_frame_at(self.data.as_slice(), self.pos, &mut self.out);
            match res {
                Ok(n) => {
                    proof {
                        assert(rest.skip(n as int) =~= self.data@.skip(self.pos + n));
                        lemma_frame_len(rest);
                    }
                    self.pos = self.pos + n;
                    self.done_one = true;
                    proof {
                        let p = parse_frame(rest)->Ok_0.0;
                        assert(self.out@ =~= p);
                        assert(self.out@.skip(0) =~= p);
                    }
                    if self.out.len() > 0 {
                        return Ok(());
                    }
                    proof {
                        let p = parse_frame(rest)->Ok_0.0;
                        match tail_outcome(self.single, true, self.data@.skip(self.pos as int)) {
                            Ok(q) => {
                                assert(p + q =~= q);
                                assert(self.out@.skip(0) + q =~= q);
                            },
                            Err(e) => {},
                        }
                    }
                },
                Err(e) => {
                    proof {
                        assert(self.out@.skip(0) =~= Seq::<u8>::empty());
                    }
                    return Err(e);
                },
            }
        }
    }

    /// Reads at most `max` decoded bytes; an empty result with `max > 0`
    /// means the end of the stream.
    pub fn read(&mut self, max: usize) -> (r: Result<Vec<u8>, Error>)
        requires
            old(self).wf(),
        ensures
            final(self).wf(),
            match old(self).outcome() {
                Ok(x) => r matches Ok(v) && v@.len() <= max && v@ == x.take(v@.len() as int)
                    && (v@.len() == 0 ==> max == 0 || x.len() == 0)
                    && final(self).outcome() == Ok::<Seq<u8>, ErrorKind>(x.skip(v@.len() as int)),
                Err(e) => (r matches Ok(v) && v@.len() <= max && (v@.len() > 0 || max == 0)
                    && final(self).outcome() == Err::<
                    Seq<u8>,
                    ErrorKind,
                >(e)) || (r matches Err(er) && er.kind == e),
            },
    {
        match self.fill() {
            Ok(()) => {},
            Err(e) => {
                return Err(Error::new(e));
            },
        }
        let olen = self.out.len();
        let avail = olen - self.out_pos;
        let take = if max < avail { max } else { avail };
        let mut v: Vec<u8> = Vec::new();
        let mut k: usize = 0;
        let ghost start = self.out_pos as int;
        let ghost filled = *self;
        while k < take
            invariant
                self.wf(),
                olen == self.out@.len(),
                *self == filled,
                match old(self).outcome() {
                    Ok(x) => filled.outcome() == Ok::<Seq<u8>, ErrorKind>(x) && (filled.out_pos
                        == filled.out@.len() ==> x.len() == 0),
                    Err(e) => filled.outcome() == Err::<Seq<u8>, ErrorKind>(e),
                },
                start == self.out_pos,
                take <= self.out@.len() - self.out_pos,
                0 <= k <= take,
                v@ == self.out@.subrange(start, start + k),
            decreases take - k,
        {
            v.push(self.out[self.out_pos + k]);
            k = k + 1;
            proof {
                assert(self.out@.subrange(start, start + k) == self.out@.subrange(start, start + k - 1)
                    + seq![self.out@[start + k - 1]]);
            }
        }
        let ghost mid = self.outcome();
        self.out_pos = self.out_pos + take;
        proof {
            let pend = self.out@.skip(start);
            assert(self.out@.skip(self.out_pos as int) =~= pend.skip(take as int));
            match mid {
                Ok(x) => {
                    let t = tail_outcome(self.single, self.done_one, self.data@.skip(self.pos as int))->Ok_0;
                    assert(x == pend + t);
                    assert(v@ =~= x.take(take as int));
                    assert(x.skip(take as int) =~= pend.skip(take as int) + t);
                },
                Err(e) => {},
            }
        }
        Ok(v)
    }

    /// Reads everything that is left, appending it to `buf`, and returns its length.
    pub fn read_to_end(&mut self, buf: &mut Vec<u8>) -> (r: Result<usize, Error>)
        requires
            old(self).wf(),
        ensures
            final(self).wf(),
            match old(self).outcome() {
                Ok(x) => r == Ok::<usize, Error>(x.len() as usize) && final(buf)@ == old(buf)@ + x
                    && final(self).outcome() == Ok::<Seq<u8>, ErrorKind>(Seq::empty()),
                Err(e) => r matches Err(er) && er.kind == e,
            },
    {
        let ghost o = self.outcome();
        let blen0 = buf.len();
        let ghost pend = self.out@.skip(self.out_pos as int);
        let mut k: usize = self.out_pos;
        while k < self.out.len()
            invariant
                self.wf(),
                self.out_pos <= k <= self.out@.len(),
                pend == self.out@.skip(self.out_pos as int),
                buf@ == old(buf)@ + self.out@.subrange(self.out_pos as int, k as int),
            decreases self.out@.len() - k,
        {
            buf.push(self.out[k]);
            k = k + 1;
            proof {
                assert(self.out@.subrange(self.out_pos as int, k as int) == self.out@.subrange(
                    self.out_pos as int,
                    k - 1,
                ) + seq![self.out@[k - 1]]);
            }
        }
        proof {
            assert(self.out@.subrange(self.out_pos as int, self.out@.len() as int) =~= pend);
        }
        self.out_pos = self.out.len();
        let ghost mut acc = pend;
        proof {
            assert(self.out@.skip(self.out_pos as int) =~= Seq::<u8>::empty());
        }
        loop
            invariant
                self.wf(),
                self.out_pos == self.out@.len(),
                buf@ == old(buf)@ + acc,
                blen0 == old(buf)@.len(),
                o == old(self).outcome(),
                o == match tail_outcome(self.single, self.done_one, self.data@.skip(self.pos as int)) {
                    Ok(t) => Ok::<Seq<u8>, ErrorKind>(acc + t),
                    Err(e) => Err::<Seq<u8>, ErrorKind>(e),
                },
            decreases self.data@.len() - self.pos, if self.done_one { 0int } else { 1int },
        {
            let at_end = if self.single { self.done_one } else { self.pos == self.data.len() };
            if at_end {
                proof {
                    if !self.single {
                        assert(self.data@.skip(self.pos as int).len() == 0);
                    }
                    assert(acc + Seq::<u8>::empty() == acc);
                    assert(self.out@.skip(self.out_pos as int) + Seq::<u8>::empty() =~= Seq::<u8>::empty());
                }
                return Ok(buf.len() - blen0);
            }
            let ghost rest = self.data@.skip(self.pos as int);
            let ghost acc0 = acc;
            proof {
                Self::lemma_tail_step(self.single, self.done_one, rest);
                lemma_frame_len(rest);
            }
            let dlen = self.data.len();
            let res = decode_frame_at(self.data.as_slice(), self.pos, buf);
            match res {
                Ok(n) => {
                    proof {
                        assert(rest.skip(n as int) =~= self.data@.skip(self.pos + n));
                        let p = parse_frame(rest)->Ok_0.0;
                        acc = acc + p;
                        assert(buf@ =~= old(buf)@ + acc);
                    }
                    self.pos = self.pos + n;
                    self.done_one = true;
                    proof {
                        let p = parse_frame(rest)->Ok_0.0;
                        match tail_outcome(self.single, true, self.data@.skip(self.pos as int)) {
                            Ok(q) => {
                                assert(acc0 + (p + q) =~= acc + q);
                            },
                            Err(e) => {},
                        }
                    }
                },
                Err(e) => {
                    return Err(Error::new(e));
                },
            }
        }
    }
}

} // verus!

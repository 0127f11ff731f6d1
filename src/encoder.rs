use vstd::prelude::*;
use vstd::slice::slice_subrange;
use crate::frame::{
    block_bytes, blocks_ok, encode_blocks, flatten, frame_bytes, header_bytes, is_frame_of,
    lemma_push_block, valid_level, Error, ErrorKind, BLOCK_MAX, LEVEL_MAX, LEVEL_MIN, MAGIC0, MAGIC1, MAGIC2,
    TAG_END, TAG_RAW, VERSION_CURRENT,
};

verus! {

/// A byte sink that may accept only part of a write, or refuse writes for now.
/// Whether it refuses is part of its state, and only changes when the sink
/// is reconfigured.
pub trait Sink {
    /// Every byte the sink has accepted so far.
    spec fn accepted(&self) -> Seq<u8>;

    /// The error every write currently fails with, if the sink refuses writes.
    spec fn refusal(&self) -> Option<Error>;

    /// Offers `buf`; on `Ok(n)` the first `n` bytes were accepted. A sink that
    /// does not refuse takes at least one byte of a non-empty offer.
    fn write_some(&mut self, buf: &[u8]) -> (r: Result<usize, Error>)
        ensures
            final(self).refusal() == old(self).refusal(),
            old(self).refusal() matches Some(e) ==> r == Err::<usize, Error>(e),
            old(self).refusal() is None ==> (r matches Ok(n) && (buf@.len() > 0 ==> n > 0)),
            r matches Ok(n) ==> n <= buf@.len() && final(self).accepted() == old(self).accepted()
                + buf@.take(n as int),
            r is Err ==> final(self).accepted() == old(self).accepted(),
    ;
}

fn append_prefix(out: &mut Vec<u8>, buf: &[u8], n: usize)
    requires
        n <= buf@.len(),
    ensures
        final(out)@ == old(out)@ + buf@.take(n as int),
{
    let ghost o = out@;
    let mut k: usize = 0;
    while k < n
        invariant
            0 <= k <= n <= buf@.len(),
            out@ == o + buf@.take(k as int),
        decreases n - k,
    {
        out.push(buf[k]);
        k = k + 1;
        proof {
            assert(buf@.take(k as int) == buf@.take(k - 1) + seq![buf@[k - 1]]);
            assert(o + buf@.take(k as int) =~= o + buf@.take(k - 1) + seq![buf@[k - 1]]);
        }
    }
}

impl Sink for Vec<u8> {
    open spec fn accepted(&self) -> Seq<u8> {
        self@
    }

    open spec fn refusal(&self) -> Option<Error> {
        None
    }

    fn write_some(&mut self, buf: &[u8]) -> (r: Result<usize, Error>) {
        append_prefix(self, buf, buf.len());
        proof {
            assert(buf@.take(buf@.len() as int) =~= buf@);
        }
        Ok(buf.len())
    }
}

/// How a [`ThrottledSink`] treats the next writes.
#[derive(Clone, Copy, Debug, PartialEq, Eq, Structural)]
pub enum SinkMode {
    /// Every write is taken whole.
    Unlimited,
    /// At most this many bytes are taken per write; a limit of zero refuses
    /// with `WouldBlock`.
    Limited(usize),
    /// Every write fails with this kind.
    Refuse(ErrorKind),
}

/// The error a sink in `mode` refuses writes with, if any.
pub open spec fn refusal_of(mode: SinkMode) -> Option<Error> {
    match mode {
        SinkMode::Refuse(kind) => Some(Error { kind }),
        SinkMode::Limited(k) => if k == 0 {
            Some(Error { kind: ErrorKind::WouldBlock })
        } else {
            None
        },
        SinkMode::Unlimited => None,
    }
}

/// An in-memory sink whose readiness is set by its owner: it may take every
/// write, take a bounded part of each, or refuse for now.
pub struct ThrottledSink {
    data: Vec<u8>,
    mode: SinkMode,
}

impl ThrottledSink {
    pub closed spec fn mode(&self) -> SinkMode {
        self.mode
    }

    pub fn new(mode: SinkMode) -> (r: ThrottledSink)
        ensures
            r.accepted() == Seq::<u8>::empty(),
            r.mode() == mode,
            r.refusal() == refusal_of(mode),
    {
        ThrottledSink { data: Vec::new(), mode }
    }

    pub fn set_mode(&mut self, mode: SinkMode)
        ensures
            final(self).accepted() == old(self).accepted(),
            final(self).mode() == mode,
            final(self).refusal() == refusal_of(mode),
    {
        self.mode = mode;
    }

    /// The bytes accepted so far.
    pub fn bytes(&self) -> (r: Vec<u8>)
        ensures
            r@ == self.accepted(),
    {
        let mut out: Vec<u8> = Vec::new();
        append_prefix(&mut out, self.data.as_slice(), self.data.len());
        proof {
            assert(self.data@.take(self.data@.len() as int) =~= self.data@);
            assert(Seq::<u8>::empty() + self.data@ =~= self.data@);
        }
        out
    }

    pub fn into_bytes(self) -> (r: Vec<u8>)
        ensures
            r@ == self.accepted(),
    {
        self.data
    }
}

impl Sink for ThrottledSink {
    closed spec fn accepted(&self) -> Seq<u8> {
        self.data@
    }

    closed spec fn refusal(&self) -> Option<Error> {
        refusal_of(self.mode)
    }

    fn write_some(&mut self, buf: &[u8]) -> (r: Result<usize, Error>) {
        let n = match self.mode {
            SinkMode::Unlimited => buf.len(),
            SinkMode::Limited(k) => {
                if k == 0 {
                    return Err(Error::new(ErrorKind::WouldBlock));
                }
                if k < buf.len() { k } else { buf.len() }
            },
            SinkMode::Refuse(kind) => {
                return Err(Error::new(kind));
            },
        };
        append_prefix(&mut self.data, buf, n);
        Ok(n)
    }
}

/// Blocks emitted so far and the bytes staged for the next one.
pub type Layout = (Seq<Seq<u8>>, Seq<u8>);

/// Stages one written byte, emitting the staged bytes first when they fill a block.
pub open spec fn feed_byte(l: Layout, b: u8) -> Layout {
    if l.1.len() == BLOCK_MAX {
        (l.0.push(l.1), seq![b])
    } else {
        (l.0, l.1.push(b))
    }
}

/// The layout after writing `d`, byte by byte.
pub open spec fn feed(l: Layout, d: Seq<u8>) -> Layout
    decreases d.len(),
{
    if d.len() == 0 {
        l
    } else {
        feed_byte(feed(l, d.drop_last()), d.last())
    }
}

/// The frame that ends a stream with layout `l`: the staged bytes become the
/// last block.
pub open spec fn frame_for(level: i32, l: Layout) -> Seq<u8> {
    frame_bytes(VERSION_CURRENT, level, if l.1.len() > 0 { l.0.push(l.1) } else { l.0 })
}

/// Where an encoder stands in its lifecycle.
#[derive(Clone, Copy, Debug, PartialEq, Eq, Structural)]
pub enum EncState {
    Active,
    Finishing,
    Finished,
}

/// Encoding adapter: turns written bytes into one frame pushed to a sink.
pub struct Encoder<W: Sink> {
    sink: W,
    level: i32,
    state: EncState,
    started: bool,
    stage: Vec<u8>,
    pending: Vec<u8>,
    pos: usize,
    blocks: Ghost<Seq<Seq<u8>>>,
    base: Ghost<Seq<u8>>,
}

impl<W: Sink> Encoder<W> {
    /// Bytes of the frame produced so far (header, emitted blocks, and the end
    /// tag once finalizing has begun).
    pub closed spec fn produced(&self) -> Seq<u8> {
        if !self.started {
            Seq::empty()
        } else if self.state == EncState::Active {
            header_bytes(VERSION_CURRENT, self.level) + encode_blocks(self.blocks@)
        } else {
            frame_bytes(VERSION_CURRENT, self.level, self.blocks@)
        }
    }

    pub closed spec fn wf(&self) -> bool {
        &&& valid_level(self.level)
        &&& self.pos <= self.pending@.len()
        &&& self.stage@.len() <= BLOCK_MAX
        &&& blocks_ok(self.blocks@)
        &&& self.sink.accepted() + self.pending@.skip(self.pos as int) == self.base@ + self.produced()
        &&& self.state != EncState::Active ==> self.stage@.len() == 0
        &&& self.state == EncState::Finished ==> self.pos == self.pending@.len()
        &&& !self.started ==> self.blocks@.len() == 0 && self.stage@.len() == 0 && self.state
            == EncState::Active
    }

    /// Every byte written so far.
    pub closed spec fn input(&self) -> Seq<u8> {
        flatten(self.blocks@) + self.stage@
    }

    /// What the sink held before the encoder was made.
    pub closed spec fn origin(&self) -> Seq<u8> {
        self.base@
    }

    pub closed spec fn level(&self) -> i32 {
        self.level
    }

    pub closed spec fn state(&self) -> EncState {
        self.state
    }

    pub closed spec fn sink(&self) -> W {
        self.sink
    }

    /// The blocks of the frame as it stands: those emitted, then the staged
    /// bytes as one more block.
    pub closed spec fn all_blocks(&self) -> Seq<Seq<u8>> {
        if self.stage@.len() > 0 {
            self.blocks@.push(self.stage@)
        } else {
            self.blocks@
        }
    }

    pub closed spec fn layout(&self) -> Layout {
        (self.blocks@, self.stage@)
    }

    /// The complete frame this encoder delivers if nothing more is written.
    /// It does not depend on how the sink behaves.
    pub open spec fn final_frame(&self) -> Seq<u8> {
        frame_for(self.level(), self.layout())
    }

    /// Written bytes not yet put into a block.
    pub closed spec fn staged(&self) -> Seq<u8> {
        self.stage@
    }

    /// Compressed bytes produced but not yet accepted by the sink.
    pub closed spec fn unsent(&self) -> Seq<u8> {
        self.pending@.skip(self.pos as int)
    }

    /// An encoder writing one frame at `level` to `sink`; fails with
    /// `InvalidArgument` when the level is out of range.
    pub fn new(sink: W, level: i32) -> (r: Result<Self, Error>)
        ensures
            valid_level(level) <==> r is Ok,
            r matches Err(e) ==> e.kind == ErrorKind::InvalidArgument,
            r matches Ok(enc) ==> enc.wf() && enc.input() == Seq::<u8>::empty() && enc.layout() == (
                Seq::<Seq<u8>>::empty(),
                Seq::<u8>::empty(),
            ) && enc.origin()
                == sink.accepted() && enc.level() == level && enc.state() == EncState::Active
                && enc.sink() == sink,
    {
        if level < LEVEL_MIN || level > LEVEL_MAX {
            return Err(Error::new(ErrorKind::InvalidArgument));
        }
        let enc = Encoder {
            sink,
            level,
            state: EncState::Active,
            started: false,
            stage: Vec::new(),
            pending: Vec::new(),
            pos: 0,
            blocks: Ghost(Seq::empty()),
            base: Ghost(sink.accepted()),
        };
        proof {
            assert(enc.pending@.skip(0) =~= Seq::<u8>::empty());
            assert(sink.accepted() + Seq::<u8>::empty() =~= sink.accepted());
            assert(flatten(Seq::<Seq<u8>>::empty()) + Seq::<u8>::empty() =~= Seq::<u8>::empty());
        }
        Ok(enc)
    }

    /// Pushes unsent bytes to the sink until none is left or the sink fails.
    fn drain(&mut self) -> (r: Result<(), Error>)
        requires
            old(self).wf(),
        ensures
            final(self).wf(),
            final(self).input() == old(self).input(),
            final(self).origin() == old(self).origin(),
            final(self).level() == old(self).level(),
            final(self).state() == old(self).state(),
            final(self).stage@ == old(self).stage@,
            final(self).blocks@ == old(self).blocks@,
            final(self).started == old(self).started,
            final(self).sink().refusal() == old(self).sink().refusal(),
            r is Ok <==> (old(self).sink().refusal() is None || old(self).unsent().len() == 0),
            r is Ok ==> final(self).unsent().len() == 0 && final(self).pending@.len() == 0
                && final(self).sink().accepted() == old(self).sink().accepted() + old(self).unsent(),
            r matches Err(e) ==> old(self).sink().refusal() == Some(e) && final(self).sink().accepted()
                == old(self).sink().accepted() && final(self).pending@ == old(self).pending@
                && final(self).pos == old(self).pos,
    {
        let plen = self.pending.len();
        while self.pos < plen
            invariant
                self.wf(),
                plen == self.pending@.len(),
                self.pending@ == old(self).pending@,
                old(self).pos <= self.pos,
                self.input() == old(self).input(),
                self.origin() == old(self).origin(),
                self.level() == old(self).level(),
                self.state() == old(self).state(),
                self.stage@ == old(self).stage@,
                self.blocks@ == old(self).blocks@,
                self.started == old(self).started,
                self.sink.refusal() == old(self).sink.refusal(),
                self.sink.accepted() + self.pending@.skip(self.pos as int) == old(self).sink.accepted()
                    + old(self).unsent(),
                self.sink.refusal() is Some ==> self.pos == old(self).pos && self.sink.accepted()
                    == old(self).sink.accepted(),
            decreases plen - self.pos,
        {
            let ghost before = *self;
            let res = self.sink.write_some(slice_subrange(self.pending.as_slice(), self.pos, plen));
            match res {
                Ok(n) => {
                    proof {
                        let u = before.pending@.skip(before.pos as int);
                        assert(before.pending@.subrange(before.pos as int, plen as int) =~= u);
                        assert(u =~= u.take(n as int) + before.pending@.skip(before.pos + n));
                        assert(self.sink.accepted() + self.pending@.skip(before.pos + n) =~= before.sink.accepted()
                            + u);
                    }
                    self.pos = self.pos + n;
                },
                Err(e) => {
                    return Err(e);
                },
            }
        }
        let ghost acc = self.sink.accepted();
        self.pending = Vec::new();
        self.pos = 0;
        proof {
            assert(self.pending@.skip(0) =~= Seq::<u8>::empty());
            assert(old(self).pending@.skip(plen as int) =~= Seq::<u8>::empty());
            assert(acc + Seq::<u8>::empty() =~= acc);
        }
        Ok(())
    }

    /// The sink the encoder writes to.
    pub fn get_ref(&self) -> (r: &W)
        ensures
            *r == self.sink(),
    {
        &self.sink
    }

    /// Queues the frame header if it has not been produced yet.
    fn start_frame(&mut self)
        requires
            old(self).wf(),
            old(self).state == EncState::Active,
        ensures
            final(self).wf(),
            final(self).started,
            final(self).blocks@ == old(self).blocks@,
            final(self).stage@ == old(self).stage@,
            final(self).input() == old(self).input(),
            final(self).origin() == old(self).origin(),
            final(self).level() == old(self).level(),
            final(self).state() == old(self).state(),
            final(self).sink() == old(self).sink(),
    {
        if !self.started {
            let ghost p0 = self.pending@;
            self.pending.push(MAGIC0);
            self.pending.push(MAGIC1);
            self.pending.push(MAGIC2);
            self.pending.push(VERSION_CURRENT);
            self.pending.push(self.level as u8);
            self.started = true;
            proof {
                let h = header_bytes(VERSION_CURRENT, self.level);
                assert(self.pending@ =~= p0 + h);
                assert(self.pending@.skip(self.pos as int) =~= p0.skip(self.pos as int) + h);
                assert(encode_blocks(self.blocks@) =~= Seq::<u8>::empty());
                assert(self.produced() =~= h);
                assert(self.sink.accepted() + self.pending@.skip(self.pos as int) =~= (self.sink.accepted()
                    + p0.skip(self.pos as int)) + h);
                assert(self.base@ + Seq::<u8>::empty() =~= self.base@);
            }
        }
    }

    /// Turns the staged bytes into one stored block queued for the sink.
    fn emit_stage(&mut self)
        requires
            old(self).wf(),
            old(self).state == EncState::Active,
            old(self).stage@.len() > 0,
        ensures
            final(self).wf(),
            final(self).input() == old(self).input(),
            final(self).origin() == old(self).origin(),
            final(self).level() == old(self).level(),
            final(self).state() == old(self).state(),
            final(self).sink() == old(self).sink(),
            final(self).stage@.len() == 0,
            final(self).started == old(self).started,
            final(self).blocks@ == old(self).all_blocks(),
            final(self).unsent().len() > 0,
    {
        let n = self.stage.len();
        let ghost b = self.stage@;
        let ghost p0 = self.pending@;
        let ghost s0 = *self;
        self.pending.push(TAG_RAW);
        self.pending.push((n % 256) as u8);
        self.pending.push((n / 256) as u8);
        let mut k: usize = 0;
        while k < n
            invariant
                0 <= k <= n,
                n == b.len(),
                self.stage@ == b,
                s0 == *old(self),
                p0 == s0.pending@,
                self.started == s0.started,
                self.pos == s0.pos && self.blocks == s0.blocks && self.base == s0.base
                    && self.sink == s0.sink && self.level == s0.level && self.state == s0.state,
                self.pending@ == p0 + seq![TAG_RAW, (n % 256) as u8, (n / 256) as u8] + b.take(k as int),
            decreases n - k,
        {
            self.pending.push(self.stage[k]);
            k = k + 1;
            proof {
                assert(b.take(k as int) =~= b.take(k - 1) + seq![b[k - 1]]);
                assert(self.pending@ =~= p0 + seq![TAG_RAW, (n % 256) as u8, (n / 256) as u8] + b.take(k as int));
            }
        }
        self.stage = Vec::new();
        proof {
            lemma_push_block(self.blocks@, b);
            assert(b.take(n as int) =~= b);
            assert(self.pending@ =~= p0 + block_bytes(b));
            assert(self.pending@.skip(self.pos as int) =~= p0.skip(self.pos as int) + block_bytes(b));
            let bs0 = self.blocks@;
            self.blocks@ = self.blocks@.push(b);
            assert(flatten(self.blocks@) + self.stage@ =~= old(self).input());
            assert forall|i: int| 0 <= i < self.blocks@.len() implies 0 < #[trigger] self.blocks@[i].len()
                <= BLOCK_MAX by {
                if i < bs0.len() {
                    assert(self.blocks@[i] == bs0[i]);
                }
            }
            assert(self.sink.accepted() + p0.skip(self.pos as int) == self.base@ + header_bytes(
                VERSION_CURRENT,
                self.level,
            ) + encode_blocks(bs0));
            assert(self.sink.accepted() + self.pending@.skip(self.pos as int) =~= (self.sink.accepted()
                + p0.skip(self.pos as int)) + block_bytes(b));
            assert(encode_blocks(self.blocks@) == encode_blocks(bs0) + block_bytes(b));
            assert(self.base@ + self.produced() =~= (self.base@ + header_bytes(VERSION_CURRENT, self.level)
                + encode_blocks(bs0)) + block_bytes(b));
        }
    }

    /// Takes all of `data`, after pushing bytes left over from earlier calls to
    /// the sink; a sink failure there is returned and nothing is taken.
    pub fn write(&mut self, data: &[u8]) -> (r: Result<usize, Error>)
        requires
            old(self).wf(),
            old(self).state() == EncState::Active,
        ensures
            final(self).wf(),
            final(self).state() == EncState::Active,
            final(self).origin() == old(self).origin(),
            final(self).level() == old(self).level(),
            final(self).sink().refusal() == old(self).sink().refusal(),
            old(self).sink().accepted().is_prefix_of(final(self).sink().accepted()),
            r is Ok <==> (old(self).sink().refusal() is None || old(self).unsent().len() == 0),
            r matches Ok(n) ==> n == data@.len() && final(self).input() == old(self).input() + data@
                && final(self).layout() == feed(old(self).layout(), data@),
            r matches Err(e) ==> old(self).sink().refusal() == Some(e) && final(self).sink().accepted()
                == old(self).sink().accepted() && final(self).input() == old(self).input()
                && final(self).unsent() == old(self).unsent() && final(self).staged() == old(self).staged()
                && final(self).final_frame() == old(self).final_frame(),
    {
        match self.drain() {
            Ok(()) => {},
            Err(e) => {
                return Err(e);
            },
        }
        let ghost acc = self.sink.accepted();
        self.start_frame();
        let ghost in0 = self.input();
        let mut k: usize = 0;
        while k < data.len()
            invariant
                self.wf(),
                self.state() == EncState::Active,
                self.origin() == old(self).origin(),
                self.level() == old(self).level(),
                0 <= k <= data@.len(),
                self.input() == in0 + data@.take(k as int),
                self.layout() == feed(old(self).layout(), data@.take(k as int)),
                self.sink.refusal() == old(self).sink.refusal(),
                self.sink.accepted() == acc,
                self.started,
            decreases data@.len() - k,
        {
            if self.stage.len() == BLOCK_MAX {
                self.emit_stage();
            }
            let ghost before = self.input();
            let ghost lay = self.layout();
            self.stage.push(data[k]);
            proof {
                assert(data@.take(k + 1).drop_last() =~= data@.take(k as int));
                assert(self.layout() =~= (lay.0, lay.1.push(data@[k as int])));
                if feed(old(self).layout(), data@.take(k as int)).1.len() == BLOCK_MAX {
                    assert(seq![data@[k as int]] =~= Seq::<u8>::empty().push(data@[k as int]));
                }
                assert(self.input() =~= before + seq![data@[k as int]]);
                assert(data@.take(k + 1) =~= data@.take(k as int) + seq![data@[k as int]]);
            }
            k = k + 1;
        }
        proof {
            assert(data@.take(data@.len() as int) =~= data@);
            assert(old(self).sink().accepted() =~= acc.subrange(0, old(self).sink().accepted().len() as int));
        }
        Ok(data.len())
    }

    /// Emits the staged bytes as a block and pushes everything produced so
    /// far to the sink, without ending the frame. Allowed in every state.
    pub fn flush(&mut self) -> (r: Result<(), Error>)
        requires
            old(self).wf(),
        ensures
            final(self).wf(),
            final(self).state() == old(self).state(),
            final(self).input() == old(self).input(),
            final(self).origin() == old(self).origin(),
            final(self).level() == old(self).level(),
            final(self).final_frame() == old(self).final_frame(),
            final(self).sink().refusal() == old(self).sink().refusal(),
            old(self).sink().accepted().is_prefix_of(final(self).sink().accepted()),
            r is Ok <==> (old(self).sink().refusal() is None || (old(self).unsent().len() == 0
                && old(self).staged().len() == 0)),
            r is Ok ==> final(self).unsent().len() == 0 && final(self).sink().accepted()
                == final(self).origin() + final(self).produced(),
            r matches Err(e) ==> old(self).sink().refusal() == Some(e) && final(self).sink().accepted()
                == old(self).sink().accepted(),
    {
        let ghost ff = self.final_frame();
        if self.state == EncState::Active && self.stage.len() > 0 {
            self.start_frame();
            self.emit_stage();
            proof {
                assert(self.all_blocks() == self.blocks@);
            }
        }
        assert(self.final_frame() == ff);
        let r = self.drain();
        proof {
            if r is Ok {
                assert(self.pending@.skip(self.pos as int) =~= Seq::<u8>::empty());
                assert(self.sink.accepted() + Seq::<u8>::empty() =~= self.sink.accepted());
                let a = old(self).sink().accepted();
                assert(a =~= self.sink.accepted().subrange(0, a.len() as int));
            }
            assert(old(self).sink().accepted() =~= self.sink.accepted().subrange(0, old(self).sink().accepted().len() as int));
        }
        r
    }

    /// Ends the frame and pushes it to the sink, then hands the sink back.
    /// When the sink refuses, the encoder comes back with the sink's error
    /// and can be retried; nothing more can be written to it.
    pub fn try_finish(self) -> (r: Result<W, (Self, Error)>)
        requires
            self.wf(),
        ensures
            r matches Ok(w) ==> w.accepted() == self.origin() + self.final_frame()
                && self.sink().accepted().is_prefix_of(w.accepted())
                && is_frame_of(self.level(), self.input(), self.final_frame()),
            r is Ok <==> (self.sink().refusal() is None || (self.state() != EncState::Active
                && self.unsent().len() == 0)),
            r matches Err((enc, e)) ==> self.sink().refusal() == Some(e) && enc.wf() && enc.state()
                == EncState::Finishing && enc.input() == self.input() && enc.origin() == self.origin()
                && enc.level() == self.level() && enc.final_frame() == self.final_frame()
                && enc.sink().accepted() == self.sink().accepted() && enc.sink().refusal()
                == self.sink().refusal() && enc.unsent().len() > 0,
    {
        proof {
            lemma_push_block(self.blocks@, self.stage@);
            assert(flatten(self.all_blocks()) == self.input()) by {
                if self.stage@.len() == 0 {
                    assert(flatten(self.blocks@) + self.stage@ =~= flatten(self.blocks@));
                }
            }
            assert(blocks_ok(self.all_blocks())) by {
                assert forall|i: int| 0 <= i < self.all_blocks().len() implies 0 < #[trigger] self.all_blocks()[i].len()
                    <= BLOCK_MAX by {
                    if i < self.blocks@.len() {
                        assert(self.all_blocks()[i] == self.blocks@[i]);
                    }
                }
            }
            assert(is_frame_of(self.level, self.input(), self.final_frame()));
        }
        let mut enc = self;
        if enc.state == EncState::Active {
            enc.start_frame();
            if enc.stage.len() > 0 {
                enc.emit_stage();
            }
            assert(enc.blocks@ == self.all_blocks());
            let ghost p0 = enc.pending@;
            assert(enc.sink.accepted() + p0.skip(enc.pos as int) == enc.base@ + header_bytes(
                VERSION_CURRENT,
                enc.level,
            ) + encode_blocks(enc.blocks@));
            enc.pending.push(TAG_END);
            enc.state = EncState::Finishing;
            proof {
                assert(enc.pos <= p0.len());
                assert(enc.sink.accepted() + enc.pending@.skip(enc.pos as int) =~= (enc.sink.accepted()
                    + p0.skip(enc.pos as int)) + seq![TAG_END]);
                assert(enc.base@ + enc.produced() =~= (enc.base@ + header_bytes(VERSION_CURRENT, enc.level)
                    + encode_blocks(enc.blocks@)) + seq![TAG_END]);
                assert(enc.pending@.skip(enc.pos as int) =~= p0.skip(enc.pos as int) + seq![TAG_END]);
                assert(enc.produced() =~= header_bytes(VERSION_CURRENT, enc.level) + encode_blocks(
                    enc.blocks@,
                ) + seq![TAG_END]);
                assert(flatten(enc.blocks@) + enc.stage@ =~= flatten(enc.blocks@));
                assert(enc.unsent().len() > 0);
            }
        } else if enc.state == EncState::Finished {
            enc.state = EncState::Finishing;
        }
        assert(enc.wf());
        assert(enc.final_frame() == self.final_frame());
        assert(enc.sink.accepted() == self.sink.accepted());
        assert(enc.sink.refusal() == self.sink.refusal());
        let ghost mid = enc;
        match enc.drain() {
            Ok(()) => {
                proof {
                    assert(enc.pending@.skip(enc.pos as int) =~= Seq::<u8>::empty());
                    let f = frame_bytes(VERSION_CURRENT, enc.level, enc.blocks@);
                    assert(enc.sink.accepted() =~= enc.base@ + f);
                    let a = self.sink.accepted();
                    assert(enc.sink.accepted() == a + mid.unsent());
                    assert(a =~= enc.sink.accepted().subrange(0, a.len() as int));
                }
                enc.state = EncState::Finished;
                Ok(enc.sink)
            },
            Err(e) => {
                Err((enc, e))
            },
        }
    }

    /// Ends the frame, retrying while the sink reports `WouldBlock` (at most
    /// `FINISH_ATTEMPTS` retries), and hands the sink back; the error of the
    /// last attempt is returned otherwise.
    pub fn finish(self) -> (r: Result<W, Error>)
        requires
            self.wf(),
        ensures
            r matches Ok(w) ==> w.accepted() == self.origin() + self.final_frame()
                && self.sink().accepted().is_prefix_of(w.accepted())
                && is_frame_of(self.level(), self.input(), self.final_frame()),
            r is Ok <==> (self.sink().refusal() is None || (self.state() != EncState::Active
                && self.unsent().len() == 0)),
            r matches Err(e) ==> self.sink().refusal() == Some(e),
    {
        let ghost first = self;
        let mut cur = self;
        let mut attempts: u64 = 0;
        loop
            invariant
                cur.wf(),
                first == self,
                cur.sink().accepted() == first.sink().accepted(),
                cur.sink().refusal() == first.sink().refusal(),
                cur.input() == first.input(),
                cur.origin() == first.origin(),
                cur.level() == first.level(),
                cur.final_frame() == first.final_frame(),
                attempts == 0 ==> cur.state() == first.state() && cur.unsent() == first.unsent(),
                attempts > 0 ==> cur.state() == EncState::Finishing && cur.unsent().len() > 0
                    && first.sink().refusal() is Some && !(first.state() != EncState::Active
                    && first.unsent().len() == 0),
            decreases FINISH_ATTEMPTS - attempts,
        {
            match cur.try_finish() {
                Ok(w) => {
                    return Ok(w);
                },
                Err((back, e)) => {
                    if !should_retry(&e, attempts) {
                        return Err(e);
                    }
                    cur = back;
                    attempts = attempts + 1;
                },
            }
        }
    }
}

/// Whether `finish` tries again after a failed attempt, `attempts` retries in.
pub fn should_retry(e: &Error, attempts: u64) -> (r: bool)
    ensures
        r == (e.kind == ErrorKind::WouldBlock && attempts < FINISH_ATTEMPTS),
{
    e.kind == ErrorKind::WouldBlock && attempts < FINISH_ATTEMPTS
}

/// Largest number of times `finish` retries while the sink keeps reporting
/// `WouldBlock`.
pub const FINISH_ATTEMPTS: u64 = 65536;

impl Encoder<ThrottledSink> {
    /// Changes how the owned sink treats the next writes; nothing already
    /// accepted or produced changes.
    pub fn set_sink_mode(&mut self, mode: SinkMode)
        requires
            old(self).wf(),
        ensures
            final(self).wf(),
            final(self).sink().accepted() == old(self).sink().accepted(),
            final(self).sink().refusal() == refusal_of(mode),
            final(self).state() == old(self).state(),
            final(self).input() == old(self).input(),
            final(self).origin() == old(self).origin(),
            final(self).level() == old(self).level(),
            final(self).final_frame() == old(self).final_frame(),
            final(self).unsent() == old(self).unsent(),
            final(self).staged() == old(self).staged(),
    {
        self.sink.set_mode(mode);
    }
}

} // verus!

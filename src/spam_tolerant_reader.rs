use crate::digits::{
    find_byte, first_index, lemma_first_index_absent, lemma_first_index_props,
    lemma_first_index_unique,
};
use vstd::prelude::*;

verus! {

/// Declares `std::io::ErrorKind`, so that the kind of a failed read can travel in
/// [ErrorKind]; nothing is assumed about its values.
#[verifier::external_type_specification]
#[verifier::external_body]
pub struct ExIoErrorKind(std::io::ErrorKind);

/// Why no chunk was returned.
#[derive(Debug, Clone, Copy, PartialEq, Eq)]
pub enum ErrorKind {
    /// The byte source failed to read.
    IOError(std::io::ErrorKind),
    /// The input is exhausted.
    EOFReached,
    /// A chunk and its delimiter would not fit the tolerance; the reader stays in
    /// this state.
    ToleranceExceeded,
}

/// What framing the remaining input gives.
pub enum Frame {
    /// A chunk, and how many bytes it takes from the input (its delimiter included).
    Chunk(Seq<u8>, nat),
    /// The input is empty.
    End,
    /// The first `n` bytes hold no delimiter, and more bytes follow them.
    Overlong,
}

/// The next frame of the input `s` under tolerance `n` and delimiter `d`: the bytes
/// before the first delimiter among the first `n` bytes (so that a chunk and its
/// delimiter fit in `n` bytes), or the whole input when it is no longer than `n` and
/// holds no delimiter.
pub open spec fn next_frame(s: Seq<u8>, n: nat, d: u8) -> Frame {
    let lim = if s.len() < n {
        s.len()
    } else {
        n
    };
    let k = first_index(s.take(lim as int), d);
    if s.len() == 0 {
        Frame::End
    } else if k < lim {
        Frame::Chunk(s.take(k), (k + 1) as nat)
    } else if s.len() <= n {
        Frame::Chunk(s, s.len())
    } else {
        Frame::Overlong
    }
}

/// What one step of the framer does.
#[derive(Debug, Clone, Copy, PartialEq, Eq, Structural)]
pub enum FrameStep {
    /// A chunk is complete: consume this many bytes of the block.
    Chunk { consumed: usize },
    /// The chunk goes on past the block: consume this many bytes and feed the next
    /// block.
    NeedMore { consumed: usize },
    /// The input was already exhausted.
    EndOfInput,
    /// The tolerance was exceeded; the framer is fused.
    Exceeded,
}

/// The state of a framer: the bytes gathered for the current chunk, whether a chunk
/// is under way, and whether the framer is fused.
pub struct FramerModel {
    pub aux: Seq<u8>,
    pub started: bool,
    pub fused: bool,
}

/// The state and step after feeding `block` to a framer in state `m`, with tolerance
/// `n` and delimiter `d`.
pub open spec fn feed_spec(m: FramerModel, n: nat, d: u8, block: Seq<u8>) -> (
    FramerModel,
    FrameStep,
) {
    let acc = if m.started {
        m.aux
    } else {
        seq![]
    };
    let room = n - acc.len();
    let lim = if block.len() < room {
        block.len() as int
    } else {
        room
    };
    let k = first_index(block.take(lim), d);
    if m.fused {
        (m, FrameStep::Exceeded)
    } else if !m.started && block.len() == 0 {
        (FramerModel { aux: acc, started: false, fused: false }, FrameStep::EndOfInput)
    } else if k < lim {
        (
            FramerModel { aux: acc + block.take(k), started: false, fused: false },
            FrameStep::Chunk { consumed: (k + 1) as usize },
        )
    } else if block.len() > room {
        (FramerModel { aux: acc, started: false, fused: true }, FrameStep::Exceeded)
    } else if block.len() == 0 {
        (FramerModel { aux: acc, started: false, fused: false }, FrameStep::Chunk { consumed: 0 })
    } else {
        (
            FramerModel { aux: acc + block, started: true, fused: false },
            FrameStep::NeedMore { consumed: block.len() as usize },
        )
    }
}

/// Splits a byte stream, fed block by block, into chunks ended by a delimiter, and
/// fuses when a chunk and its delimiter would take more than the tolerance of bytes.
pub struct ChunkFramer {
    aux: Vec<u8>,
    delim: u8,
    tolerance: usize,
    limit_tripped: bool,
    started: bool,
}

impl View for ChunkFramer {
    type V = FramerModel;

    closed spec fn view(&self) -> FramerModel {
        FramerModel { aux: self.aux@, started: self.started, fused: self.limit_tripped }
    }
}

impl ChunkFramer {
    /// The delimiter.
    pub closed spec fn spec_delim(&self) -> u8 {
        self.delim
    }

    /// The tolerance: the most bytes a chunk takes from the input, its delimiter
    /// included.
    pub closed spec fn spec_tolerance(&self) -> nat {
        self.tolerance as nat
    }

    /// The framer's invariant: a positive tolerance, and a chunk under way holds no
    /// delimiter and no more bytes than the tolerance.
    pub closed spec fn wf(&self) -> bool {
        &&& self.tolerance >= 1
        &&& self.started ==> self.aux@.len() <= self.tolerance
        &&& self.started ==> forall|i: int| 0 <= i < self.aux@.len() ==> self.aux@[i] != self.delim
    }

    /// A framer for chunks ended by `delim` that take at most `tolerance` bytes, the
    /// delimiter included.
    pub fn new(delim: u8, tolerance: usize) -> (r: ChunkFramer)
        requires
            tolerance >= 1,
        ensures
            r.wf(),
            r@ == (FramerModel { aux: seq![], started: false, fused: false }),
            r.spec_delim() == delim,
            r.spec_tolerance() == tolerance,
    {
        ChunkFramer { aux: Vec::new(), delim, tolerance, limit_tripped: false, started: false }
    }

    /// Whether the framer has fused.
    pub fn is_fused(&self) -> (r: bool)
        ensures
            r == self@.fused,
    {
        self.limit_tripped
    }

    /// The chunk gathered so far; complete once [ChunkFramer::feed] said so.
    pub fn chunk(&self) -> (r: &[u8])
        ensures
            r@ == self@.aux,
    {
        self.aux.as_slice()
    }

    /// Takes the next block of the input, which must begin where the bytes consumed
    /// so far end, and says how many of its bytes to consume and whether a chunk is
    /// complete. An empty block means the input is exhausted.
    pub fn feed(&mut self, block: &[u8]) -> (r: FrameStep)
        requires
            old(self).wf(),
        ensures
            final(self).wf(),
            final(self).spec_delim() == old(self).spec_delim(),
            final(self).spec_tolerance() == old(self).spec_tolerance(),
            (final(self)@, r) == feed_spec(
                old(self)@,
                old(self).spec_tolerance(),
                old(self).spec_delim(),
                block@,
            ),
    {
        if self.limit_tripped {
            return FrameStep::Exceeded;
        }
        if !self.started {
            self.aux.clear();
            if block.len() == 0 {
                return FrameStep::EndOfInput;
            }
        }
        let room = self.tolerance - self.aux.len();
        let lim = if block.len() <= room {
            block.len()
        } else {
            room
        };
        let k = find_byte(block, lim, self.delim);
        assert(block@.subrange(0, lim as int) =~= block@.take(lim as int));
        let ghost acc = self.aux@;
        if k < lim {
            self.aux.extend_from_slice(&block[0..k]);
            self.started = false;
            assert(block@.subrange(0, k as int) =~= block@.take(k as int));
            assert(self.aux@ =~= acc + block@.take(k as int));
            FrameStep::Chunk { consumed: k + 1 }
        } else if block.len() > room {
            self.limit_tripped = true;
            self.started = false;
            FrameStep::Exceeded
        } else if block.len() == 0 {
            self.started = false;
            FrameStep::Chunk { consumed: 0 }
        } else {
            let ghost before = self.aux@;
            self.aux.extend_from_slice(block);
            self.started = true;
            assert(self.aux@ =~= acc + block@);
            assert forall|i: int| 0 <= i < self.aux@.len() implies self.aux@[i] != self.delim by {
                if i >= before.len() {
                    assert(self.aux@[i] == block@[i - before.len()]);
                }
            }
            FrameStep::NeedMore { consumed: block.len() }
        }
    }
}

proof fn lemma_frame_found(s: Seq<u8>, n: nat, d: u8, j: int)
    requires
        0 <= j < s.len(),
        j < n,
        s[j] == d,
        forall|i: int| 0 <= i < j ==> s[i] != d,
    ensures
        next_frame(s, n, d) == Frame::Chunk(s.take(j), (j + 1) as nat),
{
    let lim = if s.len() < n {
        s.len()
    } else {
        n
    };
    lemma_first_index_unique(s.take(lim as int), d, j);
}

proof fn lemma_frame_short(s: Seq<u8>, n: nat, d: u8)
    requires
        0 < s.len() <= n,
        forall|i: int| 0 <= i < s.len() ==> s[i] != d,
    ensures
        next_frame(s, n, d) == Frame::Chunk(s, s.len()),
{
    lemma_first_index_absent(s.take(s.len() as int), d);
}

proof fn lemma_frame_overlong(s: Seq<u8>, n: nat, d: u8)
    requires
        s.len() > n,
        forall|i: int| 0 <= i < n ==> s[i] != d,
    ensures
        next_frame(s, n, d) == Frame::Overlong,
{
    lemma_first_index_absent(s.take(n as int), d);
}

/// Feeding a framer the input `s` block after block, as [ChunkFramer::feed] asks,
/// frames `s` as [next_frame] says. Given a framer that has taken the first `off`
/// bytes of `s` for the chunk under way (none when no chunk is under way), and the
/// next block of `s`, which is empty only at the end: a completed chunk is the frame
/// of `s` and takes `off` plus the bytes consumed of the block, the end of input and
/// a fuse come exactly when the frame says so, and otherwise the chunk under way
/// grows by what was consumed.
pub proof fn lemma_feed_frames(s: Seq<u8>, n: nat, d: u8, m: FramerModel, block: Seq<u8>, off: int)
    requires
        !m.fused,
        0 <= off,
        off + block.len() <= s.len(),
        block.len() <= usize::MAX,
        block == s.subrange(off, off + block.len()),
        block.len() == 0 ==> off == s.len(),
        m.started ==> m.aux == s.take(off) && off > 0 && m.aux.len() <= n,
        m.started ==> forall|i: int| 0 <= i < m.aux.len() ==> m.aux[i] != d,
        !m.started ==> off == 0,
    ensures
        ({
            let (m2, step) = feed_spec(m, n, d, block);
            match step {
                FrameStep::Chunk { consumed } => next_frame(s, n, d) == Frame::Chunk(
                    m2.aux,
                    (off + consumed) as nat,
                ),
                FrameStep::EndOfInput => next_frame(s, n, d) == Frame::End,
                FrameStep::Exceeded => next_frame(s, n, d) == Frame::Overlong,
                FrameStep::NeedMore { consumed } => m2.aux == s.take(off + consumed) && consumed > 0,
            }
        }),
{
    let acc = if m.started {
        m.aux
    } else {
        seq![]
    };
    let room = n - acc.len();
    let lim = if block.len() < room {
        block.len() as int
    } else {
        room as int
    };
    let k = first_index(block.take(lim), d);
    lemma_first_index_props(block.take(lim), d);
    assert(acc =~= s.take(off));
    let (m2, step) = feed_spec(m, n, d, block);
    if !m.started && block.len() == 0 {
        assert(s.len() == 0);
    } else if k < lim {
        let j = acc.len() + k;
        assert(acc.len() == off);
        assert forall|i: int| 0 <= i < j implies s[i] != d by {
            if i >= off {
                assert(block.take(lim)[i - off] == block[i - off]);
                assert(block[i - off] == s[i]);
            } else {
                assert(acc[i] == s[i]);
            }
        }
        assert(s[j] == block.take(lim)[k]);
        lemma_frame_found(s, n, d, j);
        assert(m2.aux =~= s.take(j));
    } else if block.len() > room {
        assert(acc.len() == off);
        assert forall|i: int| 0 <= i < n implies s[i] != d by {
            if i >= off {
                assert(block.take(lim)[i - off] == block[i - off]);
                assert(block[i - off] == s[i]);
            } else {
                assert(acc[i] == s[i]);
            }
        }
        lemma_frame_overlong(s, n, d);
    } else if block.len() == 0 {
        assert(s =~= acc);
        lemma_frame_short(s, n, d);
    } else {
        assert(m2.aux =~= s.take(off + block.len()));
    }
}

/// The chunks that successive calls of a fresh reader of `s` return, over at most `k`
/// calls and up to the first failure, and how many bytes those calls consumed.
pub open spec fn frames_from(s: Seq<u8>, n: nat, d: u8, k: nat) -> (Seq<Seq<u8>>, nat)
    decreases k,
{
    if k == 0 {
        (seq![], 0)
    } else {
        let (cs, p) = frames_from(s, n, d, (k - 1) as nat);
        match next_frame(s.skip(p as int), n, d) {
            Frame::Chunk(c, used) => (cs.push(c), p + used),
            _ => (cs, p),
        }
    }
}

/// The chunks `cs` with the delimiter `d` between each two.
pub open spec fn joined(cs: Seq<Seq<u8>>, d: u8) -> Seq<u8>
    decreases cs.len(),
{
    if cs.len() == 0 {
        seq![]
    } else if cs.len() == 1 {
        cs[0]
    } else {
        joined(cs.drop_last(), d).push(d) + cs.last()
    }
}

/// A chunk holds no delimiter, and takes from the input either itself and the
/// delimiter after it, or the whole (nonempty) input.
pub proof fn lemma_next_frame_chunk(r: Seq<u8>, n: nat, d: u8)
    requires
        next_frame(r, n, d) is Chunk,
    ensures
        ({
            let (c, used) = (next_frame(r, n, d)->Chunk_0, next_frame(r, n, d)->Chunk_1);
            &&& used <= r.len()
            &&& forall|i: int| 0 <= i < c.len() ==> c[i] != d
            &&& (r.take(used as int) == c.push(d) || (c == r && used == r.len() && r.len() > 0))
        }),
{
    let lim = if r.len() < n {
        r.len()
    } else {
        n
    };
    let t = r.take(lim as int);
    lemma_first_index_props(t, d);
    let k = first_index(t, d);
    if k < lim {
        assert(r.take(k + 1) =~= r.take(k).push(d));
        assert forall|i: int| 0 <= i < k implies r.take(k)[i] != d by {
            assert(t[i] == r[i]);
        }
    } else if r.len() > 0 && r.len() <= n {
        assert forall|i: int| 0 <= i < r.len() implies r[i] != d by {
            assert(t[i] == r[i]);
        }
    }
}

/// Successive calls of a fresh reader return chunks that, joined with the delimiter
/// between them, are a prefix of the input; the bytes consumed are those chunks with
/// their delimiters. When a call then fails, it says `EOFReached` exactly when the
/// whole input was consumed, and `ToleranceExceeded` only when more bytes than the
/// tolerance remain.
pub proof fn lemma_framing(s: Seq<u8>, n: nat, d: u8, k: nat)
    ensures
        ({
            let (cs, p) = frames_from(s, n, d, k);
            let rest = next_frame(s.skip(p as int), n, d);
            &&& p <= s.len()
            &&& joined(cs, d).len() <= s.len()
            &&& s.take(joined(cs, d).len() as int) == joined(cs, d)
            &&& s.take(p as int) == joined(cs, d) || s.take(p as int) == joined(cs, d).push(d)
            &&& (rest is End <==> p == s.len())
            &&& (rest is Overlong ==> s.len() - p > n)
        }),
{
    lemma_framing_steps(s, n, d, k);
    let (cs, p) = frames_from(s, n, d, k);
    let j = joined(cs, d);
    if s.take(p as int) == j.push(d) {
        assert(s.take(j.len() as int) =~= s.take(p as int).take(j.len() as int));
        assert(j.push(d).take(j.len() as int) =~= j);
    }
}

proof fn lemma_framing_steps(s: Seq<u8>, n: nat, d: u8, k: nat)
    ensures
        ({
            let (cs, p) = frames_from(s, n, d, k);
            &&& p <= s.len()
            &&& cs.len() == 0 ==> p == 0
            &&& (cs.len() > 0 && s.take(p as int) == joined(cs, d).push(d)) || (s.take(p as int)
                == joined(cs, d) && (cs.len() == 0 || p == s.len()))
        }),
    decreases k,
{
    if k > 0 {
        lemma_framing_steps(s, n, d, (k - 1) as nat);
        let (cs, p) = frames_from(s, n, d, (k - 1) as nat);
        let r = s.skip(p as int);
        if next_frame(r, n, d) is Chunk {
            lemma_next_frame_chunk(r, n, d);
            let (c, used) = (next_frame(r, n, d)->Chunk_0, next_frame(r, n, d)->Chunk_1);
            let cs2 = cs.push(c);
            let p2 = p + used;
            assert(r.len() > 0);
            assert(cs2.drop_last() =~= cs);
            assert(s.take(p2 as int) =~= s.take(p as int) + r.take(used as int));
            if cs.len() == 0 {
                assert(joined(cs2, d) == c);
                assert(s.take(p as int) =~= seq![]);
            } else {
                assert(joined(cs2, d) == joined(cs, d).push(d) + c);
            }
            if r.take(used as int) == c.push(d) {
                assert(s.take(p2 as int) =~= joined(cs2, d).push(d));
            } else {
                assert(s.take(p2 as int) =~= joined(cs2, d));
            }
        }
    } else {
        assert(s.take(0) =~= seq![]);
    }
}

/// The state of a reader over an input held in memory: the input, how much of it
/// was consumed, and whether the reader is fused.
pub struct ReaderModel {
    pub input: Seq<u8>,
    pub pos: nat,
    pub fused: bool,
}

/// Reads delimiter-separated chunks from bytes in memory, a block at a time, through
/// a [ChunkFramer].
pub struct SpamTolerantReader<'a> {
    reader: &'a [u8],
    pos: usize,
    block_len: usize,
    framer: ChunkFramer,
}

impl<'a> View for SpamTolerantReader<'a> {
    type V = ReaderModel;

    closed spec fn view(&self) -> ReaderModel {
        ReaderModel { input: self.reader@, pos: self.pos as nat, fused: self.framer@.fused }
    }
}

impl<'a> SpamTolerantReader<'a> {
    /// The delimiter.
    pub closed spec fn spec_delim(&self) -> u8 {
        self.framer.spec_delim()
    }

    /// The tolerance: the most bytes a chunk takes from the input, its delimiter
    /// included.
    pub closed spec fn spec_tolerance(&self) -> nat {
        self.framer.spec_tolerance()
    }

    /// The reader's invariant: its framer's holds and no chunk is under way between
    /// calls.
    pub closed spec fn wf(&self) -> bool {
        &&& self@.pos <= self@.input.len()
        &&& self.framer.wf()
        &&& !self.framer@.started
        &&& self.pos <= self.reader@.len()
        &&& self.block_len >= 1
    }

    /// A reader of `reader` for chunks ended by `delim` that take at most `tolerance`
    /// bytes, the delimiter included.
    pub fn new(reader: &'a [u8], delim: u8, tolerance: usize) -> (r: SpamTolerantReader<'a>)
        requires
            tolerance >= 1,
        ensures
            r.wf(),
            r@ == (ReaderModel { input: reader@, pos: 0, fused: false }),
            r@.pos <= r@.input.len(),
            r.spec_delim() == delim,
            r.spec_tolerance() == tolerance,
    {
        SpamTolerantReader::with_block_len(reader, delim, tolerance, 8192)
    }

    /// As [SpamTolerantReader::new], handing the input to the framer in blocks of at
    /// most `block_len` bytes.
    pub fn with_block_len(reader: &'a [u8], delim: u8, tolerance: usize, block_len: usize) -> (r:
        SpamTolerantReader<'a>)
        requires
            tolerance >= 1,
            block_len >= 1,
        ensures
            r.wf(),
            r@ == (ReaderModel { input: reader@, pos: 0, fused: false }),
            r@.pos <= r@.input.len(),
            r.spec_delim() == delim,
            r.spec_tolerance() == tolerance,
    {
        SpamTolerantReader { reader, pos: 0, block_len, framer: ChunkFramer::new(delim, tolerance) }
    }

    /// A copy of the next chunk: the bytes up to the next delimiter, which is consumed
    /// too, or up to the end of the input. Fails with `EOFReached` when nothing is
    /// left, and with `ToleranceExceeded` when the chunk and its delimiter would not
    /// fit the tolerance, and on every call after that.
    pub fn get_next(&mut self) -> (r: Result<Vec<u8>, ErrorKind>)
        requires
            old(self).wf(),
        ensures
            final(self).wf(),
            final(self).spec_delim() == old(self).spec_delim(),
            final(self).spec_tolerance() == old(self).spec_tolerance(),
            final(self)@.input == old(self)@.input,
            final(self)@.pos <= final(self)@.input.len(),
            old(self)@.fused ==> (r matches Err(ErrorKind::ToleranceExceeded)) && final(self)@
                == old(self)@,
            !old(self)@.fused ==> match next_frame(
                old(self)@.input.skip(old(self)@.pos as int),
                old(self).spec_tolerance(),
                old(self).spec_delim(),
            ) {
                Frame::End => (r matches Err(ErrorKind::EOFReached)) && final(self)@ == old(self)@,
                Frame::Chunk(c, used) => {
                    &&& r is Ok
                    &&& r->Ok_0@ == c
                    &&& final(self)@.pos == old(self)@.pos + used
                    &&& !final(self)@.fused
                },
                Frame::Overlong => (r matches Err(ErrorKind::ToleranceExceeded)) && final(self)@.fused,
            },
    {
        if self.framer.is_fused() {
            return Err(ErrorKind::ToleranceExceeded);
        }
        let ghost pos0 = self.pos as int;
        let ghost s = self.reader@.skip(pos0);
        let ghost n = self.framer.spec_tolerance();
        let ghost d = self.framer.spec_delim();
        loop
            invariant
                self.framer.wf(),
                self.framer.spec_tolerance() == n,
                self.framer.spec_delim() == d,
                n == old(self).framer.spec_tolerance(),
                !old(self).framer@.fused,
                d == old(self).framer.spec_delim(),
                self.reader@ == old(self).reader@,
                self.block_len == old(self).block_len,
                self.block_len >= 1,
                s == self.reader@.skip(pos0),
                pos0 == old(self).pos,
                pos0 <= self.pos <= self.reader@.len(),
                !self.framer@.fused,
                self.framer@.started ==> self.framer@.aux == self.reader@.subrange(
                    pos0,
                    self.pos as int,
                ),
                !self.framer@.started ==> self.pos == pos0,
                self.framer@.started ==> self.pos > pos0,
            decreases self.reader@.len() - self.pos,
        {
            let end = if self.reader.len() - self.pos < self.block_len {
                self.reader.len()
            } else {
                self.pos + self.block_len
            };
            let block = &self.reader[self.pos..end];
            let ghost m = self.framer@;
            let ghost off = self.pos - pos0;
            proof {
                assert(block@ =~= s.subrange(off, off + block@.len()));
                if m.started {
                    assert(m.aux =~= s.take(off));
                }
                lemma_feed_frames(s, n, d, m, block@, off);
            }
            let step = self.framer.feed(block);
            match step {
                FrameStep::Chunk { consumed } => {
                    self.pos = self.pos + consumed;
                    let mut chunk: Vec<u8> = Vec::new();
                    chunk.extend_from_slice(self.framer.chunk());
                    return Ok(chunk);
                },
                FrameStep::NeedMore { consumed } => {
                    self.pos = self.pos + consumed;
                    proof {
                        assert(self.framer@.aux =~= self.reader@.subrange(pos0, self.pos as int));
                    }
                },
                FrameStep::EndOfInput => {
                    return Err(ErrorKind::EOFReached);
                },
                FrameStep::Exceeded => {
                    return Err(ErrorKind::ToleranceExceeded);
                },
            }
        }
    }
}

} // verus!

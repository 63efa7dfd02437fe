//! Splits a byte stream into lines: carriage returns are dropped, an empty
//! line is not emitted, and a line that reaches `MAX_CHUNK` bytes is emitted
//! at that length without waiting for its newline.
use vstd::prelude::*;
use crate::format::push_all;

verus! {

/// The longest line fragment held before it is emitted.
pub const MAX_CHUNK: usize = 4096;

pub const NEWLINE: u8 = 10;

pub const CARRIAGE_RETURN: u8 = 13;

/// One byte of input applied to the pending bytes `buf`: the new pending
/// bytes, and the line that the byte completes, if any.
pub open spec fn step(buf: Seq<u8>, b: u8) -> (Seq<u8>, Option<Seq<u8>>) {
    if b == CARRIAGE_RETURN {
        (buf, None)
    } else if b == NEWLINE {
        if buf.len() == 0 {
            (buf, None)
        } else {
            (Seq::empty(), Some(buf))
        }
    } else if buf.len() + 1 >= MAX_CHUNK {
        (Seq::empty(), Some(buf.push(b)))
    } else {
        (buf.push(b), None)
    }
}

pub open spec fn emitted(e: Option<Seq<u8>>) -> Seq<Seq<u8>> {
    match e {
        Some(l) => seq![l],
        None => Seq::empty(),
    }
}

/// Bytes `bs` applied in order to the pending bytes `buf`: the pending bytes
/// left, and the lines completed, in order.
pub open spec fn run(buf: Seq<u8>, bs: Seq<u8>) -> (Seq<u8>, Seq<Seq<u8>>)
    decreases bs.len(),
{
    if bs.len() == 0 {
        (buf, Seq::empty())
    } else {
        let (mid, lines) = run(buf, bs.drop_last());
        let (next, e) = step(mid, bs.last());
        (next, lines + emitted(e))
    }
}

/// The lines of a whole stream: those its bytes complete, then what is
/// still pending when it ends, if anything is.
pub open spec fn stream_lines(bs: Seq<u8>) -> Seq<Seq<u8>> {
    let (rest, lines) = run(Seq::empty(), bs);
    if rest.len() == 0 {
        lines
    } else {
        lines.push(rest)
    }
}

/// The bytes of an emitted line.
pub open spec fn line_view(r: Option<Vec<u8>>) -> Option<Seq<u8>> {
    match r {
        Some(v) => Some(v@),
        None => None,
    }
}

/// Holds the bytes of the line being read.
pub struct LineAccumulator {
    buf: Vec<u8>,
}

impl View for LineAccumulator {
    type V = Seq<u8>;

    closed spec fn view(&self) -> Seq<u8> {
        self.buf@
    }
}

impl LineAccumulator {
    /// Pending bytes never reach the chunk size and hold no line ending.
    pub open spec fn wf(&self) -> bool {
        pending_ok(self@)
    }

    pub fn new() -> (r: LineAccumulator)
        ensures
            r.wf(),
            r@ == Seq::<u8>::empty(),
    {
        LineAccumulator { buf: Vec::new() }
    }

    /// The bytes of the line read so far.
    pub fn pending(&self) -> (r: &[u8])
        ensures
            r@ == self@,
    {
        self.buf.as_slice()
    }

    /// Takes one byte; returns the line that it completes.
    pub fn feed(&mut self, b: u8) -> (r: Option<Vec<u8>>)
        requires
            old(self).wf(),
        ensures
            final(self).wf(),
            (final(self)@, line_view(r)) == step(old(self)@, b),
    {
        if b == CARRIAGE_RETURN {
            None
        } else if b == NEWLINE {
            if self.buf.len() == 0 {
                None
            } else {
                Some(self.take())
            }
        } else {
            self.buf.push(b);
            if self.buf.len() >= MAX_CHUNK {
                Some(self.take())
            } else {
                None
            }
        }
    }

    /// Copies the pending bytes out and clears the buffer, which keeps its
    /// allocation.
    fn take(&mut self) -> (r: Vec<u8>)
        ensures
            r@ == old(self)@,
            final(self)@ == Seq::<u8>::empty(),
    {
        let mut line: Vec<u8> = Vec::new();
        push_all(&mut line, self.buf.as_slice());
        self.buf.clear();
        line
    }

    /// Takes a run of bytes; returns the lines that they complete, in order.
    pub fn feed_all(&mut self, bs: &[u8]) -> (r: Vec<Vec<u8>>)
        requires
            old(self).wf(),
        ensures
            final(self).wf(),
            (final(self)@, r@.map_values(|v: Vec<u8>| v@)) == run(old(self)@, bs@),
    {
        let mut out: Vec<Vec<u8>> = Vec::new();
        let mut i: usize = 0;
        while i < bs.len()
            invariant
                self.wf(),
                0 <= i <= bs@.len(),
                (self@, out@.map_values(|v: Vec<u8>| v@)) == run(old(self)@, bs@.subrange(0, i as int)),
            decreases bs@.len() - i,
        {
            proof {
                assert(bs@.subrange(0, i as int + 1).drop_last() =~= bs@.subrange(0, i as int));
            }
            let ghost before = out@.map_values(|v: Vec<u8>| v@);
            match self.feed(bs[i]) {
                Some(line) => {
                    out.push(line);
                    assert(out@.map_values(|v: Vec<u8>| v@) =~= before + emitted(Some(out@.last()@)));
                },
                None => {
                    assert(out@.map_values(|v: Vec<u8>| v@) =~= before + emitted(None));
                },
            }
            i = i + 1;
        }
        assert(bs@.subrange(0, bs@.len() as int) =~= bs@);
        out
    }

    /// The end of the stream: returns what is pending, if anything is.
    pub fn finish(&mut self) -> (r: Option<Vec<u8>>)
        requires
            old(self).wf(),
        ensures
            final(self).wf(),
            final(self)@ == Seq::<u8>::empty(),
            line_view(r) == (if old(self)@.len() == 0 {
                None
            } else {
                Some(old(self)@)
            }),
    {
        if self.buf.len() == 0 {
            None
        } else {
            Some(self.take())
        }
    }
}

pub open spec fn pending_ok(buf: Seq<u8>) -> bool {
    &&& buf.len() < MAX_CHUNK
    &&& forall|i: int| 0 <= i < buf.len() ==> #[trigger] buf[i] != NEWLINE && buf[i] != CARRIAGE_RETURN
}

/// Splits a whole stream into its lines, the pending bytes at its end
/// included.
pub fn split_lines(bs: &[u8]) -> (r: Vec<Vec<u8>>)
    ensures
        r@.map_values(|v: Vec<u8>| v@) == stream_lines(bs@),
{
    let mut acc = LineAccumulator::new();
    let mut out = acc.feed_all(bs);
    let ghost lines = out@.map_values(|v: Vec<u8>| v@);
    match acc.finish() {
        Some(rest) => {
            out.push(rest);
            assert(out@.map_values(|v: Vec<u8>| v@) =~= lines.push(out@.last()@));
        },
        None => {},
    }
    out
}

/// The bytes of a stream that lines carry: all but carriage returns and
/// newlines.
pub open spec fn content(bs: Seq<u8>) -> Seq<u8>
    decreases bs.len(),
{
    if bs.len() == 0 {
        Seq::empty()
    } else if bs.last() == NEWLINE || bs.last() == CARRIAGE_RETURN {
        content(bs.drop_last())
    } else {
        content(bs.drop_last()).push(bs.last())
    }
}

/// Lines joined back together, without separators.
pub open spec fn concat(ls: Seq<Seq<u8>>) -> Seq<u8>
    decreases ls.len(),
{
    if ls.len() == 0 {
        Seq::empty()
    } else {
        concat(ls.drop_last()) + ls.last()
    }
}

/// A line as it is emitted: not empty, at most `MAX_CHUNK` bytes, no
/// carriage return or newline in it.
pub open spec fn clean_line(l: Seq<u8>) -> bool {
    &&& 0 < l.len() <= MAX_CHUNK
    &&& forall|i: int| 0 <= i < l.len() ==> #[trigger] l[i] != NEWLINE && l[i] != CARRIAGE_RETURN
}

/// Reading a stream loses and repeats no byte of content: the lines it
/// completes, followed by what is still pending, are the bytes that were
/// pending before, followed by the content of the stream. Every line is
/// clean, and the pending bytes stay below the chunk size.
pub proof fn lemma_run_keeps_content(buf: Seq<u8>, bs: Seq<u8>)
    requires
        pending_ok(buf),
    ensures
        concat(run(buf, bs).1) + run(buf, bs).0 == buf + content(bs),
        pending_ok(run(buf, bs).0),
        forall|j: int| 0 <= j < run(buf, bs).1.len() ==> clean_line(#[trigger] run(buf, bs).1[j]),
    decreases bs.len(),
{
    if bs.len() == 0 {
        assert(concat(Seq::<Seq<u8>>::empty()) + buf =~= buf + content(bs));
    } else {
        let prev = bs.drop_last();
        lemma_run_keeps_content(buf, prev);
        let (mid, ls) = run(buf, prev);
        let b = bs.last();
        let (next, e) = step(mid, b);
        let out = ls + emitted(e);
        assert(run(buf, bs) == (next, out));
        match e {
            Some(l) => {
                assert(out.drop_last() =~= ls);
                assert(concat(out) == concat(ls) + l);
            },
            None => {
                assert(out =~= ls);
            },
        }
        if b == CARRIAGE_RETURN || (b == NEWLINE && mid.len() == 0) {
        } else if b == NEWLINE {
            assert(concat(ls) + mid + Seq::<u8>::empty() =~= concat(ls) + mid);
        } else {
            assert(concat(ls) + mid.push(b) =~= (concat(ls) + mid).push(b));
            assert((buf + content(prev)).push(b) =~= buf + content(prev).push(b));
            if mid.len() + 1 >= MAX_CHUNK {
                assert(concat(ls) + mid.push(b) + Seq::<u8>::empty() =~= concat(ls) + mid.push(b));
            }
        }
        assert forall|j: int| 0 <= j < out.len() implies clean_line(#[trigger] out[j]) by {
            if j < ls.len() {
                assert(out[j] == ls[j]);
            }
        }
    }
}

} // verus!

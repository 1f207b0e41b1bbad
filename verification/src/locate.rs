//! Finding where the last lines of a source begin by walking back from its end.
//!
//! The walk reads one byte at a time, from the last byte towards the first, and
//! stops as soon as the wanted number of lines lies behind it. It never looks at
//! the part of the source in front of that point, so its cost follows the length of
//! the lines asked for, not the length of the source.
//!
//! [`TailScan`] holds the walk as a state machine for a caller that has to seek and
//! read each byte itself; [`locate_tail_start`] runs it over bytes held in memory.

use vstd::prelude::*;
use crate::lines::{
    lemma_line_count_prepend, lemma_lines_concat, lemma_lines_shape,
    lemma_tail_start_after_break, lemma_tail_start_is_after_break, line_count, tail_start,
    NEWLINE,
};

verus! {

/// What the caller of a [`TailScan`] does next.
#[derive(Clone, Copy, Debug, PartialEq, Eq, Structural)]
pub enum ScanStep {
    /// Read the byte at this offset and hand it to [`TailScan::feed`].
    Read(u64),
    /// The walk is over: the wanted lines run from this offset to the end.
    Done(u64),
}

/// A backward walk over a source of known size, looking for the start of its last
/// lines.
pub struct TailScan {
    size: u64,
    wanted: i32,
    pos: u64,
    remaining: i32,
    seen: Ghost<Seq<u8>>,
}

/// The number of breaks in `x` that have a byte after them.
spec fn inner_breaks(x: Seq<u8>) -> int {
    if x.len() == 0 {
        0
    } else {
        line_count(x) - 1
    }
}

impl TailScan {
    /// The length of the source in bytes.
    pub closed spec fn size(&self) -> int {
        self.size as int
    }

    /// The number of lines asked for.
    pub closed spec fn wanted(&self) -> int {
        self.wanted as int
    }

    /// The bytes handed over so far, in the order of the source: its end piece.
    pub closed spec fn seen(&self) -> Seq<u8> {
        self.seen@
    }

    /// The walk's counters agree with the bytes it has seen.
    pub closed spec fn wf(&self) -> bool {
        &&& self.seen@.len() + self.pos == self.size
        &&& self.wanted > 0 ==> {
            &&& 0 <= self.remaining <= self.wanted
            &&& self.wanted - self.remaining == inner_breaks(self.seen@)
            &&& self.remaining == 0 ==> self.seen@.len() >= 2 && self.seen@[0] == NEWLINE
        }
    }

    /// True when the bytes seen are the end piece of `s`, a source of the walk's
    /// size.
    pub open spec fn follows(&self, s: Seq<u8>) -> bool {
        &&& s.len() == self.size()
        &&& self.seen().len() <= s.len()
        &&& s.skip(s.len() - self.seen().len()) == self.seen()
    }

    /// True when the byte seen last is a break with exactly the wanted number of
    /// lines after it.
    pub open spec fn found(&self) -> bool {
        &&& self.seen().len() >= 2
        &&& self.seen()[0] == NEWLINE
        &&& line_count(self.seen().skip(1)) == self.wanted()
    }

    /// The next step of the walk, as the bytes seen so far decide it.
    pub open spec fn decision(&self) -> ScanStep {
        if self.wanted() <= 0 {
            ScanStep::Done(self.size() as u64)
        } else if self.found() {
            ScanStep::Done((self.size() - self.seen().len() + 1) as u64)
        } else if self.seen().len() == self.size() {
            ScanStep::Done(0)
        } else {
            ScanStep::Read((self.size() - self.seen().len() - 1) as u64)
        }
    }

    /// Starts a walk over a source of `size` bytes for its last `n` lines.
    pub fn new(size: u64, n: i32) -> (scan: TailScan)
        ensures
            scan.wf(),
            scan.size() == size,
            scan.wanted() == n,
            scan.seen() == Seq::<u8>::empty(),
    {
        TailScan { size, wanted: n, pos: size, remaining: n, seen: Ghost(Seq::empty()) }
    }

    /// Says what to do next: read one more byte, or stop with the offset found.
    pub fn step(&self) -> (next: ScanStep)
        requires
            self.wf(),
        ensures
            next == self.decision(),
    {
        proof {
            if self.wanted > 0 {
                self.lemma_found_iff_none_remaining();
            }
        }
        if self.wanted <= 0 {
            ScanStep::Done(self.size)
        } else if self.remaining == 0 {
            ScanStep::Done(self.pos + 1)
        } else if self.pos == 0 {
            ScanStep::Done(0)
        } else {
            ScanStep::Read(self.pos - 1)
        }
    }

    /// Takes the byte that [`TailScan::step`] asked for.
    pub fn feed(&mut self, byte: u8)
        requires
            old(self).wf(),
            old(self).decision() is Read,
        ensures
            final(self).wf(),
            final(self).size() == old(self).size(),
            final(self).wanted() == old(self).wanted(),
            final(self).seen() == seq![byte] + old(self).seen(),
    {
        proof {
            if self.wanted > 0 {
                self.lemma_found_iff_none_remaining();
            }
            lemma_line_count_prepend(byte, self.seen@);
        }
        let behind = self.size - self.pos;
        self.pos = self.pos - 1;
        if byte == NEWLINE && behind > 0 {
            self.remaining = self.remaining - 1;
        }
        self.seen = Ghost(seq![byte] + self.seen@);
    }

    /// While lines are wanted, the walk has found its break exactly when none
    /// remains to be found.
    proof fn lemma_found_iff_none_remaining(&self)
        requires
            self.wf(),
            self.wanted > 0,
        ensures
            self.found() <==> self.remaining == 0,
    {
        let seen = self.seen@;
        if seen.len() >= 2 && seen[0] == NEWLINE {
            assert(seen =~= seq![seen[0]] + seen.skip(1));
            lemma_line_count_prepend(seen[0], seen.skip(1));
        }
    }

    /// The offset at which a walk stops is where the last wanted lines begin, in every
    /// source of which the walk has seen the end piece.
    pub proof fn lemma_done_at_tail_start(&self, s: Seq<u8>)
        requires
            self.wf(),
            self.follows(s),
            self.decision() is Done,
        ensures
            self.decision()->Done_0 == tail_start(s, self.wanted()),
    {
        let seen = self.seen@;
        if self.wanted > 0 {
            self.lemma_found_iff_none_remaining();
            if self.found() {
                let p = s.len() - seen.len() + 1;
                assert(s.skip(p) =~= seen.skip(1));
                lemma_tail_start_after_break(s, p, self.wanted as int);
            } else {
                assert(s.skip(0) =~= s);
            }
        }
    }

    /// A walk asks for no byte in front of the break that closes the line before the
    /// wanted ones: what it reads is the wanted lines and that one break.
    pub proof fn lemma_reads_stay_near_tail(&self, s: Seq<u8>)
        requires
            self.wf(),
            self.follows(s),
            self.decision() is Read,
        ensures
            self.decision()->Read_0 + 1 >= tail_start(s, self.wanted()),
    {
        let seen = self.seen@;
        let n = self.wanted as int;
        let pos = s.len() - seen.len();
        if n < line_count(s) {
            lemma_tail_start_is_after_break(s, n);
            let t = tail_start(s, n);
            if t > pos {
                let mid = s.subrange(pos, t);
                assert(seen =~= mid + s.skip(t));
                lemma_lines_concat(mid, s.skip(t));
                lemma_lines_shape(mid);
                self.lemma_found_iff_none_remaining();
            }
        }
    }
}

/// Finds the offset in `source` at which its last `n` lines begin: its length for
/// `n <= 0`, zero when it has no more than `n` lines.
pub fn locate_tail_start(source: &[u8], n: i32) -> (offset: usize)
    ensures
        offset == tail_start(source@, n as int),
{
    let len = source.len();
    let mut scan = TailScan::new(len as u64, n);
    assert(source@.skip(source@.len() as int) =~= Seq::<u8>::empty());
    loop
        invariant
            scan.wf(),
            scan.follows(source@),
            scan.wanted() == n,
            len == source@.len(),
        decreases len - scan.seen().len(),
    {
        match scan.step() {
            ScanStep::Read(at) => {
                let ghost before = scan.seen();
                scan.feed(source[at as usize]);
                assert(source@.skip(at as int) =~= seq![source@[at as int]] + before);
            },
            ScanStep::Done(at) => {
                proof {
                    scan.lemma_done_at_tail_start(source@);
                }
                return at as usize;
            },
        }
    }
}

} // verus!

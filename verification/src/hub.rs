//! Replay history for the broadcast hub.
//!
//! The broadcast hub fans lines from its input out to every connected
//! receiver. With a history depth configured it also keeps the last lines
//! in a bounded FIFO buffer and replays them, in order, to every newly
//! accepted connection before live delivery starts. The buffer logic is
//! here; sockets and channels belong to the unverified shell.

use vstd::prelude::*;

verus! {

/// The suffix of `lines` a buffer of depth `cap` retains.
pub open spec fn hist_suffix(lines: Seq<Seq<u8>>, cap: int) -> Seq<Seq<u8>> {
    if lines.len() <= cap {
        lines
    } else {
        lines.skip(lines.len() - cap)
    }
}

/// One push into a bounded FIFO: append, then trim the oldest line when
/// the depth is exceeded.
pub open spec fn hist_push(buf: Seq<Seq<u8>>, cap: int, line: Seq<u8>) -> Seq<Seq<u8>> {
    if buf.len() + 1 <= cap {
        buf.push(line)
    } else {
        buf.push(line).skip(1)
    }
}

/// The buffer contents after pushing every line of `lines`, in order,
/// into an empty buffer of depth `cap`.
pub open spec fn hist_after(lines: Seq<Seq<u8>>, cap: int) -> Seq<Seq<u8>>
    decreases lines.len(),
{
    if lines.len() == 0 {
        Seq::empty()
    } else {
        hist_push(hist_after(lines.drop_last(), cap), cap, lines.last())
    }
}

/// Broadcast history law: after any sequence of producer lines, the
/// buffer holds exactly the most recent `cap` of them (all of them while
/// fewer), in producer order. A receiver accepted now is replayed exactly
/// this suffix first.
pub proof fn lemma_history_is_recent_suffix(lines: Seq<Seq<u8>>, cap: int)
    requires
        cap >= 1,
    ensures
        hist_after(lines, cap) == hist_suffix(lines, cap),
    decreases lines.len(),
{
    if lines.len() == 0 {
    } else {
        let n = lines.len() as int;
        let dl = lines.drop_last();
        lemma_history_is_recent_suffix(dl, cap);
        let prev = hist_suffix(dl, cap);
        if n <= cap {
            assert(prev.push(lines.last()) =~= lines);
        } else if n == cap + 1 {
            assert(prev.push(lines.last()) =~= lines);
            assert(lines.skip(1) =~= hist_suffix(lines, cap));
        } else {
            assert(prev =~= dl.skip(n - 1 - cap));
            assert(prev.push(lines.last()) =~= lines.skip(n - 1 - cap));
            assert(prev.len() == cap);
            assert(lines.skip(n - 1 - cap).skip(1) =~= lines.skip(n - cap));
        }
    }
}

/// The bounded FIFO of the most recent broadcast lines.
pub struct History {
    cap: usize,
    buf: Vec<Vec<u8>>,
}

impl View for History {
    type V = Seq<Seq<u8>>;

    closed spec fn view(&self) -> Seq<Seq<u8>> {
        self.buf.deep_view()
    }
}

impl History {
    /// The configured depth.
    pub closed spec fn cap(&self) -> int {
        self.cap as int
    }

    /// The buffer never holds more than `cap` lines.
    pub open spec fn wf(&self) -> bool {
        &&& self.cap() >= 1
        &&& self@.len() <= self.cap()
    }

    /// An empty buffer of depth `cap`. A depth of zero disables history;
    /// the shell then never builds a buffer at all.
    pub fn new(cap: usize) -> (r: History)
        requires
            cap >= 1,
        ensures
            r.wf(),
            r.cap() == cap,
            r@ =~= Seq::<Seq<u8>>::empty(),
    {
        History { cap, buf: Vec::new() }
    }

    /// Record one line the producer wrote, trimming the oldest line when
    /// the buffer is full.
    pub fn push(&mut self, line: &Vec<u8>) -> (dropped: bool)
        requires
            old(self).wf(),
        ensures
            final(self).wf(),
            final(self).cap() == old(self).cap(),
            final(self)@ == hist_push(old(self)@, old(self).cap(), line@),
            dropped <==> old(self)@.len() + 1 > old(self).cap(),
    {
        let ghost pre = self@;
        let c = line.clone();
        proof {
            assert(c@ == line@);
        }
        self.buf.push(c);
        proof {
            assert(self.buf.deep_view() =~~= pre.push(line@));
        }
        if self.buf.len() > self.cap {
            let ghost grown = self@;
            self.buf.remove(0);
            proof {
                assert(self.buf.deep_view() =~~= grown.skip(1));
            }
            true
        } else {
            false
        }
    }

    /// The lines to replay to a freshly accepted receiver, oldest first.
    pub fn replay(&self) -> (r: Vec<Vec<u8>>)
        ensures
            r.deep_view() == self@,
    {
        let mut out: Vec<Vec<u8>> = Vec::new();
        let n = self.buf.len();
        let mut i: usize = 0;
        while i < n
            invariant
                0 <= i <= n,
                n == self.buf@.len(),
                out.deep_view() =~~= self.buf.deep_view().take(i as int),
            decreases n - i,
        {
            let ghost pre = out.deep_view();
            let c = self.buf[i].clone();
            proof {
                assert(c@ == self.buf@[i as int]@);
            }
            out.push(c);
            proof {
                assert(out.deep_view() =~~= pre.push(self.buf@[i as int]@));
                assert(out.deep_view() =~~= self.buf.deep_view().take(i + 1));
            }
            i = i + 1;
        }
        proof {
            assert(self.buf.deep_view().take(n as int) =~= self.buf.deep_view());
        }
        out
    }

    /// How many lines the buffer holds.
    pub fn len(&self) -> (r: usize)
        ensures
            r == self@.len(),
    {
        self.buf.len()
    }
}

} // verus!

//! In-memory model of the segmented append-only log.
//!
//! The log is a sequence of segments; each segment is a byte string made of
//! whole newline-terminated lines. The logical log is the concatenation of
//! all segments, and a cursor is a byte offset into that concatenation.
//! Rotation is pre-write: a segment never grows past the configured cap.

use vstd::prelude::*;

verus! {

/// Errors surfaced by the log core.
#[derive(Debug, PartialEq, Eq, Clone, Copy)]
pub enum LogError {
    /// A single framed line would exceed the segment cap.
    LineTooLarge,
    /// An on-disk segment chain does not satisfy the naming invariant.
    InvariantViolation,
}

/// A line is a byte sequence with no newline byte in it.
pub open spec fn line_ok(l: Seq<u8>) -> bool {
    forall|i: int| 0 <= i < l.len() ==> l[i] != 10u8
}

/// The framed form of a line as stored: the line followed by one newline.
pub open spec fn framed(l: Seq<u8>) -> Seq<u8> {
    l + seq![10u8]
}

/// The logical log: all segments laid end to end.
pub open spec fn flat(segs: Seq<Seq<u8>>) -> Seq<u8>
    decreases segs.len(),
{
    if segs.len() == 0 {
        Seq::empty()
    } else {
        flat(segs.drop_last()) + segs.last()
    }
}

/// A single segment is well formed when it fits the cap and holds no
/// partial trailing line (all content is newline-terminated).
pub open spec fn seg_wf(seg: Seq<u8>, cap: int) -> bool {
    &&& seg.len() <= cap
    &&& seg.len() == 0 || seg.last() == 10u8
}

/// The whole segment sequence is well formed: at least the active segment
/// exists, every segment obeys `seg_wf`, and only the active (last) segment
/// may be empty.
pub open spec fn log_wf(segs: Seq<Seq<u8>>, cap: int) -> bool {
    &&& cap >= 1
    &&& segs.len() >= 1
    &&& forall|i: int| 0 <= i < segs.len() ==> seg_wf(#[trigger] segs[i], cap)
    &&& forall|i: int| 0 <= i < segs.len() - 1 ==> (#[trigger] segs[i]).len() > 0
}

/// One append step at the level of segment sequences: seal the active
/// segment and open a fresh one when the framed line would overflow it,
/// otherwise grow the active segment.
pub open spec fn spec_append(segs: Seq<Seq<u8>>, cap: int, line: Seq<u8>) -> Seq<Seq<u8>>
    recommends
        segs.len() >= 1,
{
    if segs.last().len() + line.len() + 1 > cap {
        segs.push(framed(line))
    } else {
        segs.update(segs.len() - 1, segs.last() + framed(line))
    }
}

/// The segment sequence produced by appending every line of `lines`, in
/// order, to a freshly bootstrapped log.
pub open spec fn write_all(lines: Seq<Seq<u8>>, cap: int) -> Seq<Seq<u8>>
    decreases lines.len(),
{
    if lines.len() == 0 {
        seq![Seq::<u8>::empty()]
    } else {
        spec_append(write_all(lines.drop_last(), cap), cap, lines.last())
    }
}

/// The byte image of a line sequence: each line framed, laid end to end.
pub open spec fn joined(lines: Seq<Seq<u8>>) -> Seq<u8>
    decreases lines.len(),
{
    if lines.len() == 0 {
        Seq::empty()
    } else {
        joined(lines.drop_last()) + framed(lines.last())
    }
}

/// The in-memory segmented log.
pub struct Log {
    cap: usize,
    segments: Vec<Vec<u8>>,
}

impl View for Log {
    type V = Seq<Seq<u8>>;

    closed spec fn view(&self) -> Seq<Seq<u8>> {
        Seq::new(self.segments@.len(), |i: int| self.segments@[i]@)
    }
}

impl Log {
    /// The configured segment cap, in bytes.
    pub closed spec fn cap(&self) -> int {
        self.cap as int
    }

    /// Well-formedness of the whole log.
    pub open spec fn wf(&self) -> bool {
        log_wf(self@, self.cap())
    }

    /// A fresh log: one empty active segment.
    pub fn new(cap: usize) -> (r: Log)
        requires
            cap >= 1,
        ensures
            r.wf(),
            r.cap() == cap,
            r@ =~= seq![Seq::<u8>::empty()],
    {
        let mut segments: Vec<Vec<u8>> = Vec::new();
        segments.push(Vec::new());
        Log { cap, segments }
    }

    /// The number of segments.
    pub fn segment_count(&self) -> (r: usize)
        ensures
            r == self@.len(),
    {
        self.segments.len()
    }

    /// The configured cap.
    pub fn max_segment(&self) -> (r: usize)
        ensures
            r == self.cap(),
    {
        self.cap
    }

    /// A copy of segment `i`'s bytes.
    pub fn segment_bytes(&self, i: usize) -> (r: Vec<u8>)
        requires
            i < self@.len(),
        ensures
            r@ == self@[i as int],
    {
        self.segments[i].clone()
    }

    /// Append one line, rotating first when its framed form would overflow
    /// the active segment; reject a line whose framed form exceeds the cap.
    pub fn append_line(&mut self, line: &Vec<u8>) -> (r: Result<(), LogError>)
        requires
            old(self).wf(),
            line_ok(line@),
        ensures
            final(self).cap() == old(self).cap(),
            line@.len() + 1 > old(self).cap() ==> {
                &&& r == Err::<(), LogError>(LogError::LineTooLarge)
                &&& final(self)@ == old(self)@
            },
            line@.len() + 1 <= old(self).cap() ==> {
                &&& r == Ok::<(), LogError>(())
                &&& final(self)@ == spec_append(old(self)@, old(self).cap(), line@)
                &&& flat(final(self)@) == flat(old(self)@) + framed(line@)
                &&& final(self).wf()
            },
    {
        if line.len() >= self.cap {
            return Err(LogError::LineTooLarge);
        }
        let ghost pre = self@;
        let last = self.segments.len() - 1;
        proof {
            assert(pre.last() == self.segments@[last as int]@);
            assert(seg_wf(pre[last as int], self.cap()));
        }
        let active_len = self.segments[last].len();
        if line.len() + 1 > self.cap - active_len {
            // seal the active segment; the fresh one holds just this line
            let mut fresh: Vec<u8> = Vec::new();
            fresh.extend_from_slice(line.as_slice());
            fresh.push(10u8);
            proof {
                assert(fresh@ =~= framed(line@));
            }
            self.segments.push(fresh);
            proof {
                assert(self@ =~~= pre.push(framed(line@)));
                lemma_flat_push(pre, framed(line@));
            }
        } else {
            let mut seg = self.segments.pop().unwrap();
            seg.extend_from_slice(line.as_slice());
            seg.push(10u8);
            proof {
                assert(seg@ =~= pre.last() + framed(line@));
            }
            self.segments.push(seg);
            proof {
                assert(self@ =~~= pre.update(pre.len() - 1, pre.last() + framed(line@)));
                lemma_flat_grow_last(pre, framed(line@));
            }
        }
        proof {
            assert(self@ == spec_append(pre, old(self).cap(), line@));
            assert(self.wf()) by {
                let post = self@;
                assert forall|i: int| 0 <= i < post.len() implies seg_wf(
                    #[trigger] post[i],
                    self.cap(),
                ) by {
                    if i < pre.len() - 1 {
                        assert(post[i] == pre[i]);
                    }
                }
            }
        }
        Ok(())
    }

    /// All logical bytes of the log.
    pub fn flatten(&self) -> (r: Vec<u8>)
        ensures
            r@ == flat(self@),
    {
        let mut out: Vec<u8> = Vec::new();
        let n = self.segments.len();
        for i in 0..n
            invariant
                n == self@.len(),
                out@ == flat(self@.take(i as int)),
        {
            out.extend_from_slice(self.segments[i].as_slice());
            proof {
                lemma_flat_take_succ(self@, i as int);
            }
        }
        proof {
            assert(self@.take(n as int) =~= self@);
        }
        out
    }

    /// Emit every logical byte from `cursor` on. A canonical cursor yields
    /// whole lines; a non-canonical one starts inside the straddled line.
    pub fn read_from(&self, cursor: usize) -> (out: Vec<u8>)
        requires
            cursor <= flat(self@).len(),
        ensures
            out@ == flat(self@).skip(cursor as int),
    {
        let all = self.flatten();
        let mut out: Vec<u8> = Vec::new();
        let n = all.len();
        let mut j = cursor;
        while j < n
            invariant
                cursor <= j <= n,
                n == all.len(),
                out@ == all@.subrange(cursor as int, j as int),
            decreases n - j,
        {
            out.push(all[j]);
            proof {
                assert(out@ =~= all@.subrange(cursor as int, j + 1 as int));
            }
            j = j + 1;
        }
        proof {
            assert(out@ =~= all@.skip(cursor as int));
        }
        out
    }
}

/// Newline positions in `b` after `from` and at or before `to`: every
/// offset `p` with `from < p <= to` whose preceding byte is a newline, in
/// ascending order. These are the canonical cursors a tracking reader
/// hands out.
pub open spec fn nl_positions_in(b: Seq<u8>, from: int, to: int) -> Seq<int>
    decreases to - from,
{
    if from >= to {
        Seq::empty()
    } else {
        nl_positions_in(b, from, to - 1) + (if b[to - 1] == 10u8 {
            seq![to]
        } else {
            Seq::empty()
        })
    }
}

/// Every tracked position follows a newline and lies in `(from, to]`.
pub proof fn lemma_nl_positions_canonical(b: Seq<u8>, from: int, to: int, i: int)
    requires
        from <= to <= b.len(),
        0 <= i < nl_positions_in(b, from, to).len(),
    ensures
        from < nl_positions_in(b, from, to)[i] <= to,
        b[nl_positions_in(b, from, to)[i] - 1] == 10u8,
    decreases to - from,
{
    if from < to {
        let prefix = nl_positions_in(b, from, to - 1);
        if i < prefix.len() {
            lemma_nl_positions_canonical(b, from, to - 1, i);
        }
    }
}

impl Log {
    /// Emit every logical byte from `cursor` on, and beside it the cursor
    /// value after each complete line, so that a client can resume exactly
    /// after any line it has consumed.
    pub fn read_from_tracked(&self, cursor: usize) -> (r: (Vec<u8>, Vec<usize>))
        requires
            cursor <= flat(self@).len(),
        ensures
            r.0@ == flat(self@).skip(cursor as int),
            r.1@.map_values(|p: usize| p as int) == nl_positions_in(
                flat(self@),
                cursor as int,
                flat(self@).len() as int,
            ),
    {
        let all = self.flatten();
        let mut out: Vec<u8> = Vec::new();
        let mut track: Vec<usize> = Vec::new();
        let n = all.len();
        let mut j = cursor;
        while j < n
            invariant
                cursor <= j <= n,
                n == all.len(),
                out@ == all@.subrange(cursor as int, j as int),
                track@.map_values(|p: usize| p as int) == nl_positions_in(
                    all@,
                    cursor as int,
                    j as int,
                ),
            decreases n - j,
        {
            let b = all[j];
            out.push(b);
            if b == 10u8 {
                track.push(j + 1);
            }
            proof {
                assert(out@ =~= all@.subrange(cursor as int, j + 1 as int));
                assert(track@.map_values(|p: usize| p as int) =~= nl_positions_in(
                    all@,
                    cursor as int,
                    j + 1 as int,
                ));
            }
            j = j + 1;
        }
        proof {
            assert(out@ =~= all@.skip(cursor as int));
        }
        (out, track)
    }
}

/// The byte positions at which each of `lines` ends once framed: the
/// canonical cursors of the whole line sequence.
pub open spec fn line_end_positions(lines: Seq<Seq<u8>>) -> Seq<int>
    decreases lines.len(),
{
    if lines.len() == 0 {
        Seq::empty()
    } else {
        line_end_positions(lines.drop_last()).push(joined(lines).len() as int)
    }
}

/// Newline positions only depend on the bytes below the right bound.
proof fn lemma_nl_positions_prefix(b1: Seq<u8>, b2: Seq<u8>, from: int, to: int)
    requires
        0 <= from <= to <= b1.len(),
        to <= b2.len(),
        forall|p: int| 0 <= p < to ==> b1[p] == b2[p],
    ensures
        nl_positions_in(b1, from, to) == nl_positions_in(b2, from, to),
    decreases to - from,
{
    if from < to {
        lemma_nl_positions_prefix(b1, b2, from, to - 1);
    }
}

/// A stretch with no newline bytes adds no tracked position.
proof fn lemma_nl_positions_skip_blank(b: Seq<u8>, from: int, mid: int, to: int)
    requires
        0 <= from <= mid <= to <= b.len(),
        forall|p: int| mid <= p < to ==> b[p] != 10u8,
    ensures
        nl_positions_in(b, from, to) == nl_positions_in(b, from, mid),
    decreases to - mid,
{
    if mid < to {
        lemma_nl_positions_skip_blank(b, from, mid, to - 1);
        assert(nl_positions_in(b, from, to) =~= nl_positions_in(b, from, to - 1));
    }
}

/// Track law: over the byte image of a line sequence, the tracked
/// cursors are exactly the positions at which each line ends — one
/// canonical cursor per line, in order.
pub proof fn lemma_track_is_line_ends(lines: Seq<Seq<u8>>)
    requires
        forall|i: int| 0 <= i < lines.len() ==> line_ok(#[trigger] lines[i]),
    ensures
        nl_positions_in(joined(lines), 0, joined(lines).len() as int) == line_end_positions(
            lines,
        ),
    decreases lines.len(),
{
    if lines.len() == 0 {
    } else {
        let dl = lines.drop_last();
        let l = lines.last();
        let b = joined(lines);
        let n = joined(dl).len() as int;
        let t = b.len() as int;
        assert(b == joined(dl) + framed(l));
        assert(t == n + l.len() + 1);
        lemma_track_is_line_ends(dl);
        // the last byte is the new line's terminator
        assert(b[t - 1] == 10u8);
        assert(nl_positions_in(b, 0, t) == nl_positions_in(b, 0, t - 1) + seq![t]);
        // the line's own bytes hold no newline
        assert forall|p: int| n <= p < t - 1 implies b[p] != 10u8 by {
            assert(b[p] == framed(l)[p - n]);
            assert(framed(l)[p - n] == l[p - n]);
        }
        lemma_nl_positions_skip_blank(b, 0, n, t - 1);
        // below the new line, the bytes are the old image
        assert forall|p: int| 0 <= p < n implies b[p] == joined(dl)[p] by {}
        lemma_nl_positions_prefix(joined(dl), b, 0, n);
        assert(nl_positions_in(b, 0, t) =~= line_end_positions(dl).push(t));
        assert(line_end_positions(lines) == line_end_positions(dl).push(t));
    }
}

/// Appending one line to a well-formed segment sequence keeps it well
/// formed, provided the framed line fits the cap.
pub proof fn lemma_spec_append_wf(segs: Seq<Seq<u8>>, cap: int, line: Seq<u8>)
    requires
        log_wf(segs, cap),
        line.len() + 1 <= cap,
    ensures
        log_wf(spec_append(segs, cap, line), cap),
        flat(spec_append(segs, cap, line)) == flat(segs) + framed(line),
{
    let post = spec_append(segs, cap, line);
    if segs.last().len() + line.len() + 1 > cap {
        lemma_flat_push(segs, framed(line));
        assert forall|i: int| 0 <= i < post.len() implies seg_wf(#[trigger] post[i], cap) by {
            if i < segs.len() {
                assert(post[i] == segs[i]);
            } else {
                assert(post[i] == framed(line));
            }
        }
        assert forall|i: int| 0 <= i < post.len() - 1 implies (#[trigger] post[i]).len() > 0 by {
            if i == segs.len() - 1 {
                // the sealed segment is nonempty: an empty one would have
                // accepted the line, since framed(line) fits the cap
                assert(segs[i].len() + line.len() + 1 > cap);
            }
        }
    } else {
        lemma_flat_grow_last(segs, framed(line));
        assert forall|i: int| 0 <= i < post.len() implies seg_wf(#[trigger] post[i], cap) by {
            if i < segs.len() - 1 {
                assert(post[i] == segs[i]);
            } else {
                assert(post[i] == segs.last() + framed(line));
            }
        }
    }
}

/// Bootstrapping and appending any sequence of fitting lines yields a
/// well-formed log.
pub proof fn lemma_write_all_wf(lines: Seq<Seq<u8>>, cap: int)
    requires
        cap >= 1,
        forall|i: int| 0 <= i < lines.len() ==> (#[trigger] lines[i]).len() + 1 <= cap,
    ensures
        log_wf(write_all(lines, cap), cap),
    decreases lines.len(),
{
    if lines.len() == 0 {
        assert(log_wf(seq![Seq::<u8>::empty()], cap));
    } else {
        lemma_write_all_wf(lines.drop_last(), cap);
        lemma_spec_append_wf(write_all(lines.drop_last(), cap), cap, lines.last());
    }
}

/// Log round-trip law: after writing any sequence of lines that fit the
/// cap to a fresh log, the logical log is exactly those lines, each framed
/// with its newline, in order. A reader at cursor zero emits exactly these
/// bytes.
pub proof fn lemma_log_round_trip(lines: Seq<Seq<u8>>, cap: int)
    requires
        cap >= 1,
        forall|i: int| 0 <= i < lines.len() ==> (#[trigger] lines[i]).len() + 1 <= cap,
    ensures
        flat(write_all(lines, cap)) == joined(lines),
        log_wf(write_all(lines, cap), cap),
    decreases lines.len(),
{
    lemma_write_all_wf(lines, cap);
    if lines.len() == 0 {
        let s = seq![Seq::<u8>::empty()];
        assert(s.drop_last() =~= Seq::<Seq<u8>>::empty());
        assert(s.last() =~= Seq::<u8>::empty());
        assert(flat(s) == flat(s.drop_last()) + s.last());
        assert(flat(s) =~= joined(lines));
    } else {
        lemma_log_round_trip(lines.drop_last(), cap);
        lemma_write_all_wf(lines.drop_last(), cap);
        lemma_spec_append_wf(write_all(lines.drop_last(), cap), cap, lines.last());
    }
}

/// Framing distributes over concatenation of line sequences.
pub proof fn lemma_joined_concat(a: Seq<Seq<u8>>, b: Seq<Seq<u8>>)
    ensures
        joined(a + b) == joined(a) + joined(b),
    decreases b.len(),
{
    if b.len() == 0 {
        assert(a + b =~= a);
        assert(joined(a) + joined(b) =~= joined(a));
    } else {
        assert((a + b).drop_last() =~= a + b.drop_last());
        assert((a + b).last() == b.last());
        lemma_joined_concat(a, b.drop_last());
        assert(joined(a) + joined(b.drop_last()) + framed(b.last()) =~= joined(a) + (joined(
            b.drop_last(),
        ) + framed(b.last())));
    }
}

/// Cursor resumability law, byte form: the bytes before any split point
/// `k` and the bytes a reader emits from cursor `k` concatenate to the
/// whole logical log.
pub proof fn lemma_cursor_resumable(segs: Seq<Seq<u8>>, k: int)
    requires
        0 <= k <= flat(segs).len(),
    ensures
        flat(segs).take(k) + flat(segs).skip(k) == flat(segs),
{
    assert(flat(segs).take(k) + flat(segs).skip(k) =~= flat(segs));
}

/// Cursor resumability law, line form: at the canonical cursor that ends
/// the first `j` lines, the remaining bytes are exactly the framed suffix
/// of the line sequence starting at line `j`.
pub proof fn lemma_canonical_resume(lines: Seq<Seq<u8>>, j: int)
    requires
        0 <= j <= lines.len(),
    ensures
        joined(lines.take(j)).len() <= joined(lines).len(),
        joined(lines).skip(joined(lines.take(j)).len() as int) == joined(lines.skip(j)),
{
    assert(lines.take(j) + lines.skip(j) =~= lines);
    lemma_joined_concat(lines.take(j), lines.skip(j));
    assert((joined(lines.take(j)) + joined(lines.skip(j))).skip(
        joined(lines.take(j)).len() as int,
    ) =~= joined(lines.skip(j)));
}

/// Segment cap law: in a well-formed log no segment exceeds the cap and no
/// segment holds a partial line.
pub proof fn lemma_segment_cap(segs: Seq<Seq<u8>>, cap: int, i: int)
    requires
        log_wf(segs, cap),
        0 <= i < segs.len(),
    ensures
        segs[i].len() <= cap,
        segs[i].len() == 0 || segs[i].last() == 10u8,
{
    assert(seg_wf(segs[i], cap));
}

/// The byte offset at which segment `i` starts within the logical log.
pub open spec fn seg_offset(segs: Seq<Seq<u8>>, i: int) -> int {
    flat(segs.take(i)).len() as int
}

/// Segment naming law: each segment starts exactly at the running total of
/// the sizes of all earlier segments, with no gap and no overlap.
pub proof fn lemma_segment_offsets(segs: Seq<Seq<u8>>, i: int)
    requires
        0 <= i < segs.len(),
    ensures
        seg_offset(segs, 0) == 0,
        seg_offset(segs, i + 1) == seg_offset(segs, i) + segs[i].len(),
{
    assert(segs.take(0) =~= Seq::<Seq<u8>>::empty());
    lemma_flat_take_succ(segs, i);
}

/// Appending a segment extends the logical log by exactly that segment.
pub proof fn lemma_flat_push(segs: Seq<Seq<u8>>, seg: Seq<u8>)
    ensures
        flat(segs.push(seg)) == flat(segs) + seg,
{
    assert(segs.push(seg).drop_last() =~= segs);
    assert(segs.push(seg).last() == seg);
}

/// Growing the last segment extends the logical log by the added bytes.
pub proof fn lemma_flat_grow_last(segs: Seq<Seq<u8>>, tail: Seq<u8>)
    requires
        segs.len() >= 1,
    ensures
        flat(segs.update(segs.len() - 1, segs.last() + tail)) == flat(segs) + tail,
{
    let grown = segs.update(segs.len() - 1, segs.last() + tail);
    assert(grown.drop_last() =~= segs.drop_last());
    assert(grown.last() == segs.last() + tail);
    assert(flat(segs.drop_last()) + (segs.last() + tail) =~= (flat(segs.drop_last())
        + segs.last()) + tail);
}

/// The logical log of the first `i + 1` segments grows by segment `i`.
pub proof fn lemma_flat_take_succ(segs: Seq<Seq<u8>>, i: int)
    requires
        0 <= i < segs.len(),
    ensures
        flat(segs.take(i + 1)) == flat(segs.take(i)) + segs[i],
{
    assert(segs.take(i + 1).drop_last() =~= segs.take(i));
    assert(segs.take(i + 1).last() == segs[i]);
}

} // verus!

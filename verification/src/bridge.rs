//! Line-quota planning for the process bridge.
//!
//! The bridge pipes its input lines into a child process and, when a line
//! quota is set, restarts the child after every quota-full batch. The
//! unverified shell owns the pipes and the child; which child a line goes
//! to is decided here: the input stream is cut into batches of exactly
//! `max_lines` lines (the last batch may be shorter), one child per
//! batch, no line lost, none duplicated.

use vstd::prelude::*;

verus! {

/// The input lines cut into batches of `m`: every batch but the last has
/// exactly `m` lines, the last has between 1 and `m`.
pub open spec fn chunks_of(lines: Seq<Seq<u8>>, m: int) -> Seq<Seq<Seq<u8>>>
    recommends
        m >= 1,
    decreases lines.len(),
    when m >= 1
{

    if lines.len() == 0 {
        Seq::empty()
    } else if lines.len() <= m {
        seq![lines]
    } else {
        seq![lines.take(m)] + chunks_of(lines.skip(m), m)
    }
}

/// All batches laid back end to end.
pub open spec fn concat_chunks(chunks: Seq<Seq<Seq<u8>>>) -> Seq<Seq<u8>>
    decreases chunks.len(),
{
    if chunks.len() == 0 {
        Seq::empty()
    } else {
        chunks[0] + concat_chunks(chunks.skip(1))
    }
}

/// Loss-free law: re-concatenating the batches yields exactly the input
/// stream — no line dropped, none duplicated, order kept.
pub proof fn lemma_chunks_loss_free(lines: Seq<Seq<u8>>, m: int)
    requires
        m >= 1,
    ensures
        concat_chunks(chunks_of(lines, m)) == lines,
    decreases lines.len(),
{
    if lines.len() == 0 {
    } else if lines.len() <= m {
        let c = chunks_of(lines, m);
        assert(c =~~= seq![lines]);
        assert(c.skip(1) =~= Seq::<Seq<Seq<u8>>>::empty());
        assert(concat_chunks(c.skip(1)) =~= Seq::<Seq<u8>>::empty());
        assert(c[0] == lines);
        assert(concat_chunks(c) =~= lines);
    } else {
        lemma_chunks_loss_free(lines.skip(m), m);
        let c = chunks_of(lines, m);
        assert(c.skip(1) =~= chunks_of(lines.skip(m), m));
        assert(concat_chunks(c) =~= lines.take(m) + lines.skip(m));
        assert(lines.take(m) + lines.skip(m) =~= lines);
    }
}

/// Quota law: with quota `m` and `n` input lines there are exactly
/// ⌈n / m⌉ batches; every batch except the last has exactly `m` lines,
/// and the last has `((n - 1) mod m) + 1`.
pub proof fn lemma_chunks_quota(lines: Seq<Seq<u8>>, m: int)
    requires
        m >= 1,
    ensures
        chunks_of(lines, m).len() == (lines.len() + m - 1) / m,
        forall|i: int| 0 <= i < chunks_of(lines, m).len() - 1 ==> (#[trigger] chunks_of(
            lines,
            m,
        )[i]).len() == m,
        lines.len() > 0 ==> chunks_of(lines, m).last().len() == ((lines.len() - 1) % m) + 1,
    decreases lines.len(),
{
    let n = lines.len() as int;
    if n == 0 {
        assert((0 + m - 1) / m == 0) by (nonlinear_arith)
            requires
                m >= 1,
        ;
    } else if n <= m {
        assert((n + m - 1) / m == 1) by (nonlinear_arith)
            requires
                m >= 1,
                1 <= n <= m,
        ;
        assert(((n - 1) % m) + 1 == n) by (nonlinear_arith)
            requires
                m >= 1,
                1 <= n <= m,
        ;
    } else {
        lemma_chunks_quota(lines.skip(m), m);
        let c = chunks_of(lines, m);
        let rest = chunks_of(lines.skip(m), m);
        assert(lines.skip(m).len() == n - m);
        assert((n - m + m - 1) / m + 1 == (n + m - 1) / m) by (nonlinear_arith)
            requires
                m >= 1,
                n > m,
        ;
        assert(((n - m - 1) % m) == ((n - 1) % m)) by (nonlinear_arith)
            requires
                m >= 1,
                n > m,
        ;
        assert forall|i: int| 0 <= i < c.len() - 1 implies (#[trigger] c[i]).len() == m by {
            if i > 0 {
                assert(c[i] == rest[i - 1]);
            }
        }
        assert(c.last() == rest.last());
    }
}

/// Placement law: input line `i` (counting from zero) goes to child
/// `i / m`, as its `(i mod m)`-th line — each child sees its own
/// quota-sized slice of the stream, in order.
pub proof fn lemma_chunks_index(lines: Seq<Seq<u8>>, m: int, i: int)
    requires
        m >= 1,
        0 <= i < lines.len(),
    ensures
        0 <= i / m < chunks_of(lines, m).len(),
        0 <= i % m < chunks_of(lines, m)[i / m].len(),
        chunks_of(lines, m)[i / m][i % m] == lines[i],
    decreases lines.len(),
{
    let c = chunks_of(lines, m);
    if i < m {
        assert(i / m == 0 && i % m == i) by (nonlinear_arith)
            requires
                m >= 1,
                0 <= i < m,
        ;
        if lines.len() <= m {
            assert(c[0] == lines);
        } else {
            assert(c[0] == lines.take(m));
        }
    } else {
        lemma_chunks_index(lines.skip(m), m, i - m);
        let rest = chunks_of(lines.skip(m), m);
        assert((i - m) / m == i / m - 1 && (i - m) % m == i % m) by (nonlinear_arith)
            requires
                m >= 1,
                i >= m,
        ;
        assert(c[i / m] == rest[i / m - 1]);
        assert(lines.skip(m)[i - m] == lines[i]);
    }
}

/// Cut the input lines into quota-sized batches: one batch per child, in
/// spawn order.
pub fn partition_lines(lines: &Vec<Vec<u8>>, max_lines: usize) -> (r: Vec<Vec<Vec<u8>>>)
    requires
        max_lines >= 1,
    ensures
        r.deep_view() == chunks_of(lines.deep_view(), max_lines as int),
{
    let ghost all = lines.deep_view();
    let ghost m = max_lines as int;
    let mut out: Vec<Vec<Vec<u8>>> = Vec::new();
    let mut cur: Vec<Vec<u8>> = Vec::new();
    let ghost mut start: int = 0;
    let n = lines.len();
    let mut i: usize = 0;
    proof {
        assert(all.skip(0) =~= all);
        assert(out.deep_view() + chunks_of(all, m) =~~= chunks_of(all, m));
        assert(cur.deep_view() =~= all.subrange(0, 0));
    }
    while i < n
        invariant
            0 <= i <= n,
            n == all.len(),
            all == lines.deep_view(),
            m == max_lines as int,
            m >= 1,
            0 <= start <= i as int,
            cur.deep_view() =~= all.subrange(start, i as int),
            cur@.len() < m,
            chunks_of(all, m) == out.deep_view() + chunks_of(all.skip(start), m),
        decreases n - i,
    {
        let ghost pre_out = out.deep_view();
        let ghost pre_cur = cur.deep_view();
        cur.push(lines[i].clone());
        proof {
            assert(lines@[i as int]@ == all[i as int]);
            assert(cur.deep_view() =~= pre_cur.push(all[i as int]));
            assert(cur.deep_view() =~= all.subrange(start, i + 1));
        }
        i = i + 1;
        if cur.len() == max_lines {
            let full = cur;
            cur = Vec::new();
            out.push(full);
            proof {
                let tail = all.skip(start);
                assert(tail.len() == all.len() - start);
                assert(tail.take(m) =~= all.subrange(start, start + m));
                if tail.len() <= m {
                    // the quota batch ends the input exactly
                    assert(i as int == all.len());
                    assert(tail.take(m) =~= tail);
                    assert(chunks_of(tail, m) =~~= seq![tail]);
                    assert(out.deep_view() =~~= pre_out.push(tail));
                    assert(all.skip(i as int) =~= Seq::<Seq<u8>>::empty());
                    assert(out.deep_view() + chunks_of(all.skip(i as int), m) =~~= pre_out
                        + chunks_of(tail, m));
                } else {
                    assert(chunks_of(tail, m) == seq![tail.take(m)] + chunks_of(
                        tail.skip(m),
                        m,
                    ));
                    assert(tail.skip(m) =~= all.skip(start + m));
                    assert(out.deep_view() =~~= pre_out.push(tail.take(m)));
                    assert(out.deep_view() + chunks_of(all.skip(start + m), m) =~~= pre_out
                        + chunks_of(tail, m));
                }
                start = i as int;
                assert(cur.deep_view() =~= all.subrange(start, i as int));
            }
        }
    }
    if cur.len() > 0 {
        proof {
            let tail = all.skip(start);
            assert(tail =~= cur.deep_view());
            assert(tail.len() < m);
            assert(chunks_of(tail, m) =~~= seq![tail]);
        }
        let ghost pre_out = out.deep_view();
        let ghost tail_ghost = all.skip(start);
        out.push(cur);
        proof {
            assert(out.deep_view() =~~= pre_out.push(tail_ghost));
            assert(out.deep_view() =~~= pre_out + chunks_of(tail_ghost, m));
        }
    } else {
        proof {
            assert(all.skip(start) =~= Seq::<Seq<u8>>::empty());
            assert(out.deep_view() + chunks_of(all.skip(start), m) =~~= out.deep_view());
        }
    }
    out
}

/// The running quota state of the input forwarder: how many lines the
/// current child has received, against an optional quota.
pub struct Quota {
    max_lines: Option<u64>,
    used: u64,
}

impl Quota {
    /// How many lines the current child has been sent so far.
    pub closed spec fn used(&self) -> int {
        self.used as int
    }

    /// The configured quota, if any.
    pub closed spec fn quota(&self) -> Option<u64> {
        self.max_lines
    }

    /// The quota, where set, is positive, and the counter stays below
    /// it: a child holding its full quota has already been cut off.
    pub open spec fn wf(&self) -> bool {
        match self.quota() {
            Some(m) => 1 <= m && self.used() < m,
            None => self.used() == 0,
        }
    }

    /// A forwarder that has not yet sent anything to its first child.
    pub fn new(max_lines: Option<u64>) -> (r: Quota)
        requires
            max_lines matches Some(m) ==> m >= 1,
        ensures
            r.quota() == max_lines,
            r.used() == 0,
            r.wf(),
    {
        Quota { max_lines, used: 0 }
    }

    /// Account for the line just written to the current child. Returns
    /// true exactly when that line filled the child's quota: the caller
    /// then closes the child's stdin (the child drains and exits) and,
    /// if more input follows, rendezvouses for a fresh child, whose
    /// count starts at zero again.
    pub fn after_line(&mut self) -> (full: bool)
        requires
            old(self).wf(),
        ensures
            final(self).quota() == old(self).quota(),
            final(self).wf(),
            full <==> (old(self).quota() matches Some(m) && old(self).used() + 1 == m),
            match old(self).quota() {
                Some(_) => final(self).used() == if full {
                    0int
                } else {
                    old(self).used() + 1
                },
                None => final(self).used() == 0,
            },
    {
        match self.max_lines {
            Some(m) => {
                if self.used + 1 == m {
                    self.used = 0;
                    true
                } else {
                    self.used = self.used + 1;
                    false
                }
            },
            None => false,
        }
    }
}

} // verus!

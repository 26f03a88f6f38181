//! Naming, chain checking and positioning for on-disk segment files.
//!
//! A log directory holds segment files whose basenames are 20-digit
//! zero-padded decimals: the byte offset of the segment's first byte
//! within the logical log. The unverified shell enumerates files and sizes
//! and performs the reads and writes; every decision — what a segment is
//! called, whether a chain of files is intact, which segment a cursor
//! falls in, when to rotate — is computed here.

use vstd::arithmetic::div_mod::lemma_div_denominator;
use vstd::prelude::*;

use crate::seglog::LogError;

verus! {

/// Ten to the `k`-th power.
pub open spec fn pow10(k: nat) -> int
    decreases k,
{
    if k == 0 {
        1
    } else {
        10 * pow10((k - 1) as nat)
    }
}

/// The `k`-digit zero-padded decimal ASCII form of `n mod 10^k`, most
/// significant digit first.
pub open spec fn dec_digits(n: int, k: nat) -> Seq<u8>
    decreases k,
{
    if k == 0 {
        Seq::empty()
    } else {
        dec_digits(n / 10, (k - 1) as nat).push((48 + n % 10) as u8)
    }
}

/// The 20-digit basename of the segment starting at byte offset `n`.
pub open spec fn dec20(n: int) -> Seq<u8> {
    dec_digits(n, 20)
}

/// The numeric value of a string of decimal ASCII digits.
pub open spec fn dec_val(s: Seq<u8>) -> int
    decreases s.len(),
{
    if s.len() == 0 {
        0
    } else {
        10 * dec_val(s.drop_last()) + (s.last() - 48)
    }
}

/// Whether every byte of `s` is a decimal ASCII digit.
pub open spec fn all_digits(s: Seq<u8>) -> bool {
    forall|i: int| 0 <= i < s.len() ==> 48 <= #[trigger] s[i] <= 57
}

/// Digit `j` of the `k`-digit form of `n` is the `(k-1-j)`-th decimal
/// digit of `n`, counting from the least significant.
pub proof fn lemma_dec_digits_index(n: int, k: nat, j: int)
    requires
        n >= 0,
        0 <= j < k,
    ensures
        dec_digits(n, k).len() == k,
        dec_digits(n, k)[j] == 48 + (n / pow10((k - 1 - j) as nat)) % 10,
    decreases k,
{
    lemma_dec_digits_len(n, k);
    if j == k - 1 {
        assert(pow10(0) == 1);
        assert(n / 1 == n);
    } else {
        lemma_dec_digits_len(n / 10, (k - 1) as nat);
        lemma_dec_digits_index(n / 10, (k - 1) as nat, j);
        let e = (k - 2 - j) as nat;
        assert(pow10(e) > 0) by {
            lemma_pow10_pos(e);
        }
        lemma_div_denominator(n, 10, pow10(e));
        assert(10 * pow10(e) == pow10((e + 1) as nat));
    }
}

/// The digit string has exactly `k` digits.
pub proof fn lemma_dec_digits_len(n: int, k: nat)
    ensures
        dec_digits(n, k).len() == k,
    decreases k,
{
    if k > 0 {
        lemma_dec_digits_len(n / 10, (k - 1) as nat);
    }
}

/// Powers of ten are positive.
pub proof fn lemma_pow10_pos(k: nat)
    ensures
        pow10(k) >= 1,
    decreases k,
{
    if k > 0 {
        lemma_pow10_pos((k - 1) as nat);
    }
}

/// Every byte of the digit form is a decimal digit.
pub proof fn lemma_dec_digits_are_digits(n: int, k: nat)
    requires
        n >= 0,
    ensures
        all_digits(dec_digits(n, k)),
    decreases k,
{
    if k > 0 {
        lemma_dec_digits_are_digits(n / 10, (k - 1) as nat);
        let s = dec_digits(n, k);
        let p = dec_digits(n / 10, (k - 1) as nat);
        assert forall|i: int| 0 <= i < s.len() implies 48 <= #[trigger] s[i] <= 57 by {
            if i < s.len() - 1 {
                assert(s[i] == p[i]);
            }
        }
    }
}

/// Naming is lossless: reading the digits of `n` back yields `n`, for any
/// `n` the digit count can hold.
pub proof fn lemma_dec_val_of_digits(n: int, k: nat)
    requires
        0 <= n < pow10(k),
    ensures
        dec_val(dec_digits(n, k)) == n,
    decreases k,
{
    if k == 0 {
        assert(pow10(0) == 1);
    } else {
        assert(dec_digits(n, k).drop_last() =~= dec_digits(n / 10, (k - 1) as nat));
        assert(n / 10 < pow10((k - 1) as nat)) by {
            lemma_pow10_pos((k - 1) as nat);
        }
        lemma_dec_val_of_digits(n / 10, (k - 1) as nat);
    }
}

/// Twenty digits hold every byte offset: `10^20` exceeds the largest
/// 64-bit offset.
pub proof fn lemma_u64_fits_twenty_digits()
    ensures
        u64::MAX < pow10(20),
{
    assert(pow10(0) == 1);
    assert(pow10(1) == 10);
    assert(pow10(2) == 100);
    assert(pow10(3) == 1000);
    assert(pow10(4) == 10000);
    assert(pow10(5) == 100000);
    assert(pow10(6) == 1000000);
    assert(pow10(7) == 10000000);
    assert(pow10(8) == 100000000);
    assert(pow10(9) == 1000000000);
    assert(pow10(10) == 10000000000);
    assert(pow10(11) == 100000000000);
    assert(pow10(12) == 1000000000000);
    assert(pow10(13) == 10000000000000);
    assert(pow10(14) == 100000000000000);
    assert(pow10(15) == 1000000000000000);
    assert(pow10(16) == 10000000000000000);
    assert(pow10(17) == 100000000000000000);
    assert(pow10(18) == 1000000000000000000);
    assert(pow10(19) == 10000000000000000000);
    assert(pow10(20) == 100000000000000000000);
}

/// Naming law: every segment basename is twenty decimal digits that
/// read back as exactly the start offset they were made from.
pub proof fn lemma_segment_name_round_trip(offset: u64)
    ensures
        dec20(offset as int).len() == 20,
        all_digits(dec20(offset as int)),
        dec_val(dec20(offset as int)) == offset as int,
{
    lemma_dec_digits_len(offset as int, 20);
    lemma_dec_digits_are_digits(offset as int, 20);
    lemma_u64_fits_twenty_digits();
    lemma_dec_val_of_digits(offset as int, 20);
}

/// Strict lexicographic order on equal-length byte strings: they agree
/// up to some position, where the first is smaller.
pub open spec fn lex_less(a: Seq<u8>, b: Seq<u8>) -> bool {
    exists|k: int|
        #![trigger a[k], b[k]]
        0 <= k < a.len() && k < b.len() && a[k] < b[k] && (forall|j: int|
            0 <= j < k ==> a[j] == b[j])
}

/// Zero-padded digit strings order exactly as their values.
proof fn lemma_dec_digits_order(m: int, n: int, k: nat)
    requires
        0 <= m < n < pow10(k),
    ensures
        lex_less(dec_digits(m, k), dec_digits(n, k)),
    decreases k,
{
    lemma_dec_digits_len(m, k);
    lemma_dec_digits_len(n, k);
    let a = dec_digits(m, k);
    let b = dec_digits(n, k);
    let pa = dec_digits(m / 10, (k - 1) as nat);
    let pb = dec_digits(n / 10, (k - 1) as nat);
    lemma_dec_digits_len(m / 10, (k - 1) as nat);
    lemma_dec_digits_len(n / 10, (k - 1) as nat);
    if m / 10 == n / 10 {
        // the values differ only in the last digit
        assert(m % 10 < n % 10);
        let kk = k - 1;
        assert(a[kk] == 48 + m % 10);
        assert(b[kk] == 48 + n % 10);
        assert forall|j: int| 0 <= j < kk implies a[j] == b[j] by {
            assert(a[j] == pa[j]);
            assert(b[j] == pb[j]);
        }
        assert(a[kk] < b[kk]);
    } else {
        vstd::arithmetic::div_mod::lemma_div_is_ordered(m, n, 10);
        assert(n / 10 < pow10((k - 1) as nat)) by {
            lemma_pow10_pos((k - 1) as nat);
        }
        lemma_dec_digits_order(m / 10, n / 10, (k - 1) as nat);
        let k0 = choose|k0: int|
            #![trigger pa[k0], pb[k0]]
            0 <= k0 < pa.len() && k0 < pb.len() && pa[k0] < pb[k0] && (forall|j: int|
                0 <= j < k0 ==> pa[j] == pb[j]);
        assert(a[k0] == pa[k0]);
        assert(b[k0] == pb[k0]);
        assert forall|j: int| 0 <= j < k0 implies a[j] == b[j] by {
            assert(a[j] == pa[j]);
            assert(b[j] == pb[j]);
        }
        assert(a[k0] < b[k0]);
    }
}

/// Ordering law: segment basenames sorted lexicographically are segment
/// start offsets sorted numerically — zero padding makes the directory
/// listing the logical order.
pub proof fn lemma_name_order_is_offset_order(a: u64, b: u64)
    requires
        a < b,
    ensures
        lex_less(dec20(a as int), dec20(b as int)),
{
    lemma_u64_fits_twenty_digits();
    lemma_dec_digits_order(a as int, b as int, 20);
}

/// The 20-digit basename of the segment that starts at byte offset
/// `offset`.
pub fn segment_name(offset: u64) -> (r: Vec<u8>)
    ensures
        r@ == dec20(offset as int),
        r@.len() == 20,
{
    let mut buf: Vec<u8> = Vec::new();
    let mut i: usize = 0;
    while i < 20
        invariant
            0 <= i <= 20,
            buf@.len() == i,
            forall|j: int| 0 <= j < i ==> buf@[j] == 48 + ((offset as int) / pow10(j as nat))
                % 10,
        decreases 20 - i,
    {
        proof {
            lemma_pow10_pos(i as nat);
        }
        let mut m: u64 = offset;
        let mut k: usize = 0;
        while k < i
            invariant
                0 <= k <= i,
                m as int == (offset as int) / pow10(k as nat),
            decreases i - k,
        {
            proof {
                lemma_pow10_pos(k as nat);
                lemma_div_denominator(offset as int, pow10(k as nat), 10);
                assert(pow10(k as nat) * 10 == pow10((k + 1) as nat));
            }
            m = m / 10;
            k = k + 1;
        }
        buf.push(48 + (m % 10) as u8);
        i = i + 1;
    }
    // buf holds the digits least significant first; reverse into place
    let mut out: Vec<u8> = Vec::new();
    let mut i: usize = 0;
    while i < 20
        invariant
            0 <= i <= 20,
            buf@.len() == 20,
            out@.len() == i,
            forall|j: int| 0 <= j < 20 ==> buf@[j] == 48 + ((offset as int) / pow10(j as nat))
                % 10,
            forall|j: int| 0 <= j < i ==> out@[j] == buf@[19 - j],
        decreases 20 - i,
    {
        out.push(buf[19 - i]);
        i = i + 1;
    }
    proof {
        assert forall|j: int| 0 <= j < 20 implies out@[j] == dec20(offset as int)[j] by {
            lemma_dec_digits_index(offset as int, 20, j);
        }
        lemma_dec_digits_len(offset as int, 20);
        assert(out@ =~= dec20(offset as int));
    }
    out
}

/// Parse a segment basename. Returns the start offset exactly when the
/// name is 20 decimal digits whose value fits in a byte offset; any other
/// name is not a segment of the log.
pub fn parse_segment_name(name: &Vec<u8>) -> (r: Option<u64>)
    ensures
        match r {
            Some(v) => {
                &&& name@.len() == 20
                &&& all_digits(name@)
                &&& v as int == dec_val(name@)
            },
            None => !(name@.len() == 20 && all_digits(name@) && dec_val(name@) <= u64::MAX),
        },
{
    if name.len() != 20 {
        return None;
    }
    let mut acc: u64 = 0;
    let mut i: usize = 0;
    while i < 20
        invariant
            0 <= i <= 20,
            name@.len() == 20,
            acc as int == dec_val(name@.take(i as int)),
            all_digits(name@.take(i as int)),
        decreases 20 - i,
    {
        let b = name[i];
        if b < 48 || b > 57 {
            // a non-digit byte rules the whole name out
            proof {
                assert(name@[i as int] == b);
                assert(!all_digits(name@));
            }
            return None;
        }
        let ghost pre = name@.take(i as int);
        let ghost cur = name@.take(i + 1);
        proof {
            assert(cur.drop_last() =~= pre);
            assert(cur.last() == b);
            assert(dec_val(cur) == 10 * (acc as int) + (b - 48));
            assert(all_digits(cur)) by {
                assert(forall|j: int| 0 <= j < i + 1 ==> cur[j] == name@[j]);
                assert(forall|j: int| 0 <= j < i ==> pre[j] == name@[j]);
            }
        }
        let shifted = match acc.checked_mul(10) {
            Some(v) => v,
            None => {
                proof {
                    if all_digits(name@) {
                        lemma_value_exceeds_when_prefix_large(name@, i as int, acc as int);
                        let e = (20 - i) as nat;
                        lemma_pow10_pos((e - 1) as nat);
                        assert(pow10(e) == 10 * pow10((e - 1) as nat));
                        assert((acc as int) * pow10(e) >= (acc as int) * 10) by (nonlinear_arith)
                            requires
                                acc as int >= 0,
                                pow10(e) >= 10,
                        ;
                    }
                }
                return None;
            },
        };
        let next = match shifted.checked_add((b - 48) as u64) {
            Some(v) => v,
            None => {
                proof {
                    if all_digits(name@) {
                        let w = 10 * (acc as int) + (b - 48);
                        if i == 19 {
                            assert(name@.take(20) =~= name@);
                            assert(dec_val(name@) == w);
                        } else {
                            lemma_value_exceeds_when_prefix_large(name@, i + 1, w);
                            let e = (19 - i) as nat;
                            lemma_pow10_pos(e);
                            assert(w * pow10(e) >= w) by (nonlinear_arith)
                                requires
                                    w >= 0,
                                    pow10(e) >= 1,
                            ;
                        }
                    }
                }
                return None;
            },
        };
        acc = next;
        i = i + 1;
    }
    proof {
        assert(name@.take(20) =~= name@);
    }
    Some(acc)
}

/// If the first `i` digits of a 20-digit string already read as `v`, the
/// whole string reads as at least `v` shifted by the remaining digits.
proof fn lemma_value_exceeds_when_prefix_large(s: Seq<u8>, i: int, v: int)
    requires
        all_digits(s),
        0 <= i <= s.len(),
        v == dec_val(s.take(i)),
    ensures
        dec_val(s) >= v * pow10((s.len() - i) as nat),
    decreases s.len() - i,
{
    if i == s.len() {
        assert(s.take(i) =~= s);
        assert(pow10(0) == 1);
    } else {
        let cur = s.take(i + 1);
        assert(cur.drop_last() =~= s.take(i));
        lemma_all_digits_take(s, i + 1);
        let w = dec_val(cur);
        assert(w == 10 * v + (s[i] - 48));
        lemma_value_exceeds_when_prefix_large(s, i + 1, w);
        let e = (s.len() - i - 1) as nat;
        lemma_pow10_pos(e);
        assert(s[i] - 48 >= 0);
        assert(w * pow10(e) >= (10 * v) * pow10(e)) by (nonlinear_arith)
            requires
                w >= 10 * v,
                pow10(e) >= 1,
        ;
        assert((10 * v) * pow10(e) == v * (10 * pow10(e))) by (nonlinear_arith);
        assert(10 * pow10(e) == pow10((e + 1) as nat));
    }
}

/// Every prefix of a digit string is a digit string.
proof fn lemma_all_digits_take(s: Seq<u8>, i: int)
    requires
        all_digits(s),
        0 <= i <= s.len(),
    ensures
        all_digits(s.take(i)),
{
    assert(forall|j: int| 0 <= j < i ==> s.take(i)[j] == s[j]);
}

/// The running total of the first `i` segment sizes in a directory
/// listing of `(start offset, size)` pairs.
pub open spec fn sizes_sum(entries: Seq<(u64, u64)>, i: int) -> int
    decreases i,
{
    if i <= 0 {
        0
    } else {
        sizes_sum(entries, i - 1) + entries[i - 1].1
    }
}

/// Whether a sorted directory listing satisfies the naming invariant:
/// every segment starts exactly where the previous ones end.
pub open spec fn chain_ok(entries: Seq<(u64, u64)>) -> bool {
    forall|i: int| 0 <= i < entries.len() ==> (#[trigger] entries[i]).0 == sizes_sum(entries, i)
}

/// Verify the naming invariant over a sorted directory listing. `Ok`
/// exactly when every basename equals the running total of the prior
/// segment sizes; anything else means the log directory is corrupt.
pub fn check_chain(entries: &Vec<(u64, u64)>) -> (r: Result<(), LogError>)
    ensures
        r == Ok::<(), LogError>(()) <==> chain_ok(entries@),
        r is Err ==> r == Err::<(), LogError>(LogError::InvariantViolation),
{
    let mut expected: u64 = 0;
    let mut i: usize = 0;
    let n = entries.len();
    while i < n
        invariant
            0 <= i <= n,
            n == entries@.len(),
            expected as int == sizes_sum(entries@, i as int),
            forall|j: int| 0 <= j < i ==> (#[trigger] entries@[j]).0 == sizes_sum(entries@, j),
        decreases n - i,
    {
        let (offset, size) = entries[i];
        if offset != expected {
            proof {
                assert(!chain_ok(entries@)) by {
                    assert(entries@[i as int].0 != sizes_sum(entries@, i as int));
                }
            }
            return Err(LogError::InvariantViolation);
        }
        expected = match expected.checked_add(size) {
            Some(v) => v,
            None => {
                // the running total has outgrown any possible basename, so
                // a later segment cannot start at it
                if i + 1 == n {
                    return Ok(());
                }
                proof {
                    lemma_sizes_sum_mono(entries@, i + 1, i + 2);
                    assert(entries@[i + 1].0 <= u64::MAX);
                    assert(sizes_sum(entries@, i + 1) > u64::MAX);
                }
                return Err(LogError::InvariantViolation);
            },
        };
        i = i + 1;
    }
    Ok(())
}

/// Running totals never shrink.
proof fn lemma_sizes_sum_mono(entries: Seq<(u64, u64)>, i: int, j: int)
    requires
        0 <= i <= j,
    ensures
        sizes_sum(entries, i) <= sizes_sum(entries, j),
    decreases j - i,
{
    if i < j {
        lemma_sizes_sum_mono(entries, i, j - 1);
    }
}

/// What the writer does at startup: where the active segment starts, and
/// whether it reopens the last existing segment or creates a fresh one.
pub struct Bootstrap {
    /// Start offset of the active segment; also its basename.
    pub active_offset: u64,
    /// True when the last existing segment is undersized and is reopened
    /// for appending; false when a fresh segment file is created.
    pub reopen: bool,
    /// Size in bytes of the active segment at startup.
    pub active_size: u64,
}

/// Decide the active segment for a verified directory listing: reopen the
/// last segment when it is undersized, otherwise start a fresh segment at
/// the total logical size.
pub fn plan_bootstrap(entries: &Vec<(u64, u64)>, cap: u64) -> (r: Bootstrap)
    requires
        chain_ok(entries@),
        sizes_sum(entries@, entries@.len() as int) <= u64::MAX,
    ensures
        entries@.len() == 0 ==> r.active_offset == 0 && !r.reopen && r.active_size == 0,
        entries@.len() > 0 && entries@.last().1 < cap ==> {
            &&& r.active_offset == entries@.last().0
            &&& r.reopen
            &&& r.active_size == entries@.last().1
        },
        entries@.len() > 0 && entries@.last().1 >= cap ==> {
            &&& r.active_offset as int == sizes_sum(entries@, entries@.len() as int)
            &&& !r.reopen
            &&& r.active_size == 0
        },
{
    let n = entries.len();
    if n == 0 {
        return Bootstrap { active_offset: 0, reopen: false, active_size: 0 };
    }
    let (last_offset, last_size) = entries[n - 1];
    if last_size < cap {
        Bootstrap { active_offset: last_offset, reopen: true, active_size: last_size }
    } else {
        proof {
            assert(entries@[n - 1].0 == sizes_sum(entries@, n - 1));
            assert(sizes_sum(entries@, n as int) == sizes_sum(entries@, n - 1) + entries@[n
                - 1].1);
        }
        Bootstrap {
            active_offset: last_offset + last_size,
            reopen: false,
            active_size: 0,
        }
    }
}

/// What the writer does with one incoming line.
#[derive(Debug, PartialEq, Eq, Clone, Copy)]
pub enum AppendPlan {
    /// The framed line exceeds the cap on its own: fail with
    /// `LineTooLarge`.
    Reject,
    /// The framed line would overflow the active segment: seal it, open a
    /// fresh segment at the new running total, then write.
    Rotate,
    /// The framed line fits the active segment: write it there.
    Append,
}

/// Decide, before writing, what to do with a line of `line_len` bytes
/// when the active segment holds `active_size` bytes. Rotation is
/// pre-write: a segment never grows past the cap.
pub fn plan_append(active_size: u64, cap: u64, line_len: u64) -> (r: AppendPlan)
    requires
        active_size <= cap,
    ensures
        r == AppendPlan::Reject <==> line_len + 1 > cap,
        r == AppendPlan::Rotate <==> line_len + 1 <= cap && active_size + line_len + 1 > cap,
        r == AppendPlan::Append <==> active_size + line_len + 1 <= cap,
{
    if line_len >= cap {
        AppendPlan::Reject
    } else if line_len + 1 > cap - active_size {
        AppendPlan::Rotate
    } else {
        AppendPlan::Append
    }
}

/// Where a reader positions itself for a cursor: the index of the segment
/// the cursor falls in and the offset to seek to within that segment.
pub fn locate_segment(sizes: &Vec<u64>, cursor: u64) -> (r: (usize, u64))
    requires
        sizes@.len() >= 1,
        size_sum(sizes@, sizes@.len() as int) <= u64::MAX,
        cursor as int <= size_sum(sizes@, sizes@.len() as int),
    ensures
        r.0 < sizes@.len(),
        size_sum(sizes@, r.0 as int) + r.1 == cursor,
        r.1 <= sizes@[r.0 as int],
        forall|j: int| 0 <= j < r.0 ==> cursor > #[trigger] size_sum(sizes@, j + 1),
{
    let mut offset: u64 = 0;
    let mut idx: usize = 0;
    let n = sizes.len();
    while idx < n - 1 && cursor - offset > sizes[idx]
        invariant
            0 <= idx < n,
            n == sizes@.len(),
            n >= 1,
            size_sum(sizes@, sizes@.len() as int) <= u64::MAX,
            cursor as int <= size_sum(sizes@, sizes@.len() as int),
            offset as int == size_sum(sizes@, idx as int),
            cursor as int >= offset as int,
            forall|j: int| 0 <= j < idx ==> cursor > #[trigger] size_sum(sizes@, j + 1),
        decreases n - idx,
    {
        proof {
            lemma_size_sum_mono(sizes@, idx + 1, sizes@.len() as int);
        }
        offset = offset + sizes[idx];
        idx = idx + 1;
    }
    proof {
        if idx == n - 1 {
            lemma_size_sum_mono(sizes@, idx as int, sizes@.len() as int);
            assert(size_sum(sizes@, n as int) == size_sum(sizes@, n - 1) + sizes@[n - 1]);
        }
    }
    (idx, cursor - offset)
}

/// The cursor a tracking reader hands out after emitting one line of
/// `line_len` bytes from position `pos`: the position just past the
/// line's newline. `None` only when the logical log would outgrow what a
/// cursor can address.
pub fn advance_cursor(pos: u64, line_len: u64) -> (r: Option<u64>)
    ensures
        line_len < u64::MAX && pos + line_len + 1 <= u64::MAX ==> r == Some(
            (pos + line_len + 1) as u64,
        ),
        r is None ==> pos + line_len + 1 > u64::MAX,
{
    match line_len.checked_add(1) {
        Some(framed) => pos.checked_add(framed),
        None => None,
    }
}

/// The running total of the first `i` sizes.
pub open spec fn size_sum(sizes: Seq<u64>, i: int) -> int
    decreases i,
{
    if i <= 0 {
        0
    } else {
        size_sum(sizes, i - 1) + sizes[i - 1]
    }
}

/// Running totals of sizes never shrink.
proof fn lemma_size_sum_mono(sizes: Seq<u64>, i: int, j: int)
    requires
        0 <= i <= j,
    ensures
        size_sum(sizes, i) <= size_sum(sizes, j),
    decreases j - i,
{
    if i < j {
        lemma_size_sum_mono(sizes, i, j - 1);
    }
}

} // verus!

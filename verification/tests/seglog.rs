use plumb::segfile::{
    advance_cursor, check_chain, locate_segment, parse_segment_name, plan_append,
    plan_bootstrap, segment_name, AppendPlan,
};
use plumb::seglog::{Log, LogError};

fn append_text(log: &mut Log, text: &str) {
    for line in text.split_terminator('\n') {
        log.append_line(&line.as_bytes().to_vec()).unwrap();
    }
}

fn read_string(log: &Log, cursor: usize) -> String {
    String::from_utf8(log.read_from(cursor)).unwrap()
}

#[test]
fn log_read() {
    let segment1 = "one\ntwo\nthree\nfour\n";
    let segment2 = "one-2\ntwo-2\nthree-2\nfour-2\n";
    let segment3 = "one-3\ntwo-3\nthree-3\nfour-3\n";

    let mut log = Log::new(1024 * 1024);

    // write the first batch
    append_text(&mut log, segment1);

    // read all
    assert_eq!(read_string(&log, 0), segment1);

    // read from cursor
    assert_eq!(read_string(&log, "one\n".len()), "two\nthree\nfour\n");

    // write two more batches
    append_text(&mut log, segment2);
    append_text(&mut log, segment3);

    // read all
    assert_eq!(
        read_string(&log, 0),
        [segment1, segment2, segment3].join("")
    );

    // read from a cursor that points into the second batch
    assert_eq!(
        read_string(&log, segment1.len() + "one-2\n".len()),
        ["two-2\nthree-2\nfour-2\n", segment3].join("")
    );

    // read from a cursor that points into the third batch
    assert_eq!(
        read_string(&log, segment1.len() + segment2.len() + "one-3\n".len()),
        "two-3\nthree-3\nfour-3\n"
    );

    // read from the very end
    assert_eq!(
        read_string(&log, segment1.len() + segment2.len() + segment3.len()),
        ""
    );
}

#[test]
fn log_bootstrap() {
    // 4608 lines of 1024 bytes (1025 framed) against a 1 MiB cap, twice
    let cap = 1024 * 1024;
    let line = vec![b'x'; 1024];
    let mut log = Log::new(cap);
    for _ in 0..2 {
        for _ in 0..4608 {
            log.append_line(&line).unwrap();
        }
    }

    // 1023 framed lines of 1025 bytes fit a segment; 9216 lines in all
    let per_segment = cap / 1025;
    assert_eq!(per_segment, 1023);
    let expected_segments = (9216 + per_segment - 1) / per_segment;
    assert_eq!(log.segment_count(), expected_segments);

    let mut total = 0usize;
    for i in 0..log.segment_count() {
        let seg = log.segment_bytes(i);
        assert!(seg.len() <= cap);
        assert_eq!(seg.last(), Some(&b'\n'));
        if i + 1 < log.segment_count() {
            assert_eq!(seg.len(), per_segment * 1025);
        }
        total += seg.len();
    }
    assert_eq!(total, 9216 * 1025);
    assert_eq!(log.read_from(0).len(), total);
}

#[test]
fn log_rejects_oversized_line() {
    let mut log = Log::new(4);
    // framed size 5 exceeds the cap of 4
    assert_eq!(
        log.append_line(&b"abcd".to_vec()),
        Err(LogError::LineTooLarge)
    );
    // nothing was written
    assert_eq!(log.read_from(0), Vec::<u8>::new());
    // framed size 4 fits exactly
    assert_eq!(log.append_line(&b"abc".to_vec()), Ok(()));
    assert_eq!(log.read_from(0), b"abc\n".to_vec());
}

#[test]
fn log_rotates_before_the_cap() {
    let mut log = Log::new(8);
    log.append_line(&b"aaa".to_vec()).unwrap(); // 4 bytes framed
    log.append_line(&b"bbb".to_vec()).unwrap(); // 8 bytes: fills segment
    log.append_line(&b"c".to_vec()).unwrap(); // must open a new segment
    assert_eq!(log.segment_count(), 2);
    assert_eq!(log.segment_bytes(0), b"aaa\nbbb\n".to_vec());
    assert_eq!(log.segment_bytes(1), b"c\n".to_vec());
    assert_eq!(read_string(&log, 0), "aaa\nbbb\nc\n");
}

#[test]
fn log_tracked_cursors_are_line_ends() {
    let mut log = Log::new(64);
    append_text(&mut log, "ab\nc\ndefg\n");
    let (bytes, cursors) = log.read_from_tracked(0);
    assert_eq!(bytes, b"ab\nc\ndefg\n".to_vec());
    assert_eq!(cursors, vec![3, 5, 10]);

    // a non-canonical cursor starts inside the straddled line
    let (bytes, cursors) = log.read_from_tracked(1);
    assert_eq!(bytes, b"b\nc\ndefg\n".to_vec());
    assert_eq!(cursors, vec![3, 5, 10]);
}

#[test]
fn cursor_resumability_at_every_split() {
    let mut log = Log::new(8);
    append_text(&mut log, "ab\nc\ndefg\nhi\n");
    let all = log.read_from(0);
    for k in 0..=all.len() {
        let tail = log.read_from(k);
        assert_eq!(tail, all[k..].to_vec());
        let mut joined = all[..k].to_vec();
        joined.extend_from_slice(&tail);
        assert_eq!(joined, all);
    }
}

#[test]
fn tracked_cursors_resume_after_whole_lines() {
    let mut log = Log::new(16);
    append_text(&mut log, "alpha\nbe\ngamma\nd\n");
    let (all, cursors) = log.read_from_tracked(0);
    let mut expected_tail: &[u8] = &all;
    for c in cursors {
        let (_, rest) = all.split_at(c);
        expected_tail = rest;
        let resumed = log.read_from(c);
        assert_eq!(resumed, expected_tail.to_vec());
        // line-aligned: the resumed output starts at a line start
        assert!(c == all.len() || all[c - 1] == b'\n');
    }
}

#[test]
fn advance_cursor_steps_past_the_newline() {
    assert_eq!(advance_cursor(3, 2), Some(6));
    assert_eq!(advance_cursor(0, 0), Some(1));
    assert_eq!(advance_cursor(u64::MAX - 1, 0), Some(u64::MAX));
    assert_eq!(advance_cursor(u64::MAX, 0), None);
    assert_eq!(advance_cursor(0, u64::MAX), None);
}

#[test]
fn segment_names_are_zero_padded_offsets() {
    assert_eq!(segment_name(0), b"00000000000000000000".to_vec());
    assert_eq!(segment_name(123), b"00000000000000000123".to_vec());
    assert_eq!(
        segment_name(u64::MAX),
        b"18446744073709551615".to_vec()
    );
}

#[test]
fn segment_name_parse_round_trip() {
    for offset in [0u64, 1, 42, 1025, 1047550, u64::MAX] {
        assert_eq!(parse_segment_name(&segment_name(offset)), Some(offset));
    }
    assert_eq!(parse_segment_name(&b"0123".to_vec()), None);
    assert_eq!(parse_segment_name(&b"0000000000000000000x".to_vec()), None);
    // twenty digits, but past what a byte offset can hold
    assert_eq!(parse_segment_name(&b"99999999999999999999".to_vec()), None);
}

#[test]
fn chain_check_accepts_contiguous_segments() {
    let entries = vec![(0u64, 19u64), (19, 27), (46, 27)];
    assert_eq!(check_chain(&entries), Ok(()));
    assert_eq!(check_chain(&Vec::new()), Ok(()));
}

#[test]
fn chain_check_rejects_gaps_and_overlaps() {
    let gap = vec![(0u64, 10u64), (11, 5)];
    assert_eq!(check_chain(&gap), Err(LogError::InvariantViolation));
    let overlap = vec![(0u64, 10u64), (9, 5)];
    assert_eq!(check_chain(&overlap), Err(LogError::InvariantViolation));
    let late_start = vec![(5u64, 10u64)];
    assert_eq!(check_chain(&late_start), Err(LogError::InvariantViolation));
}

#[test]
fn bootstrap_reopens_an_undersized_tail() {
    let cap = 100u64;
    let entries = vec![(0u64, 100u64), (100, 40)];
    let plan = plan_bootstrap(&entries, cap);
    assert_eq!(plan.active_offset, 100);
    assert!(plan.reopen);
    assert_eq!(plan.active_size, 40);
}

#[test]
fn bootstrap_starts_fresh_after_a_full_tail() {
    let cap = 100u64;
    let entries = vec![(0u64, 100u64), (100, 100)];
    let plan = plan_bootstrap(&entries, cap);
    assert_eq!(plan.active_offset, 200);
    assert!(!plan.reopen);
    assert_eq!(plan.active_size, 0);

    let empty: Vec<(u64, u64)> = Vec::new();
    let plan = plan_bootstrap(&empty, cap);
    assert_eq!(plan.active_offset, 0);
    assert!(!plan.reopen);
}

#[test]
fn append_plan_matches_the_rotation_rule() {
    assert_eq!(plan_append(0, 10, 10), AppendPlan::Reject);
    assert_eq!(plan_append(0, 10, 9), AppendPlan::Append);
    assert_eq!(plan_append(5, 10, 5), AppendPlan::Rotate);
    assert_eq!(plan_append(5, 10, 4), AppendPlan::Append);
}

#[test]
fn locate_finds_the_cursor_segment() {
    let sizes = vec![19u64, 27, 27];
    assert_eq!(locate_segment(&sizes, 0), (0, 0));
    assert_eq!(locate_segment(&sizes, 4), (0, 4));
    // a boundary cursor stays with the earlier segment, like the reader
    assert_eq!(locate_segment(&sizes, 19), (0, 19));
    assert_eq!(locate_segment(&sizes, 20), (1, 1));
    assert_eq!(locate_segment(&sizes, 73), (2, 27));
}

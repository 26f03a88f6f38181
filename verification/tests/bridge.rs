use plumb::bridge::{partition_lines, Quota};

fn lines_of(n: usize, text: &str) -> Vec<Vec<u8>> {
    (0..n).map(|_| text.as_bytes().to_vec()).collect()
}

#[test]
fn exec_out() {
    // with no input there is nothing to batch; the shell still spawns
    // one child, which inherits an immediately closed stdin
    let none: Vec<Vec<u8>> = Vec::new();
    let batches = partition_lines(&none, 2);
    assert!(batches.is_empty());
}

#[test]
fn exec_in_out() {
    // ten lines, no quota: a single child sees them all
    let input = lines_of(10, "hi");
    let mut quota = Quota::new(None);
    let mut fulls = 0;
    for _ in &input {
        if quota.after_line() {
            fulls += 1;
        }
    }
    assert_eq!(fulls, 0);
}

#[test]
fn exec_max_lines() {
    // ten lines with a quota of two: five children of two lines each
    let input = lines_of(10, "hi");
    let batches = partition_lines(&input, 2);
    assert_eq!(batches.len(), 5);
    for batch in &batches {
        assert_eq!(batch.len(), 2);
        for line in batch {
            assert_eq!(line, &b"hi".to_vec());
        }
    }

    // the online form fills a child after every second line
    let mut quota = Quota::new(Some(2));
    let mut fulls = 0;
    for _ in &input {
        if quota.after_line() {
            fulls += 1;
        }
    }
    assert_eq!(fulls, 5);
}

#[test]
fn partition_keeps_every_line_in_order() {
    let input: Vec<Vec<u8>> = (0..10u8).map(|i| vec![i]).collect();
    let batches = partition_lines(&input, 3);
    assert_eq!(batches.len(), 4);
    assert_eq!(
        batches.iter().map(|b| b.len()).collect::<Vec<_>>(),
        vec![3, 3, 3, 1]
    );
    let rejoined: Vec<Vec<u8>> = batches.into_iter().flatten().collect();
    assert_eq!(rejoined, input);
}

#[test]
fn partition_with_exact_multiple_has_full_batches() {
    let input = lines_of(6, "x");
    let batches = partition_lines(&input, 3);
    assert_eq!(batches.len(), 2);
    assert_eq!(batches[0].len(), 3);
    assert_eq!(batches[1].len(), 3);
}

#[test]
fn quota_counts_per_child() {
    let mut quota = Quota::new(Some(3));
    // the third line fills the first child
    assert!(!quota.after_line());
    assert!(!quota.after_line());
    assert!(quota.after_line());
    // the sixth fills the second
    assert!(!quota.after_line());
    assert!(!quota.after_line());
    assert!(quota.after_line());
    assert!(!quota.after_line());
}

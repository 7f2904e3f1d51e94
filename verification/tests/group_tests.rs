use oldirs::group::OutRecord;
use oldirs::group::ParentPrintBuffer;

fn push(
    buffer: &mut ParentPrintBuffer,
    out: &mut Vec<OutRecord>,
    path: &str,
    owner: Option<&str>,
    size: u64,
) {
    buffer.push(path.to_string(), owner.map(|o| o.to_string()), size, out);
}

#[test]
fn test_grouping_threshold_three() {
    let mut buffer = ParentPrintBuffer::new(3);
    let mut out: Vec<OutRecord> = Vec::new();
    push(&mut buffer, &mut out, "/p/1", None, 10);
    push(&mut buffer, &mut out, "/p/2", None, 20);
    push(&mut buffer, &mut out, "/p/3", None, 30);
    assert!(out.is_empty());
    push(&mut buffer, &mut out, "/q/1", None, 40);
    // The finished run is summarized into one record for /p.
    assert_eq!(out.len(), 1);
    assert_eq!(out[0].path, "/p");
    assert_eq!(out[0].size, 60);
    assert!(out[0].grouped);
    buffer.flush(None, &mut out);
    // The short run under /q (one record, fewer than three) comes out
    // ungrouped.
    assert_eq!(out.len(), 2);
    assert_eq!(out[1].path, "/q/1");
    assert_eq!(out[1].size, 40);
    assert!(!out[1].grouped);
}

#[test]
fn test_long_run_emits_one_summary_before_next_run() {
    let mut buffer = ParentPrintBuffer::new(2);
    let mut out: Vec<OutRecord> = Vec::new();
    push(&mut buffer, &mut out, "d/a", Some("alice"), 1);
    push(&mut buffer, &mut out, "d/b", Some("bob"), 2);
    push(&mut buffer, &mut out, "e/c", Some("carol"), 4);
    assert_eq!(out.len(), 1);
    assert_eq!(out[0].path, "d");
    assert_eq!(out[0].size, 3);
    assert!(out[0].grouped);
    // The summarized record carries the owner tag supplied at the
    // boundary, not one from the buffer.
    assert_eq!(out[0].owner.as_deref(), Some("carol"));
}

#[test]
fn test_short_run_emits_individually_in_order() {
    let mut buffer = ParentPrintBuffer::new(5);
    let mut out: Vec<OutRecord> = Vec::new();
    push(&mut buffer, &mut out, "d/a", Some("alice"), 1);
    push(&mut buffer, &mut out, "d/b", Some("bob"), 2);
    assert!(out.is_empty());
    buffer.flush(Some("zoe".to_string()), &mut out);
    assert_eq!(out.len(), 2);
    assert_eq!(out[0].path, "d/a");
    assert_eq!(out[0].owner.as_deref(), Some("alice"));
    assert!(!out[0].grouped);
    assert_eq!(out[1].path, "d/b");
    assert_eq!(out[1].owner.as_deref(), Some("bob"));
    assert!(!out[1].grouped);
}

#[test]
fn test_group_zero_disables_grouping() {
    let mut buffer = ParentPrintBuffer::new(0);
    let mut out: Vec<OutRecord> = Vec::new();
    push(&mut buffer, &mut out, "d/a", None, 1);
    assert_eq!(out.len(), 1);
    assert_eq!(out[0].path, "d/a");
    assert!(!out[0].grouped);
    push(&mut buffer, &mut out, "e/b", None, 2);
    assert_eq!(out.len(), 2);
    buffer.flush(None, &mut out);
    assert_eq!(out.len(), 2);
}

#[test]
fn test_exact_threshold_groups() {
    let mut buffer = ParentPrintBuffer::new(2);
    let mut out: Vec<OutRecord> = Vec::new();
    push(&mut buffer, &mut out, "d/a", None, 7);
    push(&mut buffer, &mut out, "d/b", None, 8);
    buffer.flush(None, &mut out);
    assert_eq!(out.len(), 1);
    assert_eq!(out[0].path, "d");
    assert_eq!(out[0].size, 15);
    assert!(out[0].grouped);
}

#[test]
fn test_sum_saturates_at_maximum() {
    let mut buffer = ParentPrintBuffer::new(2);
    let mut out: Vec<OutRecord> = Vec::new();
    push(&mut buffer, &mut out, "d/a", None, u64::MAX - 1);
    push(&mut buffer, &mut out, "d/b", None, 5);
    buffer.flush(None, &mut out);
    assert_eq!(out.len(), 1);
    assert_eq!(out[0].size, u64::MAX);
}

use nexmon::gpu::parse_gpu_output;
use nexmon::ring::{RingBuffer, HISTORY_LEN};

#[test]
fn ring_buffer_starts_full_of_zeroes() {
    let rb = RingBuffer::new();
    assert_eq!(rb.len(), HISTORY_LEN);
    assert!(rb.values().iter().all(|v| *v == 0));
}

#[test]
fn ring_buffer_keeps_last_window_in_push_order() {
    let mut rb = RingBuffer::new();
    for v in 0..130u64 {
        rb.push(v);
        assert_eq!(rb.len(), HISTORY_LEN);
    }
    let expected: Vec<u64> = (70..130).collect();
    assert_eq!(rb.values().clone(), expected);
}

#[test]
fn ring_buffer_partial_fill_keeps_zero_prefix() {
    let mut rb = RingBuffer::new();
    rb.push(7);
    rb.push(8);
    rb.push(9);
    let vals = rb.values();
    assert_eq!(vals.len(), HISTORY_LEN);
    assert!(vals[..HISTORY_LEN - 3].iter().all(|v| *v == 0));
    assert_eq!(&vals[HISTORY_LEN - 3..], &[7, 8, 9]);
}

#[test]
fn gpu_single_record_parses_all_fields() {
    let text = "0, GeForce RTX 3080, 45, 1024, 10240, 65\n";
    let gpus = parse_gpu_output(text).expect("one valid record");
    assert_eq!(gpus.len(), 1);
    assert_eq!(gpus[0].name, "GeForce RTX 3080");
    assert_eq!(gpus[0].usage, 45);
    assert_eq!(gpus[0].mem_used_mb, 1024);
    assert_eq!(gpus[0].mem_total_mb, 10240);
    assert_eq!(gpus[0].temp_c, 65);
    assert_eq!(gpus[0].history.len(), HISTORY_LEN);
    assert!(gpus[0].history.values().iter().all(|v| *v == 0));
}

#[test]
fn gpu_multiple_records_keep_command_order() {
    let text = "0, A, 10, 1, 2, 30\n1, B, 20, 3, 4, 40\n";
    let gpus = parse_gpu_output(text).expect("two valid records");
    assert_eq!(gpus.len(), 2);
    assert_eq!(gpus[0].name, "A");
    assert_eq!(gpus[1].name, "B");
    assert_eq!(gpus[1].usage, 20);
}

#[test]
fn gpu_wrong_field_count_is_skipped() {
    let text = "0, A, 10, 1, 2\n1, B, 20, 3, 4, 40\nnot a record\n";
    let gpus = parse_gpu_output(text).expect("one valid record among junk");
    assert_eq!(gpus.len(), 1);
    assert_eq!(gpus[0].name, "B");
}

#[test]
fn gpu_unparsable_numeric_fields_default_to_zero() {
    let text = "0, Card, N/A, [err], 8192, -5\n";
    let gpus = parse_gpu_output(text).expect("field count is right");
    assert_eq!(gpus[0].usage, 0);
    assert_eq!(gpus[0].mem_used_mb, 0);
    assert_eq!(gpus[0].mem_total_mb, 8192);
    assert_eq!(gpus[0].temp_c, 0);
}

#[test]
fn gpu_zero_valid_records_is_unavailable() {
    assert!(parse_gpu_output("").is_none());
    assert!(parse_gpu_output("garbage output\nno commas here\n").is_none());
    assert!(parse_gpu_output("a, b, c\nd, e\n").is_none());
}

use safemask::chunker::split_into_chunks;
use safemask::engine::MaskEngine;
use safemask::pipeline::ReorderBuffer;
use safemask::pipeline::count_lines;
use safemask::pipeline::masked_output_name;
use safemask::pipeline::process_bytes;
use safemask::pipeline::progress_permille;
use safemask::rules::Rule;

fn rule(name: &str, pattern: &str, mask: &str, priority: i32) -> Rule {
    Rule {
        name: name.to_string(),
        pattern: pattern.to_string(),
        mask: mask.to_string(),
        priority,
        enabled: true,
        is_custom: false,
    }
}

#[test]
fn chunks_partition_the_input() {
    let data = b"aaaa\nbbbb\ncccc\ndddd";
    let bounds = split_into_chunks(data, 6);
    assert_eq!(bounds[0].0, 0);
    assert_eq!(bounds.last().unwrap().1, data.len());
    for w in bounds.windows(2) {
        assert_eq!(w[0].1, w[1].0);
    }
    for &(s, e) in &bounds {
        assert!(s < e);
    }
}

#[test]
fn chunks_end_after_newlines() {
    let data = b"aaaa\nbbbb\ncccc\ndddd";
    let bounds = split_into_chunks(data, 6);
    for &(_, e) in &bounds[..bounds.len() - 1] {
        assert_eq!(data[e - 1], b'\n');
    }
}

#[test]
fn empty_input_has_no_chunks() {
    assert!(split_into_chunks(b"", 8).is_empty());
}

#[test]
fn pipeline_output_equals_whole_input_masking() {
    // a large line-oriented input with injected emails; chunking is
    // newline-aligned and no rule matches across a newline, so the
    // chunk-by-chunk output must equal masking the whole input at once
    let engine = MaskEngine::new(vec![
        rule("mail", "[a-z]+@[a-z]+\\.com", "<EMAIL>", 10),
        rule("key", "hunter2", "<PW>", 0),
    ]);
    let mut data: Vec<u8> = Vec::new();
    for i in 0..20000 {
        if i % 17 == 0 {
            data.extend_from_slice(b"contact bob@example.com or hunter2 now\n");
        } else {
            data.extend_from_slice(b"plain log line with nothing sensitive in it\n");
        }
    }
    let whole = engine.mask_line(&data);
    for chunk_size in [1usize, 7, 1024, 8192, 1 << 20] {
        let piped = process_bytes(&engine, &data, chunk_size);
        assert_eq!(piped, whole);
    }
}

#[test]
fn reorder_buffer_restores_chunk_order() {
    let chunks: Vec<Vec<u8>> = (0..10u8).map(|i| vec![i; 3]).collect();
    // results arrive in a scrambled order
    let arrival = [3usize, 0, 1, 7, 2, 5, 4, 9, 6, 8];
    let mut buf = ReorderBuffer::new();
    let mut written: Vec<u8> = Vec::new();
    for &idx in &arrival {
        for flushed in buf.accept(idx, chunks[idx].clone()) {
            written.extend_from_slice(&flushed);
        }
    }
    let expected: Vec<u8> = chunks.concat();
    assert_eq!(written, expected);
    assert_eq!(buf.pending_len(), 0);
}

#[test]
fn reorder_buffer_flushes_contiguous_runs() {
    let mut buf = ReorderBuffer::new();
    assert!(buf.accept(1, b"b".to_vec()).is_empty());
    assert!(buf.accept(2, b"c".to_vec()).is_empty());
    let run = buf.accept(0, b"a".to_vec());
    assert_eq!(run, vec![b"a".to_vec(), b"b".to_vec(), b"c".to_vec()]);
}

#[test]
fn progress_reaches_exactly_one_thousand() {
    assert_eq!(progress_permille(0, 10), 0);
    assert_eq!(progress_permille(5, 10), 500);
    assert_eq!(progress_permille(10, 10), 1000);
    assert_eq!(progress_permille(1, 3), 333);
}

#[test]
fn progress_is_monotone_over_a_run() {
    let total = 7777u64;
    let mut last = 0u32;
    for p in 0..=total {
        let cur = progress_permille(p, total);
        assert!(cur >= last);
        last = cur;
    }
    assert_eq!(last, 1000);
}

#[test]
fn output_name_keeps_extension() {
    let name = masked_output_name(&b"report".to_vec(), &b"log".to_vec());
    assert_eq!(name, b"report.masked.log".to_vec());
}

#[test]
fn output_name_turns_pdf_into_txt() {
    let name = masked_output_name(&b"paper".to_vec(), &b"pdf".to_vec());
    assert_eq!(name, b"paper.masked.txt".to_vec());
}

#[test]
fn line_count_counts_newlines() {
    assert_eq!(count_lines(b"a\nb\nc\n"), 3);
    assert_eq!(count_lines(b"no newline"), 0);
    assert_eq!(count_lines(b""), 0);
}

#[test]
fn permit_gauge_caps_in_flight_chunks() {
    let mut gauge = safemask::pipeline::PermitGauge::new(3);
    assert!(gauge.try_acquire());
    assert!(gauge.try_acquire());
    assert!(gauge.try_acquire());
    // the account is exhausted: a fourth chunk must wait
    assert!(!gauge.try_acquire());
    gauge.release();
    assert!(gauge.try_acquire());
    assert!(!gauge.try_acquire());
}

use gorl::lineview::{IndexBuilder, LineBasedFileView, LineChunk, LineError, LineStep};

fn numbered_lines(n: usize) -> Vec<u8> {
    let mut out = Vec::new();
    for i in 0..n {
        out.extend_from_slice(format!("line {i}\n").as_bytes());
    }
    out
}

fn view_of(bytes: &[u8], chunk_size: u64) -> LineBasedFileView {
    let mut builder = IndexBuilder::new(chunk_size);
    builder.feed(bytes);
    LineBasedFileView::new(builder)
}

fn chunks_of(bytes: &[u8], chunk_size: u64) -> Vec<LineChunk> {
    let mut builder = IndexBuilder::new(chunk_size);
    // hand the bytes in uneven blocks, as a reader would
    for block in bytes.chunks(37) {
        builder.feed(block);
    }
    builder.finish()
}

/// Serves a line, reading from `bytes` when the view asks; counts the reads.
fn serve(view: &mut LineBasedFileView, bytes: &[u8], index: u64, reads: &mut usize) -> Result<String, LineError> {
    match view.get_line(index) {
        LineStep::Ready(r) => r,
        LineStep::Fetch(plan) => {
            *reads += 1;
            let start = plan.offset as usize;
            let end = start + plan.length as usize;
            view.refill_and_get(index, &bytes[start..end])
        }
    }
}

#[test]
fn ten_thousand_lines_make_twenty_chunks() {
    let bytes = numbered_lines(10_000);
    let mut view = view_of(&bytes, 500);
    assert_eq!(view.page_count(), 20);
    assert_eq!(view.line_count(), 10_000);

    let mut reads = 0;
    assert_eq!(serve(&mut view, &bytes, 10, &mut reads), Ok("line 10".to_string()));
    assert_eq!(reads, 1);
    assert_eq!(serve(&mut view, &bytes, 7, &mut reads), Ok("line 7".to_string()));
    assert_eq!(serve(&mut view, &bytes, 250, &mut reads), Ok("line 250".to_string()));
    assert_eq!(reads, 1);
}

#[test]
fn refill_window_is_chunk_aligned() {
    let bytes = numbered_lines(10_000);
    let view = view_of(&bytes, 500);
    match view.get_line(2_600) {
        LineStep::Fetch(plan) => {
            assert_eq!(plan.left_line, 2_000);
            assert_eq!(plan.right_line, 3_500);
        }
        LineStep::Ready(_) => panic!("an empty cache cannot answer"),
    }
}

#[test]
fn second_request_is_a_cache_hit() {
    let bytes = numbered_lines(3_000);
    let mut view = view_of(&bytes, 100);
    let mut reads = 0;
    let first = serve(&mut view, &bytes, 1_234, &mut reads);
    let second = view.get_line(1_234);
    assert_eq!(reads, 1);
    assert_eq!(first, Ok("line 1234".to_string()));
    assert_eq!(second, LineStep::Ready(Ok("line 1234".to_string())));
}

#[test]
fn hit_and_refill_give_the_same_text() {
    let bytes = numbered_lines(5_000);
    let mut cold = view_of(&bytes, 200);
    let mut warm = view_of(&bytes, 200);
    let mut reads = 0;
    serve(&mut warm, &bytes, 500, &mut reads);
    for i in [300u64, 399, 400, 555, 799] {
        let from_refill = serve(&mut cold, &bytes, i, &mut reads);
        let from_hit = match warm.get_line(i) {
            LineStep::Ready(r) => r,
            LineStep::Fetch(_) => panic!("line {i} should be cached"),
        };
        assert_eq!(from_refill, from_hit);
        assert_eq!(from_hit, Ok(format!("line {i}")));
    }
}

#[test]
fn line_count_and_beyond_is_not_found() {
    let bytes = numbered_lines(1_000);
    let mut view = view_of(&bytes, 500);
    let mut reads = 0;
    assert_eq!(serve(&mut view, &bytes, 1_000, &mut reads), Err(LineError::NotFound(1_000)));
    assert_eq!(serve(&mut view, &bytes, 5_000, &mut reads), Err(LineError::NotFound(5_000)));
    assert_eq!(serve(&mut view, &bytes, u64::MAX, &mut reads), Err(LineError::NotFound(u64::MAX)));
    assert_eq!(serve(&mut view, &bytes, 999, &mut reads), Ok("line 999".to_string()));
}

#[test]
fn empty_file_has_no_lines() {
    let bytes: Vec<u8> = Vec::new();
    let mut view = view_of(&bytes, 500);
    assert_eq!(view.line_count(), 0);
    assert_eq!(view.page_count(), 1);
    let mut reads = 0;
    assert_eq!(serve(&mut view, &bytes, 0, &mut reads), Err(LineError::NotFound(0)));
    assert_eq!(serve(&mut view, &bytes, 3, &mut reads), Err(LineError::NotFound(3)));
}

#[test]
fn empty_file_index_is_one_empty_chunk() {
    let chunks = chunks_of(&[], 500);
    assert_eq!(
        chunks,
        vec![LineChunk { fst_line: 0, lst_line: 0, left_offset: 0, right_offset: 0 }]
    );
}

#[test]
fn chunks_partition_the_file() {
    let mut bytes = Vec::new();
    for i in 0..1_234 {
        bytes.extend_from_slice("x".repeat(i % 17).as_bytes());
        bytes.push(b'\n');
    }
    bytes.extend_from_slice(b"no newline at the end");
    let chunks = chunks_of(&bytes, 100);
    assert_eq!(chunks.len(), 13);
    assert_eq!(chunks[0].fst_line, 0);
    assert_eq!(chunks[0].left_offset, 0);
    assert_eq!(chunks.last().unwrap().lst_line, 1_235);
    let mut joined = Vec::new();
    for (k, c) in chunks.iter().enumerate() {
        joined.extend_from_slice(&bytes[c.left_offset as usize..c.right_offset as usize]);
        if k + 1 < chunks.len() {
            assert_eq!(c.right_offset, chunks[k + 1].left_offset);
            assert_eq!(c.lst_line, chunks[k + 1].fst_line);
        }
    }
    assert_eq!(joined, bytes);
    for line in 0..1_235u64 {
        let holding = chunks.iter().filter(|c| c.fst_line <= line && line < c.lst_line).count();
        assert_eq!(holding, 1);
    }
}

#[test]
fn exact_multiple_of_chunk_size_adds_no_empty_chunk() {
    let chunks = chunks_of(&numbered_lines(1_000), 500);
    assert_eq!(chunks.len(), 2);
    assert_eq!(chunks[1].fst_line, 500);
    assert_eq!(chunks[1].lst_line, 1_000);
}

#[test]
fn small_file_fits_one_chunk() {
    let bytes = b"a\nbb\nccc\n";
    let chunks = chunks_of(bytes, 500);
    assert_eq!(
        chunks,
        vec![LineChunk { fst_line: 0, lst_line: 3, left_offset: 0, right_offset: 9 }]
    );
}

#[test]
fn terminators_are_dropped() {
    let bytes = b"first\r\nsecond\n\nlast\r".to_vec();
    let mut view = view_of(&bytes, 2);
    assert_eq!(view.line_count(), 4);
    let mut reads = 0;
    assert_eq!(serve(&mut view, &bytes, 0, &mut reads), Ok("first".to_string()));
    assert_eq!(serve(&mut view, &bytes, 1, &mut reads), Ok("second".to_string()));
    assert_eq!(serve(&mut view, &bytes, 2, &mut reads), Ok(String::new()));
    assert_eq!(serve(&mut view, &bytes, 3, &mut reads), Ok("last\r".to_string()));
}

#[test]
fn invalid_utf8_becomes_a_replacement_character() {
    let bytes = b"ok\nbad \xff byte\nfine\n".to_vec();
    let mut view = view_of(&bytes, 500);
    let mut reads = 0;
    assert_eq!(serve(&mut view, &bytes, 1, &mut reads), Ok("bad \u{fffd} byte".to_string()));
    assert_eq!(serve(&mut view, &bytes, 2, &mut reads), Ok("fine".to_string()));
}

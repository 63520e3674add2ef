use gorl::search::{CompressedSearchResults, BLOCK_LEN};

fn matches(n: u32) -> Vec<u32> {
    // strictly increasing line numbers with uneven gaps, 1-based
    (0..n).map(|i| 1 + 3 * i + (i % 7) * (i % 3)).scan(0u32, |last, v| {
        let next = if v > *last { v } else { *last + 1 };
        *last = next;
        Some(next)
    }).collect()
}

#[test]
fn thirteen_hundred_matches_make_six_pages() {
    let values = matches(1_300);
    let store = CompressedSearchResults::from_line_numbers(&values);
    assert_eq!(store.get_count(), 1_300);
    assert_eq!(store.page_count(), 6);
    assert_eq!(store.get(1_299), Some(values[1_299]));
    assert_eq!(store.get(1_300), None);
}

#[test]
fn every_value_comes_back() {
    let values = matches(3_000);
    let store = CompressedSearchResults::from_line_numbers(&values);
    assert_eq!(store.get_count(), values.len());
    for (i, v) in values.iter().enumerate() {
        assert_eq!(store.get(i), Some(*v));
    }
}

#[test]
fn append_and_finish_through_a_buffer() {
    let mut store = CompressedSearchResults::new();
    let mut buffer = Vec::with_capacity(BLOCK_LEN);
    let values: Vec<u32> = (0..600u32).map(|i| 10 + i * 1_000).collect();
    for v in &values {
        store.append_line_number(*v, &mut buffer);
    }
    store.finish(&mut buffer);
    assert!(buffer.is_empty());
    assert_eq!(store.get_count(), 600);
    assert_eq!(store.page_count(), 3);
    assert_eq!(store.get(0), Some(10));
    assert_eq!(store.get(599), Some(599_010));
    assert_eq!(store.get(600), None);
}

#[test]
fn padding_is_never_seen() {
    let values: Vec<u32> = (1..=20).collect();
    let store = CompressedSearchResults::from_line_numbers(&values);
    assert_eq!(store.get_count(), 20);
    assert_eq!(store.get(19), Some(20));
    assert_eq!(store.get(20), None);
    assert_eq!(store.get(255), None);
}

#[test]
fn empty_store() {
    let mut store = CompressedSearchResults::new();
    let mut buffer = Vec::new();
    store.finish(&mut buffer);
    assert_eq!(store.get_count(), 0);
    assert_eq!(store.page_count(), 0);
    assert_eq!(store.get(0), None);
}

#[test]
fn one_whole_block() {
    let values: Vec<u32> = (0..BLOCK_LEN as u32).collect();
    let store = CompressedSearchResults::from_line_numbers(&values);
    assert_eq!(store.page_count(), 1);
    assert_eq!(store.get_count(), BLOCK_LEN);
    assert_eq!(store.get(0), Some(0));
    assert_eq!(store.get(255), Some(255));
    assert_eq!(store.get(256), None);
}

#[test]
fn large_line_numbers_survive() {
    let values: Vec<u32> = (0..300u32).map(|i| u32::MAX - 300 + i).collect();
    let store = CompressedSearchResults::from_line_numbers(&values);
    assert_eq!(store.get(0), Some(u32::MAX - 300));
    assert_eq!(store.get(299), Some(u32::MAX - 1));
}

#[test]
fn size_counts_the_packed_bytes() {
    let store = CompressedSearchResults::from_line_numbers(&matches(1_000));
    assert!(store.get_size() >= 4 * 4 * 8);
    assert!(CompressedSearchResults::new().get_size() >= 8192);
}

use downfast::block_range_iter::{get_range, BlockRangeIter};

#[test]
fn test_range() {
    let ranges = get_range(0, 22766251, 1024 * 1204 * 2).unwrap();
    for range in &ranges {
        println!("{:?}", range);
    }
}

#[test]
fn ranges_of_a_small_interval() {
    let ranges = get_range(0, 9, 4).unwrap();
    let got: Vec<(u64, String)> = ranges.into_iter().map(|r| (r.prev_size, r.range_str)).collect();
    assert_eq!(
        got,
        vec![
            (0, "bytes=0-3".to_string()),
            (4, "bytes=4-7".to_string()),
            (8, "bytes=8-9".to_string()),
        ]
    );
}

#[test]
fn zero_block_size_is_refused() {
    assert_eq!(BlockRangeIter::new(0, 10, 0).err(), Some("无效"));
    assert_eq!(get_range(0, 10, 0).err(), Some("无效"));
}

#[test]
fn empty_interval_has_no_blocks() {
    let mut it = BlockRangeIter::new(5, 4, 3).unwrap();
    assert!(it.next().is_none());
    assert!(it.next().is_none());
    assert!(get_range(5, 4, 3).unwrap().is_empty());
}

#[test]
fn single_byte_interval() {
    let mut it = BlockRangeIter::new(7, 7, 100).unwrap();
    let r = it.next().unwrap();
    assert_eq!(r.prev_size, 7);
    assert_eq!(r.range_str, "bytes=7-7");
    assert!(it.next().is_none());
}

#[test]
fn blocks_tile_the_interval() {
    let ranges = get_range(5, 100, 7).unwrap();
    let mut expected_start = 5u64;
    for (i, r) in ranges.iter().enumerate() {
        assert_eq!(r.prev_size, expected_start);
        let last: u64 = r.range_str.rsplit('-').next().unwrap().parse().unwrap();
        if i + 1 < ranges.len() {
            assert_eq!(last - r.prev_size + 1, 7);
        } else {
            assert_eq!(last, 100);
        }
        expected_start = last + 1;
    }
    assert_eq!(expected_start, 101);
    assert_eq!(ranges.len(), 14);
}

#[test]
fn iterator_reaches_the_largest_end_below_max() {
    let mut it = BlockRangeIter::new(u64::MAX - 3, u64::MAX - 1, 2).unwrap();
    assert_eq!(it.next().unwrap().range_str, format!("bytes={}-{}", u64::MAX - 3, u64::MAX - 2));
    assert_eq!(it.next().unwrap().range_str, format!("bytes={}-{}", u64::MAX - 1, u64::MAX - 1));
    assert!(it.next().is_none());
}

#[test]
fn zero_block_size_is_refused_up_to_the_last_byte() {
    assert_eq!(get_range(0, u64::MAX, 0).err(), Some("无效"));
}

#[test]
fn blocks_in_closed_form() {
    let (s, e, b) = (3u64, 50u64, 8u32);
    let ranges = get_range(s, e, b).unwrap();
    assert_eq!(ranges.len() as u64, (e - s) / b as u64 + 1);
    for (k, r) in ranges.iter().enumerate() {
        let first = s + k as u64 * b as u64;
        let last = std::cmp::min(first + b as u64 - 1, e);
        assert_eq!(r.prev_size, first);
        assert_eq!(r.range_str, format!("bytes={}-{}", first, last));
    }
}

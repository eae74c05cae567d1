use downfast::dowloadfile::Dowloadfile;

#[test]
fn insert_sort_sorts_in_place() {
    let mut v = vec![5u64, 3, 9, 1, 3];
    let r = Dowloadfile::insert_sort(&mut v).clone();
    assert_eq!(r, vec![1, 3, 3, 5, 9]);
    assert_eq!(v, vec![1, 3, 3, 5, 9]);
    let mut e: Vec<u64> = vec![];
    assert!(Dowloadfile::insert_sort(&mut e).is_empty());
    let mut d = vec![4u64, 3, 2, 1, 0];
    Dowloadfile::insert_sort(&mut d);
    assert_eq!(d, vec![0, 1, 2, 3, 4]);
}

#[test]
fn chunk_path_names_the_offset() {
    assert_eq!(Dowloadfile::chunk_path(0), ".down/0");
    assert_eq!(Dowloadfile::chunk_path(4194304), ".down/4194304");
}

#[test]
fn merge_order_reads_written_names_back() {
    let offsets = [4194304u64, 0, 2097152];
    let names: Vec<String> = offsets
        .iter()
        .map(|o| Dowloadfile::chunk_path(*o).trim_start_matches(".down/").to_string())
        .collect();
    assert_eq!(Dowloadfile::merge_order(&names), Some(vec![0, 2097152, 4194304]));
    let bad = vec!["12".to_string(), "part".to_string()];
    assert_eq!(Dowloadfile::merge_order(&bad), None);
    assert_eq!(Dowloadfile::merge_order(&vec![]), Some(vec![]));
}

#[test]
fn new_download_file_has_written_nothing() {
    let f = Dowloadfile::new("out.bin", 42);
    assert_eq!(f.file_name(), "out.bin");
    assert_eq!(f.file_size(), 42);
    assert_eq!(f.wote_size(), 0);
}

#[test]
fn blocks_rejoin_in_cut_order() {
    let ranges = downfast::block_range_iter::get_range(0, 9_999_999, 2097152).unwrap();
    let starts: Vec<u64> = ranges.iter().map(|r| r.prev_size).collect();
    let mut names: Vec<String> = starts
        .iter()
        .map(|o| Dowloadfile::chunk_path(*o)[".down/".len()..].to_string())
        .collect();
    names.reverse();
    names.swap(0, 2);
    assert_eq!(Dowloadfile::merge_order(&names), Some(starts));
}

use downfast::task::{Task, CHUNK_SIZE};

#[test]
fn filename_from_content_disposition() {
    assert_eq!(Task::filename_from_headers(Some("attachment; filename=report.pdf")), "report.pdf");
    assert_eq!(Task::filename_from_headers(Some("INLINE ;filename=a.txt")), "a.txt");
    assert_eq!(Task::filename_from_headers(Some("inline; filename=\"a.txt\"")), "\"a.txt\"");
    assert_eq!(Task::filename_from_headers(Some("attachment; filename=dir/sub/name.bin")), "name.bin");
    assert_eq!(Task::filename_from_headers(Some("attachment; filename= x.bin ")), "x.bin");
    assert_eq!(Task::filename_from_headers(Some("attachment; filename=a=b")), "a");
    assert_eq!(Task::filename_from_headers(Some("attachment; filename=..")), "");
    assert_eq!(Task::filename_from_headers(Some("form-data; filename=x")), "");
    assert_eq!(Task::filename_from_headers(Some("attachment")), "");
    assert_eq!(Task::filename_from_headers(Some("attachment; filename = x")), "");
    assert_eq!(Task::filename_from_headers(Some("attachment; filename=a; filename=b")), "");
    assert_eq!(Task::filename_from_headers(Some("attachment; size=3; filename=c.zip")), "c.zip");
    assert_eq!(Task::filename_from_headers(None), "");
}

#[test]
fn filename_from_url_takes_the_last_component() {
    assert_eq!(Task::filename_from_url("http://host/path/file.tar.gz"), "file.tar.gz");
    assert_eq!(Task::filename_from_url("http://host"), "host");
}

#[test]
fn get_filename_falls_back_in_order() {
    assert_eq!(Task::get_filename("http://h/x.iso", false, None), Some("downfast.b"));
    assert_eq!(Task::get_filename("http://h/x.iso", true, None), Some("x.iso"));
    assert_eq!(
        Task::get_filename("http://h/x.iso", true, Some("attachment; filename=y.iso")),
        Some("y.iso")
    );
    assert_eq!(Task::get_filename("", true, None), Some(""));
    assert_eq!(Task::get_filename("http://h/..", true, None), None);
}

#[test]
fn output_path_joins_like_pathbuf() {
    assert_eq!(Task::output_path("./", true, "f.bin"), "./f.bin");
    assert_eq!(Task::output_path("out", true, "f.bin"), "out/f.bin");
    assert_eq!(Task::output_path("name.bin", false, "f.bin"), "name.bin");
    assert_eq!(Task::output_path("d", true, "/abs"), "/abs");
    assert_eq!(Task::output_path("d", true, ""), "d/");
    assert_eq!(Task::output_path("", true, "f"), "f");
}

#[test]
fn total_from_content_range_values() {
    assert_eq!(Task::total_from_content_range(None), Some(0));
    assert_eq!(Task::total_from_content_range(Some("bytes 0-0/22766251")), Some(22766251));
    assert_eq!(Task::total_from_content_range(Some("bytes 0-0")), None);
    assert_eq!(Task::total_from_content_range(Some("bytes 0-0/*")), None);
    assert_eq!(Task::total_from_content_range(Some("a/12/b")), Some(12));
}

#[test]
fn resolve_url_serializes() {
    assert_eq!(
        Task::resolve_url("HTTP://Example.COM/a b").as_deref(),
        Some("http://example.com/a%20b")
    );
    assert_eq!(Task::resolve_url("http://host").as_deref(), Some("http://host/"));
    assert_eq!(Task::resolve_url("not a url"), None);
}

#[test]
fn task_bounds() {
    let t = Task::new(10);
    assert_eq!(t.lower(), 0);
    assert_eq!(t.upper(), 10);
}

#[test]
fn transfer_walks_blocks_and_progress_reaches_size() {
    let size = 5_000_000u64;
    let t = Task::new(size);
    let mut tr = t.block_down();
    let mut headers = vec![];
    let mut positions = vec![];
    while let Some(r) = tr.next_range() {
        headers.push(r.range_str);
        positions.push(tr.record_chunk());
    }
    assert_eq!(
        headers,
        vec!["bytes=0-2097151", "bytes=2097152-4194303", "bytes=4194304-4999999"]
    );
    assert_eq!(positions, vec![2097152, 4194304, 5000000]);
    assert_eq!(CHUNK_SIZE, 2097152);
}

#[test]
fn transfer_of_one_byte() {
    let mut tr = Task::new(1).block_down();
    assert_eq!(tr.next_range().unwrap().range_str, "bytes=0-0");
    assert_eq!(tr.record_chunk(), 1);
    assert!(tr.next_range().is_none());
}

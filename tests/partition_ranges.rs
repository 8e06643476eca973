use distframe::partition::{find_line_end, partition_bounds, raw_window_start};

#[test]
fn raw_window_start_is_proportional() {
    assert_eq!(raw_window_start(100, 4, 0), 0);
    assert_eq!(raw_window_start(100, 4, 1), 25);
    assert_eq!(raw_window_start(10, 3, 2), 6);
    assert_eq!(raw_window_start(10, 3, 3), 10);
    assert_eq!(raw_window_start(usize::MAX, 3, 2), usize::MAX / 3 * 2);
}

#[test]
fn find_line_end_stops_after_terminator() {
    let b = b"ab\ncd\n";
    assert_eq!(find_line_end(b, 0), 3);
    assert_eq!(find_line_end(b, 2), 3);
    assert_eq!(find_line_end(b, 3), 6);
    assert_eq!(find_line_end(b"abc", 1), 3);
    assert_eq!(find_line_end(b"", 0), 0);
}

#[test]
fn single_worker_reads_everything_after_header() {
    let b = b"h1,h2\n1,2\n3,4\n";
    assert_eq!(partition_bounds(b, 1, 0), (6, b.len()));
}

fn check_cover(b: &[u8], w: usize) {
    let header = find_line_end(b, 0);
    let mut pos = header;
    for r in 0..w {
        let (s, e) = partition_bounds(b, w, r);
        assert_eq!(s, pos);
        assert!(s <= e);
        assert!(e == b.len() || b[e - 1] == b'\n');
        pos = e;
    }
    assert_eq!(pos, b.len());
}

#[test]
fn ranges_cover_file_without_overlap() {
    let b = b"name,age\nann,17\nbob,18\ncyd,19\ndee,20\neve,21\n";
    for w in 1..8 {
        check_cover(b, w);
    }
    let no_final_newline = b"h\n1\n22\n333\n4444";
    for w in 1..10 {
        check_cover(no_final_newline, w);
    }
}

#[test]
fn long_line_leaves_a_worker_empty() {
    let b = b"h\nabcdefghijklmnopqrstuvwxyz\n1\n";
    let (s, e) = partition_bounds(b, 4, 1);
    assert_eq!(s, e);
    check_cover(b, 4);
}

use trunk::buffered::tail_buffered;
use trunk::locate::ScanStep;
use trunk::source::{Change, FileSpec};
use trunk::tail::{read_last_n_lines, TailPlan};

fn lines(texts: &[&str]) -> Vec<String> {
    texts.iter().map(|t| t.to_string()).collect()
}

#[test]
fn buffered_tail_takes_the_last_lines() {
    let buffered = lines(&["one", "two", "three", "four"]);
    assert_eq!(tail_buffered(&buffered, 1), "four\n");
    assert_eq!(tail_buffered(&buffered, 2), "three\nfour\n");
    assert_eq!(tail_buffered(&buffered, 4), "one\ntwo\nthree\nfour\n");
    assert_eq!(tail_buffered(&buffered, 5), "one\ntwo\nthree\nfour\n");
    assert_eq!(tail_buffered(&buffered, i32::MAX), "one\ntwo\nthree\nfour\n");
}

#[test]
fn buffered_tail_of_no_lines_wanted_is_empty() {
    let buffered = lines(&["one", "two"]);
    assert_eq!(tail_buffered(&buffered, 0), "");
    assert_eq!(tail_buffered(&buffered, -3), "");
    assert_eq!(tail_buffered(&Vec::new(), 3), "");
}

#[test]
fn buffered_tail_keeps_empty_lines() {
    let buffered = lines(&["", "a", ""]);
    assert_eq!(tail_buffered(&buffered, 2), "a\n\n");
    assert_eq!(tail_buffered(&buffered, 3), "\na\n\n");
}

#[test]
fn plan_for_a_file_is_a_walk() {
    let file = FileSpec::new(Some(String::from("a.log")), Some(lines(&["x"])), 20);
    assert_eq!(file.size(), 20);
    assert_eq!(file.fpath(), Some(&String::from("a.log")));
    match read_last_n_lines(&file, 2) {
        TailPlan::Seek(scan) => assert_eq!(scan.step(), ScanStep::Read(19)),
        _ => panic!("a file is walked"),
    }
}

#[test]
fn plan_for_buffered_input_is_its_text() {
    let file = FileSpec::new(None, Some(lines(&["x", "y", "z"])), 20);
    assert_eq!(file.size(), 0);
    assert_eq!(file.fpath(), None);
    assert_eq!(file.stdin(), Some(&lines(&["x", "y", "z"])));
    match read_last_n_lines(&file, 2) {
        TailPlan::Print(text) => assert_eq!(text, "y\nz\n"),
        _ => panic!("buffered input is shown from the buffer"),
    }
}

#[test]
fn plan_for_no_source_is_nothing() {
    let file = FileSpec::new(None, None, 7);
    assert_eq!(file.size(), 0);
    assert!(matches!(read_last_n_lines(&file, 2), TailPlan::Nothing));
}

#[test]
fn size_is_recorded_for_files_only() {
    let mut file = FileSpec::new(Some(String::from("a.log")), None, 5);
    file.update_size(9);
    assert_eq!(file.size(), 9);
    file.update_size(2);
    assert_eq!(file.size(), 2);
    let mut other = FileSpec::new(None, None, 5);
    other.update_size(9);
    assert_eq!(other.size(), 0);
}

#[test]
fn change_is_growth_unless_shorter() {
    let file = FileSpec::new(Some(String::from("a.log")), None, 5);
    assert_eq!(file.change(5), Change::Grown { from: 5, to: 5 });
    assert_eq!(file.change(6), Change::Grown { from: 5, to: 6 });
    assert_eq!(file.change(u64::MAX), Change::Grown { from: 5, to: u64::MAX });
    assert_eq!(file.change(4), Change::Truncated);
    assert_eq!(file.change(0), Change::Truncated);
}

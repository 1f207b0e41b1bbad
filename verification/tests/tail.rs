use trunk::error::TailError;
use trunk::lines::NEWLINE;
use trunk::locate::{locate_tail_start, ScanStep, TailScan};
use trunk::tail::{tail_text, DEFAULT_NUM_LINES};

fn numbered(from: u32, to: u32) -> String {
    let mut text = String::new();
    for i in from..=to {
        text.push_str(&format!("line{}\n", i));
    }
    text
}

/// The start of the last `n` lines, found by splitting the whole source.
fn start_by_splitting(source: &[u8], n: i32) -> usize {
    if n <= 0 {
        return source.len();
    }
    let mut starts = Vec::new();
    for i in 0..source.len() {
        if i == 0 || source[i - 1] == b'\n' {
            starts.push(i);
        }
    }
    if n as usize >= starts.len() {
        0
    } else {
        starts[starts.len() - n as usize]
    }
}

/// Runs a walk over `source`, handing it one byte at a time, and returns the offset
/// it stops at with the number of bytes it asked for.
fn walk(source: &[u8], n: i32) -> (u64, usize) {
    let mut scan = TailScan::new(source.len() as u64, n);
    let mut reads = 0;
    loop {
        match scan.step() {
            ScanStep::Read(at) => {
                reads += 1;
                scan.feed(source[at as usize]);
            }
            ScanStep::Done(at) => return (at, reads),
        }
    }
}

#[test]
fn test_default_last_5_lines() {
    let mut content = String::new();
    for i in 1..=10 {
        content.push_str(&format!("line{}\n", i));
    }
    let shown = tail_text(content.as_bytes(), DEFAULT_NUM_LINES);
    assert!(shown.is_ok());
    let expected: String = numbered(6, 10);
    assert_eq!(shown.unwrap(), expected);
}

#[test]
fn test_option_n() {
    let content = numbered(1, 8);
    let shown = tail_text(content.as_bytes(), 3);
    assert!(shown.is_ok());
    let expected: String = numbered(6, 8);
    assert_eq!(shown.unwrap(), expected);
}

#[test]
fn newline_is_byte_ten() {
    assert_eq!(NEWLINE, b'\n');
    assert_eq!(DEFAULT_NUM_LINES, 5);
}

#[test]
fn locate_in_terminated_source() {
    let source = b"a\nbb\nccc\n";
    assert_eq!(locate_tail_start(source, 1), 5);
    assert_eq!(locate_tail_start(source, 2), 2);
    assert_eq!(locate_tail_start(source, 3), 0);
    assert_eq!(locate_tail_start(source, 4), 0);
}

#[test]
fn locate_counts_an_unfinished_last_line() {
    let source = b"a\nbb\nccc";
    assert_eq!(locate_tail_start(source, 1), 5);
    assert_eq!(locate_tail_start(source, 2), 2);
    assert_eq!(locate_tail_start(source, 3), 0);
    assert_eq!(tail_text(source, 1), Ok(String::from("ccc")));
    assert_eq!(tail_text(source, 2), Ok(String::from("bb\nccc")));
}

#[test]
fn locate_with_no_lines_wanted_is_the_end() {
    let source = b"a\nbb\nccc\n";
    assert_eq!(locate_tail_start(source, 0), source.len());
    assert_eq!(locate_tail_start(source, -1), source.len());
    assert_eq!(locate_tail_start(source, i32::MIN), source.len());
    assert_eq!(tail_text(source, 0), Ok(String::new()));
    assert_eq!(tail_text(source, -7), Ok(String::new()));
}

#[test]
fn locate_with_more_lines_wanted_than_there_are_is_the_start() {
    let source = b"one\ntwo\n";
    assert_eq!(locate_tail_start(source, 3), 0);
    assert_eq!(locate_tail_start(source, i32::MAX), 0);
    assert_eq!(tail_text(source, 100), Ok(String::from("one\ntwo\n")));
}

#[test]
fn locate_in_empty_source() {
    assert_eq!(locate_tail_start(b"", 0), 0);
    assert_eq!(locate_tail_start(b"", 1), 0);
    assert_eq!(locate_tail_start(b"", -1), 0);
    assert_eq!(tail_text(b"", 5), Ok(String::new()));
}

#[test]
fn locate_among_empty_lines() {
    let source = b"\n\n\n";
    assert_eq!(locate_tail_start(source, 1), 2);
    assert_eq!(locate_tail_start(source, 2), 1);
    assert_eq!(locate_tail_start(source, 3), 0);
    assert_eq!(locate_tail_start(b"\n", 1), 0);
    assert_eq!(locate_tail_start(b"x", 1), 0);
    assert_eq!(locate_tail_start(b"x\n\ny", 2), 2);
}

#[test]
fn locate_agrees_with_splitting() {
    let sources: Vec<&[u8]> = vec![
        b"",
        b"\n",
        b"a",
        b"a\n",
        b"\na",
        b"a\nb",
        b"a\nb\n",
        b"\n\n",
        b"ab\n\ncd\n\n\nef",
        b"line1\nline2\nline3\nline4\nline5\nline6\n",
    ];
    for source in sources {
        for n in -2..9 {
            assert_eq!(locate_tail_start(source, n), start_by_splitting(source, n));
        }
    }
}

#[test]
fn walk_stops_where_the_lines_begin() {
    let content = numbered(1, 10);
    let source = content.as_bytes();
    for n in -1..13 {
        let (offset, _) = walk(source, n);
        assert_eq!(offset as usize, locate_tail_start(source, n));
        assert_eq!(offset as usize, start_by_splitting(source, n));
    }
}

#[test]
fn walk_reads_no_further_than_it_must() {
    let mut content = String::new();
    for _ in 0..1000 {
        content.push_str("a long line that is never looked at\n");
    }
    content.push_str("x\ny\n");
    let source = content.as_bytes();
    let (offset, reads) = walk(source, 2);
    assert_eq!(offset as usize, source.len() - 4);
    assert_eq!(reads, 5);
    let (offset, reads) = walk(source, 0);
    assert_eq!(offset as usize, source.len());
    assert_eq!(reads, 0);
}

#[test]
fn walk_first_step() {
    assert_eq!(TailScan::new(10, 3).step(), ScanStep::Read(9));
    assert_eq!(TailScan::new(10, 0).step(), ScanStep::Done(10));
    assert_eq!(TailScan::new(0, 3).step(), ScanStep::Done(0));
    let mut scan = TailScan::new(3, 1);
    scan.feed(b'\n');
    assert_eq!(scan.step(), ScanStep::Read(1));
    scan.feed(b'b');
    assert_eq!(scan.step(), ScanStep::Read(0));
    scan.feed(b'\n');
    assert_eq!(scan.step(), ScanStep::Done(1));
}

#[test]
fn tail_keeps_text_of_several_bytes_whole() {
    let content = "première\nσειρά\n最後の行\n";
    assert_eq!(tail_text(content.as_bytes(), 2), Ok(String::from("σειρά\n最後の行\n")));
    assert_eq!(tail_text(content.as_bytes(), 1), Ok(String::from("最後の行\n")));
}

#[test]
fn tail_of_bytes_that_are_no_text_fails() {
    let source: &[u8] = &[b'o', b'k', b'\n', 0xff, 0xfe, b'\n'];
    assert_eq!(tail_text(source, 1), Err(TailError::EncodingError));
    assert_eq!(tail_text(source, 2), Err(TailError::EncodingError));
    assert_eq!(tail_text(source, 0), Ok(String::new()));
    let source: &[u8] = &[0xff, b'\n', b'o', b'k', b'\n'];
    assert_eq!(tail_text(source, 1), Ok(String::from("ok\n")));
    assert_eq!(tail_text(source, 2), Err(TailError::EncodingError));
}

#[test]
fn tail_of_text_is_text() {
    let content = "α\nβγ\n\nδ\nεζη";
    let whole = content.as_bytes();
    for n in -1..8 {
        let shown = tail_text(whole, n).unwrap();
        assert!(content.ends_with(&shown));
        assert_eq!(shown.len(), whole.len() - locate_tail_start(whole, n));
    }
    assert_eq!(tail_text(whole, 2), Ok(String::from("δ\nεζη")));
    assert_eq!(tail_text(whole, 3), Ok(String::from("\nδ\nεζη")));
}

use trunk::error::{Phase, TailError};
use trunk::options::{follow_wanted, parse_num_lines};

#[test]
fn numbers_are_read() {
    assert_eq!(parse_num_lines("5"), Ok(5));
    assert_eq!(parse_num_lines("0"), Ok(0));
    assert_eq!(parse_num_lines("-3"), Ok(-3));
    assert_eq!(parse_num_lines("+12"), Ok(12));
    assert_eq!(parse_num_lines("007"), Ok(7));
    assert_eq!(parse_num_lines("-0"), Ok(0));
    assert_eq!(parse_num_lines("2147483647"), Ok(i32::MAX));
    assert_eq!(parse_num_lines("-2147483648"), Ok(i32::MIN));
    assert_eq!(parse_num_lines("00000000000000000000002147483647"), Ok(i32::MAX));
}

#[test]
fn what_is_no_number_is_refused() {
    for text in [
        "", "+", "-", "abc", "5x", "x5", " 5", "5 ", "1.5", "--1", "+-1", "1_000", "0x10", "٣",
        "2147483648", "-2147483649", "99999999999999999999", "-99999999999999999999",
    ] {
        assert_eq!(parse_num_lines(text), Err(TailError::ArgumentError));
    }
}

#[test]
fn numbers_are_read_as_the_standard_library_reads_them() {
    let texts = [
        "", "0", "1", "-1", "+1", "+", "-", "10", "0010", "-0010", "2147483647", "2147483648",
        "-2147483648", "-2147483649", "4294967296", "1e3", "é", "12a", "a12", "1 2", "\n", "5\n",
        "+0", "-+1", "9223372036854775807", "१२३",
    ];
    for text in texts {
        let expected = text.parse::<i32>().map_err(|_| TailError::ArgumentError);
        assert_eq!(parse_num_lines(text), expected);
    }
    for n in -1100..1100 {
        assert_eq!(parse_num_lines(&n.to_string()), Ok(n));
    }
}

#[test]
fn following_needs_a_file() {
    assert!(follow_wanted(true, "", true));
    assert!(!follow_wanted(true, "", false));
    assert!(!follow_wanted(false, "", true));
    assert!(!follow_wanted(false, "", false));
}

#[test]
fn a_phrase_asks_for_following() {
    assert!(follow_wanted(false, "INFO", true));
    assert!(follow_wanted(true, "INFO", true));
    assert!(!follow_wanted(false, "INFO", false));
    assert!(!follow_wanted(true, "INFO", false));
}

#[test]
fn failures_end_the_initial_tail() {
    assert!(TailError::NotFound.is_fatal(Phase::InitialTail));
    assert!(TailError::IoError.is_fatal(Phase::InitialTail));
    assert!(TailError::EncodingError.is_fatal(Phase::InitialTail));
    assert!(TailError::ArgumentError.is_fatal(Phase::InitialTail));
}

#[test]
fn following_goes_on_after_a_failed_read() {
    assert!(!TailError::IoError.is_fatal(Phase::Follow));
    assert!(!TailError::EncodingError.is_fatal(Phase::Follow));
    assert!(TailError::NotFound.is_fatal(Phase::Follow));
    assert!(TailError::ArgumentError.is_fatal(Phase::Follow));
}

use trunk::follow::follow_filter;
use trunk::source::FileSpec;

#[test]
fn phrase_is_shown_in_red_where_colour_is_on() {
    colored::control::set_override(true);
    let mut file = FileSpec::new(Some(String::from("app.log")), None, 0);
    let shown = follow_filter(&mut file, 16, b"INFO: a\nERR: c\n", "INFO");
    assert_eq!(shown, Ok(String::from("\x1b[31mINFO\x1b[0m: a\n")));
    assert_eq!(file.size(), 16);
}

#[test]
fn every_occurrence_is_shown_in_red_where_colour_is_on() {
    colored::control::set_override(true);
    let mut file = FileSpec::new(Some(String::from("app.log")), None, 0);
    let shown = follow_filter(&mut file, 6, b"abcab\n", "ab");
    assert_eq!(shown, Ok(String::from("\x1b[31mab\x1b[0mc\x1b[31mab\x1b[0m\n")));
}

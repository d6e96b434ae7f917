use blog::article::{format_date, Article, MAX_TIMESTAMP, MIN_TIMESTAMP};

#[test]
fn filename_lowercases_and_hyphenates() {
    assert_eq!(Article::filename("My First Post".to_string()), "my-first-post");
}

#[test]
fn filename_collapses_runs_of_other_characters() {
    assert_eq!(Article::filename("Hello,  World!".to_string()), "hello-world-");
    assert_eq!(Article::filename("a -- b".to_string()), "a-b");
    assert_eq!(Article::filename("  Leading".to_string()), "-leading");
}

#[test]
fn filename_treats_non_ascii_as_separator() {
    assert_eq!(Article::filename("Café au lait".to_string()), "caf-au-lait");
    assert_eq!(Article::filename("R2D2 v10".to_string()), "r2d2-v10");
}

#[test]
fn filename_of_empty_title_is_empty() {
    assert_eq!(Article::filename(String::new()), "");
}

#[test]
fn format_date_writes_month_day_year() {
    assert_eq!(format_date(2015, 5, 15), "May 15, 2015");
    assert_eq!(format_date(1970, 1, 1), "January  1, 1970");
}

#[test]
fn format_date_pads_and_signs_years() {
    assert_eq!(format_date(33, 3, 7), "March  7, 0033");
    assert_eq!(format_date(-44, 3, 15), "March 15, -0044");
    assert_eq!(format_date(12345, 12, 31), "December 31, +12345");
    assert_eq!(format_date(0, 9, 30), "September 30, 0000");
}

#[test]
fn parse_timestamp_gives_utc_date() {
    assert_eq!(Article::parse_timestamp(1431648000), "May 15, 2015");
    assert_eq!(Article::parse_timestamp(0), "January  1, 1970");
    assert_eq!(Article::parse_timestamp(-1), "December 31, 1969");
    assert_eq!(Article::parse_timestamp(951782400), "February 29, 2000");
}

#[test]
fn parse_timestamp_at_range_ends() {
    assert_eq!(Article::parse_timestamp(MAX_TIMESTAMP), "November 28, +255479");
    assert_eq!(Article::parse_timestamp(MIN_TIMESTAMP), "February  3, -251540");
}

#[test]
fn new_article_derives_its_fields() {
    let a = Article::new(
        "Hello World".to_string(),
        "<p>Some text. More text.</p>\nSecond line".to_string(),
        1431648000,
    );
    assert_eq!(a.title, "Hello World");
    assert_eq!(a.body, "<p>Some text. More text.</p>\nSecond line");
    assert_eq!(a.truncated_body, "<p>Some text. More text.</p>");
    assert_eq!(a.timestamp, 1431648000);
    assert_eq!(a.formatted_time, "May 15, 2015");
    assert_eq!(a.filename, "hello-world");
}

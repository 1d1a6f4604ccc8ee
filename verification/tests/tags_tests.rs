use podcasts_remove_ads::tags::{
    format_duration, get_mp3_sort_key, id3_date_from_parts, parse_i32_dec, parse_id3_date,
    parse_u32_dec, UNDATED_KEY_BASE,
};

fn fmt(secs: f64) -> String {
    format_duration(secs.round() as u64)
}

#[test]
fn test_format_duration_seconds() {
    assert_eq!(fmt(0.0), "00:00");
    assert_eq!(fmt(59.0), "00:59");
    assert_eq!(fmt(61.0), "01:01");
    assert_eq!(fmt(3599.0), "59:59");
}

#[test]
fn test_format_duration_hours() {
    assert_eq!(fmt(3600.0), "1:00:00");
    assert_eq!(fmt(3661.0), "1:01:01");
    assert_eq!(fmt(7384.0), "2:03:04");
}

#[test]
fn test_format_duration_rounding() {
    assert_eq!(fmt(59.6), "01:00");
    assert_eq!(fmt(1.4), "00:01");
}

#[test]
fn format_duration_many_hours() {
    assert_eq!(format_duration(36000 * 3 + 5), "30:00:05");
}

fn p32(s: &str) -> Option<i32> {
    parse_i32_dec(s.as_bytes(), 0, s.len())
}

fn pu32(s: &str) -> Option<u32> {
    parse_u32_dec(s.as_bytes(), 0, s.len())
}

#[test]
fn decimal_parsing_matches_std() {
    for s in [
        "0", "7", "+7", "-7", "2021", "-2147483648", "2147483647", "2147483648", "-2147483649",
        "", "+", "-", "+-1", "-+1", " 1", "1 ", "12a", "00012", "4294967295", "4294967296",
    ] {
        assert_eq!(p32(s), s.parse::<i32>().ok(), "i32 {:?}", s);
        assert_eq!(pu32(s), s.parse::<u32>().ok(), "u32 {:?}", s);
    }
}

#[test]
fn date_from_timestamp() {
    assert_eq!(parse_id3_date(Some("2021-05-07"), None, None), Some((2021, 5, 7)));
    assert_eq!(parse_id3_date(Some("1999"), Some("2005"), None), Some((1999, 1, 1)));
    assert_eq!(parse_id3_date(Some("2003-11"), None, None), Some((2003, 11, 1)));
}

#[test]
fn date_from_year_and_ddmm() {
    assert_eq!(parse_id3_date(Some("not a date"), Some("2019"), Some(" 2503 ")), Some((2019, 3, 25)));
    assert_eq!(parse_id3_date(None, Some("2019"), Some("25")), Some((2019, 1, 1)));
    assert_eq!(parse_id3_date(None, Some("2019"), Some("xx03")), Some((2019, 1, 1)));
    assert_eq!(parse_id3_date(None, Some("2019"), None), Some((2019, 1, 1)));
}

#[test]
fn date_from_nonpositive_year_or_none() {
    assert_eq!(parse_id3_date(None, Some("0"), Some("2503")), Some((0, 1, 1)));
    assert_eq!(parse_id3_date(None, Some("-5"), None), Some((-5, 1, 1)));
    assert_eq!(parse_id3_date(None, Some("abc"), Some("2503")), None);
    assert_eq!(parse_id3_date(None, None, None), None);
}

#[test]
fn date_from_parts_takes_parsed_timestamp() {
    assert_eq!(id3_date_from_parts(Some((1980, Some(2), None)), None, None), Some((1980, 2, 1)));
    assert_eq!(id3_date_from_parts(None, Some("1980"), Some("0102")), Some((1980, 2, 1)));
}

#[test]
fn tdat_cut_inside_a_character_gives_no_date() {
    assert_eq!(parse_id3_date(None, Some("2019"), Some("aé12")), None);
    // TDAT is not read for a year that is not positive.
    assert_eq!(parse_id3_date(None, Some("0"), Some("aé12")), Some((0, 1, 1)));
    assert_eq!(parse_id3_date(None, None, Some("aé12")), None);
}

#[test]
fn sort_keys() {
    assert_eq!(get_mp3_sort_key(Some((2021, 5, 7)), 0), 20210507);
    assert_eq!(get_mp3_sort_key(Some((1800, 0, 40)), 0), 19000131);
    assert_eq!(get_mp3_sort_key(Some((3000, 13, 0)), 0), 21001201);
    assert_eq!(get_mp3_sort_key(None, 1_700_000_000), UNDATED_KEY_BASE + 1_700_000_000);
    assert!(get_mp3_sort_key(Some((2100, 12, 31)), 0) < get_mp3_sort_key(None, 0));
}

#[test]
fn tdat_is_trimmed_of_unicode_white_space() {
    assert_eq!(
        parse_id3_date(None, Some("2019"), Some("\u{3000}2503\u{a0}\t")),
        Some((2019, 3, 25))
    );
}

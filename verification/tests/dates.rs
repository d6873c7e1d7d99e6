//! Free-text date parsing scenarios.

use metal_calendar::calendar::Month;
use metal_calendar::error::Error;
use metal_calendar::text::{parse_free_text_date, Date};

#[test]
fn date_parsing_november_ok() {
    let d = parse_free_text_date("November 15th, 2024").unwrap();
    assert_eq!(d, Date { year: 2024, month: Month::November, day: 15 });
}

#[test]
fn date_parsing_january_ok() {
    let d = parse_free_text_date("January 1st, 2025").unwrap();
    assert_eq!(d, Date { year: 2025, month: Month::January, day: 1 });
}

#[test]
fn date_without_ordinal_ok() {
    let d = parse_free_text_date("October 9, 2024").unwrap();
    assert_eq!(d, Date { year: 2024, month: Month::October, day: 9 });
}

#[test]
fn date_out_of_month_range_fails() {
    assert_eq!(parse_free_text_date("April 31st, 2024"), Err(Error::ParseFail));
    assert_eq!(parse_free_text_date("November 0th, 2024"), Err(Error::ParseFail));
}

#[test]
fn date_abbreviated_month_fails() {
    assert_eq!(parse_free_text_date("Jan 3rd 2025"), Err(Error::ParseFail));
}

#[test]
fn date_missing_token_fails() {
    assert_eq!(parse_free_text_date("November 2024"), Err(Error::ParseFail));
    assert_eq!(parse_free_text_date(""), Err(Error::ParseFail));
}

#[test]
fn date_extra_token_fails() {
    assert_eq!(
        parse_free_text_date("November 15th, 2024 extra"),
        Err(Error::ParseFail)
    );
}

#[test]
fn date_leap_day_checked() {
    let d = parse_free_text_date("February 29th, 2024").unwrap();
    assert_eq!(d, Date { year: 2024, month: Month::February, day: 29 });
    assert_eq!(
        parse_free_text_date("February 29th, 2023"),
        Err(Error::ParseFail)
    );
    assert_eq!(
        parse_free_text_date("February 29th, 1900"),
        Err(Error::ParseFail)
    );
    let d2000 = parse_free_text_date("February 29th, 2000").unwrap();
    assert_eq!(d2000.day, 29);
}

#[test]
fn date_ordinal_fragments_stripped_everywhere() {
    // the cleaner removes the fragments as plain substrings, so a month
    // containing one is mangled before matching
    assert_eq!(
        parse_free_text_date("August 30th, 2024"),
        Err(Error::ParseFail)
    );
}

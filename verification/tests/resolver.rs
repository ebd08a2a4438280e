use haibun::date::{parse_date, Date};
use haibun::error::IngestError;
use haibun::resolver::{date_from_filename, date_from_match};

#[test]
fn test_date_from_filename() {
    let d = Date { year: 2015, month: 3, day: 14 };
    let file = "2015-03-14.csv";
    let file2 = "Data_2015-03-14.csv";
    let file3 = "Data_2015-03-14_List.csv";

    assert_eq!(Ok(d), date_from_filename(file));
    assert_eq!(Ok(d), date_from_filename(file2));
    assert_eq!(Ok(d), date_from_filename(file3));
}

#[test]
fn identifier_without_a_date_fails() {
    assert_eq!(Err(IngestError::DateExtractionFailure), date_from_filename("holdings.csv"));
    assert_eq!(Err(IngestError::DateExtractionFailure), date_from_filename(""));
    assert_eq!(Err(IngestError::DateExtractionFailure), date_from_filename("2015-3-14.csv"));
    assert_eq!(Err(IngestError::DateExtractionFailure), date_from_filename("20150314.csv"));
}

#[test]
fn first_date_like_stretch_decides() {
    let d = Date { year: 2015, month: 3, day: 14 };
    assert_eq!(Ok(d), date_from_filename("a_2015-03-14_b_2016-01-01.csv"));
    assert_eq!(
        Err(IngestError::DateExtractionFailure),
        date_from_filename("a_2015-13-14_b_2016-01-01.csv")
    );
}

#[test]
fn longer_digit_runs_still_hold_a_date() {
    let d = Date { year: 2015, month: 3, day: 14 };
    assert_eq!(Ok(d), date_from_filename("x12015-03-1499"));
}

#[test]
fn impossible_days_fail() {
    assert_eq!(Err(IngestError::DateExtractionFailure), date_from_filename("2015-02-29.csv"));
    assert_eq!(Err(IngestError::DateExtractionFailure), date_from_filename("2015-04-31.csv"));
    assert_eq!(Err(IngestError::DateExtractionFailure), date_from_filename("2015-00-10.csv"));
    assert_eq!(Err(IngestError::DateExtractionFailure), date_from_filename("2015-01-00.csv"));
    assert_eq!(Err(IngestError::DateExtractionFailure), date_from_filename("1900-02-29.csv"));
}

#[test]
fn leap_days_are_dates() {
    assert_eq!(Ok(Date { year: 2016, month: 2, day: 29 }), date_from_filename("2016-02-29.csv"));
    assert_eq!(Ok(Date { year: 2000, month: 2, day: 29 }), date_from_filename("2000-02-29.csv"));
    assert_eq!(Ok(Date { year: 0, month: 2, day: 29 }), date_from_filename("0000-02-29.csv"));
}

#[test]
fn digits_of_other_scripts_name_no_date() {
    assert_eq!(
        Err(IngestError::DateExtractionFailure),
        date_from_filename("\u{0662}\u{0660}\u{0661}\u{0665}-\u{0660}\u{0663}-\u{0661}\u{0664}_2015-03-14.csv")
    );
}

#[test]
fn matched_text_is_read_as_a_date() {
    assert_eq!(
        Ok(Date { year: 2024, month: 12, day: 31 }),
        date_from_match(Some("2024-12-31".to_string()))
    );
    assert_eq!(Err(IngestError::DateExtractionFailure), date_from_match(None));
    assert_eq!(
        Err(IngestError::DateExtractionFailure),
        date_from_match(Some("Data_2015-03-14".to_string()))
    );
}

#[test]
fn parse_date_reads_year_month_day() {
    assert_eq!(Date { year: 2015, month: 3, day: 14 }, parse_date("2015-03-14").unwrap());
    assert_eq!(Date { year: 2014, month: 5, day: 17 }, parse_date("2014-5-17").unwrap());
    assert!(parse_date("2015-03-14.csv").is_err());
    assert!(parse_date("14.03.2015").is_err());
    assert!(parse_date("2015-02-30").is_err());
    assert!(parse_date("").is_err());
}

#[test]
fn dates_are_ordered_by_year_month_day() {
    let a = Date { year: 2024, month: 1, day: 31 };
    let b = Date { year: 2024, month: 2, day: 1 };
    let c = Date { year: 2023, month: 12, day: 31 };
    assert!(a.is_before(&b));
    assert!(!b.is_before(&a));
    assert!(c.is_before(&a));
    assert!(!a.is_before(&a));
}

use std::path::PathBuf;

use noteapp::actions::{InvalidDateError, NoteDate};

#[test]
fn test_type() {
    let nd1 = NoteDate {
        year: 2021,
        month: Some(1),
        day: Some(1),
    };

    assert!(nd1.year == 2021);
    assert!(nd1.month == Some(1));
    assert!(nd1.day == Some(1));
}

#[test]
fn test_constructors() {
    let year_only = NoteDate::year_only(2021);
    assert!(year_only.year == 2021);

    let year_month = NoteDate::year_month(2021, 1);
    assert!(year_month.year == 2021);
    assert!(year_month.month == Some(1));

    let full_date = NoteDate::full_date(2021, 1, 1);
    assert!(full_date.year == 2021);
    assert!(full_date.month == Some(1));
    assert!(full_date.day == Some(1));
}

#[test]
fn test_to_path() {
    // A component the date leaves open is filed under `unclassified`.
    let year_only = NoteDate::year_only(2021);
    assert!(PathBuf::from(year_only.to_path()) == PathBuf::from("2021/unclassified"));

    let year_month = NoteDate::year_month(2021, 1);
    assert!(PathBuf::from(year_month.to_path()) == PathBuf::from("2021/01/unclassified"));

    let full_date = NoteDate::full_date(2021, 1, 1);
    assert!(PathBuf::from(full_date.to_path()) == PathBuf::from("2021/01/01"));
}

#[test]
fn test_invalid_date_error() {
    let date = NoteDate::validate("2000").unwrap();
    assert!(date.year == 2000);
    assert!(date.month == None);
    assert!(date.day == None);

    let date = NoteDate::validate("2000.01").unwrap();
    assert!(date.year == 2000);
    assert!(date.month == Some(1));
    assert!(date.day == None);

    let date = NoteDate::validate("2000.01.01").unwrap();
    assert!(date.year == 2000);
    assert!(date.month == Some(1));
    assert!(date.day == Some(1));

    // Test the error cases where InvalidDateError is returned
    let date = NoteDate::validate("2000.01.01.01");
    assert!(date.is_err());
    assert!(date.unwrap_err().to_string() == "Invalid date format");

    let date = NoteDate::validate("20");
    assert!(date.is_err());
    assert!(date.unwrap_err().to_string() == "Invalid date format");
}

#[test]
fn year_text_renders_year_path() {
    let date = NoteDate::validate("1987").unwrap();
    assert_eq!(date, NoteDate::year_only(1987));
    assert_eq!(date.to_path(), "1987/unclassified");
}

#[test]
fn year_month_text_renders_month_path() {
    let date = NoteDate::validate("2023.07").unwrap();
    assert_eq!(date, NoteDate::year_month(2023, 7));
    assert_eq!(date.to_path(), "2023/07/unclassified");
}

#[test]
fn full_date_text_renders_day_path() {
    let date = NoteDate::validate("2023.12.05").unwrap();
    assert_eq!(date, NoteDate::full_date(2023, 12, 5));
    assert_eq!(date.to_path(), "2023/12/05");
}

#[test]
fn separator_may_be_any_non_digit() {
    assert_eq!(NoteDate::validate("2023-12/05"), Ok(NoteDate::full_date(2023, 12, 5)));
    assert_eq!(NoteDate::validate("2023 07"), Ok(NoteDate::year_month(2023, 7)));
    assert_eq!(NoteDate::validate("20231205"), Err(InvalidDateError));
    assert_eq!(NoteDate::validate("2023107"), Err(InvalidDateError));
}

#[test]
fn year_month_may_follow_other_text() {
    assert_eq!(NoteDate::validate("note 2022.03"), Ok(NoteDate::year_month(2022, 3)));
    assert_eq!(NoteDate::validate("x2000"), Err(InvalidDateError));
    assert_eq!(NoteDate::validate("2000 "), Err(InvalidDateError));
}

#[test]
fn calendar_is_not_checked() {
    assert_eq!(NoteDate::validate("2020.99.00"), Ok(NoteDate::full_date(2020, 99, 0)));
    assert_eq!(NoteDate::full_date(2020, 99, 0).to_path(), "2020/99/00");
}

#[test]
fn invalid_texts_fail() {
    assert_eq!(NoteDate::validate(""), Err(InvalidDateError));
    assert_eq!(NoteDate::validate("abcd"), Err(InvalidDateError));
    assert_eq!(NoteDate::validate("٢٠٢٠"), Err(InvalidDateError));
    assert_eq!(NoteDate::validate("2000.1"), Err(InvalidDateError));
}

#[test]
fn path_is_deterministic() {
    let a = NoteDate::validate("2019.02.03").unwrap();
    let b = NoteDate::full_date(2019, 2, 3);
    assert_eq!(a.to_path(), b.to_path());
    assert_eq!(a.to_path(), a.to_path());
}

#[test]
fn short_year_and_day_without_month() {
    assert_eq!(NoteDate::year_only(42).to_path(), "42/unclassified");
    let odd = NoteDate { year: 2001, month: None, day: Some(4) };
    assert_eq!(odd.to_path(), "2001/unclassified");
}

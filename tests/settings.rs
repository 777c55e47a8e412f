use chrono::{Duration, Utc};
use gh_univiewer::{RepositorySettings, Since, SinceParseError, SinceSpan, UnixTime};

fn is_since(parsed: &Result<Since, SinceParseError>, quantity: u64, unit: SinceSpan) -> bool {
    *parsed == Ok(Since { quantity, unit })
}

#[test]
fn parse_since_wrong_number_of_words() {
    let parsed = "1".parse::<Since>();
    assert!(parsed.is_err(), "parse since requires more than one word");

    let parsed = "1 too many".parse::<Since>();
    assert!(parsed.is_err(), "parse since requires exactly two words");
}

#[test]
fn parse_since_first_word_not_a_number() {
    let parsed = "bob weeks".parse::<Since>();
    assert!(parsed.is_err(), "parse since requires that the first word is a number");
}

#[test]
fn parse_since_second_word_not_a_recognized_interval() {
    let parsed = "1 bob".parse::<Since>();
    assert!(parsed.is_err(), "parse since requires that the second word is a recognized interval");
}

#[test]
fn parse_since_days() {
    assert!(is_since(&"1 day".parse::<Since>(), 1, SinceSpan::Day), "parse_since(\"1 day\")");
    assert!(is_since(&"2 days".parse::<Since>(), 2, SinceSpan::Day), "parse_since(\"2 days\")");
    assert!(is_since(&"12 days".parse::<Since>(), 12, SinceSpan::Day), "parse_since(\"12 days\")");
}

#[test]
fn parse_since_weeks() {
    assert!(is_since(&"1 week".parse::<Since>(), 1, SinceSpan::Week), "parse_since(\"1 week\")");
    assert!(is_since(&"2 weeks".parse::<Since>(), 2, SinceSpan::Week), "parse_since(\"2 weeks\")");
    assert!(is_since(&"12 weeks".parse::<Since>(), 12, SinceSpan::Week), "parse_since(\"12 weeks\")");
}

fn repository_settings_since(since: &str) -> RepositorySettings {
    RepositorySettings {
        user: "a".to_string(),
        name: "b".to_string(),
        labels: None,
        since: Some(since.parse::<Since>().unwrap()),
    }
}

fn is_temporally_close_to(subject: UnixTime, expected: chrono::DateTime<Utc>) -> bool {
    (expected.timestamp() - subject.seconds).abs() <= 2
}

#[test]
fn closed_since_date_days() {
    let closed_since_one_day_ago = repository_settings_since("1 day").closed_since_date().unwrap();
    let one_day_ago = Utc::now().checked_sub_signed(Duration::days(1)).unwrap();
    assert!(is_temporally_close_to(closed_since_one_day_ago, one_day_ago), "1 day");

    let closed_since_two_days_ago = repository_settings_since("2 days").closed_since_date().unwrap();
    let two_days_ago = Utc::now().checked_sub_signed(Duration::days(2)).unwrap();
    assert!(is_temporally_close_to(closed_since_two_days_ago, two_days_ago), "2 days");

    let closed_since_twelve_days_ago = repository_settings_since("12 days").closed_since_date().unwrap();
    let twelve_days_ago = Utc::now().checked_sub_signed(Duration::days(12)).unwrap();
    assert!(is_temporally_close_to(closed_since_twelve_days_ago, twelve_days_ago), "12 days");
}

#[test]
fn closed_since_date_weeks() {
    let closed_since_one_week_ago = repository_settings_since("1 week").closed_since_date().unwrap();
    let one_week_ago = Utc::now().checked_sub_signed(Duration::weeks(1)).unwrap();
    assert!(is_temporally_close_to(closed_since_one_week_ago, one_week_ago), "1 week");

    let closed_since_two_weeks_ago = repository_settings_since("2 weeks").closed_since_date().unwrap();
    let two_weeks_ago = Utc::now().checked_sub_signed(Duration::weeks(2)).unwrap();
    assert!(is_temporally_close_to(closed_since_two_weeks_ago, two_weeks_ago), "2 weeks");

    let closed_since_twelve_weeks_ago = repository_settings_since("12 weeks").closed_since_date().unwrap();
    let twelve_weeks_ago = Utc::now().checked_sub_signed(Duration::weeks(12)).unwrap();
    assert!(is_temporally_close_to(closed_since_twelve_weeks_ago, twelve_weeks_ago), "12 weeks");
}

#[test]
fn parse_since_errors_name_their_cause() {
    assert_eq!(Since::parse("1"), Err(SinceParseError::WordCount { found: 1 }));
    assert_eq!(Since::parse("   "), Err(SinceParseError::WordCount { found: 0 }));
    assert_eq!(Since::parse("1 too many"), Err(SinceParseError::WordCount { found: 3 }));
    assert_eq!(Since::parse("bob weeks"), Err(SinceParseError::InvalidQuantity));
    assert_eq!(Since::parse("-1 weeks"), Err(SinceParseError::InvalidQuantity));
    assert_eq!(Since::parse("18446744073709551616 days"), Err(SinceParseError::InvalidQuantity));
    assert_eq!(Since::parse("1 bob"), Err(SinceParseError::UnknownInterval));
    assert_eq!(Since::parse("1 dayss"), Err(SinceParseError::UnknownInterval));
}

#[test]
fn parse_since_accepts_spacing_sign_and_case() {
    assert_eq!(Since::parse("  3\t WEEKS \n"), Ok(Since { quantity: 3, unit: SinceSpan::Week }));
    assert_eq!(Since::parse("+7 Day"), Ok(Since { quantity: 7, unit: SinceSpan::Day }));
    assert_eq!(
        Since::parse("18446744073709551615 days"),
        Ok(Since { quantity: u64::MAX, unit: SinceSpan::Day })
    );
    assert_eq!("Weeks".parse::<SinceSpan>(), Ok(SinceSpan::Week));
}

#[test]
fn span_from_lowercase_words() {
    let w = |s: &str| s.chars().collect::<Vec<char>>();
    assert_eq!(SinceSpan::from_lowercase(&w("day")), Some(SinceSpan::Day));
    assert_eq!(SinceSpan::from_lowercase(&w("days")), Some(SinceSpan::Day));
    assert_eq!(SinceSpan::from_lowercase(&w("week")), Some(SinceSpan::Week));
    assert_eq!(SinceSpan::from_lowercase(&w("weeks")), Some(SinceSpan::Week));
    assert_eq!(SinceSpan::from_lowercase(&w("DAY")), None);
    assert_eq!(SinceSpan::from_lowercase(&w("")), None);
}

#[test]
fn cutoff_at_a_given_time() {
    let now = UnixTime { seconds: 1_000_000 };
    assert_eq!(repository_settings_since("2 days").closed_since_date_at(now), Some(UnixTime { seconds: 827_200 }));
    assert_eq!(repository_settings_since("1 week").closed_since_date_at(now), Some(UnixTime { seconds: 395_200 }));
    let mut none = repository_settings_since("1 day");
    none.since = None;
    assert_eq!(none.closed_since_date_at(now), None);
    assert_eq!(none.closed_since_date(), None);
    let far = repository_settings_since("18446744073709551615 weeks");
    assert_eq!(far.closed_since_date_at(now), None);
}

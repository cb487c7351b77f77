use word_doc_qa::events::{
    apply_line, is_weekday, month_to_num, parse_events_from_text, parse_events_with,
    CalendarPatterns, CalendarState, Event, EventsError,
};
use word_doc_qa::ml_dataset::{build_month_samples, month_name};
use word_doc_qa::text::chars_of;

const CALENDAR: &str = "JANUARY 202 6\n\
SUNDAY\n\
MONDAY\n\
1\n\
New Year's Day\n\
  2  \n\
Staff Meeting\n\
xy\n\
FEBRUARY 2026\n\
14\n\
Valentine's Day\r\n\
\n\
   \n\
Council Meeting\n";

fn triple(e: &Event) -> (i32, u32, u32, String, String) {
    (e.year, e.month, e.day, e.title.clone(), e.source.clone())
}

#[test]
fn month_names_and_numbers() {
    assert_eq!(month_to_num("JANUARY"), Some(1));
    assert_eq!(month_to_num("DECEMBER"), Some(12));
    assert_eq!(month_to_num("January"), None);
    assert_eq!(month_to_num(""), None);
    assert_eq!(month_name(1), "January");
    assert_eq!(month_name(9), "September");
    assert_eq!(month_name(0), "Unknown");
    assert_eq!(month_name(13), "Unknown");
    let upper = ["JANUARY", "FEBRUARY", "MARCH", "APRIL", "MAY", "JUNE", "JULY", "AUGUST",
        "SEPTEMBER", "OCTOBER", "NOVEMBER", "DECEMBER"];
    for m in 1..=12u32 {
        assert_eq!(month_to_num(&month_name(m).to_uppercase()), Some(m));
        assert_eq!(upper[(m - 1) as usize], month_name(m).to_uppercase());
    }
}

#[test]
fn weekdays() {
    assert!(is_weekday("SUNDAY"));
    assert!(is_weekday("SATURDAY"));
    assert!(!is_weekday("Sunday"));
    assert!(!is_weekday("SUNDAYS"));
}

#[test]
fn calendar_text_gives_dated_events() {
    let events = parse_events_from_text("cal.docx", CALENDAR).unwrap();
    let got: Vec<_> = events.iter().map(triple).collect();
    assert_eq!(
        got,
        vec![
            (2026, 1, 1, "New Year's Day".to_string(), "cal.docx".to_string()),
            (2026, 1, 2, "Staff Meeting".to_string(), "cal.docx".to_string()),
            (2026, 1, 2, "xy".to_string(), "cal.docx".to_string()),
            (2026, 2, 14, "Valentine's Day".to_string(), "cal.docx".to_string()),
            (2026, 2, 14, "Council Meeting".to_string(), "cal.docx".to_string()),
        ]
    );
}

#[test]
fn titles_before_a_date_are_ignored() {
    let events = parse_events_from_text("d", "Heading\nJANUARY 2024\nNo day yet\n5\nParty\n").unwrap();
    let got: Vec<_> = events.iter().map(triple).collect();
    assert_eq!(got, vec![(2024, 1, 5, "Party".to_string(), "d".to_string())]);
}

#[test]
fn month_header_clears_the_day() {
    let events = parse_events_from_text("d", "MARCH 2025\n3\nOne\nAPRIL 2025\nTwo\n").unwrap();
    let got: Vec<_> = events.iter().map(triple).collect();
    assert_eq!(got, vec![(2025, 3, 3, "One".to_string(), "d".to_string())]);
}

#[test]
fn spaced_year_digits_and_short_titles() {
    let events = parse_events_from_text("d", "MAY 2 0 2 7\n09\nab\nabc\n").unwrap();
    let got: Vec<_> = events.iter().map(triple).collect();
    assert_eq!(
        got,
        vec![(2027, 5, 9, "ab".to_string(), "d".to_string()), (2027, 5, 9, "abc".to_string(), "d".to_string())]
    );
    let events = parse_events_from_text("c.docx", "MARCH 2026\n5\nGo\n").unwrap();
    let got: Vec<_> = events.iter().map(triple).collect();
    assert_eq!(got, vec![(2026, 3, 5, "Go".to_string(), "c.docx".to_string())]);
}

#[test]
fn days_outside_1_to_31_clear_the_day() {
    let events = parse_events_from_text("d", "MARCH 2026\n5\nA\n45\nB\n0\nC\n31\nD\n32\nE\n").unwrap();
    let got: Vec<_> = events.iter().map(triple).collect();
    assert_eq!(
        got,
        vec![(2026, 3, 5, "A".to_string(), "d".to_string()), (2026, 3, 31, "D".to_string(), "d".to_string())]
    );
}

#[test]
fn every_parsed_event_gives_one_sample() {
    let events = parse_events_from_text("cal.docx", CALENDAR).unwrap();
    let samples = build_month_samples(&events);
    assert_eq!(samples.len(), events.len());
    for (e, (text, label)) in events.iter().zip(samples.iter()) {
        assert_eq!(*label as u32, e.month - 1);
        assert_eq!(text, &format!("MONTH={} TITLE={}", month_name(e.month), e.title));
        assert!(1 <= e.month && e.month <= 12);
        assert_eq!(e.title.trim(), e.title);
        assert!(!e.title.is_empty());
        assert!(1 <= e.day && e.day <= 31);
    }
}

#[test]
fn samples_skip_invalid_months() {
    let mk = |m: u32, t: &str| Event { year: 2026, month: m, day: 1, title: t.to_string(), source: "s".to_string() };
    let events = vec![mk(0, "zero"), mk(3, "March thing"), mk(13, "thirteen"), mk(12, "Xmas")];
    let samples = build_month_samples(&events);
    assert_eq!(
        samples,
        vec![
            ("MONTH=March TITLE=March thing".to_string(), 2usize),
            ("MONTH=December TITLE=Xmas".to_string(), 11usize),
        ]
    );
    assert!(build_month_samples(&[]).is_empty());
}

#[test]
fn one_line_at_a_time() {
    let patterns = CalendarPatterns::new().unwrap();
    let mut state = CalendarState::new();
    let header = Some(vec![Some("JUNE 2030".to_string()), Some("JUNE".to_string()), Some("2030".to_string())]);
    assert!(apply_line(&mut state, &chars_of("JUNE 2030"), &header, false, "d").is_none());
    assert_eq!((state.year, state.month, state.day), (Some(2030), Some(6), None));
    assert!(apply_line(&mut state, &chars_of("7"), &None, true, "d").is_none());
    assert_eq!(state.day, Some(7));
    let e = apply_line(&mut state, &chars_of("Launch"), &None, false, "d").unwrap();
    assert_eq!(triple(&e), (2030, 6, 7, "Launch".to_string(), "d".to_string()));
    let events = parse_events_with(&patterns, "d", "JUNE 2030\n7\nLaunch").unwrap();
    assert_eq!(events.len(), 1);
    let _unused: Option<EventsError> = None;
}

#[test]
fn non_ascii_day_digits_clear_the_day() {
    // `\d` matches any Unicode digit, but the number is read as ASCII digits only.
    let events = parse_events_from_text("d", "JULY 2026\n4\nParade\n٣\nFireworks\n").unwrap();
    let got: Vec<_> = events.iter().map(triple).collect();
    assert_eq!(got, vec![(2026, 7, 4, "Parade".to_string(), "d".to_string())]);
}

#[test]
fn calendar_patterns_compile() {
    assert!(word_doc_qa::events::CalendarPatterns::new().is_ok());
}

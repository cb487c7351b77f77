use word_doc_qa::events::Event;
use word_doc_qa::qa::{answer_from_captures, answer_question, normalize, QaError};

fn ev(y: i32, m: u32, d: u32, t: &str, src: &str) -> Event {
    Event { year: y, month: m, day: d, title: t.to_string(), source: src.to_string() }
}

fn sample_events() -> Vec<Event> {
    vec![
        ev(2026, 3, 5, "Council Meeting", "b.docx"),
        ev(2026, 1, 1, "New Year's Day", "a.docx"),
        ev(2025, 6, 2, "Council meeting (special)", "a.docx"),
        ev(2026, 1, 20, "Council Meeting", "a.docx"),
        ev(2024, 12, 25, "Christmas Day", "c.docx"),
    ]
}

#[test]
fn normalization() {
    assert_eq!(normalize("  Hello,   World! It’s 2026 "), "hello world it s 2026");
    assert_eq!(normalize("New Year's Day"), "new year s day");
    assert_eq!(normalize("ÉTÉ—Fête"), "été fête");
    assert_eq!(normalize("...!!!"), "");
    assert_eq!(normalize(""), "");
    assert_eq!(normalize("a\tb\nc"), "a b c");
}

#[test]
fn normalized_text_is_single_spaced_letters_and_numbers() {
    for t in ["  a,,b  c ", "Q: When is it?", "x\u{3000}y", "tab\tand\nline", "’’’"] {
        let n = normalize(t);
        assert!(!n.starts_with(' ') && !n.ends_with(' '), "{:?}", n);
        assert!(!n.contains("  "), "{:?}", n);
        assert!(n.chars().all(|c| c == ' ' || (c.is_alphanumeric() && !c.is_whitespace())), "{:?}", n);
    }
}

#[test]
fn count_question() {
    let events = sample_events();
    let a = answer_question("How many times did the Council meet in 2026?", &events).unwrap();
    assert_eq!(a, "Count in 2026 for 'council': 2");
    let a = answer_question("How many times did council meet in 2025?", &events).unwrap();
    assert_eq!(a, "Count in 2025 for 'council': 1");
    let a = answer_question("how many times did the board meet for 2026", &events).unwrap();
    assert_eq!(a, "Count in 2026 for 'board': 0");
}

#[test]
fn date_question_lists_matches_in_date_order() {
    let events = sample_events();
    let a = answer_question("When is the Council Meeting in 2026?", &events).unwrap();
    assert_eq!(a, "No match found for 'the council meeting'. Try different wording.");
    let a = answer_question("When is Council Meeting in 2026?", &events).unwrap();
    assert_eq!(
        a,
        "1. January 20 2026, Council Meeting (from a.docx)\n2. March 5 2026, Council Meeting (from b.docx)\n"
    );
    let a = answer_question("What is the date of council meeting?", &events).unwrap();
    assert_eq!(
        a,
        "1. June 2 2025, Council meeting (special) (from a.docx)\n2. January 20 2026, Council Meeting (from a.docx)\n3. March 5 2026, Council Meeting (from b.docx)\n"
    );
    let a = answer_question("When is New Year's Day?", &events).unwrap();
    assert_eq!(a, "1. January 1 2026, New Year's Day (from a.docx)\n");
}

#[test]
fn date_question_without_match() {
    let a = answer_question("When is Easter?", &sample_events()).unwrap();
    assert_eq!(a, "No match found for 'easter'. Try different wording.");
}

#[test]
fn date_question_shows_at_most_ten() {
    let mut events = Vec::new();
    for d in (1..=12u32).rev() {
        events.push(ev(2026, 4, d, "Drill", "x"));
    }
    let a = answer_question("when is drill", &events).unwrap();
    let lines: Vec<&str> = a.lines().collect();
    assert_eq!(lines.len(), 11);
    assert_eq!(lines[0], "1. April 1 2026, Drill (from x)");
    assert_eq!(lines[9], "10. April 10 2026, Drill (from x)");
    assert_eq!(lines[10], "(Showing 10 of 12)");
}

#[test]
fn equal_dates_keep_their_order() {
    let events = vec![ev(2026, 5, 1, "Fair B", "2"), ev(2026, 5, 1, "Fair A", "1"), ev(2025, 5, 1, "Fair C", "3")];
    let a = answer_question("fair", &events).unwrap();
    assert_eq!(
        a,
        "1. May 1 2025, Fair C (from 3)\n2. May 1 2026, Fair B (from 2)\n3. May 1 2026, Fair A (from 1)\n"
    );
}

#[test]
fn keyword_search_and_help() {
    let events = sample_events();
    let a = answer_question("Christmas", &events).unwrap();
    assert_eq!(a, "1. December 25 2024, Christmas Day (from c.docx)\n");
    let a = answer_question("nothing like this", &events).unwrap();
    assert_eq!(a, "Try: 'When is <event> in 2026?' or 'How many times did <keyword> meet in 2024?'");
    let a = answer_question("", &[]).unwrap();
    assert_eq!(a, "Try: 'When is <event> in 2026?' or 'How many times did <keyword> meet in 2024?'");
}

#[test]
fn answers_from_given_matches() {
    let events = sample_events();
    let count = Some(vec![
        Some("how many times did council meet in 2026".to_string()),
        None,
        Some(" council ".to_string()),
        Some("meet".to_string()),
        Some("in".to_string()),
        Some("2026".to_string()),
    ]);
    let a = answer_from_captures("ignored", &count, &None, &events);
    assert_eq!(a, "Count in 2026 for 'council': 2");
    let count_bad_year = Some(vec![None, None, Some("council".to_string()), None, None, Some("٢٠٢٦".to_string())]);
    let a = answer_from_captures("ignored", &count_bad_year, &None, &events);
    assert_eq!(a, "Count in 0 for 'council': 0");
    let date = Some(vec![None, None, Some("Christmas Day".to_string()), None, None]);
    let a = answer_from_captures("ignored", &None, &date, &events);
    assert_eq!(a, "1. December 25 2024, Christmas Day (from c.docx)\n");
    let a = answer_from_captures("  new year  ", &None, &None, &events);
    assert_eq!(a, "1. January 1 2026, New Year's Day (from a.docx)\n");
    let _unused: Option<QaError> = None;
}

#[test]
fn answers_do_not_depend_on_event_order() {
    let events = sample_events();
    let mut reversed = events.clone();
    reversed.reverse();
    let mut rotated = events.clone();
    rotated.rotate_left(2);
    for q in ["When is council meeting?", "How many times did council meet in 2026?", "council", "christmas", "nothing here"] {
        let a = answer_question(q, &events).unwrap();
        assert_eq!(a, answer_question(q, &reversed).unwrap(), "{}", q);
        assert_eq!(a, answer_question(q, &rotated).unwrap(), "{}", q);
        // questions with the same normalized form get the same answer
        assert_eq!(a, answer_question(&q.to_uppercase().replace(' ', "  "), &events).unwrap(), "{}", q);
    }
}

#[test]
fn normalizing_twice_and_letter_case() {
    for t in ["New Year's Day", "  Hello,   World! 2026 ", "MiXeD-case_text\tline", "", "...", "a  b"] {
        let n = normalize(t);
        assert_eq!(normalize(&n), n, "{}", t);
        assert_eq!(normalize(&t.to_ascii_uppercase()), n, "{}", t);
        assert_eq!(normalize(&t.to_ascii_lowercase()), n, "{}", t);
    }
    assert_eq!(normalize("New Year's Day"), "new year s day");
}

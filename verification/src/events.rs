//! Calendar events and their parsing from extracted document text.
//!
//! The text of a calendar document is read line by line:
//! - a month header such as `JANUARY 202 6` (the year's digits may be spaced)
//!   sets the current month and year and clears the current day;
//! - weekday header lines (`SUNDAY` to `SATURDAY`) are skipped;
//! - a line holding a day number sets the current day when the number is from 1
//!   to 31, and clears it otherwise;
//! - any other non-empty line, once a year, month and day are known, is the title
//!   of an event on that date.

use vstd::prelude::*;
use crate::pattern::{
    Pattern, compile, captures, is_match, regex_captures, regex_compiles, regex_is_match,
};
use crate::text::{
    chars_of, string_of, trim_chars, split_lines, str_equals, parse_i32, parse_u32,
    trim, lines, parse_i32_spec, parse_u32_spec, is_white_space,
    lemma_trim_edges,
};

verus! {

/// A dated calendar event found in a document.
#[derive(Debug, Clone)]
pub struct Event {
    pub year: i32,
    /// 1 to 12
    pub month: u32,
    /// 1 to 31
    pub day: u32,
    pub title: String,
    pub source: String,
}

/// The mathematical value of an event.
pub struct EventView {
    pub year: i32,
    pub month: u32,
    pub day: u32,
    pub title: Seq<char>,
    pub source: Seq<char>,
}

impl View for Event {
    type V = EventView;

    open spec fn view(&self) -> EventView {
        EventView {
            year: self.year,
            month: self.month,
            day: self.day,
            title: self.title@,
            source: self.source@,
        }
    }
}

/// The views of a list of events.
pub open spec fn event_views(s: Seq<Event>) -> Seq<EventView> {
    s.map_values(|e: Event| e@)
}

/// The number of an upper-case English month name (JANUARY = 1).
pub open spec fn month_number(m: Seq<char>) -> Option<u32> {
    if m == "JANUARY"@ {
        Some(1)
    } else if m == "FEBRUARY"@ {
        Some(2)
    } else if m == "MARCH"@ {
        Some(3)
    } else if m == "APRIL"@ {
        Some(4)
    } else if m == "MAY"@ {
        Some(5)
    } else if m == "JUNE"@ {
        Some(6)
    } else if m == "JULY"@ {
        Some(7)
    } else if m == "AUGUST"@ {
        Some(8)
    } else if m == "SEPTEMBER"@ {
        Some(9)
    } else if m == "OCTOBER"@ {
        Some(10)
    } else if m == "NOVEMBER"@ {
        Some(11)
    } else if m == "DECEMBER"@ {
        Some(12)
    } else {
        None
    }
}

/// The number of an upper-case English month name (JANUARY = 1), if it is one.
pub fn month_to_num(m: &str) -> (r: Option<u32>)
    ensures
        r == month_number(m@),
{
    if str_equals(m, "JANUARY") {
        Some(1)
    } else if str_equals(m, "FEBRUARY") {
        Some(2)
    } else if str_equals(m, "MARCH") {
        Some(3)
    } else if str_equals(m, "APRIL") {
        Some(4)
    } else if str_equals(m, "MAY") {
        Some(5)
    } else if str_equals(m, "JUNE") {
        Some(6)
    } else if str_equals(m, "JULY") {
        Some(7)
    } else if str_equals(m, "AUGUST") {
        Some(8)
    } else if str_equals(m, "SEPTEMBER") {
        Some(9)
    } else if str_equals(m, "OCTOBER") {
        Some(10)
    } else if str_equals(m, "NOVEMBER") {
        Some(11)
    } else if str_equals(m, "DECEMBER") {
        Some(12)
    } else {
        None
    }
}

/// `line` is an upper-case English weekday name.
pub open spec fn weekday_line(line: Seq<char>) -> bool {
    ||| line == "SUNDAY"@
    ||| line == "MONDAY"@
    ||| line == "TUESDAY"@
    ||| line == "WEDNESDAY"@
    ||| line == "THURSDAY"@
    ||| line == "FRIDAY"@
    ||| line == "SATURDAY"@
}

/// Whether `line` is an upper-case English weekday name.
pub fn is_weekday(line: &str) -> (r: bool)
    ensures
        r == weekday_line(line@),
{
    str_equals(line, "SUNDAY") || str_equals(line, "MONDAY") || str_equals(line, "TUESDAY")
        || str_equals(line, "WEDNESDAY") || str_equals(line, "THURSDAY") || str_equals(
        line,
        "FRIDAY",
    ) || str_equals(line, "SATURDAY")
}

/// The pattern of a month header line: a month name, then four to eight digits or
/// spaces for the year.
pub open spec fn month_header_pattern() -> Seq<char> {
    "^(JANUARY|FEBRUARY|MARCH|APRIL|MAY|JUNE|JULY|AUGUST|SEPTEMBER|OCTOBER|NOVEMBER|DECEMBER)\\s+([0-9 ]{4,8})\\s*$"@
}

/// The pattern of a day number line: one or two digits.
pub open spec fn day_pattern() -> Seq<char> {
    "^\\d{1,2}\\s*$"@
}

/// The two expressions a calendar text is read with.
pub struct CalendarPatterns {
    header: Pattern,
    day: Pattern,
}

impl CalendarPatterns {
    #[verifier::type_invariant]
    spec fn patterns_inv(self) -> bool {
        &&& self.header@ == month_header_pattern()
        &&& self.day@ == day_pattern()
    }

    /// The patterns the month header and day number expressions were compiled from.
    pub closed spec fn sources(self) -> (Seq<char>, Seq<char>) {
        (self.header@, self.day@)
    }

    /// Compiles the month header and day number expressions.
    pub fn new() -> (r: Result<CalendarPatterns, regex::Error>)
        ensures
            r is Ok <==> regex_compiles(month_header_pattern()) && regex_compiles(day_pattern()),
            r matches Ok(p) ==> p.sources() == (month_header_pattern(), day_pattern()),
    {
        let header = compile(
            "^(JANUARY|FEBRUARY|MARCH|APRIL|MAY|JUNE|JULY|AUGUST|SEPTEMBER|OCTOBER|NOVEMBER|DECEMBER)\\s+([0-9 ]{4,8})\\s*$",
        )?;
        let day = compile("^\\d{1,2}\\s*$")?;
        Ok(CalendarPatterns { header, day })
    }
}

/// The date reached while reading a calendar text.
#[derive(Debug, Clone, Copy)]
pub struct CalendarState {
    pub year: Option<i32>,
    pub month: Option<u32>,
    pub day: Option<u32>,
}

impl CalendarState {
    /// No date known yet.
    pub open spec fn initial() -> CalendarState {
        CalendarState { year: None, month: None, day: None }
    }

    /// No date known yet.
    pub fn new() -> (r: CalendarState)
        ensures
            r == CalendarState::initial(),
    {
        CalendarState { year: None, month: None, day: None }
    }
}

/// The capture groups of a month header match hold the month (group 1) and the year
/// (group 2).
pub open spec fn header_groups_present(h: Option<Seq<Option<Seq<char>>>>) -> bool {
    h matches Some(g) ==> (g.len() > 2 && g[1] is Some && g[2] is Some)
}

/// `s` without its ASCII spaces.
pub open spec fn remove_spaces(s: Seq<char>) -> Seq<char>
    decreases s.len(),
{
    if s.len() == 0 {
        s
    } else {
        let r = remove_spaces(s.drop_last());
        if s.last() == ' ' {
            r
        } else {
            r.push(s.last())
        }
    }
}

/// The day a day number line gives: its number when that is from 1 to 31.
pub open spec fn day_of(line: Seq<char>) -> Option<u32> {
    match parse_u32_spec(line) {
        Some(d) => if 1 <= d <= 31 {
            Some(d)
        } else {
            None
        },
        None => None,
    }
}

/// The event a title line gives on the current date.
pub open spec fn title_event(st: CalendarState, line: Seq<char>, doc: Seq<char>) -> EventView {
    EventView {
        year: st.year->0,
        month: st.month->0,
        day: st.day->0,
        title: line,
        source: doc,
    }
}

/// One non-empty trimmed line: the next state and the event the line gives, if any.
/// `header` is the month header match of the line, `day_line` whether it matches the
/// day number pattern.
pub open spec fn line_step(
    st: CalendarState,
    line: Seq<char>,
    header: Option<Seq<Option<Seq<char>>>>,
    day_line: bool,
    doc: Seq<char>,
) -> (CalendarState, Option<EventView>) {
    match header {
        Some(g) => {
            let m = month_number(g[1]->0);
            let y = parse_i32_spec(remove_spaces(g[2]->0));
            if m is Some && y is Some {
                (CalendarState { year: Some(y->0), month: Some(m->0), day: None }, None)
            } else {
                (st, None)
            }
        },
        None => {
            if weekday_line(line) {
                (st, None)
            } else if day_line {
                (CalendarState { year: st.year, month: st.month, day: day_of(line) }, None)
            } else if st.year is Some && st.month is Some && st.day is Some {
                (st, Some(title_event(st, line, doc)))
            } else {
                (st, None)
            }
        },
    }
}

/// The view of an optional event.
pub open spec fn opt_event_view(e: Option<Event>) -> Option<EventView> {
    match e {
        Some(x) => Some(x@),
        None => None,
    }
}

/// Removes the ASCII spaces.
fn without_spaces(s: &Vec<char>) -> (out: Vec<char>)
    ensures
        out@ == remove_spaces(s@),
{
    let n = s.len();
    let mut out: Vec<char> = Vec::new();
    assert(s@.take(0) =~= Seq::<char>::empty());
    for i in 0..n
        invariant
            n == s@.len(),
            out@ == remove_spaces(s@.take(i as int)),
    {
        assert(s@.take(i + 1).drop_last() =~= s@.take(i as int));
        if s[i] != ' ' {
            out.push(s[i]);
        }
    }
    assert(s@.take(n as int) =~= s@);
    out
}

/// Reads one non-empty trimmed line, given its month header match and whether it is
/// a day number line: updates the date and returns the event the line gives, if any.
pub fn apply_line(
    state: &mut CalendarState,
    line: &Vec<char>,
    header: &Option<Vec<Option<String>>>,
    day_line: bool,
    doc_name: &str,
) -> (e: Option<Event>)
    requires
        header_groups_present(header.deep_view()),
    ensures
        (*final(state), opt_event_view(e)) == line_step(
            *old(state),
            line@,
            header.deep_view(),
            day_line,
            doc_name@,
        ),
{
    match header {
        Some(g) => {
            assert(g.deep_view()[1] == g@[1].deep_view());
            assert(g.deep_view()[2] == g@[2].deep_view());
            let month_str = g[1].as_ref().unwrap();
            let year_str = g[2].as_ref().unwrap();
            let year_chars = without_spaces(&chars_of(year_str.as_str()));
            match (month_to_num(month_str.as_str()), parse_i32(&year_chars)) {
                (Some(m), Some(y)) => {
                    state.year = Some(y);
                    state.month = Some(m);
                    state.day = None;
                },
                _ => {},
            }
            None
        },
        None => {
            let s = string_of(line);
            if is_weekday(s.as_str()) {
                None
            } else if day_line {
                state.day = match parse_u32(line) {
                    Some(d) => if 1 <= d && d <= 31 {
                        Some(d)
                    } else {
                        None
                    },
                    None => None,
                };
                None
            } else {
                match (state.year, state.month, state.day) {
                    (Some(y), Some(m), Some(d)) => Some(
                        Event {
                            year: y,
                            month: m,
                            day: d,
                            title: s,
                            source: string_of(&chars_of(doc_name)),
                        },
                    ),
                    _ => None,
                }
            }
        },
    }
}

/// Reads the lines in order from the initial state: the final state and the events,
/// or `None` when a month header match lacks its month or year group.
pub open spec fn read_lines(ls: Seq<Seq<char>>, doc: Seq<char>) -> Option<
    (CalendarState, Seq<EventView>),
>
    decreases ls.len(),
{
    if ls.len() == 0 {
        Some((CalendarState::initial(), Seq::empty()))
    } else {
        match read_lines(ls.drop_last(), doc) {
            None => None,
            Some(r) => {
                let line = trim(ls.last());
                if line.len() == 0 {
                    Some(r)
                } else {
                    let h = regex_captures(month_header_pattern(), line);
                    if !header_groups_present(h) {
                        None
                    } else {
                        let (st, e) = line_step(
                            r.0,
                            line,
                            h,
                            regex_is_match(day_pattern(), line),
                            doc,
                        );
                        Some(
                            (
                                st,
                                match e {
                                    Some(ev) => r.1.push(ev),
                                    None => r.1,
                                },
                            ),
                        )
                    }
                }
            },
        }
    }
}

/// Once reading fails, reading more lines fails too.
proof fn lemma_read_lines_failure_persists(ls: Seq<Seq<char>>, i: int, doc: Seq<char>)
    requires
        0 <= i <= ls.len(),
        read_lines(ls.take(i), doc) is None,
    ensures
        read_lines(ls, doc) is None,
    decreases ls.len() - i,
{
    if i < ls.len() {
        assert(ls.take(i + 1).drop_last() =~= ls.take(i));
        lemma_read_lines_failure_persists(ls, i + 1, doc);
    } else {
        assert(ls.take(i) =~= ls);
    }
}

/// An event read from document `doc` has a month from 1 to 12 and a day from 1 to 31,
/// its source is `doc`, and its title is a non-empty line without leading or trailing
/// whitespace.
pub open spec fn valid_event(e: EventView, doc: Seq<char>) -> bool {
    &&& 1 <= e.month <= 12
    &&& e.source == doc
    &&& 1 <= e.day <= 31
    &&& e.title.len() > 0
    &&& !is_white_space(e.title[0])
    &&& !is_white_space(e.title.last())
}

proof fn lemma_read_lines_valid(ls: Seq<Seq<char>>, doc: Seq<char>)
    ensures
        read_lines(ls, doc) matches Some(r) ==> {
            &&& (r.0.month matches Some(m) ==> 1 <= m <= 12)
            &&& (r.0.day matches Some(d) ==> 1 <= d <= 31)
            &&& forall|i: int| 0 <= i < r.1.len() ==> valid_event(#[trigger] r.1[i], doc)
            &&& forall|i: int| 0 <= i < r.1.len() ==> !weekday_line(#[trigger] r.1[i].title)
        },
    decreases ls.len(),
{
    if ls.len() > 0 {
        lemma_read_lines_valid(ls.drop_last(), doc);
        let line = trim(ls.last());
        lemma_trim_edges(ls.last());
        if line.len() > 0 {
            assert(line[0] == trim(ls.last())[0]);
        }
    }
}

/// Law: every event read from a calendar text has a month from 1 to 12, a day from 1
/// to 31, the document as its source, and a non-empty title with no leading or
/// trailing whitespace.
pub proof fn lemma_calendar_events_valid(doc: Seq<char>, text: Seq<char>)
    ensures
        calendar_events(doc, text) matches Some(es) ==> forall|i: int|
            0 <= i < es.len() ==> valid_event(#[trigger] es[i], doc),
{
    lemma_read_lines_valid(lines(text), doc);
}

/// Law: weekday header lines are skipped: no event read from a calendar text has an
/// upper-case English weekday name as its title.
pub proof fn lemma_calendar_events_skip_weekdays(doc: Seq<char>, text: Seq<char>)
    ensures
        calendar_events(doc, text) matches Some(es) ==> forall|i: int|
            0 <= i < es.len() ==> {
                let t = (#[trigger] es[i]).title;
                &&& t != "SUNDAY"@
                &&& t != "MONDAY"@
                &&& t != "TUESDAY"@
                &&& t != "WEDNESDAY"@
                &&& t != "THURSDAY"@
                &&& t != "FRIDAY"@
                &&& t != "SATURDAY"@
            },
{
    lemma_read_lines_valid(lines(text), doc);
}

/// The events of a calendar text, or `None` when a month header match lacks its month
/// or year group.
pub open spec fn calendar_events(doc: Seq<char>, text: Seq<char>) -> Option<Seq<EventView>> {
    match read_lines(lines(text), doc) {
        Some(r) => Some(r.1),
        None => None,
    }
}

/// Why the events of a text could not be read.
#[derive(Debug)]
pub enum EventsError {
    /// An expression did not compile.
    Pattern(regex::Error),
    /// A month header match lacked its month or year group.
    MissingHeaderGroup,
}

/// Reads the events of a calendar text with compiled expressions.
pub fn parse_events_with(patterns: &CalendarPatterns, doc_name: &str, text: &str) -> (r: Result<
    Vec<Event>,
    EventsError,
>)
    ensures
        match r {
            Ok(v) => calendar_events(doc_name@, text@) == Some(event_views(v@)),
            Err(e) => e is MissingHeaderGroup && calendar_events(doc_name@, text@) is None,
        },
{
    proof {
        use_type_invariant(patterns);
    }
    let all = chars_of(text);
    let ls = split_lines(&all);
    let ghost lv = crate::text::views(ls@);
    let n = ls.len();
    let mut state = CalendarState::new();
    let mut events: Vec<Event> = Vec::new();
    assert(lv.take(0) =~= Seq::<Seq<char>>::empty());
    for i in 0..n
        invariant
            n == lv.len(),
            lv == crate::text::views(ls@),
            lv == lines(text@),
            patterns.header@ == month_header_pattern(),
            patterns.day@ == day_pattern(),
            read_lines(lv.take(i as int), doc_name@) == Some((state, event_views(events@))),
    {
        let ghost prev = lv.take(i as int);
        assert(lv.take(i + 1).drop_last() =~= prev);
        assert(lv.take(i + 1).last() == ls@[i as int]@);
        let line = trim_chars(&ls[i]);
        if line.len() > 0 {
            let s = string_of(&line);
            let header = captures(&patterns.header, s.as_str());
            let ok = match &header {
                Some(g) => g.len() > 2 && g[1].is_some() && g[2].is_some(),
                None => true,
            };
            if !ok {
                proof {
                    if let Some(g) = &header {
                        assert(g.deep_view().len() == g@.len());
                        assert(g.len() > 2 ==> g.deep_view()[1] == g@[1].deep_view());
                        assert(g.len() > 2 ==> g.deep_view()[2] == g@[2].deep_view());
                    }
                }
                assert(!header_groups_present(header.deep_view()));
                assert(read_lines(lv.take(i + 1), doc_name@) is None);
                proof {
                    lemma_read_lines_failure_persists(lv, i + 1, doc_name@);
                    assert(lv.take(lv.len() as int) =~= lv);
                }
                return Err(EventsError::MissingHeaderGroup);
            }
            proof {
                if let Some(g) = &header {
                    assert(g.deep_view()[1] == g@[1].deep_view());
                    assert(g.deep_view()[2] == g@[2].deep_view());
                }
            }
            let day_line = if header.is_none() {
                is_match(&patterns.day, s.as_str())
            } else {
                false
            };
            let ghost expected_day = regex_is_match(day_pattern(), line@);
            let ghost old_state = state;
            let ghost old_events = event_views(events@);
            let e = apply_line(&mut state, &line, &header, day_line, doc_name);
            proof {
                let (st2, e2) = line_step(old_state, line@, header.deep_view(), expected_day, doc_name@);
                let (st3, e3) = line_step(old_state, line@, header.deep_view(), day_line, doc_name@);
                assert(st2 == st3 && e2 == e3);
            }
            match e {
                Some(ev) => {
                    events.push(ev);
                    assert(event_views(events@) =~= old_events.push(ev@));
                },
                None => {},
            }
        }
    }
    assert(lv.take(n as int) =~= lv);
    Ok(events)
}

/// Reads the events of a calendar text: compiles the month header and day number
/// expressions, then reads the text line by line.
pub fn parse_events_from_text(doc_name: &str, text: &str) -> (r: Result<Vec<Event>, EventsError>)
    ensures
        r matches Ok(v) ==> calendar_events(doc_name@, text@) == Some(event_views(v@)),
        r matches Err(EventsError::MissingHeaderGroup) ==> calendar_events(doc_name@, text@) is None,
        calendar_events(doc_name@, text@) is Some ==> (r is Ok || r matches Err(EventsError::Pattern(_))),
        r matches Err(EventsError::Pattern(_)) <==> !(regex_compiles(month_header_pattern())
            && regex_compiles(day_pattern())),
{
    let patterns = match CalendarPatterns::new() {
        Ok(p) => p,
        Err(e) => {
            return Err(EventsError::Pattern(e));
        },
    };
    parse_events_with(&patterns, doc_name, text)
}

} // verus!

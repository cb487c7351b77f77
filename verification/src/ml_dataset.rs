//! Training samples for the month classifier.

use vstd::prelude::*;
use crate::events::{
    Event, EventView, event_views, calendar_events, valid_event, lemma_calendar_events_valid,
    month_number,
};
use crate::text::{append_str, ascii_uppercase};
use crate::text::string_of;

verus! {

/// The English name of month `m` (1 = January), or "Unknown".
pub open spec fn month_name_spec(m: u32) -> Seq<char> {
    if m == 1 {
        "January"@
    } else if m == 2 {
        "February"@
    } else if m == 3 {
        "March"@
    } else if m == 4 {
        "April"@
    } else if m == 5 {
        "May"@
    } else if m == 6 {
        "June"@
    } else if m == 7 {
        "July"@
    } else if m == 8 {
        "August"@
    } else if m == 9 {
        "September"@
    } else if m == 10 {
        "October"@
    } else if m == 11 {
        "November"@
    } else if m == 12 {
        "December"@
    } else {
        "Unknown"@
    }
}

/// The English name of month `m` (1 = January), or "Unknown" outside 1 to 12.
pub fn month_name(m: u32) -> (r: &'static str)
    ensures
        r@ == month_name_spec(m),
{
    if m == 1 {
        "January"
    } else if m == 2 {
        "February"
    } else if m == 3 {
        "March"
    } else if m == 4 {
        "April"
    } else if m == 5 {
        "May"
    } else if m == 6 {
        "June"
    } else if m == 7 {
        "July"
    } else if m == 8 {
        "August"
    } else if m == 9 {
        "September"
    } else if m == 10 {
        "October"
    } else if m == 11 {
        "November"
    } else if m == 12 {
        "December"
    } else {
        "Unknown"
    }
}

/// Law: the upper-cased English name of month `k` reads back as month `k`.
pub proof fn lemma_month_name_round_trip(k: u32)
    requires
        1 <= k <= 12,
    ensures
        month_number(ascii_uppercase(month_name_spec(k))) == Some(k),
{
    reveal_strlit("January");
    reveal_strlit("February");
    reveal_strlit("March");
    reveal_strlit("April");
    reveal_strlit("May");
    reveal_strlit("June");
    reveal_strlit("July");
    reveal_strlit("August");
    reveal_strlit("September");
    reveal_strlit("October");
    reveal_strlit("November");
    reveal_strlit("December");
    reveal_strlit("JANUARY");
    reveal_strlit("FEBRUARY");
    reveal_strlit("MARCH");
    reveal_strlit("APRIL");
    reveal_strlit("MAY");
    reveal_strlit("JUNE");
    reveal_strlit("JULY");
    reveal_strlit("AUGUST");
    reveal_strlit("SEPTEMBER");
    reveal_strlit("OCTOBER");
    reveal_strlit("NOVEMBER");
    reveal_strlit("DECEMBER");
    if k == 1 {
        assert(ascii_uppercase("January"@) =~= "JANUARY"@);
    } else if k == 2 {
        assert(ascii_uppercase("February"@) =~= "FEBRUARY"@);
        assert("FEBRUARY"@.len() != "JANUARY"@.len());
    } else if k == 3 {
        assert(ascii_uppercase("March"@) =~= "MARCH"@);
        assert("MARCH"@.len() != "JANUARY"@.len());
        assert("MARCH"@.len() != "FEBRUARY"@.len());
    } else if k == 4 {
        assert(ascii_uppercase("April"@) =~= "APRIL"@);
        assert("APRIL"@.len() != "JANUARY"@.len());
        assert("APRIL"@.len() != "FEBRUARY"@.len());
        assert("APRIL"@[0] != "MARCH"@[0]);
    } else if k == 5 {
        assert(ascii_uppercase("May"@) =~= "MAY"@);
        assert("MAY"@.len() != "JANUARY"@.len());
        assert("MAY"@.len() != "FEBRUARY"@.len());
        assert("MAY"@.len() != "MARCH"@.len());
        assert("MAY"@.len() != "APRIL"@.len());
    } else if k == 6 {
        assert(ascii_uppercase("June"@) =~= "JUNE"@);
        assert("JUNE"@.len() != "JANUARY"@.len());
        assert("JUNE"@.len() != "FEBRUARY"@.len());
        assert("JUNE"@.len() != "MARCH"@.len());
        assert("JUNE"@.len() != "APRIL"@.len());
        assert("JUNE"@.len() != "MAY"@.len());
    } else if k == 7 {
        assert(ascii_uppercase("July"@) =~= "JULY"@);
        assert("JULY"@.len() != "JANUARY"@.len());
        assert("JULY"@.len() != "FEBRUARY"@.len());
        assert("JULY"@.len() != "MARCH"@.len());
        assert("JULY"@.len() != "APRIL"@.len());
        assert("JULY"@.len() != "MAY"@.len());
        assert("JULY"@[2] != "JUNE"@[2]);
    } else if k == 8 {
        assert(ascii_uppercase("August"@) =~= "AUGUST"@);
        assert("AUGUST"@.len() != "JANUARY"@.len());
        assert("AUGUST"@.len() != "FEBRUARY"@.len());
        assert("AUGUST"@.len() != "MARCH"@.len());
        assert("AUGUST"@.len() != "APRIL"@.len());
        assert("AUGUST"@.len() != "MAY"@.len());
        assert("AUGUST"@.len() != "JUNE"@.len());
        assert("AUGUST"@.len() != "JULY"@.len());
    } else if k == 9 {
        assert(ascii_uppercase("September"@) =~= "SEPTEMBER"@);
        assert("SEPTEMBER"@.len() != "JANUARY"@.len());
        assert("SEPTEMBER"@.len() != "FEBRUARY"@.len());
        assert("SEPTEMBER"@.len() != "MARCH"@.len());
        assert("SEPTEMBER"@.len() != "APRIL"@.len());
        assert("SEPTEMBER"@.len() != "MAY"@.len());
        assert("SEPTEMBER"@.len() != "JUNE"@.len());
        assert("SEPTEMBER"@.len() != "JULY"@.len());
        assert("SEPTEMBER"@.len() != "AUGUST"@.len());
    } else if k == 10 {
        assert(ascii_uppercase("October"@) =~= "OCTOBER"@);
        assert("OCTOBER"@[0] != "JANUARY"@[0]);
        assert("OCTOBER"@.len() != "FEBRUARY"@.len());
        assert("OCTOBER"@.len() != "MARCH"@.len());
        assert("OCTOBER"@.len() != "APRIL"@.len());
        assert("OCTOBER"@.len() != "MAY"@.len());
        assert("OCTOBER"@.len() != "JUNE"@.len());
        assert("OCTOBER"@.len() != "JULY"@.len());
        assert("OCTOBER"@.len() != "AUGUST"@.len());
        assert("OCTOBER"@.len() != "SEPTEMBER"@.len());
    } else if k == 11 {
        assert(ascii_uppercase("November"@) =~= "NOVEMBER"@);
        assert("NOVEMBER"@.len() != "JANUARY"@.len());
        assert("NOVEMBER"@[0] != "FEBRUARY"@[0]);
        assert("NOVEMBER"@.len() != "MARCH"@.len());
        assert("NOVEMBER"@.len() != "APRIL"@.len());
        assert("NOVEMBER"@.len() != "MAY"@.len());
        assert("NOVEMBER"@.len() != "JUNE"@.len());
        assert("NOVEMBER"@.len() != "JULY"@.len());
        assert("NOVEMBER"@.len() != "AUGUST"@.len());
        assert("NOVEMBER"@.len() != "SEPTEMBER"@.len());
        assert("NOVEMBER"@.len() != "OCTOBER"@.len());
    } else {
        assert(ascii_uppercase("December"@) =~= "DECEMBER"@);
        assert("DECEMBER"@.len() != "JANUARY"@.len());
        assert("DECEMBER"@[0] != "FEBRUARY"@[0]);
        assert("DECEMBER"@.len() != "MARCH"@.len());
        assert("DECEMBER"@.len() != "APRIL"@.len());
        assert("DECEMBER"@.len() != "MAY"@.len());
        assert("DECEMBER"@.len() != "JUNE"@.len());
        assert("DECEMBER"@.len() != "JULY"@.len());
        assert("DECEMBER"@.len() != "AUGUST"@.len());
        assert("DECEMBER"@.len() != "SEPTEMBER"@.len());
        assert("DECEMBER"@.len() != "OCTOBER"@.len());
        assert("DECEMBER"@[0] != "NOVEMBER"@[0]);
    }
}

/// An event has a month from 1 to 12.
pub open spec fn has_valid_month(e: EventView) -> bool {
    1 <= e.month <= 12
}

/// The sample for an event: the text `MONTH=<name> TITLE=<title>` and the label
/// month - 1.
pub open spec fn month_sample(e: EventView) -> (Seq<char>, usize) {
    ("MONTH="@ + month_name_spec(e.month) + " TITLE="@ + e.title, (e.month - 1) as usize)
}

/// The samples of the events with a valid month, in order.
pub open spec fn month_samples(es: Seq<EventView>) -> Seq<(Seq<char>, usize)>
    decreases es.len(),
{
    if es.len() == 0 {
        Seq::empty()
    } else {
        let r = month_samples(es.drop_last());
        if has_valid_month(es.last()) {
            r.push(month_sample(es.last()))
        } else {
            r
        }
    }
}

proof fn lemma_samples_of_valid_months(es: Seq<EventView>)
    requires
        forall|i: int| 0 <= i < es.len() ==> has_valid_month(#[trigger] es[i]),
    ensures
        month_samples(es) == es.map_values(|e: EventView| month_sample(e)),
    decreases es.len(),
{
    if es.len() > 0 {
        lemma_samples_of_valid_months(es.drop_last());
        assert(es.map_values(|e: EventView| month_sample(e)) =~= es.drop_last().map_values(
            |e: EventView| month_sample(e),
        ).push(month_sample(es.last())));
    }
}

/// Law: every event read from a calendar text gives exactly one training sample, in
/// order, labelled with its month index (month - 1).
pub proof fn lemma_calendar_events_all_sampled(doc: Seq<char>, text: Seq<char>)
    ensures
        calendar_events(doc, text) matches Some(es) ==> month_samples(es) == es.map_values(
            |e: EventView| month_sample(e),
        ),
{
    lemma_calendar_events_valid(doc, text);
    if let Some(es) = calendar_events(doc, text) {
        assert forall|i: int| 0 <= i < es.len() implies has_valid_month(#[trigger] es[i]) by {
            assert(valid_event(es[i], doc));
        }
        lemma_samples_of_valid_months(es);
    }
}

/// The views of a list of samples.
pub open spec fn sample_views(v: Seq<(String, usize)>) -> Seq<(Seq<char>, usize)> {
    v.map_values(|p: (String, usize)| (p.0@, p.1))
}

/// Builds one sample per event with a month from 1 to 12: the text
/// `MONTH=<name> TITLE=<title>` and the label month - 1 (0 to 11).
pub fn build_month_samples(events: &[Event]) -> (out: Vec<(String, usize)>)
    ensures
        sample_views(out@) == month_samples(event_views(events@)),
{
    let n = events.len();
    let mut out: Vec<(String, usize)> = Vec::new();
    let ghost evs = event_views(events@);
    assert(evs.take(0) =~= Seq::<EventView>::empty());
    for i in 0..n
        invariant
            n == events@.len(),
            evs == event_views(events@),
            sample_views(out@) == month_samples(evs.take(i as int)),
    {
        let e = &events[i];
        assert(evs.take(i + 1).drop_last() =~= evs.take(i as int));
        assert(evs.take(i + 1).last() == e@);
        if 1 <= e.month && e.month <= 12 {
            let mut t: Vec<char> = Vec::new();
            append_str(&mut t, "MONTH=");
            append_str(&mut t, month_name(e.month));
            append_str(&mut t, " TITLE=");
            append_str(&mut t, e.title.as_str());
            let label = (e.month - 1) as usize;
            let ghost before = sample_views(out@);
            out.push((string_of(&t), label));
            assert(sample_views(out@) =~= before.push(month_sample(e@)));
        }
    }
    assert(evs.take(n as int) =~= evs);
    out
}

} // verus!

//! Rule-based answers to questions about calendar events.
//!
//! Three kinds of question are told apart, after normalization:
//! - count questions, "How many times did <keyword> meet in <year>?";
//! - date questions, "When is <event> [in <year>]?";
//! - anything else, taken as a keyword to search the event titles for.

use vstd::prelude::*;
use vstd::multiset::Multiset;
use crate::events::{Event, EventView, event_views};
use crate::ml_dataset::{month_name, month_name_spec};
use crate::pattern::{compile, captures, regex_captures, regex_compiles};
use crate::text::{
    alphanumeric, append_str, chars_of, contains_chars, contains_seq, decimal, decimal_signed,
    is_white_space, is_whitespace, join_with_spaces, join_words, lowercase, parse_i32,
    parse_i32_spec, push_decimal, push_decimal_i32, split_words, string_of, trim, trim_chars,
    words, single_spaced, lemma_words_chars, lemma_join_words_spacing, ascii_upper,
    ascii_lower_char, ascii_upper_char, ascii_uppercase, is_ascii_char, lemma_join_words_of_words,
};

verus! {

// ---------------------------------------------------------------------
// Normalization
// ---------------------------------------------------------------------
/// A character after lower-casing: the right single quotation mark becomes an
/// apostrophe, then anything but a letter, a number or whitespace becomes a space.
pub open spec fn clean_char(c: char) -> char {
    let d = if c as u32 == 0x2019 {
        '\''
    } else {
        c
    };
    if alphanumeric(d) || is_white_space(d) {
        d
    } else {
        ' '
    }
}

/// The normalized form of a text: lower-cased, punctuation replaced by spaces, and
/// its words joined by single spaces.
pub open spec fn normalized(s: Seq<char>) -> Seq<char> {
    join_words(words(lowercase(s).map_values(|c: char| clean_char(c))))
}

/// Every character of the text is ASCII.
pub open spec fn all_ascii(s: Seq<char>) -> bool {
    forall|i: int| 0 <= i < s.len() ==> is_ascii_char(#[trigger] s[i])
}

/// An ASCII letter or digit.
pub open spec fn ascii_alnum(c: char) -> bool {
    'a' <= c <= 'z' || 'A' <= c <= 'Z' || '0' <= c <= '9'
}

/// A character lower-cased as ASCII, then kept if it is a letter, a digit or whitespace
/// and turned into a space otherwise.
pub open spec fn ascii_clean_char(c: char) -> char {
    let d = ascii_lower_char(c);
    if ascii_alnum(d) || is_white_space(d) {
        d
    } else {
        ' '
    }
}

/// The normalized form of an ASCII text: what `normalize` gives for one.
pub open spec fn ascii_normalized(s: Seq<char>) -> Seq<char> {
    join_words(words(s.map_values(|c: char| ascii_clean_char(c))))
}

/// Lower-casing an ASCII letter undoes upper-casing it.
proof fn lemma_ascii_case_chars(c: char)
    ensures
        ascii_clean_char(ascii_upper_char(c)) == ascii_clean_char(c),
        ascii_clean_char(ascii_lower_char(c)) == ascii_clean_char(c),
        is_ascii_char(c) ==> is_ascii_char(ascii_upper_char(c)) && is_ascii_char(
            ascii_lower_char(c),
        ),
{
    if 'a' <= c <= 'z' {
        let u = ascii_upper_char(c);
        assert(u as u32 == c as u32 - 32);
        assert('A' <= u <= 'Z');
        assert(ascii_lower_char(u) as u32 == c as u32);
    }
    if 'A' <= c <= 'Z' {
        let l = ascii_lower_char(c);
        assert(l as u32 == c as u32 + 32);
        assert(!ascii_upper(l));
    }
}

/// Law: ASCII letter case does not matter to the normalized form of a text, and
/// changing it keeps an ASCII text ASCII.
pub proof fn lemma_ascii_normalized_case_free(s: Seq<char>)
    ensures
        ascii_normalized(ascii_uppercase(s)) == ascii_normalized(s),
        ascii_normalized(s.map_values(|c: char| ascii_lower_char(c))) == ascii_normalized(s),
        all_ascii(s) ==> all_ascii(ascii_uppercase(s)) && all_ascii(
            s.map_values(|c: char| ascii_lower_char(c)),
        ),
{
    let up = ascii_uppercase(s);
    let low = s.map_values(|c: char| ascii_lower_char(c));
    assert forall|i: int| 0 <= i < s.len() implies ascii_clean_char(#[trigger] up[i])
        == ascii_clean_char(s[i]) && ascii_clean_char(low[i]) == ascii_clean_char(s[i]) && (
    is_ascii_char(s[i]) ==> is_ascii_char(up[i]) && is_ascii_char(low[i])) by {
        lemma_ascii_case_chars(s[i]);
    }
    assert(up.map_values(|c: char| ascii_clean_char(c)) =~= s.map_values(
        |c: char| ascii_clean_char(c),
    ));
    assert(low.map_values(|c: char| ascii_clean_char(c)) =~= s.map_values(
        |c: char| ascii_clean_char(c),
    ));
    if all_ascii(s) {
        assert forall|i: int| 0 <= i < up.len() implies is_ascii_char(#[trigger] up[i]) by {
            lemma_ascii_case_chars(s[i]);
        }
        assert forall|i: int| 0 <= i < low.len() implies is_ascii_char(#[trigger] low[i]) by {
            lemma_ascii_case_chars(s[i]);
        }
    }
}

/// Law: the normalized form of a text is ASCII-normalized already: normalizing it
/// again leaves it unchanged (and it is ASCII).
pub proof fn lemma_ascii_normalized_idempotent(s: Seq<char>)
    ensures
        all_ascii(ascii_normalized(s)),
        ascii_normalized(ascii_normalized(s)) == ascii_normalized(s),
{
    let m = s.map_values(|c: char| ascii_clean_char(c));
    let q = |c: char| 'a' <= c <= 'z' || '0' <= c <= '9';
    assert forall|j: int| 0 <= j < m.len() && !is_white_space(#[trigger] m[j]) implies q(m[j]) by {
        let c = s[j];
        assert(m[j] == ascii_clean_char(c));
        if 'A' <= c <= 'Z' {
            assert(ascii_lower_char(c) as u32 == c as u32 + 32);
        }
    }
    lemma_words_chars(m, q);
    let w = words(m);
    assert forall|c: char| #[trigger] q(c) implies c != ' ' by {}
    lemma_join_words_spacing(w, q);
    let y = ascii_normalized(s);
    assert(y == join_words(w));
    assert forall|i: int| 0 <= i < y.len() implies #[trigger] y[i] == ' ' || !is_white_space(
        y[i],
    ) by {
        assert(y[i] == ' ' || q(y[i]));
    }
    assert forall|i: int| 0 <= i < y.len() implies is_ascii_char(#[trigger] y[i]) by {
        assert(y[i] == ' ' || q(y[i]));
    }
    assert(y.map_values(|c: char| ascii_clean_char(c)) =~= y) by {
        assert forall|i: int| 0 <= i < y.len() implies ascii_clean_char(#[trigger] y[i]) == y[i] by {
            assert(y[i] == ' ' || q(y[i]));
        }
    }
    lemma_join_words_of_words(y);
}

/// Lower-cases `s`, turns every character that is not a letter, a number or whitespace
/// into a space, and joins the words with single spaces.
pub fn normalize(s: &str) -> (r: String)
    ensures
        r@ == normalized(s@),
        forall|i: int| 0 <= i < r@.len() ==> !ascii_upper(#[trigger] r@[i]),
        all_ascii(s@) ==> r@ == ascii_normalized(s@),
{
    let lower = s.to_lowercase();
    proof {
        lemma_normalized_shape(s@);
        assert forall|i: int| 0 <= i < normalized(s@).len() implies !ascii_upper(
            #[trigger] normalized(s@)[i],
        ) by {
            let c = normalized(s@)[i];
            if c != ' ' && c != '\'' {
                let j = choose|j: int| 0 <= j < lower@.len() && lower@[j] == c;
                assert(!ascii_upper(lower@[j]));
            }
        }
    }
    let cs = chars_of(lower.as_str());
    let n = cs.len();
    let mut mapped: Vec<char> = Vec::new();
    for i in 0..n
        invariant
            n == cs@.len(),
            cs@ == lowercase(s@),
            mapped@ == cs@.take(i as int).map_values(|c: char| clean_char(c)),
            all_ascii(s@) ==> cs@ == s@.map_values(|c: char| ascii_lower_char(c)),
            all_ascii(s@) ==> mapped@ == s@.take(i as int).map_values(
                |c: char| ascii_clean_char(c),
            ),
    {
        let c = cs[i];
        let d = if c as u32 == 0x2019 {
            '\''
        } else {
            c
        };
        let e = if d.is_alphanumeric() || is_whitespace(d) {
            d
        } else {
            ' '
        };
        mapped.push(e);
        assert(cs@.take(i + 1).map_values(|c: char| clean_char(c)) =~= cs@.take(
            i as int,
        ).map_values(|c: char| clean_char(c)).push(clean_char(c)));
        proof {
            if all_ascii(s@) {
                let x = s@[i as int];
                assert(is_ascii_char(x));
                assert(c == ascii_lower_char(x));
                assert(e == ascii_clean_char(x));
                assert(s@.take(i + 1).map_values(|c: char| ascii_clean_char(c)) =~= s@.take(
                    i as int,
                ).map_values(|c: char| ascii_clean_char(c)).push(ascii_clean_char(x)));
            }
        }
    }
    assert(cs@.take(n as int) =~= cs@);
    assert(all_ascii(s@) ==> s@.take(n as int) =~= s@);
    let w = split_words(&mapped);
    let joined = join_with_spaces(&w);
    string_of(&joined)
}

/// Law: a normalized text has no space at either end and never two spaces in a row,
/// and besides those single spaces holds only letters and numbers: no other
/// whitespace and no punctuation.  The characters other than spaces are characters of
/// the lower-cased text.
pub proof fn lemma_normalized_shape(s: Seq<char>)
    ensures
        single_spaced(normalized(s)),
        forall|i: int|
            0 <= i < normalized(s).len() ==> #[trigger] normalized(s)[i] == ' ' || (alphanumeric(
                normalized(s)[i],
            ) && !is_white_space(normalized(s)[i]) && (lowercase(s).contains(normalized(s)[i])
                || normalized(s)[i] == '\'')),
{
    let m = lowercase(s).map_values(|c: char| clean_char(c));
    let q = |c: char| alphanumeric(c) && (lowercase(s).contains(c) || c == '\'');
    assert forall|j: int| 0 <= j < m.len() implies (!is_white_space(#[trigger] m[j]) ==> q(m[j])) by {
        assert(m[j] == clean_char(lowercase(s)[j]));
        assert(lowercase(s)[j] == lowercase(s)[j]);
    }
    lemma_words_chars(m, q);
    let q2 = |c: char| q(c) && !is_white_space(c);
    let w = words(m);
    assert forall|i: int, k: int| 0 <= i < w.len() && 0 <= k < w[i].len() implies q2(
        #[trigger] w[i][k],
    ) by {
        assert(q(w[i][k]) && !is_white_space(w[i][k]));
    }
    assert forall|c: char| #[trigger] q2(c) implies c != ' ' by {
        if c == ' ' {
            assert(is_white_space(c));
        }
    }
    lemma_join_words_spacing(w, q2);
    assert forall|i: int| 0 <= i < normalized(s).len() implies #[trigger] normalized(s)[i] == ' '
        || (alphanumeric(normalized(s)[i]) && !is_white_space(normalized(s)[i]) && (lowercase(
        s,
    ).contains(normalized(s)[i]) || normalized(s)[i] == '\'')) by {
        assert(normalized(s)[i] == ' ' || q2(normalized(s)[i]));
    }
}

// ---------------------------------------------------------------------
// Selecting and ordering events
// ---------------------------------------------------------------------
/// An event is in the given year (any year for `None`) and its normalized title
/// contains `needle`.
pub open spec fn event_matches(e: EventView, year: Option<i32>, needle: Seq<char>) -> bool {
    (year is None || e.year == year->0) && contains_seq(normalized(e.title), needle)
}

/// The events that match, in the order they are given.
pub open spec fn matching_events(es: Seq<EventView>, year: Option<i32>, needle: Seq<char>) -> Seq<
    EventView,
>
    decreases es.len(),
{
    if es.len() == 0 {
        es
    } else {
        let r = matching_events(es.drop_last(), year, needle);
        if event_matches(es.last(), year, needle) {
            r.push(es.last())
        } else {
            r
        }
    }
}

/// The events at the given positions.
pub open spec fn pick(es: Seq<EventView>, idx: Seq<usize>) -> Seq<EventView> {
    idx.map_values(|k: usize| es[k as int])
}

/// All positions are positions of the list.
pub open spec fn positions_within(idx: Seq<usize>, n: nat) -> bool {
    forall|j: int| 0 <= j < idx.len() ==> #[trigger] idx[j] < n
}

/// `a` is on or before the date of `b` (year, then month, then day).
pub open spec fn date_le(a: EventView, b: EventView) -> bool {
    ||| a.year < b.year
    ||| a.year == b.year && a.month < b.month
    ||| a.year == b.year && a.month == b.month && a.day <= b.day
}

/// Inserts `e` into a date-ordered list after every event on or before its date.
pub open spec fn insert_by_date(t: Seq<EventView>, e: EventView) -> Seq<EventView>
    decreases t.len(),
{
    if t.len() == 0 {
        seq![e]
    } else if date_le(t.last(), e) {
        t.push(e)
    } else {
        insert_by_date(t.drop_last(), e).push(t.last())
    }
}

/// The events ordered by date, events of the same date in their input order (a
/// stable sort by year, month and day).
pub open spec fn sort_by_date(s: Seq<EventView>) -> Seq<EventView>
    decreases s.len(),
{
    if s.len() == 0 {
        s
    } else {
        insert_by_date(sort_by_date(s.drop_last()), s.last())
    }
}

/// The events are in date order.
pub open spec fn date_sorted(s: Seq<EventView>) -> bool {
    forall|i: int, j: int| 0 <= i < j < s.len() ==> date_le(s[i], s[j])
}

proof fn lemma_insert_bounded(t: Seq<EventView>, e: EventView, x: EventView)
    requires
        forall|i: int| 0 <= i < t.len() ==> date_le(#[trigger] t[i], x),
        date_le(e, x),
    ensures
        insert_by_date(t, e).len() == t.len() + 1,
        forall|k: int|
            0 <= k < insert_by_date(t, e).len() ==> date_le(#[trigger] insert_by_date(t, e)[k], x),
    decreases t.len(),
{
    if t.len() > 0 && !date_le(t.last(), e) {
        let u = t.drop_last();
        assert forall|i: int| 0 <= i < u.len() implies date_le(#[trigger] u[i], x) by {
            assert(date_le(t[i], x));
        }
        lemma_insert_bounded(u, e, x);
        assert(date_le(t[t.len() - 1], x));
    }
}

proof fn lemma_insert_by_date(t: Seq<EventView>, e: EventView)
    requires
        date_sorted(t),
    ensures
        date_sorted(insert_by_date(t, e)),
        insert_by_date(t, e).len() == t.len() + 1,
        insert_by_date(t, e).to_multiset() =~= t.to_multiset().insert(e),
    decreases t.len(),
{
    broadcast use vstd::seq_lib::group_to_multiset_ensures;

    let r = insert_by_date(t, e);
    if t.len() == 0 {
        assert(r =~= seq![e]);
        assert(Seq::<EventView>::empty().push(e) =~= r);
        assert(t =~= Seq::<EventView>::empty());
    } else if date_le(t.last(), e) {
        assert forall|i: int, j: int| 0 <= i < j < r.len() implies date_le(r[i], r[j]) by {
            if j == t.len() {
                assert(date_le(t[i], t[t.len() - 1]) || i == t.len() - 1);
            }
        }
    } else {
        let u = t.drop_last();
        assert(date_sorted(u));
        lemma_insert_by_date(u, e);
        let ru = insert_by_date(u, e);
        assert forall|i: int| 0 <= i < u.len() implies date_le(#[trigger] u[i], t.last()) by {
            assert(date_le(t[i], t[t.len() - 1]));
        }
        assert(date_le(e, t.last()));
        lemma_insert_bounded(u, e, t.last());
        assert forall|i: int, j: int| 0 <= i < j < r.len() implies date_le(r[i], r[j]) by {
            if j == ru.len() {
                assert(date_le(ru[i], t.last()));
            }
        }
        assert(t =~= u.push(t.last()));
    }
}

/// Law: ordering events by date keeps exactly the same events (as a multiset) and puts
/// them in date order.
pub proof fn lemma_sort_by_date(s: Seq<EventView>)
    ensures
        date_sorted(sort_by_date(s)),
        sort_by_date(s).to_multiset() =~= s.to_multiset(),
        sort_by_date(s).len() == s.len(),
    decreases s.len(),
{
    broadcast use vstd::seq_lib::group_to_multiset_ensures;

    if s.len() > 0 {
        lemma_sort_by_date(s.drop_last());
        lemma_insert_by_date(sort_by_date(s.drop_last()), s.last());
        assert(s =~= s.drop_last().push(s.last()));
    }
}

/// Two events fall on the same date.
pub open spec fn same_date(a: EventView, b: EventView) -> bool {
    a.year == b.year && a.month == b.month && a.day == b.day
}

/// No event occurs twice and no two events share a date.
pub open spec fn dates_distinct(m: Multiset<EventView>) -> bool {
    forall|a: EventView, b: EventView|
        #![trigger m.count(a), m.count(b)]
        m.count(a) > 0 && m.count(b) > 0 && same_date(a, b) ==> a == b && m.count(a) == 1
}

/// The matching events hold each matching event as often as the list does.
proof fn lemma_matching_count(es: Seq<EventView>, year: Option<i32>, needle: Seq<char>)
    ensures
        forall|x: EventView|
            #[trigger] matching_events(es, year, needle).to_multiset().count(x) == if event_matches(
                x,
                year,
                needle,
            ) {
                es.to_multiset().count(x)
            } else {
                0
            },
    decreases es.len(),
{
    broadcast use vstd::seq_lib::group_to_multiset_ensures;

    if es.len() == 0 {
        assert(matching_events(es, year, needle) =~= Seq::<EventView>::empty());
    } else {
        let e = es.last();
        let p = es.drop_last();
        let r = matching_events(p, year, needle);
        lemma_matching_count(p, year, needle);
        assert(es =~= p.push(e));
        assert(es.to_multiset() == p.to_multiset().insert(e));
        assert(r.push(e).to_multiset() == r.to_multiset().insert(e));
        assert forall|x: EventView|
            #[trigger] matching_events(es, year, needle).to_multiset().count(x) == if event_matches(
                x,
                year,
                needle,
            ) {
                es.to_multiset().count(x)
            } else {
                0
            } by {
            assert(r.to_multiset().count(x) == if event_matches(x, year, needle) {
                p.to_multiset().count(x)
            } else {
                0
            });
        }
    }
}

/// Two date-sorted lists of the same events, no two of which share a date, are equal.
proof fn lemma_sorted_unique(s: Seq<EventView>, t: Seq<EventView>)
    requires
        date_sorted(s),
        date_sorted(t),
        s.to_multiset() == t.to_multiset(),
        dates_distinct(s.to_multiset()),
    ensures
        s == t,
    decreases s.len(),
{
    broadcast use vstd::seq_lib::group_to_multiset_ensures;

    let m = s.to_multiset();
    assert(m.len() == s.len());
    assert(t.to_multiset().len() == t.len());
    if s.len() == 0 {
        assert(t.len() == 0);
        assert(s =~= t);
    } else {
        assert(t.len() == s.len());
        let a = s.last();
        let b = t.last();
        assert(s.contains(a));
        assert(m.count(a) > 0);
        assert(t.contains(a));
        let k = choose|k: int| 0 <= k < t.len() && t[k] == a;
        assert(date_le(t[k], t[t.len() - 1]) || k == t.len() - 1);
        assert(t.contains(b));
        assert(m.count(b) > 0);
        assert(s.contains(b));
        let k2 = choose|k: int| 0 <= k < s.len() && s[k] == b;
        assert(date_le(s[k2], s[s.len() - 1]) || k2 == s.len() - 1);
        assert(same_date(a, b));
        assert(a == b);
        let s0 = s.drop_last();
        let t0 = t.drop_last();
        assert(s =~= s0.push(a));
        assert(t =~= t0.push(a));
        assert(s0.to_multiset() =~= t0.to_multiset()) by {
            assert(s0.to_multiset().insert(a) == t0.to_multiset().insert(a));
            assert forall|x: EventView| s0.to_multiset().count(x) == t0.to_multiset().count(x) by {
                assert(s0.to_multiset().insert(a).count(x) == t0.to_multiset().insert(a).count(x));
            }
        }
        assert forall|x: EventView, y: EventView|
            #![trigger s0.to_multiset().count(x), s0.to_multiset().count(y)]
            s0.to_multiset().count(x) > 0 && s0.to_multiset().count(y) > 0 && same_date(x, y)
                implies x == y && s0.to_multiset().count(x) == 1 by {
            assert(m.count(x) == s0.to_multiset().count(x) + if x == a { 1int } else { 0int });
            assert(m.count(y) == s0.to_multiset().count(y) + if y == a { 1int } else { 0int });
        }
        lemma_sorted_unique(s0, t0);
    }
}

/// The matching events of two lists of the same events, no two of which share a date,
/// are as many, and in the same order once sorted by date.
proof fn lemma_matching_order_free(
    es1: Seq<EventView>,
    es2: Seq<EventView>,
    year: Option<i32>,
    needle: Seq<char>,
)
    requires
        es1.to_multiset() == es2.to_multiset(),
        dates_distinct(es1.to_multiset()),
    ensures
        matching_events(es1, year, needle).len() == matching_events(es2, year, needle).len(),
        sort_by_date(matching_events(es1, year, needle)) == sort_by_date(
            matching_events(es2, year, needle),
        ),
{
    broadcast use vstd::seq_lib::group_to_multiset_ensures;

    let m1 = matching_events(es1, year, needle);
    let m2 = matching_events(es2, year, needle);
    lemma_matching_count(es1, year, needle);
    lemma_matching_count(es2, year, needle);
    assert(m1.to_multiset() =~= m2.to_multiset()) by {
        assert forall|x: EventView| m1.to_multiset().count(x) == m2.to_multiset().count(x) by {}
    }
    lemma_sort_by_date(m1);
    lemma_sort_by_date(m2);
    let big = es1.to_multiset();
    let mm = sort_by_date(m1).to_multiset();
    assert(mm == m1.to_multiset());
    assert forall|x: EventView, y: EventView|
        #![trigger mm.count(x), mm.count(y)]
        mm.count(x) > 0 && mm.count(y) > 0 && same_date(x, y) implies x == y && mm.count(x) == 1 by {
        assert(m1.to_multiset().count(x) == if event_matches(x, year, needle) {
            big.count(x)
        } else {
            0
        });
        assert(m1.to_multiset().count(y) == if event_matches(y, year, needle) {
            big.count(y)
        } else {
            0
        });
        assert(big.count(x) > 0 && big.count(y) > 0);
    }
    lemma_sorted_unique(sort_by_date(m1), sort_by_date(m2));
}

/// Law: the answer to a question does not depend on the order of the events, when no
/// two events share a date (and none occurs twice).
pub proof fn lemma_answer_order_free(question: Seq<char>, es1: Seq<EventView>, es2: Seq<EventView>)
    requires
        es1.to_multiset() == es2.to_multiset(),
        dates_distinct(es1.to_multiset()),
    ensures
        answer(question, es1) == answer(question, es2),
{
    let q = normalized(question);
    let c = regex_captures(count_pattern(), q);
    let w = if c is None {
        regex_captures(date_pattern(), q)
    } else {
        None
    };
    if count_groups_present(c) && date_groups_present(w) {
        match c {
            Some(g) => {
                let kw = trim(g[2]->0);
                let year = match parse_i32_spec(g[5]->0) {
                    Some(y) => y,
                    None => 0,
                };
                lemma_matching_order_free(es1, es2, Some(year), kw);
            },
            None => match w {
                Some(g) => {
                    let ev = normalized(trim(g[2]->0));
                    let year = if g[4] is Some {
                        parse_i32_spec(g[4]->0)
                    } else {
                        None
                    };
                    lemma_matching_order_free(es1, es2, year, ev);
                },
                None => {
                    lemma_matching_order_free(es1, es2, None, trim(q));
                },
            },
        }
    }
}

fn event_date_le(a: &Event, b: &Event) -> (r: bool)
    ensures
        r == date_le(a@, b@),
{
    a.year < b.year || (a.year == b.year && a.month < b.month) || (a.year == b.year && a.month
        == b.month && a.day <= b.day)
}

/// Positions of the events that are in the given year (any year for `None`) and whose
/// normalized title contains `needle`.
fn matching_positions(events: &[Event], year: Option<i32>, needle: &Vec<char>) -> (idx: Vec<usize>)
    ensures
        positions_within(idx@, events@.len()),
        pick(event_views(events@), idx@) == matching_events(event_views(events@), year, needle@),
{
    let ghost evs = event_views(events@);
    let n = events.len();
    let mut idx: Vec<usize> = Vec::new();
    assert(evs.take(0) =~= Seq::<EventView>::empty());
    for i in 0..n
        invariant
            n == events@.len(),
            evs == event_views(events@),
            positions_within(idx@, events@.len()),
            pick(evs, idx@) == matching_events(evs.take(i as int), year, needle@),
    {
        let e = &events[i];
        assert(evs.take(i + 1).drop_last() =~= evs.take(i as int));
        assert(evs.take(i + 1).last() == e@);
        let in_year = match year {
            Some(y) => e.year == y,
            None => true,
        };
        if in_year {
            let t = normalize(e.title.as_str());
            let tc = chars_of(t.as_str());
            if contains_chars(&tc, needle) {
                let ghost before = pick(evs, idx@);
                idx.push(i);
                assert(pick(evs, idx@) =~= before.push(e@));
            }
        }
    }
    assert(evs.take(n as int) =~= evs);
    idx
}

/// Inserts position `k` into a list of positions ordered by the dates of their events.
fn insert_position(events: &[Event], t: Vec<usize>, k: usize) -> (r: Vec<usize>)
    requires
        k < events@.len(),
        positions_within(t@, events@.len()),
    ensures
        positions_within(r@, events@.len()),
        pick(event_views(events@), r@) == insert_by_date(
            pick(event_views(events@), t@),
            events@[k as int]@,
        ),
    decreases t@.len(),
{
    let ghost evs = event_views(events@);
    let ghost pt = pick(evs, t@);
    let mut t = t;
    if t.len() == 0 {
        t.push(k);
        assert(pick(evs, t@) =~= seq![events@[k as int]@]);
        t
    } else {
        let last = t[t.len() - 1];
        assert(pt.last() == events@[last as int]@);
        if event_date_le(&events[last], &events[k]) {
            t.push(k);
            assert(pick(evs, t@) =~= pt.push(events@[k as int]@));
            t
        } else {
            t.pop();
            assert(pick(evs, t@) =~= pt.drop_last());
            let mut r = insert_position(events, t, k);
            let ghost pr = pick(evs, r@);
            r.push(last);
            assert(pick(evs, r@) =~= pr.push(pt.last()));
            r
        }
    }
}

/// Orders positions by the dates of their events, stably.
fn sort_positions(events: &[Event], idx: &Vec<usize>) -> (r: Vec<usize>)
    requires
        positions_within(idx@, events@.len()),
    ensures
        positions_within(r@, events@.len()),
        pick(event_views(events@), r@) == sort_by_date(pick(event_views(events@), idx@)),
{
    let ghost evs = event_views(events@);
    let n = idx.len();
    let mut r: Vec<usize> = Vec::new();
    assert(pick(evs, idx@).take(0) =~= Seq::<EventView>::empty());
    for i in 0..n
        invariant
            n == idx@.len(),
            evs == event_views(events@),
            positions_within(idx@, events@.len()),
            positions_within(r@, events@.len()),
            pick(evs, r@) == sort_by_date(pick(evs, idx@).take(i as int)),
    {
        let k = idx[i];
        assert(pick(evs, idx@).take(i + 1).drop_last() =~= pick(evs, idx@).take(i as int));
        assert(pick(evs, idx@).take(i + 1).last() == events@[k as int]@);
        r = insert_position(events, r, k);
    }
    assert(pick(evs, idx@).take(n as int) =~= pick(evs, idx@));
    r
}

// ---------------------------------------------------------------------
// Answer texts
// ---------------------------------------------------------------------
/// The line listing event `e` as the `i`-th match (counted from 0):
/// `<i+1>. <Month> <day> <year>, <title> (from <source>)`.
pub open spec fn listing_line(i: nat, e: EventView) -> Seq<char> {
    decimal(i + 1) + ". "@ + month_name_spec(e.month) + " "@ + decimal(e.day as nat) + " "@
        + decimal_signed(e.year as int) + ", "@ + e.title + " (from "@ + e.source + ")\n"@
}

/// The listing lines of the first `k` events.
pub open spec fn listing(es: Seq<EventView>, k: nat) -> Seq<char>
    decreases k,
{
    if k == 0 {
        Seq::empty()
    } else {
        listing(es, (k - 1) as nat) + listing_line((k - 1) as nat, es[k - 1])
    }
}

/// At most ten events are listed.
pub open spec fn listed(n: nat) -> nat {
    if n < 10 {
        n
    } else {
        10
    }
}

/// The answer to a count question.
pub open spec fn count_answer(kw: Seq<char>, year: i32, es: Seq<EventView>) -> Seq<char> {
    "Count in "@ + decimal_signed(year as int) + " for '"@ + kw + "': "@ + decimal(
        matching_events(es, Some(year), kw).len(),
    )
}

/// The answer to a date question.
pub open spec fn date_answer(ev: Seq<char>, year: Option<i32>, es: Seq<EventView>) -> Seq<char> {
    let m = sort_by_date(matching_events(es, year, ev));
    if m.len() == 0 {
        "No match found for '"@ + ev + "'. Try different wording."@
    } else {
        listing(m, listed(m.len())) + if m.len() > 10 {
            "(Showing 10 of "@ + decimal(m.len()) + ")\n"@
        } else {
            Seq::empty()
        }
    }
}

/// The answer to a keyword search.
pub open spec fn keyword_answer(kw: Seq<char>, es: Seq<EventView>) -> Seq<char> {
    let h = sort_by_date(matching_events(es, None, kw));
    if h.len() == 0 {
        "Try: 'When is <event> in 2026?' or 'How many times did <keyword> meet in 2024?'"@
    } else {
        listing(h, listed(h.len()))
    }
}

/// The events of `es` in year `year` whose normalized title contains `kw`: the count
/// question's matches.
proof fn lemma_count_matches(kw: Seq<char>, year: i32, es: Seq<EventView>)
    ensures
        matching_events(es, Some(year), kw) == es.filter(
            |e: EventView| e.year == year && contains_seq(normalized(e.title), kw),
        ),
    decreases es.len(),
{
    reveal(Seq::filter);
    if es.len() > 0 {
        lemma_count_matches(kw, year, es.drop_last());
    }
}

/// Law: the number in the answer to a count question is the number of events of that
/// year whose normalized title contains the keyword, however many there are.
pub proof fn lemma_count_answer_counts(kw: Seq<char>, year: i32, es: Seq<EventView>)
    ensures
        count_answer(kw, year, es) == "Count in "@ + decimal_signed(year as int) + " for '"@ + kw
            + "': "@ + decimal(
            es.filter(|e: EventView| e.year == year && contains_seq(normalized(e.title), kw)).len(),
        ),
{
    lemma_count_matches(kw, year, es);
}

/// Law: one more event of that year whose normalized title contains the keyword raises
/// the count of a count question by one; any other event leaves it as it is.
pub proof fn lemma_count_answer_push(kw: Seq<char>, year: i32, es: Seq<EventView>, e: EventView)
    ensures
        ({
            let n = es.filter(|x: EventView| x.year == year && contains_seq(normalized(x.title), kw)).len();
            count_answer(kw, year, es.push(e)) == "Count in "@ + decimal_signed(year as int)
                + " for '"@ + kw + "': "@ + decimal(
                if e.year == year && contains_seq(normalized(e.title), kw) {
                    n + 1
                } else {
                    n
                },
            )
        }),
{
    reveal(Seq::filter);
    lemma_count_matches(kw, year, es);
    lemma_count_matches(kw, year, es.push(e));
    assert(es.push(e).drop_last() =~= es);
}

/// The matching events of a year are those of the events of that year.
proof fn lemma_matches_of_year(ev: Seq<char>, y: i32, es: Seq<EventView>)
    ensures
        matching_events(es, Some(y), ev) == matching_events(
            es.filter(|e: EventView| e.year == y),
            Some(y),
            ev,
        ),
        (forall|i: int|
            0 <= i < es.len() ==> !((#[trigger] es[i]).year == y && contains_seq(
                normalized(es[i].title),
                ev,
            ))) ==> matching_events(es, Some(y), ev).len() == 0,
    decreases es.len(),
{
    reveal(Seq::filter);
    if es.len() > 0 {
        let p = es.drop_last();
        lemma_matches_of_year(ev, y, p);
        let f = es.filter(|e: EventView| e.year == y);
        let fp = p.filter(|e: EventView| e.year == y);
        if es.last().year == y {
            assert(f == fp.push(es.last()));
            assert(f.drop_last() =~= fp);
        } else {
            assert(f == fp);
        }
        assert forall|i: int| 0 <= i < p.len() implies #[trigger] p[i] == es[i] by {}
    }
}

/// Law: a date question that names a year is answered from the events of that year
/// alone: events of other years change nothing.
pub proof fn lemma_date_answer_year_only(ev: Seq<char>, y: i32, es: Seq<EventView>)
    ensures
        date_answer(ev, Some(y), es) == date_answer(
            ev,
            Some(y),
            es.filter(|e: EventView| e.year == y),
        ),
{
    lemma_matches_of_year(ev, y, es);
}

/// Law: when no event of the named year has a normalized title containing the event
/// words, the answer to a date question is the no-match message.
pub proof fn lemma_date_answer_no_match(ev: Seq<char>, y: i32, es: Seq<EventView>)
    requires
        forall|i: int|
            0 <= i < es.len() ==> !((#[trigger] es[i]).year == y && contains_seq(
                normalized(es[i].title),
                ev,
            )),
    ensures
        date_answer(ev, Some(y), es) == "No match found for '"@ + ev + "'. Try different wording."@,
{
    lemma_matches_of_year(ev, y, es);
    lemma_sort_by_date(matching_events(es, Some(y), ev));
}

/// The pattern of a count question; group 2 is the keyword, group 5 the year.
pub open spec fn count_pattern() -> Seq<char> {
    "how many times did (the )?(?P<kw>.+?) (meet|hold|have|occur).*(in|for)\\s+(?P<year>\\d{4})"@
}

/// The pattern of a date question; group 2 is the event, group 4 the optional year.
pub open spec fn date_pattern() -> Seq<char> {
    "(when is|date of|what is the date of)\\s+(?P<ev>.+?)(\\s+in\\s+(?P<year>\\d{4}))?\\??$"@
}

/// A count question match has its keyword and year groups.
pub open spec fn count_groups_present(c: Option<Seq<Option<Seq<char>>>>) -> bool {
    c matches Some(g) ==> (g.len() > 5 && g[2] is Some && g[5] is Some)
}

/// A date question match has its event group (and a place for the year group).
pub open spec fn date_groups_present(w: Option<Seq<Option<Seq<char>>>>) -> bool {
    w matches Some(g) ==> (g.len() > 4 && g[2] is Some)
}

/// The answer to the normalized question `q`, given its count question match and,
/// when that failed, its date question match.
pub open spec fn answer_from(
    q: Seq<char>,
    count: Option<Seq<Option<Seq<char>>>>,
    date: Option<Seq<Option<Seq<char>>>>,
    es: Seq<EventView>,
) -> Seq<char> {
    match count {
        Some(g) => {
            let kw = trim(g[2]->0);
            let year = match parse_i32_spec(g[5]->0) {
                Some(y) => y,
                None => 0,
            };
            count_answer(kw, year, es)
        },
        None => match date {
            Some(g) => {
                let ev = normalized(trim(g[2]->0));
                let year = if g[4] is Some {
                    parse_i32_spec(g[4]->0)
                } else {
                    None
                };
                date_answer(ev, year, es)
            },
            None => keyword_answer(trim(q), es),
        },
    }
}

/// Appends the listing line of event `e` as the `i`-th match.
fn push_listing_line(out: &mut Vec<char>, i: usize, e: &Event)
    requires
        i < 10,
    ensures
        final(out)@ == old(out)@ + listing_line(i as nat, e@),
{
    push_decimal(out, (i + 1) as u64);
    append_str(out, ". ");
    append_str(out, month_name(e.month));
    append_str(out, " ");
    push_decimal(out, e.day as u64);
    append_str(out, " ");
    push_decimal_i32(out, e.year);
    append_str(out, ", ");
    append_str(out, e.title.as_str());
    append_str(out, " (from ");
    append_str(out, e.source.as_str());
    append_str(out, ")\n");
    assert(out@ =~= old(out)@ + listing_line(i as nat, e@));
}

/// Appends the listing lines of the events at the first `k` positions.
fn push_listing(out: &mut Vec<char>, events: &[Event], idx: &Vec<usize>, k: usize)
    requires
        k <= idx@.len(),
        k <= 10,
        positions_within(idx@, events@.len()),
    ensures
        final(out)@ == old(out)@ + listing(pick(event_views(events@), idx@), k as nat),
{
    let ghost es = pick(event_views(events@), idx@);
    for i in 0..k
        invariant
            k <= idx@.len(),
            k <= 10,
            es == pick(event_views(events@), idx@),
            positions_within(idx@, events@.len()),
            out@ == old(out)@ + listing(es, i as nat),
    {
        let e = &events[idx[i]];
        assert(es[i as int] == e@);
        push_listing_line(out, i, e);
    }
}

/// The answer to a normalized question, given its count question match and, when
/// that failed, its date question match (`None` otherwise).
pub fn answer_from_captures(
    q: &str,
    count: &Option<Vec<Option<String>>>,
    date: &Option<Vec<Option<String>>>,
    events: &[Event],
) -> (r: String)
    requires
        count_groups_present(count.deep_view()),
        date_groups_present(date.deep_view()),
    ensures
        r@ == answer_from(q@, count.deep_view(), date.deep_view(), event_views(events@)),
{
    let ghost es = event_views(events@);
    let mut out: Vec<char> = Vec::new();
    match count {
        Some(g) => {
            assert(g.deep_view()[2] == g@[2].deep_view());
            assert(g.deep_view()[5] == g@[5].deep_view());
            let kw = trim_chars(&chars_of(g[2].as_ref().unwrap().as_str()));
            let year = match parse_i32(&chars_of(g[5].as_ref().unwrap().as_str())) {
                Some(y) => y,
                None => 0,
            };
            let idx = matching_positions(events, Some(year), &kw);
            append_str(&mut out, "Count in ");
            push_decimal_i32(&mut out, year);
            append_str(&mut out, " for '");
            crate::text::append_chars(&mut out, &kw);
            append_str(&mut out, "': ");
            push_decimal(&mut out, idx.len() as u64);
            assert(out@ =~= count_answer(kw@, year, es));
        },
        None => match date {
            Some(g) => {
                assert(g.deep_view()[2] == g@[2].deep_view());
                assert(g.deep_view()[4] == g@[4].deep_view());
                let raw = trim_chars(&chars_of(g[2].as_ref().unwrap().as_str()));
                let ev_s = normalize(string_of(&raw).as_str());
                let ev = chars_of(ev_s.as_str());
                let year = match &g[4] {
                    Some(y) => parse_i32(&chars_of(y.as_str())),
                    None => None,
                };
                let idx = matching_positions(events, year, &ev);
                let sorted = sort_positions(events, &idx);
                let n = sorted.len();
                if n == 0 {
                    append_str(&mut out, "No match found for '");
                    crate::text::append_chars(&mut out, &ev);
                    append_str(&mut out, "'. Try different wording.");
                } else {
                    let k = if n < 10 {
                        n
                    } else {
                        10
                    };
                    push_listing(&mut out, events, &sorted, k);
                    if n > 10 {
                        append_str(&mut out, "(Showing 10 of ");
                        push_decimal(&mut out, n as u64);
                        append_str(&mut out, ")\n");
                    }
                }
                assert(out@ =~= date_answer(ev@, year, es));
            },
            None => {
                let kw = trim_chars(&chars_of(q));
                let idx = matching_positions(events, None, &kw);
                let sorted = sort_positions(events, &idx);
                let n = sorted.len();
                if n == 0 {
                    append_str(
                        &mut out,
                        "Try: 'When is <event> in 2026?' or 'How many times did <keyword> meet in 2024?'",
                    );
                } else {
                    let k = if n < 10 {
                        n
                    } else {
                        10
                    };
                    push_listing(&mut out, events, &sorted, k);
                }
                assert(out@ =~= keyword_answer(kw@, es));
            },
        },
    }
    string_of(&out)
}

/// The answer to a question, or `None` when a match lacks a group the answer needs.
pub open spec fn answer(question: Seq<char>, es: Seq<EventView>) -> Option<Seq<char>> {
    let q = normalized(question);
    let c = regex_captures(count_pattern(), q);
    let w = if c is None {
        regex_captures(date_pattern(), q)
    } else {
        None
    };
    if count_groups_present(c) && date_groups_present(w) {
        Some(answer_from(q, c, w, es))
    } else {
        None
    }
}

/// Why a question could not be answered.
#[derive(Debug)]
pub enum QaError {
    /// An expression did not compile.
    Pattern(regex::Error),
    /// A question match lacked a group the answer needs.
    MissingGroup,
}

/// Answers a question about the events: a count question is answered with the number
/// of events of that year whose title contains the keyword; a date question with the
/// matching events ordered by date (at most ten listed); anything else with the events
/// whose title contains the normalized question.
pub fn answer_question(question: &str, events: &[Event]) -> (r: Result<String, QaError>)
    ensures
        r matches Ok(s) ==> answer(question@, event_views(events@)) == Some(s@),
        r matches Err(QaError::MissingGroup) ==> answer(question@, event_views(events@)) is None,
        answer(question@, event_views(events@)) is Some ==> (r is Ok || r matches Err(
            QaError::Pattern(_),
        )),
        r matches Err(QaError::Pattern(_)) <==> (!regex_compiles(count_pattern()) || (
        regex_captures(count_pattern(), normalized(question@)) is None && !regex_compiles(
            date_pattern(),
        ))),
{
    let q = normalize(question);
    let count_re = match compile(
        "how many times did (the )?(?P<kw>.+?) (meet|hold|have|occur).*(in|for)\\s+(?P<year>\\d{4})",
    ) {
        Ok(p) => p,
        Err(e) => {
            return Err(QaError::Pattern(e));
        },
    };
    let count = captures(&count_re, q.as_str());
    let date = if count.is_none() {
        let date_re = match compile(
            "(when is|date of|what is the date of)\\s+(?P<ev>.+?)(\\s+in\\s+(?P<year>\\d{4}))?\\??$",
        ) {
            Ok(p) => p,
            Err(e) => {
                return Err(QaError::Pattern(e));
            },
        };
        captures(&date_re, q.as_str())
    } else {
        None
    };
    let count_ok = match &count {
        Some(g) => g.len() > 5 && g[2].is_some() && g[5].is_some(),
        None => true,
    };
    let date_ok = match &date {
        Some(g) => g.len() > 4 && g[2].is_some(),
        None => true,
    };
    proof {
        if let Some(g) = &count {
            assert(g.len() > 5 ==> g.deep_view()[2] == g@[2].deep_view());
            assert(g.len() > 5 ==> g.deep_view()[5] == g@[5].deep_view());
        }
        if let Some(g) = &date {
            assert(g.len() > 4 ==> g.deep_view()[2] == g@[2].deep_view());
        }
    }
    if !(count_ok && date_ok) {
        return Err(QaError::MissingGroup);
    }
    Ok(answer_from_captures(q.as_str(), &count, &date, events))
}

} // verus!

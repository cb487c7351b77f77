//! The word-level tokenizer of the month classifier.
//!
//! The vocabulary holds `[UNK]` (id 0), `[PAD]` (id 1), then the most frequent
//! lower-cased whitespace-separated tokens of the corpus, most frequent first,
//! with consecutive ids from 2, up to `vocab_size` entries.  Tokens of equal
//! frequency keep the order of their first occurrence.

use vstd::prelude::*;
use vstd::multiset::Multiset;
use crate::text::{chars_of, chars_equal, copy_chars, split_words, string_of, lowercase, words, views};

verus! {

// ---------------------------------------------------------------------
// Counting tokens
// ---------------------------------------------------------------------
/// The tokens of a corpus, in order: the words of each lower-cased line.
pub open spec fn corpus_tokens(corpus: Seq<Seq<char>>) -> Seq<Seq<char>>
    decreases corpus.len(),
{
    if corpus.len() == 0 {
        Seq::empty()
    } else {
        corpus_tokens(corpus.drop_last()) + words(lowercase(corpus.last()))
    }
}

/// The position of token `t` in a count list, or -1.
pub open spec fn find_token(c: Seq<(Seq<char>, nat)>, t: Seq<char>) -> int
    decreases c.len(),
{
    if c.len() == 0 {
        -1
    } else if c.last().0 == t {
        c.len() - 1
    } else {
        find_token(c.drop_last(), t)
    }
}

/// Counts one more occurrence of token `t`.
pub open spec fn add_token(c: Seq<(Seq<char>, nat)>, t: Seq<char>) -> Seq<(Seq<char>, nat)> {
    let i = find_token(c, t);
    if i < 0 {
        c.push((t, 1nat))
    } else {
        c.update(i, (t, c[i].1 + 1))
    }
}

/// Each distinct token with its number of occurrences, in order of first occurrence.
pub open spec fn token_counts(toks: Seq<Seq<char>>) -> Seq<(Seq<char>, nat)>
    decreases toks.len(),
{
    if toks.len() == 0 {
        Seq::empty()
    } else {
        add_token(token_counts(toks.drop_last()), toks.last())
    }
}

/// Every count fits in 64 bits.
pub open spec fn counts_fit(c: Seq<(Seq<char>, nat)>) -> bool {
    forall|i: int| 0 <= i < c.len() ==> #[trigger] c[i].1 <= u64::MAX
}

/// The views of a count list.
pub open spec fn count_views(v: Seq<(Vec<char>, u64)>) -> Seq<(Seq<char>, nat)> {
    v.map_values(|p: (Vec<char>, u64)| (p.0@, p.1 as nat))
}

proof fn lemma_find_token(c: Seq<(Seq<char>, nat)>, t: Seq<char>)
    ensures
        -1 <= find_token(c, t) < c.len(),
        find_token(c, t) >= 0 ==> c[find_token(c, t)].0 == t,
    decreases c.len(),
{
    if c.len() > 0 {
        lemma_find_token(c.drop_last(), t);
    }
}

/// Counting more tokens keeps the tokens counted so far in place, with counts that
/// do not decrease.
proof fn lemma_counts_grow(toks: Seq<Seq<char>>, i: int)
    requires
        0 <= i <= toks.len(),
    ensures
        token_counts(toks.take(i)).len() <= token_counts(toks).len(),
        forall|j: int|
            0 <= j < token_counts(toks.take(i)).len() ==> #[trigger] token_counts(toks)[j].0
                == token_counts(toks.take(i))[j].0 && token_counts(toks)[j].1 >= token_counts(
                toks.take(i),
            )[j].1,
    decreases toks.len() - i,
{
    if i == toks.len() {
        assert(toks.take(i) =~= toks);
    } else {
        lemma_counts_grow(toks, i + 1);
        assert(toks.take(i + 1).drop_last() =~= toks.take(i));
        lemma_find_token(token_counts(toks.take(i)), toks[i]);
    }
}

/// Where the count of token `t` is in a count list, or `None`.
fn find_token_exec(c: &Vec<(Vec<char>, u64)>, t: &Vec<char>) -> (r: Option<usize>)
    ensures
        match r {
            Some(i) => find_token(count_views(c@), t@) == i,
            None => find_token(count_views(c@), t@) == -1,
        },
{
    let ghost cv = count_views(c@);
    let mut j = c.len();
    assert(cv.take(j as int) =~= cv);
    while j > 0
        invariant
            j <= c@.len(),
            cv == count_views(c@),
            find_token(cv, t@) == find_token(cv.take(j as int), t@),
        decreases j,
    {
        assert(cv.take(j as int).last() == (c@[j - 1].0@, c@[j - 1].1 as nat));
        assert(cv.take(j as int).drop_last() =~= cv.take(j - 1));
        if chars_equal(&c[j - 1].0, t) {
            return Some(j - 1);
        }
        j = j - 1;
    }
    None
}

/// Counts the occurrences of each distinct token, in order of first occurrence, or
/// gives `None` when a count would not fit in 64 bits.
fn count_tokens(corpus: &[String]) -> (r: Option<Vec<(Vec<char>, u64)>>)
    ensures
        match r {
            Some(c) => counts_fit(token_counts(corpus_tokens(corpus@.map_values(|s: String| s@))))
                && count_views(c@) == token_counts(
                corpus_tokens(corpus@.map_values(|s: String| s@)),
            ),
            None => !counts_fit(
                token_counts(corpus_tokens(corpus@.map_values(|s: String| s@))),
            ),
        },
{
    let ghost lines = corpus@.map_values(|s: String| s@);
    let ghost all = corpus_tokens(lines);
    let mut counts: Vec<(Vec<char>, u64)> = Vec::new();
    let n = corpus.len();
    assert(lines.take(0) =~= Seq::<Seq<char>>::empty());
    for i in 0..n
        invariant
            n == lines.len(),
            lines == corpus@.map_values(|s: String| s@),
            all == corpus_tokens(lines),
            count_views(counts@) == token_counts(corpus_tokens(lines.take(i as int))),
    {
        let ghost done = corpus_tokens(lines.take(i as int));
        assert(lines.take(i + 1).drop_last() =~= lines.take(i as int));
        assert(lines.take(i + 1).last() == corpus@[i as int]@);
        let lower = corpus[i].to_lowercase();
        let ws = split_words(&chars_of(lower.as_str()));
        let ghost wv = views(ws@);
        assert(corpus_tokens(lines.take(i + 1)) == done + wv);
        let m = ws.len();
        assert(done + wv.take(0) =~= done);
        for k in 0..m
            invariant
                m == wv.len(),
                i < n,
                wv == views(ws@),
                n == lines.len(),
                lines == corpus@.map_values(|s: String| s@),
                all == corpus_tokens(lines),
                done == corpus_tokens(lines.take(i as int)),
                corpus_tokens(lines.take(i + 1)) == done + wv,
                count_views(counts@) == token_counts(done + wv.take(k as int)),
        {
            let ghost before = done + wv.take(k as int);
            let ghost after = done + wv.take(k + 1);
            assert(after.drop_last() =~= before);
            assert(after.last() == ws@[k as int]@);
            let ghost cv = count_views(counts@);
            proof {
                lemma_find_token(cv, ws@[k as int]@);
            }
            match find_token_exec(&counts, &ws[k]) {
                Some(j) => {
                    let c = counts[j].1;
                    if c == u64::MAX {
                        proof {
                            assert(token_counts(after)[j as int].1 == u64::MAX + 1);
                            assert(!counts_fit(token_counts(after)));
                            lemma_overflow_persists(lines, i + 1, wv, k + 1);
                        }
                        return None;
                    }
                    let w = copy_chars(&counts[j].0);
                    counts.set(j, (w, c + 1));
                    assert(count_views(counts@) =~= cv.update(j as int, (cv[j as int].0, cv[j as int].1 + 1)));
                },
                None => {
                    let w = copy_chars(&ws[k]);
                    counts.push((w, 1));
                    assert(count_views(counts@) =~= cv.push((ws@[k as int]@, 1nat)));
                },
            }
        }
        assert(wv.take(m as int) =~= wv);
    }
    assert(lines.take(n as int) =~= lines);
    proof {
        assert forall|j: int| 0 <= j < count_views(counts@).len() implies #[trigger] count_views(
            counts@,
        )[j].1 <= u64::MAX by {}
    }
    Some(counts)
}

/// Counts that do not fit for some tokens of the corpus do not fit for all of them.
proof fn lemma_overflow_persists(lines: Seq<Seq<char>>, i: int, wv: Seq<Seq<char>>, k: int)
    requires
        0 < i <= lines.len(),
        0 <= k <= wv.len(),
        corpus_tokens(lines.take(i)) == corpus_tokens(lines.take(i - 1)) + wv,
        !counts_fit(token_counts(corpus_tokens(lines.take(i - 1)) + wv.take(k))),
    ensures
        !counts_fit(token_counts(corpus_tokens(lines))),
{
    let full = corpus_tokens(lines);
    let pre = corpus_tokens(lines.take(i));
    let after = corpus_tokens(lines.take(i - 1)) + wv.take(k);
    lemma_tokens_prefix(lines, i);
    assert(pre.take(after.len() as int) =~= after);
    assert(full.take(after.len() as int) =~= after);
    lemma_counts_grow(full, after.len() as int);
    let j = choose|j: int| 0 <= j < token_counts(after).len() && !(token_counts(after)[j].1 <= u64::MAX);
    assert(token_counts(full.take(after.len() as int)) == token_counts(after));
    assert(token_counts(full)[j].0 == token_counts(full.take(after.len() as int))[j].0);
    assert(token_counts(full)[j].1 >= token_counts(after)[j].1);
}

/// The tokens of a prefix of the corpus are a prefix of the tokens of the corpus.
proof fn lemma_tokens_prefix(lines: Seq<Seq<char>>, i: int)
    requires
        0 <= i <= lines.len(),
    ensures
        corpus_tokens(lines.take(i)).len() <= corpus_tokens(lines).len(),
        corpus_tokens(lines).take(corpus_tokens(lines.take(i)).len() as int) == corpus_tokens(
            lines.take(i),
        ),
    decreases lines.len() - i,
{
    if i == lines.len() {
        assert(lines.take(i) =~= lines);
        assert(corpus_tokens(lines).take(corpus_tokens(lines).len() as int) =~= corpus_tokens(
            lines,
        ));
    } else {
        lemma_tokens_prefix(lines, i + 1);
        assert(lines.take(i + 1).drop_last() =~= lines.take(i));
        let a = corpus_tokens(lines.take(i));
        let b = corpus_tokens(lines.take(i + 1));
        let f = corpus_tokens(lines);
        assert(b.take(a.len() as int) =~= a);
        assert(f.take(a.len() as int) =~= b.take(a.len() as int));
    }
}

// ---------------------------------------------------------------------
// Ranking and numbering tokens
// ---------------------------------------------------------------------
/// Inserts `e` into a list ordered by decreasing count, after every entry with at
/// least its count.
pub open spec fn insert_by_count(t: Seq<(Seq<char>, nat)>, e: (Seq<char>, nat)) -> Seq<
    (Seq<char>, nat),
>
    decreases t.len(),
{
    if t.len() == 0 {
        seq![e]
    } else if t.last().1 >= e.1 {
        t.push(e)
    } else {
        insert_by_count(t.drop_last(), e).push(t.last())
    }
}

/// The entries ordered by decreasing count, entries of equal count in their input
/// order (a stable sort).
pub open spec fn sort_by_count(s: Seq<(Seq<char>, nat)>) -> Seq<(Seq<char>, nat)>
    decreases s.len(),
{
    if s.len() == 0 {
        s
    } else {
        insert_by_count(sort_by_count(s.drop_last()), s.last())
    }
}

/// `[UNK]` with id 0 and `[PAD]` with id 1.
pub open spec fn special_tokens() -> Seq<(Seq<char>, nat)> {
    seq![("[UNK]"@, 0nat), ("[PAD]"@, 1nat)]
}

/// Token `t` has an entry.
pub open spec fn has_token(v: Seq<(Seq<char>, nat)>, t: Seq<char>) -> bool {
    exists|i: int| 0 <= i < v.len() && v[i].0 == t
}

/// The special tokens, then each token not yet present with the next free id.
pub open spec fn assign_ids(ts: Seq<Seq<char>>) -> Seq<(Seq<char>, nat)>
    decreases ts.len(),
{
    if ts.len() == 0 {
        special_tokens()
    } else {
        let v = assign_ids(ts.drop_last());
        if has_token(v, ts.last()) {
            v
        } else {
            v.push((ts.last(), v.len()))
        }
    }
}

/// The number of tokens kept beside the two special ones.
pub open spec fn kept_tokens(vocab_size: nat) -> nat {
    if vocab_size >= 2 {
        (vocab_size - 2) as nat
    } else {
        0
    }
}

/// The vocabulary of a corpus: the special tokens, then the most frequent tokens,
/// most frequent first, with consecutive ids.
pub open spec fn vocabulary(corpus: Seq<Seq<char>>, vocab_size: nat) -> Seq<(Seq<char>, nat)> {
    let ranked = sort_by_count(token_counts(corpus_tokens(corpus)));
    let limit = kept_tokens(vocab_size);
    let n = if limit < ranked.len() {
        limit
    } else {
        ranked.len()
    };
    assign_ids(ranked.take(n as int).map_values(|p: (Seq<char>, nat)| p.0))
}

proof fn lemma_assign_ids(ts: Seq<Seq<char>>)
    ensures
        2 <= assign_ids(ts).len() <= ts.len() + 2,
        assign_ids(ts)[0] == ("[UNK]"@, 0nat),
        assign_ids(ts)[1] == ("[PAD]"@, 1nat),
        forall|i: int| 0 <= i < assign_ids(ts).len() ==> #[trigger] assign_ids(ts)[i].1 == i,
        forall|i: int, j: int|
            0 <= i < j < assign_ids(ts).len() ==> assign_ids(ts)[i].0 != assign_ids(ts)[j].0,
    decreases ts.len(),
{
    if ts.len() == 0 {
        reveal_strlit("[UNK]");
        reveal_strlit("[PAD]");
        assert("[UNK]"@[1] != "[PAD]"@[1]);
    } else {
        lemma_assign_ids(ts.drop_last());
        let v = assign_ids(ts.drop_last());
        if !has_token(v, ts.last()) {
            let w = v.push((ts.last(), v.len()));
            assert forall|i: int, j: int| 0 <= i < j < w.len() implies w[i].0 != w[j].0 by {
                if j == v.len() {
                    assert(v[i].0 != ts.last());
                }
            }
        }
    }
}

// ---------------------------------------------------------------------
// Frequencies
// ---------------------------------------------------------------------
/// The number of occurrences of token `t` among the tokens of a corpus.
pub open spec fn occurrences(corpus: Seq<Seq<char>>, t: Seq<char>) -> nat {
    corpus_tokens(corpus).to_multiset().count(t)
}

/// A token absent from a count list has no entry there.
proof fn lemma_find_token_absent(c: Seq<(Seq<char>, nat)>, t: Seq<char>)
    requires
        find_token(c, t) == -1,
    ensures
        forall|k: int| 0 <= k < c.len() ==> (#[trigger] c[k]).0 != t,
    decreases c.len(),
{
    if c.len() > 0 {
        lemma_find_token_absent(c.drop_last(), t);
        assert forall|k: int| 0 <= k < c.len() implies (#[trigger] c[k]).0 != t by {
            if k < c.len() - 1 {
                assert(c[k] == c.drop_last()[k]);
            }
        }
    }
}

/// The count list holds each token of the list once, with its number of occurrences.
proof fn lemma_token_counts_occurrences(ts: Seq<Seq<char>>)
    ensures
        forall|i: int, j: int|
            0 <= i < j < token_counts(ts).len() ==> (#[trigger] token_counts(ts)[i]).0
                != (#[trigger] token_counts(ts)[j]).0,
        forall|k: int|
            0 <= k < token_counts(ts).len() ==> (#[trigger] token_counts(ts)[k]).1
                == ts.to_multiset().count(token_counts(ts)[k].0),
        forall|t: Seq<char>|
            #[trigger] ts.to_multiset().count(t) > 0 ==> exists|k: int|
                0 <= k < token_counts(ts).len() && (#[trigger] token_counts(ts)[k]).0 == t,
    decreases ts.len(),
{
    broadcast use vstd::seq_lib::group_to_multiset_ensures;

    if ts.len() == 0 {
        assert(ts.to_multiset() =~= Multiset::<Seq<char>>::empty());
    } else {
        let p = ts.drop_last();
        let x = ts.last();
        lemma_token_counts_occurrences(p);
        assert(ts =~= p.push(x));
        let m = ts.to_multiset();
        let mp = p.to_multiset();
        assert(m == mp.insert(x));
        let c = token_counts(p);
        let tc = token_counts(ts);
        assert(tc == add_token(c, x));
        lemma_find_token(c, x);
        let f = find_token(c, x);
        if f < 0 {
            lemma_find_token_absent(c, x);
            assert(mp.count(x) == 0) by {
                if mp.count(x) > 0 {
                    let k = choose|k: int| 0 <= k < c.len() && (#[trigger] c[k]).0 == x;
                    assert(c[k].0 != x);
                }
            }
            assert(tc == c.push((x, 1nat)));
            assert forall|k: int| 0 <= k < tc.len() implies (#[trigger] tc[k]).1 == m.count(
                tc[k].0,
            ) by {
                if k < c.len() {
                    assert(tc[k] == c[k]);
                    assert(c[k].0 != x);
                }
            }
            assert forall|i: int, j: int| 0 <= i < j < tc.len() implies (#[trigger] tc[i]).0
                != (#[trigger] tc[j]).0 by {
                if j < c.len() {
                    assert(tc[i] == c[i] && tc[j] == c[j]);
                } else {
                    assert(tc[i] == c[i]);
                }
            }
            assert forall|t: Seq<char>| #[trigger] m.count(t) > 0 implies exists|k: int|
                0 <= k < tc.len() && (#[trigger] tc[k]).0 == t by {
                if t == x {
                    assert(tc[c.len() as int].0 == t);
                } else {
                    assert(mp.count(t) > 0);
                    let k = choose|k: int| 0 <= k < c.len() && (#[trigger] c[k]).0 == t;
                    assert(tc[k] == c[k]);
                }
            }
        } else {
            assert(tc == c.update(f, (x, c[f].1 + 1)));
            assert forall|k: int| 0 <= k < tc.len() implies (#[trigger] tc[k]).1 == m.count(
                tc[k].0,
            ) by {
                if k != f {
                    assert(tc[k] == c[k]);
                    assert(c[k].0 != c[f].0);
                }
            }
            assert forall|i: int, j: int| 0 <= i < j < tc.len() implies (#[trigger] tc[i]).0
                != (#[trigger] tc[j]).0 by {
                assert(tc[i].0 == c[i].0 && tc[j].0 == c[j].0);
            }
            assert forall|t: Seq<char>| #[trigger] m.count(t) > 0 implies exists|k: int|
                0 <= k < tc.len() && (#[trigger] tc[k]).0 == t by {
                if t == x {
                    assert(tc[f].0 == t);
                } else {
                    assert(mp.count(t) > 0);
                    let k = choose|k: int| 0 <= k < c.len() && (#[trigger] c[k]).0 == t;
                    assert(tc[k].0 == c[k].0);
                }
            }
        }
    }
}

/// The entries are ordered by decreasing count.
pub open spec fn count_sorted(s: Seq<(Seq<char>, nat)>) -> bool {
    forall|i: int, j: int| 0 <= i < j < s.len() ==> (#[trigger] s[i]).1 >= (#[trigger] s[j]).1
}

proof fn lemma_insert_count_bounded(t: Seq<(Seq<char>, nat)>, e: (Seq<char>, nat), x: nat)
    requires
        forall|i: int| 0 <= i < t.len() ==> (#[trigger] t[i]).1 >= x,
        e.1 >= x,
    ensures
        insert_by_count(t, e).len() == t.len() + 1,
        forall|k: int| 0 <= k < insert_by_count(t, e).len() ==> (#[trigger] insert_by_count(t, e)[k]).1 >= x,
    decreases t.len(),
{
    if t.len() > 0 && !(t.last().1 >= e.1) {
        let u = t.drop_last();
        assert forall|i: int| 0 <= i < u.len() implies (#[trigger] u[i]).1 >= x by {
            assert(u[i] == t[i]);
        }
        lemma_insert_count_bounded(u, e, x);
        assert(t[t.len() - 1].1 >= x);
    }
}

proof fn lemma_insert_by_count(t: Seq<(Seq<char>, nat)>, e: (Seq<char>, nat))
    requires
        count_sorted(t),
    ensures
        count_sorted(insert_by_count(t, e)),
        insert_by_count(t, e).to_multiset() =~= t.to_multiset().insert(e),
    decreases t.len(),
{
    broadcast use vstd::seq_lib::group_to_multiset_ensures;

    let r = insert_by_count(t, e);
    if t.len() == 0 {
        assert(r =~= seq![e]);
        assert(Seq::<(Seq<char>, nat)>::empty().push(e) =~= r);
        assert(t =~= Seq::<(Seq<char>, nat)>::empty());
    } else if t.last().1 >= e.1 {
        assert forall|i: int, j: int| 0 <= i < j < r.len() implies (#[trigger] r[i]).1
            >= (#[trigger] r[j]).1 by {
            if j == t.len() {
                assert(t[i].1 >= t[t.len() - 1].1 || i == t.len() - 1);
            } else {
                assert(r[i] == t[i] && r[j] == t[j]);
            }
        }
    } else {
        let u = t.drop_last();
        assert(count_sorted(u)) by {
            assert forall|i: int, j: int| 0 <= i < j < u.len() implies (#[trigger] u[i]).1
                >= (#[trigger] u[j]).1 by {
                assert(u[i] == t[i] && u[j] == t[j]);
            }
        }
        lemma_insert_by_count(u, e);
        let ru = insert_by_count(u, e);
        assert forall|i: int| 0 <= i < u.len() implies (#[trigger] u[i]).1 >= t.last().1 by {
            assert(u[i] == t[i]);
            assert(t[i].1 >= t[t.len() - 1].1);
        }
        lemma_insert_count_bounded(u, e, t.last().1);
        assert(r == ru.push(t.last()));
        assert forall|i: int, j: int| 0 <= i < j < r.len() implies (#[trigger] r[i]).1
            >= (#[trigger] r[j]).1 by {
            if j == ru.len() {
                assert(r[i] == ru[i]);
                assert(ru[i].1 >= t.last().1);
            } else {
                assert(r[i] == ru[i] && r[j] == ru[j]);
            }
        }
        assert(t =~= u.push(t.last()));
    }
}

/// Ranking keeps the same entries and orders them by decreasing count.
proof fn lemma_sort_by_count(s: Seq<(Seq<char>, nat)>)
    ensures
        count_sorted(sort_by_count(s)),
        sort_by_count(s).to_multiset() =~= s.to_multiset(),
    decreases s.len(),
{
    broadcast use vstd::seq_lib::group_to_multiset_ensures;

    if s.len() > 0 {
        lemma_sort_by_count(s.drop_last());
        lemma_insert_by_count(sort_by_count(s.drop_last()), s.last());
        assert(s =~= s.drop_last().push(s.last()));
    }
}

/// Every token given to `assign_ids` has an entry.
proof fn lemma_assign_ids_has(ts: Seq<Seq<char>>)
    ensures
        forall|q: int| 0 <= q < ts.len() ==> has_token(assign_ids(ts), #[trigger] ts[q]),
    decreases ts.len(),
{
    if ts.len() > 0 {
        let p0 = ts.drop_last();
        let x = ts.last();
        lemma_assign_ids_has(p0);
        let v0 = assign_ids(p0);
        let v = assign_ids(ts);
        assert forall|q: int| 0 <= q < ts.len() implies has_token(v, #[trigger] ts[q]) by {
            if q < p0.len() {
                assert(ts[q] == p0[q]);
                assert(has_token(v0, p0[q]));
                let i = choose|i: int| 0 <= i < v0.len() && v0[i].0 == p0[q];
                if !has_token(v0, x) {
                    assert(v[i] == v0[i]);
                }
            } else if !has_token(v0, x) {
                assert(v[v0.len() as int].0 == ts[q]);
            }
        }
    }
}

/// An entry after the two special ones comes from some token all of whose
/// predecessors have earlier entries; the position of that token is returned.
proof fn lemma_entry_origin(ts: Seq<Seq<char>>, j: int) -> (p: int)
    requires
        2 <= j < assign_ids(ts).len(),
    ensures
        0 <= p < ts.len(),
        ts[p] == assign_ids(ts)[j].0,
        forall|q: int| 0 <= q < p ==> has_token(assign_ids(ts).take(j), #[trigger] ts[q]),
    decreases ts.len(),
{
    let p0 = ts.drop_last();
    let x = ts.last();
    let v0 = assign_ids(p0);
    let v = assign_ids(ts);
    lemma_assign_ids(p0);
    if ts.len() == 0 {
        assert(v.len() == 2);
        0
    } else if has_token(v0, x) {
        let p = lemma_entry_origin(p0, j);
        assert forall|q: int| 0 <= q < p implies has_token(v.take(j), #[trigger] ts[q]) by {
            assert(ts[q] == p0[q]);
        }
        p
    } else {
        assert(v == v0.push((x, v0.len())));
        if j < v0.len() {
            let p = lemma_entry_origin(p0, j);
            assert(v.take(j) =~= v0.take(j));
            assert forall|q: int| 0 <= q < p implies has_token(v.take(j), #[trigger] ts[q]) by {
                assert(ts[q] == p0[q]);
            }
            p
        } else {
            let p = (ts.len() - 1) as int;
            assert(v.take(j) =~= v0);
            lemma_assign_ids_has(p0);
            assert forall|q: int| 0 <= q < p implies has_token(v.take(j), #[trigger] ts[q]) by {
                assert(ts[q] == p0[q]);
                assert(has_token(v0, p0[q]));
            }
            p
        }
    }
}

/// Law: a token that occurs strictly more often in the lower-cased corpus than a
/// corpus token of the vocabulary has an entry before it: the vocabulary keeps the
/// most frequent tokens, most frequent first, and counts every occurrence.
pub proof fn lemma_vocabulary_by_frequency(
    corpus: Seq<Seq<char>>,
    vocab_size: nat,
    a: Seq<char>,
    j: int,
)
    requires
        2 <= j < vocabulary(corpus, vocab_size).len(),
        occurrences(corpus, a) > occurrences(corpus, vocabulary(corpus, vocab_size)[j].0),
    ensures
        exists|i: int| 0 <= i < j && (#[trigger] vocabulary(corpus, vocab_size)[i]).0 == a,
{
    broadcast use vstd::seq_lib::group_to_multiset_ensures;

    let toks = corpus_tokens(corpus);
    let m = toks.to_multiset();
    let tc = token_counts(toks);
    let ranked = sort_by_count(tc);
    let limit = kept_tokens(vocab_size);
    let n = if limit < ranked.len() {
        limit
    } else {
        ranked.len()
    };
    let ls = ranked.take(n as int).map_values(|p: (Seq<char>, nat)| p.0);
    let v = vocabulary(corpus, vocab_size);
    assert(v == assign_ids(ls));
    let b = v[j].0;
    let p = lemma_entry_origin(ls, j);
    assert(ls[p] == b);
    assert(ls[p] == ranked[p].0);
    lemma_token_counts_occurrences(toks);
    lemma_sort_by_count(tc);
    // the count of b's entry is b's number of occurrences
    assert(ranked.contains(ranked[p]));
    assert(ranked.to_multiset().count(ranked[p]) > 0);
    assert(tc.contains(ranked[p]));
    let kb = choose|k: int| 0 <= k < tc.len() && tc[k] == ranked[p];
    assert(tc[kb].1 == m.count(tc[kb].0));
    assert(ranked[p].1 == m.count(b));
    // a has an entry in the counts, hence in the ranking
    assert(m.count(a) > 0);
    let ka = choose|k: int| 0 <= k < tc.len() && (#[trigger] tc[k]).0 == a;
    assert(tc[ka].1 == m.count(a));
    assert(tc.contains(tc[ka]));
    assert(tc.to_multiset().count(tc[ka]) > 0);
    assert(ranked.contains(tc[ka]));
    let q = choose|q: int| 0 <= q < ranked.len() && ranked[q] == tc[ka];
    if q >= p {
        if q > p {
            assert(ranked[p].1 >= ranked[q].1);
        }
        assert(false);
    }
    assert(ls[q] == a);
    assert(has_token(v.take(j), ls[q]));
    let i = choose|i: int| 0 <= i < v.take(j).len() && v.take(j)[i].0 == a;
    assert(v[i] == v.take(j)[i]);
}

/// Law: the vocabulary starts with `[UNK]` (id 0) and `[PAD]` (id 1), every entry's id
/// is its position, no token has two entries, and it has at most `vocab_size` entries
/// (two when `vocab_size` is smaller).
pub proof fn lemma_vocabulary_shape(corpus: Seq<Seq<char>>, vocab_size: nat)
    ensures
        ({
            let v = vocabulary(corpus, vocab_size);
            &&& 2 <= v.len() <= kept_tokens(vocab_size) + 2
            &&& v[0] == ("[UNK]"@, 0nat)
            &&& v[1] == ("[PAD]"@, 1nat)
            &&& forall|i: int| 0 <= i < v.len() ==> #[trigger] v[i].1 == i
            &&& forall|i: int, j: int| 0 <= i < j < v.len() ==> v[i].0 != v[j].0
        }),
{
    let ranked = sort_by_count(token_counts(corpus_tokens(corpus)));
    let limit = kept_tokens(vocab_size);
    let n = if limit < ranked.len() {
        limit
    } else {
        ranked.len()
    };
    lemma_assign_ids(ranked.take(n as int).map_values(|p: (Seq<char>, nat)| p.0));
}

/// The counts fit in 64 bits and the ids in 32 bits.
pub open spec fn vocabulary_fits(corpus: Seq<Seq<char>>, vocab_size: nat) -> bool {
    counts_fit(token_counts(corpus_tokens(corpus))) && vocabulary(corpus, vocab_size).len()
        <= u32::MAX
}

/// The views of a vocabulary.
pub open spec fn vocab_views(v: Seq<(String, u32)>) -> Seq<(Seq<char>, nat)> {
    v.map_values(|p: (String, u32)| (p.0@, p.1 as nat))
}

/// Inserts a count entry into a list ordered by decreasing count.
fn insert_count(t: Vec<(Vec<char>, u64)>, e: (Vec<char>, u64)) -> (r: Vec<(Vec<char>, u64)>)
    ensures
        count_views(r@) == insert_by_count(count_views(t@), (e.0@, e.1 as nat)),
    decreases t@.len(),
{
    let ghost tv = count_views(t@);
    let ghost ev = (e.0@, e.1 as nat);
    let mut t = t;
    if t.len() == 0 {
        t.push(e);
        assert(count_views(t@) =~= seq![ev]);
        t
    } else {
        let last_count = t[t.len() - 1].1;
        if last_count >= e.1 {
            t.push(e);
            assert(count_views(t@) =~= tv.push(ev));
            t
        } else {
            let last = t.pop().unwrap();
            assert(count_views(t@) =~= tv.drop_last());
            assert(tv.last() == (last.0@, last.1 as nat));
            let mut r = insert_count(t, e);
            let ghost rv = count_views(r@);
            r.push(last);
            assert(count_views(r@) =~= rv.push(tv.last()));
            r
        }
    }
}

/// Orders count entries by decreasing count, stably.
fn sort_counts(c: &Vec<(Vec<char>, u64)>) -> (r: Vec<(Vec<char>, u64)>)
    ensures
        count_views(r@) == sort_by_count(count_views(c@)),
{
    let ghost cv = count_views(c@);
    let n = c.len();
    let mut r: Vec<(Vec<char>, u64)> = Vec::new();
    assert(cv.take(0) =~= Seq::<(Seq<char>, nat)>::empty());
    for i in 0..n
        invariant
            n == cv.len(),
            cv == count_views(c@),
            count_views(r@) == sort_by_count(cv.take(i as int)),
    {
        assert(cv.take(i + 1).drop_last() =~= cv.take(i as int));
        assert(cv.take(i + 1).last() == (c@[i as int].0@, c@[i as int].1 as nat));
        let e = (copy_chars(&c[i].0), c[i].1);
        r = insert_count(r, e);
    }
    assert(cv.take(n as int) =~= cv);
    r
}

/// The views of numbered tokens.
pub open spec fn id_views(v: Seq<(Vec<char>, u32)>) -> Seq<(Seq<char>, nat)> {
    v.map_values(|p: (Vec<char>, u32)| (p.0@, p.1 as nat))
}

proof fn lemma_assign_ids_grows(ts: Seq<Seq<char>>, i: int)
    requires
        0 <= i <= ts.len(),
    ensures
        assign_ids(ts.take(i)).len() <= assign_ids(ts).len(),
    decreases ts.len() - i,
{
    if i == ts.len() {
        assert(ts.take(i) =~= ts);
    } else {
        lemma_assign_ids_grows(ts, i + 1);
        assert(ts.take(i + 1).drop_last() =~= ts.take(i));
    }
}

/// Whether token `t` has an entry.
fn has_token_exec(v: &Vec<(Vec<char>, u32)>, t: &Vec<char>) -> (r: bool)
    ensures
        r == has_token(id_views(v@), t@),
{
    let n = v.len();
    for i in 0..n
        invariant
            n == v@.len(),
            forall|k: int| 0 <= k < i ==> id_views(v@)[k].0 != t@,
    {
        if chars_equal(&v[i].0, t) {
            assert(id_views(v@)[i as int].0 == t@);
            return true;
        }
    }
    false
}

/// Numbers the special tokens and the given tokens, or gives `None` when an id would
/// not fit in 32 bits.
fn number_tokens(ts: &Vec<Vec<char>>) -> (r: Option<Vec<(Vec<char>, u32)>>)
    ensures
        match r {
            Some(v) => assign_ids(views(ts@)).len() <= u32::MAX && id_views(v@) == assign_ids(
                views(ts@),
            ),
            None => assign_ids(views(ts@)).len() > u32::MAX,
        },
{
    let ghost tv = views(ts@);
    let mut v: Vec<(Vec<char>, u32)> = Vec::new();
    v.push((chars_of("[UNK]"), 0));
    v.push((chars_of("[PAD]"), 1));
    assert(id_views(v@) =~= special_tokens());
    assert(tv.take(0) =~= Seq::<Seq<char>>::empty());
    let n = ts.len();
    for i in 0..n
        invariant
            n == tv.len(),
            tv == views(ts@),
            id_views(v@) == assign_ids(tv.take(i as int)),
            v@.len() <= u32::MAX,
    {
        assert(tv.take(i + 1).drop_last() =~= tv.take(i as int));
        assert(tv.take(i + 1).last() == ts@[i as int]@);
        if !has_token_exec(&v, &ts[i]) {
            if v.len() == 0xffff_ffff {
                proof {
                    lemma_assign_ids_grows(tv, i + 1);
                    assert(tv.take(tv.len() as int) =~= tv);
                }
                return None;
            }
            let id = v.len() as u32;
            let ghost before = id_views(v@);
            v.push((copy_chars(&ts[i]), id));
            assert(id_views(v@) =~= before.push((ts@[i as int]@, before.len())));
        }
    }
    assert(tv.take(n as int) =~= tv);
    Some(v)
}

/// Builds the vocabulary of a corpus: `[UNK]` (id 0), `[PAD]` (id 1), then the
/// `vocab_size - 2` most frequent lower-cased tokens (fewer if the corpus has fewer),
/// most frequent first, ties in order of first occurrence, with consecutive ids.
/// `None` when a count does not fit in 64 bits or an id in 32 bits.
pub fn build_vocab(corpus: &[String], vocab_size: usize) -> (r: Option<Vec<(String, u32)>>)
    ensures
        match r {
            Some(v) => vocabulary_fits(corpus@.map_values(|s: String| s@), vocab_size as nat)
                && vocab_views(v@) == vocabulary(
                corpus@.map_values(|s: String| s@),
                vocab_size as nat,
            ),
            None => !vocabulary_fits(corpus@.map_values(|s: String| s@), vocab_size as nat),
        },
{
    let ghost lines = corpus@.map_values(|s: String| s@);
    let counts = match count_tokens(corpus) {
        Some(c) => c,
        None => {
            return None;
        },
    };
    let ranked = sort_counts(&counts);
    let ghost rv = count_views(ranked@);
    let limit = vocab_size.saturating_sub(2);
    let n = if limit < ranked.len() {
        limit
    } else {
        ranked.len()
    };
    let mut ts: Vec<Vec<char>> = Vec::new();
    for i in 0..n
        invariant
            n <= ranked@.len(),
            rv == count_views(ranked@),
            views(ts@) == rv.take(i as int).map_values(|p: (Seq<char>, nat)| p.0),
    {
        let ghost before = views(ts@);
        assert(rv[i as int] == (ranked@[i as int].0@, ranked@[i as int].1 as nat));
        ts.push(copy_chars(&ranked[i].0));
        assert(views(ts@) =~= before.push(rv[i as int].0));
        assert(views(ts@) =~= rv.take(i + 1).map_values(|p: (Seq<char>, nat)| p.0));
    }
    assert(views(ts@) == rv.take(n as int).map_values(|p: (Seq<char>, nat)| p.0));
    let numbered = match number_tokens(&ts) {
        Some(v) => v,
        None => {
            return None;
        },
    };
    let m = numbered.len();
    let mut out: Vec<(String, u32)> = Vec::new();
    for i in 0..m
        invariant
            m == numbered@.len(),
            vocab_views(out@) == id_views(numbered@).take(i as int),
    {
        let ghost before = vocab_views(out@);
        assert(id_views(numbered@)[i as int] == (numbered@[i as int].0@, numbered@[i as int].1 as nat));
        out.push((string_of(&numbered[i].0), numbered[i].1));
        assert(vocab_views(out@) =~= before.push(id_views(numbered@)[i as int]));
        assert(vocab_views(out@) =~= id_views(numbered@).take(i + 1));
    }
    assert(id_views(numbered@).take(m as int) =~= id_views(numbered@));
    Some(out)
}

// ---------------------------------------------------------------------
// The word-level tokenizer
// ---------------------------------------------------------------------
#[verifier::external_type_specification]
#[verifier::external_body]
pub struct ExTokenizer(tokenizers::Tokenizer);

#[verifier::external_type_specification]
#[verifier::external_body]
pub struct ExWordLevelBuilder(tokenizers::models::wordlevel::WordLevelBuilder);

#[verifier::external_type_specification]
#[verifier::external_body]
pub struct ExWordLevel(tokenizers::models::wordlevel::WordLevel);

/// The token-to-id map that a list of entries gives, each entry in turn.
pub open spec fn entries_map(v: Seq<(Seq<char>, nat)>) -> Map<Seq<char>, nat>
    decreases v.len(),
{
    if v.len() == 0 {
        Map::empty()
    } else {
        entries_map(v.drop_last()).insert(v.last().0, v.last().1)
    }
}

/// No token has two entries.
pub open spec fn distinct_tokens(v: Seq<(Seq<char>, nat)>) -> bool {
    forall|i: int, j: int| 0 <= i < j < v.len() ==> v[i].0 != v[j].0
}

/// The token-to-id map that a word-level builder holds.
pub uninterp spec fn builder_entries(b: tokenizers::models::wordlevel::WordLevelBuilder) -> Map<
    Seq<char>,
    nat,
>;

/// The unknown token that a word-level builder holds.
pub uninterp spec fn builder_unk(b: tokenizers::models::wordlevel::WordLevelBuilder) -> Seq<char>;

/// The vocabulary files that a word-level builder reads when it builds.
pub uninterp spec fn builder_files(b: tokenizers::models::wordlevel::WordLevelBuilder) -> Seq<
    Seq<char>,
>;

/// The token-to-id map of a word-level model.
pub uninterp spec fn model_entries(m: tokenizers::models::wordlevel::WordLevel) -> Map<
    Seq<char>,
    nat,
>;

/// The unknown token of a word-level model.
pub uninterp spec fn model_unk(m: tokenizers::models::wordlevel::WordLevel) -> Seq<char>;

/// The token-to-id map of a tokenizer's model.
pub uninterp spec fn tokenizer_entries(t: tokenizers::Tokenizer) -> Map<Seq<char>, nat>;

/// The unknown token of a tokenizer's model.
pub uninterp spec fn tokenizer_unk(t: tokenizers::Tokenizer) -> Seq<char>;

/// The tokenizer's model is a word-level model.
pub uninterp spec fn tokenizer_word_level(t: tokenizers::Tokenizer) -> bool;

/// The tokenizer truncates nothing, pads nothing and has no post-processor.
pub uninterp spec fn tokenizer_plain(t: tokenizers::Tokenizer) -> bool;

/// The tokenizer's normalizer is NFC.
pub uninterp spec fn tokenizer_nfc(t: tokenizers::Tokenizer) -> bool;

/// The tokenizer's pre-tokenizer is `Whitespace`.
pub uninterp spec fn tokenizer_whitespace(t: tokenizers::Tokenizer) -> bool;

/// What the tokenizer encodes texts to: for each text that `Tokenizer::encode` (no
/// special tokens added) accepts, the ids it gives.
pub uninterp spec fn tokenizer_encodings(t: tokenizers::Tokenizer) -> Map<Seq<char>, Seq<u32>>;

/// A default word-level model builder, `WordLevelBuilder::default()`.  Claimed: no
/// vocabulary file.
#[verifier::external_body]
fn word_level_builder() -> (r: tokenizers::models::wordlevel::WordLevelBuilder)
    ensures
        builder_files(r).len() == 0,
{
    tokenizers::models::wordlevel::WordLevelBuilder::default()
}

/// Sets the token-to-id map with `WordLevelBuilder::vocab`, from the list of entries
/// collected into a `HashMap`.  Claimed: the builder then holds the map of the
/// entries when no token has two of them (which of two entries of one token is kept
/// is not claimed); the unknown token and the files are kept.
#[verifier::external_body]
fn builder_vocab(
    b: tokenizers::models::wordlevel::WordLevelBuilder,
    vocab: Vec<(String, u32)>,
) -> (r: tokenizers::models::wordlevel::WordLevelBuilder)
    ensures
        distinct_tokens(vocab_views(vocab@)) ==> builder_entries(r) == entries_map(
            vocab_views(vocab@),
        ),
        builder_unk(r) == builder_unk(b),
        builder_files(r) == builder_files(b),
{
    b.vocab(vocab.into_iter().collect())
}

/// Sets the unknown token with `WordLevelBuilder::unk_token`.  Claimed: the builder
/// then holds that token; the entries and the files are kept.
#[verifier::external_body]
fn builder_unk_token(b: tokenizers::models::wordlevel::WordLevelBuilder, unk: String) -> (r:
    tokenizers::models::wordlevel::WordLevelBuilder)
    ensures
        builder_unk(r) == unk@,
        builder_entries(r) == builder_entries(b),
        builder_files(r) == builder_files(b),
{
    b.unk_token(unk)
}

/// Builds the model with `WordLevelBuilder::build`; an error is given as its message.
/// Claimed: with no vocabulary file to read, the build succeeds with the builder's
/// entries and unknown token.
#[verifier::external_body]
fn builder_build(b: tokenizers::models::wordlevel::WordLevelBuilder) -> (r: Result<
    tokenizers::models::wordlevel::WordLevel,
    String,
>)
    ensures
        r is Err ==> builder_files(b).len() > 0,
        r matches Ok(m) ==> builder_files(b).len() == 0 ==> model_entries(m) == builder_entries(b)
            && model_unk(m) == builder_unk(b),
{
    b.build().map_err(|e| e.to_string())
}

/// A tokenizer around a model, `Tokenizer::new`.  Claimed: the tokenizer's model is
/// that word-level model, with its entries and unknown token.
#[verifier::external_body]
fn tokenizer_new(model: tokenizers::models::wordlevel::WordLevel) -> (r: tokenizers::Tokenizer)
    ensures
        tokenizer_word_level(r),
        tokenizer_plain(r),
        tokenizer_entries(r) == model_entries(model),
        tokenizer_unk(r) == model_unk(model),
{
    tokenizers::Tokenizer::new(model)
}

/// Sets NFC normalization with `TokenizerImpl::with_normalizer`.  Claimed: the
/// normalizer is then NFC; the model and the pre-tokenizer are kept.
#[verifier::external_body]
fn tokenizer_use_nfc(t: &mut tokenizers::Tokenizer)
    ensures
        tokenizer_nfc(*final(t)),
        tokenizer_whitespace(*final(t)) == tokenizer_whitespace(*old(t)),
        tokenizer_word_level(*final(t)) == tokenizer_word_level(*old(t)),
        tokenizer_plain(*final(t)) == tokenizer_plain(*old(t)),
        tokenizer_entries(*final(t)) == tokenizer_entries(*old(t)),
        tokenizer_unk(*final(t)) == tokenizer_unk(*old(t)),
{
    t.with_normalizer(tokenizers::normalizers::unicode::NFC);
}

/// Sets whitespace pre-tokenization with `TokenizerImpl::with_pre_tokenizer`.  Claimed:
/// the pre-tokenizer is then `Whitespace`; the model and the normalizer are kept.
#[verifier::external_body]
fn tokenizer_use_whitespace(t: &mut tokenizers::Tokenizer)
    ensures
        tokenizer_whitespace(*final(t)),
        tokenizer_nfc(*final(t)) == tokenizer_nfc(*old(t)),
        tokenizer_word_level(*final(t)) == tokenizer_word_level(*old(t)),
        tokenizer_plain(*final(t)) == tokenizer_plain(*old(t)),
        tokenizer_entries(*final(t)) == tokenizer_entries(*old(t)),
        tokenizer_unk(*final(t)) == tokenizer_unk(*old(t)),
{
    t.with_pre_tokenizer(tokenizers::pre_tokenizers::whitespace::Whitespace);
}

/// A word-level tokenizer with the vocabulary of the corpus, `[UNK]` for unknown tokens,
/// NFC normalization and whitespace pre-tokenization.
pub open spec fn built_for(t: tokenizers::Tokenizer, corpus: Seq<Seq<char>>, vocab_size: nat) -> bool {
    &&& tokenizer_entries(t) == entries_map(vocabulary(corpus, vocab_size))
    &&& tokenizer_unk(t) == "[UNK]"@
    &&& tokenizer_word_level(t)
    &&& tokenizer_nfc(t)
    &&& tokenizer_whitespace(t)
    &&& tokenizer_plain(t)
}

/// A plain word-level tokenizer with NFC normalization and whitespace
/// pre-tokenization whose vocabulary holds its unknown token: it encodes every text,
/// unknown words as the unknown token.
pub open spec fn encodes_any_text(t: tokenizers::Tokenizer) -> bool {
    &&& tokenizer_word_level(t)
    &&& tokenizer_plain(t)
    &&& tokenizer_nfc(t)
    &&& tokenizer_whitespace(t)
    &&& tokenizer_entries(t).contains_key(tokenizer_unk(t))
}

/// The map of a list of entries holds each entry's token.
pub proof fn lemma_entries_map_keys(v: Seq<(Seq<char>, nat)>)
    ensures
        forall|i: int| 0 <= i < v.len() ==> entries_map(v).contains_key(#[trigger] v[i].0),
    decreases v.len(),
{
    if v.len() > 0 {
        lemma_entries_map_keys(v.drop_last());
        assert forall|i: int| 0 <= i < v.len() implies entries_map(v).contains_key(
            #[trigger] v[i].0,
        ) by {
            if i < v.len() - 1 {
                assert(v[i] == v.drop_last()[i]);
            }
        }
    }
}

/// Law: a tokenizer built for a corpus encodes every text.
pub proof fn lemma_built_encodes_any_text(t: tokenizers::Tokenizer, corpus: Seq<Seq<char>>, vocab_size: nat)
    requires
        built_for(t, corpus, vocab_size),
    ensures
        encodes_any_text(t),
{
    lemma_vocabulary_shape(corpus, vocab_size);
    lemma_entries_map_keys(vocabulary(corpus, vocab_size));
    assert(vocabulary(corpus, vocab_size)[0].0 == "[UNK]"@);
}

/// Why a tokenizer could not be built.
#[derive(Debug)]
pub enum TokenizerError {
    /// A token count does not fit in 64 bits or an id in 32 bits.
    TooLarge,
    /// The word-level model could not be built.
    Build(String),
}

/// Builds the word-level tokenizer of a corpus: its vocabulary (see `build_vocab`),
/// `[UNK]` for unknown tokens, NFC normalization and whitespace pre-tokenization.
pub fn build_tokenizer(corpus: &[String], vocab_size: usize) -> (r: Result<
    tokenizers::Tokenizer,
    TokenizerError,
>)
    ensures
        r is Ok <==> vocabulary_fits(corpus@.map_values(|s: String| s@), vocab_size as nat),
        r matches Err(e) ==> e is TooLarge,
        r matches Ok(t) ==> built_for(t, corpus@.map_values(|s: String| s@), vocab_size as nat),
{
    let vocab = match build_vocab(corpus, vocab_size) {
        Some(v) => v,
        None => {
            return Err(TokenizerError::TooLarge);
        },
    };
    proof {
        lemma_vocabulary_shape(corpus@.map_values(|s: String| s@), vocab_size as nat);
    }
    let b = word_level_builder();
    let b = builder_vocab(b, vocab);
    let unk = string_of(&chars_of("[UNK]"));
    let b = builder_unk_token(b, unk);
    let model = match builder_build(b) {
        Ok(m) => m,
        Err(e) => {
            return Err(TokenizerError::Build(e));
        },
    };
    let mut tokenizer = tokenizer_new(model);
    tokenizer_use_nfc(&mut tokenizer);
    tokenizer_use_whitespace(&mut tokenizer);
    Ok(tokenizer)
}

} // verus!

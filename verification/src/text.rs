//! Character and string utilities shared by the parsers and the answer engine.
//!
//! Text is handled as a sequence of characters (`Vec<char>`, viewed as
//! `Seq<char>`).  Whitespace means the Unicode `White_Space` property, the
//! definition used by `char::is_whitespace`, `str::trim` and
//! `str::split_whitespace`.

use vstd::prelude::*;

verus! {

/// `String::push` appends one character.
pub assume_specification[ String::push ](s: &mut String, ch: char)
    ensures
        final(s)@ == old(s)@.push(ch),
;

/// What `str::to_lowercase` returns for a string (full Unicode lowercase mapping).
pub uninterp spec fn lowercase(s: Seq<char>) -> Seq<char>;

/// An ASCII upper-case letter.
pub open spec fn ascii_upper(c: char) -> bool {
    'A' <= c <= 'Z'
}

/// An ASCII character.
pub open spec fn is_ascii_char(c: char) -> bool {
    (c as u32) < 128
}

/// A character with an ASCII upper-case letter turned into its lower-case letter, as
/// `char::to_ascii_lowercase` does.
pub open spec fn ascii_lower_char(c: char) -> char {
    if ascii_upper(c) {
        ((c as u32) + 32) as char
    } else {
        c
    }
}

/// `str::to_lowercase` returns the Unicode lowercase form of the string, so no ASCII
/// upper-case letter is left in it; on an all-ASCII string, each ASCII upper-case
/// letter becomes its lower-case letter and every other character stays.
pub assume_specification[ str::to_lowercase ](s: &str) -> (r: String)
    ensures
        r@ == lowercase(s@),
        forall|i: int| 0 <= i < r@.len() ==> !ascii_upper(#[trigger] r@[i]),
        (forall|i: int| 0 <= i < s@.len() ==> is_ascii_char(#[trigger] s@[i])) ==> r@
            == s@.map_values(|c: char| ascii_lower_char(c)),
;

/// Whether `char::is_alphanumeric` holds of a character (Unicode Alphabetic or Numeric).
pub uninterp spec fn alphanumeric(c: char) -> bool;

/// `char::is_alphanumeric` decides the Unicode Alphabetic-or-Numeric property: among
/// ASCII characters, exactly the letters and the digits have it.
pub assume_specification[ char::is_alphanumeric ](c: char) -> (r: bool)
    ensures
        r == alphanumeric(c),
        is_ascii_char(c) ==> (r <==> ('a' <= c <= 'z' || 'A' <= c <= 'Z' || '0' <= c <= '9')),
;

/// A character with an ASCII lower-case letter turned into its upper-case letter, as
/// `char::to_ascii_uppercase` does.
pub open spec fn ascii_upper_char(c: char) -> char {
    if 'a' <= c <= 'z' {
        ((c as u32) - 32) as char
    } else {
        c
    }
}

/// A text with its ASCII lower-case letters turned into upper-case ones.
pub open spec fn ascii_uppercase(s: Seq<char>) -> Seq<char> {
    s.map_values(|c: char| ascii_upper_char(c))
}

/// The Unicode `White_Space` property.
pub open spec fn is_white_space(c: char) -> bool {
    let v = c as u32;
    ||| 0x9 <= v <= 0xD
    ||| v == 0x20
    ||| v == 0x85
    ||| v == 0xA0
    ||| v == 0x1680
    ||| 0x2000 <= v <= 0x200A
    ||| v == 0x2028
    ||| v == 0x2029
    ||| v == 0x202F
    ||| v == 0x205F
    ||| v == 0x3000
}

/// Decides the Unicode `White_Space` property.
pub fn is_whitespace(c: char) -> (r: bool)
    ensures
        r == is_white_space(c),
{
    let v = c as u32;
    (0x9 <= v && v <= 0xD) || v == 0x20 || v == 0x85 || v == 0xA0 || v == 0x1680 || (0x2000
        <= v && v <= 0x200A) || v == 0x2028 || v == 0x2029 || v == 0x202F || v == 0x205F || v
        == 0x3000
}

/// The characters of a string slice, in order.
pub fn chars_of(s: &str) -> (out: Vec<char>)
    ensures
        out@ == s@,
{
    let mut out: Vec<char> = Vec::new();
    for c in it: s.chars()
        invariant
            out@ == it.seq().take(it.index() as int),
    {
        out.push(c);
    }
    out
}

/// A `String` holding the given characters.
pub fn string_of(chars: &Vec<char>) -> (out: String)
    ensures
        out@ == chars@,
{
    let mut out = String::new();
    let n = chars.len();
    for i in 0..n
        invariant
            n == chars@.len(),
            out@ == chars@.take(i as int),
    {
        out.push(chars[i]);
        assert(chars@.take(i + 1) =~= chars@.take(i as int).push(chars@[i as int]));
    }
    assert(chars@.take(n as int) =~= chars@);
    out
}

/// A copy of a character vector.
pub fn copy_chars(v: &Vec<char>) -> (out: Vec<char>)
    ensures
        out@ == v@,
{
    let mut out: Vec<char> = Vec::new();
    append_chars(&mut out, v);
    out
}

/// Appends `more` to `out`.
pub fn append_chars(out: &mut Vec<char>, more: &Vec<char>)
    ensures
        final(out)@ == old(out)@ + more@,
{
    let n = more.len();
    for i in 0..n
        invariant
            n == more@.len(),
            out@ == old(out)@ + more@.take(i as int),
    {
        out.push(more[i]);
        assert(more@.take(i + 1) =~= more@.take(i as int).push(more@[i as int]));
    }
    assert(more@.take(n as int) =~= more@);
}

/// Appends the characters of a string slice to `out`.
pub fn append_str(out: &mut Vec<char>, s: &str)
    ensures
        final(out)@ == old(out)@ + s@,
{
    let cs = chars_of(s);
    append_chars(out, &cs);
}

/// Whether two character sequences are equal.
pub fn chars_equal(a: &Vec<char>, b: &Vec<char>) -> (r: bool)
    ensures
        r == (a@ == b@),
{
    if a.len() != b.len() {
        return false;
    }
    let n = a.len();
    for i in 0..n
        invariant
            n == a@.len(),
            n == b@.len(),
            forall|k: int| 0 <= k < i ==> a@[k] == b@[k],
    {
        if a[i] != b[i] {
            return false;
        }
    }
    assert(a@ =~= b@);
    true
}

/// Whether the characters of a string slice are those of `b`.
pub fn str_equals(a: &str, b: &str) -> (r: bool)
    ensures
        r == (a@ == b@),
{
    let x = chars_of(a);
    let y = chars_of(b);
    chars_equal(&x, &y)
}

// ---------------------------------------------------------------------
// Trimming
// ---------------------------------------------------------------------
/// `s` without its leading whitespace.
pub open spec fn trim_start(s: Seq<char>) -> Seq<char>
    decreases s.len(),
{
    if s.len() > 0 && is_white_space(s[0]) {
        trim_start(s.drop_first())
    } else {
        s
    }
}

/// `s` without its trailing whitespace.
pub open spec fn trim_end(s: Seq<char>) -> Seq<char>
    decreases s.len(),
{
    if s.len() > 0 && is_white_space(s.last()) {
        trim_end(s.drop_last())
    } else {
        s
    }
}

/// `s` without leading and trailing whitespace, as `str::trim` gives it.
pub open spec fn trim(s: Seq<char>) -> Seq<char> {
    trim_end(trim_start(s))
}

proof fn lemma_trim_start(s: Seq<char>)
    ensures
        trim_start(s).len() <= s.len(),
        trim_start(s) == s.skip(s.len() - trim_start(s).len()),
        trim_start(s).len() > 0 ==> !is_white_space(trim_start(s)[0]),
    decreases s.len(),
{
    if s.len() > 0 && is_white_space(s[0]) {
        lemma_trim_start(s.drop_first());
        assert(s.drop_first().skip(s.drop_first().len() - trim_start(s).len()) =~= s.skip(
            s.len() - trim_start(s).len(),
        ));
    } else {
        assert(s.skip(0) =~= s);
    }
}

proof fn lemma_trim_end(s: Seq<char>)
    ensures
        trim_end(s).len() <= s.len(),
        trim_end(s) == s.take(trim_end(s).len() as int),
        trim_end(s).len() > 0 ==> !is_white_space(trim_end(s).last()),
    decreases s.len(),
{
    if s.len() > 0 && is_white_space(s.last()) {
        lemma_trim_end(s.drop_last());
        assert(s.drop_last().take(trim_end(s).len() as int) =~= s.take(trim_end(s).len() as int));
    } else {
        assert(s.take(s.len() as int) =~= s);
    }
}

/// Law: a trimmed text neither starts nor ends with whitespace.
pub proof fn lemma_trim_edges(s: Seq<char>)
    ensures
        trim(s).len() > 0 ==> !is_white_space(trim(s)[0]) && !is_white_space(trim(s).last()),
{
    lemma_trim_start(s);
    lemma_trim_end(trim_start(s));
    if trim(s).len() > 0 {
        assert(trim(s)[0] == trim_start(s)[0]);
    }
}

/// Removes leading and trailing whitespace.
pub fn trim_chars(s: &Vec<char>) -> (out: Vec<char>)
    ensures
        out@ == trim(s@),
{
    let n = s.len();
    let mut i: usize = 0;
    assert(s@.skip(0) =~= s@);
    while i < n && is_whitespace(s[i])
        invariant
            i <= n,
            n == s@.len(),
            trim_start(s@) == trim_start(s@.skip(i as int)),
        decreases n - i,
    {
        assert(s@.skip(i as int).drop_first() =~= s@.skip(i + 1));
        i = i + 1;
    }
    assert(trim_start(s@) == s@.skip(i as int));
    let mut j: usize = n;
    assert(s@.skip(i as int) =~= s@.subrange(i as int, n as int));
    while j > i && is_whitespace(s[j - 1])
        invariant
            i <= j <= n,
            n == s@.len(),
            trim(s@) == trim_end(s@.subrange(i as int, j as int)),
        decreases j,
    {
        assert(s@.subrange(i as int, j as int).drop_last() =~= s@.subrange(i as int, j - 1));
        j = j - 1;
    }
    let mut out: Vec<char> = Vec::new();
    let mut k: usize = i;
    while k < j
        invariant
            i <= k <= j <= n,
            n == s@.len(),
            out@ == s@.subrange(i as int, k as int),
        decreases j - k,
    {
        out.push(s[k]);
        assert(s@.subrange(i as int, k + 1) =~= s@.subrange(i as int, k as int).push(s@[k as int]));
        k = k + 1;
    }
    out
}

// ---------------------------------------------------------------------
// Splitting into pieces, lines and words
// ---------------------------------------------------------------------
/// The separator of a split: whitespace when `ws`, else the line feed `\n`.
pub open spec fn is_separator(c: char, ws: bool) -> bool {
    if ws {
        is_white_space(c)
    } else {
        c as u32 == 0x0A
    }
}

/// The views of a sequence of character vectors.
pub open spec fn views(v: Seq<Vec<char>>) -> Seq<Seq<char>> {
    v.map_values(|x: Vec<char>| x@)
}

/// The pieces of `s` between separators (as `str::split` gives them): always at least
/// one piece, possibly empty ones.
pub open spec fn split_by(s: Seq<char>, ws: bool) -> Seq<Seq<char>>
    decreases s.len(),
{
    if s.len() == 0 {
        seq![Seq::empty()]
    } else {
        let p = split_by(s.drop_last(), ws);
        if is_separator(s.last(), ws) {
            p.push(Seq::empty())
        } else {
            p.update(p.len() - 1, p.last().push(s.last()))
        }
    }
}

/// A line without one trailing carriage return.
pub open spec fn strip_cr(l: Seq<char>) -> Seq<char> {
    if l.len() > 0 && l.last() == '\r' {
        l.drop_last()
    } else {
        l
    }
}

/// The lines of `s` as `str::lines` yields them: split at `\n`, a `\r` before the
/// `\n` removed, and no final empty line after a terminating `\n` (nor for "").
pub open spec fn lines(s: Seq<char>) -> Seq<Seq<char>> {
    let p = split_by(s, false);
    let k = p.len() - 1;
    p.take(k).map_values(|l: Seq<char>| strip_cr(l)) + if p[k].len() > 0 {
        seq![p[k]]
    } else {
        Seq::empty()
    }
}

/// Removes one trailing carriage return.
fn strip_cr_chars(l: Vec<char>) -> (out: Vec<char>)
    ensures
        out@ == strip_cr(l@),
{
    let mut l = l;
    if l.len() > 0 && l[l.len() - 1] == '\r' {
        l.pop();
    }
    l
}

/// The lines of a text, as `str::lines` yields them.
pub fn split_lines(s: &Vec<char>) -> (out: Vec<Vec<char>>)
    ensures
        views(out@) == lines(s@),
{
    let ghost sep = false;
    let n = s.len();
    let mut out: Vec<Vec<char>> = Vec::new();
    let mut cur: Vec<char> = Vec::new();
    assert(s@.take(0) =~= Seq::<char>::empty());
    for i in 0..n
        invariant
            n == s@.len(),
            !sep,
            split_by(s@.take(i as int), sep).len() >= 1,
            views(out@) == split_by(s@.take(i as int), sep).take(
                split_by(s@.take(i as int), sep).len() - 1,
            ).map_values(|l: Seq<char>| strip_cr(l)),
            cur@ == split_by(s@.take(i as int), sep).last(),
    {
        let ghost p = split_by(s@.take(i as int), sep);
        let ghost t = s@.take(i + 1);
        assert(t.drop_last() =~= s@.take(i as int));
        assert(t.last() == s@[i as int]);
        let c = s[i];
        assert(c == t.last());
        if c as u32 == 10 {
            let ghost old_views = views(out@);
            let line = strip_cr_chars(cur);
            out.push(line);
            cur = Vec::new();
            let ghost q = p.push(Seq::empty());
            assert(split_by(t, sep) == q);
            assert(q.take(q.len() - 1) =~= p);
            assert(views(out@) =~= old_views.push(strip_cr(p.last())));
            assert(p.map_values(|l: Seq<char>| strip_cr(l)) =~= p.take(p.len() - 1).map_values(
                |l: Seq<char>| strip_cr(l),
            ).push(strip_cr(p.last())));
            assert(views(out@) =~= q.take(q.len() - 1).map_values(
                |l: Seq<char>| strip_cr(l),
            ));
        } else {
            cur.push(c);
            let ghost q = p.update(p.len() - 1, p.last().push(c));
            assert(!is_separator(t.last(), sep));
            assert(split_by(t.drop_last(), sep) == p);
            assert(split_by(t, sep) == p.update(p.len() - 1, p.last().push(t.last())));
            assert(split_by(t, sep) == q);
            assert(q.take(q.len() - 1) =~= p.take(p.len() - 1));
        }
    }
    assert(s@.take(n as int) =~= s@);
    let ghost p = split_by(s@, sep);
    if cur.len() > 0 {
        out.push(cur);
    }
    assert(views(out@) =~= lines(s@));
    out
}

/// Keeps the non-empty pieces.
pub open spec fn non_empty(p: Seq<Seq<char>>) -> Seq<Seq<char>>
    decreases p.len(),
{
    if p.len() == 0 {
        p
    } else {
        let r = non_empty(p.drop_last());
        if p.last().len() > 0 {
            r.push(p.last())
        } else {
            r
        }
    }
}

/// The whitespace-separated words of `s`, as `str::split_whitespace` yields them.
pub open spec fn words(s: Seq<char>) -> Seq<Seq<char>> {
    non_empty(split_by(s, true))
}

/// The words joined with single spaces.
pub open spec fn join_words(w: Seq<Seq<char>>) -> Seq<char>
    decreases w.len(),
{
    if w.len() == 0 {
        Seq::empty()
    } else if w.len() == 1 {
        w[0]
    } else {
        join_words(w.drop_last()) + seq![' '] + w.last()
    }
}

/// No space at either end and never two spaces in a row.
pub open spec fn single_spaced(s: Seq<char>) -> bool {
    &&& (s.len() > 0 ==> s[0] != ' ' && s.last() != ' ')
    &&& forall|i: int, j: int|
        0 <= i && j == i + 1 && j < s.len() ==> !(#[trigger] s[i] == ' ' && #[trigger] s[j] == ' ')
}

proof fn lemma_split_chars(s: Seq<char>, ws: bool, q: spec_fn(char) -> bool)
    requires
        forall|j: int| 0 <= j < s.len() ==> q(#[trigger] s[j]),
    ensures
        split_by(s, ws).len() >= 1,
        forall|i: int, k: int|
            0 <= i < split_by(s, ws).len() && 0 <= k < split_by(s, ws)[i].len() ==> q(
                #[trigger] split_by(s, ws)[i][k],
            ) && !is_separator(split_by(s, ws)[i][k], ws),
    decreases s.len(),
{
    if s.len() > 0 {
        let t = s.drop_last();
        assert forall|j: int| 0 <= j < t.len() implies q(#[trigger] t[j]) by {
            assert(t[j] == s[j]);
        }
        lemma_split_chars(t, ws, q);
        let p = split_by(t, ws);
        let r = split_by(s, ws);
        assert(q(s[s.len() - 1]));
        if !is_separator(s.last(), ws) {
            assert forall|i: int, k: int| 0 <= i < r.len() && 0 <= k < r[i].len() implies q(
                #[trigger] r[i][k],
            ) && !is_separator(r[i][k], ws) by {
                if i == p.len() - 1 && k == p.last().len() {
                    assert(r[i][k] == s.last());
                } else if i == p.len() - 1 {
                    assert(r[i][k] == p[i][k]);
                }
            }
        }
    }
}

proof fn lemma_non_empty_words(p: Seq<Seq<char>>, q: spec_fn(char) -> bool)
    requires
        forall|i: int, k: int| 0 <= i < p.len() && 0 <= k < p[i].len() ==> q(#[trigger] p[i][k]),
    ensures
        forall|i: int| 0 <= i < non_empty(p).len() ==> (#[trigger] non_empty(p)[i]).len() > 0,
        forall|i: int, k: int|
            0 <= i < non_empty(p).len() && 0 <= k < non_empty(p)[i].len() ==> q(
                #[trigger] non_empty(p)[i][k],
            ),
    decreases p.len(),
{
    if p.len() > 0 {
        let u = p.drop_last();
        assert forall|i: int, k: int| 0 <= i < u.len() && 0 <= k < u[i].len() implies q(
            #[trigger] u[i][k],
        ) by {
            assert(u[i] == p[i]);
        }
        lemma_non_empty_words(u, q);
        let r = non_empty(p);
        assert forall|i: int, k: int| 0 <= i < r.len() && 0 <= k < r[i].len() implies q(
            #[trigger] r[i][k],
        ) by {
            if i == non_empty(u).len() {
                assert(r[i] == p[p.len() - 1]);
            }
        }
    }
}

/// Law: words joined by single spaces are single-spaced, and every other character is
/// a character of a word, when the words are non-empty and hold no space.
pub proof fn lemma_join_words_spacing(w: Seq<Seq<char>>, q: spec_fn(char) -> bool)
    requires
        forall|i: int| 0 <= i < w.len() ==> (#[trigger] w[i]).len() > 0,
        forall|i: int, k: int| 0 <= i < w.len() && 0 <= k < w[i].len() ==> q(#[trigger] w[i][k]),
        forall|c: char| #[trigger] q(c) ==> c != ' ',
    ensures
        single_spaced(join_words(w)),
        forall|j: int|
            0 <= j < join_words(w).len() ==> #[trigger] join_words(w)[j] == ' ' || q(
                join_words(w)[j],
            ),
        w.len() > 0 ==> join_words(w).len() > 0,
    decreases w.len(),
{
    if w.len() == 1 {
        assert(q(w[0][0]));
        assert(q(w[0][w[0].len() - 1]));
        assert forall|j: int| 0 <= j < join_words(w).len() implies #[trigger] join_words(w)[j]
            == ' ' || q(join_words(w)[j]) by {
            assert(q(w[0][j]));
        }
    } else if w.len() > 1 {
        let u = w.drop_last();
        assert forall|i: int| 0 <= i < u.len() implies (#[trigger] u[i]).len() > 0 by {
            assert(u[i] == w[i]);
        }
        assert forall|i: int, k: int| 0 <= i < u.len() && 0 <= k < u[i].len() implies q(
            #[trigger] u[i][k],
        ) by {
            assert(u[i] == w[i]);
        }
        lemma_join_words_spacing(u, q);
        let a = join_words(u);
        let l = w.last();
        let r = join_words(w);
        assert(r =~= a + seq![' '] + l);
        assert(q(l[0]));
        assert(q(l[l.len() - 1]));
        assert(q(w[w.len() - 1][0]));
        assert forall|j: int| 0 <= j < r.len() implies #[trigger] r[j] == ' ' || q(r[j]) by {
            if j < a.len() {
                assert(r[j] == a[j]);
            } else if j > a.len() {
                assert(r[j] == l[j - a.len() - 1]);
                assert(q(w[w.len() - 1][j - a.len() - 1]));
            }
        }
        assert forall|i: int, j: int| 0 <= i && j == i + 1 && j < r.len() implies !(
        #[trigger] r[i] == ' ' && #[trigger] r[j] == ' ') by {
            if j < a.len() {
                assert(r[i] == a[i] && r[j] == a[j]);
            } else if j == a.len() {
                assert(r[i] == a[a.len() - 1]);
            } else if i == a.len() {
                assert(r[j] == l[0]);
            } else {
                assert(r[j] == l[j - a.len() - 1]);
                assert(q(w[w.len() - 1][j - a.len() - 1]));
            }
        }
        assert(r[r.len() - 1] == l[l.len() - 1]);
        assert(r[0] == a[0]);
    }
}

/// The last piece of a text that ends with a non-separator is not empty.
proof fn lemma_split_last_nonempty(s: Seq<char>, ws: bool)
    requires
        s.len() > 0,
        !is_separator(s.last(), ws),
    ensures
        split_by(s, ws).len() >= 1,
        split_by(s, ws).last().len() > 0,
{
    lemma_split_chars(s.drop_last(), ws, |c: char| true);
}

/// Joining the words of `w` with the last word extended by `c` extends the joined text
/// by `c`.
proof fn lemma_join_words_extend(w: Seq<Seq<char>>, c: char)
    requires
        w.len() >= 1,
    ensures
        join_words(w.update(w.len() - 1, w.last().push(c))) == join_words(w).push(c),
{
    let u = w.update(w.len() - 1, w.last().push(c));
    if w.len() > 1 {
        assert(u.drop_last() =~= w.drop_last());
        assert(join_words(u) =~= join_words(w).push(c));
    }
}

/// Law: a single-spaced text whose only whitespace is the space is the join of its
/// words.
pub proof fn lemma_join_words_of_words(y: Seq<char>)
    requires
        single_spaced(y),
        forall|i: int| 0 <= i < y.len() ==> #[trigger] y[i] == ' ' || !is_white_space(y[i]),
    ensures
        join_words(words(y)) == y,
        y.len() > 0 ==> words(y).len() >= 1,
    decreases y.len(),
{
    if y.len() == 0 {
        assert(split_by(y, true) =~= seq![Seq::<char>::empty()]);
        let e = seq![Seq::<char>::empty()];
        assert(e.drop_last() =~= Seq::<Seq<char>>::empty());
        assert(non_empty(e.drop_last()).len() == 0);
        assert(e.last().len() == 0);
        assert(non_empty(e).len() == 0);
    } else {
        let c = y.last();
        let y1 = y.drop_last();
        assert(y[y.len() - 1] == c);
        assert(!is_white_space(c));
        if y1.len() == 0 {
            assert(split_by(y1, true) =~= seq![Seq::<char>::empty()]);
            assert(split_by(y, true) =~= seq![seq![c]]);
            let p = split_by(y, true);
            assert(p.drop_last() =~= Seq::<Seq<char>>::empty());
            assert(non_empty(p.drop_last()) =~= Seq::<Seq<char>>::empty());
            assert(words(y) =~= seq![seq![c]]);
            assert(join_words(words(y)) =~= y);
        } else if y1.last() == ' ' {
            let y2 = y1.drop_last();
            assert(y1[y1.len() - 1] == ' ');
            assert(y.len() >= 2);
            assert(y2.len() > 0) by {
                if y2.len() == 0 {
                    assert(y[0] == ' ');
                }
            }
            assert(y2.last() != ' ') by {
                assert(y2.last() == y[y.len() - 3]);
                assert(y[y.len() - 2] == ' ');
            }
            assert(single_spaced(y2)) by {
                assert(y2[0] == y[0]);
                assert forall|i: int, j: int|
                    0 <= i && j == i + 1 && j < y2.len() implies !(#[trigger] y2[i] == ' '
                    && #[trigger] y2[j] == ' ') by {
                    assert(y2[i] == y[i] && y2[j] == y[j]);
                }
            }
            assert forall|i: int| 0 <= i < y2.len() implies #[trigger] y2[i] == ' '
                || !is_white_space(y2[i]) by {
                assert(y2[i] == y[i]);
            }
            assert(!is_white_space(y2.last())) by {
                assert(y2.last() == y[y2.len() - 1]);
            }
            lemma_join_words_of_words(y2);
            lemma_split_last_nonempty(y2, true);
            let p2 = split_by(y2, true);
            assert(y1 =~= y2.push(' '));
            assert(y1.drop_last() =~= y2);
            assert(split_by(y1, true) == p2.push(Seq::<char>::empty()));
            assert(split_by(y, true) =~= p2.push(seq![c]));
            let p = split_by(y, true);
            assert(p.drop_last() =~= p2);
            assert(non_empty(p2) =~= non_empty(p2.drop_last()).push(p2.last()));
            assert(words(y) =~= words(y2).push(seq![c]));
            assert(words(y).drop_last() =~= words(y2));
            assert(join_words(words(y)) =~= y);
        } else {
            assert(y1.last() == y[y.len() - 2]);
            assert(single_spaced(y1)) by {
                assert(y1[0] == y[0]);
                assert forall|i: int, j: int|
                    0 <= i && j == i + 1 && j < y1.len() implies !(#[trigger] y1[i] == ' '
                    && #[trigger] y1[j] == ' ') by {
                    assert(y1[i] == y[i] && y1[j] == y[j]);
                }
            }
            assert forall|i: int| 0 <= i < y1.len() implies #[trigger] y1[i] == ' '
                || !is_white_space(y1[i]) by {
                assert(y1[i] == y[i]);
            }
            assert(!is_white_space(y1.last())) by {
                assert(y1.last() == y[y1.len() - 1]);
            }
            lemma_join_words_of_words(y1);
            lemma_split_last_nonempty(y1, true);
            let p1 = split_by(y1, true);
            let p = split_by(y, true);
            assert(p == p1.update(p1.len() - 1, p1.last().push(c)));
            assert(p.drop_last() =~= p1.drop_last());
            assert(p.last() == p1.last().push(c));
            let w1 = words(y1);
            assert(w1 == non_empty(p1.drop_last()).push(p1.last()));
            assert(words(y) == non_empty(p1.drop_last()).push(p1.last().push(c)));
            assert(words(y) =~= w1.update(w1.len() - 1, w1.last().push(c)));
            lemma_join_words_extend(w1, c);
            assert(join_words(words(y)) =~= y);
        }
    }
}

/// Law: the words of a text are non-empty, hold no whitespace, and hold only
/// characters for which `q` holds when every non-whitespace character of the text
/// satisfies `q`.
pub proof fn lemma_words_chars(s: Seq<char>, q: spec_fn(char) -> bool)
    requires
        forall|j: int| 0 <= j < s.len() ==> !is_white_space(#[trigger] s[j]) ==> q(s[j]),
    ensures
        forall|i: int| 0 <= i < words(s).len() ==> (#[trigger] words(s)[i]).len() > 0,
        forall|i: int, k: int|
            0 <= i < words(s).len() && 0 <= k < words(s)[i].len() ==> q(#[trigger] words(s)[i][k])
                && !is_white_space(words(s)[i][k]),
{
    let q2 = |c: char| !is_white_space(c) ==> q(c);
    assert forall|j: int| 0 <= j < s.len() implies q2(#[trigger] s[j]) by {}
    lemma_split_chars(s, true, q2);
    let q3 = |c: char| q(c) && !is_white_space(c);
    let p = split_by(s, true);
    assert forall|i: int, k: int| 0 <= i < p.len() && 0 <= k < p[i].len() implies q3(
        #[trigger] p[i][k],
    ) by {
        assert(q2(p[i][k]) && !is_separator(p[i][k], true));
    }
    lemma_non_empty_words(p, q3);
    assert forall|i: int, k: int|
        0 <= i < words(s).len() && 0 <= k < words(s)[i].len() implies q(#[trigger] words(s)[i][k])
            && !is_white_space(words(s)[i][k]) by {
        assert(q3(non_empty(p)[i][k]));
    }
}

/// The whitespace-separated words of a text.
pub fn split_words(s: &Vec<char>) -> (out: Vec<Vec<char>>)
    ensures
        views(out@) == words(s@),
{
    let ghost sep = true;
    let n = s.len();
    let mut out: Vec<Vec<char>> = Vec::new();
    let mut cur: Vec<char> = Vec::new();
    assert(s@.take(0) =~= Seq::<char>::empty());
    for i in 0..n
        invariant
            n == s@.len(),
            sep,
            split_by(s@.take(i as int), sep).len() >= 1,
            views(out@) == non_empty(split_by(s@.take(i as int), sep).drop_last()),
            cur@ == split_by(s@.take(i as int), sep).last(),
    {
        let ghost p = split_by(s@.take(i as int), sep);
        let ghost t = s@.take(i + 1);
        assert(t.drop_last() =~= s@.take(i as int));
        assert(t.last() == s@[i as int]);
        let c = s[i];
        assert(c == t.last());
        if is_whitespace(c) {
            if cur.len() > 0 {
                out.push(cur);
            }
            cur = Vec::new();
            let ghost q = p.push(Seq::empty());
            assert(split_by(t, sep) == q);
            assert(q.drop_last() =~= p);
            assert(p.drop_last().push(p.last()) =~= p);
            assert(views(out@) =~= non_empty(q.drop_last()));
        } else {
            cur.push(c);
            let ghost q = p.update(p.len() - 1, p.last().push(c));
            assert(!is_separator(t.last(), sep));
            assert(split_by(t.drop_last(), sep) == p);
            assert(split_by(t, sep) == p.update(p.len() - 1, p.last().push(t.last())));
            assert(split_by(t, sep) == q);
            assert(q.drop_last() =~= p.drop_last());
        }
    }
    assert(s@.take(n as int) =~= s@);
    let ghost p = split_by(s@, sep);
    assert(p.drop_last().push(p.last()) =~= p);
    if cur.len() > 0 {
        out.push(cur);
    }
    assert(views(out@) =~= words(s@));
    out
}

/// Joins words with single spaces.
pub fn join_with_spaces(w: &Vec<Vec<char>>) -> (out: Vec<char>)
    ensures
        out@ == join_words(views(w@)),
{
    let n = w.len();
    let mut out: Vec<char> = Vec::new();
    for i in 0..n
        invariant
            n == views(w@).len(),
            out@ == join_words(views(w@).take(i as int)),
    {
        let ghost ws = views(w@).take(i + 1);
        assert(ws.drop_last() =~= views(w@).take(i as int));
        if i > 0 {
            out.push(' ');
        }
        append_chars(&mut out, &w[i]);
        assert(out@ =~= join_words(ws));
    }
    assert(views(w@).take(n as int) =~= views(w@));
    out
}

// ---------------------------------------------------------------------
// Substrings
// ---------------------------------------------------------------------
/// `needle` occurs in `hay` at position `i`.
pub open spec fn occurs_at(hay: Seq<char>, needle: Seq<char>, i: int) -> bool {
    0 <= i && i + needle.len() <= hay.len() && hay.subrange(i, i + needle.len()) == needle
}

/// `needle` occurs somewhere in `hay` (as `str::contains` with a string pattern).
pub open spec fn contains_seq(hay: Seq<char>, needle: Seq<char>) -> bool {
    exists|i: int| occurs_at(hay, needle, i)
}

/// Whether `needle` occurs in `hay`.
pub fn contains_chars(hay: &Vec<char>, needle: &Vec<char>) -> (r: bool)
    ensures
        r == contains_seq(hay@, needle@),
{
    let n = hay.len();
    let m = needle.len();
    if m > n {
        assert forall|i: int| !occurs_at(hay@, needle@, i) by {}
        return false;
    }
    let mut i: usize = 0;
    while i <= n - m
        invariant
            m <= n,
            n == hay@.len(),
            m == needle@.len(),
            forall|k: int| 0 <= k < i ==> !occurs_at(hay@, needle@, k),
        decreases n - m + 1 - i,
    {
        let mut j: usize = 0;
        while j < m && hay[i + j] == needle[j]
            invariant
                j <= m,
                i + m <= n,
                n == hay@.len(),
                m == needle@.len(),
                forall|k: int| 0 <= k < j ==> hay@[i + k] == needle@[k],
            decreases m - j,
        {
            j = j + 1;
        }
        if j == m {
            assert(hay@.subrange(i as int, i + m) =~= needle@);
            assert(occurs_at(hay@, needle@, i as int));
            return true;
        }
        assert(hay@.subrange(i as int, i + m)[j as int] != needle@[j as int]);
        i = i + 1;
    }
    assert forall|k: int| !occurs_at(hay@, needle@, k) by {
        if 0 <= k && k + m <= n {
            assert(k < i);
        }
    }
    false
}

// ---------------------------------------------------------------------
// Decimal numbers
// ---------------------------------------------------------------------
/// The ASCII digit for `d` (0 to 9).
pub open spec fn digit_char(d: nat) -> char {
    (('0' as u32) + d) as char
}

/// The decimal rendering of `n`, without leading zeros.
pub open spec fn decimal(n: nat) -> Seq<char>
    decreases n,
{
    if n < 10 {
        seq![digit_char(n)]
    } else {
        decimal(n / 10).push(digit_char(n % 10))
    }
}

/// The decimal rendering of a signed integer, with `-` before a negative one.
pub open spec fn decimal_signed(n: int) -> Seq<char> {
    if n < 0 {
        seq!['-'] + decimal((-n) as nat)
    } else {
        decimal(n as nat)
    }
}

fn digit_of(d: u64) -> (c: char)
    requires
        d < 10,
    ensures
        c == digit_char(d as nat),
{
    if d == 0 {
        '0'
    } else if d == 1 {
        '1'
    } else if d == 2 {
        '2'
    } else if d == 3 {
        '3'
    } else if d == 4 {
        '4'
    } else if d == 5 {
        '5'
    } else if d == 6 {
        '6'
    } else if d == 7 {
        '7'
    } else if d == 8 {
        '8'
    } else {
        '9'
    }
}

/// Appends the decimal rendering of `n`.
pub fn push_decimal(out: &mut Vec<char>, n: u64)
    ensures
        final(out)@ == old(out)@ + decimal(n as nat),
    decreases n,
{
    if n >= 10 {
        push_decimal(out, n / 10);
    }
    let c = digit_of(n % 10);
    out.push(c);
    assert(out@ =~= old(out)@ + decimal(n as nat));
}

/// Appends the decimal rendering of a signed 32-bit integer.
pub fn push_decimal_i32(out: &mut Vec<char>, n: i32)
    ensures
        final(out)@ == old(out)@ + decimal_signed(n as int),
{
    if n < 0 {
        out.push('-');
        let m: i64 = -(n as i64);
        push_decimal(out, m as u64);
        assert(out@ =~= old(out)@ + decimal_signed(n as int));
    } else {
        push_decimal(out, n as u64);
    }
}

proof fn lemma_decimal_digits(n: nat)
    ensures
        decimal(n).len() > 0,
        all_ascii_digits(decimal(n)),
        digits_value(decimal(n)) == n,
    decreases n,
{
    let d = digit_char(n % 10);
    assert(digit_value(d) == n % 10);
    assert(is_ascii_digit(d));
    if n >= 10 {
        lemma_decimal_digits(n / 10);
        let p = decimal(n / 10);
        assert(decimal(n) == p.push(d));
        assert(decimal(n).drop_last() =~= p);
        assert(decimal(n).last() == d);
        assert(digits_value(decimal(n)) == digits_value(p) * 10 + digit_value(d));
        assert((n / 10) * 10 + n % 10 == n);
        assert forall|i: int| 0 <= i < decimal(n).len() implies is_ascii_digit(
            #[trigger] decimal(n)[i],
        ) by {
            if i < p.len() {
                assert(decimal(n)[i] == p[i]);
            }
        }
    } else {
        assert(decimal(n) =~= seq![d]);
        assert(decimal(n).drop_last() =~= Seq::<char>::empty());
        assert(decimal(n).last() == d);
        assert(digits_value(decimal(n)) == digits_value(decimal(n).drop_last()) * 10 + digit_value(d));
    }
}

/// Law: reading back the decimal rendering of a 32-bit unsigned number gives the
/// number.
pub proof fn lemma_parse_decimal_u32(n: u32)
    ensures
        parse_u32_spec(decimal(n as nat)) == Some(n),
{
    lemma_decimal_digits(n as nat);
    assert(is_ascii_digit(decimal(n as nat)[0]));
}

/// Law: reading back the decimal rendering of a 32-bit signed number gives the number.
pub proof fn lemma_parse_decimal_i32(n: i32)
    ensures
        parse_i32_spec(decimal_signed(n as int)) == Some(n),
{
    let s = decimal_signed(n as int);
    if n < 0 {
        lemma_decimal_digits((-n) as nat);
        assert(s.drop_first() =~= decimal((-n) as nat));
        assert(s[0] == '-');
    } else {
        lemma_decimal_digits(n as nat);
        assert(is_ascii_digit(s[0]));
    }
}

/// The value of a digit character.
pub open spec fn digit_value(c: char) -> nat {
    ((c as u32) - ('0' as u32)) as nat
}

/// `c` is one of the ASCII digits `0` to `9`.
pub open spec fn is_ascii_digit(c: char) -> bool {
    '0' as u32 <= c as u32 <= '9' as u32
}

/// Every character of `s` is an ASCII digit.
pub open spec fn all_ascii_digits(s: Seq<char>) -> bool {
    forall|i: int| 0 <= i < s.len() ==> is_ascii_digit(#[trigger] s[i])
}

/// The value of a string of ASCII digits.
pub open spec fn digits_value(s: Seq<char>) -> nat
    decreases s.len(),
{
    if s.len() == 0 {
        0
    } else {
        digits_value(s.drop_last()) * 10 + digit_value(s.last())
    }
}

/// `s` without one leading `+` sign.
pub open spec fn unsigned_body(s: Seq<char>) -> Seq<char> {
    if s.len() > 0 && s[0] == '+' {
        s.drop_first()
    } else {
        s
    }
}

/// What `str::parse::<u32>` gives: an optional `+` followed by at least one ASCII
/// digit, with a value that fits in 32 bits.
pub open spec fn parse_u32_spec(s: Seq<char>) -> Option<u32> {
    let b = unsigned_body(s);
    if b.len() > 0 && all_ascii_digits(b) && digits_value(b) <= u32::MAX {
        Some(digits_value(b) as u32)
    } else {
        None
    }
}

/// What `str::parse::<i32>` gives: an optional `+` or `-` followed by at least one
/// ASCII digit, with a value that fits in a signed 32-bit integer.
pub open spec fn parse_i32_spec(s: Seq<char>) -> Option<i32> {
    let neg = s.len() > 0 && s[0] == '-';
    let b = if s.len() > 0 && (s[0] == '-' || s[0] == '+') {
        s.drop_first()
    } else {
        s
    };
    if b.len() > 0 && all_ascii_digits(b) {
        if neg && digits_value(b) <= 0x8000_0000 {
            Some((-(digits_value(b) as int)) as i32)
        } else if !neg && digits_value(b) <= 0x7fff_ffff {
            Some(digits_value(b) as i32)
        } else {
            None
        }
    } else {
        None
    }
}

proof fn lemma_digits_value_monotone(s: Seq<char>, i: int)
    requires
        0 <= i <= s.len(),
    ensures
        digits_value(s.take(i)) <= digits_value(s),
    decreases s.len() - i,
{
    if i < s.len() {
        lemma_digits_value_monotone(s, i + 1);
        assert(s.take(i + 1).drop_last() =~= s.take(i));
    } else {
        assert(s.take(i) =~= s);
    }
}

/// The value of the ASCII digits of `s` from position `start` on, if all of them are
/// digits, there is at least one, and the value is at most `bound`.
fn digits_up_to(s: &Vec<char>, start: usize, bound: u64) -> (r: Option<u64>)
    requires
        start <= s@.len(),
        bound <= u32::MAX,
    ensures
        ({
            let b = s@.skip(start as int);
            match r {
                Some(v) => b.len() > 0 && all_ascii_digits(b) && digits_value(b) <= bound && v
                    == digits_value(b),
                None => !(b.len() > 0 && all_ascii_digits(b) && digits_value(b) <= bound),
            }
        }),
{
    let ghost b = s@.skip(start as int);
    let n = s.len();
    if start == n {
        return None;
    }
    let mut acc: u64 = 0;
    let mut i: usize = start;
    assert(b.take(0) =~= Seq::<char>::empty());
    while i < n
        invariant
            start <= i <= n,
            n == s@.len(),
            b == s@.skip(start as int),
            bound <= u32::MAX,
            all_ascii_digits(b.take(i - start)),
            acc == digits_value(b.take(i - start)),
            acc <= bound,
        decreases n - i,
    {
        let c = s[i];
        assert(b[i - start] == c);
        let v = c as u32;
        if !(48 <= v && v <= 57) {
            assert(!is_ascii_digit(b[i - start]));
            return None;
        }
        let d = (v - 48) as u64;
        assert(b.take(i + 1 - start).drop_last() =~= b.take(i - start));
        acc = acc * 10 + d;
        if acc > bound {
            proof {
                lemma_digits_value_monotone(b, i + 1 - start);
            }
            return None;
        }
        i = i + 1;
    }
    assert(b.take(n - start) =~= b);
    Some(acc)
}

/// Parses an unsigned 32-bit decimal number as `str::parse::<u32>` does.
pub fn parse_u32(s: &Vec<char>) -> (r: Option<u32>)
    ensures
        r == parse_u32_spec(s@),
{
    let start: usize = if s.len() > 0 && s[0] == '+' {
        1
    } else {
        0
    };
    assert(unsigned_body(s@) =~= s@.skip(start as int));
    match digits_up_to(s, start, 0xffff_ffff) {
        Some(v) => Some(v as u32),
        None => None,
    }
}

/// Parses a signed 32-bit decimal number as `str::parse::<i32>` does.
pub fn parse_i32(s: &Vec<char>) -> (r: Option<i32>)
    ensures
        r == parse_i32_spec(s@),
{
    let neg = s.len() > 0 && s[0] == '-';
    let start: usize = if s.len() > 0 && (s[0] == '-' || s[0] == '+') {
        1
    } else {
        0
    };
    assert(start == 1 ==> s@.drop_first() =~= s@.skip(1));
    assert(start == 0 ==> s@ =~= s@.skip(0));
    if neg {
        match digits_up_to(s, start, 0x8000_0000) {
            Some(v) => {
                let w: i64 = -(v as i64);
                Some(w as i32)
            },
            None => None,
        }
    } else {
        match digits_up_to(s, start, 0x7fff_ffff) {
            Some(v) => Some(v as i32),
            None => None,
        }
    }
}

} // verus!

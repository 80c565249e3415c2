//! What the recent-context report computes over the notes of a period: how often each tag is
//! used, which tags are new, and the longest and shortest notes.
use vstd::prelude::*;
use crate::analytics::{word_count, words_in};
use crate::dates::{date_text, day_number, iso_date_of, FIRST_DAY, LAST_DAY, parse_date_only, valid_date, CalendarDate};
use chrono::Datelike;
use crate::tag_index::{aggregate_tags_where, stats_views, tag_stats, TaggedNote};
use crate::text::{chars_of, eq_chars, str_views};
use crate::tree::{lemma_lex_total, lemma_lex_trans, lex_le, lex_le_exec};

verus! {

broadcast use vstd::string::group_string_axioms;

// ---------------------------------------------------------------------------
// Tag counts of a period
// ---------------------------------------------------------------------------

/// Each tag of the notes with its number of uses, more uses first, then by tag.
pub open spec fn period_tag_counts(ns: Seq<TaggedNote>) -> Seq<(Seq<char>, nat)> {
    tag_stats(ns, Seq::new(ns.len(), |k: int| true)).map_values(
        |c: crate::tag_index::TagCount| (c.tag, c.files.len()),
    )
}

/// Aggregate tags from notes, returning (tag, count) sorted by count desc then tag asc.
pub fn aggregate_period_tags(notes: &Vec<TaggedNote>) -> (r: Vec<(String, usize)>)
    ensures
        r@.map_values(|p: (String, usize)| (p.0@, p.1 as nat)) == period_tag_counts(notes@),
{
    let mut all: Vec<bool> = Vec::new();
    while all.len() < notes.len()
        invariant
            all.len() <= notes.len(),
            all@ == Seq::new(all.len() as nat, |k: int| true),
        decreases notes.len() - all.len(),
    {
        all.push(true);
        assert(all@ =~= Seq::new(all.len() as nat, |k: int| true));
    }
    let stats = aggregate_tags_where(notes, &all);
    let ghost sv = stats_views(stats@);
    let mut out: Vec<(String, usize)> = Vec::new();
    let mut i: usize = 0;
    while i < stats.len()
        invariant
            i <= stats.len(),
            sv == stats_views(stats@),
            out@.map_values(|p: (String, usize)| (p.0@, p.1 as nat)) == sv.take(i as int).map_values(
                |c: crate::tag_index::TagCount| (c.tag, c.files.len()),
            ),
        decreases stats.len() - i,
    {
        let ghost prev = out@;
        let pair = (stats[i].tag.clone(), stats[i].files.len());
        out.push(pair);
        assert(sv[i as int] == crate::tag_index::stats_view(stats@[i as int]));
        assert(str_views(stats@[i as int].files@).len() == stats@[i as int].files.len());
        assert(out@ == prev.push(pair));
        assert(out@.map_values(|p: (String, usize)| (p.0@, p.1 as nat)) =~= prev.map_values(
            |p: (String, usize)| (p.0@, p.1 as nat),
        ).push((pair.0@, pair.1 as nat)));
        assert(sv.take(i + 1) =~= sv.take(i as int).push(sv[i as int]));
        assert(sv.take(i + 1).map_values(|c: crate::tag_index::TagCount| (c.tag, c.files.len()))
            =~= sv.take(i as int).map_values(
            |c: crate::tag_index::TagCount| (c.tag, c.files.len()),
        ).push((sv[i as int].tag, sv[i as int].files.len())));
        i = i + 1;
    }
    assert(sv.take(i as int) =~= sv);
    out
}

// ---------------------------------------------------------------------------
// New tags
// ---------------------------------------------------------------------------

/// Lexicographic order, strict.
pub open spec fn lex_lt(a: Seq<char>, b: Seq<char>) -> bool {
    lex_le(a, b) && a != b
}

/// Each name before the next, so none twice.
pub open spec fn strictly_sorted(s: Seq<Seq<char>>) -> bool {
    forall|a: int, b: int| 0 <= a < b < s.len() ==> lex_lt(#[trigger] s[a], #[trigger] s[b])
}

proof fn lemma_lex_refl(a: Seq<char>)
    ensures
        lex_le(a, a),
    decreases a.len(),
{
    if a.len() > 0 {
        lemma_lex_refl(a.drop_first());
    }
}

proof fn lemma_lex_antisym(a: Seq<char>, b: Seq<char>)
    requires
        lex_le(a, b),
        lex_le(b, a),
    ensures
        a == b,
    decreases a.len(),
{
    if a.len() > 0 && b.len() > 0 {
        lemma_lex_antisym(a.drop_first(), b.drop_first());
        assert(a =~= seq![a[0]] + a.drop_first());
        assert(b =~= seq![b[0]] + b.drop_first());
    }
}

/// Whether one of the notes carries tag `t`.
pub open spec fn carried(ns: Seq<TaggedNote>, t: Seq<char>) -> bool {
    exists|k: int, q: int|
        0 <= k < ns.len() && 0 <= q < ns[k].tags.len() && (#[trigger] ns[k].tags@[q])@ == t
}

/// Whether one of the notes that `older` marks carries tag `t`.
pub open spec fn carried_before(ns: Seq<TaggedNote>, older: Seq<bool>, t: Seq<char>) -> bool {
    exists|k: int, q: int|
        0 <= k < ns.len() && older[k] && 0 <= q < ns[k].tags.len() && (#[trigger] ns[k].tags@[q])@
            == t
}

fn carried_before_exec(all: &Vec<TaggedNote>, older: &Vec<bool>, t: &String) -> (r: bool)
    requires
        older.len() == all.len(),
    ensures
        r == carried_before(all@, older@, t@),
{
    let mut k: usize = 0;
    while k < all.len()
        invariant
            k <= all.len(),
            older.len() == all.len(),
            forall|j: int, q: int|
                0 <= j < k && older@[j] && 0 <= q < all@[j].tags.len() ==> (
                #[trigger] all@[j].tags@[q])@ != t@,
        decreases all.len() - k,
    {
        if older[k] {
            let mut q: usize = 0;
            while q < all[k].tags.len()
                invariant
                    k < all.len(),
                    older.len() == all.len(),
                    older@[k as int],
                    q <= all@[k as int].tags.len(),
                    forall|p: int| 0 <= p < q ==> (#[trigger] all@[k as int].tags@[p])@ != t@,
                decreases all@[k as int].tags.len() - q,
            {
                if crate::text::str_eq(all[k].tags[q].as_str(), t.as_str()) {
                    assert(older@[k as int] && (all@[k as int].tags@[q as int])@ == t@);
                    return true;
                }
                q = q + 1;
            }
        }
        k = k + 1;
    }
    false
}

/// Adds `x` to the strictly sorted names, unless it is there.
fn insert_sorted(out: &mut Vec<String>, x: &String)
    requires
        strictly_sorted(str_views(old(out)@)),
    ensures
        strictly_sorted(str_views(final(out)@)),
        forall|t: Seq<char>|
            #[trigger] str_views(final(out)@).contains(t) <==> (str_views(old(out)@).contains(t)
                || t == x@),
{
    let ghost s = str_views(out@);
    let xc = chars_of(x.as_str());
    let mut p: usize = 0;
    while p < out.len() && lex_le_exec(&chars_of(out[p].as_str()), &xc)
        invariant
            p <= out.len(),
            s == str_views(out@),
            xc@ == x@,
            forall|a: int| 0 <= a < p ==> lex_le(#[trigger] s[a], x@),
        decreases out.len() - p,
    {
        assert(s[p as int] == out@[p as int]@);
        p = p + 1;
    }
    if p > 0 && crate::text::str_eq(out[p - 1].as_str(), x.as_str()) {
        assert(s[p - 1] == x@);
        return;
    }
    proof {
        if p < out.len() {
            assert(s[p as int] == out@[p as int]@);
            assert(!lex_le(s[p as int], x@));
            lemma_lex_total(s[p as int], x@);
        }
        if p > 0 {
            assert(s[p - 1] == out@[p - 1]@);
            assert(s[p - 1] != x@);
        }
    }
    let ghost old_out = out@;
    let xs = x.clone();
    out.insert(p, xs);
    let ghost u = str_views(out@);
    assert(u =~= s.insert(p as int, x@)) by {
        assert(out@ =~= old_out.insert(p as int, xs));
    }
    assert forall|a: int, b: int| 0 <= a < b < u.len() implies lex_lt(#[trigger] u[a], #[trigger] u[b]) by {
        if b < p {
            assert(u[a] == s[a] && u[b] == s[b]);
        } else if b == p {
            assert(u[a] == s[a]);
            if a < p - 1 {
                assert(lex_lt(s[a], s[p - 1]));
                lemma_lex_trans(s[a], s[p - 1], x@);
                if s[a] == x@ {
                    lemma_lex_antisym(s[a], s[p - 1]);
                }
            }
        } else if a < p {
            assert(u[a] == s[a] && u[b] == s[b - 1]);
            assert(lex_le(s[a], x@));
            lemma_lex_trans(s[a], x@, s[p as int]);
            if b - 1 > p {
                lemma_lex_trans(s[a], s[p as int], s[b - 1]);
            }
            if s[a] == s[b - 1] {
                if b - 1 > p {
                    lemma_lex_antisym(s[p as int], s[b - 1]);
                    lemma_lex_antisym(x@, s[p as int]);
                } else {
                    lemma_lex_antisym(x@, s[p as int]);
                }
            }
        } else if a == p {
            assert(u[b] == s[b - 1]);
            if b - 1 > p {
                lemma_lex_trans(x@, s[p as int], s[b - 1]);
                if x@ == s[b - 1] {
                    lemma_lex_antisym(s[p as int], s[b - 1]);
                }
            }
        } else {
            assert(u[a] == s[a - 1] && u[b] == s[b - 1]);
        }
    }
    assert forall|t: Seq<char>| #[trigger] u.contains(t) <==> (s.contains(t) || t == x@) by {
        if u.contains(t) {
            let q = choose|q: int| 0 <= q < u.len() && u[q] == t;
            if q < p {
                assert(s[q] == t);
            } else if q > p {
                assert(s[q - 1] == t);
            }
        }
        if s.contains(t) {
            let q = choose|q: int| 0 <= q < s.len() && s[q] == t;
            if q < p {
                assert(u[q] == t);
            } else {
                assert(u[q + 1] == t);
            }
        }
        if t == x@ {
            assert(u[p as int] == t);
        }
    }
}

/// Find tags that appear in `period` but on none of the notes of `all` that `older` marks (the
/// notes last changed before the period), sorted, each once.
pub fn find_new_tags(period: &Vec<TaggedNote>, all: &Vec<TaggedNote>, older: &Vec<bool>) -> (r:
    Vec<String>)
    requires
        older.len() == all.len(),
    ensures
        strictly_sorted(str_views(r@)),
        forall|t: Seq<char>|
            #[trigger] str_views(r@).contains(t) <==> (carried(period@, t) && !carried_before(
                all@,
                older@,
                t,
            )),
{
    let mut out: Vec<String> = Vec::new();
    let mut k: usize = 0;
    while k < period.len()
        invariant
            k <= period.len(),
            older.len() == all.len(),
            strictly_sorted(str_views(out@)),
            forall|t: Seq<char>|
                #[trigger] str_views(out@).contains(t) <==> ((exists|j: int, q: int|
                    0 <= j < k && 0 <= q < period@[j].tags.len() && (
                    #[trigger] period@[j].tags@[q])@ == t) && !carried_before(all@, older@, t)),
        decreases period.len() - k,
    {
        let mut q: usize = 0;
        while q < period[k].tags.len()
            invariant
                k < period.len(),
                q <= period@[k as int].tags.len(),
                older.len() == all.len(),
                strictly_sorted(str_views(out@)),
                forall|t: Seq<char>|
                    #[trigger] str_views(out@).contains(t) <==> (((exists|j: int, p: int|
                        0 <= j < k && 0 <= p < period@[j].tags.len() && (
                        #[trigger] period@[j].tags@[p])@ == t) || (exists|p: int|
                        0 <= p < q && (#[trigger] period@[k as int].tags@[p])@ == t))
                        && !carried_before(all@, older@, t)),
            decreases period@[k as int].tags.len() - q,
        {
            let tag = &period[k].tags[q];
            if !carried_before_exec(all, older, tag) {
                insert_sorted(&mut out, tag);
            }
            q = q + 1;
        }
        k = k + 1;
    }
    out
}

// ---------------------------------------------------------------------------
// Longest and shortest notes
// ---------------------------------------------------------------------------

/// What the length extremes read of a note: its title and its text.
pub struct TitledText {
    pub title: String,
    pub full_text: String,
}

/// The note with the most words, as (title, words); among equals the smallest title.
pub open spec fn longest_of(ds: Seq<TitledText>) -> Option<(Seq<char>, nat)>
    decreases ds.len(),
{
    if ds.len() == 0 {
        None
    } else {
        let prev = longest_of(ds.drop_last());
        let d = ds.last();
        let wc = words_in(d.full_text@);
        match prev {
            None => Some((d.title@, wc)),
            Some(b) => if wc > b.1 || (wc == b.1 && lex_lt(d.title@, b.0)) {
                Some((d.title@, wc))
            } else {
                prev
            },
        }
    }
}

/// The note with the fewest words, as (title, words); among equals the smallest title.
pub open spec fn shortest_of(ds: Seq<TitledText>) -> Option<(Seq<char>, nat)>
    decreases ds.len(),
{
    if ds.len() == 0 {
        None
    } else {
        let prev = shortest_of(ds.drop_last());
        let d = ds.last();
        let wc = words_in(d.full_text@);
        match prev {
            None => Some((d.title@, wc)),
            Some(b) => if wc < b.1 || (wc == b.1 && lex_lt(d.title@, b.0)) {
                Some((d.title@, wc))
            } else {
                prev
            },
        }
    }
}

pub open spec fn stat_view(o: Option<(String, usize)>) -> Option<(Seq<char>, nat)> {
    match o {
        Some(p) => Some((p.0@, p.1 as nat)),
        None => None,
    }
}

fn lex_lt_exec(a: &String, b: &String) -> (r: bool)
    ensures
        r == lex_lt(a@, b@),
{
    let x = chars_of(a.as_str());
    let y = chars_of(b.as_str());
    lex_le_exec(&x, &y) && !eq_chars(&x, &y)
}

/// The longest and the shortest note by word count, each as (title, words); ties go to the
/// smallest title. None for no notes.
pub fn compute_length_extremes(docs: &Vec<TitledText>) -> (r: (
    Option<(String, usize)>,
    Option<(String, usize)>,
))
    ensures
        stat_view(r.0) == longest_of(docs@),
        stat_view(r.1) == shortest_of(docs@),
{
    let mut longest: Option<(String, usize)> = None;
    let mut shortest: Option<(String, usize)> = None;
    let mut k: usize = 0;
    while k < docs.len()
        invariant
            k <= docs.len(),
            stat_view(longest) == longest_of(docs@.take(k as int)),
            stat_view(shortest) == shortest_of(docs@.take(k as int)),
        decreases docs.len() - k,
    {
        let ghost t = docs@.take(k + 1);
        assert(t.drop_last() =~= docs@.take(k as int));
        assert(t.last() == docs@[k as int]);
        let d = &docs[k];
        let wc = word_count(d.full_text.as_str());
        let take_longest = match &longest {
            None => true,
            Some(b) => wc > b.1 || (wc == b.1 && lex_lt_exec(&d.title, &b.0)),
        };
        if take_longest {
            longest = Some((d.title.clone(), wc));
        }
        let take_shortest = match &shortest {
            None => true,
            Some(b) => wc < b.1 || (wc == b.1 && lex_lt_exec(&d.title, &b.0)),
        };
        if take_shortest {
            shortest = Some((d.title.clone(), wc));
        }
        k = k + 1;
    }
    assert(docs@.take(k as int) =~= docs@);
    (longest, shortest)
}

/// Of notes, `longest_of` gives a note's title and word count, no note has more words, and no
/// note with as many has a smaller title; `shortest_of` likewise with fewer words.
pub proof fn law_length_extremes(ds: Seq<TitledText>)
    requires
        ds.len() > 0,
    ensures
        longest_of(ds) is Some,
        shortest_of(ds) is Some,
        exists|k: int|
            0 <= k < ds.len() && (#[trigger] ds[k]).title@ == longest_of(ds).unwrap().0 && words_in(
                ds[k].full_text@,
            ) == longest_of(ds).unwrap().1,
        exists|k: int|
            0 <= k < ds.len() && (#[trigger] ds[k]).title@ == shortest_of(ds).unwrap().0 && words_in(
                ds[k].full_text@,
            ) == shortest_of(ds).unwrap().1,
        forall|k: int|
            0 <= k < ds.len() ==> words_in((#[trigger] ds[k]).full_text@) <= longest_of(ds).unwrap().1,
        forall|k: int|
            0 <= k < ds.len() ==> words_in((#[trigger] ds[k]).full_text@) >= shortest_of(ds).unwrap().1,
        forall|k: int|
            0 <= k < ds.len() && words_in((#[trigger] ds[k]).full_text@) == longest_of(ds).unwrap().1
                ==> lex_le(longest_of(ds).unwrap().0, ds[k].title@),
        forall|k: int|
            0 <= k < ds.len() && words_in((#[trigger] ds[k]).full_text@) == shortest_of(ds).unwrap().1
                ==> lex_le(shortest_of(ds).unwrap().0, ds[k].title@),
    decreases ds.len(),
{
    let d = ds.last();
    let n = ds.len() - 1;
    let wc = words_in(d.full_text@);
    lemma_lex_refl(d.title@);
    if ds.len() == 1 {
        assert(ds.drop_last().len() == 0);
        assert(ds[0] == d);
    } else {
        let p = ds.drop_last();
        law_length_extremes(p);
        let bl = longest_of(p).unwrap();
        let bs = shortest_of(p).unwrap();
        lemma_lex_total(d.title@, bl.0);
        lemma_lex_total(d.title@, bs.0);
        assert forall|k: int| 0 <= k < n implies #[trigger] ds[k] == p[k] by {}
        let kl = choose|k: int|
            0 <= k < p.len() && (#[trigger] p[k]).title@ == bl.0 && words_in(p[k].full_text@) == bl.1;
        let ks = choose|k: int|
            0 <= k < p.len() && (#[trigger] p[k]).title@ == bs.0 && words_in(p[k].full_text@) == bs.1;
        assert(ds[kl] == p[kl]);
        assert(ds[ks] == p[ks]);
        assert(ds[n] == d);
        let l = longest_of(ds).unwrap();
        let s = shortest_of(ds).unwrap();
        assert forall|k: int|
            0 <= k < ds.len() && words_in((#[trigger] ds[k]).full_text@) == l.1 implies lex_le(
            l.0,
            ds[k].title@,
        ) by {
            if k < n {
                assert(ds[k] == p[k]);
                if l.0 == d.title@ && l != bl {
                    if words_in(p[k].full_text@) == bl.1 {
                        assert(lex_le(bl.0, p[k].title@));
                        lemma_lex_trans(d.title@, bl.0, p[k].title@);
                    }
                }
            }
        }
        assert forall|k: int|
            0 <= k < ds.len() && words_in((#[trigger] ds[k]).full_text@) == s.1 implies lex_le(
            s.0,
            ds[k].title@,
        ) by {
            if k < n {
                assert(ds[k] == p[k]);
                if s.0 == d.title@ && s != bs {
                    if words_in(p[k].full_text@) == bs.1 {
                        assert(lex_le(bs.0, p[k].title@));
                        lemma_lex_trans(d.title@, bs.0, p[k].title@);
                    }
                }
            }
        }
        assert forall|k: int| 0 <= k < ds.len() implies words_in((#[trigger] ds[k]).full_text@) <= l.1 by {
            if k < n {
                assert(ds[k] == p[k]);
            }
        }
        assert forall|k: int| 0 <= k < ds.len() implies words_in((#[trigger] ds[k]).full_text@) >= s.1 by {
            if k < n {
                assert(ds[k] == p[k]);
            }
        }
    }
}

// ---------------------------------------------------------------------------
// Days without entries
// ---------------------------------------------------------------------------

/// The day of the epoch a moment falls on (days before the epoch are negative).
pub open spec fn day_of(secs: int) -> int {
    secs / 86400
}

/// The UTC day of a moment, `secs` seconds after the epoch, as
/// `DateTime::from_timestamp(secs, 0)` gives it.
pub uninterp spec fn utc_date(secs: i64) -> Option<CalendarDate>;

/// `chrono::DateTime::from_timestamp` with no nanoseconds, then `date_naive`. Claimed: the
/// answer depends on `secs` alone (named `utc_date`); there is one exactly when the moment's
/// day (`secs.div_euclid(86400)`, as chrono counts it) lies within the calendar, from
/// `FIRST_DAY` to `LAST_DAY`; and a day it gives is the existing day with that day number
/// (a `NaiveDate` holds no other).
#[verifier::external_body]
fn utc_date_at(secs: i64) -> (r: Option<CalendarDate>)
    ensures
        r == utc_date(secs),
        r is Some <==> FIRST_DAY <= day_of(secs as int) <= LAST_DAY,
        r matches Some(d) ==> valid_date(d) && day_number(d) == day_of(secs as int),
{
    chrono::DateTime::from_timestamp(secs, 0).map(|dt| {
        let nd = dt.date_naive();
        CalendarDate { year: nd.year(), month: nd.month(), day: nd.day() }
    })
}

/// How `format("%Y-%m-%d")` writes a day: as `NaiveDate`'s `Display` does (`date_text`).
pub open spec fn ymd_text(d: CalendarDate) -> Seq<char> {
    date_text(d)
}

/// `NaiveDate::format("%Y-%m-%d")`, written to a string. Claimed: the text is `ymd_text(d)`
/// (`%Y` writes years 1000 to 9999 by `write_hundreds` and others zero-padded to four digits,
/// with a sign outside 0 to 9999; `%m` and `%d` two zero-padded digits).
#[verifier::external_body]
fn ymd_text_of(d: CalendarDate) -> (r: String)
    requires
        valid_date(d),
    ensures
        r@ == ymd_text(d),
{
    chrono::NaiveDate::from_ymd_opt(d.year, d.month, d.day).unwrap().format("%Y-%m-%d").to_string()
}

/// Whether chrono has a date for the moment.
pub open spec fn dated(secs: i64) -> bool {
    FIRST_DAY <= day_of(secs as int) <= LAST_DAY
}

/// The day a period starts: the day of `from_ts`, or the epoch's day when chrono has no date
/// for it.
pub open spec fn first_day(from_ts: i64) -> int {
    if dated(from_ts) {
        day_of(from_ts as int)
    } else {
        0
    }
}

/// The day a period ends: the day of `to_ts`, or the first day when chrono has no date for it.
pub open spec fn last_day(from_ts: i64, to_ts: i64) -> int {
    if dated(to_ts) {
        day_of(to_ts as int)
    } else {
        first_day(from_ts)
    }
}

/// The date of day `k` (chrono's date of its first second).
pub open spec fn date_of_day(k: int) -> Option<CalendarDate> {
    if i64::MIN <= k * 86400 <= i64::MAX {
        utc_date((k * 86400) as i64)
    } else {
        None
    }
}

/// The date an entry changed at `secs` is listed under: its day's text, or "unknown".
pub open spec fn entry_text(secs: i64) -> Seq<char> {
    match utc_date(secs) {
        Some(d) => ymd_text(d),
        None => "unknown"@,
    }
}

/// The texts of the days from `k` through `last` whose text is not among `texts`.
pub open spec fn missing_texts(texts: Seq<Seq<char>>, k: int, last: int) -> Seq<Seq<char>>
    decreases last - k + 1,
{
    if k > last {
        Seq::empty()
    } else {
        let rest = missing_texts(texts, k + 1, last);
        match date_of_day(k) {
            Some(d) => if texts.contains(ymd_text(d)) {
                rest
            } else {
                seq![ymd_text(d)] + rest
            },
            None => rest,
        }
    }
}

/// The texts of the days from `k` through `last` whose date is not among `dates`.
pub open spec fn missing_dates(dates: Seq<CalendarDate>, k: int, last: int) -> Seq<Seq<char>>
    decreases last - k + 1,
{
    if k > last {
        Seq::empty()
    } else {
        let rest = missing_dates(dates, k + 1, last);
        match date_of_day(k) {
            Some(d) => if dates.contains(d) {
                rest
            } else {
                seq![ymd_text(d)] + rest
            },
            None => rest,
        }
    }
}

fn day_of_exec(secs: i64) -> (r: i64)
    ensures
        r == day_of(secs as int),
{
    let q = secs / 86400;
    let m = secs % 86400;
    if m < 0 {
        q - 1
    } else {
        q
    }
}

fn date_of_day_exec(k: i64) -> (r: Option<CalendarDate>)
    ensures
        r == date_of_day(k as int),
        r matches Some(d) ==> valid_date(d),
{
    let wide: i128 = (k as i128) * 86400;
    if wide < i64::MIN as i128 || wide > i64::MAX as i128 {
        None
    } else {
        utc_date_at(wide as i64)
    }
}

/// The first and the last day of the period from `from_ts` to `to_ts`, as `first_day` and
/// `last_day` state.
pub fn period_bounds(from_ts: i64, to_ts: i64) -> (r: (i64, i64))
    ensures
        r.0 == first_day(from_ts),
        r.1 == last_day(from_ts, to_ts),
{
    let first = match utc_date_at(from_ts) {
        Some(_) => day_of_exec(from_ts),
        None => 0,
    };
    let last = match utc_date_at(to_ts) {
        Some(_) => day_of_exec(to_ts),
        None => first,
    };
    (first, last)
}

/// Whether a period reaches the calendar's last day, past which there is no day to step to.
pub open spec fn ends_on_last_day(from_ts: i64, to_ts: i64) -> bool {
    first_day(from_ts) <= last_day(from_ts, to_ts) && last_day(from_ts, to_ts) == LAST_DAY
}

/// Dates with no entries in the period from `from_ts` to `to_ts` (seconds since the epoch, UTC):
/// the text of each day of the period that no entry's date text matches. `entry_secs` are the
/// moments the entries last changed. The period may not reach the calendar's last day.
pub fn compute_gap_dates(entry_secs: &Vec<i64>, from_ts: i64, to_ts: i64) -> (r: Vec<String>)
    requires
        !ends_on_last_day(from_ts, to_ts),
    ensures
        str_views(r@) == missing_texts(
            entry_secs@.map_values(|e: i64| entry_text(e)),
            first_day(from_ts),
            last_day(from_ts, to_ts),
        ),
{
    let ghost want = entry_secs@.map_values(|e: i64| entry_text(e));
    let mut texts: Vec<String> = Vec::new();
    let mut i: usize = 0;
    while i < entry_secs.len()
        invariant
            i <= entry_secs.len(),
            want == entry_secs@.map_values(|e: i64| entry_text(e)),
            str_views(texts@) == want.take(i as int),
        decreases entry_secs.len() - i,
    {
        let t = match utc_date_at(entry_secs[i]) {
            Some(d) => ymd_text_of(d),
            None => "unknown".to_string(),
        };
        let ghost prev = str_views(texts@);
        texts.push(t);
        assert(str_views(texts@) =~= prev.push(t@));
        assert(want.take(i + 1) =~= want.take(i as int).push(want[i as int]));
        i = i + 1;
    }
    assert(want.take(i as int) =~= want);
    let tv = crate::text::chars_of_all(texts.as_slice());
    let (first, last) = period_bounds(from_ts, to_ts);
    let mut gaps: Vec<String> = Vec::new();
    if first > last {
        assert(str_views(gaps@) =~= missing_texts(want, first as int, last as int));
        return gaps;
    }
    let mut k: i64 = first;
    assert(str_views(gaps@) + missing_texts(want, first as int, last as int) =~= missing_texts(
        want,
        first as int,
        last as int,
    ));
    loop
        invariant
            first <= k <= last,
            first == first_day(from_ts),
            last == last_day(from_ts, to_ts),
            want == entry_secs@.map_values(|e: i64| entry_text(e)),
            crate::text::views(tv@) == want,
            missing_texts(want, first as int, last as int) == str_views(gaps@) + missing_texts(
                want,
                k as int,
                last as int,
            ),
        decreases last - k,
    {
        let ghost prev = str_views(gaps@);
        let ghost rest = missing_texts(want, k + 1, last as int);
        match date_of_day_exec(k) {
            Some(d) => {
                let t = ymd_text_of(d);
                let present = crate::text::contains_chars(&tv, &chars_of(t.as_str()));
                if !present {
                    gaps.push(t);
                    assert(str_views(gaps@) =~= prev.push(ymd_text(d)));
                    assert(prev + (seq![ymd_text(d)] + rest) =~= prev.push(ymd_text(d)) + rest);
                } else {
                    assert(missing_texts(want, k as int, last as int) == rest);
                }
            },
            None => {
                assert(missing_texts(want, k as int, last as int) == rest);
            },
        }
        assert(missing_texts(want, first as int, last as int) == str_views(gaps@) + rest);
        if k == last {
            assert(missing_texts(want, k + 1, last as int) =~= Seq::<Seq<char>>::empty());
            assert(str_views(gaps@) + Seq::<Seq<char>>::empty() =~= str_views(gaps@));
            return gaps;
        }
        k = k + 1;
    }
}

// ---------------------------------------------------------------------------
// Dates in paths
// ---------------------------------------------------------------------------

/// Characters a date in a path is made of.
pub open spec fn is_date_char(c: char) -> bool {
    ('0' <= c && c <= '9') || c == '-'
}

/// How many characters from the start are date characters.
pub open spec fn date_run(s: Seq<char>) -> nat
    decreases s.len(),
{
    if s.len() == 0 || !is_date_char(s[0]) {
        0
    } else {
        1 + date_run(s.drop_first())
    }
}

/// The pieces of a path between characters that are not date characters.
pub open spec fn date_pieces(s: Seq<char>) -> Seq<Seq<char>>
    decreases s.len(),
{
    let i = date_run(s);
    if i >= s.len() {
        seq![s]
    } else {
        seq![s.take(i as int)] + date_pieces(s.skip(i as int + 1))
    }
}

/// The first piece shaped `dddd-dd-dd` that reads as a day.
pub open spec fn first_date(pieces: Seq<Seq<char>>) -> Option<CalendarDate>
    decreases pieces.len(),
{
    if pieces.len() == 0 {
        None
    } else {
        let p = pieces[0];
        if p.len() == 10 && p[4] == '-' && p[7] == '-' && iso_date_of(p) is Some {
            iso_date_of(p)
        } else {
            first_date(pieces.drop_first())
        }
    }
}

/// The day a path names, read from its first date-shaped piece (`journal/2025-01-15.md`).
pub open spec fn path_date(path: Seq<char>) -> Option<CalendarDate> {
    first_date(date_pieces(path))
}

proof fn lemma_date_run(s: Seq<char>)
    ensures
        date_run(s) <= s.len(),
        date_run(s) < s.len() ==> !is_date_char(s[date_run(s) as int]),
    decreases s.len(),
{
    if s.len() > 0 && is_date_char(s[0]) {
        lemma_date_run(s.drop_first());
        if date_run(s) < s.len() {
            assert(s[date_run(s) as int] == s.drop_first()[date_run(s.drop_first()) as int]);
        }
    }
}

fn date_run_from(s: &Vec<char>, from: usize) -> (r: usize)
    requires
        from <= s.len(),
    ensures
        r == from + date_run(s@.skip(from as int)),
        r <= s.len(),
{
    let mut k: usize = from;
    assert(s@.skip(from as int).skip(0) =~= s@.skip(from as int));
    while k < s.len() && (('0' <= s[k] && s[k] <= '9') || s[k] == '-')
        invariant
            from <= k <= s.len(),
            date_run(s@.skip(from as int)) == (k - from) + date_run(s@.skip(k as int)),
        decreases s.len() - k,
    {
        assert(s@.skip(k as int)[0] == s@[k as int]);
        assert(s@.skip(k as int).drop_first() =~= s@.skip(k + 1));
        k = k + 1;
    }
    proof {
        if k < s.len() {
            assert(s@.skip(k as int)[0] == s@[k as int]);
        }
    }
    k
}

/// The day a path names, if one of its pieces between non-date characters is shaped
/// `dddd-dd-dd` and reads as a day: the first such.
pub fn extract_date_from_path(path: &str) -> (r: Option<CalendarDate>)
    ensures
        r == path_date(path@),
        r matches Some(d) ==> valid_date(d),
{
    let s = chars_of(path);
    let mut pos: usize = 0;
    assert(s@.skip(0) =~= s@);
    loop
        invariant
            pos <= s.len(),
            s@ == path@,
            path_date(path@) == first_date(date_pieces(s@.skip(pos as int))),
        decreases s.len() - pos,
    {
        let ghost rest = s@.skip(pos as int);
        let k = date_run_from(&s, pos);
        proof {
            lemma_date_run(rest);
        }
        let piece = crate::text::slice_of(&s, pos, k);
        assert(piece@ =~= rest.take(k - pos));
        let ghost pieces = date_pieces(rest);
        if k < s.len() {
            assert(rest.skip(k - pos + 1) =~= s@.skip(k + 1));
            assert(pieces =~= seq![piece@] + date_pieces(s@.skip(k + 1)));
        } else {
            assert(rest.take(k - pos) =~= rest);
            assert(pieces =~= seq![piece@]);
        }
        assert(pieces[0] == piece@);
        if piece.len() == 10 && piece[4] == '-' && piece[7] == '-' {
            let d = parse_date_only(crate::text::string_of(&piece).as_str());
            if d.is_some() {
                return d;
            }
        }
        assert(first_date(pieces) == first_date(pieces.drop_first()));
        if k >= s.len() {
            assert(pieces.drop_first() =~= Seq::<Seq<char>>::empty());
            return None;
        }
        assert(pieces.drop_first() =~= date_pieces(s@.skip(k + 1)));
        pos = k + 1;
    }
}

/// Days without a journal entry in the period from `from_ts` to `to_ts`, the entries' days read
/// from their paths: the text of each day of the period that no path names. None when no path
/// names a day. When a path names a day, the period may not reach the calendar's last day.
pub fn compute_journal_gap_dates(paths: &Vec<String>, from_ts: i64, to_ts: i64) -> (r: Option<
    Vec<String>,
>)
    requires
        journal_dates(paths@).len() > 0 ==> !ends_on_last_day(from_ts, to_ts),
    ensures
        match r {
            Some(g) => journal_dates(paths@).len() > 0 && str_views(g@) == missing_dates(
                journal_dates(paths@),
                first_day(from_ts),
                last_day(from_ts, to_ts),
            ),
            None => journal_dates(paths@).len() == 0,
        },
{
    let mut dates: Vec<CalendarDate> = Vec::new();
    let mut i: usize = 0;
    while i < paths.len()
        invariant
            i <= paths.len(),
            dates@ == journal_dates(paths@.take(i as int)),
        decreases paths.len() - i,
    {
        assert(paths@.take(i + 1).drop_last() =~= paths@.take(i as int));
        assert(paths@.take(i + 1).last() == paths@[i as int]);
        match extract_date_from_path(paths[i].as_str()) {
            Some(d) => {
                dates.push(d);
            },
            None => {},
        }
        i = i + 1;
    }
    assert(paths@.take(i as int) =~= paths@);
    if dates.len() == 0 {
        return None;
    }
    let ghost want = journal_dates(paths@);
    let (first, last) = period_bounds(from_ts, to_ts);
    let mut gaps: Vec<String> = Vec::new();
    if first > last {
        assert(str_views(gaps@) =~= missing_dates(want, first as int, last as int));
        return Some(gaps);
    }
    let mut k: i64 = first;
    assert(str_views(gaps@) + missing_dates(want, first as int, last as int) =~= missing_dates(
        want,
        first as int,
        last as int,
    ));
    loop
        invariant
            first <= k <= last,
            first == first_day(from_ts),
            last == last_day(from_ts, to_ts),
            want == journal_dates(paths@),
            want.len() > 0,
            dates@ == want,
            missing_dates(want, first as int, last as int) == str_views(gaps@) + missing_dates(
                want,
                k as int,
                last as int,
            ),
        decreases last - k,
    {
        let ghost prev = str_views(gaps@);
        let ghost rest = missing_dates(want, k + 1, last as int);
        match date_of_day_exec(k) {
            Some(d) => {
                let mut present = false;
                let mut q: usize = 0;
                while q < dates.len()
                    invariant
                        q <= dates.len(),
                        present == exists|x: int| 0 <= x < q && dates@[x] == d,
                    decreases dates.len() - q,
                {
                    if dates[q] == d {
                        present = true;
                    }
                    q = q + 1;
                }
                if !present {
                    let t = ymd_text_of(d);
                    gaps.push(t);
                    assert(!want.contains(d));
                    assert(str_views(gaps@) =~= prev.push(ymd_text(d)));
                    assert(prev + (seq![ymd_text(d)] + rest) =~= prev.push(ymd_text(d)) + rest);
                } else {
                    proof {
                        let x = choose|x: int| 0 <= x < q && dates@[x] == d;
                        assert(want[x] == d);
                    }
                    assert(missing_dates(want, k as int, last as int) == rest);
                }
            },
            None => {
                assert(missing_dates(want, k as int, last as int) == rest);
            },
        }
        assert(missing_dates(want, first as int, last as int) == str_views(gaps@) + rest);
        if k == last {
            assert(missing_dates(want, k + 1, last as int) =~= Seq::<Seq<char>>::empty());
            assert(str_views(gaps@) + Seq::<Seq<char>>::empty() =~= str_views(gaps@));
            return Some(gaps);
        }
        k = k + 1;
    }
}

/// The days the paths name, in order, for the paths that name one.
pub open spec fn journal_dates(paths: Seq<String>) -> Seq<CalendarDate>
    decreases paths.len(),
{
    if paths.len() == 0 {
        Seq::empty()
    } else {
        let t = journal_dates(paths.drop_last());
        match path_date(paths.last()@) {
            Some(d) => t.push(d),
            None => t,
        }
    }
}


/// How the days without entries were found.
#[derive(Debug, Clone, Copy, PartialEq, Eq, Structural)]
pub enum GapMode {
    /// From the days the entries' paths name.
    Journal,
    /// From the times the entries changed.
    Activity,
}

/// The days without entries a recent-context report shows for the period from `from_ts` to
/// `to_ts`: from the days the entries' paths name when some path names one, else from the
/// moments the entries changed (`entry_secs`). None exactly when the period reaches the
/// calendar's last day, past which there is no day to step to.
pub fn period_gaps(entry_secs: &Vec<i64>, paths: &Vec<String>, from_ts: i64, to_ts: i64) -> (r:
    Option<(GapMode, Vec<String>)>)
    ensures
        r is None <==> ends_on_last_day(from_ts, to_ts),
        r matches Some(p) ==> if journal_dates(paths@).len() > 0 {
            p.0 == GapMode::Journal && str_views(p.1@) == missing_dates(
                journal_dates(paths@),
                first_day(from_ts),
                last_day(from_ts, to_ts),
            )
        } else {
            p.0 == GapMode::Activity && str_views(p.1@) == missing_texts(
                entry_secs@.map_values(|e: i64| entry_text(e)),
                first_day(from_ts),
                last_day(from_ts, to_ts),
            )
        },
{
    let (first, last) = period_bounds(from_ts, to_ts);
    if first <= last && last == LAST_DAY {
        return None;
    }
    let activity = compute_gap_dates(entry_secs, from_ts, to_ts);
    match compute_journal_gap_dates(paths, from_ts, to_ts) {
        Some(g) => Some((GapMode::Journal, g)),
        None => Some((GapMode::Activity, activity)),
    }
}

} // verus!

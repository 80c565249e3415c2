//! The validated input of a search: a query with its mode, or browsing by filters, and the
//! date range turned into days and instants.
use vstd::prelude::*;
use crate::dates::{
    date_out_of_reach, day_time_seconds, parse_date_checked, parsed_date, timestamp_at,
    valid_date, CalendarDate, DateBound, DateParseError,
};
use crate::inputs::{SearchMode, SearchRequest};
use crate::text::{
    chars_of, chars_of_all, join, join_exec, push_all, push_str, str_eq, str_views, string_of,
};
use crate::tag_index::{in_folder, opt_str, path_in_folder, TaggedNote};
use crate::tags::{has_all_tags, tags_match};
use crate::types::opt_view;

verus! {

broadcast use vstd::string::group_string_axioms;

/// What a search does: answer a query in a mode, or browse by filters alone.
#[derive(Debug)]
pub enum SearchKind {
    Query { query: String, mode: SearchMode },
    Browse,
}

/// A validated search request.
#[derive(Debug)]
pub struct PreparedSearchInput {
    pub kind: SearchKind,
    pub limit: usize,
    pub has_filters: bool,
    pub from_date: Option<CalendarDate>,
    pub to_date: Option<CalendarDate>,
    /// Start of the range: midnight UTC of `from_date`, in seconds since the epoch.
    pub from_ts: Option<i64>,
    /// End of the range: 23:59:59 UTC of `to_date`, in seconds since the epoch.
    pub to_ts: Option<i64>,
    pub folder: Option<String>,
    pub tags: Option<Vec<String>>,
}

#[derive(Debug)]
pub enum SearchInputError {
    /// Neither a query nor any filter was given.
    NoQueryOrFilters,
    /// A date did not parse: the input and the parser's message.
    DateParse { input: String, error: String },
    /// The range starts after it ends.
    InvalidDateRange { from: CalendarDate, to: CalendarDate },
}

/// "vector" and "fts" name their modes; anything else, or nothing, means hybrid.
pub open spec fn search_mode_of(mode: Option<Seq<char>>) -> SearchMode {
    match mode {
        Some(m) => if m == "vector"@ {
            SearchMode::Vector
        } else if m == "fts"@ {
            SearchMode::Fts
        } else {
            SearchMode::Hybrid
        },
        None => SearchMode::Hybrid,
    }
}

/// Whether the request filters by date, tags or folder.
pub open spec fn has_search_filters(req: SearchRequest) -> bool {
    req.from is Some || req.to is Some || (match req.tags {
        Some(t) => t.len() > 0,
        None => false,
    }) || req.folder is Some
}

/// Whether day `a` comes before day `b`.
pub open spec fn date_before(a: CalendarDate, b: CalendarDate) -> bool {
    a.year < b.year || (a.year == b.year && (a.month < b.month || (a.month == b.month && a.day
        < b.day)))
}

/// A day comes before another exactly when its day number is smaller: the order of the
/// calendar, strict, so that no day comes before itself and a range from a day to the same day
/// is not reversed.
pub proof fn law_date_before_orders_days(a: CalendarDate, b: CalendarDate)
    requires
        valid_date(a),
        valid_date(b),
    ensures
        date_before(a, b) <==> crate::dates::day_number(a) < crate::dates::day_number(b),
        !date_before(a, a),
{
    if date_before(a, b) {
        lemma_day_before(a, b);
    }
    if date_before(b, a) {
        lemma_day_before(b, a);
    }
    if !date_before(a, b) && !date_before(b, a) {
        assert(a.year == b.year && a.month == b.month && a.day == b.day);
        assert(a == b);
    }
}

proof fn lemma_day_before(a: CalendarDate, b: CalendarDate)
    requires
        valid_date(a),
        valid_date(b),
        date_before(a, b),
    ensures
        crate::dates::day_number(a) < crate::dates::day_number(b),
{
    let first = CalendarDate { year: b.year, month: b.month, day: 1 };
    crate::dates::lemma_day_number_in_month(b.year, b.month, 1, b.day);
    if a.year == b.year && a.month == b.month {
        crate::dates::lemma_day_number_in_month(b.year, b.month, a.day, b.day);
    } else {
        crate::dates::lemma_earlier_month(a, b.year, b.month);
    }
}

/// How the dates of a search request turn out.
pub enum DateRangeOutcome {
    /// A date would step out of the calendar (see `date_out_of_reach`).
    Refused,
    /// A date did not parse; the trimmed input.
    Unparsed(Seq<char>),
    /// The range starts after it ends.
    Reversed(CalendarDate, CalendarDate),
    /// The days of the range; the end defaults to `today` when only a start is given.
    Range(Option<CalendarDate>, Option<CalendarDate>),
}

pub open spec fn date_range_of(
    from: Option<Seq<char>>,
    to: Option<Seq<char>>,
    today: CalendarDate,
) -> DateRangeOutcome {
    if from matches Some(s) && date_out_of_reach(s, DateBound::From, today) {
        DateRangeOutcome::Refused
    } else {
        let f = match from {
            Some(s) => Some(parsed_date(s, DateBound::From, today)),
            None => None,
        };
        match f {
            Some(Err(t)) => DateRangeOutcome::Unparsed(t),
            _ => {
                let from_date = match f {
                    Some(Ok(d)) => Some(d),
                    _ => None,
                };
                match to {
                    Some(s) => if date_out_of_reach(s, DateBound::To, today) {
                        DateRangeOutcome::Refused
                    } else {
                        match parsed_date(s, DateBound::To, today) {
                            Err(t) => DateRangeOutcome::Unparsed(t),
                            Ok(t) => match from_date {
                                Some(fd) => if date_before(t, fd) {
                                    DateRangeOutcome::Reversed(fd, t)
                                } else {
                                    DateRangeOutcome::Range(from_date, Some(t))
                                },
                                None => DateRangeOutcome::Range(None, Some(t)),
                            },
                        }
                    },
                    None => match from_date {
                        Some(fd) => if date_before(today, fd) {
                            DateRangeOutcome::Reversed(fd, today)
                        } else {
                            DateRangeOutcome::Range(from_date, Some(today))
                        },
                        None => DateRangeOutcome::Range(None, None),
                    },
                }
            },
        }
    }
}

/// A search range whose dates read as days is reversed exactly when its end (today where no
/// end is given) falls on an earlier day than its start; a one-day range is kept.
pub proof fn law_range_reversed_only_when_end_is_earlier(
    from: Seq<char>,
    to: Option<Seq<char>>,
    today: CalendarDate,
    fd: CalendarDate,
    td: CalendarDate,
)
    requires
        valid_date(fd),
        valid_date(td),
        valid_date(today),
        !date_out_of_reach(from, DateBound::From, today),
        parsed_date(from, DateBound::From, today) == Ok::<CalendarDate, Seq<char>>(fd),
        match to {
            Some(s) => !date_out_of_reach(s, DateBound::To, today) && parsed_date(
                s,
                DateBound::To,
                today,
            ) == Ok::<CalendarDate, Seq<char>>(td),
            None => td == today,
        },
    ensures
        date_range_of(Some(from), to, today) == if crate::dates::day_number(td)
            < crate::dates::day_number(fd) {
            DateRangeOutcome::Reversed(fd, td)
        } else {
            DateRangeOutcome::Range(Some(fd), Some(td))
        },
{
    law_date_before_orders_days(td, fd);
}

pub open spec fn start_seconds(d: Option<CalendarDate>) -> Option<i64> {
    match d {
        Some(x) => Some(day_time_seconds(x, 0, 0, 0)),
        None => None,
    }
}

pub open spec fn end_seconds(d: Option<CalendarDate>) -> Option<i64> {
    match d {
        Some(x) => Some(day_time_seconds(x, 23, 59, 59)),
        None => None,
    }
}

pub(crate) fn date_before_exec(a: CalendarDate, b: CalendarDate) -> (r: bool)
    ensures
        r == date_before(a, b),
{
    a.year < b.year || (a.year == b.year && (a.month < b.month || (a.month == b.month && a.day
        < b.day)))
}

pub(crate) fn parse_error(e: DateParseError) -> (r: SearchInputError)
    ensures
        r matches SearchInputError::DateParse { input, error } && input@ == e.input@ && error@
            == "Unable to parse date: '"@ + e.input@ + "'"@,
{
    let error = e.message();
    SearchInputError::DateParse { input: e.input, error }
}

/// What the dates of a request turned out to be.
pub enum RangeCheck {
    Refused,
    Unparsed(DateParseError),
    Reversed(CalendarDate, CalendarDate),
    Range(Option<CalendarDate>, Option<CalendarDate>),
}

/// Reads the start and end dates of a request relative to `today`, as `date_range_of` states.
pub fn check_date_range(from: &Option<String>, to: &Option<String>, today: CalendarDate) -> (r:
    RangeCheck)
    requires
        valid_date(today),
    ensures
        match (r, date_range_of(opt_view(*from), opt_view(*to), today)) {
            (RangeCheck::Refused, DateRangeOutcome::Refused) => true,
            (RangeCheck::Unparsed(e), DateRangeOutcome::Unparsed(t)) => e.input@ == t,
            (RangeCheck::Reversed(a, b), DateRangeOutcome::Reversed(c, d)) => a == c && b == d,
            (RangeCheck::Range(a, b), DateRangeOutcome::Range(c, d)) => {
                &&& a == c
                &&& b == d
                &&& a matches Some(x) ==> valid_date(x)
                &&& b matches Some(x) ==> valid_date(x)
            },
            _ => false,
        },
{
    let from_date = match from {
        Some(s) => match parse_date_checked(s.as_str(), DateBound::From, today) {
            Some(Ok(d)) => Some(d),
            Some(Err(e)) => {
                return RangeCheck::Unparsed(e);
            },
            None => {
                return RangeCheck::Refused;
            },
        },
        None => None,
    };
    let to_date = match to {
        Some(s) => match parse_date_checked(s.as_str(), DateBound::To, today) {
            Some(Ok(d)) => Some(d),
            Some(Err(e)) => {
                return RangeCheck::Unparsed(e);
            },
            None => {
                return RangeCheck::Refused;
            },
        },
        None => if from_date.is_some() {
            Some(today)
        } else {
            None
        },
    };
    if let (Some(f), Some(t)) = (from_date, to_date) {
        if date_before_exec(t, f) {
            return RangeCheck::Reversed(f, t);
        }
    }
    RangeCheck::Range(from_date, to_date)
}

/// Validate a search request: a query or at least one filter is needed; dates are read
/// relative to `today` (the end defaulting to `today` when only a start is given) and must
/// not run backwards; the limit defaults to `default_limit`. None only where a date would step
/// out of the calendar (see `date_out_of_reach`).
pub fn prepare_search_input(req: SearchRequest, default_limit: usize, today: CalendarDate) -> (r:
    Option<Result<PreparedSearchInput, SearchInputError>>)
    requires
        valid_date(today),
    ensures
        ({
            let range = date_range_of(opt_view(req.from), opt_view(req.to), today);
            if req.query is None && !has_search_filters(req) {
                r matches Some(Err(SearchInputError::NoQueryOrFilters))
            } else {
                match range {
                    DateRangeOutcome::Refused => r is None,
                    DateRangeOutcome::Unparsed(t) => r matches Some(
                        Err(SearchInputError::DateParse { input, error }),
                    ) && input@ == t && error@ == "Unable to parse date: '"@ + t + "'"@,
                    DateRangeOutcome::Reversed(f, t) => r matches Some(
                        Err(SearchInputError::InvalidDateRange { from, to }),
                    ) && from == f && to == t,
                    DateRangeOutcome::Range(f, t) => r matches Some(Ok(p)) && {
                        &&& p.limit == (match req.limit {
                            Some(l) => l,
                            None => default_limit,
                        })
                        &&& p.has_filters == has_search_filters(req)
                        &&& p.from_date == f
                        &&& p.to_date == t
                        &&& p.from_ts == start_seconds(f)
                        &&& p.to_ts == end_seconds(t)
                        &&& p.folder == req.folder
                        &&& p.tags == req.tags
                        &&& match req.query {
                            Some(q) => p.kind matches SearchKind::Query { query, mode } && query
                                == q && mode == search_mode_of(opt_view(req.mode)),
                            None => p.kind is Browse,
                        }
                    },
                }
            }
        }),
{
    let limit = match req.limit {
        Some(l) => l,
        None => default_limit,
    };
    let has_query = req.query.is_some();
    let has_tags = match &req.tags {
        Some(t) => t.len() > 0,
        None => false,
    };
    let has_filters = req.from.is_some() || req.to.is_some() || has_tags || req.folder.is_some();
    if !has_query && !has_filters {
        return Some(Err(SearchInputError::NoQueryOrFilters));
    }
    let (from_date, to_date) = match check_date_range(&req.from, &req.to, today) {
        RangeCheck::Refused => {
            return None;
        },
        RangeCheck::Unparsed(e) => {
            return Some(Err(parse_error(e)));
        },
        RangeCheck::Reversed(from, to) => {
            return Some(Err(SearchInputError::InvalidDateRange { from, to }));
        },
        RangeCheck::Range(f, t) => (f, t),
    };
    let from_ts = match from_date {
        Some(d) => Some(timestamp_at(d, 0, 0, 0)),
        None => None,
    };
    let to_ts = match to_date {
        Some(d) => Some(timestamp_at(d, 23, 59, 59)),
        None => None,
    };
    let kind = match req.query {
        Some(query) => {
            let mode = match &req.mode {
                Some(m) => if str_eq(m.as_str(), "vector") {
                    SearchMode::Vector
                } else if str_eq(m.as_str(), "fts") {
                    SearchMode::Fts
                } else {
                    SearchMode::Hybrid
                },
                None => SearchMode::Hybrid,
            };
            SearchKind::Query { query, mode }
        },
        None => SearchKind::Browse,
    };
    Some(
        Ok(
            PreparedSearchInput {
                kind,
                limit,
                has_filters,
                from_date,
                to_date,
                from_ts,
                to_ts,
                folder: req.folder,
                tags: req.tags,
            },
        ),
    )
}


/// A day as `NaiveDate` writes it, or `*` for none.
pub open spec fn opt_date_text(d: Option<CalendarDate>) -> Seq<char> {
    match d {
        Some(x) => crate::dates::date_text(x),
        None => "*"@,
    }
}

fn push_opt_date(out: &mut Vec<char>, d: Option<CalendarDate>)
    requires
        d matches Some(x) ==> valid_date(x),
    ensures
        final(out)@ == old(out)@ + opt_date_text(d),
{
    match d {
        Some(x) => {
            let t = x.to_iso_string();
            push_str(out, t.as_str());
        },
        None => push_str(out, "*"),
    }
}

impl PreparedSearchInput {
    /// The text recorded for a browse: its dates, folder and tags, `*` for each one absent.
    pub fn browse_event_query(&self) -> (r: String)
        requires
            self.from_date matches Some(x) ==> valid_date(x),
            self.to_date matches Some(x) ==> valid_date(x),
        ensures
            r@ == "[browse] from:"@ + opt_date_text(self.from_date) + " to:"@ + opt_date_text(
                self.to_date,
            ) + " folder:"@ + (match self.folder {
                Some(f) => f@,
                None => "*"@,
            }) + " tags:"@ + (match self.tags {
                Some(t) => join(str_views(t@), ","@),
                None => "*"@,
            }),
    {
        let mut v: Vec<char> = Vec::new();
        push_str(&mut v, "[browse] from:");
        push_opt_date(&mut v, self.from_date);
        push_str(&mut v, " to:");
        push_opt_date(&mut v, self.to_date);
        push_str(&mut v, " folder:");
        match &self.folder {
            Some(f) => push_str(&mut v, f.as_str()),
            None => push_str(&mut v, "*"),
        }
        push_str(&mut v, " tags:");
        match &self.tags {
            Some(t) => {
                let parts = chars_of_all(t.as_slice());
                let sep = chars_of(",");
                let joined = join_exec(&parts, &sep);
                push_all(&mut v, &joined);
            },
            None => push_str(&mut v, "*"),
        }
        string_of(&v)
    }
}


/// How many results a search asks the store for: with filters, `overfetch` times the limit
/// (filters drop some); without, the limit. A browse asks for `overfetch` times the limit when
/// a date or a folder narrows it, else at least `tags_only` (the tags are checked afterwards).
pub open spec fn fetch_limit_of(input: PreparedSearchInput, overfetch: usize, tags_only: usize) -> int {
    match input.kind {
        SearchKind::Query { .. } => if input.has_filters {
            input.limit * overfetch
        } else {
            input.limit as int
        },
        SearchKind::Browse => if input.from_ts is Some || input.to_ts is Some || input.folder is Some {
            input.limit * overfetch
        } else if tags_only >= input.limit * overfetch {
            tags_only as int
        } else {
            input.limit * overfetch
        },
    }
}

/// The number of results to fetch for a search, as `fetch_limit_of` states. The product of the
/// limit and `overfetch` must fit in a `usize`.
pub fn search_fetch_limit(input: &PreparedSearchInput, overfetch: usize, tags_only: usize) -> (r:
    usize)
    requires
        input.limit * overfetch <= usize::MAX,
    ensures
        r == fetch_limit_of(*input, overfetch, tags_only),
{
    match &input.kind {
        SearchKind::Query { .. } => {
            if input.has_filters {
                input.limit * overfetch
            } else {
                input.limit
            }
        },
        SearchKind::Browse => {
            let wide = input.limit * overfetch;
            if input.from_ts.is_some() || input.to_ts.is_some() || input.folder.is_some() {
                wide
            } else if tags_only >= wide {
                tags_only
            } else {
                wide
            }
        },
    }
}


// ---------------------------------------------------------------------------
// Filtering results
// ---------------------------------------------------------------------------

/// The document a path names: the last one with that path, as a map keyed by path keeps it.
pub open spec fn doc_at(docs: Seq<Seq<char>>, p: Seq<char>) -> Option<int>
    decreases docs.len(),
{
    if docs.len() == 0 {
        None
    } else if docs.last() == p {
        Some(docs.len() - 1)
    } else {
        doc_at(docs.drop_last(), p)
    }
}

/// The positions, among the first `k` results, of those whose note is a known document that
/// matches the filters (`ms`, one flag per document).
pub open spec fn passing(paths: Seq<Seq<char>>, docs: Seq<Seq<char>>, ms: Seq<bool>, k: nat) -> Seq<int>
    decreases k,
{
    if k == 0 {
        Seq::empty()
    } else {
        let t = passing(paths, docs, ms, (k - 1) as nat);
        match doc_at(docs, paths[k - 1]) {
            Some(d) => if ms[d] {
                t.push(k - 1)
            } else {
                t
            },
            None => t,
        }
    }
}

/// The positions of the results a filtered search keeps: those whose note is a known document
/// that matches the filters, in order, at most `limit` of them.
pub open spec fn kept_results(paths: Seq<Seq<char>>, docs: Seq<Seq<char>>, ms: Seq<bool>, limit: nat) -> Seq<int> {
    let all = passing(paths, docs, ms, paths.len());
    if limit < all.len() {
        all.take(limit as int)
    } else {
        all
    }
}

proof fn lemma_doc_at(docs: Seq<Seq<char>>, p: Seq<char>)
    ensures
        doc_at(docs, p) matches Some(d) ==> 0 <= d < docs.len() && docs[d] == p,
    decreases docs.len(),
{
    if docs.len() > 0 && docs.last() != p {
        lemma_doc_at(docs.drop_last(), p);
    }
}

fn doc_at_exec(docs: &Vec<String>, p: &String) -> (r: Option<usize>)
    ensures
        match r {
            Some(d) => doc_at(crate::text::str_views(docs@), p@) == Some(d as int),
            None => doc_at(crate::text::str_views(docs@), p@) is None,
        },
{
    let ghost dv = crate::text::str_views(docs@);
    let mut k: usize = docs.len();
    assert(dv.take(k as int) =~= dv);
    while k > 0
        invariant
            k <= docs.len(),
            dv == crate::text::str_views(docs@),
            doc_at(dv, p@) == doc_at(dv.take(k as int), p@),
        decreases k,
    {
        assert(dv.take(k as int).last() == docs@[k - 1]@);
        if crate::text::str_eq(docs[k - 1].as_str(), p.as_str()) {
            return Some(k - 1);
        }
        assert(dv.take(k as int).drop_last() =~= dv.take(k - 1));
        k = k - 1;
    }
    None
}

/// Keep the search results whose note is one of the documents (`docs`, by path) and matches
/// the filters (`doc_matches`, one flag per document), then at most `limit` of them. Returns
/// the positions of the kept results, in order.
pub fn keep_matching_results(
    result_paths: &Vec<String>,
    docs: &Vec<String>,
    doc_matches: &Vec<bool>,
    limit: usize,
) -> (r: Vec<usize>)
    requires
        doc_matches.len() == docs.len(),
    ensures
        r@.map_values(|i: usize| i as int) == kept_results(
            crate::text::str_views(result_paths@),
            crate::text::str_views(docs@),
            doc_matches@,
            limit as nat,
        ),
{
    let ghost ps = crate::text::str_views(result_paths@);
    let ghost dv = crate::text::str_views(docs@);
    let mut kept: Vec<usize> = Vec::new();
    let mut k: usize = 0;
    assert(kept@.map_values(|i: usize| i as int) =~= passing(ps, dv, doc_matches@, 0));
    while k < result_paths.len()
        invariant
            k <= result_paths.len(),
            doc_matches.len() == docs.len(),
            ps == crate::text::str_views(result_paths@),
            dv == crate::text::str_views(docs@),
            kept@.map_values(|i: usize| i as int) == passing(ps, dv, doc_matches@, k as nat),
        decreases result_paths.len() - k,
    {
        let ghost prev = kept@;
        assert(ps[k as int] == result_paths@[k as int]@);
        match doc_at_exec(docs, &result_paths[k]) {
            Some(d) => {
                proof {
                    lemma_doc_at(dv, ps[k as int]);
                }
                if doc_matches[d] {
                    kept.push(k);
                    assert(kept@.map_values(|i: usize| i as int) =~= prev.map_values(
                        |i: usize| i as int,
                    ).push(k as int));
                }
            },
            None => {},
        }
        k = k + 1;
    }
    assert(ps.len() == result_paths.len());
    kept.truncate(limit);
    proof {
        let all = passing(ps, dv, doc_matches@, ps.len());
        if limit < all.len() {
            assert(kept@.map_values(|i: usize| i as int) =~= all.take(limit as int));
        }
    }
    kept
}

/// The paths of the documents.
pub open spec fn note_paths(docs: Seq<TaggedNote>) -> Seq<Seq<char>> {
    docs.map_values(|n: TaggedNote| n.path@)
}

/// Whether each document passes the search filters: it lies in `folder` (at any depth), its
/// modification time is in the range asked for (`in_date_range`, one flag per document), and it
/// carries every required tag.
pub open spec fn search_doc_flags(
    docs: Seq<TaggedNote>,
    in_date_range: Seq<bool>,
    folder: Option<Seq<char>>,
    tags: Option<Seq<String>>,
) -> Seq<bool> {
    Seq::new(
        docs.len(),
        |d: int|
            in_folder(docs[d].path@, folder, true) && in_date_range[d] && match tags {
                Some(t) => has_all_tags(docs[d].tags@, t),
                None => true,
            },
    )
}

/// Filter search results by folder, date range and tags: keep those whose note is one of the
/// documents (by path) and passes the filters, then at most `limit` of them. Returns the
/// positions of the kept results, in order. The modification times are compared by the caller,
/// which gives `in_date_range`, one flag per document.
pub fn filter_search_results(
    result_paths: &Vec<String>,
    docs: &Vec<TaggedNote>,
    in_date_range: &Vec<bool>,
    folder: Option<&str>,
    tags: Option<&[String]>,
    limit: usize,
) -> (r: Vec<usize>)
    requires
        in_date_range.len() == docs.len(),
    ensures
        r@.map_values(|i: usize| i as int) == kept_results(
            str_views(result_paths@),
            note_paths(docs@),
            search_doc_flags(
                docs@,
                in_date_range@,
                opt_str(folder),
                match tags {
                    Some(t) => Some(t@),
                    None => None,
                },
            ),
            limit as nat,
        ),
{
    let ghost tv = match tags {
        Some(t) => Some(t@),
        None => None,
    };
    let ghost flags = search_doc_flags(docs@, in_date_range@, opt_str(folder), tv);
    let mut paths: Vec<String> = Vec::new();
    let mut matches: Vec<bool> = Vec::new();
    let mut d: usize = 0;
    while d < docs.len()
        invariant
            d <= docs.len(),
            in_date_range.len() == docs.len(),
            flags == search_doc_flags(docs@, in_date_range@, opt_str(folder), tv),
            tv == (match tags {
                Some(t) => Some(t@),
                None => None::<Seq<String>>,
            }),
            str_views(paths@) == note_paths(docs@).take(d as int),
            matches@ == flags.take(d as int),
        decreases docs.len() - d,
    {
        let p = docs[d].path.clone();
        let inside = path_in_folder(docs[d].path.as_str(), folder, true);
        let tagged = match tags {
            Some(t) => tags_match(docs[d].tags.as_slice(), t),
            None => true,
        };
        let ghost prev = paths@;
        paths.push(p);
        matches.push(inside && in_date_range[d] && tagged);
        assert(str_views(paths@) =~= str_views(prev).push(docs@[d as int].path@));
        assert(str_views(paths@) =~= note_paths(docs@).take(d + 1));
        assert(matches@ =~= flags.take(d + 1));
        d = d + 1;
    }
    assert(str_views(paths@) =~= note_paths(docs@));
    assert(matches@ =~= flags);
    keep_matching_results(result_paths, &paths, &matches, limit)
}

} // verus!

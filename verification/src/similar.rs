//! How many hits the similar-notes search asks the index for: a first fetch size, and after
//! each fetch whether to stop or to fetch again with a larger size; and validating a request.
use vstd::prelude::*;
use crate::dates::{timestamp_at, valid_date, CalendarDate};
use crate::inputs::{
    normalize_find_similar_path, parse_link_exclusion, parse_similar_aggregation,
    parse_similar_sort, similar_path_of, SimilarAggregation, SimilarLinkExclusion, SimilarSort,
};
use crate::search::{
    check_date_range, date_range_of, end_seconds, start_seconds, DateRangeOutcome, RangeCheck,
};
use crate::text::{chars_of, str_eq, str_views, string_of};
use crate::types::opt_view;

verus! {

/// The first fetch asks for this many hits per requested result...
pub const FIND_SIMILAR_FETCH_MULTIPLIER: usize = 20;

/// ...and for at least this many per query.
pub const FIND_SIMILAR_MIN_FETCH_PER_QUERY: usize = 200;

/// No fetch asks for more than this many hits per query.
pub const FIND_SIMILAR_MAX_FETCH_PER_QUERY: usize = 20_000;

/// `a * b`, or `usize::MAX` when that does not fit.
pub open spec fn sat_mul(a: usize, b: usize) -> usize {
    if a * b > usize::MAX {
        usize::MAX
    } else {
        (a * b) as usize
    }
}

fn saturating_mul(a: usize, b: usize) -> (r: usize)
    ensures
        r == sat_mul(a, b),
{
    match a.checked_mul(b) {
        Some(x) => x,
        None => usize::MAX,
    }
}

pub open spec fn max_usize(a: usize, b: usize) -> usize {
    if a >= b {
        a
    } else {
        b
    }
}

pub open spec fn min_usize(a: usize, b: usize) -> usize {
    if a <= b {
        a
    } else {
        b
    }
}

/// The first fetch size: 20 per requested result, at least 200.
pub open spec fn initial_fetch(requested_limit: usize) -> usize {
    max_usize(sat_mul(requested_limit, FIND_SIMILAR_FETCH_MULTIPLIER), FIND_SIMILAR_MIN_FETCH_PER_QUERY)
}

/// The largest fetch size: 16 per note of the vault, at least the first size, at most 20 000.
pub open spec fn max_fetch(doc_count: usize, requested_limit: usize) -> usize {
    min_usize(
        max_usize(sat_mul(doc_count, 16), initial_fetch(requested_limit)),
        FIND_SIMILAR_MAX_FETCH_PER_QUERY,
    )
}

/// The sizes of a search over `doc_count` notes for `requested_limit` results: the first
/// fetch size and the largest one.
pub fn fetch_plan(doc_count: usize, requested_limit: usize) -> (r: (usize, usize))
    ensures
        r.1 == max_fetch(doc_count, requested_limit),
        r.0 == min_usize(initial_fetch(requested_limit), r.1),
{
    let a = saturating_mul(requested_limit, FIND_SIMILAR_FETCH_MULTIPLIER);
    let initial = if a >= FIND_SIMILAR_MIN_FETCH_PER_QUERY {
        a
    } else {
        FIND_SIMILAR_MIN_FETCH_PER_QUERY
    };
    let b = saturating_mul(doc_count, 16);
    let wide = if b >= initial {
        b
    } else {
        initial
    };
    let most = if wide <= FIND_SIMILAR_MAX_FETCH_PER_QUERY {
        wide
    } else {
        FIND_SIMILAR_MAX_FETCH_PER_QUERY
    };
    let first = if initial <= most {
        initial
    } else {
        most
    };
    (first, most)
}

/// What to do after a fetch.
#[derive(Debug, Clone, Copy, PartialEq, Eq, Structural)]
pub enum FetchStep {
    /// Keep the hits; `truncated` when some query still filled the largest fetch.
    Done { truncated: bool },
    /// Fetch again with this size.
    Again(usize),
}

/// Whether some query got as many hits as were asked for.
pub open spec fn reached_cap(counts: Seq<usize>, fetch_limit: usize) -> bool {
    exists|q: int| 0 <= q < counts.len() && counts[q] >= fetch_limit
}

/// After a fetch of `fetch_limit` hits per query that gave `counts` hits to each query: done
/// when no query filled its fetch or the fetch was already the largest (truncated when both a
/// query filled it and it was the largest); else fetch again with twice the size, at most the
/// largest.
pub open spec fn fetch_step(counts: Seq<usize>, fetch_limit: usize, most: usize) -> FetchStep {
    let cap = reached_cap(counts, fetch_limit);
    if !cap || fetch_limit >= most {
        FetchStep::Done { truncated: cap && fetch_limit >= most }
    } else {
        FetchStep::Again(min_usize(sat_mul(fetch_limit, 2), most))
    }
}

pub fn next_fetch(counts: &Vec<usize>, fetch_limit: usize, most: usize) -> (r: FetchStep)
    ensures
        r == fetch_step(counts@, fetch_limit, most),
{
    let mut cap = false;
    let mut q: usize = 0;
    while q < counts.len()
        invariant
            q <= counts.len(),
            cap == exists|p: int| 0 <= p < q && counts@[p] >= fetch_limit,
        decreases counts.len() - q,
    {
        if counts[q] >= fetch_limit {
            cap = true;
        }
        q = q + 1;
    }
    if !cap || fetch_limit >= most {
        FetchStep::Done { truncated: cap && fetch_limit >= most }
    } else {
        let doubled = saturating_mul(fetch_limit, 2);
        FetchStep::Again(
            if doubled <= most {
                doubled
            } else {
                most
            },
        )
    }
}

/// Hits per query: how many of the hits' query indices name each of the `query_count` queries
/// (an index out of range counts for none).
pub open spec fn hit_count(query_indices: Seq<u32>, q: int) -> nat
    decreases query_indices.len(),
{
    if query_indices.len() == 0 {
        0
    } else {
        hit_count(query_indices.drop_last(), q) + if query_indices.last() == q {
            1nat
        } else {
            0nat
        }
    }
}

proof fn lemma_hit_count_le(query_indices: Seq<u32>, q: int)
    ensures
        hit_count(query_indices, q) <= query_indices.len(),
    decreases query_indices.len(),
{
    if query_indices.len() > 0 {
        lemma_hit_count_le(query_indices.drop_last(), q);
    }
}

/// Count the hits of each query, given the query index of each hit.
pub fn query_hit_counts(query_indices: &Vec<u32>, query_count: usize) -> (r: Vec<usize>)
    ensures
        r.len() == query_count,
        forall|q: int| 0 <= q < query_count ==> r@[q] == hit_count(query_indices@, q),
{
    let mut counts: Vec<usize> = Vec::new();
    while counts.len() < query_count
        invariant
            counts.len() <= query_count,
            forall|q: int| 0 <= q < counts.len() ==> counts@[q] == 0,
        decreases query_count - counts.len(),
    {
        counts.push(0);
    }
    let mut i: usize = 0;
    while i < query_indices.len()
        invariant
            i <= query_indices.len(),
            counts.len() == query_count,
            forall|q: int|
                0 <= q < query_count ==> counts@[q] == hit_count(query_indices@.take(i as int), q),
        decreases query_indices.len() - i,
    {
        let idx = query_indices[i] as usize;
        proof {
            assert(query_indices@.take(i + 1).drop_last() =~= query_indices@.take(i as int));
            assert(query_indices@.take(i + 1).last() == query_indices@[i as int]);
            lemma_hit_count_le(query_indices@.take(i as int), idx as int);
        }
        if idx < counts.len() {
            let c = counts[idx];
            counts.set(idx, c + 1);
        }
        i = i + 1;
    }
    assert(query_indices@.take(i as int) =~= query_indices@);
    counts
}

/// Each further fetch is larger than the one before and no larger than the largest, so the
/// fetching ends; a fetch of the largest size, or one that no query filled, is the last.
pub proof fn law_fetch_grows(counts: Seq<usize>, fetch_limit: usize, most: usize)
    requires
        fetch_limit > 0,
    ensures
        match fetch_step(counts, fetch_limit, most) {
            FetchStep::Again(next) => fetch_limit < next <= most,
            FetchStep::Done { truncated } => (fetch_limit >= most || !reached_cap(counts, fetch_limit))
                && (truncated <==> (fetch_limit >= most && reached_cap(counts, fetch_limit))),
        },
{
}


// ---------------------------------------------------------------------------
// The request
// ---------------------------------------------------------------------------

broadcast use vstd::string::group_string_axioms;

/// Find notes similar to a given note. Its similarity threshold, a float, is checked before
/// the rest of the request is.
#[derive(Debug)]
pub struct FindSimilarRequest {
    pub path: String,
    pub limit: Option<usize>,
    pub aggregation: Option<String>,
    pub sort: Option<String>,
    pub exclude_linked: Option<String>,
    pub tags: Option<Vec<String>>,
    pub from: Option<String>,
    pub to: Option<String>,
    pub folder: Option<String>,
}

/// The configured defaults of a similar-notes search (but the threshold).
#[derive(Debug)]
pub struct FindSimilarConfig {
    pub default_limit: usize,
    pub default_aggregation: String,
    pub default_exclude_linked: String,
}

impl Default for FindSimilarConfig {
    fn default() -> (r: Self)
        ensures
            r.default_limit == 10,
            r.default_aggregation@ == "max"@,
            r.default_exclude_linked@ == "outgoing"@,
    {
        FindSimilarConfig {
            default_limit: 10,
            default_aggregation: string_of(&chars_of("max")),
            default_exclude_linked: string_of(&chars_of("outgoing")),
        }
    }
}

/// A validated similar-notes request (the threshold is kept beside it).
#[derive(Debug)]
pub struct FindSimilarInput {
    pub path: String,
    pub limit: usize,
    pub aggregation: SimilarAggregation,
    pub sort: SimilarSort,
    pub exclude_linked: SimilarLinkExclusion,
    /// Start of the date range: midnight UTC, in seconds since the epoch.
    pub from_ts: Option<i64>,
    /// End of the date range: 23:59:59 UTC, in seconds since the epoch.
    pub to_ts: Option<i64>,
    pub folder: Option<String>,
    pub tags: Option<Vec<String>>,
}

#[derive(Debug)]
pub enum FindSimilarInputError {
    EmptyPath,
    LimitZero,
    /// The threshold lies outside 0 to 1.
    InvalidThreshold,
    InvalidAggregation(String),
    InvalidSort(String),
    InvalidExcludeLinked(String),
    DateParse { input: String, error: String },
    InvalidDateRange { from: CalendarDate, to: CalendarDate },
}

/// The requested text, else the default.
pub open spec fn or_default(o: Option<String>, default: Seq<char>) -> Seq<char> {
    match o {
        Some(s) => s@,
        None => default,
    }
}

fn as_text(o: &Option<String>) -> (r: Option<&str>)
    ensures
        forall|d: Seq<char>| #[trigger] crate::inputs::chosen(r, d) == or_default(*o, d),
{
    match o {
        Some(s) => Some(s.as_str()),
        None => None,
    }
}

/// Validate a similar-notes request, in this order: a path (trimmed, a wikilink's target
/// taken), a limit above zero (the configured one by default), a threshold between 0 and 1
/// (`threshold_in_range` says whether it is), the aggregation (`max` or `avg`, configured by
/// default), the sort (`similarity`, `recent` or `path`; `similarity` by default), the links
/// to exclude (`none`, `outgoing` or `both`, configured by default), and a date range read as a
/// search reads it. None only where a date would step out of the calendar.
pub fn prepare_find_similar_input(
    req: FindSimilarRequest,
    defaults: &FindSimilarConfig,
    threshold_in_range: bool,
    today: CalendarDate,
) -> (r: Option<Result<FindSimilarInput, FindSimilarInputError>>)
    requires
        valid_date(today),
    ensures
        ({
            let path = similar_path_of(req.path@);
            let limit = match req.limit {
                Some(l) => l,
                None => defaults.default_limit,
            };
            let agg = or_default(req.aggregation, defaults.default_aggregation@);
            let sort = or_default(req.sort, "similarity"@);
            let excl = or_default(req.exclude_linked, defaults.default_exclude_linked@);
            if path.len() == 0 {
                r matches Some(Err(FindSimilarInputError::EmptyPath))
            } else if limit == 0 {
                r matches Some(Err(FindSimilarInputError::LimitZero))
            } else if !threshold_in_range {
                r matches Some(Err(FindSimilarInputError::InvalidThreshold))
            } else if agg != "max"@ && agg != "avg"@ {
                r matches Some(Err(FindSimilarInputError::InvalidAggregation(t))) && t@ == agg
            } else if sort != "similarity"@ && sort != "recent"@ && sort != "path"@ {
                r matches Some(Err(FindSimilarInputError::InvalidSort(t))) && t@ == sort
            } else if excl != "none"@ && excl != "outgoing"@ && excl != "both"@ {
                r matches Some(Err(FindSimilarInputError::InvalidExcludeLinked(t))) && t@ == excl
            } else {
                match date_range_of(opt_view(req.from), opt_view(req.to), today) {
                    DateRangeOutcome::Refused => r is None,
                    DateRangeOutcome::Unparsed(t) => r matches Some(
                        Err(FindSimilarInputError::DateParse { input, error }),
                    ) && input@ == t && error@ == "Unable to parse date: '"@ + t + "'"@,
                    DateRangeOutcome::Reversed(f, t) => r matches Some(
                        Err(FindSimilarInputError::InvalidDateRange { from, to }),
                    ) && from == f && to == t,
                    DateRangeOutcome::Range(f, t) => r matches Some(Ok(i)) && {
                        &&& i.path@ == path
                        &&& i.limit == limit
                        &&& i.aggregation == (if agg == "max"@ {
                            SimilarAggregation::Max
                        } else {
                            SimilarAggregation::Avg
                        })
                        &&& i.sort == (if sort == "similarity"@ {
                            SimilarSort::Similarity
                        } else if sort == "recent"@ {
                            SimilarSort::Recent
                        } else {
                            SimilarSort::Path
                        })
                        &&& i.exclude_linked == (if excl == "none"@ {
                            SimilarLinkExclusion::NoneExcluded
                        } else if excl == "outgoing"@ {
                            SimilarLinkExclusion::Outgoing
                        } else {
                            SimilarLinkExclusion::Both
                        })
                        &&& i.from_ts == start_seconds(f)
                        &&& i.to_ts == end_seconds(t)
                        &&& i.folder == req.folder
                        &&& i.tags == req.tags
                    },
                }
            }
        }),
{
    let path = normalize_find_similar_path(req.path.as_str());
    if chars_of(path.as_str()).len() == 0 {
        return Some(Err(FindSimilarInputError::EmptyPath));
    }
    let limit = match req.limit {
        Some(l) => l,
        None => defaults.default_limit,
    };
    if limit == 0 {
        return Some(Err(FindSimilarInputError::LimitZero));
    }
    if !threshold_in_range {
        return Some(Err(FindSimilarInputError::InvalidThreshold));
    }
    let aggregation = match parse_similar_aggregation(
        as_text(&req.aggregation),
        defaults.default_aggregation.as_str(),
    ) {
        Ok(a) => a,
        Err(t) => {
            return Some(Err(FindSimilarInputError::InvalidAggregation(t)));
        },
    };
    let sort = match parse_similar_sort(as_text(&req.sort)) {
        Ok(s) => s,
        Err(t) => {
            return Some(Err(FindSimilarInputError::InvalidSort(t)));
        },
    };
    let exclude_linked = match parse_link_exclusion(
        as_text(&req.exclude_linked),
        defaults.default_exclude_linked.as_str(),
    ) {
        Ok(e) => e,
        Err(t) => {
            return Some(Err(FindSimilarInputError::InvalidExcludeLinked(t)));
        },
    };
    let (from_date, to_date) = match check_date_range(&req.from, &req.to, today) {
        RangeCheck::Refused => {
            return None;
        },
        RangeCheck::Unparsed(e) => {
            let error = e.message();
            return Some(Err(FindSimilarInputError::DateParse { input: e.input, error }));
        },
        RangeCheck::Reversed(from, to) => {
            return Some(Err(FindSimilarInputError::InvalidDateRange { from, to }));
        },
        RangeCheck::Range(f, t) => (f, t),
    };
    let from_ts = match from_date {
        Some(d) => Some(timestamp_at(d, 0, 0, 0)),
        None => None,
    };
    let to_ts = match to_date {
        Some(d) => Some(timestamp_at(d, 23, 59, 59)),
        None => None,
    };
    Some(
        Ok(
            FindSimilarInput {
                path,
                limit,
                aggregation,
                sort,
                exclude_linked,
                from_ts,
                to_ts,
                folder: req.folder,
                tags: req.tags,
            },
        ),
    )
}


// ---------------------------------------------------------------------------
// Leaving the source note and its linked notes out of the hits
// ---------------------------------------------------------------------------

/// Whether `x` is one of `v`.
pub fn contains_str(v: &Vec<String>, x: &str) -> (r: bool)
    ensures
        r == str_views(v@).contains(x@),
{
    let mut i: usize = 0;
    while i < v.len()
        invariant
            i <= v.len(),
            forall|j: int| 0 <= j < i ==> #[trigger] v@[j]@ != x@,
        decreases v.len() - i,
    {
        if str_eq(v[i].as_str(), x) {
            assert(str_views(v@)[i as int] == x@);
            return true;
        }
        i = i + 1;
    }
    assert forall|j: int| 0 <= j < str_views(v@).len() implies str_views(v@)[j] != x@ by {
        assert(str_views(v@)[j] == v@[j]@);
    }
    false
}

/// Whether the note at `p` is left out as linked to the source note: one of its outgoing links
/// unless nothing is left out, or one of its backlinks when both directions are.
pub open spec fn linked_out(
    p: Seq<char>,
    outgoing: Seq<String>,
    backlinks: Seq<String>,
    mode: SimilarLinkExclusion,
) -> bool {
    (mode != SimilarLinkExclusion::NoneExcluded && str_views(outgoing).contains(p)) || (mode
        == SimilarLinkExclusion::Both && str_views(backlinks).contains(p))
}

/// Which hits stay among the similar notes: not the source note itself, and not a note linked
/// to it in the directions that `mode` leaves out (one flag per hit, in order).
pub fn exclude_linked_hits(
    source_path: &str,
    outgoing: &Vec<String>,
    backlinks: &Vec<String>,
    mode: SimilarLinkExclusion,
    hit_paths: &Vec<String>,
) -> (r: Vec<bool>)
    ensures
        r.len() == hit_paths.len(),
        forall|i: int|
            0 <= i < hit_paths.len() ==> (#[trigger] r[i] <==> hit_paths[i]@ != source_path@ && !(
            mode != SimilarLinkExclusion::NoneExcluded && str_views(outgoing@).contains(
                hit_paths[i]@,
            )) && !(mode == SimilarLinkExclusion::Both && str_views(backlinks@).contains(
                hit_paths[i]@,
            ))),
{
    let mut r: Vec<bool> = Vec::new();
    let mut k: usize = 0;
    while k < hit_paths.len()
        invariant
            k <= hit_paths.len(),
            r.len() == k,
            forall|i: int|
                0 <= i < k ==> (#[trigger] r[i] <==> hit_paths[i]@ != source_path@ && !linked_out(
                    hit_paths[i]@,
                    outgoing@,
                    backlinks@,
                    mode,
                )),
        decreases hit_paths.len() - k,
    {
        let p = hit_paths[k].as_str();
        let keep = if str_eq(p, source_path) {
            false
        } else {
            let out = mode != SimilarLinkExclusion::NoneExcluded && contains_str(outgoing, p);
            let back = mode == SimilarLinkExclusion::Both && contains_str(backlinks, p);
            !out && !back
        };
        r.push(keep);
        k = k + 1;
    }
    r
}

/// The notes left out of the hits as linked to the source, each once, in the order of their
/// first hit.
pub open spec fn linked_hit_notes(
    source_path: Seq<char>,
    outgoing: Seq<String>,
    backlinks: Seq<String>,
    mode: SimilarLinkExclusion,
    hits: Seq<Seq<char>>,
) -> Seq<Seq<char>>
    decreases hits.len(),
{
    if hits.len() == 0 {
        Seq::empty()
    } else {
        let t = linked_hit_notes(source_path, outgoing, backlinks, mode, hits.drop_last());
        let p = hits.last();
        if p != source_path && linked_out(p, outgoing, backlinks, mode) && !t.contains(p) {
            t.push(p)
        } else {
            t
        }
    }
}

/// The distinct notes that the link exclusion left out of the hits (their number is reported
/// with the similar notes).
pub fn excluded_linked_notes(
    source_path: &str,
    outgoing: &Vec<String>,
    backlinks: &Vec<String>,
    mode: SimilarLinkExclusion,
    hit_paths: &Vec<String>,
) -> (r: Vec<String>)
    ensures
        str_views(r@) == linked_hit_notes(
            source_path@,
            outgoing@,
            backlinks@,
            mode,
            str_views(hit_paths@),
        ),
{
    let ghost hv = str_views(hit_paths@);
    let mut r: Vec<String> = Vec::new();
    let mut k: usize = 0;
    while k < hit_paths.len()
        invariant
            k <= hit_paths.len(),
            hv == str_views(hit_paths@),
            str_views(r@) == linked_hit_notes(source_path@, outgoing@, backlinks@, mode, hv.take(k as int)),
        decreases hit_paths.len() - k,
    {
        let p = hit_paths[k].as_str();
        assert(hv.take(k + 1).drop_last() =~= hv.take(k as int));
        assert(hv.take(k + 1).last() == p@);
        if !str_eq(p, source_path) {
            let out = mode != SimilarLinkExclusion::NoneExcluded && contains_str(outgoing, p);
            let back = mode == SimilarLinkExclusion::Both && contains_str(backlinks, p);
            if (out || back) && !contains_str(&r, p) {
                let ghost prev = r@;
                r.push(hit_paths[k].clone());
                assert(str_views(r@) =~= str_views(prev).push(p@));
            }
        }
        k = k + 1;
    }
    assert(hv.take(k as int) =~= hv);
    r
}

/// The notes the link exclusion counts are distinct, linked to the source, not the source, and
/// each among the hits; and every linked hit other than the source is counted.
pub proof fn law_linked_hits_counted_once(
    source_path: Seq<char>,
    outgoing: Seq<String>,
    backlinks: Seq<String>,
    mode: SimilarLinkExclusion,
    hits: Seq<Seq<char>>,
)
    ensures
        linked_hit_notes(source_path, outgoing, backlinks, mode, hits).no_duplicates(),
        forall|p: Seq<char>|
            #[trigger] linked_hit_notes(source_path, outgoing, backlinks, mode, hits).contains(p)
                <==> (hits.contains(p) && p != source_path && linked_out(p, outgoing, backlinks, mode)),
    decreases hits.len(),
{
    if hits.len() > 0 {
        let rest = hits.drop_last();
        law_linked_hits_counted_once(source_path, outgoing, backlinks, mode, rest);
        let t = linked_hit_notes(source_path, outgoing, backlinks, mode, rest);
        let q = hits.last();
        let cond = q != source_path && linked_out(q, outgoing, backlinks, mode) && !t.contains(q);
        let l = linked_hit_notes(source_path, outgoing, backlinks, mode, hits);
        if cond {
            assert(l == t.push(q));
            assert(l.no_duplicates()) by {
                assert forall|i: int, j: int| 0 <= i < l.len() && 0 <= j < l.len() && i != j implies l[i]
                    != l[j] by {
                    if i < t.len() && j < t.len() {
                        assert(l[i] == t[i] && l[j] == t[j]);
                    } else if i < t.len() {
                        assert(l[i] == t[i]);
                    } else if j < t.len() {
                        assert(l[j] == t[j]);
                    }
                }
            }
        } else {
            assert(l == t);
        }
        assert forall|p: Seq<char>| #[trigger] l.contains(p) <==> (hits.contains(p) && p != source_path
            && linked_out(p, outgoing, backlinks, mode)) by {
            if hits.contains(p) {
                let j = choose|j: int| 0 <= j < hits.len() && hits[j] == p;
                if j < hits.len() - 1 {
                    assert(rest[j] == p);
                }
            }
            if rest.contains(p) {
                let j = choose|j: int| 0 <= j < rest.len() && rest[j] == p;
                assert(hits[j] == p);
            }
            assert(hits[hits.len() - 1] == q);
            if cond {
                if l.contains(p) {
                    let j = choose|j: int| 0 <= j < l.len() && l[j] == p;
                    if j < t.len() {
                        assert(t[j] == p);
                    }
                }
                if t.contains(p) {
                    let j = choose|j: int| 0 <= j < t.len() && t[j] == p;
                    assert(l[j] == p);
                }
                if p == q {
                    assert(l[t.len() as int] == q);
                }
            }
        }
    }
}

} // verus!

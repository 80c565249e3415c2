//! Pieces of the link exploration and similar-notes tools: link directions and the
//! section named by a chunk's breadcrumb.
use vstd::prelude::*;
use crate::dates::{timestamp_at, valid_date, CalendarDate};
use crate::inputs::ExploreFilterMode;
use crate::search::{
    check_date_range, date_range_of, end_seconds, start_seconds, DateRangeOutcome, RangeCheck,
};
use crate::text::{chars_of, occurs_at, occurs_at_exec, slice_of, string_of, trim, trim_exec};
use crate::types::opt_view;

verus! {

broadcast use vstd::string::group_string_axioms;

/// How a note is linked to the one it was reached from.
#[derive(Debug, Clone, Copy, PartialEq, Eq, Structural)]
pub enum ConnectionDirection {
    Backlink,
    Outgoing,
    Both,
}

/// Two directions seen for one link combine: the same one stays, different ones make both.
pub open spec fn merged(a: ConnectionDirection, b: ConnectionDirection) -> ConnectionDirection {
    if a == b {
        a
    } else {
        ConnectionDirection::Both
    }
}

impl ConnectionDirection {
    pub fn merge(self, other: ConnectionDirection) -> (r: ConnectionDirection)
        ensures
            r == merged(self, other),
    {
        match (self, other) {
            (ConnectionDirection::Both, _) | (_, ConnectionDirection::Both) => ConnectionDirection::Both,
            (ConnectionDirection::Backlink, ConnectionDirection::Outgoing)
            | (ConnectionDirection::Outgoing, ConnectionDirection::Backlink) => ConnectionDirection::Both,
            (same, _) => same,
        }
    }

    pub fn arrow(self) -> (r: &'static str)
        ensures
            r@ == (match self {
                ConnectionDirection::Backlink => "←"@,
                ConnectionDirection::Outgoing => "→"@,
                ConnectionDirection::Both => "↔"@,
            }),
    {
        match self {
            ConnectionDirection::Backlink => "←",
            ConnectionDirection::Outgoing => "→",
            ConnectionDirection::Both => "↔",
        }
    }
}

/// Merging directions is commutative and idempotent.
pub proof fn law_merge_commutes_and_repeats(a: ConnectionDirection, b: ConnectionDirection)
    ensures
        merged(a, b) == merged(b, a),
        merged(a, a) == a,
        merged(merged(a, b), b) == merged(a, b),
{
}

/// The separator between the headings of a breadcrumb.
pub open spec fn crumb_sep() -> Seq<char> {
    seq![' ', '>', ' ']
}

/// The start of the last occurrence of `p` that begins before `n`.
pub open spec fn last_occurrence_before(s: Seq<char>, p: Seq<char>, n: nat) -> Option<int>
    decreases n,
{
    if n == 0 {
        None
    } else if occurs_at(s, p, n - 1) {
        Some(n - 1)
    } else {
        last_occurrence_before(s, p, (n - 1) as nat)
    }
}

/// The last part of a breadcrumb: what follows its last separator, trimmed.
pub open spec fn last_crumb(b: Seq<char>) -> Seq<char> {
    match last_occurrence_before(b, crumb_sep(), b.len()) {
        Some(i) => trim(b.skip(i + 3)),
        None => trim(b),
    }
}

proof fn lemma_last_occurrence_bound(s: Seq<char>, p: Seq<char>, n: nat)
    ensures
        match last_occurrence_before(s, p, n) {
            Some(i) => occurs_at(s, p, i) && 0 <= i < n,
            None => true,
        },
    decreases n,
{
    if n > 0 && !occurs_at(s, p, n - 1) {
        lemma_last_occurrence_bound(s, p, (n - 1) as nat);
    }
}

fn last_crumb_exec(b: &Vec<char>) -> (r: Vec<char>)
    ensures
        r@ == last_crumb(b@),
{
    let sep = vec![' ', '>', ' '];
    assert(sep@ =~= crumb_sep());
    let mut k = b.len();
    while k > 0
        invariant
            k <= b.len(),
            sep@ == crumb_sep(),
            last_occurrence_before(b@, crumb_sep(), b.len() as nat) == last_occurrence_before(
                b@,
                crumb_sep(),
                k as nat,
            ),
        decreases k,
    {
        if occurs_at_exec(b, &sep, k - 1) {
            proof {
                lemma_last_occurrence_bound(b@, crumb_sep(), k as nat);
            }
            let tail = slice_of(b, k + 2, b.len());
            assert(tail@ =~= b@.skip(k + 2));
            return trim_exec(&tail);
        }
        k = k - 1;
    }
    trim_exec(b)
}

/// Section named by a breadcrumb: its last part, unless that is empty.
pub fn section_from_breadcrumb(breadcrumb: &str) -> (r: Option<String>)
    ensures
        match r {
            Some(s) => last_crumb(breadcrumb@).len() > 0 && s@ == last_crumb(breadcrumb@),
            None => last_crumb(breadcrumb@).len() == 0,
        },
{
    let cs = chars_of(breadcrumb);
    let last = last_crumb_exec(&cs);
    if last.len() == 0 {
        None
    } else {
        Some(string_of(&last))
    }
}

/// Section named by the breadcrumb of a chunk of the note at `note_path`: its last part,
/// unless that is empty or is the note's path itself (a chunk before any heading).
pub fn note_section_from_breadcrumb(breadcrumb: &str, note_path: &str) -> (r: Option<String>)
    ensures
        match r {
            Some(s) => {
                &&& last_crumb(breadcrumb@).len() > 0
                &&& last_crumb(breadcrumb@) != note_path@
                &&& s@ == last_crumb(breadcrumb@)
            },
            None => last_crumb(breadcrumb@).len() == 0 || last_crumb(breadcrumb@) == note_path@,
        },
{
    let cs = chars_of(breadcrumb);
    let last = last_crumb_exec(&cs);
    let np = chars_of(note_path);
    if last.len() == 0 || crate::text::eq_chars(&last, &np) {
        None
    } else {
        Some(string_of(&last))
    }
}


// ---------------------------------------------------------------------------
// Exploration input
// ---------------------------------------------------------------------------

/// Explore the notes linked to and from a note.
#[derive(Debug)]
pub struct ExploreConnectionsRequest {
    pub path: String,
    pub depth: Option<usize>,
    pub limit: Option<usize>,
    pub dedup: Option<bool>,
    pub include_context: Option<bool>,
    pub filter_mode: Option<String>,
    pub tags: Option<Vec<String>>,
    pub from: Option<String>,
    pub to: Option<String>,
    pub folder: Option<String>,
}

/// The configured defaults of an exploration.
#[derive(Debug)]
pub struct ExploreConnectionsConfig {
    pub default_depth: usize,
    pub default_limit: usize,
    pub default_dedup: bool,
    pub default_include_context: bool,
    pub default_filter_mode: String,
}

impl Default for ExploreConnectionsConfig {
    fn default() -> (r: Self)
        ensures
            r.default_depth == 3,
            r.default_limit == 100,
            r.default_dedup,
            !r.default_include_context,
            r.default_filter_mode@ == "display"@,
    {
        ExploreConnectionsConfig {
            default_depth: 3,
            default_limit: 100,
            default_dedup: true,
            default_include_context: false,
            default_filter_mode: string_of(&chars_of("display")),
        }
    }
}

/// A validated exploration request.
#[derive(Debug)]
pub struct ExploreConnectionsInput {
    pub path: String,
    pub depth: usize,
    pub limit: usize,
    pub dedup: bool,
    pub include_context: bool,
    pub filter_mode: ExploreFilterMode,
    /// Start of the date range: midnight UTC, in seconds since the epoch.
    pub from_ts: Option<i64>,
    /// End of the date range: 23:59:59 UTC, in seconds since the epoch.
    pub to_ts: Option<i64>,
    pub folder: Option<String>,
    pub tags: Option<Vec<String>>,
}

#[derive(Debug)]
pub enum ExploreInputError {
    EmptyPath,
    DepthZero,
    LimitZero,
    DateParse { input: String, error: String },
    InvalidDateRange { from: CalendarDate, to: CalendarDate },
}

/// Validate an exploration: a non-blank path (trimmed), a depth and a limit above zero (the
/// configured ones by default), and a date range read as a search reads it. None only where a
/// date would step out of the calendar.
pub fn prepare_explore_connections_input(
    req: ExploreConnectionsRequest,
    defaults: &ExploreConnectionsConfig,
    today: CalendarDate,
) -> (r: Option<Result<ExploreConnectionsInput, ExploreInputError>>)
    requires
        valid_date(today),
    ensures
        ({
            let path = trim(req.path@);
            let depth = match req.depth {
                Some(d) => d,
                None => defaults.default_depth,
            };
            let limit = match req.limit {
                Some(l) => l,
                None => defaults.default_limit,
            };
            if path.len() == 0 {
                r matches Some(Err(ExploreInputError::EmptyPath))
            } else if depth == 0 {
                r matches Some(Err(ExploreInputError::DepthZero))
            } else if limit == 0 {
                r matches Some(Err(ExploreInputError::LimitZero))
            } else {
                match date_range_of(opt_view(req.from), opt_view(req.to), today) {
                    DateRangeOutcome::Refused => r is None,
                    DateRangeOutcome::Unparsed(t) => r matches Some(
                        Err(ExploreInputError::DateParse { input, error }),
                    ) && input@ == t && error@ == "Unable to parse date: '"@ + t + "'"@,
                    DateRangeOutcome::Reversed(f, t) => r matches Some(
                        Err(ExploreInputError::InvalidDateRange { from, to }),
                    ) && from == f && to == t,
                    DateRangeOutcome::Range(f, t) => r matches Some(Ok(i)) && {
                        &&& i.path@ == path
                        &&& i.depth == depth
                        &&& i.limit == limit
                        &&& i.dedup == (match req.dedup {
                            Some(b) => b,
                            None => defaults.default_dedup,
                        })
                        &&& i.include_context == (match req.include_context {
                            Some(b) => b,
                            None => defaults.default_include_context,
                        })
                        &&& i.filter_mode == (if (match req.filter_mode {
                            Some(m) => m@,
                            None => defaults.default_filter_mode@,
                        }) == "traverse"@ {
                            ExploreFilterMode::Traverse
                        } else {
                            ExploreFilterMode::Display
                        })
                        &&& i.from_ts == start_seconds(f)
                        &&& i.to_ts == end_seconds(t)
                        &&& i.folder == req.folder
                        &&& i.tags == req.tags
                    },
                }
            }
        }),
{
    let cs = chars_of(req.path.as_str());
    let trimmed = trim_exec(&cs);
    if trimmed.len() == 0 {
        return Some(Err(ExploreInputError::EmptyPath));
    }
    let depth = match req.depth {
        Some(d) => d,
        None => defaults.default_depth,
    };
    if depth == 0 {
        return Some(Err(ExploreInputError::DepthZero));
    }
    let limit = match req.limit {
        Some(l) => l,
        None => defaults.default_limit,
    };
    if limit == 0 {
        return Some(Err(ExploreInputError::LimitZero));
    }
    let (from_date, to_date) = match check_date_range(&req.from, &req.to, today) {
        RangeCheck::Refused => {
            return None;
        },
        RangeCheck::Unparsed(e) => {
            let error = e.message();
            return Some(Err(ExploreInputError::DateParse { input: e.input, error }));
        },
        RangeCheck::Reversed(from, to) => {
            return Some(Err(ExploreInputError::InvalidDateRange { from, to }));
        },
        RangeCheck::Range(f, t) => (f, t),
    };
    let from_ts = match from_date {
        Some(d) => Some(timestamp_at(d, 0, 0, 0)),
        None => None,
    };
    let to_ts = match to_date {
        Some(d) => Some(timestamp_at(d, 23, 59, 59)),
        None => None,
    };
    let dedup = match req.dedup {
        Some(b) => b,
        None => defaults.default_dedup,
    };
    let include_context = match req.include_context {
        Some(b) => b,
        None => defaults.default_include_context,
    };
    let mode_text: Option<&str> = match &req.filter_mode {
        Some(m) => Some(m.as_str()),
        None => None,
    };
    let filter_mode = ExploreFilterMode::from_request(
        mode_text,
        defaults.default_filter_mode.as_str(),
    );
    Some(
        Ok(
            ExploreConnectionsInput {
                path: string_of(&trimmed),
                depth,
                limit,
                dedup,
                include_context,
                filter_mode,
                from_ts,
                to_ts,
                folder: req.folder,
                tags: req.tags,
            },
        ),
    )
}

} // verus!

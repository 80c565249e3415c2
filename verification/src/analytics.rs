//! Measures of note text used by the vault analytics.
use vstd::prelude::*;
use crate::dates::{
    date_minus_days, day_number, day_time_seconds, minus_days, timestamp_at, valid_date,
    CalendarDate, FIRST_DAY,
};
use crate::text::{chars_of, is_whitespace, is_ws};

verus! {

broadcast use vstd::string::group_string_axioms;

/// Whether a word starts at `i`: a non-whitespace character at the start or after whitespace.
pub open spec fn word_starts_at(s: Seq<char>, i: int) -> bool {
    0 <= i < s.len() && !is_ws(s[i]) && (i == 0 || is_ws(s[i - 1]))
}

/// Number of words of `s`, the maximal runs of non-whitespace characters, counted by
/// their first characters.
pub open spec fn words_in(s: Seq<char>) -> nat
    decreases s.len(),
{
    if s.len() == 0 {
        0
    } else {
        words_in(s.drop_last()) + if word_starts_at(s, s.len() - 1) {
            1nat
        } else {
            0nat
        }
    }
}

/// Count words in text by splitting by whitespace.
pub fn word_count(text: &str) -> (r: usize)
    ensures
        r == words_in(text@),
{
    let cs = chars_of(text);
    let mut count: usize = 0;
    let mut prev_ws = true;
    let mut i: usize = 0;
    while i < cs.len()
        invariant
            i <= cs.len(),
            cs@ == text@,
            count <= i,
            count == words_in(cs@.take(i as int)),
            prev_ws == (i == 0 || is_ws(cs@[i - 1])),
        decreases cs.len() - i,
    {
        let ws = is_whitespace(cs[i]);
        let ghost t = cs@.take(i + 1);
        assert(t.drop_last() =~= cs@.take(i as int));
        assert(word_starts_at(t, i as int) == (!ws && prev_ws));
        if !ws && prev_ws {
            count = count + 1;
        }
        prev_ws = ws;
        i = i + 1;
    }
    assert(cs@.take(i as int) =~= cs@);
    count
}


// ---------------------------------------------------------------------------
// Recent context input
// ---------------------------------------------------------------------------

/// Days covered when the request gives none.
pub const DEFAULT_DAYS: u32 = 7;

/// Most days a request may cover.
pub const MAX_DAYS: u32 = 90;

/// Entries listed when the request gives no limit.
pub const DEFAULT_LIMIT: usize = 10;

/// Ask for what changed in the vault over the last days.
#[derive(Debug)]
pub struct RecentContextRequest {
    pub days: Option<u32>,
    pub limit: Option<usize>,
}

#[derive(Debug, Clone, Copy, PartialEq, Eq, Structural)]
pub enum RecentContextInputError {
    InvalidDays(u32),
    InvalidLimit(usize),
}

/// The period of the request and the one before it, as instants in seconds since the epoch.
#[derive(Debug)]
pub struct RecentContextInput {
    pub days: u32,
    pub limit: usize,
    pub from_ts: i64,
    pub to_ts: i64,
    pub prev_from_ts: i64,
    pub prev_to_ts: i64,
}

/// Validate the request: 1 to `MAX_DAYS` days (default `DEFAULT_DAYS`) ending with `today`,
/// and a limit above zero (default `DEFAULT_LIMIT`); the previous period is as long and ends
/// the day before. For a valid request, the previous period must not start before the
/// calendar's first day.
pub fn prepare_recent_context_input(req: RecentContextRequest, today: CalendarDate) -> (r: Result<
    RecentContextInput,
    RecentContextInputError,
>)
    requires
        valid_date(today),
        ({
            let days = match req.days {
                Some(d) => d,
                None => DEFAULT_DAYS,
            };
            let limit = match req.limit {
                Some(l) => l,
                None => DEFAULT_LIMIT,
            };
            (1 <= days <= MAX_DAYS && limit > 0) ==> day_number(today) - (2 * days - 1) >= FIRST_DAY
        }),
    ensures
        ({
            let days = match req.days {
                Some(d) => d,
                None => DEFAULT_DAYS,
            };
            let limit = match req.limit {
                Some(l) => l,
                None => DEFAULT_LIMIT,
            };
            if !(1 <= days <= MAX_DAYS) {
                r == Err::<RecentContextInput, _>(RecentContextInputError::InvalidDays(days))
            } else if limit == 0 {
                r == Err::<RecentContextInput, _>(RecentContextInputError::InvalidLimit(limit))
            } else {
                let first = date_minus_days(today, (days - 1) as u32);
                r matches Ok(i) && {
                    &&& i.days == days
                    &&& i.limit == limit
                    &&& i.from_ts == day_time_seconds(first, 0, 0, 0)
                    &&& i.to_ts == day_time_seconds(today, 23, 59, 59)
                    &&& i.prev_from_ts == day_time_seconds(date_minus_days(first, days), 0, 0, 0)
                    &&& i.prev_to_ts == day_time_seconds(date_minus_days(first, 1), 23, 59, 59)
                }
            }
        }),
{
    let days = match req.days {
        Some(d) => d,
        None => DEFAULT_DAYS,
    };
    let limit = match req.limit {
        Some(l) => l,
        None => DEFAULT_LIMIT,
    };
    if !(1 <= days && days <= MAX_DAYS) {
        return Err(RecentContextInputError::InvalidDays(days));
    }
    if limit == 0 {
        return Err(RecentContextInputError::InvalidLimit(limit));
    }
    let first = minus_days(today, days - 1);
    let from_ts = timestamp_at(first, 0, 0, 0);
    let to_ts = timestamp_at(today, 23, 59, 59);
    let prev_from = minus_days(first, days);
    let prev_to = minus_days(first, 1);
    let prev_from_ts = timestamp_at(prev_from, 0, 0, 0);
    let prev_to_ts = timestamp_at(prev_to, 23, 59, 59);
    Ok(RecentContextInput { days, limit, from_ts, to_ts, prev_from_ts, prev_to_ts })
}

} // verus!

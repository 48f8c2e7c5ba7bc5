//! Descriptive analytics over logged emotional-reflection events: the
//! records are bucketed by weekday, time-of-day band, calendar month,
//! day and week, emotion pairs are counted and ranked, and numeric
//! samples get exact order statistics. Every aggregator is a pure
//! function whose behaviour is stated in its contract and verified.

use vstd::prelude::*;

pub mod co_occurrence;
pub mod format;
pub mod grouping;
pub mod statistics;
pub mod strorder;
pub mod time_patterns;
pub mod timestamp;
pub mod trends;

verus! {

/// An exact quotient `num / den`; averages and percentages are handed out
/// unreduced so that nothing is rounded inside the library.
#[derive(Clone, Copy, PartialEq, Eq, Structural, Debug)]
pub struct Ratio {
    pub num: i128,
    pub den: usize,
}

/// One logged emotional event. Only `timestamp`, the primary emotion,
/// `intensity` and `relatedEmotions` feed the aggregators; the rest is
/// carried for the host.
#[derive(Clone, Debug)]
pub struct Reflection {
    pub timestamp: String,
    pub emotion_id: Option<String>,
    pub emotion_name: Option<String>,
    pub intensity: Option<i32>,
    pub related_emotions: Option<Vec<String>>,
    pub location: Option<Location>,
    pub people: Option<Vec<Person>>,
    pub coping_strategies: Option<Vec<String>>,
    pub mood_before: Option<i32>,
    pub mood_after: Option<i32>,
}

#[derive(Clone, Debug)]
pub struct Location {
    pub place_name: Option<String>,
    pub city: Option<String>,
    pub country: Option<String>,
}

#[derive(Clone, Debug)]
pub struct Person {
    pub id: Option<String>,
    pub name: Option<String>,
}

/// A ranked tally entry: one emotion and how often it was seen.
#[derive(Clone, Debug)]
pub struct EmotionCount {
    pub emotion_id: String,
    pub emotion_name: String,
    pub count: usize,
}

/// One bucket of a time-pattern dimension.
#[derive(Clone, Debug)]
pub struct TimePattern {
    pub period: String,
    pub count: usize,
    pub average_intensity: Option<Ratio>,
    pub top_emotions: Vec<EmotionCount>,
}

/// One bucket of a trend series.
#[derive(Clone, Debug)]
pub struct TrendDataPoint {
    pub date: String,
    pub count: usize,
    pub average_intensity: Option<Ratio>,
    pub top_emotion: Option<EmotionCount>,
}

#[derive(Clone, Debug)]
pub struct TrendsResult {
    pub daily: Vec<TrendDataPoint>,
    pub weekly: Vec<TrendDataPoint>,
    pub monthly: Vec<TrendDataPoint>,
}

#[derive(Clone, Debug)]
pub struct TimePatternsResult {
    pub day_of_week: Vec<TimePattern>,
    pub time_of_day: Vec<TimePattern>,
    pub month: Vec<TimePattern>,
}

/// How often an unordered pair of emotions was logged together, with its
/// share of all records as the exact quotient `count * 100 / total`.
#[derive(Debug)]
pub struct CoOccurrence {
    pub emotion_pair: (String, String),
    pub count: usize,
    pub percentage: Ratio,
}

/// Truncating division, as the `/` operator of Rust's signed integers has it.
pub open spec fn tdiv(a: int, b: int) -> int {
    if a >= 0 {
        a / b
    } else {
        -((-a) / b)
    }
}

/// Truncating remainder, as the `%` operator of Rust's signed integers has it.
pub open spec fn tmod(a: int, b: int) -> int {
    if a >= 0 {
        a % b
    } else {
        -((-a) % b)
    }
}

/// Weekday of a calendar date by Zeller's congruence, remapped so that
/// 0 stands for Sunday and 6 for Saturday.
pub open spec fn spec_weekday(year: int, month: int, day: int) -> int {
    let yy = if month < 3 {
        year - 1
    } else {
        year
    };
    let mm = if month < 3 {
        month + 12
    } else {
        month
    };
    let k = tmod(yy, 100);
    let j = tdiv(yy, 100);
    let h = tmod(day + tdiv(13 * (mm + 1), 5) + k + tdiv(k, 4) + tdiv(j, 4) - 2 * j, 7);
    tmod(h + 6, 7)
}

/// Weekday of a date, 0 = Sunday .. 6 = Saturday.
pub fn calculate_weekday(year: i32, month: u32, day: u32) -> (w: u32)
    ensures
        w == spec_weekday(year as int, month as int, day as int),
        w <= 6,
{
    let mut y: i64 = year as i64;
    let mut m: i64 = month as i64;
    if m < 3 {
        m = m + 12;
        y = y - 1;
    }
    let k: i64 = trunc_mod(y, 100);
    let j: i64 = trunc_div(y, 100);
    let s: i64 = (day as i64) + (13 * (m + 1)) / 5 + k + trunc_div(k, 4) + trunc_div(j, 4) - 2 * j;
    let h: i64 = trunc_mod(s, 7);
    ((h + 6) % 7) as u32
}

/// Truncating division on machine integers, matching `tdiv`.
pub(crate) fn trunc_div(a: i64, b: i64) -> (q: i64)
    requires
        b > 0,
        a > i64::MIN,
    ensures
        q == tdiv(a as int, b as int),
{
    if a >= 0 {
        a / b
    } else {
        -((-a) / b)
    }
}

/// Truncating remainder on machine integers, matching `tmod`.
pub(crate) fn trunc_mod(a: i64, b: i64) -> (r: i64)
    requires
        b > 0,
        a > i64::MIN,
    ensures
        r == tmod(a as int, b as int),
{
    if a >= 0 {
        a % b
    } else {
        -((-a) % b)
    }
}

} // verus!

use vstd::prelude::*;
use vstd::string::*;
use crate::{tmod, trunc_mod, Reflection, TrendDataPoint, TrendsResult, EmotionCount};
use crate::format::{spec_date_label, spec_month_label, spec_week_label, date_label, month_label,
    week_label};
use crate::grouping::{LObs, ObsV, obs_views, count_label, emo_count_label, first_name_label,
    avg_ok, distinct_labels, count_label_exec, bucket_average, bucket_emotions, sum_counts,
    lemma_label_partition};
use crate::strorder::{spec_str_le, str_le, lemma_str_le_total, lemma_str_le_trans};
use crate::time_patterns::{obs_of, emotion_fields};
use crate::timestamp::{parse_timestamp, SimpleDateTime};

verus! {

broadcast use vstd::seq_lib::group_to_multiset_ensures;

/// Leap years: divisible by 4 and either not by 100 or by 400.
pub open spec fn spec_is_leap(y: int) -> bool {
    (tmod(y, 4) == 0 && tmod(y, 100) != 0) || tmod(y, 400) == 0
}

fn is_leap(year: i32) -> (r: bool)
    ensures
        r == spec_is_leap(year as int),
{
    let y = year as i64;
    (trunc_mod(y, 4) == 0 && trunc_mod(y, 100) != 0) || trunc_mod(y, 400) == 0
}

/// Days of each month in a non-leap year.
pub open spec fn month_days(m: int) -> int {
    if m == 1 {
        31
    } else if m == 2 {
        28
    } else if m == 3 {
        31
    } else if m == 4 {
        30
    } else if m == 5 {
        31
    } else if m == 6 {
        30
    } else if m == 7 {
        31
    } else if m == 8 {
        31
    } else if m == 9 {
        30
    } else if m == 10 {
        31
    } else if m == 11 {
        30
    } else {
        31
    }
}

fn month_days_exec(m: u32) -> (d: u32)
    requires
        1 <= m <= 12,
    ensures
        d == month_days(m as int),
        28 <= d <= 31,
{
    if m == 1 {
        31
    } else if m == 2 {
        28
    } else if m == 3 {
        31
    } else if m == 4 {
        30
    } else if m == 5 {
        31
    } else if m == 6 {
        30
    } else if m == 7 {
        31
    } else if m == 8 {
        31
    } else if m == 9 {
        30
    } else if m == 10 {
        31
    } else if m == 11 {
        30
    } else {
        31
    }
}

/// The non-leap days before month `m`; months beyond the calendar add
/// nothing further.
pub open spec fn days_before(m: int) -> int
    decreases
            (if m > 13 {
                14int
            } else if m > 0 {
                m
            } else {
                0int
            }),
{
    if m <= 1 {
        0
    } else if m > 13 {
        days_before(13)
    } else {
        days_before(m - 1) + month_days(m - 1)
    }
}

proof fn lemma_days_before_bound(m: int)
    ensures
        0 <= days_before(m),
        days_before(m) <= 31 * (if m > 13 {
            12int
        } else if m > 1 {
            m - 1
        } else {
            0int
        }),
    decreases
            (if m > 13 {
                14int
            } else if m > 0 {
                m
            } else {
                0int
            }),
{
    if m > 13 {
        lemma_days_before_bound(13);
    } else if m > 1 {
        lemma_days_before_bound(m - 1);
    }
}

/// The day of the year, counted with the fixed month table, one more after
/// February in a leap year.
pub open spec fn spec_doy(y: int, m: int, d: int) -> int {
    d + days_before(m) + (if spec_is_leap(y) && m > 2 {
        1int
    } else {
        0int
    })
}

/// The week number: `ceil(day-of-year / 7)`.
pub open spec fn spec_week(y: int, m: int, d: int) -> int {
    (spec_doy(y, m, d) + 6) / 7
}

/// The `YYYY-Www` key of a date. The week number is the ceiling of the
/// day-of-year over seven; the label sorts chronologically only within one
/// year and for two-digit week numbers, which is preserved as given.
pub fn get_week_key(year: i32, month: u32, day: u32) -> (r: String)
    ensures
        r@ == spec_week_label(
            year as int,
            spec_week(year as int, month as int, day as int),
        ),
{
    let mut acc: u64 = 0;
    let mut m: u32 = 1;
    while m < month && m <= 12
        invariant
            1 <= m <= 13,
            month == 0 ==> m == 1,
            month == 0 || m <= month,
            acc == days_before(m as int),
            acc <= 372,
        decreases 13 - m,
    {
        proof {
            lemma_days_before_bound(m as int);
            lemma_days_before_bound(m + 1);
        }
        acc = acc + (month_days_exec(m) as u64);
        m = m + 1;
    }
    proof {
        if month == 0 {
            assert(days_before(0int) == 0 && days_before(1int) == 0);
        } else if m as int == month as int {
        } else {
            assert(m == 13 && month >= 13);
            assert(days_before(month as int) == days_before(13int));
        }
        assert(acc == days_before(month as int));
    }
    let leap = is_leap(year);
    let doy: u64 = (day as u64) + acc + (if leap && month > 2 {
        1u64
    } else {
        0u64
    });
    let week64: u64 = (doy + 6) / 7;
    proof {
        vstd::arithmetic::div_mod::lemma_div_is_ordered((doy + 6) as int, 4294967674int, 7);
        assert(week64 < 0x1_0000_0000u64);
    }
    let week: u32 = week64 as u32;
    week_label(year, week)
}

pub open spec fn daily_labf() -> spec_fn(SimpleDateTime) -> Seq<char> {
    |dt: SimpleDateTime| spec_date_label(dt.year as int, dt.month as int, dt.day as int)
}

pub open spec fn weekly_labf() -> spec_fn(SimpleDateTime) -> Seq<char> {
    |dt: SimpleDateTime|
        spec_week_label(dt.year as int, spec_week(dt.year as int, dt.month as int, dt.day as int))
}

pub open spec fn monthly_labf() -> spec_fn(SimpleDateTime) -> Seq<char> {
    |dt: SimpleDateTime| spec_month_label(dt.year as int, dt.month as int)
}

pub open spec fn daily_obs(rs: Seq<Reflection>) -> Seq<ObsV> {
    obs_of(rs, daily_labf())
}

pub open spec fn weekly_obs(rs: Seq<Reflection>) -> Seq<ObsV> {
    obs_of(rs, weekly_labf())
}

pub open spec fn monthly_obs(rs: Seq<Reflection>) -> Seq<ObsV> {
    obs_of(rs, monthly_labf())
}

/// One pass over the records, filling the three series' observations.
fn build_trend_obs(rs: &Vec<Reflection>) -> (r: (Vec<LObs>, Vec<LObs>, Vec<LObs>))
    ensures
        obs_views(r.0@) == daily_obs(rs@),
        obs_views(r.1@) == weekly_obs(rs@),
        obs_views(r.2@) == monthly_obs(rs@),
{
    let mut dailyv: Vec<LObs> = Vec::new();
    let mut weeklyv: Vec<LObs> = Vec::new();
    let mut monthlyv: Vec<LObs> = Vec::new();
    let mut i: usize = 0;
    proof {
        assert(rs@.take(0) =~= Seq::<Reflection>::empty());
        assert(obs_views(dailyv@) =~~= daily_obs(rs@.take(0)));
        assert(obs_views(weeklyv@) =~~= weekly_obs(rs@.take(0)));
        assert(obs_views(monthlyv@) =~~= monthly_obs(rs@.take(0)));
    }
    while i < rs.len()
        invariant
            i <= rs@.len(),
            obs_views(dailyv@) == daily_obs(rs@.take(i as int)),
            obs_views(weeklyv@) == weekly_obs(rs@.take(i as int)),
            obs_views(monthlyv@) == monthly_obs(rs@.take(i as int)),
        decreases rs@.len() - i,
    {
        proof {
            assert(rs@.take(i + 1).drop_last() =~= rs@.take(i as int));
            assert(rs@.take(i + 1).last() == rs@[i as int]);
        }
        match parse_timestamp(rs[i].timestamp.as_str()) {
            Option::Some(dt) => {
                let (eid, ename) = emotion_fields(&rs[i]);
                let dlab = date_label(dt.year, dt.month, dt.day);
                let wlab = get_week_key(dt.year, dt.month, dt.day);
                let mlab = month_label(dt.year, dt.month);
                dailyv.push(
                    LObs {
                        label: dlab,
                        intensity: rs[i].intensity,
                        eid: eid.clone(),
                        ename: ename.clone(),
                    },
                );
                weeklyv.push(
                    LObs {
                        label: wlab,
                        intensity: rs[i].intensity,
                        eid: eid.clone(),
                        ename: ename.clone(),
                    },
                );
                monthlyv.push(LObs { label: mlab, intensity: rs[i].intensity, eid, ename });
                proof {
                    assert(obs_views(dailyv@) =~~= daily_obs(rs@.take(i + 1)));
                    assert(obs_views(weeklyv@) =~~= weekly_obs(rs@.take(i + 1)));
                    assert(obs_views(monthlyv@) =~~= monthly_obs(rs@.take(i + 1)));
                }
            },
            Option::None => {
                proof {
                    assert(daily_obs(rs@.take(i + 1)) == daily_obs(rs@.take(i as int)));
                    assert(weekly_obs(rs@.take(i + 1)) == weekly_obs(rs@.take(i as int)));
                    assert(monthly_obs(rs@.take(i + 1)) == monthly_obs(rs@.take(i as int)));
                }
            },
        }
        i = i + 1;
    }
    proof {
        assert(rs@.take(rs@.len() as int) =~= rs@);
    }
    (dailyv, weeklyv, monthlyv)
}

/// The single highest-count emotion of a bucket, with its first-brought
/// display name; no emotion in the bucket counts more often.
pub open spec fn trend_top_ok(s: Seq<ObsV>, lab: Seq<char>, top: Option<EmotionCount>) -> bool {
    match top {
        Option::Some(e) => {
            &&& e.count == emo_count_label(s, lab, e.emotion_id@)
            &&& e.count >= 1
            &&& first_name_label(s, lab, e.emotion_id@) == Option::Some(e.emotion_name@)
            &&& forall|id: Seq<char>| #[trigger] emo_count_label(s, lab, id) <= e.count
        },
        Option::None => false,
    }
}

/// What every trend series promises: one point per occurring label with the
/// bucket's count, average intensity and top emotion, the points ordered by
/// ascending label.
pub open spec fn trends_ok(s: Seq<ObsV>, out: Seq<TrendDataPoint>) -> bool {
    &&& forall|k: int|
        0 <= k < out.len() ==> {
            &&& (#[trigger] out[k]).count == count_label(s, out[k].date@)
            &&& out[k].count >= 1
            &&& avg_ok(s, out[k].date@, out[k].average_intensity)
            &&& trend_top_ok(s, out[k].date@, out[k].top_emotion)
        }
    &&& forall|k: int, l: int|
        0 <= k < l < out.len() ==> (#[trigger] out[k]).date@ != (#[trigger] out[l]).date@
    &&& forall|lab: Seq<char>|
        #[trigger] count_label(s, lab) > 0 <==> exists|k: int|
            0 <= k < out.len() && (#[trigger] out[k]).date@ == lab
    &&& forall|i: int, j: int|
        0 <= i < j < out.len() ==> spec_str_le((#[trigger] out[i]).date@, (#[trigger] out[j]).date@)
}

/// A bucket that holds a record holds its emotion.
proof fn lemma_bucket_has_emotion(s: Seq<ObsV>, lab: Seq<char>)
    requires
        count_label(s, lab) > 0,
    ensures
        exists|id: Seq<char>| #[trigger] emo_count_label(s, lab, id) > 0,
    decreases s.len(),
{
    if s.last().label == lab {
        assert(emo_count_label(s, lab, s.last().eid) > 0);
    } else {
        lemma_bucket_has_emotion(s.drop_last(), lab);
        let id = choose|id: Seq<char>| #[trigger] emo_count_label(s.drop_last(), lab, id) > 0;
        assert(emo_count_label(s, lab, id) > 0);
    }
}

proof fn lemma_dup_count_trend(s: Seq<TrendDataPoint>, k: int, l: int)
    requires
        0 <= k < l < s.len(),
        s[k] == s[l],
    ensures
        s.to_multiset().count(s[k]) >= 2,
{
    broadcast use vstd::multiset::group_multiset_axioms;

    let s2 = s.remove(k);
    assert(s2[l - 1] == s[l]);
    assert(s2.contains(s[l]));
    assert(s2.to_multiset().count(s[k]) >= 1);
    assert(s.to_multiset().count(s[k]) == s2.to_multiset().count(s[k]) + 1);
}

pub open spec fn trend_sorted(out: Seq<TrendDataPoint>) -> bool {
    forall|i: int, j: int|
        0 <= i < j < out.len() ==> spec_str_le((#[trigger] out[i]).date@, (#[trigger] out[j]).date@)
}

fn insert_trend(out: &mut Vec<TrendDataPoint>, x: TrendDataPoint)
    requires
        trend_sorted(old(out)@),
    ensures
        trend_sorted(final(out)@),
        final(out)@.to_multiset() == old(out)@.to_multiset().insert(x),
        final(out)@.len() == old(out)@.len() + 1,
{
    let mut k = out.len();
    let mut scanning = true;
    while scanning && k > 0
        invariant
            k <= out@.len(),
            out@ == old(out)@,
            forall|j: int| k <= j < out@.len() ==> !spec_str_le((#[trigger] out@[j]).date@, x.date@),
            !scanning ==> k > 0 && spec_str_le(out@[k - 1].date@, x.date@),
        decreases (k as int) + (if scanning {
            1int
        } else {
            0int
        }),
    {
        if str_le(out[k - 1].date.as_str(), x.date.as_str()) {
            scanning = false;
        } else {
            k = k - 1;
        }
    }
    out.insert(k, x);
    proof {
        let t = old(out)@;
        assert(out@ =~= t.take(k as int) + seq![x] + t.skip(k as int));
        assert forall|i: int, j: int| 0 <= i < j < out@.len() implies spec_str_le(
            (#[trigger] out@[i]).date@,
            (#[trigger] out@[j]).date@,
        ) by {
            if i < k && j == k {
                assert(out@[i] == t[i]);
                if i < k - 1 {
                    lemma_str_le_trans(t[i].date@, t[k - 1].date@, x.date@);
                }
            } else if i == k && j > k {
                assert(out@[j] == t[j - 1]);
                lemma_str_le_total(t[j - 1].date@, x.date@);
            } else if i < k && j > k {
                assert(out@[i] == t[i] && out@[j] == t[j - 1]);
            }
        }
    }
}

/// The buckets of one series: one point per occurring label, ordered by
/// ascending label string.
pub fn build_trends(obs: &Vec<LObs>) -> (out: Vec<TrendDataPoint>)
    ensures
        trends_ok(obs_views(obs@), out@),
{
    let ghost s = obs_views(obs@);
    let labs = distinct_labels(obs);
    let mut entries: Vec<TrendDataPoint> = Vec::new();
    let mut t: usize = 0;
    while t < labs.len()
        invariant
            t <= labs@.len(),
            s == obs_views(obs@),
            forall|k: int, l: int| 0 <= k < l < labs@.len() ==> (#[trigger] labs@[k])@ != (
            #[trigger] labs@[l])@,
            forall|lab: Seq<char>|
                (exists|k: int| 0 <= k < labs@.len() && (#[trigger] labs@[k])@ == lab)
                    <==> #[trigger] count_label(s, lab) > 0,
            entries@.len() == t,
            forall|k: int| 0 <= k < t ==> (#[trigger] entries@[k]).date@ == (labs@[k])@,
            forall|k: int|
                0 <= k < t ==> {
                    &&& (#[trigger] entries@[k]).count == count_label(s, entries@[k].date@)
                    &&& entries@[k].count >= 1
                    &&& avg_ok(s, entries@[k].date@, entries@[k].average_intensity)
                    &&& trend_top_ok(s, entries@[k].date@, entries@[k].top_emotion)
                },
        decreases labs@.len() - t,
    {
        let c = count_label_exec(obs, &labs[t]);
        let avg = bucket_average(obs, &labs[t]);
        let mut tally = bucket_emotions(obs, &labs[t]);
        proof {
            assert(count_label(s, (labs@[t as int])@) > 0);
            lemma_bucket_has_emotion(s, (labs@[t as int])@);
            let id = choose|id: Seq<char>| #[trigger] emo_count_label(s, (labs@[t as int])@, id)
                > 0;
            assert(exists|k: int|
                0 <= k < tally@.len() && (#[trigger] tally@[k]).emotion_id@ == id);
        }
        let ghost full = tally@;
        let top = tally.remove(0);
        proof {
            assert(top == full[0]);
            assert forall|id: Seq<char>| #[trigger] emo_count_label(s, (labs@[t as int])@, id)
                <= top.count by {
                if emo_count_label(s, (labs@[t as int])@, id) > 0 {
                    let k = choose|k: int|
                        0 <= k < full.len() && (#[trigger] full[k]).emotion_id@ == id;
                    assert(full[k].count == emo_count_label(s, (labs@[t as int])@, id));
                    if k > 0 {
                        assert(full[0].count >= full[k].count);
                    }
                }
            }
        }
        entries.push(
            TrendDataPoint {
                date: labs[t].clone(),
                count: c,
                average_intensity: avg,
                top_emotion: Option::Some(top),
            },
        );
        t = t + 1;
    }
    let ghost entries0 = entries@;
    let mut rest = entries;
    let mut sorted: Vec<TrendDataPoint> = Vec::new();
    proof {
        assert(entries0.skip(entries0.len() as int) =~= Seq::<TrendDataPoint>::empty());
    }
    while rest.len() > 0
        invariant
            rest@ == entries0.take(rest@.len() as int),
            trend_sorted(sorted@),
            sorted@.to_multiset() == entries0.skip(rest@.len() as int).to_multiset(),
            sorted@.len() + rest@.len() == entries0.len(),
        decreases rest@.len(),
    {
        let ghost m = rest@.len() as int;
        let e = rest.pop().unwrap();
        proof {
            assert(rest@ =~= entries0.take(m - 1));
            assert(e == entries0[m - 1]);
            assert(entries0.skip(m - 1) =~= entries0.skip(m).insert(0, entries0[m - 1]));
        }
        insert_trend(&mut sorted, e);
    }
    proof {
        assert(entries0.skip(0) =~= entries0);
        assert forall|k: int, l: int|
            0 <= k < l < entries0.len() implies entries0[k] != entries0[l] by {
            assert((labs@[k])@ != (labs@[l])@);
        }
        entries0.lemma_multiset_has_no_duplicates();
        assert forall|k: int| 0 <= k < sorted@.len() implies {
            &&& (#[trigger] sorted@[k]).count == count_label(s, sorted@[k].date@)
            &&& sorted@[k].count >= 1
            &&& avg_ok(s, sorted@[k].date@, sorted@[k].average_intensity)
            &&& trend_top_ok(s, sorted@[k].date@, sorted@[k].top_emotion)
        } by {
            assert(sorted@.to_multiset().count(sorted@[k]) > 0);
            assert(entries0.contains(sorted@[k]));
        }
        assert forall|k: int, l: int|
            0 <= k < l < sorted@.len() implies (#[trigger] sorted@[k]).date@ != (
        #[trigger] sorted@[l]).date@ by {
            let e1 = sorted@[k];
            let e2 = sorted@[l];
            if e1.date@ == e2.date@ {
                assert(sorted@.to_multiset().count(e1) > 0);
                assert(entries0.contains(e1));
                assert(sorted@.to_multiset().count(e2) > 0);
                assert(entries0.contains(e2));
                let j1 = choose|j: int| 0 <= j < entries0.len() && entries0[j] == e1;
                let j2 = choose|j: int| 0 <= j < entries0.len() && entries0[j] == e2;
                if j1 != j2 {
                    assert((labs@[j1])@ != (labs@[j2])@);
                    assert((labs@[j1])@ == e1.date@);
                    assert((labs@[j2])@ == e2.date@);
                } else {
                    assert(e1 == e2);
                    lemma_dup_count_trend(sorted@, k, l);
                    assert(entries0.to_multiset().count(e1) >= 2);
                    assert(entries0.to_multiset().count(e1) == 1);
                }
            }
        }
        assert forall|lab: Seq<char>| #[trigger] count_label(s, lab) > 0 implies exists|k: int|
            0 <= k < sorted@.len() && (#[trigger] sorted@[k]).date@ == lab by {
            let k = choose|k: int| 0 <= k < labs@.len() && (#[trigger] labs@[k])@ == lab;
            let e = entries0[k];
            assert(e.date@ == lab);
            assert(entries0.to_multiset().count(e) > 0);
            assert(sorted@.contains(e));
            let k2 = choose|k2: int| 0 <= k2 < sorted@.len() && sorted@[k2] == e;
            assert((sorted@[k2]).date@ == lab);
        }
        assert forall|lab: Seq<char>|
            (exists|k: int| 0 <= k < sorted@.len() && (#[trigger] sorted@[k]).date@ == lab)
                implies #[trigger] count_label(s, lab) > 0 by {
            let k = choose|k: int| 0 <= k < sorted@.len() && (#[trigger] sorted@[k]).date@ == lab;
            assert(sorted@[k].count >= 1);
        }
    }
    sorted
}

/// Buckets the records with a parseable timestamp by calendar day, week key
/// and calendar month, each series ordered by ascending label string.
pub fn compute_trends(reflections: &Vec<Reflection>) -> (r: TrendsResult)
    ensures
        trends_ok(daily_obs(reflections@), r.daily@),
        trends_ok(weekly_obs(reflections@), r.weekly@),
        trends_ok(monthly_obs(reflections@), r.monthly@),
{
    let (dailyv, weeklyv, monthlyv) = build_trend_obs(reflections);
    let daily = build_trends(&dailyv);
    let weekly = build_trends(&weeklyv);
    let monthly = build_trends(&monthlyv);
    TrendsResult { daily, weekly, monthly }
}

/// The sum of the bucket counts of one series.
pub open spec fn trends_count_sum(out: Seq<TrendDataPoint>) -> nat
    decreases out.len(),
{
    if out.len() == 0 {
        0
    } else {
        trends_count_sum(out.drop_last()) + out.last().count as nat
    }
}

/// In any trend series, the bucket counts add up to the number of records
/// with a parseable timestamp: buckets partition those records.
pub proof fn lemma_trends_partition(s: Seq<ObsV>, out: Seq<TrendDataPoint>)
    requires
        trends_ok(s, out),
    ensures
        trends_count_sum(out) == s.len(),
{
    let labs = out.map_values(|p: TrendDataPoint| p.date@);
    assert forall|lab: Seq<char>| #[trigger] count_label(s, lab) > 0 implies exists|k: int|
        0 <= k < labs.len() && labs[k] == lab by {
        let k = choose|k: int| 0 <= k < out.len() && (#[trigger] out[k]).date@ == lab;
        assert(labs[k] == lab);
    }
    lemma_label_partition(s, labs);
    lemma_trends_sum_eq(s, out);
}

proof fn lemma_trends_sum_eq(s: Seq<ObsV>, out: Seq<TrendDataPoint>)
    requires
        forall|k: int|
            0 <= k < out.len() ==> (#[trigger] out[k]).count == count_label(s, out[k].date@),
    ensures
        trends_count_sum(out) == sum_counts(s, out.map_values(|p: TrendDataPoint| p.date@)),
    decreases out.len(),
{
    if out.len() > 0 {
        lemma_trends_sum_eq(s, out.drop_last());
        let labs = out.map_values(|p: TrendDataPoint| p.date@);
        assert(labs.drop_last() =~= out.drop_last().map_values(|p: TrendDataPoint| p.date@));
        assert(labs.last() == out.last().date@);
    }
}

} // verus!

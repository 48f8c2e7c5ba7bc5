use vstd::prelude::*;
use vstd::string::*;
use crate::{EmotionCount, Reflection, TimePattern, TimePatternsResult};
use crate::format::spec_month_label;
use crate::format::month_label;
use crate::grouping::{LObs, ObsV, obs_views, count_label, emo_count_label, avg_ok, tally_ok,
    tally_complete, distinct_labels, count_label_exec, bucket_average, bucket_emotions,
    sum_counts, lemma_label_partition};
use crate::timestamp::{spec_parse_timestamp, parse_timestamp, SimpleDateTime, seq_views};

verus! {

broadcast use vstd::seq_lib::group_to_multiset_ensures;

/// The seven weekday bucket labels, Sunday first.
pub open spec fn spec_day_name(w: int) -> Seq<char> {
    if w == 0 {
        "sunday"@
    } else if w == 1 {
        "monday"@
    } else if w == 2 {
        "tuesday"@
    } else if w == 3 {
        "wednesday"@
    } else if w == 4 {
        "thursday"@
    } else if w == 5 {
        "friday"@
    } else {
        "saturday"@
    }
}

pub fn day_name(w: u32) -> (r: &'static str)
    ensures
        r@ == spec_day_name(w as int),
{
    if w == 0 {
        "sunday"
    } else if w == 1 {
        "monday"
    } else if w == 2 {
        "tuesday"
    } else if w == 3 {
        "wednesday"
    } else if w == 4 {
        "thursday"
    } else if w == 5 {
        "friday"
    } else {
        "saturday"
    }
}

/// The four time-of-day bands: morning `[5,12)`, afternoon `[12,17)`,
/// evening `[17,22)`, night otherwise.
pub open spec fn spec_tod_name(h: int) -> Seq<char> {
    if 5 <= h < 12 {
        "morning"@
    } else if 12 <= h < 17 {
        "afternoon"@
    } else if 17 <= h < 22 {
        "evening"@
    } else {
        "night"@
    }
}

pub fn tod_name(h: u32) -> (r: &'static str)
    ensures
        r@ == spec_tod_name(h as int),
{
    if h >= 5 && h < 12 {
        "morning"
    } else if h >= 12 && h < 17 {
        "afternoon"
    } else if h >= 17 && h < 22 {
        "evening"
    } else {
        "night"
    }
}

/// The primary emotion of a record, with the literal fallback for records
/// that name none.
pub open spec fn spec_eid(r: Reflection) -> Seq<char> {
    match r.emotion_id {
        Option::Some(s) => s@,
        Option::None => "unknown"@,
    }
}

pub open spec fn spec_ename(r: Reflection) -> Seq<char> {
    match r.emotion_name {
        Option::Some(s) => s@,
        Option::None => "Unknown"@,
    }
}

/// The observations a bucket dimension sees: one per record with a
/// parseable timestamp, labelled by `labf` of its calendar fields.
pub open spec fn obs_of(rs: Seq<Reflection>, labf: spec_fn(SimpleDateTime) -> Seq<char>) -> Seq<
    ObsV,
>
    decreases rs.len(),
{
    if rs.len() == 0 {
        Seq::<ObsV>::empty()
    } else {
        let prev = obs_of(rs.drop_last(), labf);
        match spec_parse_timestamp(rs.last().timestamp@) {
            Option::Some(dt) => prev.push(
                ObsV {
                    label: labf(dt),
                    intensity: rs.last().intensity,
                    eid: spec_eid(rs.last()),
                    ename: spec_ename(rs.last()),
                },
            ),
            Option::None => prev,
        }
    }
}

/// How many records carry a parseable timestamp.
pub open spec fn count_parseable(rs: Seq<Reflection>) -> nat
    decreases rs.len(),
{
    if rs.len() == 0 {
        0
    } else {
        count_parseable(rs.drop_last()) + (if spec_parse_timestamp(rs.last().timestamp@)
            is Some {
            1nat
        } else {
            0nat
        })
    }
}

/// Each dimension sees exactly the parseable records.
pub proof fn lemma_obs_len(rs: Seq<Reflection>, labf: spec_fn(SimpleDateTime) -> Seq<char>)
    ensures
        obs_of(rs, labf).len() == count_parseable(rs),
    decreases rs.len(),
{
    if rs.len() > 0 {
        lemma_obs_len(rs.drop_last(), labf);
    }
}

pub open spec fn day_labf() -> spec_fn(SimpleDateTime) -> Seq<char> {
    |dt: SimpleDateTime| spec_day_name(dt.weekday as int)
}

pub open spec fn tod_labf() -> spec_fn(SimpleDateTime) -> Seq<char> {
    |dt: SimpleDateTime| spec_tod_name(dt.hour as int)
}

pub open spec fn month_labf() -> spec_fn(SimpleDateTime) -> Seq<char> {
    |dt: SimpleDateTime| spec_month_label(dt.year as int, dt.month as int)
}

pub open spec fn day_obs(rs: Seq<Reflection>) -> Seq<ObsV> {
    obs_of(rs, day_labf())
}

pub open spec fn tod_obs(rs: Seq<Reflection>) -> Seq<ObsV> {
    obs_of(rs, tod_labf())
}

pub open spec fn month_obs(rs: Seq<Reflection>) -> Seq<ObsV> {
    obs_of(rs, month_labf())
}

/// The emotion fields the aggregators read, with their fallbacks.
pub(crate) fn emotion_fields(r: &Reflection) -> (e: (String, String))
    ensures
        e.0@ == spec_eid(*r),
        e.1@ == spec_ename(*r),
{
    let eid = match &r.emotion_id {
        Option::Some(s) => s.clone(),
        Option::None => "unknown".to_owned(),
    };
    let ename = match &r.emotion_name {
        Option::Some(s) => s.clone(),
        Option::None => "Unknown".to_owned(),
    };
    (eid, ename)
}

/// One pass over the records, filling the three dimensions' observations.
fn build_pattern_obs(rs: &Vec<Reflection>) -> (r: (Vec<LObs>, Vec<LObs>, Vec<LObs>))
    ensures
        obs_views(r.0@) == day_obs(rs@),
        obs_views(r.1@) == tod_obs(rs@),
        obs_views(r.2@) == month_obs(rs@),
{
    let mut dayv: Vec<LObs> = Vec::new();
    let mut todv: Vec<LObs> = Vec::new();
    let mut monthv: Vec<LObs> = Vec::new();
    let mut i: usize = 0;
    proof {
        assert(rs@.take(0) =~= Seq::<Reflection>::empty());
        assert(obs_views(dayv@) =~~= day_obs(rs@.take(0)));
        assert(obs_views(todv@) =~~= tod_obs(rs@.take(0)));
        assert(obs_views(monthv@) =~~= month_obs(rs@.take(0)));
    }
    while i < rs.len()
        invariant
            i <= rs@.len(),
            obs_views(dayv@) == day_obs(rs@.take(i as int)),
            obs_views(todv@) == tod_obs(rs@.take(i as int)),
            obs_views(monthv@) == month_obs(rs@.take(i as int)),
        decreases rs@.len() - i,
    {
        proof {
            assert(rs@.take(i + 1).drop_last() =~= rs@.take(i as int));
            assert(rs@.take(i + 1).last() == rs@[i as int]);
        }
        match parse_timestamp(rs[i].timestamp.as_str()) {
            Option::Some(dt) => {
                let (eid, ename) = emotion_fields(&rs[i]);
                let dlab = day_name(dt.weekday()).to_owned();
                let tlab = tod_name(dt.hour()).to_owned();
                let mlab = month_label(dt.year(), dt.month());
                dayv.push(
                    LObs {
                        label: dlab,
                        intensity: rs[i].intensity,
                        eid: eid.clone(),
                        ename: ename.clone(),
                    },
                );
                todv.push(
                    LObs {
                        label: tlab,
                        intensity: rs[i].intensity,
                        eid: eid.clone(),
                        ename: ename.clone(),
                    },
                );
                monthv.push(
                    LObs { label: mlab, intensity: rs[i].intensity, eid, ename },
                );
                proof {
                    assert(obs_views(dayv@) =~~= day_obs(rs@.take(i + 1)));
                    assert(obs_views(todv@) =~~= tod_obs(rs@.take(i + 1)));
                    assert(obs_views(monthv@) =~~= month_obs(rs@.take(i + 1)));
                }
            },
            Option::None => {
                proof {
                    assert(day_obs(rs@.take(i + 1)) == day_obs(rs@.take(i as int)));
                    assert(tod_obs(rs@.take(i + 1)) == tod_obs(rs@.take(i as int)));
                    assert(month_obs(rs@.take(i + 1)) == month_obs(rs@.take(i as int)));
                }
            },
        }
        i = i + 1;
    }
    proof {
        assert(rs@.take(rs@.len() as int) =~= rs@);
    }
    (dayv, todv, monthv)
}

/// The position of `lab` in the canonical order, or the order's length when
/// it does not occur there.
pub open spec fn order_index(order: Seq<Seq<char>>, lab: Seq<char>) -> int
    decreases order.len(),
{
    if order.len() == 0 {
        0
    } else if order[0] == lab {
        0
    } else {
        1 + order_index(order.skip(1), lab)
    }
}

fn order_index_exec(order: &Vec<String>, lab: &String) -> (idx: usize)
    ensures
        idx == order_index(seq_views(order@), lab@),
        idx <= order@.len(),
{
    let ghost ov = seq_views(order@);
    let mut i: usize = 0;
    proof {
        assert(ov.skip(0) =~= ov);
    }
    while i < order.len()
        invariant
            i <= order@.len(),
            ov == seq_views(order@),
            order_index(ov, lab@) == i + order_index(ov.skip(i as int), lab@),
            forall|j: int| 0 <= j < i ==> ov[j] != lab@,
        decreases order@.len() - i,
    {
        proof {
            assert(ov.skip(i as int)[0] == ov[i as int]);
            assert(ov.skip(i as int).skip(1) =~= ov.skip(i + 1));
            assert(ov[i as int] == order@[i as int]@);
        }
        if order[i] == *lab {
            return i;
        }
        i = i + 1;
    }
    proof {
        assert(ov.skip(order@.len() as int) =~= Seq::<Seq<char>>::empty());
    }
    order.len()
}

/// The ordering policy of a pattern dimension: canonical position first,
/// labels outside the canonical list after all known ones, ties by count
/// descending.
pub open spec fn canon_le(order: Seq<Seq<char>>, a: TimePattern, b: TimePattern) -> bool {
    let ia = order_index(order, a.period@);
    let ib = order_index(order, b.period@);
    ia < ib || (ia == ib && a.count >= b.count)
}

pub open spec fn canon_sorted(order: Seq<Seq<char>>, out: Seq<TimePattern>) -> bool {
    forall|i: int, j: int| 0 <= i < j < out.len() ==> canon_le(order, #[trigger] out[i], #[trigger] out[j])
}

/// The five kept entries are the top of the bucket's tally: any emotion
/// left out never counts more than the last kept one.
pub open spec fn tally_top5_ok(s: Seq<ObsV>, lab: Seq<char>, top: Seq<EmotionCount>) -> bool {
    forall|id: Seq<char>|
        #[trigger] emo_count_label(s, lab, id) > 0 ==> ((exists|j: int|
            0 <= j < top.len() && (#[trigger] top[j]).emotion_id@ == id) || (top.len() == 5
            && emo_count_label(s, lab, id) <= top[4].count))
}

/// What every bucket list of a time-pattern dimension promises.
pub open spec fn patterns_ok(s: Seq<ObsV>, out: Seq<TimePattern>) -> bool {
    &&& forall|k: int|
        0 <= k < out.len() ==> {
            &&& (#[trigger] out[k]).count == count_label(s, out[k].period@)
            &&& out[k].count >= 1
            &&& avg_ok(s, out[k].period@, out[k].average_intensity)
            &&& tally_ok(s, out[k].period@, out[k].top_emotions@)
            &&& out[k].top_emotions@.len() <= 5
            &&& (out[k].top_emotions@.len() < 5 ==> tally_complete(
                s,
                out[k].period@,
                out[k].top_emotions@,
            ))
            &&& tally_top5_ok(s, out[k].period@, out[k].top_emotions@)
        }
    &&& forall|k: int, l: int|
        0 <= k < l < out.len() ==> (#[trigger] out[k]).period@ != (#[trigger] out[l]).period@
    &&& forall|lab: Seq<char>|
        #[trigger] count_label(s, lab) > 0 <==> exists|k: int|
            0 <= k < out.len() && (#[trigger] out[k]).period@ == lab
}

proof fn lemma_dup_count_pat(s: Seq<TimePattern>, k: int, l: int)
    requires
        0 <= k < l < s.len(),
        s[k] == s[l],
    ensures
        s.to_multiset().count(s[k]) >= 2,
{
    broadcast use vstd::multiset::group_multiset_axioms;

    let s2 = s.remove(k);
    assert(s2[l - 1] == s[l]);
    assert(s2.contains(s[l]));
    assert(s2.to_multiset().count(s[k]) >= 1);
    assert(s.to_multiset().count(s[k]) == s2.to_multiset().count(s[k]) + 1);
}

fn insert_canon(out: &mut Vec<TimePattern>, x: TimePattern, order: &Vec<String>)
    requires
        canon_sorted(seq_views(order@), old(out)@),
    ensures
        canon_sorted(seq_views(order@), final(out)@),
        final(out)@.to_multiset() == old(out)@.to_multiset().insert(x),
        final(out)@.len() == old(out)@.len() + 1,
{
    let ghost ov = seq_views(order@);
    let ix = order_index_exec(order, &x.period);
    let mut k = out.len();
    let mut scanning = true;
    while scanning && k > 0
        invariant
            k <= out@.len(),
            out@ == old(out)@,
            ov == seq_views(order@),
            ix == order_index(ov, x.period@),
            forall|j: int| k <= j < out@.len() ==> !canon_le(ov, #[trigger] out@[j], x),
            !scanning ==> k > 0 && canon_le(ov, out@[k - 1], x),
        decreases (k as int) + (if scanning { 1int } else { 0int }),
    {
        let ik = order_index_exec(order, &out[k - 1].period);
        if ik < ix || (ik == ix && out[k - 1].count >= x.count) {
            scanning = false;
        } else {
            k = k - 1;
        }
    }
    proof {
        if k > 0 {
            assert(canon_le(ov, out@[k - 1], x));
        }
    }
    out.insert(k, x);
    proof {
        let t = old(out)@;
        assert(out@ =~= t.take(k as int) + seq![x] + t.skip(k as int));
        assert forall|i: int, j: int| 0 <= i < j < out@.len() implies canon_le(
            ov,
            #[trigger] out@[i],
            #[trigger] out@[j],
        ) by {
            if i < k && j == k {
                assert(out@[i] == t[i]);
                assert(canon_le(ov, t[i], t[k - 1]) || i == k - 1);
            } else if i == k && j > k {
                assert(out@[j] == t[j - 1]);
                assert(!canon_le(ov, t[j - 1], x));
            } else if i < k && j > k {
                assert(out@[i] == t[i] && out@[j] == t[j - 1]);
            }
        }
    }
}

/// The buckets of one dimension: one `TimePattern` per occurring label, the
/// bucket's count, average intensity, and its top five emotions, the whole
/// list ordered by the dimension's policy.
pub fn build_patterns(obs: &Vec<LObs>, order: &Vec<String>) -> (out: Vec<TimePattern>)
    ensures
        patterns_ok(obs_views(obs@), out@),
        canon_sorted(seq_views(order@), out@),
{
    let ghost s = obs_views(obs@);
    let labs = distinct_labels(obs);
    let mut entries: Vec<TimePattern> = Vec::new();
    let mut t: usize = 0;
    while t < labs.len()
        invariant
            t <= labs@.len(),
            s == obs_views(obs@),
            forall|k: int, l: int| 0 <= k < l < labs@.len() ==> (#[trigger] labs@[k])@ != (
            #[trigger] labs@[l])@,
            forall|lab: Seq<char>|
                (exists|k: int| 0 <= k < labs@.len() && (#[trigger] labs@[k])@ == lab)
                    <==> #[trigger] count_label(s, lab) > 0,
            entries@.len() == t,
            forall|k: int| 0 <= k < t ==> (#[trigger] entries@[k]).period@ == (labs@[k])@,
            forall|k: int|
                0 <= k < t ==> {
                    &&& (#[trigger] entries@[k]).count == count_label(s, entries@[k].period@)
                    &&& entries@[k].count >= 1
                    &&& avg_ok(s, entries@[k].period@, entries@[k].average_intensity)
                    &&& tally_ok(s, entries@[k].period@, entries@[k].top_emotions@)
                    &&& entries@[k].top_emotions@.len() <= 5
                    &&& (entries@[k].top_emotions@.len() < 5 ==> tally_complete(
                        s,
                        entries@[k].period@,
                        entries@[k].top_emotions@,
                    ))
                    &&& tally_top5_ok(s, entries@[k].period@, entries@[k].top_emotions@)
                },
        decreases labs@.len() - t,
    {
        let c = count_label_exec(obs, &labs[t]);
        let avg = bucket_average(obs, &labs[t]);
        let mut tally = bucket_emotions(obs, &labs[t]);
        let ghost full = tally@;
        let ghost labv = (labs@[t as int])@;
        if tally.len() > 5 {
            tally.truncate(5);
            proof {
                assert(forall|k: int| 0 <= k < tally@.len() ==> #[trigger] tally@[k] == full[k]);
                assert forall|id: Seq<char>| #[trigger] emo_count_label(s, labv, id)
                    > 0 implies ((exists|j: int|
                    0 <= j < tally@.len() && (#[trigger] tally@[j]).emotion_id@ == id) || (
                tally@.len() == 5 && emo_count_label(s, labv, id) <= tally@[4].count)) by {
                    let k = choose|k: int|
                        0 <= k < full.len() && (#[trigger] full[k]).emotion_id@ == id;
                    if k < 5 {
                        assert(tally@[k] == full[k]);
                    } else {
                        assert(full[4].count >= full[k].count);
                        assert(full[k].count == emo_count_label(s, labv, id));
                        assert(tally@[4] == full[4]);
                    }
                }
            }
        }
        proof {
            assert(count_label(s, labv) > 0);
            assert(tally_top5_ok(s, labv, tally@));
        }
        entries.push(
            TimePattern {
                period: labs[t].clone(),
                count: c,
                average_intensity: avg,
                top_emotions: tally,
            },
        );
        t = t + 1;
    }
    let ghost entries0 = entries@;
    let mut rest = entries;
    let mut sorted: Vec<TimePattern> = Vec::new();
    proof {
        assert(entries0.skip(entries0.len() as int) =~= Seq::<TimePattern>::empty());
    }
    while rest.len() > 0
        invariant
            rest@ == entries0.take(rest@.len() as int),
            canon_sorted(seq_views(order@), sorted@),
            sorted@.to_multiset() == entries0.skip(rest@.len() as int).to_multiset(),
            sorted@.len() + rest@.len() == entries0.len(),
        decreases rest@.len(),
    {
        let ghost m = rest@.len() as int;
        let e = rest.pop().unwrap();
        proof {
            assert(rest@ =~= entries0.take(m - 1));
            assert(e == entries0[m - 1]);
            assert(entries0.skip(m - 1) =~= entries0.skip(m).insert(0, entries0[m - 1]));
        }
        insert_canon(&mut sorted, e, order);
    }
    proof {
        assert(entries0.skip(0) =~= entries0);
        assert forall|k: int, l: int|
            0 <= k < l < entries0.len() implies entries0[k] != entries0[l] by {
            assert((labs@[k])@ != (labs@[l])@);
        }
        entries0.lemma_multiset_has_no_duplicates();
        assert forall|k: int| 0 <= k < sorted@.len() implies {
            &&& (#[trigger] sorted@[k]).count == count_label(s, sorted@[k].period@)
            &&& sorted@[k].count >= 1
            &&& avg_ok(s, sorted@[k].period@, sorted@[k].average_intensity)
            &&& tally_ok(s, sorted@[k].period@, sorted@[k].top_emotions@)
            &&& sorted@[k].top_emotions@.len() <= 5
            &&& (sorted@[k].top_emotions@.len() < 5 ==> tally_complete(
                s,
                sorted@[k].period@,
                sorted@[k].top_emotions@,
            ))
            &&& tally_top5_ok(s, sorted@[k].period@, sorted@[k].top_emotions@)
        } by {
            assert(sorted@.to_multiset().count(sorted@[k]) > 0);
            assert(entries0.contains(sorted@[k]));
        }
        assert forall|k: int, l: int|
            0 <= k < l < sorted@.len() implies (#[trigger] sorted@[k]).period@ != (
        #[trigger] sorted@[l]).period@ by {
            let e1 = sorted@[k];
            let e2 = sorted@[l];
            if e1.period@ == e2.period@ {
                assert(sorted@.to_multiset().count(e1) > 0);
                assert(entries0.contains(e1));
                assert(sorted@.to_multiset().count(e2) > 0);
                assert(entries0.contains(e2));
                let j1 = choose|j: int| 0 <= j < entries0.len() && entries0[j] == e1;
                let j2 = choose|j: int| 0 <= j < entries0.len() && entries0[j] == e2;
                if j1 != j2 {
                    assert((labs@[j1])@ != (labs@[j2])@);
                    assert((labs@[j1])@ == e1.period@);
                    assert((labs@[j2])@ == e2.period@);
                } else {
                    assert(e1 == e2);
                    lemma_dup_count_pat(sorted@, k, l);
                    assert(entries0.to_multiset().count(e1) >= 2);
                    assert(entries0.to_multiset().count(e1) == 1);
                }
            }
        }
        assert forall|lab: Seq<char>| #[trigger] count_label(s, lab) > 0 implies exists|k: int|
            0 <= k < sorted@.len() && (#[trigger] sorted@[k]).period@ == lab by {
            let k = choose|k: int| 0 <= k < labs@.len() && (#[trigger] labs@[k])@ == lab;
            let e = entries0[k];
            assert(e.period@ == lab);
            assert(entries0.to_multiset().count(e) > 0);
            assert(sorted@.contains(e));
            let k2 = choose|k2: int| 0 <= k2 < sorted@.len() && sorted@[k2] == e;
            assert((sorted@[k2]).period@ == lab);
        }
        assert forall|lab: Seq<char>|
            (exists|k: int| 0 <= k < sorted@.len() && (#[trigger] sorted@[k]).period@ == lab)
                implies #[trigger] count_label(s, lab) > 0 by {
            let k = choose|k: int| 0 <= k < sorted@.len() && (#[trigger] sorted@[k]).period@
                == lab;
            assert(sorted@[k].count >= 1);
        }
    }
    sorted
}

/// The canonical weekday order.
pub open spec fn day_order() -> Seq<Seq<char>> {
    seq![
        "sunday"@,
        "monday"@,
        "tuesday"@,
        "wednesday"@,
        "thursday"@,
        "friday"@,
        "saturday"@,
    ]
}

/// The canonical time-of-day order.
pub open spec fn tod_order() -> Seq<Seq<char>> {
    seq!["morning"@, "afternoon"@, "evening"@, "night"@]
}

fn day_order_vec() -> (v: Vec<String>)
    ensures
        seq_views(v@) == day_order(),
{
    let mut v: Vec<String> = Vec::new();
    v.push("sunday".to_owned());
    v.push("monday".to_owned());
    v.push("tuesday".to_owned());
    v.push("wednesday".to_owned());
    v.push("thursday".to_owned());
    v.push("friday".to_owned());
    v.push("saturday".to_owned());
    proof {
        assert(seq_views(v@) =~~= day_order());
    }
    v
}

fn tod_order_vec() -> (v: Vec<String>)
    ensures
        seq_views(v@) == tod_order(),
{
    let mut v: Vec<String> = Vec::new();
    v.push("morning".to_owned());
    v.push("afternoon".to_owned());
    v.push("evening".to_owned());
    v.push("night".to_owned());
    proof {
        assert(seq_views(v@) =~~= tod_order());
    }
    v
}

/// Buckets the records with a parseable timestamp by weekday, time-of-day
/// band, and calendar month. Weekday and time-of-day lists come in their
/// canonical order, month buckets by count descending.
pub fn compute_time_patterns(reflections: &Vec<Reflection>) -> (r: TimePatternsResult)
    ensures
        patterns_ok(day_obs(reflections@), r.day_of_week@),
        canon_sorted(day_order(), r.day_of_week@),
        patterns_ok(tod_obs(reflections@), r.time_of_day@),
        canon_sorted(tod_order(), r.time_of_day@),
        patterns_ok(month_obs(reflections@), r.month@),
        forall|i: int, j: int|
            0 <= i < j < r.month@.len() ==> (#[trigger] r.month@[i]).count >= (
            #[trigger] r.month@[j]).count,
{
    let (dayv, todv, monthv) = build_pattern_obs(reflections);
    let day_ord = day_order_vec();
    let tod_ord = tod_order_vec();
    let no_ord: Vec<String> = Vec::new();
    let day_of_week = build_patterns(&dayv, &day_ord);
    let time_of_day = build_patterns(&todv, &tod_ord);
    let month = build_patterns(&monthv, &no_ord);
    proof {
        assert(seq_views(no_ord@) =~~= Seq::<Seq<char>>::empty());
        assert forall|i: int, j: int| 0 <= i < j < month@.len() implies (
        #[trigger] month@[i]).count >= (#[trigger] month@[j]).count by {
            assert(canon_le(seq_views(no_ord@), month@[i], month@[j]));
        }
    }
    TimePatternsResult { day_of_week, time_of_day, month }
}

/// The sum of the bucket counts of one dimension.
pub open spec fn patterns_count_sum(out: Seq<TimePattern>) -> nat
    decreases out.len(),
{
    if out.len() == 0 {
        0
    } else {
        patterns_count_sum(out.drop_last()) + out.last().count as nat
    }
}

/// In any dimension of the time patterns, the bucket counts add up to the
/// number of records with a parseable timestamp: buckets partition those
/// records.
pub proof fn lemma_patterns_partition(s: Seq<ObsV>, out: Seq<TimePattern>)
    requires
        patterns_ok(s, out),
    ensures
        patterns_count_sum(out) == s.len(),
{
    let labs = out.map_values(|p: TimePattern| p.period@);
    assert forall|lab: Seq<char>| #[trigger] count_label(s, lab) > 0 implies exists|k: int|
        0 <= k < labs.len() && labs[k] == lab by {
        let k = choose|k: int| 0 <= k < out.len() && (#[trigger] out[k]).period@ == lab;
        assert(labs[k] == lab);
    }
    lemma_label_partition(s, labs);
    lemma_patterns_sum_eq(s, out);
}

proof fn lemma_patterns_sum_eq(s: Seq<ObsV>, out: Seq<TimePattern>)
    requires
        forall|k: int|
            0 <= k < out.len() ==> (#[trigger] out[k]).count == count_label(s, out[k].period@),
    ensures
        patterns_count_sum(out) == sum_counts(s, out.map_values(|p: TimePattern| p.period@)),
    decreases out.len(),
{
    if out.len() > 0 {
        lemma_patterns_sum_eq(s, out.drop_last());
        let labs = out.map_values(|p: TimePattern| p.period@);
        assert(labs.drop_last() =~= out.drop_last().map_values(|p: TimePattern| p.period@));
        assert(labs.last() == out.last().period@);
    }
}

} // verus!

use vstd::prelude::*;
use vstd::string::*;
use crate::{EmotionCount, Ratio};

verus! {

broadcast use vstd::seq_lib::group_to_multiset_ensures;

/// One observation handed to the grouping engine: a bucket label, the
/// record's optional intensity, and its primary emotion.
pub struct LObs {
    pub label: String,
    pub intensity: Option<i32>,
    pub eid: String,
    pub ename: String,
}

/// The ghost image of an observation, over character sequences.
pub struct ObsV {
    pub label: Seq<char>,
    pub intensity: Option<i32>,
    pub eid: Seq<char>,
    pub ename: Seq<char>,
}

impl View for LObs {
    type V = ObsV;

    open spec fn view(&self) -> ObsV {
        ObsV { label: self.label@, intensity: self.intensity, eid: self.eid@, ename: self.ename@ }
    }
}

pub open spec fn obs_views(s: Seq<LObs>) -> Seq<ObsV> {
    s.map_values(|o: LObs| o@)
}

/// How many observations fall into the bucket `lab`.
pub open spec fn count_label(s: Seq<ObsV>, lab: Seq<char>) -> nat
    decreases s.len(),
{
    if s.len() == 0 {
        0
    } else {
        count_label(s.drop_last(), lab) + (if s.last().label == lab {
            1nat
        } else {
            0nat
        })
    }
}

/// The sum of the intensities present in the bucket `lab`.
pub open spec fn isum_label(s: Seq<ObsV>, lab: Seq<char>) -> int
    decreases s.len(),
{
    if s.len() == 0 {
        0
    } else {
        isum_label(s.drop_last(), lab) + (if s.last().label == lab {
            match s.last().intensity {
                Option::Some(v) => v as int,
                Option::None => 0,
            }
        } else {
            0
        })
    }
}

/// How many observations in the bucket `lab` carry an intensity at all;
/// absent intensities are left out of the average, not counted as zero.
pub open spec fn isamples_label(s: Seq<ObsV>, lab: Seq<char>) -> nat
    decreases s.len(),
{
    if s.len() == 0 {
        0
    } else {
        isamples_label(s.drop_last(), lab) + (if s.last().label == lab && s.last().intensity
            is Some {
            1nat
        } else {
            0nat
        })
    }
}

/// How often the emotion `id` occurs in the bucket `lab`.
pub open spec fn emo_count_label(s: Seq<ObsV>, lab: Seq<char>, id: Seq<char>) -> nat
    decreases s.len(),
{
    if s.len() == 0 {
        0
    } else {
        emo_count_label(s.drop_last(), lab, id) + (if s.last().label == lab && s.last().eid
            == id {
            1nat
        } else {
            0nat
        })
    }
}

/// The display name that the first occurrence of `id` in the bucket brought.
pub open spec fn first_name_label(s: Seq<ObsV>, lab: Seq<char>, id: Seq<char>) -> Option<
    Seq<char>,
>
    decreases s.len(),
{
    if s.len() == 0 {
        Option::None
    } else {
        match first_name_label(s.drop_last(), lab, id) {
            Option::Some(n) => Option::Some(n),
            Option::None => if s.last().label == lab && s.last().eid == id {
                Option::Some(s.last().ename)
            } else {
                Option::None
            },
        }
    }
}

/// How often `lab` occurs among the listed labels.
pub open spec fn occ_in(labs: Seq<Seq<char>>, lab: Seq<char>) -> nat
    decreases labs.len(),
{
    if labs.len() == 0 {
        0
    } else {
        occ_in(labs.drop_last(), lab) + (if labs.last() == lab {
            1nat
        } else {
            0nat
        })
    }
}

proof fn lemma_occ_in_one(labs: Seq<Seq<char>>, lab: Seq<char>)
    requires
        forall|k: int, l: int| 0 <= k < l < labs.len() ==> labs[k] != labs[l],
        exists|k: int| 0 <= k < labs.len() && labs[k] == lab,
    ensures
        occ_in(labs, lab) == 1,
    decreases labs.len(),
{
    let dl = labs.drop_last();
    if labs.last() == lab {
        if exists|k: int| 0 <= k < dl.len() && dl[k] == lab {
            let k = choose|k: int| 0 <= k < dl.len() && dl[k] == lab;
            assert(labs[k] == labs[labs.len() - 1]);
            assert(false);
        }
        lemma_occ_in_zero(dl, lab);
    } else {
        let k = choose|k: int| 0 <= k < labs.len() && labs[k] == lab;
        assert(dl[k] == lab);
        lemma_occ_in_one(dl, lab);
    }
}

proof fn lemma_occ_in_zero(labs: Seq<Seq<char>>, lab: Seq<char>)
    requires
        forall|k: int| 0 <= k < labs.len() ==> labs[k] != lab,
    ensures
        occ_in(labs, lab) == 0,
    decreases labs.len(),
{
    if labs.len() > 0 {
        lemma_occ_in_zero(labs.drop_last(), lab);
    }
}

/// The counts of the listed buckets, added up.
pub open spec fn sum_counts(s: Seq<ObsV>, labs: Seq<Seq<char>>) -> nat
    decreases labs.len(),
{
    if labs.len() == 0 {
        0
    } else {
        sum_counts(s, labs.drop_last()) + count_label(s, labs.last())
    }
}

proof fn lemma_sum_counts_step(s: Seq<ObsV>, o: ObsV, labs: Seq<Seq<char>>)
    ensures
        sum_counts(s.push(o), labs) == sum_counts(s, labs) + occ_in(labs, o.label),
    decreases labs.len(),
{
    if labs.len() > 0 {
        lemma_sum_counts_step(s, o, labs.drop_last());
        assert(s.push(o).drop_last() =~= s);
        assert(count_label(s.push(o), labs.last()) == count_label(s, labs.last()) + (if o.label
            == labs.last() {
            1nat
        } else {
            0nat
        }));
    }
}

/// Distinct labels that cover every non-empty bucket split the observations:
/// the bucket counts add up to the number of observations.
pub proof fn lemma_label_partition(s: Seq<ObsV>, labs: Seq<Seq<char>>)
    requires
        forall|k: int, l: int| 0 <= k < l < labs.len() ==> labs[k] != labs[l],
        forall|lab: Seq<char>| #[trigger]
            count_label(s, lab) > 0 ==> exists|k: int| 0 <= k < labs.len() && labs[k] == lab,
    ensures
        sum_counts(s, labs) == s.len(),
    decreases s.len(),
{
    if s.len() == 0 {
        lemma_sum_counts_empty(s, labs);
    } else {
        let dl = s.drop_last();
        let o = s.last();
        assert forall|lab: Seq<char>| #[trigger] count_label(dl, lab) > 0 implies exists|k: int|
            0 <= k < labs.len() && labs[k] == lab by {
            assert(count_label(s, lab) == count_label(dl, lab) + (if o.label == lab {
                1nat
            } else {
                0nat
            }));
        }
        lemma_label_partition(dl, labs);
        lemma_sum_counts_step(dl, o, labs);
        assert(dl.push(o) =~= s);
        assert(count_label(s, o.label) > 0);
        lemma_occ_in_one(labs, o.label);
    }
}

proof fn lemma_sum_counts_empty(s: Seq<ObsV>, labs: Seq<Seq<char>>)
    requires
        s.len() == 0,
    ensures
        sum_counts(s, labs) == 0,
    decreases labs.len(),
{
    if labs.len() > 0 {
        lemma_sum_counts_empty(s, labs.drop_last());
    }
}

/// Every label that occurs, once, in order of first appearance.
pub fn distinct_labels(obs: &Vec<LObs>) -> (labs: Vec<String>)
    ensures
        forall|k: int, l: int| 0 <= k < l < labs@.len() ==> (#[trigger] labs@[k])@ != (
        #[trigger] labs@[l])@,
        forall|lab: Seq<char>|
            (exists|k: int| 0 <= k < labs@.len() && (#[trigger] labs@[k])@ == lab)
                <==> #[trigger] count_label(obs_views(obs@), lab) > 0,
{
    let ghost s = obs_views(obs@);
    let mut labs: Vec<String> = Vec::new();
    let mut i: usize = 0;
    proof {
        assert(s.take(0) =~= Seq::<ObsV>::empty());
    }
    while i < obs.len()
        invariant
            i <= obs@.len(),
            s == obs_views(obs@),
            forall|k: int, l: int| 0 <= k < l < labs@.len() ==> (#[trigger] labs@[k])@ != (
            #[trigger] labs@[l])@,
            forall|lab: Seq<char>|
                (exists|k: int| 0 <= k < labs@.len() && (#[trigger] labs@[k])@ == lab)
                    <==> #[trigger] count_label(s.take(i as int), lab) > 0,
        decreases obs@.len() - i,
    {
        let ghost lv = s[i as int].label;
        proof {
            assert(s.take(i + 1).drop_last() =~= s.take(i as int));
            assert(s.take(i + 1).last() == s[i as int]);
            assert(s[i as int] == obs@[i as int]@);
        }
        let mut found = false;
        let mut t: usize = 0;
        while t < labs.len()
            invariant
                t <= labs@.len(),
                lv == obs@[i as int]@.label,
                i < obs@.len(),
                found <==> exists|k: int| 0 <= k < t && (#[trigger] labs@[k])@ == lv,
            decreases labs@.len() - t,
        {
            if labs[t] == obs[i].label {
                found = true;
                proof {
                    assert((labs@[t as int])@ == lv);
                }
            }
            t = t + 1;
        }
        if !found {
            let ghost old_labs = labs@;
            labs.push(obs[i].label.clone());
            proof {
                assert((labs@[labs@.len() - 1])@ == lv);
                assert forall|lab: Seq<char>|
                    (exists|k: int| 0 <= k < labs@.len() && (#[trigger] labs@[k])@ == lab)
                        <==> #[trigger] count_label(s.take(i + 1), lab) > 0 by {
                    assert(count_label(s.take(i + 1), lab) == count_label(s.take(i as int), lab)
                        + (if lv == lab {
                        1nat
                    } else {
                        0nat
                    }));
                    if lab == lv {
                        assert((labs@[labs@.len() - 1])@ == lab);
                    } else {
                        if exists|k: int| 0 <= k < labs@.len() && (#[trigger] labs@[k])@ == lab {
                            let k = choose|k: int|
                                0 <= k < labs@.len() && (#[trigger] labs@[k])@ == lab;
                            assert(k < old_labs.len());
                            assert((old_labs[k])@ == lab);
                        }
                        if count_label(s.take(i as int), lab) > 0 {
                            let k = choose|k: int|
                                0 <= k < old_labs.len() && (#[trigger] old_labs[k])@ == lab;
                            assert((labs@[k])@ == lab);
                        }
                    }
                }
            }
        } else {
            proof {
                let k0 = choose|k: int| 0 <= k < labs@.len() && (#[trigger] labs@[k])@ == lv;
                assert forall|lab: Seq<char>|
                    (exists|k: int| 0 <= k < labs@.len() && (#[trigger] labs@[k])@ == lab)
                        <==> #[trigger] count_label(s.take(i + 1), lab) > 0 by {
                    assert(count_label(s.take(i + 1), lab) == count_label(s.take(i as int), lab)
                        + (if lv == lab {
                        1nat
                    } else {
                        0nat
                    }));
                    if lab == lv {
                        assert((labs@[k0])@ == lab);
                    }
                }
            }
        }
        i = i + 1;
    }
    proof {
        assert(s.take(s.len() as int) =~= s);
    }
    labs
}

/// The bucket's record count.
pub fn count_label_exec(obs: &Vec<LObs>, lab: &String) -> (c: usize)
    ensures
        c == count_label(obs_views(obs@), lab@),
        c <= obs@.len(),
{
    let ghost s = obs_views(obs@);
    let mut c: usize = 0;
    let mut i: usize = 0;
    proof {
        assert(s.take(0) =~= Seq::<ObsV>::empty());
    }
    while i < obs.len()
        invariant
            i <= obs@.len(),
            s == obs_views(obs@),
            c <= i,
            c == count_label(s.take(i as int), lab@),
        decreases obs@.len() - i,
    {
        proof {
            assert(s.take(i + 1).drop_last() =~= s.take(i as int));
            assert(s.take(i + 1).last() == s[i as int]);
            assert(s[i as int] == obs@[i as int]@);
        }
        if obs[i].label == *lab {
            c = c + 1;
        }
        i = i + 1;
    }
    proof {
        assert(s.take(s.len() as int) =~= s);
    }
    c
}

/// The bucket's intensity sum and how many observations brought one.
pub fn intensity_stats(obs: &Vec<LObs>, lab: &String) -> (r: (i128, usize))
    ensures
        r.0 == isum_label(obs_views(obs@), lab@),
        r.1 == isamples_label(obs_views(obs@), lab@),
{
    let ghost s = obs_views(obs@);
    let mut sum: i128 = 0;
    let mut samples: usize = 0;
    let mut i: usize = 0;
    proof {
        assert(s.take(0) =~= Seq::<ObsV>::empty());
    }
    while i < obs.len()
        invariant
            i <= obs@.len(),
            s == obs_views(obs@),
            samples <= i,
            sum == isum_label(s.take(i as int), lab@),
            samples == isamples_label(s.take(i as int), lab@),
            -0x8000_0000i128 * (i as i128) <= sum <= 0x8000_0000i128 * (i as i128),
        decreases obs@.len() - i,
    {
        proof {
            assert(s.take(i + 1).drop_last() =~= s.take(i as int));
            assert(s.take(i + 1).last() == s[i as int]);
            assert(s[i as int] == obs@[i as int]@);
        }
        if obs[i].label == *lab {
            match obs[i].intensity {
                Option::Some(v) => {
                    sum = sum + (v as i128);
                    samples = samples + 1;
                },
                Option::None => {},
            }
        }
        i = i + 1;
    }
    proof {
        assert(s.take(s.len() as int) =~= s);
    }
    (sum, samples)
}

/// The average of the bucket's intensities, as stated over the spec sums.
pub open spec fn avg_ok(s: Seq<ObsV>, lab: Seq<char>, avg: Option<Ratio>) -> bool {
    match avg {
        Option::Some(rt) => isamples_label(s, lab) > 0 && rt.num == isum_label(s, lab) && rt.den
            == isamples_label(s, lab),
        Option::None => isamples_label(s, lab) == 0,
    }
}

/// The bucket's average intensity, absent when nothing carried one.
pub fn bucket_average(obs: &Vec<LObs>, lab: &String) -> (avg: Option<Ratio>)
    ensures
        avg_ok(obs_views(obs@), lab@, avg),
{
    let (sum, samples) = intensity_stats(obs, lab);
    if samples > 0 {
        Option::Some(Ratio { num: sum, den: samples })
    } else {
        Option::None
    }
}

pub open spec fn emo_sorted_desc(s: Seq<EmotionCount>) -> bool {
    forall|i: int, j: int|
        0 <= i < j < s.len() ==> (#[trigger] s[i]).count >= (#[trigger] s[j]).count
}

/// Everything the tally of one bucket promises: counts right, names from
/// the first occurrence, one entry per emotion, every emotion present,
/// ranked by count descending.
pub open spec fn tally_ok(s: Seq<ObsV>, lab: Seq<char>, out: Seq<EmotionCount>) -> bool {
    &&& forall|k: int|
        0 <= k < out.len() ==> (#[trigger] out[k]).count == emo_count_label(
            s,
            lab,
            out[k].emotion_id@,
        ) && out[k].count >= 1 && first_name_label(s, lab, out[k].emotion_id@) == Option::Some(
            out[k].emotion_name@,
        )
    &&& forall|k: int, l: int|
        0 <= k < l < out.len() ==> (#[trigger] out[k]).emotion_id@ != (
        #[trigger] out[l]).emotion_id@
    &&& emo_sorted_desc(out)
}

pub open spec fn tally_complete(s: Seq<ObsV>, lab: Seq<char>, out: Seq<EmotionCount>) -> bool {
    forall|id: Seq<char>|
        #[trigger] emo_count_label(s, lab, id) > 0 ==> exists|k: int|
            0 <= k < out.len() && (#[trigger] out[k]).emotion_id@ == id
}

proof fn lemma_dup_count_emo(s: Seq<EmotionCount>, k: int, l: int)
    requires
        0 <= k < l < s.len(),
        s[k] == s[l],
    ensures
        s.to_multiset().count(s[k]) >= 2,
{
    broadcast use vstd::multiset::group_multiset_axioms;

    let s2 = s.remove(k);
    assert(s2[l - 1] == s[l]);
    assert(s2.contains(s[l]));
    assert(s2.to_multiset().count(s[k]) >= 1);
    assert(s.to_multiset().count(s[k]) == s2.to_multiset().count(s[k]) + 1);
}

fn insert_emo_desc(out: &mut Vec<EmotionCount>, x: EmotionCount)
    requires
        emo_sorted_desc(old(out)@),
    ensures
        emo_sorted_desc(final(out)@),
        final(out)@.to_multiset() == old(out)@.to_multiset().insert(x),
        final(out)@.len() == old(out)@.len() + 1,
{
    let mut k = out.len();
    while k > 0 && out[k - 1].count < x.count
        invariant
            k <= out@.len(),
            out@ == old(out)@,
            forall|j: int| k <= j < out@.len() ==> (#[trigger] out@[j]).count < x.count,
        decreases k,
    {
        k = k - 1;
    }
    out.insert(k, x);
    proof {
        let t = old(out)@;
        assert(out@ =~= t.take(k as int) + seq![x] + t.skip(k as int));
        assert forall|i: int, j: int| 0 <= i < j < out@.len() implies (#[trigger] out@[i]).count
            >= (#[trigger] out@[j]).count by {
            if i < k && j > k {
                assert(out@[i] == t[i] && out@[j] == t[j - 1]);
            }
        }
    }
}

/// The complete emotion tally of the bucket `lab`, ranked by count
/// descending, one entry per distinct emotion.
pub fn bucket_emotions(obs: &Vec<LObs>, lab: &String) -> (out: Vec<EmotionCount>)
    ensures
        tally_ok(obs_views(obs@), lab@, out@),
        tally_complete(obs_views(obs@), lab@, out@),
{
    let ghost s = obs_views(obs@);
    let mut idn: Vec<(String, String)> = Vec::new();
    let mut i: usize = 0;
    proof {
        assert(s.take(0) =~= Seq::<ObsV>::empty());
    }
    while i < obs.len()
        invariant
            i <= obs@.len(),
            s == obs_views(obs@),
            forall|k: int, l: int| 0 <= k < l < idn@.len() ==> (#[trigger] idn@[k]).0@ != (
            #[trigger] idn@[l]).0@,
            forall|k: int|
                0 <= k < idn@.len() ==> first_name_label(s.take(i as int), lab@, (
                #[trigger] idn@[k]).0@) == Option::Some(idn@[k].1@),
            forall|id: Seq<char>|
                (exists|k: int| 0 <= k < idn@.len() && (#[trigger] idn@[k]).0@ == id)
                    <==> #[trigger] emo_count_label(s.take(i as int), lab@, id) > 0,
        decreases obs@.len() - i,
    {
        let ghost ov = s[i as int];
        proof {
            assert(s.take(i + 1).drop_last() =~= s.take(i as int));
            assert(s.take(i + 1).last() == s[i as int]);
            assert(s[i as int] == obs@[i as int]@);
        }
        if obs[i].label == *lab {
            let mut found = false;
            let mut t: usize = 0;
            while t < idn.len()
                invariant
                    t <= idn@.len(),
                    i < obs@.len(),
                    ov == obs@[i as int]@,
                    found <==> exists|k: int| 0 <= k < t && (#[trigger] idn@[k]).0@ == ov.eid,
                decreases idn@.len() - t,
            {
                if idn[t].0 == obs[i].eid {
                    found = true;
                    proof {
                        assert((idn@[t as int]).0@ == ov.eid);
                    }
                }
                t = t + 1;
            }
            if !found {
                let ghost old_idn = idn@;
                idn.push((obs[i].eid.clone(), obs[i].ename.clone()));
                proof {
                    assert((idn@[idn@.len() - 1]).0@ == ov.eid);
                    assert((idn@[idn@.len() - 1]).1@ == ov.ename);
                    assert(first_name_label(s.take(i as int), lab@, ov.eid) is None) by {
                        lemma_first_name_none(s.take(i as int), lab@, ov.eid);
                    }
                    assert forall|id: Seq<char>|
                        (exists|k: int| 0 <= k < idn@.len() && (#[trigger] idn@[k]).0@ == id)
                            <==> #[trigger] emo_count_label(s.take(i + 1), lab@, id) > 0 by {
                        assert(emo_count_label(s.take(i + 1), lab@, id) == emo_count_label(
                            s.take(i as int),
                            lab@,
                            id,
                        ) + (if ov.eid == id {
                            1nat
                        } else {
                            0nat
                        }));
                        if id == ov.eid {
                            assert((idn@[idn@.len() - 1]).0@ == id);
                        } else {
                            if exists|k: int|
                                0 <= k < idn@.len() && (#[trigger] idn@[k]).0@ == id {
                                let k = choose|k: int|
                                    0 <= k < idn@.len() && (#[trigger] idn@[k]).0@ == id;
                                assert(k < old_idn.len());
                                assert((old_idn[k]).0@ == id);
                            }
                            if emo_count_label(s.take(i as int), lab@, id) > 0 {
                                let k = choose|k: int|
                                    0 <= k < old_idn.len() && (#[trigger] old_idn[k]).0@ == id;
                                assert((idn@[k]).0@ == id);
                            }
                        }
                    }
                }
            } else {
                proof {
                    let k0 = choose|k: int| 0 <= k < idn@.len() && (#[trigger] idn@[k]).0@
                        == ov.eid;
                    assert forall|id: Seq<char>|
                        (exists|k: int| 0 <= k < idn@.len() && (#[trigger] idn@[k]).0@ == id)
                            <==> #[trigger] emo_count_label(s.take(i + 1), lab@, id) > 0 by {
                        assert(emo_count_label(s.take(i + 1), lab@, id) == emo_count_label(
                            s.take(i as int),
                            lab@,
                            id,
                        ) + (if ov.eid == id {
                            1nat
                        } else {
                            0nat
                        }));
                        if id == ov.eid {
                            assert((idn@[k0]).0@ == id);
                        }
                    }
                }
            }
        } else {
            proof {
                assert forall|id: Seq<char>|
                    (exists|k: int| 0 <= k < idn@.len() && (#[trigger] idn@[k]).0@ == id)
                        <==> #[trigger] emo_count_label(s.take(i + 1), lab@, id) > 0 by {
                    assert(emo_count_label(s.take(i + 1), lab@, id) == emo_count_label(
                        s.take(i as int),
                        lab@,
                        id,
                    ));
                }
            }
        }
        i = i + 1;
    }
    proof {
        assert(s.take(s.len() as int) =~= s);
    }
    let mut entries: Vec<EmotionCount> = Vec::new();
    let mut t: usize = 0;
    while t < idn.len()
        invariant
            t <= idn@.len(),
            s == obs_views(obs@),
            forall|k: int, l: int| 0 <= k < l < idn@.len() ==> (#[trigger] idn@[k]).0@ != (
            #[trigger] idn@[l]).0@,
            forall|k: int|
                0 <= k < idn@.len() ==> first_name_label(s, lab@, (#[trigger] idn@[k]).0@)
                    == Option::Some(idn@[k].1@),
            forall|id: Seq<char>|
                (exists|k: int| 0 <= k < idn@.len() && (#[trigger] idn@[k]).0@ == id)
                    <==> #[trigger] emo_count_label(s, lab@, id) > 0,
            entries@.len() == t,
            forall|k: int|
                0 <= k < t ==> (#[trigger] entries@[k]).emotion_id@ == (idn@[k]).0@ && entries@[
                    k
                ].emotion_name@ == (idn@[k]).1@ && entries@[k].count == emo_count_label(
                    s,
                    lab@,
                    (idn@[k]).0@,
                ),
        decreases idn@.len() - t,
    {
        let c = emo_count_exec(obs, lab, &idn[t].0);
        proof {
            assert((idn@[t as int]).0@ == (idn@[t as int]).0@);
        }
        entries.push(
            EmotionCount {
                emotion_id: idn[t].0.clone(),
                emotion_name: idn[t].1.clone(),
                count: c,
            },
        );
        t = t + 1;
    }
    let ghost entries0 = entries@;
    proof {
        assert forall|k: int| 0 <= k < entries0.len() implies (#[trigger] entries0[k]).count
            >= 1 by {
            assert((idn@[k]).0@ == entries0[k].emotion_id@);
            assert(emo_count_label(s, lab@, (idn@[k]).0@) > 0);
        }
    }
    let mut rest = entries;
    let mut sorted: Vec<EmotionCount> = Vec::new();
    proof {
        assert(entries0.skip(entries0.len() as int) =~= Seq::<EmotionCount>::empty());
    }
    while rest.len() > 0
        invariant
            rest@ == entries0.take(rest@.len() as int),
            emo_sorted_desc(sorted@),
            sorted@.to_multiset() == entries0.skip(rest@.len() as int).to_multiset(),
            sorted@.len() + rest@.len() == entries0.len(),
        decreases rest@.len(),
    {
        let ghost m = rest@.len() as int;
        let e = rest.pop().unwrap();
        proof {
            assert(rest@ =~= entries0.take(m - 1));
            assert(e == entries0[m - 1]);
            assert(entries0.skip(m - 1) =~= entries0.skip(m).insert(0, entries0[m - 1]));
        }
        insert_emo_desc(&mut sorted, e);
    }
    proof {
        assert(entries0.skip(0) =~= entries0);
        assert forall|k: int, l: int|
            0 <= k < l < entries0.len() implies entries0[k] != entries0[l] by {
            assert((idn@[k]).0@ != (idn@[l]).0@);
        }
        entries0.lemma_multiset_has_no_duplicates();
        assert forall|k: int| 0 <= k < sorted@.len() implies (#[trigger] sorted@[k]).count
            == emo_count_label(s, lab@, sorted@[k].emotion_id@) && sorted@[k].count >= 1
            && first_name_label(s, lab@, sorted@[k].emotion_id@) == Option::Some(
            sorted@[k].emotion_name@,
        ) by {
            assert(sorted@.to_multiset().count(sorted@[k]) > 0);
            assert(entries0.contains(sorted@[k]));
            let j = choose|j: int| 0 <= j < entries0.len() && entries0[j] == sorted@[k];
            assert((idn@[j]).0@ == sorted@[k].emotion_id@);
        }
        assert forall|k: int, l: int|
            0 <= k < l < sorted@.len() implies (#[trigger] sorted@[k]).emotion_id@ != (
        #[trigger] sorted@[l]).emotion_id@ by {
            let e1 = sorted@[k];
            let e2 = sorted@[l];
            if e1.emotion_id@ == e2.emotion_id@ {
                assert(sorted@.to_multiset().count(e1) > 0);
                assert(entries0.contains(e1));
                assert(sorted@.to_multiset().count(e2) > 0);
                assert(entries0.contains(e2));
                let j1 = choose|j: int| 0 <= j < entries0.len() && entries0[j] == e1;
                let j2 = choose|j: int| 0 <= j < entries0.len() && entries0[j] == e2;
                if j1 != j2 {
                    assert((idn@[j1]).0@ != (idn@[j2]).0@);
                    assert((idn@[j1]).0@ == e1.emotion_id@);
                    assert((idn@[j2]).0@ == e2.emotion_id@);
                } else {
                    assert(e1 == e2);
                    lemma_dup_count_emo(sorted@, k, l);
                    assert(entries0.to_multiset().count(e1) >= 2);
                    assert(entries0.to_multiset().count(e1) == 1);
                }
            }
        }
        assert forall|id: Seq<char>| #[trigger] emo_count_label(s, lab@, id) > 0 implies exists|
            k: int,
        | 0 <= k < sorted@.len() && (#[trigger] sorted@[k]).emotion_id@ == id by {
            let k = choose|k: int| 0 <= k < idn@.len() && (#[trigger] idn@[k]).0@ == id;
            let e = entries0[k];
            assert(e.emotion_id@ == id);
            assert(entries0.to_multiset().count(e) > 0);
            assert(sorted@.contains(e));
            let k2 = choose|k2: int| 0 <= k2 < sorted@.len() && sorted@[k2] == e;
            assert((sorted@[k2]).emotion_id@ == id);
        }
    }
    sorted
}

/// A fresh emotion in the bucket has no recorded name yet.
proof fn lemma_first_name_none(s: Seq<ObsV>, lab: Seq<char>, id: Seq<char>)
    requires
        emo_count_label(s, lab, id) == 0,
    ensures
        first_name_label(s, lab, id) is None,
    decreases s.len(),
{
    if s.len() > 0 {
        lemma_first_name_none(s.drop_last(), lab, id);
    }
}

fn emo_count_exec(obs: &Vec<LObs>, lab: &String, id: &String) -> (c: usize)
    ensures
        c == emo_count_label(obs_views(obs@), lab@, id@),
{
    let ghost s = obs_views(obs@);
    let mut c: usize = 0;
    let mut i: usize = 0;
    proof {
        assert(s.take(0) =~= Seq::<ObsV>::empty());
    }
    while i < obs.len()
        invariant
            i <= obs@.len(),
            s == obs_views(obs@),
            c <= i,
            c == emo_count_label(s.take(i as int), lab@, id@),
        decreases obs@.len() - i,
    {
        proof {
            assert(s.take(i + 1).drop_last() =~= s.take(i as int));
            assert(s.take(i + 1).last() == s[i as int]);
            assert(s[i as int] == obs@[i as int]@);
        }
        if obs[i].label == *lab && obs[i].eid == *id {
            c = c + 1;
        }
        i = i + 1;
    }
    proof {
        assert(s.take(s.len() as int) =~= s);
    }
    c
}

} // verus!

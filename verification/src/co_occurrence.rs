use vstd::prelude::*;
use vstd::string::*;
use crate::{CoOccurrence, Ratio, Reflection};
use crate::strorder::{spec_str_le, str_le, lemma_str_le_total};
use crate::timestamp::seq_views;

verus! {

broadcast use vstd::seq_lib::group_to_multiset_ensures;

/// The emotion list of one record: the primary emotion, if any, followed by
/// the related emotions as given, duplicates kept.
pub open spec fn emo_list(r: Reflection) -> Seq<Seq<char>> {
    (match r.emotion_id {
        Option::Some(id) => seq![id@],
        Option::None => Seq::<Seq<char>>::empty(),
    }) + (match r.related_emotions {
        Option::Some(v) => seq_views(v@),
        Option::None => Seq::<Seq<char>>::empty(),
    })
}

/// An unordered pair written with its smaller element first.
pub open spec fn norm_pair(a: Seq<char>, b: Seq<char>) -> (Seq<char>, Seq<char>) {
    if spec_str_le(a, b) {
        (a, b)
    } else {
        (b, a)
    }
}

/// How many positions of `prefix` pair with `x` as the pair `p`.
pub open spec fn count_with(prefix: Seq<Seq<char>>, x: Seq<char>, p: (Seq<char>, Seq<char>)) -> nat
    decreases prefix.len(),
{
    if prefix.len() == 0 {
        0
    } else {
        count_with(prefix.drop_last(), x, p) + (if norm_pair(prefix.last(), x) == p {
            1nat
        } else {
            0nat
        })
    }
}

/// How many position pairs `i < j` of one emotion list form the pair `p`.
pub open spec fn count_pairs_list(l: Seq<Seq<char>>, p: (Seq<char>, Seq<char>)) -> nat
    decreases l.len(),
{
    if l.len() == 0 {
        0
    } else {
        count_pairs_list(l.drop_last(), p) + count_with(l.drop_last(), l.last(), p)
    }
}

/// How often the unordered pair `p` occurs over all records.
pub open spec fn pair_count(rs: Seq<Reflection>, p: (Seq<char>, Seq<char>)) -> nat
    decreases rs.len(),
{
    if rs.len() == 0 {
        0
    } else {
        pair_count(rs.drop_last(), p) + count_pairs_list(emo_list(rs.last()), p)
    }
}

struct PairKey {
    first: String,
    second: String,
}

spec fn key_view(k: PairKey) -> (Seq<char>, Seq<char>) {
    (k.first@, k.second@)
}

spec fn occ_count(t: Seq<PairKey>, p: (Seq<char>, Seq<char>)) -> nat
    decreases t.len(),
{
    if t.len() == 0 {
        0
    } else {
        occ_count(t.drop_last(), p) + (if key_view(t.last()) == p {
            1nat
        } else {
            0nat
        })
    }
}

proof fn lemma_occ_count_pos(t: Seq<PairKey>, p: (Seq<char>, Seq<char>))
    ensures
        occ_count(t, p) > 0 <==> exists|k: int| 0 <= k < t.len() && key_view(#[trigger] t[k]) == p,
    decreases t.len(),
{
    if t.len() > 0 {
        lemma_occ_count_pos(t.drop_last(), p);
        if key_view(t.last()) == p {
            assert(key_view(t[t.len() - 1]) == p);
        } else if occ_count(t, p) > 0 {
            let k = choose|k: int| 0 <= k < t.drop_last().len() && key_view(
                #[trigger] t.drop_last()[k],
            ) == p;
            assert(key_view(t[k]) == p);
        } else {
            if exists|k: int| 0 <= k < t.len() && key_view(#[trigger] t[k]) == p {
                let k = choose|k: int| 0 <= k < t.len() && key_view(#[trigger] t[k]) == p;
                assert(k < t.len() - 1 ==> key_view(t.drop_last()[k]) == p);
            }
        }
    }
}

fn emotions_of(r: &Reflection) -> (v: Vec<String>)
    ensures
        seq_views(v@) == emo_list(*r),
{
    let ghost prim: Seq<Seq<char>> = match &r.emotion_id {
        Option::Some(id) => seq![id@],
        Option::None => Seq::<Seq<char>>::empty(),
    };
    let mut v: Vec<String> = Vec::new();
    match &r.emotion_id {
        Option::Some(id) => {
            v.push(id.clone());
        },
        Option::None => {},
    }
    proof {
        assert(seq_views(v@) =~~= prim);
    }
    match &r.related_emotions {
        Option::Some(rel) => {
            let mut i: usize = 0;
            proof {
                assert(seq_views(v@) =~~= prim + seq_views(rel@.take(0)));
            }
            while i < rel.len()
                invariant
                    i <= rel@.len(),
                    seq_views(v@) == prim + seq_views(rel@.take(i as int)),
                decreases rel@.len() - i,
            {
                let ghost old_v = v@;
                v.push(rel[i].clone());
                proof {
                    assert(seq_views(v@) =~~= seq_views(old_v).push(rel@[i as int]@));
                    assert(seq_views(rel@.take(i + 1)) =~~= seq_views(rel@.take(i as int)).push(
                        rel@[i as int]@,
                    ));
                    assert(seq_views(v@) =~~= prim + seq_views(rel@.take(i + 1)));
                }
                i = i + 1;
            }
            proof {
                assert(rel@.take(rel@.len() as int) =~= rel@);
                assert(seq_views(v@) =~~= emo_list(*r));
            }
        },
        Option::None => {
            proof {
                assert(seq_views(v@) =~~= emo_list(*r));
            }
        },
    }
    v
}

fn norm_pair_exec(a: &String, b: &String) -> (k: PairKey)
    ensures
        key_view(k) == norm_pair(a@, b@),
        spec_str_le(k.first@, k.second@),
{
    proof {
        lemma_str_le_total(a@, b@);
    }
    if str_le(a.as_str(), b.as_str()) {
        PairKey { first: a.clone(), second: b.clone() }
    } else {
        PairKey { first: b.clone(), second: a.clone() }
    }
}

/// One `PairKey` per pair occurrence, over all records.
fn collect_pairs(rs: &Vec<Reflection>) -> (occ: Vec<PairKey>)
    ensures
        forall|p: (Seq<char>, Seq<char>)| #[trigger] occ_count(occ@, p) == pair_count(rs@, p),
        forall|k: int|
            0 <= k < occ@.len() ==> spec_str_le(
                (#[trigger] occ@[k]).first@,
                occ@[k].second@,
            ),
{
    let mut occ: Vec<PairKey> = Vec::new();
    let mut i: usize = 0;
    while i < rs.len()
        invariant
            i <= rs@.len(),
            forall|p: (Seq<char>, Seq<char>)| #[trigger]
                occ_count(occ@, p) == pair_count(rs@.take(i as int), p),
            forall|k: int|
                0 <= k < occ@.len() ==> spec_str_le((#[trigger] occ@[k]).first@, occ@[k].second@),
        decreases rs@.len() - i,
    {
        let el = emotions_of(&rs[i]);
        let ghost l = emo_list(rs@[i as int]);
        let mut j: usize = 0;
        proof {
            assert(l.take(0int) =~= Seq::<Seq<char>>::empty());
        }
        while j < el.len()
            invariant
                j <= el@.len(),
                seq_views(el@) == l,
                forall|p: (Seq<char>, Seq<char>)| #[trigger]
                    occ_count(occ@, p) == pair_count(rs@.take(i as int), p) + count_pairs_list(
                        l.take(j as int),
                        p,
                    ),
                forall|k: int|
                    0 <= k < occ@.len() ==> spec_str_le(
                        (#[trigger] occ@[k]).first@,
                        occ@[k].second@,
                    ),
            decreases el@.len() - j,
        {
            let mut k2: usize = 0;
            while k2 < j
                invariant
                    k2 <= j < el@.len(),
                    seq_views(el@) == l,
                    forall|p: (Seq<char>, Seq<char>)| #[trigger]
                        occ_count(occ@, p) == pair_count(rs@.take(i as int), p)
                            + count_pairs_list(l.take(j as int), p) + count_with(
                            l.take(k2 as int),
                            l[j as int],
                            p,
                        ),
                    forall|k: int|
                        0 <= k < occ@.len() ==> spec_str_le(
                            (#[trigger] occ@[k]).first@,
                            occ@[k].second@,
                        ),
                decreases j - k2,
            {
                let key = norm_pair_exec(&el[k2], &el[j]);
                proof {
                    assert(l[k2 as int] == el@[k2 as int]@);
                    assert(l[j as int] == el@[j as int]@);
                    assert(l.take(k2 + 1).drop_last() =~= l.take(k2 as int));
                    assert(l.take(k2 + 1).last() == l[k2 as int]);
                }
                let ghost old_occ = occ@;
                occ.push(key);
                proof {
                    assert(occ@.drop_last() =~= old_occ);
                    assert(occ@.last() == key);
                    assert forall|p: (Seq<char>, Seq<char>)| #[trigger] occ_count(occ@, p)
                        == pair_count(rs@.take(i as int), p) + count_pairs_list(
                        l.take(j as int),
                        p,
                    ) + count_with(l.take(k2 + 1), l[j as int], p) by {
                        assert(occ_count(occ@, p) == occ_count(old_occ, p) + (if key_view(key)
                            == p {
                            1nat
                        } else {
                            0nat
                        }));
                        assert(count_with(l.take(k2 + 1), l[j as int], p) == count_with(
                            l.take(k2 as int),
                            l[j as int],
                            p,
                        ) + (if norm_pair(l[k2 as int], l[j as int]) == p {
                            1nat
                        } else {
                            0nat
                        }));
                    }
                }
                k2 = k2 + 1;
            }
            proof {
                assert(l.take(j + 1).drop_last() =~= l.take(j as int));
                assert(l.take(j + 1).last() == l[j as int]);
            }
            j = j + 1;
        }
        proof {
            assert(rs@.take(i + 1).drop_last() =~= rs@.take(i as int));
            assert(rs@.take(i + 1).last() == rs@[i as int]);
            assert(l.take(el@.len() as int) =~= l);
        }
        i = i + 1;
    }
    proof {
        assert(rs@.take(rs@.len() as int) =~= rs@);
    }
    occ
}

fn pair_in(keys: &Vec<PairKey>, a: &String, b: &String) -> (found: bool)
    ensures
        found <==> exists|k: int|
            0 <= k < keys@.len() && key_view(#[trigger] keys@[k]) == (a@, b@),
{
    let mut i: usize = 0;
    while i < keys.len()
        invariant
            i <= keys@.len(),
            forall|k: int| 0 <= k < i ==> key_view(#[trigger] keys@[k]) != (a@, b@),
        decreases keys@.len() - i,
    {
        if *a == keys[i].first && *b == keys[i].second {
            return true;
        }
        i = i + 1;
    }
    false
}

/// One key per distinct pair that occurs at all.
fn distinct_pairs(occ: &Vec<PairKey>) -> (keys: Vec<PairKey>)
    ensures
        forall|k: int, l: int|
            0 <= k < l < keys@.len() ==> key_view(#[trigger] keys@[k]) != key_view(
                #[trigger] keys@[l],
            ),
        forall|p: (Seq<char>, Seq<char>)|
            (exists|k: int| 0 <= k < keys@.len() && key_view(#[trigger] keys@[k]) == p) <==> #[trigger] occ_count(occ@, p) > 0,
{
    let mut keys: Vec<PairKey> = Vec::new();
    let mut i: usize = 0;
    proof {
        assert(occ@.take(0) =~= Seq::<PairKey>::empty());
    }
    while i < occ.len()
        invariant
            i <= occ@.len(),
            forall|k: int, l: int|
                0 <= k < l < keys@.len() ==> key_view(#[trigger] keys@[k]) != key_view(
                    #[trigger] keys@[l],
                ),
            forall|p: (Seq<char>, Seq<char>)|
                (exists|k: int| 0 <= k < keys@.len() && key_view(#[trigger] keys@[k]) == p)
                    <==> #[trigger] occ_count(occ@.take(i as int), p) > 0,
        decreases occ@.len() - i,
    {
        let ghost pv = key_view(occ@[i as int]);
        proof {
            assert(occ@.take(i + 1).drop_last() =~= occ@.take(i as int));
            assert(occ@.take(i + 1).last() == occ@[i as int]);
        }
        let found = pair_in(&keys, &occ[i].first, &occ[i].second);
        if !found {
            let key = PairKey { first: occ[i].first.clone(), second: occ[i].second.clone() };
            let ghost old_keys = keys@;
            keys.push(key);
            proof {
                assert(key_view(keys@[keys@.len() - 1]) == pv);
                assert forall|p: (Seq<char>, Seq<char>)|
                    (exists|k: int| 0 <= k < keys@.len() && key_view(#[trigger] keys@[k]) == p)
                        <==> #[trigger] occ_count(occ@.take(i + 1), p) > 0 by {
                    assert(occ_count(occ@.take(i + 1), p) == occ_count(occ@.take(i as int), p)
                        + (if pv == p {
                        1nat
                    } else {
                        0nat
                    }));
                    if p == pv {
                        assert(key_view(keys@[keys@.len() - 1]) == p);
                    } else {
                        if exists|k: int|
                            0 <= k < keys@.len() && key_view(#[trigger] keys@[k]) == p {
                            let k = choose|k: int|
                                0 <= k < keys@.len() && key_view(#[trigger] keys@[k]) == p;
                            assert(k < old_keys.len());
                            assert(key_view(old_keys[k]) == p);
                        }
                        if occ_count(occ@.take(i as int), p) > 0 {
                            let k = choose|k: int|
                                0 <= k < old_keys.len() && key_view(#[trigger] old_keys[k]) == p;
                            assert(key_view(keys@[k]) == p);
                        }
                    }
                }
            }
        } else {
            proof {
                assert forall|p: (Seq<char>, Seq<char>)|
                    (exists|k: int| 0 <= k < keys@.len() && key_view(#[trigger] keys@[k]) == p)
                        <==> #[trigger] occ_count(occ@.take(i + 1), p) > 0 by {
                    assert(occ_count(occ@.take(i + 1), p) == occ_count(occ@.take(i as int), p)
                        + (if pv == p {
                        1nat
                    } else {
                        0nat
                    }));
                    if p == pv {
                        assert(occ_count(occ@.take(i + 1), p) > 0);
                    }
                }
            }
        }
        i = i + 1;
    }
    proof {
        assert(occ@.take(occ@.len() as int) =~= occ@);
    }
    keys
}

fn count_pair(occ: &Vec<PairKey>, a: &String, b: &String) -> (c: usize)
    ensures
        c == occ_count(occ@, (a@, b@)),
{
    let mut c: usize = 0;
    let mut i: usize = 0;
    proof {
        assert(occ@.take(0) =~= Seq::<PairKey>::empty());
    }
    while i < occ.len()
        invariant
            i <= occ@.len(),
            c <= i,
            c == occ_count(occ@.take(i as int), (a@, b@)),
        decreases occ@.len() - i,
    {
        proof {
            assert(occ@.take(i + 1).drop_last() =~= occ@.take(i as int));
            assert(occ@.take(i + 1).last() == occ@[i as int]);
        }
        if occ[i].first == *a && occ[i].second == *b {
            c = c + 1;
        }
        i = i + 1;
    }
    proof {
        assert(occ@.take(occ@.len() as int) =~= occ@);
    }
    c
}

pub open spec fn sorted_desc(s: Seq<CoOccurrence>) -> bool {
    forall|i: int, j: int| 0 <= i < j < s.len() ==> s[i].count >= s[j].count
}

fn insert_desc(out: &mut Vec<CoOccurrence>, x: CoOccurrence)
    requires
        sorted_desc(old(out)@),
    ensures
        sorted_desc(final(out)@),
        final(out)@.to_multiset() == old(out)@.to_multiset().insert(x),
        final(out)@.len() == old(out)@.len() + 1,
{
    broadcast use vstd::seq_lib::group_to_multiset_ensures;

    let mut k = out.len();
    while k > 0 && out[k - 1].count < x.count
        invariant
            k <= out@.len(),
            out@ == old(out)@,
            forall|j: int| k <= j < out@.len() ==> out@[j].count < x.count,
        decreases k,
    {
        k = k - 1;
    }
    out.insert(k, x);
    proof {
        let t = old(out)@;
        assert(out@ =~= t.take(k as int) + seq![x] + t.skip(k as int));
        assert forall|i: int, j: int| 0 <= i < j < out@.len() implies out@[i].count
            >= out@[j].count by {
            if i < k && j > k {
                assert(out@[i] == t[i] && out@[j] == t[j - 1]);
            }
        }
    }
}

/// Two equal values at distinct positions put the value twice into the
/// multiset.
proof fn lemma_dup_count(s: Seq<CoOccurrence>, k: int, l: int)
    requires
        0 <= k < l < s.len(),
        s[k] == s[l],
    ensures
        s.to_multiset().count(s[k]) >= 2,
{
    broadcast use vstd::seq_lib::group_to_multiset_ensures;
    broadcast use vstd::multiset::group_multiset_axioms;

    let s2 = s.remove(k);
    assert(s2[l - 1] == s[l]);
    assert(s2.contains(s[l]));
    assert(s2.to_multiset().count(s[k]) >= 1);
    assert(s.to_multiset().count(s[k]) == s2.to_multiset().count(s[k]) + 1);
}

/// The spoken contract of one output entry: its pair is ordered, its count
/// is the pair's tally over all records, and its percentage is the exact
/// share `count * 100 / total`.
pub open spec fn co_entry_ok(rs: Seq<Reflection>, e: CoOccurrence) -> bool {
    &&& spec_str_le(e.emotion_pair.0@, e.emotion_pair.1@)
    &&& e.count == pair_count(rs, (e.emotion_pair.0@, e.emotion_pair.1@))
    &&& e.count >= 1
    &&& e.percentage == (Ratio { num: (e.count * 100) as i128, den: rs.len() as usize })
}

/// Counts how often each unordered pair of distinct emotion-list positions
/// occurs over all records, and hands back the pairs ranked by count
/// descending, at most the top 20. Every pair that occurs at all appears
/// whenever fewer than 20 made the cut.
pub fn compute_co_occurrence(reflections: &Vec<Reflection>) -> (r: Vec<CoOccurrence>)
    ensures
        r@.len() <= 20,
        forall|k: int| 0 <= k < r@.len() ==> co_entry_ok(reflections@, #[trigger] r@[k]),
        forall|k: int, l: int|
            0 <= k < l < r@.len() ==> ((#[trigger] r@[k]).emotion_pair.0@, r@[k].emotion_pair.1@)
                != ((#[trigger] r@[l]).emotion_pair.0@, r@[l].emotion_pair.1@),
        forall|k: int, l: int|
            0 <= k < l < r@.len() ==> (#[trigger] r@[k]).count >= (#[trigger] r@[l]).count,
        r@.len() < 20 ==> forall|p: (Seq<char>, Seq<char>)|
            #[trigger] pair_count(reflections@, p) > 0 ==> exists|k: int|
                0 <= k < r@.len() && ((#[trigger] r@[k]).emotion_pair.0@, r@[k].emotion_pair.1@)
                    == p,
        forall|p: (Seq<char>, Seq<char>)|
            #[trigger] pair_count(reflections@, p) > 0 ==> ((exists|k: int|
                0 <= k < r@.len() && ((#[trigger] r@[k]).emotion_pair.0@, r@[k].emotion_pair.1@)
                    == p) || (r@.len() == 20 && pair_count(reflections@, p) <= r@[19].count)),
{
    broadcast use vstd::seq_lib::group_to_multiset_ensures;

    let total = reflections.len();
    let occ = collect_pairs(reflections);
    let keys = distinct_pairs(&occ);
    let mut entries: Vec<CoOccurrence> = Vec::new();
    let mut i: usize = 0;
    while i < keys.len()
        invariant
            i <= keys@.len(),
            total == reflections@.len(),
            forall|p: (Seq<char>, Seq<char>)| #[trigger]
                occ_count(occ@, p) == pair_count(reflections@, p),
            forall|k: int|
                0 <= k < occ@.len() ==> spec_str_le((#[trigger] occ@[k]).first@, occ@[k].second@),
            forall|k: int, l: int|
                0 <= k < l < keys@.len() ==> key_view(#[trigger] keys@[k]) != key_view(
                    #[trigger] keys@[l],
                ),
            forall|p: (Seq<char>, Seq<char>)|
                (exists|k: int| 0 <= k < keys@.len() && key_view(#[trigger] keys@[k]) == p)
                    <==> #[trigger] occ_count(occ@, p) > 0,
            entries@.len() == i,
            forall|k: int|
                0 <= k < i ==> ((#[trigger] entries@[k]).emotion_pair.0@,
                entries@[k].emotion_pair.1@) == key_view(keys@[k]),
            forall|k: int| 0 <= k < i ==> co_entry_ok(reflections@, #[trigger] entries@[k]),
        decreases keys@.len() - i,
    {
        let c = count_pair(&occ, &keys[i].first, &keys[i].second);
        proof {
            lemma_occ_count_pos(occ@, key_view(keys@[i as int]));
            assert(key_view(keys@[i as int]) == key_view(keys@[i as int]));
            assert(occ_count(occ@, key_view(keys@[i as int])) > 0);
            let k = choose|k: int|
                0 <= k < occ@.len() && key_view(#[trigger] occ@[k]) == key_view(keys@[i as int]);
            assert(spec_str_le(occ@[k].first@, occ@[k].second@));
        }
        let e = CoOccurrence {
            emotion_pair: (keys[i].first.clone(), keys[i].second.clone()),
            count: c,
            percentage: Ratio { num: (c as i128) * 100, den: total },
        };
        entries.push(e);
        i = i + 1;
    }
    let mut rest = entries;
    let ghost entries0 = rest@;
    let mut sorted: Vec<CoOccurrence> = Vec::new();
    proof {
        assert(entries0.skip(entries0.len() as int) =~= Seq::<CoOccurrence>::empty());
    }
    while rest.len() > 0
        invariant
            rest@ == entries0.take(rest@.len() as int),
            sorted_desc(sorted@),
            sorted@.to_multiset() == entries0.skip(rest@.len() as int).to_multiset(),
            sorted@.len() + rest@.len() == entries0.len(),
        decreases rest@.len(),
    {
        let ghost m = rest@.len() as int;
        let e = rest.pop().unwrap();
        proof {
            assert(rest@ =~= entries0.take(m - 1));
            assert(e == entries0[m - 1]);
            assert(entries0.skip(m - 1) =~= entries0.skip(m).insert(0, entries0[m - 1]));
        }
        insert_desc(&mut sorted, e);
    }
    proof {
        assert(entries0.skip(0) =~= entries0);
        assert forall|k: int, l: int|
            0 <= k < l < entries0.len() implies entries0[k] != entries0[l] by {
            assert(key_view(keys@[k]) != key_view(keys@[l]));
        }
        entries0.lemma_multiset_has_no_duplicates();
        assert forall|k: int| 0 <= k < sorted@.len() implies co_entry_ok(
            reflections@,
            #[trigger] sorted@[k],
        ) by {
            assert(sorted@.to_multiset().count(sorted@[k]) > 0);
            assert(entries0.contains(sorted@[k]));
        }
        assert forall|k: int, l: int|
            0 <= k < l < sorted@.len() implies ((#[trigger] sorted@[k]).emotion_pair.0@,
        sorted@[k].emotion_pair.1@) != ((#[trigger] sorted@[l]).emotion_pair.0@,
        sorted@[l].emotion_pair.1@) by {
            let e1 = sorted@[k];
            let e2 = sorted@[l];
            if (e1.emotion_pair.0@, e1.emotion_pair.1@) == (e2.emotion_pair.0@,
            e2.emotion_pair.1@) {
                assert(sorted@.to_multiset().count(e1) > 0);
                assert(entries0.contains(e1));
                assert(sorted@.to_multiset().count(e2) > 0);
                assert(entries0.contains(e2));
                let j1 = choose|j: int| 0 <= j < entries0.len() && entries0[j] == e1;
                let j2 = choose|j: int| 0 <= j < entries0.len() && entries0[j] == e2;
                assert((e1.emotion_pair.0@, e1.emotion_pair.1@) == key_view(keys@[j1]));
                assert((e2.emotion_pair.0@, e2.emotion_pair.1@) == key_view(keys@[j2]));
                if j1 != j2 {
                    assert(key_view(keys@[j1]) != key_view(keys@[j2]));
                } else {
                    assert(e1 == e2);
                    lemma_dup_count(sorted@, k, l);
                    assert(entries0.to_multiset().count(e1) >= 2);
                    assert(entries0.to_multiset().count(e1) == 1);
                }
            }
        }
    }
    let ghost full = sorted@;
    if sorted.len() > 20 {
        sorted.truncate(20);
        proof {
            assert(forall|k: int| 0 <= k < sorted@.len() ==> #[trigger] sorted@[k] == full[k]);
            assert forall|p: (Seq<char>, Seq<char>)| #[trigger] pair_count(reflections@, p)
                > 0 implies ((exists|k: int|
                0 <= k < sorted@.len() && ((#[trigger] sorted@[k]).emotion_pair.0@,
                sorted@[k].emotion_pair.1@) == p) || (sorted@.len() == 20 && pair_count(
                reflections@,
                p,
            ) <= sorted@[19].count)) by {
                assert(occ_count(occ@, p) > 0);
                let k0 = choose|k: int| 0 <= k < keys@.len() && key_view(#[trigger] keys@[k])
                    == p;
                let e = entries0[k0];
                assert((e.emotion_pair.0@, e.emotion_pair.1@) == p);
                assert(entries0.to_multiset().count(e) > 0);
                assert(full.contains(e));
                let k = choose|k: int| 0 <= k < full.len() && full[k] == e;
                if k < 20 {
                    assert(sorted@[k] == full[k]);
                } else {
                    assert(full[19].count >= full[k].count);
                    assert(co_entry_ok(reflections@, full[k]));
                    assert(sorted@[19] == full[19]);
                }
            }
        }
    } else {
        proof {
            assert forall|p: (Seq<char>, Seq<char>)|
                #[trigger] pair_count(reflections@, p) > 0 implies exists|k: int|
                0 <= k < sorted@.len() && ((#[trigger] sorted@[k]).emotion_pair.0@,
                sorted@[k].emotion_pair.1@) == p by {
                assert(occ_count(occ@, p) > 0);
                let k = choose|k: int| 0 <= k < keys@.len() && key_view(#[trigger] keys@[k]) == p;
                let e = entries0[k];
                assert((e.emotion_pair.0@, e.emotion_pair.1@) == p);
                assert(entries0.to_multiset().count(e) > 0);
                assert(sorted@.contains(e));
                let k2 = choose|k2: int| 0 <= k2 < sorted@.len() && sorted@[k2] == e;
                assert(((sorted@[k2]).emotion_pair.0@, sorted@[k2].emotion_pair.1@) == p);
            }
        }
    }
    sorted
}

} // verus!

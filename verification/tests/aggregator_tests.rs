use emolytics::co_occurrence::compute_co_occurrence;
use emolytics::time_patterns::compute_time_patterns;
use emolytics::trends::compute_trends;
use emolytics::{CoOccurrence, Reflection, TimePattern, TrendDataPoint};

fn reflection(
    timestamp: &str,
    emotion_id: Option<&str>,
    emotion_name: Option<&str>,
    intensity: Option<i32>,
    related: Option<Vec<&str>>,
) -> Reflection {
    Reflection {
        timestamp: timestamp.to_string(),
        emotion_id: emotion_id.map(|s| s.to_string()),
        emotion_name: emotion_name.map(|s| s.to_string()),
        intensity,
        related_emotions: related.map(|v| v.into_iter().map(|s| s.to_string()).collect()),
        location: None,
        people: None,
        coping_strategies: None,
        mood_before: None,
        mood_after: None,
    }
}

#[test]
fn test_compute_co_occurrence() {
    let reflections = vec![reflection(
        "2024-01-15T10:00:00Z",
        Some("joy"),
        Some("Joy"),
        Some(7),
        Some(vec!["excitement"]),
    )];

    let result = compute_co_occurrence(&reflections);
    assert!(!result.is_empty());
}

#[test]
fn test_compute_co_occurrence_no_related() {
    let reflections = vec![reflection(
        "2024-01-15T10:00:00Z",
        Some("joy"),
        Some("Joy"),
        Some(7),
        None,
    )];

    let result = compute_co_occurrence(&reflections);
    // No pairs if only one emotion
    assert_eq!(result.len(), 0);
}

#[test]
fn test_co_occurrence_single_pair() {
    let reflections = vec![reflection(
        "2024-01-15T10:00:00Z",
        Some("joy"),
        Some("Joy"),
        Some(7),
        Some(vec!["excitement"]),
    )];
    let result = compute_co_occurrence(&reflections);
    assert_eq!(result.len(), 1);
    assert_eq!(result[0].emotion_pair.0, "excitement");
    assert_eq!(result[0].emotion_pair.1, "joy");
    assert_eq!(result[0].count, 1);
    // percentage = count / total * 100 = 100, exactly
    assert_eq!(result[0].percentage.num, 100);
    assert_eq!(result[0].percentage.den, 1);
}

#[test]
fn test_co_occurrence_truncates_to_twenty_sorted() {
    // one record pairing "hub" with 25 distinct others, then repeats of one pair
    let mut reflections = Vec::new();
    let others: Vec<String> = (0..25).map(|i| format!("e{:02}", i)).collect();
    reflections.push(reflection(
        "2024-01-15T10:00:00Z",
        Some("hub"),
        Some("Hub"),
        None,
        Some(others.iter().map(|s| s.as_str()).collect()),
    ));
    for _ in 0..3 {
        reflections.push(reflection(
            "2024-01-16T11:00:00Z",
            Some("hub"),
            Some("Hub"),
            None,
            Some(vec!["e00"]),
        ));
    }
    let result = compute_co_occurrence(&reflections);
    assert_eq!(result.len(), 20);
    for w in result.windows(2) {
        assert!(w[0].count >= w[1].count);
    }
    assert_eq!(result[0].emotion_pair, ("e00".to_string(), "hub".to_string()));
    assert_eq!(result[0].count, 4);
}

#[test]
fn test_time_patterns_single_record() {
    let reflections = vec![reflection(
        "2024-01-15T10:00:00Z",
        Some("joy"),
        Some("Joy"),
        Some(7),
        None,
    )];
    let r = compute_time_patterns(&reflections);
    // 2024-01-15 is a Monday, 10:00 is morning
    assert_eq!(r.day_of_week.len(), 1);
    assert_eq!(r.day_of_week[0].period, "monday");
    assert_eq!(r.day_of_week[0].count, 1);
    assert_eq!(r.time_of_day.len(), 1);
    assert_eq!(r.time_of_day[0].period, "morning");
    assert_eq!(r.month.len(), 1);
    assert_eq!(r.month[0].period, "2024-01");
    let avg = r.day_of_week[0].average_intensity.unwrap();
    assert_eq!(avg.num, 7);
    assert_eq!(avg.den, 1);
    assert_eq!(r.day_of_week[0].top_emotions.len(), 1);
    assert_eq!(r.day_of_week[0].top_emotions[0].emotion_id, "joy");
    assert_eq!(r.day_of_week[0].top_emotions[0].emotion_name, "Joy");
    assert_eq!(r.day_of_week[0].top_emotions[0].count, 1);
}

#[test]
fn test_time_patterns_counts_sum_to_parseable() {
    let reflections = vec![
        reflection("2024-01-15T10:00:00Z", Some("joy"), Some("Joy"), Some(5), None),
        reflection("2024-01-16T22:00:00Z", Some("calm"), Some("Calm"), None, None),
        reflection("not a timestamp", Some("fear"), Some("Fear"), Some(2), None),
        reflection("2024-02-01T13:00:00Z", None, None, Some(3), None),
    ];
    let r = compute_time_patterns(&reflections);
    let parseable = 3usize;
    for dim in [&r.day_of_week, &r.time_of_day, &r.month] {
        let total: usize = dim.iter().map(|p| p.count).sum();
        assert_eq!(total, parseable);
    }
    // the record without an emotion falls back to the literal placeholders
    let feb = r.month.iter().find(|p| p.period == "2024-02").unwrap();
    assert_eq!(feb.top_emotions[0].emotion_id, "unknown");
    assert_eq!(feb.top_emotions[0].emotion_name, "Unknown");
}

#[test]
fn test_time_patterns_canonical_day_order() {
    let reflections = vec![
        reflection("2024-01-20T10:00:00Z", Some("a"), Some("A"), None, None), // saturday
        reflection("2024-01-15T10:00:00Z", Some("b"), Some("B"), None, None), // monday
        reflection("2024-01-14T10:00:00Z", Some("c"), Some("C"), None, None), // sunday
    ];
    let r = compute_time_patterns(&reflections);
    let days: Vec<&str> = r.day_of_week.iter().map(|p| p.period.as_str()).collect();
    assert_eq!(days, vec!["sunday", "monday", "saturday"]);
}

#[test]
fn test_top_emotions_truncated_to_five_sorted() {
    let mut reflections = Vec::new();
    for (i, id) in ["a", "b", "c", "d", "e", "f", "g"].iter().enumerate() {
        // emotion i appears i+1 times, all on the same Monday morning
        for _ in 0..=i {
            reflections.push(reflection(
                "2024-01-15T10:00:00Z",
                Some(id),
                Some(id),
                None,
                None,
            ));
        }
    }
    let r = compute_time_patterns(&reflections);
    let top = &r.day_of_week[0].top_emotions;
    assert_eq!(top.len(), 5);
    for w in top.windows(2) {
        assert!(w[0].count >= w[1].count);
    }
    assert_eq!(top[0].emotion_id, "g");
    assert_eq!(top[0].count, 7);
}

#[test]
fn test_trends_sorted_by_label() {
    let reflections = vec![
        reflection("2024-02-01T10:00:00Z", Some("a"), Some("A"), Some(4), None),
        reflection("2024-01-15T10:00:00Z", Some("b"), Some("B"), Some(2), None),
        reflection("2024-01-15T18:00:00Z", Some("b"), Some("B"), Some(6), None),
        reflection("2023-12-31T00:30:00Z", Some("c"), Some("C"), None, None),
    ];
    let r = compute_trends(&reflections);
    let daily: Vec<&str> = r.daily.iter().map(|p| p.date.as_str()).collect();
    assert_eq!(daily, vec!["2023-12-31", "2024-01-15", "2024-02-01"]);
    let monthly: Vec<&str> = r.monthly.iter().map(|p| p.date.as_str()).collect();
    assert_eq!(monthly, vec!["2023-12", "2024-01", "2024-02"]);
    let weekly: Vec<&str> = r.weekly.iter().map(|p| p.date.as_str()).collect();
    assert_eq!(weekly, vec!["2023-W53", "2024-W03", "2024-W05"]);

    let jan15 = &r.daily[1];
    assert_eq!(jan15.count, 2);
    let avg = jan15.average_intensity.unwrap();
    assert_eq!(avg.num, 8);
    assert_eq!(avg.den, 2);
    let top = jan15.top_emotion.as_ref().unwrap();
    assert_eq!(top.emotion_id, "b");
    assert_eq!(top.count, 2);
}

#[test]
fn test_trends_counts_sum_to_parseable() {
    let reflections = vec![
        reflection("2024-01-15T10:00:00Z", Some("joy"), Some("Joy"), Some(5), None),
        reflection("garbage", Some("x"), Some("X"), None, None),
        reflection("2024-01-15T11:00:00Z", Some("joy"), Some("Joy"), None, None),
        reflection("2024-03-02T03:00:00Z", Some("calm"), Some("Calm"), None, None),
    ];
    let r = compute_trends(&reflections);
    for series in [&r.daily, &r.weekly, &r.monthly] {
        let total: usize = series.iter().map(|p| p.count).sum();
        assert_eq!(total, 3);
    }
}

fn patterns_eq(a: &[TimePattern], b: &[TimePattern]) -> bool {
    a.len() == b.len()
        && a.iter().zip(b.iter()).all(|(x, y)| {
            x.period == y.period && x.count == y.count && x.average_intensity
                == y.average_intensity && x.top_emotions.len() == y.top_emotions.len()
                && x.top_emotions.iter().zip(y.top_emotions.iter()).all(|(p, q)| {
                    p.emotion_id == q.emotion_id && p.emotion_name == q.emotion_name && p.count
                        == q.count
                })
        })
}

fn trends_eq(a: &[TrendDataPoint], b: &[TrendDataPoint]) -> bool {
    a.len() == b.len()
        && a.iter().zip(b.iter()).all(|(x, y)| {
            x.date == y.date && x.count == y.count && x.average_intensity == y.average_intensity
                && match (&x.top_emotion, &y.top_emotion) {
                    (Some(p), Some(q)) => {
                        p.emotion_id == q.emotion_id && p.emotion_name == q.emotion_name
                            && p.count == q.count
                    },
                    (None, None) => true,
                    _ => false,
                }
        })
}

fn co_eq(a: &[CoOccurrence], b: &[CoOccurrence]) -> bool {
    a.len() == b.len()
        && a.iter().zip(b.iter()).all(|(x, y)| {
            x.emotion_pair == y.emotion_pair && x.count == y.count && x.percentage == y.percentage
        })
}

#[test]
fn test_aggregators_rerun_identically() {
    let reflections = vec![
        reflection("2024-01-15T10:00:00Z", Some("joy"), Some("Joy"), Some(7), Some(vec![
            "excitement",
            "calm",
        ])),
        reflection("2024-01-16T23:00:00Z", Some("calm"), Some("Calm"), None, Some(vec!["joy"])),
        reflection("bad", Some("fear"), Some("Fear"), Some(1), Some(vec!["joy", "calm"])),
        reflection("2024-02-29T05:00:00Z", None, None, Some(4), None),
    ];
    let p1 = compute_time_patterns(&reflections);
    let p2 = compute_time_patterns(&reflections);
    assert!(patterns_eq(&p1.day_of_week, &p2.day_of_week));
    assert!(patterns_eq(&p1.time_of_day, &p2.time_of_day));
    assert!(patterns_eq(&p1.month, &p2.month));

    let t1 = compute_trends(&reflections);
    let t2 = compute_trends(&reflections);
    assert!(trends_eq(&t1.daily, &t2.daily));
    assert!(trends_eq(&t1.weekly, &t2.weekly));
    assert!(trends_eq(&t1.monthly, &t2.monthly));

    let c1 = compute_co_occurrence(&reflections);
    let c2 = compute_co_occurrence(&reflections);
    assert!(co_eq(&c1, &c2));
}

#[test]
fn test_co_occurrence_counts_unparseable_records() {
    // time plays no part here: the record with a broken timestamp still
    // counts toward the total and its pairs
    let reflections = vec![
        reflection("broken", Some("a"), Some("A"), None, Some(vec!["b"])),
        reflection("2024-01-15T10:00:00Z", Some("a"), Some("A"), None, Some(vec!["b"])),
    ];
    let r = compute_co_occurrence(&reflections);
    assert_eq!(r.len(), 1);
    assert_eq!(r[0].count, 2);
    assert_eq!(r[0].percentage.num, 200);
    assert_eq!(r[0].percentage.den, 2);
}

#[test]
fn test_aggregators_on_empty_input() {
    let reflections: Vec<Reflection> = Vec::new();
    let p = compute_time_patterns(&reflections);
    assert!(p.day_of_week.is_empty() && p.time_of_day.is_empty() && p.month.is_empty());
    let t = compute_trends(&reflections);
    assert!(t.daily.is_empty() && t.weekly.is_empty() && t.monthly.is_empty());
    let c = compute_co_occurrence(&reflections);
    assert!(c.is_empty());
}

#[test]
fn test_co_occurrence_count_ties_as_set() {
    // two pairs with equal counts: their mutual order is unspecified,
    // so assert the set of pairs, not the order
    let reflections = vec![
        reflection("2024-01-15T10:00:00Z", Some("a"), Some("A"), None, Some(vec!["b"])),
        reflection("2024-01-15T11:00:00Z", Some("c"), Some("C"), None, Some(vec!["d"])),
    ];
    let r = compute_co_occurrence(&reflections);
    assert_eq!(r.len(), 2);
    let mut pairs: Vec<(String, String)> =
        r.iter().map(|c| c.emotion_pair.clone()).collect();
    pairs.sort();
    assert_eq!(pairs[0], ("a".to_string(), "b".to_string()));
    assert_eq!(pairs[1], ("c".to_string(), "d".to_string()));
    assert!(r.iter().all(|c| c.count == 1));
    assert!(r.iter().all(|c| c.percentage.num == 100 && c.percentage.den == 2));
}

#[test]
fn test_duplicate_emotion_in_record_self_pairs() {
    // the primary emotion repeated among the related ones pairs with itself
    let reflections = vec![reflection(
        "2024-01-15T10:00:00Z",
        Some("joy"),
        Some("Joy"),
        None,
        Some(vec!["joy"]),
    )];
    let r = compute_co_occurrence(&reflections);
    assert_eq!(r.len(), 1);
    assert_eq!(r[0].emotion_pair, ("joy".to_string(), "joy".to_string()));
    assert_eq!(r[0].count, 1);
}

use track::bucket::aggregate;
use track::entry::Entry;
use track::error::TrackError;
use track::query::{query, DayGroup};
use track::render::render;
use track::stamp::Timestamp;
use track::value::classify;

fn entry(day: &str, category: &str, value: &str) -> Entry {
    Entry {
        timestamp: Timestamp::parse(&format!("{}T12:00:00+00:00", day)).ok().unwrap(),
        category: category.to_string(),
        value: classify(value).unwrap(),
    }
}

fn day_of(day: &str) -> i32 {
    Timestamp::parse(&format!("{}T12:00:00+00:00", day)).ok().unwrap().day()
}

fn logs(g: &DayGroup, k: usize) -> Vec<(String, usize)> {
    let mut v: Vec<(String, usize)> =
        g.categories[k].bucket.logs.iter().map(|l| (l.text.clone(), l.count)).collect();
    v.sort();
    v
}

fn units(g: &DayGroup, k: usize) -> Vec<(String, i128)> {
    let mut v: Vec<(String, i128)> =
        g.categories[k].bucket.quantities.iter().map(|u| (u.unit.clone(), u.total)).collect();
    v.sort();
    v
}

#[test]
fn aggregation_counts_logs_and_sums_units() {
    let es = vec![
        entry("2024-03-05", "work", "coding"),
        entry("2024-03-05", "work", "coding"),
        entry("2024-03-05", "work", "5km"),
    ];
    let groups = query(&es, "work", 7, day_of("2024-03-06")).ok().unwrap();
    assert_eq!(groups.len(), 1);
    assert_eq!(groups[0].day, day_of("2024-03-05"));
    assert_eq!(groups[0].categories.len(), 1);
    assert_eq!(groups[0].categories[0].category, "work");
    assert_eq!(logs(&groups[0], 0), vec![("coding".to_string(), 2)]);
    assert_eq!(units(&groups[0], 0), vec![("km".to_string(), 5_000_000)]);
}

#[test]
fn aggregate_keeps_units_apart() {
    let es = vec![
        entry("2024-03-05", "run", "5km"),
        entry("2024-03-05", "run", "2.5km"),
        entry("2024-03-05", "run", "30min"),
        entry("2024-03-05", "run", "easy"),
    ];
    let b = aggregate(&es);
    let mut u: Vec<(String, i128)> = b.quantities.iter().map(|x| (x.unit.clone(), x.total)).collect();
    u.sort();
    assert_eq!(u, vec![("km".to_string(), 7_500_000), ("min".to_string(), 30_000_000)]);
    assert_eq!(b.logs.len(), 1);
    assert_eq!(b.logs[0].count, 1);
}

#[test]
fn range_boundary_is_strict() {
    let today = day_of("2024-03-10");
    let es = vec![entry("2024-03-03", "work", "old"), entry("2024-03-04", "work", "new")];
    let groups = query(&es, "work", 7, today).ok().unwrap();
    assert_eq!(groups.len(), 1);
    assert_eq!(groups[0].day, day_of("2024-03-04"));
    assert_eq!(logs(&groups[0], 0), vec![("new".to_string(), 1)]);
}

#[test]
fn negative_range_is_rejected() {
    let es = vec![entry("2024-03-03", "work", "x")];
    assert_eq!(query(&es, "work", -1, day_of("2024-03-03")).err().unwrap(), TrackError::InvalidRange);
}

#[test]
fn filter_is_substring_match() {
    let es = vec![entry("2024-03-05", "work:coding", "x"), entry("2024-03-05", "home", "y")];
    let groups = query(&es, "work", 7, day_of("2024-03-05")).ok().unwrap();
    assert_eq!(groups.len(), 1);
    assert_eq!(groups[0].categories.len(), 1);
    assert_eq!(groups[0].categories[0].category, "work:coding");
    let all = query(&es, "", 7, day_of("2024-03-05")).ok().unwrap();
    assert_eq!(all[0].categories.len(), 2);
}

#[test]
fn days_in_first_seen_order_and_categories_sorted() {
    let es = vec![
        entry("2024-03-06", "work", "a"),
        entry("2024-03-05", "sleep", "8h"),
        entry("2024-03-06", "bike", "b"),
        entry("2024-03-05", "run", "c"),
        entry("2024-03-06", "run", "d"),
    ];
    let groups = query(&es, "", 30, day_of("2024-03-07")).ok().unwrap();
    assert_eq!(groups.len(), 2);
    assert_eq!(groups[0].day, day_of("2024-03-06"));
    assert_eq!(groups[1].day, day_of("2024-03-05"));
    let cats: Vec<&str> = groups[0].categories.iter().map(|c| c.category.as_str()).collect();
    assert_eq!(cats, vec!["bike", "run", "work"]);
    let cats: Vec<&str> = groups[1].categories.iter().map(|c| c.category.as_str()).collect();
    assert_eq!(cats, vec!["run", "sleep"]);
}

#[test]
fn render_shows_day_and_category_once() {
    let es = vec![
        entry("2024-03-05", "work", "coding"),
        entry("2024-03-05", "work", "coding"),
        entry("2024-03-05", "work", "5km"),
        entry("2024-03-05", "zzz", "nap"),
    ];
    let groups = query(&es, "", 7, day_of("2024-03-06")).ok().unwrap();
    let lines = render(&groups);
    assert_eq!(
        lines,
        vec![
            format!("{0: <12} {1: <15} {2: <15}", "05 Mar 2024", "work", "codingx2"),
            format!("{0: <12} {1: <15} {2: <15}", "", "", "5km"),
            format!("{0: <12} {1: <15} {2: <15}", "", "zzz", "nap"),
        ]
    );
}

#[test]
fn query_of_no_entries_is_empty() {
    let es: Vec<Entry> = Vec::new();
    let groups = query(&es, "work", 0, day_of("2024-03-05")).ok().unwrap();
    assert!(groups.is_empty());
    assert!(render(&groups).is_empty());
}

#[test]
fn zero_range_keeps_only_later_days() {
    let es = vec![entry("2024-03-05", "work", "today"), entry("2024-03-06", "work", "tomorrow")];
    let groups = query(&es, "work", 0, day_of("2024-03-05")).ok().unwrap();
    assert_eq!(groups.len(), 1);
    assert_eq!(groups[0].day, day_of("2024-03-06"));
}

#[test]
fn render_sums_fractional_quantities() {
    let es = vec![entry("2024-03-05", "water", "0.25l"), entry("2024-03-05", "water", "1.5l")];
    let groups = query(&es, "water", 7, day_of("2024-03-05")).ok().unwrap();
    let lines = render(&groups);
    assert_eq!(lines, vec![format!("{0: <12} {1: <15} {2: <15}", "05 Mar 2024", "water", "1.75l")]);
}

use cargo_libyear::{
    arrange, build, bytes_come_before, comes_before, resolve_all, sort_entries,
    total_elapsed_nanos, DependencyFreshness, Lookup, RegistryResponse, ResolvedDependency, SortBy,
    Timestamp, VersionRecord, NANOS_PER_LIBYEAR,
};

const START: i64 = 1_600_000_000_000_000_000;

fn nanos(libyears: f64) -> i64 {
    (libyears * NANOS_PER_LIBYEAR as f64).round() as i64
}

fn at(nanos: i64) -> Timestamp {
    Timestamp::from_unix_nanos(nanos).unwrap()
}

fn entry(name: &str, elapsed: i64) -> DependencyFreshness {
    DependencyFreshness {
        name: name.to_string(),
        current_version: "1.0.0".to_string(),
        current_published_at: at(START),
        latest_version: "1.1.0".to_string(),
        latest_published_at: at(START + elapsed),
        elapsed_nanos: elapsed,
    }
}

fn lookup(name: &str, libyears: f64) -> Lookup {
    Lookup {
        dependency: ResolvedDependency {
            name: name.to_string(),
            current_version: "1.0.0".to_string(),
        },
        response: RegistryResponse::Versions(vec![
            VersionRecord { number: "1.0.0".to_string(), published_at: at(START) },
            VersionRecord {
                number: "1.1.0".to_string(),
                published_at: at(START + nanos(libyears)),
            },
        ]),
    }
}

fn failing(name: &str, response: RegistryResponse) -> Lookup {
    Lookup {
        dependency: ResolvedDependency {
            name: name.to_string(),
            current_version: "1.0.0".to_string(),
        },
        response,
    }
}

fn names(entries: &[DependencyFreshness]) -> Vec<&str> {
    entries.iter().map(|entry| entry.name.as_str()).collect()
}

fn libyears(elapsed: i128) -> f64 {
    elapsed as f64 / NANOS_PER_LIBYEAR as f64
}

#[test]
fn report_by_name_shows_everything() {
    let lookups = vec![lookup("alpha", 1.0), lookup("beta", 0.3), lookup("zebra", 0.5)];

    let report = build(&lookups, SortBy::Alphabetical, None);

    assert_eq!(names(&report.entries), ["alpha", "beta", "zebra"]);
    assert_eq!(report.total_elapsed_nanos, 56_802_513_600_000_000);
    assert_eq!(libyears(report.total_elapsed_nanos), 1.8);
}

#[test]
fn report_by_libyear_cut_to_two() {
    let lookups = vec![lookup("alpha", 1.0), lookup("beta", 0.3), lookup("zebra", 0.5)];

    let report = build(&lookups, SortBy::Libyear, Some(2));

    assert_eq!(names(&report.entries), ["alpha", "zebra"]);
    assert_eq!(libyears(report.entries[0].elapsed_nanos as i128), 1.0);
    assert_eq!(libyears(report.entries[1].elapsed_nanos as i128), 0.5);
    assert_eq!(libyears(report.total_elapsed_nanos), 1.8);
}

#[test]
fn total_is_the_same_under_every_order_and_cut() {
    let lookups = || vec![lookup("c", 0.25), lookup("a", 2.0), lookup("b", 0.75), lookup("d", 0.0)];
    let expected = nanos(0.25) as i128 + nanos(2.0) as i128 + nanos(0.75) as i128;

    for sort in [SortBy::Alphabetical, SortBy::Libyear] {
        for top in [None, Some(0), Some(1), Some(3), Some(4), Some(9)] {
            assert_eq!(build(&lookups(), sort, top).total_elapsed_nanos, expected);
        }
    }
    assert_eq!(total_elapsed_nanos(&resolve_all(&lookups())), expected);
    assert_eq!(libyears(expected), 3.0);
}

#[test]
fn top_keeps_the_lesser_of_count_and_entries() {
    let lookups = vec![lookup("c", 0.25), lookup("a", 2.0), lookup("b", 0.75)];

    assert_eq!(names(&build(&lookups, SortBy::Alphabetical, Some(0)).entries), [""; 0]);
    assert_eq!(names(&build(&lookups, SortBy::Alphabetical, Some(1)).entries), ["a"]);
    assert_eq!(names(&build(&lookups, SortBy::Alphabetical, Some(2)).entries), ["a", "b"]);
    assert_eq!(names(&build(&lookups, SortBy::Alphabetical, Some(3)).entries), ["a", "b", "c"]);
    assert_eq!(names(&build(&lookups, SortBy::Alphabetical, Some(4)).entries), ["a", "b", "c"]);
    assert_eq!(
        names(&build(&lookups, SortBy::Alphabetical, Some(usize::MAX)).entries),
        ["a", "b", "c"]
    );
    assert_eq!(names(&build(&lookups, SortBy::Libyear, Some(2)).entries), ["a", "b"]);
}

#[test]
fn top_counts_only_what_resolved() {
    let lookups = vec![
        lookup("c", 0.25),
        failing("x", RegistryResponse::Unavailable),
        lookup("a", 2.0),
        failing("y", RegistryResponse::Versions(Vec::new())),
    ];

    let report = build(&lookups, SortBy::Alphabetical, Some(3));

    assert_eq!(names(&report.entries), ["a", "c"]);
}

#[test]
fn failed_lookups_are_left_out() {
    let absent = RegistryResponse::Versions(vec![VersionRecord {
        number: "0.9.0".to_string(),
        published_at: at(START + nanos(7.0)),
    }]);
    let with_failures = vec![
        failing("gone", RegistryResponse::Unavailable),
        lookup("beta", 0.5),
        failing("renumbered", absent),
        lookup("alpha", 1.5),
        failing("empty", RegistryResponse::Versions(Vec::new())),
    ];
    let without = vec![lookup("beta", 0.5), lookup("alpha", 1.5)];

    let report = build(&with_failures, SortBy::Alphabetical, None);
    let expected = build(&without, SortBy::Alphabetical, None);

    assert_eq!(names(&report.entries), ["alpha", "beta"]);
    assert_eq!(names(&report.entries), names(&expected.entries));
    assert_eq!(report.total_elapsed_nanos, expected.total_elapsed_nanos);
    assert_eq!(libyears(report.total_elapsed_nanos), 2.0);
    assert_eq!(names(&resolve_all(&with_failures)), ["beta", "alpha"]);
}

#[test]
fn nothing_resolved_is_an_empty_report() {
    let lookups = vec![
        failing("gone", RegistryResponse::Unavailable),
        failing("empty", RegistryResponse::Versions(Vec::new())),
    ];

    let report = build(&lookups, SortBy::Libyear, Some(5));
    let of_nothing = build(&Vec::new(), SortBy::Alphabetical, None);

    assert!(report.entries.is_empty());
    assert_eq!(report.total_elapsed_nanos, 0);
    assert!(of_nothing.entries.is_empty());
    assert_eq!(of_nothing.total_elapsed_nanos, 0);
}

#[test]
fn negative_elapsed_time_is_not_clamped() {
    let entries = vec![entry("older", 500), entry("newer", -300), entry("level", 0)];

    assert_eq!(total_elapsed_nanos(&entries), 200);

    let sorted = sort_entries(SortBy::Libyear, entries);

    assert_eq!(names(&sorted), ["older", "level", "newer"]);
    assert_eq!(sorted[2].elapsed_nanos, -300);
    assert_eq!(total_elapsed_nanos(&sorted), 200);
}

#[test]
fn total_of_extremes_does_not_overflow() {
    let most = vec![entry("a", i64::MAX - START), entry("b", i64::MAX - START)];
    let least = vec![entry("a", -START), entry("b", -START), entry("c", -START)];

    assert_eq!(total_elapsed_nanos(&most), 2 * (i64::MAX - START) as i128);
    assert_eq!(total_elapsed_nanos(&least), -3 * START as i128);
    assert_eq!(total_elapsed_nanos(&Vec::new()), 0);
}

#[test]
fn sort_by_libyear_is_stable() {
    let entries = vec![
        entry("first", 10),
        entry("second", 30),
        entry("third", 10),
        entry("fourth", 30),
        entry("fifth", 10),
        entry("sixth", 20),
    ];

    let sorted = sort_entries(SortBy::Libyear, entries);

    assert_eq!(names(&sorted), ["second", "fourth", "sixth", "first", "third", "fifth"]);
    for pair in sorted.windows(2) {
        assert!(pair[0].elapsed_nanos >= pair[1].elapsed_nanos);
    }
}

#[test]
fn sort_by_name_is_stable() {
    let entries = vec![entry("b", 1), entry("a", 2), entry("b", 3), entry("a", 4), entry("b", 5)];

    let sorted = sort_entries(SortBy::Alphabetical, entries);

    assert_eq!(names(&sorted), ["a", "a", "b", "b", "b"]);
    let elapsed: Vec<i64> = sorted.iter().map(|entry| entry.elapsed_nanos).collect();
    assert_eq!(elapsed, [2, 4, 1, 3, 5]);
    for pair in sorted.windows(2) {
        assert!(pair[0].name <= pair[1].name);
    }
}

#[test]
fn sort_by_name_goes_by_bytes() {
    let entries = vec![
        entry("serde_json", 1),
        entry("zeta", 1),
        entry("Zeta", 1),
        entry("serde", 1),
        entry("\u{e9}clair", 1),
        entry("serde-json", 1),
        entry("", 1),
        entry("a2", 1),
        entry("a10", 1),
    ];
    let mut expected: Vec<String> = entries.iter().map(|entry| entry.name.clone()).collect();
    expected.sort();

    let sorted = sort_entries(SortBy::Alphabetical, entries);

    assert_eq!(
        names(&sorted),
        ["", "Zeta", "a10", "a2", "serde", "serde-json", "serde_json", "zeta", "\u{e9}clair"]
    );
    assert_eq!(names(&sorted), expected);
}

#[test]
fn sort_keeps_every_entry() {
    let sorted = sort_entries(SortBy::Libyear, vec![entry("a", 5), entry("a", 5), entry("b", 7)]);
    let of_one = sort_entries(SortBy::Alphabetical, vec![entry("only", 1)]);
    let of_none = sort_entries(SortBy::Libyear, Vec::new());

    assert_eq!(names(&sorted), ["b", "a", "a"]);
    assert_eq!(names(&of_one), ["only"]);
    assert!(of_none.is_empty());
}

#[test]
fn arrange_sorts_before_it_cuts() {
    let entries = || vec![entry("low", 1), entry("high", 9), entry("mid", 5)];

    assert_eq!(names(&arrange(SortBy::Libyear, Some(1), entries())), ["high"]);
    assert_eq!(names(&arrange(SortBy::Alphabetical, Some(1), entries())), ["high"]);
    assert_eq!(names(&arrange(SortBy::Alphabetical, Some(2), entries())), ["high", "low"]);
    assert_eq!(names(&arrange(SortBy::Libyear, None, entries())), ["high", "mid", "low"]);
    assert_eq!(names(&arrange(SortBy::Libyear, Some(0), entries())), [""; 0]);
}

#[test]
fn bytes_come_before_is_lexicographic() {
    assert!(bytes_come_before(b"", b"a"));
    assert!(!bytes_come_before(b"", b""));
    assert!(!bytes_come_before(b"a", b""));
    assert!(bytes_come_before(b"ab", b"abc"));
    assert!(!bytes_come_before(b"abc", b"ab"));
    assert!(!bytes_come_before(b"abc", b"abc"));
    assert!(bytes_come_before(b"abc", b"abd"));
    assert!(bytes_come_before(b"abz", b"b"));
    assert!(bytes_come_before(b"Z", b"a"));
    assert!(bytes_come_before(&[0x7f], &[0x80]));
    assert!(!bytes_come_before(&[0xff], &[0x00, 0xff]));
}

#[test]
fn comes_before_follows_the_order_asked_for() {
    let stale = entry("alpha", 900);
    let fresh = entry("beta", 100);

    assert!(comes_before(SortBy::Alphabetical, &stale, &fresh));
    assert!(!comes_before(SortBy::Alphabetical, &fresh, &stale));
    assert!(comes_before(SortBy::Libyear, &stale, &fresh));
    assert!(!comes_before(SortBy::Libyear, &fresh, &stale));
    assert!(!comes_before(SortBy::Alphabetical, &stale, &stale));
    assert!(!comes_before(SortBy::Libyear, &stale, &stale));
    assert!(comes_before(SortBy::Libyear, &entry("beta", 100), &entry("alpha", -100)));
}

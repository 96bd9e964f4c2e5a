use std::cmp::Ordering;
use std::time::{Duration, SystemTime};

use omafiles::entry::{format_age, format_age_secs, format_size, natural_cmp, nearest_existing, Entry, Kind, Metadata};

#[test]
fn sorts_digit_runs_as_numbers() {
    let mut names = ["frame10.png", "frame2.png", "frame1.png"];
    names.sort_by(|a, b| natural_cmp(a, b));
    assert_eq!(names, ["frame1.png", "frame2.png", "frame10.png"]);
}

#[test]
fn sorting_is_case_insensitive_but_total() {
    let mut names = ["b.txt", "A.txt", "a.txt"];
    names.sort_by(|a, b| natural_cmp(a, b));
    assert_eq!(names[2], "b.txt");
    assert!(names[..2].contains(&"A.txt") && names[..2].contains(&"a.txt"));
    assert_ne!(natural_cmp("A.txt", "a.txt"), Ordering::Equal);
}

#[test]
fn huge_digit_runs_do_not_panic() {
    let long = "9".repeat(64);
    assert_eq!(natural_cmp(&long, &long), Ordering::Equal);
    natural_cmp(&format!("f{long}"), "f1");
}

#[test]
fn directories_sort_before_files() {
    let dir = Entry {
        path: "/x/zzz".into(),
        name: "zzz".into(),
        kind: Kind::Directory,
        size: None,
        modified: None,
        is_symlink: false,
    };
    let file = Entry {
        path: "/x/aaa".into(),
        name: "aaa".into(),
        kind: Kind::File,
        size: Some(0),
        modified: None,
        is_symlink: false,
    };
    assert_eq!(dir.sort_key_cmp(&file), Ordering::Less);
    assert_eq!(file.sort_key_cmp(&dir), Ordering::Greater);
}

#[test]
fn formats_sizes_at_the_unit_boundaries() {
    assert_eq!(format_size(0), "0 B");
    assert_eq!(format_size(1023), "1023 B");
    assert_eq!(format_size(1024), "1.0 K");
    assert_eq!(format_size(1536), "1.5 K");
    assert_eq!(format_size(1024 * 1024), "1.0 M");
    assert_eq!(format_size(15 * 1024 * 1024), "15 M");
}

/// The size text written the way a float formatter writes it, for comparison.
fn float_size(bytes: u64) -> String {
    const UNITS: [&str; 6] = ["B", "K", "M", "G", "T", "P"];
    let mut value = bytes as f64;
    let mut unit = 0;
    while value >= 1024.0 && unit + 1 < UNITS.len() {
        value /= 1024.0;
        unit += 1;
    }
    if unit == 0 {
        format!("{bytes} B")
    } else if value < 10.0 {
        format!("{value:.1} {}", UNITS[unit])
    } else {
        format!("{value:.0} {}", UNITS[unit])
    }
}

#[test]
fn sizes_round_exactly_as_a_float_would() {
    let mut samples: Vec<u64> = vec![
        1024 + 51, 1024 + 52, 1024 + 256, 1024 + 768, 10 * 1024 - 1, 10 * 1024 - 51,
        10 * 1024 - 52, 10 * 1024 + 512, 11 * 1024 + 512, 1023 * 1024 + 512,
        1024 * 1024 - 1, u64::MAX, u64::MAX - 1, (1u64 << 53) + 1, (1u64 << 53) + 3,
        (1u64 << 60) + 12345, 9 * (1u64 << 50) + (1u64 << 49), (1u64 << 50) * 10 - 1,
    ];
    let mut x: u64 = 0x9e37_79b9_7f4a_7c15;
    for _ in 0..20_000 {
        x ^= x << 13;
        x ^= x >> 7;
        x ^= x << 17;
        samples.push(x >> (x % 64));
    }
    for bytes in samples {
        assert_eq!(format_size(bytes), float_size(bytes), "{bytes}");
    }
}

#[test]
fn formats_age_including_the_future() {
    let now = SystemTime::now();
    assert_eq!(format_age(now), "now");
    assert_eq!(format_age(now - Duration::from_secs(300)), "5m");
    assert_eq!(format_age(now - Duration::from_secs(7200)), "2h");
    assert_eq!(format_age(now - Duration::from_secs(172_800)), "2d");
    assert_eq!(format_age(now + Duration::from_secs(3600)), "now");
}

#[test]
fn ages_step_through_every_unit() {
    assert_eq!(format_age_secs(None), "now");
    assert_eq!(format_age_secs(Some(59)), "now");
    assert_eq!(format_age_secs(Some(60)), "1m");
    assert_eq!(format_age_secs(Some(3599)), "59m");
    assert_eq!(format_age_secs(Some(3600)), "1h");
    assert_eq!(format_age_secs(Some(86_400)), "1d");
    assert_eq!(format_age_secs(Some(2_592_000)), "1mo");
    assert_eq!(format_age_secs(Some(31_536_000 * 3)), "3y");
}

#[test]
fn nearest_existing_walks_up_to_something_real() {
    assert_eq!(nearest_existing("/omafiles-does-not-exist/nor/this").0, "/");
    assert_eq!(nearest_existing("/").0, "/");
    assert_eq!(nearest_existing("/etc/omafiles-does-not-exist/deeper").0, "/etc");
    assert_eq!(nearest_existing("/etc").0, "/etc");
}

#[test]
fn a_hidden_name_is_just_a_leading_dot() {
    let entry = |name: &str| Entry {
        path: format!("/x/{name}"),
        name: name.into(),
        kind: Kind::File,
        size: None,
        modified: None,
        is_symlink: false,
    };
    assert!(entry(".gitignore").is_hidden());
    assert!(!entry("gitignore").is_hidden());
}

#[test]
fn an_entry_takes_its_name_and_kind_from_what_was_read() {
    let meta = Metadata { is_dir: false, len: 12, modified: Some(5) };
    let file = Entry::from_path("/x/notes.txt".to_string(), Some(meta), false);
    assert_eq!(file.name, "notes.txt");
    assert_eq!(file.kind, Kind::File);
    assert_eq!(file.size, Some(12));
    let dir = Entry::from_path("/x/src".to_string(), Some(Metadata { is_dir: true, len: 4096, modified: None }), false);
    assert_eq!(dir.size, None);
    assert!(dir.kind.is_dir());
    let broken = Entry::from_path("/x/link".to_string(), None, true);
    assert_eq!(broken.kind, Kind::Unresolved);
    assert!(broken.is_symlink);
    assert_eq!(Entry::from_path("/".to_string(), None, false).name, "/");
}

#[test]
fn the_natural_order_is_transitive_on_a_chain() {
    let names = ["a01", "a1", "A1b", "a2", "a10", "b", "~"];
    for i in 0..names.len() {
        for j in i + 1..names.len() {
            assert_eq!(natural_cmp(names[i], names[j]), Ordering::Less, "{} before {}", names[i], names[j]);
        }
    }
}

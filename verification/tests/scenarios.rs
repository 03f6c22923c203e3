use std::collections::HashSet;
use bydate::args::{parse_args, Command};
use bydate::bydate::Bydate;
use bydate::calendar::Date;
use bydate::entries::{dir_contents, sorted_numeric_entries_in_dir, DirListing, FsSnapshot};
use bydate::numbers::is_plus_or_minus_int;
use bydate::path::{file_name_as_number, file_name_is_number};

fn args(strs: &[&str]) -> Vec<String> {
    let mut v = vec!["bydate".to_string()];
    for s in strs {
        v.push(s.to_string());
    }
    v
}

fn date(y: i32, m: u32, d: u32) -> Date {
    Date::from_ymd_opt(y, m, d).unwrap()
}

/// The listings that reading the base directory, its entries and their entries
/// gives for a tree holding the directories `rels` (relative to `base`).
fn snapshot_of(base: &str, rels: &[&str]) -> FsSnapshot {
    let mut dirs: Vec<(String, Vec<String>)> = vec![(base.to_string(), vec![])];
    for rel in rels {
        let mut parent = base.to_string();
        for part in rel.split('/') {
            let child = format!("{}/{}", parent, part);
            let pos = dirs.iter().position(|(d, _)| *d == parent).unwrap();
            if !dirs[pos].1.contains(&child) {
                dirs[pos].1.push(child.clone());
            }
            if !dirs.iter().any(|(d, _)| *d == child) {
                dirs.push((child.clone(), vec![]));
            }
            parent = child;
        }
    }
    let existing: Vec<String> = dirs.iter().map(|(d, _)| d.clone()).collect();
    FsSnapshot {
        listings: dirs.into_iter().map(|(dir, entries)| DirListing { dir, entries }).collect(),
        directories: existing.clone(),
        existing,
    }
}

fn test_tree(base: &str) -> (Bydate, FsSnapshot) {
    let snap = snapshot_of(
        base,
        &[
            "2000",
            "2001/01",
            "2001/02",
            "2002/03/04",
            "2003/04/10",
            "2003/05/14",
            "2003/05/16",
            "2003/05/18",
            "2003/06/03",
            "2004/05/06",
            "2005/07",
            "2006/08",
            "2007",
        ],
    );
    (Bydate::from_parts(base.to_string(), date(2003, 5, 16)), snap)
}

fn day(n: i32, m: u32, d: u32) -> Option<Date> {
    Date::from_ymd_opt(n, m, d)
}

#[test]
fn test_bydate_parse_args() {
    assert_eq!(None, parse_args(&vec![]));
    assert_eq!(Some(Command::Day { offset_from_today: 0, create_dirs: true }), parse_args(&args(&["today"])));
    assert_eq!(None, parse_args(&args(&["today", "3"])));
    assert_eq!(Some(Command::Day { offset_from_today: 3, create_dirs: true }), parse_args(&args(&["today", "+3"])));
    assert_eq!(Some(Command::Day { offset_from_today: -3, create_dirs: true }), parse_args(&args(&["today", "-3"])));
    assert_eq!(None, parse_args(&args(&["today", "3"])));
    assert_eq!(Some(Command::Day { offset_from_today: 0, create_dirs: false }), parse_args(&args(&["today", "--no-create-dirs"])));
    assert_eq!(None, parse_args(&args(&["today", "--invalid-arg"])));
    assert_eq!(Some(Command::Day { offset_from_today: 3, create_dirs: false }), parse_args(&args(&["today", "+3", "--no-create-dirs"])));
    assert_eq!(Some(Command::Day { offset_from_today: -3, create_dirs: false }), parse_args(&args(&["today", "--no-create-dirs", "-3"])));
    assert_eq!(Some(Command::Day { offset_from_today: -1, create_dirs: true }), parse_args(&args(&["yesterday"])));
    assert_eq!(Some(Command::Day { offset_from_today: 1, create_dirs: true }), parse_args(&args(&["tomorrow"])));
    assert_eq!(None, parse_args(&args(&["days"])));
    assert_eq!(Some(Command::Days { offset_from_today: 3, only_extant_dirs: false }), parse_args(&args(&["days", "+3"])));
    assert_eq!(Some(Command::Days { offset_from_today: -3, only_extant_dirs: false }), parse_args(&args(&["days", "-3"])));
    assert_eq!(Some(Command::Days { offset_from_today: 3, only_extant_dirs: true }), parse_args(&args(&["days", "+3", "--extant-dirs"])));
    assert_eq!(Some(Command::Days { offset_from_today: -3, only_extant_dirs: true }), parse_args(&args(&["days", "-3", "--extant-dirs"])));
    assert_eq!(Some(Command::Days { offset_from_today: 3, only_extant_dirs: true }), parse_args(&args(&["days", "--extant-dirs", "+3"])));
    assert_eq!(Some(Command::Days { offset_from_today: -3, only_extant_dirs: true }), parse_args(&args(&["days", "--extant-dirs", "-3"])));
}

#[test]
fn test_get_day() {
    let p = "/tmp/bydate-get-day";
    let (bydate, _) = test_tree(p);
    assert_eq!(format!("{}/2003/05/16", p), bydate.get_day(0, false).path);
    assert_eq!(format!("{}/2003/05/17", p), bydate.get_day(1, false).path);
    assert_eq!(format!("{}/2003/05/15", p), bydate.get_day(-1, false).path);
    assert_eq!(format!("{}/2003/06/01", p), bydate.get_day(16, false).path);
    assert_eq!(format!("{}/2003/04/30", p), bydate.get_day(-16, false).path);
}

#[test]
fn test_parse_date_from_path() {
    let bydate = Bydate::from_parts("/a/b/c".to_string(), date(2003, 5, 16));
    assert_eq!(None, bydate.parse_date_from_path("/a/b/c/2003/05"));
    assert_eq!(Some(bydate.today()), bydate.parse_date_from_path("/a/b/c/2003/05/16"));
}

#[test]
fn test_min_day() {
    let (bydate, snap) = test_tree("/tmp/bydate-min-day");
    assert_eq!(day(2002, 3, 4), bydate.min_day(&snap));
}

#[test]
fn test_max_day() {
    let (bydate, snap) = test_tree("/tmp/bydate-max-day");
    assert_eq!(day(2004, 5, 6), bydate.max_day(&snap));
}

#[test]
fn test_list_days() {
    let p = "/tmp/bydate-list-days";
    let (bydate, snap) = test_tree(p);
    let j = |rel: &str| format!("{}/{}", p, rel);
    assert_eq!(vec![j("2003/05/16")], bydate.list_days(&snap, 0, false));
    assert_eq!(vec![j("2003/05/16")], bydate.list_days(&snap, 0, true));
    assert_eq!(vec![j("2003/05/16"), j("2003/05/17")], bydate.list_days(&snap, 1, false));
    assert_eq!(vec![j("2003/05/16"), j("2003/05/18")], bydate.list_days(&snap, 1, true));
    assert_eq!(vec![j("2003/05/16"), j("2003/05/15")], bydate.list_days(&snap, -1, false));
    assert_eq!(vec![j("2003/05/16"), j("2003/05/14")], bydate.list_days(&snap, -1, true));
    assert_eq!(vec![j("2003/05/16"), j("2003/05/18"), j("2003/06/03"), j("2004/05/06")], bydate.list_days(&snap, 3, true));
    assert_eq!(vec![j("2003/05/16"), j("2003/05/18"), j("2003/06/03"), j("2004/05/06")], bydate.list_days(&snap, 4, true));
    assert_eq!(vec![j("2003/05/16"), j("2003/05/14"), j("2003/04/10"), j("2002/03/04")], bydate.list_days(&snap, -3, true));
    assert_eq!(vec![j("2003/05/16"), j("2003/05/14"), j("2003/04/10"), j("2002/03/04")], bydate.list_days(&snap, -4, true));
}

#[test]
fn test_file_name_as_number() {
    assert_eq!(None, file_name_as_number("/abc/jkl/x"));
    assert_eq!(None, file_name_as_number("/abc/jkl/x123"));
    assert_eq!(None, file_name_as_number("/abc/jkl/123x"));
    assert_eq!(Some(0), file_name_as_number("/abc/jkl/0/"));
    assert_eq!(Some(123), file_name_as_number("/abc/jkl/123"));
}

#[test]
fn test_file_name_is_number() {
    assert!(!file_name_is_number("/abc/jkl/x"));
    assert!(file_name_is_number("/abc/jkl/123"));
}

#[test]
fn test_sorted_numeric_entries_in_dir() {
    let dir = "/tmp/bydate-sorted";
    let all_file_names = ["a", "0", "b", "1", "cd", "23", "efg", "456", "jklmno"];
    let numeric_file_names = ["0", "1", "23", "456"];
    let entries: Vec<String> = all_file_names.iter().map(|f| format!("{}/{}", dir, f)).collect();
    let snap = FsSnapshot {
        listings: vec![DirListing { dir: dir.to_string(), entries: entries.clone() }],
        existing: entries,
        directories: vec![],
    };
    let expected_result: Vec<String> = numeric_file_names.iter().map(|f| format!("{}/{}", dir, f)).collect();
    let actual_result = sorted_numeric_entries_in_dir(&snap, &dir.to_string());
    assert_eq!(expected_result, actual_result);
}

#[test]
fn test_is_plus_or_minus_int_false() {
    assert!(!is_plus_or_minus_int(""));
    assert!(!is_plus_or_minus_int("1"));
    assert!(!is_plus_or_minus_int("hi"));
    assert!(!is_plus_or_minus_int("+1."));
    assert!(!is_plus_or_minus_int("-1."));
}

#[test]
fn test_is_plus_or_minus_int_true() {
    assert!(is_plus_or_minus_int("+0"));
    assert!(is_plus_or_minus_int("+1"));
    assert!(is_plus_or_minus_int("-2"));
}

#[test]
fn test_dir_contents_empty() {
    let dir = "/tmp/bydate-empty".to_string();
    let snap = FsSnapshot { listings: vec![DirListing { dir: dir.clone(), entries: vec![] }], existing: vec![], directories: vec![] };
    let actual_paths: HashSet<String> = dir_contents(&snap, &dir).expect("dir_contents() did not return the entries").iter().cloned().collect();
    assert_eq!(HashSet::new(), actual_paths);
}

#[test]
fn test_dir_contents_nonempty() {
    let dir = "/tmp/bydate-nonempty".to_string();
    let expected_paths: HashSet<String> = ["abc", "xyz", "123"].iter().map(|n| format!("{}/{}", dir, n)).collect();
    let entries: Vec<String> = expected_paths.iter().cloned().collect();
    let snap = FsSnapshot { listings: vec![DirListing { dir: dir.clone(), entries: entries.clone() }], existing: entries, directories: vec![] };
    let actual_paths: HashSet<String> = dir_contents(&snap, &dir).expect("dir_contents() did not return the entries").iter().cloned().collect();
    assert_eq!(expected_paths, actual_paths);
}

#[test]
fn test_dir_contents_nonexistent() {
    let dir = "/tmp/bydate-base".to_string();
    let snap = FsSnapshot { listings: vec![DirListing { dir: dir.clone(), entries: vec![] }], existing: vec![], directories: vec![] };
    assert!(dir_contents(&snap, &format!("{}/does_not_exist", dir)).is_none());
}

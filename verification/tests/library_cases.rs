use bydate::args::{parse_args, Command};
use bydate::bydate::{component_parse_i32, component_parse_u32, Bydate};
use bydate::calendar::{date_dir, Date};
use bydate::entries::{numeric_entries_in_dir, path_exists, sorted_numeric_entries_in_dir, DirListing, FsSnapshot};
use bydate::links::{basedir_link_path, get_basedir, symlink_update, SymlinkUpdate};
use bydate::numbers::{is_plus_or_minus_int, parse_i32, parse_u32};
use bydate::path::{file_name, file_name_as_number, join, path_components, same_path, PathComponent};
use bydate::text::{chars_of, str_equals, string_of};

fn date(y: i32, m: u32, d: u32) -> Date {
    Date::from_ymd_opt(y, m, d).unwrap()
}

fn args(strs: &[&str]) -> Vec<String> {
    let mut v = vec!["bydate".to_string()];
    v.extend(strs.iter().map(|s| s.to_string()));
    v
}

fn listing(dir: &str, names: &[&str]) -> DirListing {
    DirListing { dir: dir.to_string(), entries: names.iter().map(|n| format!("{}/{}", dir, n)).collect() }
}

/// A snapshot in which every listed path exists and is a directory.
fn snapshot(listings: Vec<DirListing>) -> FsSnapshot {
    let existing: Vec<String> = listings.iter().flat_map(|l| l.entries.iter().cloned()).collect();
    FsSnapshot { listings, directories: existing.clone(), existing }
}

fn dir_name(d: &Date) -> String {
    date_dir(d).into_iter().collect()
}

#[test]
fn parse_u32_follows_str_parse() {
    assert_eq!(Some(5), parse_u32("+5"));
    assert_eq!(Some(7), parse_u32("007"));
    assert_eq!(None, parse_u32("-5"));
    assert_eq!(None, parse_u32(""));
    assert_eq!(None, parse_u32("+"));
    assert_eq!(None, parse_u32("1 "));
    assert_eq!(Some(4294967295), parse_u32("4294967295"));
    assert_eq!(None, parse_u32("4294967296"));
    for s in ["0", "+17", "-3", "x", "99999999999", "+0042"] {
        assert_eq!(s.parse::<u32>().ok(), parse_u32(s));
    }
}

#[test]
fn parse_i32_follows_str_parse() {
    assert_eq!(Some(-2147483648), parse_i32("-2147483648"));
    assert_eq!(Some(2147483647), parse_i32("+2147483647"));
    assert_eq!(None, parse_i32("2147483648"));
    assert_eq!(None, parse_i32("-2147483649"));
    assert_eq!(None, parse_i32("+-1"));
    assert_eq!(None, parse_i32("-"));
    assert_eq!(Some(0), parse_i32("-0"));
    for s in ["12", "-12", "+12", "1.5", "", "--1", "٣"] {
        assert_eq!(s.parse::<i32>().ok(), parse_i32(s));
    }
}

#[test]
fn signed_int_edges() {
    assert!(is_plus_or_minus_int("-2147483648"));
    assert!(!is_plus_or_minus_int("+2147483648"));
    assert!(!is_plus_or_minus_int("+"));
}

#[test]
fn text_helpers() {
    let v = chars_of("añb");
    assert_eq!(vec!['a', 'ñ', 'b'], v);
    assert_eq!("añb".to_string(), string_of(&v));
    assert!(str_equals("abc", "abc"));
    assert!(!str_equals("abc", "abd"));
    assert!(!str_equals("abc", "ab"));
}

#[test]
fn components_as_std_yields_them() {
    let c = path_components("./a//b/.");
    assert_eq!(3, c.len());
    assert!(matches!(c[0], PathComponent::CurDir));
    assert!(matches!(&c[1], PathComponent::Normal(s) if s == "a"));
    assert!(matches!(&c[2], PathComponent::Normal(s) if s == "b"));
    let c = path_components("/x/../y");
    assert!(matches!(c[0], PathComponent::RootDir));
    assert!(matches!(c[2], PathComponent::ParentDir));
    for p in ["/", "", ".", "./.", "a/.", "a/..", "//a//", "/abc/jkl/0/", "x/./y", ".hidden/f"] {
        let expected: Vec<String> = std::path::Path::new(p)
            .components()
            .map(|c| c.as_os_str().to_string_lossy().into_owned())
            .collect();
        let got: Vec<String> = path_components(p)
            .iter()
            .map(|c| match c {
                PathComponent::RootDir => "/".to_string(),
                PathComponent::CurDir => ".".to_string(),
                PathComponent::ParentDir => "..".to_string(),
                PathComponent::Normal(s) => s.clone(),
            })
            .collect();
        assert_eq!(expected, got, "components of {:?}", p);
    }
}

#[test]
fn file_name_as_std_gives_it() {
    for p in ["/", "", ".", "a/..", "a/.", "/abc/jkl/0/", "x", "./x", "/a/b.txt"] {
        let expected = std::path::Path::new(p).file_name().map(|s| s.to_string_lossy().into_owned());
        assert_eq!(expected, file_name(p), "file name of {:?}", p);
    }
    assert_eq!(None, file_name_as_number("/d/+5"));
    assert_eq!(None, file_name_as_number("/d/-5"));
    assert_eq!(Some(7), file_name_as_number("/d/007"));
    assert_eq!(Some(4294967295), file_name_as_number("/d/4294967295"));
    assert_eq!(None, file_name_as_number("/d/4294967296"));
    assert_eq!(None, file_name_as_number("/d/5/.."));
}

#[test]
fn join_as_std_does() {
    for (base, rel) in [("", "x"), ("/", "x"), ("a", "x/y"), ("a/", "x"), (".", "2003/05/16")] {
        let expected = std::path::Path::new(base).join(rel).to_string_lossy().into_owned();
        assert_eq!(expected, join(base, rel));
    }
}

#[test]
fn same_path_compares_components() {
    assert!(same_path("a/b/", "a//b"));
    assert!(same_path("/x/./y", "/x/y"));
    assert!(!same_path("a", "b"));
    assert!(!same_path("/a", "a"));
}

#[test]
fn numeric_entries_keep_listing_order() {
    let snap = snapshot(vec![listing("/d", &["9", "x", "01", "1", "+3"])]);
    let got = numeric_entries_in_dir(&snap, &"/d".to_string());
    assert_eq!(vec!["/d/9", "/d/01", "/d/1"], got);
    assert!(numeric_entries_in_dir(&snap, &"/e".to_string()).is_empty());
}

#[test]
fn sorting_is_stable() {
    let snap = snapshot(vec![listing("/d", &["9", "1", "01", "+3", "001"])]);
    let got = sorted_numeric_entries_in_dir(&snap, &"/d".to_string());
    assert_eq!(vec!["/d/1", "/d/01", "/d/001", "/d/9"], got);
}

#[test]
fn first_listing_of_a_dir_counts() {
    let snap = snapshot(vec![listing("/d", &["1"]), listing("/d", &["2"])]);
    assert_eq!(vec!["/d/1"], numeric_entries_in_dir(&snap, &"/d".to_string()));
    assert!(path_exists(&snap, &"/d/2".to_string()));
    assert!(!path_exists(&snap, &"/d/3".to_string()));
}

#[test]
fn dates_follow_the_calendar() {
    assert!(Date::from_ymd_opt(2003, 2, 29).is_none());
    assert!(Date::from_ymd_opt(2004, 2, 29).is_some());
    assert!(Date::from_ymd_opt(1900, 2, 29).is_none());
    assert!(Date::from_ymd_opt(2000, 2, 29).is_some());
    assert!(Date::from_ymd_opt(2003, 13, 1).is_none());
    assert!(Date::from_ymd_opt(2003, 4, 31).is_none());
    assert!(Date::from_ymd_opt(262142, 12, 31).is_some());
    assert!(Date::from_ymd_opt(262143, 1, 1).is_none());
    assert!(Date::from_ymd_opt(-262143, 1, 1).is_some());
    assert!(Date::from_ymd_opt(-262144, 12, 31).is_none());
    let d = date(2003, 12, 31).checked_add_days(1).unwrap();
    assert_eq!((2004, 1, 1), (d.year(), d.month(), d.day()));
    let d = date(2004, 3, 1).checked_add_days(-1).unwrap();
    assert_eq!((2004, 2, 29), (d.year(), d.month(), d.day()));
    assert!(date(262142, 12, 31).checked_add_days(1).is_none());
    assert!(date(-262143, 1, 1).checked_add_days(-1).is_none());
    assert!(date(2003, 5, 16).is_before(&date(2003, 5, 17)));
    assert!(!date(2003, 5, 17).is_before(&date(2003, 5, 16)));
    assert!(!date(2003, 5, 16).is_before(&date(2003, 5, 16)));
}

#[test]
fn day_directory_names_are_zero_padded() {
    assert_eq!("2003/05/16", dir_name(&date(2003, 5, 16)));
    assert_eq!("0005/01/02", dir_name(&date(5, 1, 2)));
    assert_eq!("-005/12/31", dir_name(&date(-5, 12, 31)));
    assert_eq!("12345/10/09", dir_name(&date(12345, 10, 9)));
    for (y, m, d) in [(-262143, 1, 1), (0, 2, 29), (262142, 12, 31)] {
        assert_eq!(format!("{:04}/{:02}/{:02}", y, m, d), dir_name(&date(y, m, d)));
    }
}

#[test]
fn get_day_plans_the_today_link() {
    let b = Bydate::from_parts("/base".to_string(), date(2003, 5, 16));
    let d = b.get_day(0, true);
    assert_eq!("/base/2003/05/16", d.path);
    assert!(d.create);
    let link = d.today_link.unwrap();
    assert_eq!("/base/today", link.link);
    assert_eq!("2003/05/16", link.target);
    let d = b.get_day(1, true);
    assert!(d.create && d.today_link.is_none());
    let d = b.get_day(0, false);
    assert!(!d.create && d.today_link.is_none());
    let d = b.get_day(365, false);
    assert_eq!("/base/2004/05/15", d.path);
    assert_eq!(date(2004, 5, 15), d.date);
}

#[test]
fn get_day_reads_back_as_its_day() {
    for base in ["/base", "/base/", "", ".", "rel/dir"] {
        let b = Bydate::from_parts(base.to_string(), date(2003, 5, 16));
        for off in [-800000, -1000, -1, 0, 1, 17, 3000, 90000000] {
            let d = b.get_day(off, false);
            assert_eq!(Some(d.date), b.parse_date_from_path(&d.path), "{} {}", base, off);
        }
    }
}

#[test]
fn parse_date_from_path_cases() {
    let b = Bydate::from_parts("/a/b/c/".to_string(), date(2003, 5, 16));
    assert_eq!(Some(date(2003, 5, 16)), b.parse_date_from_path("/a/b/c/2003/05/16"));
    assert_eq!(None, b.parse_date_from_path("/a/b/c/2003/05/16/notes"));
    assert_eq!(None, b.parse_date_from_path("/a/b/c/2003/05"));
    assert_eq!(Some(date(2003, 5, 16)), b.parse_date_from_path("/a/b/c//+2003/5/./16"));
    assert_eq!(None, b.parse_date_from_path("/a/b/cd/2003/05/16"));
    assert_eq!(None, b.parse_date_from_path("/a/b/c/2003/02/30"));
    assert_eq!(None, b.parse_date_from_path("/a/b/c/2003/-5/16"));
    assert_eq!(None, b.parse_date_from_path("a/b/c/2003/05/16"));
}

fn tree(base: &str, months: &[(&str, &[&str])]) -> FsSnapshot {
    let mut listings = vec![];
    let mut years: Vec<String> = vec![];
    for (ym, _) in months {
        let y = ym.split('/').next().unwrap();
        if !years.contains(&y.to_string()) {
            years.push(y.to_string());
        }
    }
    listings.push(listing(base, &years.iter().map(|s| s.as_str()).collect::<Vec<_>>()));
    for y in &years {
        let ms: Vec<&str> = months
            .iter()
            .filter(|(ym, _)| ym.split('/').next().unwrap() == y)
            .map(|(ym, _)| ym.split('/').nth(1).unwrap())
            .collect();
        listings.push(listing(&format!("{}/{}", base, y), &ms));
    }
    for (ym, days) in months {
        listings.push(listing(&format!("{}/{}", base, ym), days));
    }
    snapshot(listings)
}

#[test]
fn min_and_max_are_earliest_and_latest() {
    let snap = tree("/t", &[("2003/05", &["9", "10"])]);
    let b = Bydate::from_parts("/t".to_string(), date(2003, 5, 16));
    assert_eq!(Some(date(2003, 5, 9)), b.min_day(&snap));
    assert_eq!(Some(date(2003, 5, 10)), b.max_day(&snap));
}

#[test]
fn min_and_max_skip_entries_that_are_no_date() {
    let snap = tree("/t", &[("2003/02", &["30", "31"]), ("2003/03", &["05"]), ("2004/01", &["99", "02"])]);
    let b = Bydate::from_parts("/t".to_string(), date(2003, 5, 16));
    assert_eq!(Some(date(2003, 3, 5)), b.min_day(&snap));
    assert_eq!(Some(date(2004, 1, 2)), b.max_day(&snap));
}

#[test]
fn min_and_max_order_years_and_months_by_value() {
    let snap = tree("/t", &[("10/1", &["1"]), ("9/12", &["31"]), ("0009/02", &["3"]), ("9/3", &["1"])]);
    let b = Bydate::from_parts("/t".to_string(), date(2003, 5, 16));
    assert_eq!(Some(date(9, 2, 3)), b.min_day(&snap));
    assert_eq!(Some(date(10, 1, 1)), b.max_day(&snap));
}

#[test]
fn min_and_max_need_directories() {
    let mut snap = tree("/t", &[("2003/05", &["9", "10", "11"])]);
    snap.directories.retain(|p| p != "/t/2003/05/9" && p != "/t/2003/05/11");
    let b = Bydate::from_parts("/t".to_string(), date(2003, 5, 16));
    assert_eq!(Some(date(2003, 5, 10)), b.min_day(&snap));
    assert_eq!(Some(date(2003, 5, 10)), b.max_day(&snap));
    snap.directories.clear();
    assert_eq!(None, b.min_day(&snap));
    assert_eq!(None, b.max_day(&snap));
}

#[test]
fn list_days_extant_needs_dated_directories() {
    let b = Bydate::from_parts("/t".to_string(), date(2003, 5, 16));
    let empty = snapshot(vec![]);
    assert_eq!(vec!["/t/2003/05/16", "/t/2003/05/17", "/t/2003/05/18", "/t/2003/05/19"], b.list_days(&empty, 3, false));
    assert_eq!(vec!["/t/2003/05/16", "/t/2003/05/15"], b.list_days(&empty, -1, false));
    assert!(b.list_days(&empty, 3, true).is_empty());
    let snap = tree("/t", &[("2003/06", &["01", "02"])]);
    assert!(b.list_days(&snap, 30, true).is_empty());
    assert_eq!(vec!["/t/2003/05/16", "/t/2003/05/17", "/t/2003/05/18"], b.list_days(&snap, 2, false));
    let b2 = Bydate::from_parts("/t".to_string(), date(2003, 5, 31));
    assert!(b2.list_days(&snap, 5, true).is_empty());
    let b3 = Bydate::from_parts("/t".to_string(), date(2003, 6, 1));
    assert_eq!(vec!["/t/2003/06/01", "/t/2003/06/02"], b3.list_days(&snap, 5, true));
    assert_eq!(vec!["/t/2003/06/01"], b3.list_days(&snap, -5, true));
}

#[test]
fn list_days_definedness() {
    let b = Bydate::from_parts("/t".to_string(), date(2003, 5, 16));
    let snap = tree("/t", &[("2003/05", &["16"])]);
    assert!(b.list_days_is_defined(&snap, 3, false));
    assert!(b.list_days_is_defined(&snap, -3, true));
    assert!(!b.list_days_is_defined(&snap, i32::MAX, false));
    assert!(!b.list_days_is_defined(&snap, -i32::MAX, true));
    assert!(!b.list_days_is_defined(&snap, 2_000_000_000, false));
    let empty = snapshot(vec![]);
    assert!(!b.list_days_is_defined(&empty, i32::MAX, false));
    assert!(b.list_days_is_defined(&empty, i32::MAX, true));
    assert!(b.list_days_is_defined(&empty, 100, false));
    let edge = Bydate::from_parts("/t".to_string(), date(262142, 12, 30));
    let snap = tree("/t", &[("262142/12", &["30", "31"])]);
    assert!(edge.list_days_is_defined(&snap, 1, true));
    assert!(!edge.list_days_is_defined(&snap, 2, true));
    assert_eq!(vec!["/t/262142/12/30", "/t/262142/12/31"], edge.list_days(&snap, 1, true));
}

#[test]
fn yesterday_and_tomorrow_are_offsets_of_today() {
    assert_eq!(parse_args(&args(&["yesterday"])), parse_args(&args(&["today", "-1"])));
    assert_eq!(parse_args(&args(&["tomorrow"])), parse_args(&args(&["today", "+1"])));
    assert_eq!(parse_args(&args(&["yesterday", "junk"])), parse_args(&args(&["today", "-1"])));
}

#[test]
fn option_order_does_not_matter() {
    for cmd in ["today", "days"] {
        for (a, b) in [("+3", "--no-create-dirs"), ("-2", "--extant-dirs"), ("+1", "+2"), ("x", "+1")] {
            assert_eq!(parse_args(&args(&[cmd, a, b])), parse_args(&args(&[cmd, b, a])));
        }
    }
}

#[test]
fn rejected_command_lines() {
    assert_eq!(None, parse_args(&args(&[])));
    assert_eq!(None, parse_args(&args(&["today", "+1", "+2"])));
    assert_eq!(None, parse_args(&args(&["today", "--no-create-dirs", "--no-create-dirs"])));
    assert_eq!(None, parse_args(&args(&["days", "--extant-dirs"])));
    assert_eq!(None, parse_args(&args(&["days", "+3", "--no-create-dirs"])));
    assert_eq!(None, parse_args(&args(&["Today"])));
    assert_eq!(None, parse_args(&args(&["today", "+2147483648"])));
    assert_eq!(
        Some(Command::Days { offset_from_today: -2147483648, only_extant_dirs: false }),
        parse_args(&args(&["days", "-2147483648"]))
    );
}

#[test]
fn basedir_choice() {
    assert_eq!("/x/y", get_basedir(Some("/x/y".to_string()), Some("/home/u".to_string())));
    assert_eq!("/home/u/bydate", get_basedir(None, Some("/home/u".to_string())));
    assert_eq!("~/bydate", get_basedir(None, None));
    assert_eq!("/home/u/.config/bydate/basedir", basedir_link_path("/home/u/.config"));
}

#[test]
fn symlink_updates() {
    assert_eq!(SymlinkUpdate::Keep, symlink_update(&Some("2003/05/16".to_string()), "2003/05/16"));
    assert_eq!(SymlinkUpdate::Keep, symlink_update(&Some("2003//05/16/".to_string()), "2003/05/16"));
    assert_eq!(SymlinkUpdate::Replace, symlink_update(&Some("invalid".to_string()), "2003/05/16"));
    assert_eq!(SymlinkUpdate::Create, symlink_update(&None, "2003/05/16"));
}

#[test]
fn dangling_day_entries_do_not_count() {
    let mut snap = tree("/t", &[("2003/05", &["14", "15", "16"])]);
    snap.existing.retain(|p| p != "/t/2003/05/15");
    let b = Bydate::from_parts("/t".to_string(), date(2003, 5, 16));
    assert_eq!(vec!["/t/2003/05/16", "/t/2003/05/14"], b.list_days(&snap, -2, true));
    assert!(!path_exists(&snap, &"/t/2003/05/15".to_string()));
}

#[test]
fn components_parse_as_their_text() {
    assert_eq!(Some(2003), component_parse_i32(&PathComponent::Normal("2003".to_string())));
    assert_eq!(Some(-5), component_parse_i32(&PathComponent::Normal("-5".to_string())));
    assert_eq!(Some(5), component_parse_u32(&PathComponent::Normal("+5".to_string())));
    assert_eq!(None, component_parse_u32(&PathComponent::Normal("-5".to_string())));
    for c in [PathComponent::RootDir, PathComponent::CurDir, PathComponent::ParentDir] {
        assert_eq!(None, component_parse_i32(&c));
        assert_eq!(None, component_parse_u32(&c));
    }
}

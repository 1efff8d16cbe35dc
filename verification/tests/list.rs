use splik::list::{LanguageInfo, LanguageList, Overflow};

fn text(s: &str) -> String {
    s.to_string()
}

#[test]
fn new_record_is_empty() {
    let info = LanguageInfo::new("Rust");
    assert_eq!(info.name, "Rust");
    assert!(info.files.is_empty());
    assert_eq!(info.lines, 0);
    assert_eq!(info.bytes, 0);
}

#[test]
fn new_and_default_lists_are_empty() {
    assert!(LanguageList::new().languages().is_empty());
    assert!(LanguageList::default().languages().is_empty());
}

#[test]
fn add_file_creates_a_record_for_a_new_language() {
    let mut list = LanguageList::new();
    assert_eq!(list.add_file("Python", 10, 50, text("/p/a.py")), Ok(()));
    let records = list.languages();
    assert_eq!(records.len(), 1);
    assert_eq!(records[0].name, "Python");
    assert_eq!(records[0].lines, 10);
    assert_eq!(records[0].bytes, 50);
    assert_eq!(records[0].files, vec![text("/p/a.py")]);
}

#[test]
fn add_file_merges_by_language() {
    let mut list = LanguageList::new();
    list.add_file("Rust", 5, 25, text("/p/b.rs")).unwrap();
    list.add_file("Python", 10, 50, text("/p/a.py")).unwrap();
    list.add_file("Rust", 1, 2, text("/p/c.rs")).unwrap();
    let records = list.languages();
    assert_eq!(records.len(), 2);
    assert_eq!(records[0].name, "Rust");
    assert_eq!(records[0].lines, 6);
    assert_eq!(records[0].bytes, 27);
    assert_eq!(records[0].files, vec![text("/p/b.rs"), text("/p/c.rs")]);
    assert_eq!(records[1].name, "Python");
    assert_eq!(records[1].lines, 10);
    assert_eq!(records[1].bytes, 50);
    assert_eq!(records[1].files, vec![text("/p/a.py")]);
}

#[test]
fn add_file_twice_for_one_file_counts_it_twice() {
    let mut list = LanguageList::new();
    list.add_file("Go", 3, 30, text("/p/m.go")).unwrap();
    list.add_file("Go", 3, 30, text("/p/m.go")).unwrap();
    let records = list.languages();
    assert_eq!(records.len(), 1);
    assert_eq!(records[0].lines, 6);
    assert_eq!(records[0].bytes, 60);
    assert_eq!(records[0].files, vec![text("/p/m.go"), text("/p/m.go")]);
}

#[test]
fn add_file_keeps_one_record_per_name() {
    let mut list = LanguageList::new();
    let names = ["C", "C++", "C", "Rust", "C++", "C", "Rust"];
    for (i, name) in names.iter().enumerate() {
        list.add_file(name, 1, 1, format!("/f{}", i)).unwrap();
    }
    let records = list.languages();
    assert_eq!(records.len(), 3);
    assert_eq!(records[0].name, "C");
    assert_eq!(records[0].files.len(), 3);
    assert_eq!(records[1].name, "C++");
    assert_eq!(records[1].files.len(), 2);
    assert_eq!(records[2].name, "Rust");
    assert_eq!(records[2].files.len(), 2);
}

#[test]
fn add_file_names_are_told_apart_by_case() {
    let mut list = LanguageList::new();
    list.add_file("R", 1, 1, text("/a.r")).unwrap();
    list.add_file("r", 1, 1, text("/b.r")).unwrap();
    assert_eq!(list.languages().len(), 2);
}

#[test]
fn add_file_refuses_lines_that_do_not_fit() {
    let mut list = LanguageList::new();
    list.add_file("Rust", u32::MAX - 1, 10, text("/a.rs")).unwrap();
    assert_eq!(list.add_file("Rust", 2, 1, text("/b.rs")), Err(Overflow::Lines));
    let records = list.languages();
    assert_eq!(records.len(), 1);
    assert_eq!(records[0].lines, u32::MAX - 1);
    assert_eq!(records[0].bytes, 10);
    assert_eq!(records[0].files, vec![text("/a.rs")]);
    assert_eq!(list.add_file("Rust", 1, 1, text("/c.rs")), Ok(()));
    assert_eq!(list.languages()[0].lines, u32::MAX);
}

#[test]
fn add_file_refuses_bytes_that_do_not_fit() {
    let mut list = LanguageList::new();
    list.add_file("Rust", 1, u64::MAX, text("/a.rs")).unwrap();
    assert_eq!(list.add_file("Rust", 1, 1, text("/b.rs")), Err(Overflow::Bytes));
    let records = list.languages();
    assert_eq!(records[0].lines, 1);
    assert_eq!(records[0].bytes, u64::MAX);
    assert_eq!(records[0].files, vec![text("/a.rs")]);
}

#[test]
fn add_file_reports_lines_before_bytes() {
    let mut list = LanguageList::new();
    list.add_file("Rust", u32::MAX, u64::MAX, text("/a.rs")).unwrap();
    assert_eq!(list.add_file("Rust", 1, 1, text("/b.rs")), Err(Overflow::Lines));
}

#[test]
fn add_file_overflow_of_one_language_leaves_others_open() {
    let mut list = LanguageList::new();
    list.add_file("Rust", u32::MAX, 1, text("/a.rs")).unwrap();
    assert_eq!(list.add_file("Go", u32::MAX, 1, text("/a.go")), Ok(()));
    assert_eq!(list.languages().len(), 2);
}

#[test]
fn sort_orders_by_descending_bytes() {
    let mut list = LanguageList::new();
    list.add_file("Rust", 5, 25, text("/b.rs")).unwrap();
    list.add_file("Python", 10, 50, text("/a.py")).unwrap();
    list.add_file("C", 100, 7, text("/c.c")).unwrap();
    list.add_file("Go", 1, 900, text("/d.go")).unwrap();
    list.sort();
    let names: Vec<&str> = list.languages().iter().map(|r| r.name).collect();
    assert_eq!(names, vec!["Go", "Python", "Rust", "C"]);
    let bytes: Vec<u64> = list.languages().iter().map(|r| r.bytes).collect();
    assert_eq!(bytes, vec![900, 50, 25, 7]);
}

#[test]
fn sort_keeps_the_order_of_equal_bytes() {
    let mut list = LanguageList::new();
    list.add_file("A", 1, 10, text("/1")).unwrap();
    list.add_file("B", 9, 20, text("/2")).unwrap();
    list.add_file("C", 5, 10, text("/3")).unwrap();
    list.add_file("D", 7, 20, text("/4")).unwrap();
    list.add_file("E", 3, 10, text("/5")).unwrap();
    list.sort();
    let names: Vec<&str> = list.languages().iter().map(|r| r.name).collect();
    assert_eq!(names, vec!["B", "D", "A", "C", "E"]);
}

#[test]
fn sort_ignores_lines_and_files() {
    let mut list = LanguageList::new();
    list.add_file("Few", 1000, 5, text("/1")).unwrap();
    list.add_file("Few", 1000, 5, text("/2")).unwrap();
    list.add_file("Many", 1, 11, text("/3")).unwrap();
    list.sort();
    assert_eq!(list.languages()[0].name, "Many");
    assert_eq!(list.languages()[1].name, "Few");
}

#[test]
fn sort_keeps_every_record_whole() {
    let mut list = LanguageList::new();
    list.add_file("Rust", 5, 25, text("/b.rs")).unwrap();
    list.add_file("Python", 10, 50, text("/a.py")).unwrap();
    list.add_file("Rust", 2, 3, text("/c.rs")).unwrap();
    list.sort();
    let records = list.languages();
    assert_eq!(records.len(), 2);
    assert_eq!(records[0].name, "Python");
    assert_eq!(records[0].files, vec![text("/a.py")]);
    assert_eq!(records[1].name, "Rust");
    assert_eq!(records[1].lines, 7);
    assert_eq!(records[1].bytes, 28);
    assert_eq!(records[1].files, vec![text("/b.rs"), text("/c.rs")]);
}

#[test]
fn sort_of_empty_and_single_lists() {
    let mut list = LanguageList::new();
    list.sort();
    assert!(list.languages().is_empty());
    list.add_file("Zig", 1, 1, text("/a.zig")).unwrap();
    list.sort();
    assert_eq!(list.languages().len(), 1);
    assert_eq!(list.languages()[0].name, "Zig");
}

#[test]
fn sort_twice_changes_nothing_more() {
    let mut list = LanguageList::new();
    list.add_file("A", 1, 10, text("/1")).unwrap();
    list.add_file("B", 1, 30, text("/2")).unwrap();
    list.add_file("C", 1, 10, text("/3")).unwrap();
    list.sort();
    let once: Vec<&str> = list.languages().iter().map(|r| r.name).collect();
    list.sort();
    let twice: Vec<&str> = list.languages().iter().map(|r| r.name).collect();
    assert_eq!(once, vec!["B", "A", "C"]);
    assert_eq!(once, twice);
}

#[test]
fn find_sets_letter_case_aside() {
    let mut list = LanguageList::new();
    list.add_file("Python", 10, 50, text("/p/a.py")).unwrap();
    list.add_file("Rust", 5, 25, text("/p/b.rs")).unwrap();
    assert_eq!(list.find("python"), vec![text("/p/a.py")]);
    assert_eq!(list.find("PYTHON"), vec![text("/p/a.py")]);
    assert_eq!(list.find("Python"), vec![text("/p/a.py")]);
    assert_eq!(list.find("rUsT"), vec![text("/p/b.rs")]);
}

#[test]
fn find_returns_files_in_recorded_order() {
    let mut list = LanguageList::new();
    list.add_file("Rust", 1, 1, text("/z.rs")).unwrap();
    list.add_file("Go", 1, 1, text("/m.go")).unwrap();
    list.add_file("Rust", 1, 1, text("/a.rs")).unwrap();
    list.add_file("Rust", 1, 1, text("/k.rs")).unwrap();
    assert_eq!(list.find("rust"), vec![text("/z.rs"), text("/a.rs"), text("/k.rs")]);
}

#[test]
fn find_of_unknown_name_is_empty() {
    let mut list = LanguageList::new();
    list.add_file("Python", 10, 50, text("/p/a.py")).unwrap();
    assert!(list.find("ruby").is_empty());
    assert!(list.find("").is_empty());
    assert!(list.find("pyth").is_empty());
    assert!(list.find("python ").is_empty());
    assert!(LanguageList::new().find("python").is_empty());
}

#[test]
fn find_matches_the_whole_name_only() {
    let mut list = LanguageList::new();
    list.add_file("JavaScript", 1, 1, text("/a.js")).unwrap();
    list.add_file("JavaScript React", 1, 1, text("/a.jsx")).unwrap();
    list.add_file("Java", 1, 1, text("/A.java")).unwrap();
    assert_eq!(list.find("java"), vec![text("/A.java")]);
    assert_eq!(list.find("javascript react"), vec![text("/a.jsx")]);
    assert_eq!(list.find("c++"), Vec::<String>::new());
}

#[test]
fn find_lowers_letters_beyond_ascii() {
    let mut list = LanguageList::new();
    list.add_file("Kotlin", 1, 1, text("/a.kt")).unwrap();
    // U+212A KELVIN SIGN has the lowercase form `k`.
    assert_eq!(list.find("\u{212A}otlin"), vec![text("/a.kt")]);
}

#[test]
fn find_after_sort_still_finds_the_language() {
    let mut list = LanguageList::new();
    list.add_file("Rust", 5, 25, text("/p/b.rs")).unwrap();
    list.add_file("Python", 10, 50, text("/p/a.py")).unwrap();
    list.sort();
    assert_eq!(list.find("rust"), vec![text("/p/b.rs")]);
    assert_eq!(list.find("python"), vec![text("/p/a.py")]);
}

#[test]
fn find_by_key_takes_the_first_equal_key() {
    let mut list = LanguageList::new();
    list.add_file("A", 1, 1, text("/1")).unwrap();
    list.add_file("B", 1, 1, text("/2")).unwrap();
    list.add_file("C", 1, 1, text("/3")).unwrap();
    let keys = vec![text("x"), text("y"), text("y")];
    assert_eq!(list.find_by_key(&keys, "y"), vec![text("/2")]);
    assert_eq!(list.find_by_key(&keys, "x"), vec![text("/1")]);
    assert!(list.find_by_key(&keys, "z").is_empty());
    assert!(list.find_by_key(&keys, "Y").is_empty());
}

#[test]
fn find_by_key_with_more_keys_than_records() {
    let mut list = LanguageList::new();
    list.add_file("A", 1, 1, text("/1")).unwrap();
    let keys = vec![text("x"), text("y")];
    assert_eq!(list.find_by_key(&keys, "x"), vec![text("/1")]);
    assert!(list.find_by_key(&keys, "y").is_empty());
    assert!(list.find_by_key(&Vec::new(), "x").is_empty());
}

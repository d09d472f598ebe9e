use fsearch::record::Record;
use fsearch::sort::sort;

fn rec(name: &str, is_directory: bool, path: &str) -> Record {
    Record {
        name: name.to_string(),
        path: path.to_string(),
        is_directory,
        icon: String::new(),
        ext: String::new(),
    }
}

fn names(records: &Vec<Record>) -> Vec<String> {
    records.iter().map(|r| r.name.clone()).collect()
}

#[test]
fn sort_puts_directories_before_files_and_names_ascending() {
    let mut v = vec![
        rec("zebra", false, "/zebra"),
        rec("apple", true, "/apple"),
        rec("mango", false, "/mango"),
        rec("beta", true, "/beta"),
    ];
    sort(&mut v);
    assert_eq!(names(&v), vec!["apple", "beta", "mango", "zebra"]);
    assert!(v[0].is_directory);
    assert!(v[1].is_directory);
    assert!(!v[2].is_directory);
    assert!(!v[3].is_directory);
}

#[test]
fn sort_is_case_sensitive_by_code_point() {
    // Upper-case letters precede lower-case ones.
    let mut v = vec![rec("banana", false, ""), rec("Banana", false, "")];
    sort(&mut v);
    assert_eq!(names(&v), vec!["Banana", "banana"]);
}

#[test]
fn sort_orders_prefixes_first() {
    let mut v = vec![rec("applesauce", false, ""), rec("apple", false, "")];
    sort(&mut v);
    assert_eq!(names(&v), vec!["apple", "applesauce"]);
}

#[test]
fn sort_is_idempotent() {
    let mut v = vec![
        rec("c", false, "1"),
        rec("a", true, "2"),
        rec("b", false, "3"),
        rec("a", false, "4"),
    ];
    sort(&mut v);
    let first: Vec<(String, bool, String)> =
        v.iter().map(|r| (r.name.clone(), r.is_directory, r.path.clone())).collect();
    sort(&mut v);
    let second: Vec<(String, bool, String)> =
        v.iter().map(|r| (r.name.clone(), r.is_directory, r.path.clone())).collect();
    assert_eq!(first, second);
}

#[test]
fn sort_is_a_permutation() {
    let mut v = vec![
        rec("b", false, "1"),
        rec("a", false, "2"),
        rec("b", false, "3"),
        rec("a", true, "4"),
    ];
    sort(&mut v);
    assert_eq!(v.len(), 4);
    let mut paths: Vec<String> = v.iter().map(|r| r.path.clone()).collect();
    paths.sort();
    assert_eq!(paths, vec!["1", "2", "3", "4"]);
}

#[test]
fn sort_keeps_input_order_between_tied_records() {
    // Records sharing the directory flag and the name compare equal; the
    // merge prefers the left half, so an ordered pair stays as given.
    let mut v = vec![rec("same", false, "first"), rec("same", false, "second")];
    sort(&mut v);
    assert_eq!(v[0].path, "first");
    assert_eq!(v[1].path, "second");
}

#[test]
fn record_cmp_and_eq_follow_the_order() {
    let d = rec("zzz", true, "");
    let f = rec("aaa", false, "");
    assert_eq!(d.cmp(&f), std::cmp::Ordering::Less);
    assert_eq!(f.cmp(&d), std::cmp::Ordering::Greater);
    assert_eq!(f.cmp(&rec("aaa", false, "elsewhere")), std::cmp::Ordering::Equal);
    assert!(d.le(&f));
    assert!(!f.le(&d));
    // Equality considers the directory flag alone.
    assert!(f.eq(&rec("unrelated", false, "")));
    assert!(!f.eq(&d));
}

use nscript::arrays::{
    arrangement, arrayfilter, arraypush, arraypushroll, arraysearch, arrayshuffle, arraysort, split,
    NC_ARRAY_DELIM,
};

fn arr(entries: &[&str]) -> String {
    entries.join(NC_ARRAY_DELIM)
}

fn entries(array: &str) -> Vec<String> {
    array.split(NC_ARRAY_DELIM).map(|s| s.to_string()).collect()
}

#[test]
fn split_agrees_with_std() {
    for (s, p) in [("a,b,,c", ","), ("", ","), ("abc", ""), ("aaa", "aa"), ("ünï", "n")] {
        let expected: Vec<String> = s.split(p).map(|x| x.to_string()).collect();
        assert_eq!(split(s, p), expected);
    }
}

#[test]
fn arraypush_appends_entry() {
    assert_eq!(arraypush("a", "b"), arr(&["a", "b"]));
    assert_eq!(arraypush("", "x"), arr(&["", "x"]));
}

#[test]
fn arraypush_entries_law() {
    let a = arr(&["one", "two"]);
    let pushed = arraypush(&a, "three");
    assert_eq!(entries(&pushed), vec!["one", "two", "three"]);
}

#[test]
fn arraypushroll_rolls() {
    let a = arr(&["a", "b", "c"]);
    assert_eq!(arraypushroll(&a, "d"), arr(&["b", "c", "d"]));
    assert_eq!(arraypushroll("single", "new"), "new");
}

#[test]
fn arrayfilter_removes_matches() {
    let a = arr(&["a", "bb", "abc", "d"]);
    assert_eq!(arrayfilter(&a, "b"), arr(&["a", "d"]));
    assert_eq!(arrayfilter(&a, "zzz"), a);
    assert_eq!(arrayfilter(&a, ""), "");
}

#[test]
fn arrayfilter_single_empty_entry() {
    assert_eq!(arrayfilter(&arr(&["", "x"]), "x"), NC_ARRAY_DELIM);
}

#[test]
fn arraysearch_keeps_matches() {
    let a = arr(&["a", "bb", "abc", "d"]);
    assert_eq!(arraysearch(&a, "b"), arr(&["bb", "abc"]));
    assert_eq!(arraysearch(&a, "q"), "");
}

#[test]
fn search_and_filter_partition_entries() {
    let a = arr(&["red", "green", "blue", "grey"]);
    let found = entries(&arraysearch(&a, "re"));
    let rest = entries(&arrayfilter(&a, "re"));
    assert_eq!(found.len() + rest.len(), 4);
    let mut all: Vec<String> = found.into_iter().chain(rest).collect();
    all.sort();
    let mut orig = entries(&a);
    orig.sort();
    assert_eq!(all, orig);
}

#[test]
fn arraysort_sorts() {
    assert_eq!(arraysort(&arr(&["c", "a", "b"])), arr(&["a", "b", "c"]));
    assert_eq!(arraysort(&arr(&["b", "B", "a", "ab", ""])), arr(&["", "B", "a", "ab", "b"]));
}

#[test]
fn arraysort_agrees_with_std_order() {
    let items = ["zeta", "Ärger", "apple", "äpfel", "z", "日本", "a", "ab", "aB"];
    let mut expected: Vec<&str> = items.to_vec();
    expected.sort();
    assert_eq!(arraysort(&arr(&items)), arr(&expected));
}

#[test]
fn arraysort_is_idempotent() {
    let once = arraysort(&arr(&["q", "w", "e", "r"]));
    assert_eq!(arraysort(&once), once);
}

#[test]
fn arraysort_empty_array() {
    assert_eq!(arraysort(""), NC_ARRAY_DELIM);
}

#[test]
fn arrangement_follows_order() {
    let a = arr(&["a", "b", "c"]);
    assert_eq!(arrangement(&a, &vec![2, 0, 1]), arr(&["c", "a", "b"]));
    assert_eq!(arrangement(&a, &vec![1]), "b");
}

#[test]
fn arrayshuffle_keeps_entries() {
    let a = arr(&["1", "2", "3", "4", "5", "6"]);
    let shuffled = arrayshuffle(&a);
    let mut got = entries(&shuffled);
    got.sort();
    assert_eq!(got, entries(&a));
}

#[test]
fn arrayfilter_is_idempotent() {
    let a = arr(&["apple", "pear", "grape", "", "plum"]);
    let once = arrayfilter(&a, "ap");
    assert_eq!(arrayfilter(&once, "ap"), once);
    let only_empty = arrayfilter(&arr(&["ap", ""]), "ap");
    assert_eq!(only_empty, NC_ARRAY_DELIM);
    assert_eq!(arrayfilter(&only_empty, "ap"), only_empty);
    assert_eq!(arrayfilter("ap", "ap"), "");
    assert_eq!(arrayfilter("", "ap"), NC_ARRAY_DELIM);
}

#[test]
fn arraysort_twice_is_once() {
    for a in ["", "b", NC_ARRAY_DELIM] {
        let once = arraysort(a);
        assert_eq!(arraysort(&once), once);
    }
    let once = arraysort(&arr(&["pear", "", "apple", "Zed", "apple"]));
    assert_eq!(arraysort(&once), once);
}

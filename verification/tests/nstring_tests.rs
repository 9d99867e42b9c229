use nscript::arrays::NC_ARRAY_DELIM;
use nscript::nstring::Nstring;

#[test]
fn replace_replaces_every_occurrence() {
    assert_eq!(Nstring::replace("hello world", "o", "0"), "hell0 w0rld");
    assert_eq!(Nstring::replace("aaaa", "aa", "b"), "bb");
    assert_eq!(Nstring::replace("abc", "x", "y"), "abc");
}

#[test]
fn replace_leaves_empty_inputs() {
    assert_eq!(Nstring::replace("", "a", "b"), "");
    assert_eq!(Nstring::replace("abc", "", "x"), "abc");
}

#[test]
fn replace_agrees_with_std() {
    let cases = [("a-b-c", "-", "+"), ("ééé", "é", "e"), ("xyxyx", "xyx", "_"), ("abc", "abc", "")];
    for (s, f, r) in cases {
        assert_eq!(Nstring::replace(s, f, r), s.replace(f, r));
    }
}

#[test]
fn replace_by_itself_keeps_text() {
    assert_eq!(Nstring::replace("a,b,,c", ",", ","), "a,b,,c");
}

#[test]
fn split_writes_array() {
    let d = NC_ARRAY_DELIM;
    assert_eq!(Nstring::split("a,b,c", ","), format!("a{d}b{d}c"));
    assert_eq!(Nstring::split("abc", ","), "abc");
}

#[test]
fn split_edge_cases() {
    let d = NC_ARRAY_DELIM;
    assert_eq!(Nstring::split("", ","), d);
    assert_eq!(Nstring::split(",", ","), d);
    assert_eq!(Nstring::split(",x,", ","), format!("{d}x{d}"));
    assert_eq!(Nstring::split("ab", ""), format!("{d}a{d}b{d}"));
}

#[test]
fn split_is_replace_by_delimiter() {
    for (s, p) in [("a,b,c", ","), ("x::y", "::"), ("no match", "#")] {
        assert_eq!(Nstring::split(s, p), Nstring::replace(s, p, NC_ARRAY_DELIM));
    }
}

#[test]
fn instring_finds_substrings() {
    assert!(Nstring::instring("hello", "ll"));
    assert!(!Nstring::instring("hello", "lo!"));
    assert!(Nstring::instring("hello", ""));
    assert!(!Nstring::instring("", "a"));
    assert!(Nstring::instring("über", "üb"));
}

#[test]
fn trimleft_drops_bytes() {
    assert_eq!(Nstring::trimleft("hello", 2), "llo");
    assert_eq!(Nstring::trimleft("hi", 2), "");
    assert_eq!(Nstring::trimleft("hi", 5), "hi");
    assert_eq!(Nstring::trimleft("héllo", 3), "llo");
}

#[test]
fn trimright_drops_bytes() {
    assert_eq!(Nstring::trimright("hello", 2), "hel");
    assert_eq!(Nstring::trimright("hi", 2), "hi");
    assert_eq!(Nstring::trimright("hi", 5), "hi");
}

#[test]
fn fromleft_takes_bytes() {
    assert_eq!(Nstring::fromleft("hello", 2), "he");
    assert_eq!(Nstring::fromleft("hello", 5), "");
    assert_eq!(Nstring::fromleft("hi", 9), "");
    assert_eq!(Nstring::fromleft("héllo", 3), "hé");
}

#[test]
fn fromright_takes_bytes() {
    assert_eq!(Nstring::fromright("hello", 2), "lo");
    assert_eq!(Nstring::fromright("hello", 5), "");
    assert_eq!(Nstring::fromright("hello", 0), "");
}

#[test]
fn left_and_right_parts_make_the_string() {
    let s = "nscript";
    for f in 0..s.len() {
        assert_eq!(Nstring::fromleft(s, f) + &Nstring::trimleft(s, f), s);
        assert_eq!(Nstring::trimright(s, f) + &Nstring::fromright(s, f), s);
    }
}

#[test]
fn stringtoeval_replaces_unsafe_characters() {
    assert_eq!(Nstring::stringtoeval("a-b.c/d"), "a_b_c_d");
    assert_eq!(Nstring::stringtoeval("~!#%^&*()\\{}[].,?'$/"), "_".repeat(20));
    assert_eq!(Nstring::stringtoeval("x_y z"), "x_y z");
}

#[test]
fn stringtoeval_is_idempotent() {
    let once = Nstring::stringtoeval("we-ird.(key)");
    assert_eq!(Nstring::stringtoeval(&once), once);
}

#[test]
fn stringbetween_extracts() {
    assert_eq!(Nstring::stringbetween("say [hello] now", "[", "]"), "hello");
    assert_eq!(Nstring::stringbetween("a<b>c<d>", "<", ">"), "b");
    assert_eq!(Nstring::stringbetween("no markers", "[", "]"), "");
    assert_eq!(Nstring::stringbetween("open [only", "[", "]"), "");
    assert_eq!(Nstring::stringbetween("x]y[z", "[", "]"), "");
    assert_eq!(Nstring::stringbetween("abc", "", "c"), "ab");
}

#[test]
fn split_result_splits_back() {
    for (s, p) in [("a,b,,c", ","), ("abc", ""), ("aaa", "aa"), ("x", "x"), ("ünï", "n")] {
        let array = Nstring::split(s, p);
        let back: Vec<&str> = array.split(NC_ARRAY_DELIM).collect();
        let pieces: Vec<&str> = s.split(p).collect();
        assert_eq!(back, pieces);
        assert_eq!(array.replace(NC_ARRAY_DELIM, p), s);
    }
}

use std::cmp::Ordering;
use std::collections::hash_map::DefaultHasher;
use std::hash::{Hash, Hasher};
use std::path::PathBuf;

use fuzzypath::path::{is_normalized_text, normalized_text};
use fuzzypath::FuzzyPath;

fn text(p: &FuzzyPath) -> &str {
    p.as_str_lossy()
}

#[test]
fn test_normalize() {
    assert_eq!(FuzzyPath::from("HELLO\\\\world/////foo/bar/////////"), FuzzyPath::from("hello/world/foo/bar"));
    assert_eq!(FuzzyPath::from("\\\\HELLO\\\\world/////foo/bar/////////"), FuzzyPath::from("/hello/world/foo/bar"));
}

#[test]
fn normalized_text_of_examples() {
    assert_eq!(text(&FuzzyPath::from("HELLO\\\\world/////foo/bar/////////")), "hello/world/foo/bar");
    assert_eq!(text(&FuzzyPath::from("\\\\HELLO\\\\world/////foo/bar/////////")), "/hello/world/foo/bar");
    assert_eq!(normalized_text("A\\B//C/"), "a/b/c");
}

#[test]
fn empty_input_gives_empty_value() {
    assert_eq!(text(&FuzzyPath::from("")), "");
    assert_eq!(FuzzyPath::from(""), FuzzyPath::from(""));
    assert_eq!(FuzzyPath::from(""), FuzzyPath::default());
}

#[test]
fn trailing_slash_removed() {
    assert_eq!(FuzzyPath::from("a/b/"), FuzzyPath::from("a/b"));
    assert_eq!(text(&FuzzyPath::from("a/b/")), "a/b");
    assert_eq!(text(&FuzzyPath::from("a/b\\\\//")), "a/b");
}

#[test]
fn root_slash_kept() {
    assert_eq!(text(&FuzzyPath::from("/")), "/");
    assert_eq!(text(&FuzzyPath::from("///")), "/");
    assert_eq!(text(&FuzzyPath::from("\\")), "/");
    assert_eq!(text(&FuzzyPath::from("\\/\\")), "/");
    assert_ne!(FuzzyPath::from("/"), FuzzyPath::from(""));
}

#[test]
fn case_insensitive() {
    assert_eq!(FuzzyPath::from("HeLLo/WORLD"), FuzzyPath::from("hello/world"));
    assert_eq!(FuzzyPath::from("HELLO/WORLD"), FuzzyPath::from("hello/world"));
    assert_eq!(FuzzyPath::from("ÄÖÜ/Straße"), FuzzyPath::from("äöü/straße"));
    assert_eq!(text(&FuzzyPath::from("ÄÖÜ")), "äöü");
}

#[test]
fn lowercase_may_expand() {
    assert_eq!(text(&FuzzyPath::from("İ")), "i\u{307}");
    assert_eq!(text(&FuzzyPath::from("İ")).chars().count(), 2);
}

#[test]
fn separators_unified() {
    assert_eq!(FuzzyPath::from("a\\b\\c"), FuzzyPath::from("a/b/c"));
    assert_eq!(FuzzyPath::from("a\\b/c"), FuzzyPath::from("a/b\\c"));
    assert_eq!(text(&FuzzyPath::from("a\\b")), "a/b");
}

#[test]
fn slash_runs_collapsed() {
    assert_eq!(FuzzyPath::from("a/////b"), FuzzyPath::from("a/b"));
    assert_eq!(FuzzyPath::from("//a//b"), FuzzyPath::from("/a/b"));
    assert_eq!(text(&FuzzyPath::from("a//\\//b")), "a/b");
}

#[test]
fn platforms_not_unified() {
    assert_ne!(FuzzyPath::from("C:\\Users\\x"), FuzzyPath::from("/Users/x"));
    assert_eq!(text(&FuzzyPath::from("C:\\Users\\x")), "c:/users/x");
}

#[test]
fn normalizing_twice_changes_nothing() {
    for input in ["HELLO\\\\world//foo/", "/", "", "A/B/c", "İx//Y", "\\\\a"] {
        let once = FuzzyPath::from(input);
        let twice = FuzzyPath::from(once.as_str_lossy());
        assert_eq!(once, twice);
    }
}

#[test]
fn path_buf_round_trip() {
    for input in ["HELLO\\\\world//foo/", "/", "", "a/b", "/x/Y/z/"] {
        let p = FuzzyPath::from(input);
        let platform: PathBuf = p.clone().into();
        let back = FuzzyPath::from(platform);
        assert_eq!(back, p);
    }
}

#[test]
fn from_path_buf_normalizes() {
    let p = FuzzyPath::from(PathBuf::from("/Foo//Bar/"));
    assert_eq!(text(&p), "/foo/bar");
}

#[test]
fn into_path_buf_holds_text() {
    let platform: PathBuf = FuzzyPath::from("A//B/").into();
    assert_eq!(platform.to_str(), Some("a/b"));
}

#[test]
fn from_string_normalizes() {
    let p = FuzzyPath::from(String::from("X\\Y/"));
    assert_eq!(text(&p), "x/y");
}

#[test]
fn parse_normalizes() {
    let p: FuzzyPath = "A//B".parse().unwrap();
    assert_eq!(text(&p), "a/b");
}

#[test]
fn text_accessors() {
    let p = FuzzyPath::from("/Foo/Bar/");
    assert_eq!(p.as_str_lossy(), "/foo/bar");
    assert_eq!(p.to_string(), "/foo/bar");
    let r: &str = p.as_ref();
    assert_eq!(r, "/foo/bar");
    let rs: &String = p.as_ref();
    assert_eq!(rs, "/foo/bar");
    let s: String = p.clone().into();
    assert_eq!(s, "/foo/bar");
    assert_eq!(p.into_string_lossy(), "/foo/bar");
}

#[test]
fn unchecked_keeps_text() {
    let p = FuzzyPath::from_str_unchecked(String::from("a/b"));
    assert_eq!(p, FuzzyPath::from("A/B"));
    assert_eq!(text(&p), "a/b");
}

#[test]
fn checked_rehydration() {
    assert_eq!(FuzzyPath::try_from_normalized(String::from("/a/b")), Some(FuzzyPath::from("/a/b")));
    assert_eq!(FuzzyPath::try_from_normalized(String::from("/")), Some(FuzzyPath::from("/")));
    assert_eq!(FuzzyPath::try_from_normalized(String::new()), Some(FuzzyPath::from("")));
    assert_eq!(FuzzyPath::try_from_normalized(String::from("a/B")), None);
    assert_eq!(FuzzyPath::try_from_normalized(String::from("a//b")), None);
    assert_eq!(FuzzyPath::try_from_normalized(String::from("a\\b")), None);
    assert_eq!(FuzzyPath::try_from_normalized(String::from("a/b/")), None);
}

#[test]
fn normal_form_check() {
    assert!(is_normalized_text("hello/world"));
    assert!(is_normalized_text("/"));
    assert!(is_normalized_text(""));
    assert!(!is_normalized_text("Hello"));
    assert!(!is_normalized_text("//"));
    assert!(!is_normalized_text("a/"));
}

#[test]
fn ordering_by_text() {
    let a = FuzzyPath::from("A/b");
    let b = FuzzyPath::from("a/c");
    let c = FuzzyPath::from("b");
    assert_eq!(a.partial_cmp(&b), Some(Ordering::Less));
    assert_eq!(b.partial_cmp(&a), Some(Ordering::Greater));
    assert_eq!(a.partial_cmp(&FuzzyPath::from("a\\B")), Some(Ordering::Equal));
    assert!(a < b && b < c && a < c);
    assert_eq!(a.cmp(&b), Ordering::Less);
    assert_eq!(FuzzyPath::from("a").partial_cmp(&FuzzyPath::from("ab")), Some(Ordering::Less));
    assert_eq!(FuzzyPath::from("").partial_cmp(&FuzzyPath::from("/")), Some(Ordering::Less));
}

#[test]
fn ordering_agrees_with_cmp() {
    let items = ["", "/", "a", "a/b", "ab", "b", "é", "z/Y", "ä"];
    for x in items {
        for y in items {
            let p = FuzzyPath::from(x);
            let q = FuzzyPath::from(y);
            assert_eq!(p.partial_cmp(&q), Some(p.cmp(&q)));
            assert_eq!(p == q, p.cmp(&q) == Ordering::Equal);
        }
    }
}

#[test]
fn equal_values_hash_equally() {
    let hash = |p: &FuzzyPath| {
        let mut h = DefaultHasher::new();
        p.hash(&mut h);
        h.finish()
    };
    assert_eq!(hash(&FuzzyPath::from("A\\\\B/")), hash(&FuzzyPath::from("a/b")));
}

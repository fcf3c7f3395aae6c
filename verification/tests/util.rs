//! Paths, time stamps, hashes, LCOV parsing, sampling and ordered maps.

use testmap::lcov::parse;
use testmap::sample::{sample_sorted, sort_u32};
use testmap::sorted::{contains_sorted, insert_sorted, sorted_set};
use testmap::strmap::StrMap;
use testmap::util::{
    civil_from_days, dunce, fingerprint_bytes, fnv1a, fnv1a_u64, join_path, now_rfc3339,
    relativize, rfc3339_from_secs,
};

#[test]
fn fnv1a_known_values() {
    assert_eq!(fnv1a(""), "cbf29ce484222325");
    assert_eq!(fnv1a("a"), "af63dc4c8601ec8c");
    assert_eq!(fnv1a_u64("a"), 0xaf63dc4c8601ec8c);
    let h = fnv1a("calc::tests::add_works");
    assert_eq!(h.len(), 16);
    assert!(h.chars().all(|c| c.is_ascii_hexdigit() && !c.is_ascii_uppercase()));
}

#[test]
fn calendar_dates() {
    assert_eq!(civil_from_days(0), (1970, 1, 1));
    assert_eq!(civil_from_days(59), (1970, 3, 1));
    assert_eq!(civil_from_days(11016), (2000, 2, 29));
    assert_eq!(civil_from_days(-1), (1969, 12, 31));
    for z in [-800_000i64, -1, 0, 365, 20_000, 1_000_000] {
        let (_, m, d) = civil_from_days(z);
        assert!((1..=12).contains(&m) && (1..=31).contains(&d));
    }
}

#[test]
fn timestamps() {
    assert_eq!(rfc3339_from_secs(0), "1970-01-01T00:00:00Z");
    assert_eq!(rfc3339_from_secs(951_782_400 + 3_723), "2000-02-29T01:02:03Z");
    let now = now_rfc3339();
    assert_eq!(now.len(), 20);
    assert!(now.ends_with('Z') && &now[4..5] == "-" && &now[10..11] == "T");
    assert!(now.as_str() > "2020");
}

#[test]
fn paths() {
    assert_eq!(dunce("./a/./b/../c"), "a/c");
    assert_eq!(dunce("/x/../y"), "/y");
    assert_eq!(relativize("/ws/src/lib.rs", "/ws").as_deref(), Some("src/lib.rs"));
    assert_eq!(relativize("./src/lib.rs", "."), Some("src/lib.rs".to_string()));
    assert_eq!(relativize("/ws", "/ws").as_deref(), Some(""));
    assert_eq!(relativize("/other/lib.rs", "/ws"), None);
    assert_eq!(join_path("/a", "b"), "/a/b");
    assert_eq!(join_path("/a/", "b"), "/a/b");
    assert_eq!(join_path("", "b"), "b");
    assert_eq!(join_path("/a", "/b"), "/b");
}

#[test]
fn fingerprints() {
    assert_eq!(
        fingerprint_bytes(b"abc"),
        "6437b3ac38465133ffb63b75273a8db548c558465d79db03fd359c6cd5bd9d85"
    );
    assert_ne!(fingerprint_bytes(b"abc"), fingerprint_bytes(b"abd"));
}

#[test]
fn lcov_records() {
    let text = "TN:\nSF:/a.rs\nDA:3,1\nDA:1,0\nDA:3,2\nDA:x,1\nend_of_record\nSF:/b.rs\nend_of_record\nSF:/c.rs\r\nDA:2,5\r\n";
    let r = parse(text);
    assert_eq!(r.len(), 2);
    assert_eq!(r[0].0, "/a.rs");
    assert_eq!(r[0].1.executable, vec![1, 3]);
    assert_eq!(r[0].1.covered, vec![3]);
    assert_eq!(r[1].0, "/c.rs");
    assert_eq!(r[1].1.executable, vec![2]);
    for (_, fc) in &r {
        assert!(fc.covered.iter().all(|l| fc.executable.contains(l)));
        assert!(!fc.executable.is_empty());
    }
}

#[test]
fn sampling() {
    let all: Vec<u32> = (0..20).collect();
    assert_eq!(sample_sorted(&all, 0, 7), Vec::<u32>::new());
    assert_eq!(sample_sorted(&[5, 1, 3], 9, 7), vec![1, 3, 5]);
    let s = sample_sorted(&all, 4, 42);
    assert_eq!(s.len(), 4);
    assert!(s.windows(2).all(|w| w[0] <= w[1]));
    assert!(s.iter().all(|x| all.contains(x)));
    assert_eq!(s, sample_sorted(&all, 4, 42));
    assert_eq!(sort_u32(&[3, 1, 2, 1]), vec![1, 1, 2, 3]);
}

#[test]
fn ordered_sets_and_maps() {
    let mut v = vec![1, 5];
    insert_sorted(&mut v, 3);
    insert_sorted(&mut v, 5);
    assert_eq!(v, vec![1, 3, 5]);
    assert!(contains_sorted(&v, 3) && !contains_sorted(&v, 4));
    assert_eq!(sorted_set(&vec![4, 1, 4, 2]), vec![1, 2, 4]);
    let mut m: StrMap<u32> = StrMap::new();
    m.insert("b".to_string(), 1);
    m.insert("a".to_string(), 2);
    m.insert("b".to_string(), 3);
    assert_eq!(m.len(), 2);
    assert_eq!(m.entry(0).0, "a");
    assert_eq!(m.get("b"), Some(&3));
    assert_eq!(m.get("c"), None);
    let p = StrMap::from_pairs(vec![("x".to_string(), 1u32), ("x".to_string(), 2)]);
    assert_eq!(p.get("x"), Some(&2));
}

#[test]
fn relativized_paths_join_back() {
    assert_eq!(relativize("/ws/./src/../src/lib.rs", "/ws").as_deref(), Some("src/lib.rs"));
    assert_eq!(relativize("/wsx/a.rs", "/ws"), None);
    let cases = [
        ("/ws/./src/../src/lib.rs", "/ws"),
        ("/ws/src/lib.rs", "/ws/"),
        ("/ws", "/ws"),
        ("a/b/../c/d.rs", "a"),
        ("a/b.rs", ""),
        ("/abs/x.rs", "."),
        ("/x/y", "/"),
    ];
    for (path, root) in cases {
        let q = relativize(path, root).unwrap();
        assert_eq!(dunce(&join_path(root, &q)), dunce(path));
    }
}

#[test]
fn lcov_lines_outside_records_belong_to_no_file() {
    let text = "SF:/w/a.rs\nDA:1,1\nend_of_record\nDA:7,1\nSF:/w/b.rs\nDA:2,0\nend_of_record\n";
    let r = parse(text);
    assert_eq!(r.len(), 2);
    assert_eq!(r[0].0, "/w/a.rs");
    assert_eq!(r[0].1.executable, vec![1]);
    assert_eq!(r[0].1.covered, vec![1]);
    assert_eq!(r[1].0, "/w/b.rs");
    assert_eq!(r[1].1.executable, vec![2]);
    assert_eq!(r[1].1.covered, Vec::<u32>::new());
    let leading = parse("DA:4,2\nSF:/w/c.rs\nDA:5,0\n");
    assert_eq!(leading.len(), 1);
    assert_eq!(leading[0].1.executable, vec![5]);
    assert!(leading[0].1.covered.is_empty());
}

#[test]
fn relativized_paths_are_relative_under_a_real_root() {
    for (path, root) in [("/ws/src/lib.rs", "/ws"), ("/ws/a/../b.rs", "/ws/"), ("a/b/c.rs", "a"), ("/x", "/")] {
        let q = relativize(path, root).unwrap();
        assert!(!q.starts_with('/'));
    }
    assert_eq!(relativize("/abs/./x.rs", ".").as_deref(), Some("/abs/x.rs"));
    assert_eq!(relativize("/abs/x.rs", "").as_deref(), Some("/abs/x.rs"));
}

use std::cmp::Ordering;

use pathdiv::PathDiv;

#[test]
fn round_trip_text() {
    let s = "/etc/init.d/ssh";
    assert_eq!(s, PathDiv::from(s).to_str().unwrap());
    assert_eq!("", PathDiv::from("").to_str().unwrap());
    assert_eq!("a//b/./c/", PathDiv::from("a//b/./c/").to_str().unwrap());
}

#[test]
fn chained_join_is_sequential_push() {
    let chained = PathDiv::from("/a").div("b").div("c");
    let mut pushed = PathDiv::from("/a");
    pushed.push("b");
    pushed.push("c");
    assert_eq!(pushed.to_str().unwrap(), chained.to_str().unwrap());
    assert_eq!("/a/b/c", chained.to_str().unwrap());
}

#[test]
fn div_ref_leaves_operand_unchanged() {
    let p = PathDiv::from("/etc/init.d");
    let q = p.div_ref("ssh");
    assert_eq!("/etc/init.d", p.to_str().unwrap());
    assert_eq!("/etc/init.d/ssh", q.to_str().unwrap());
}

#[test]
fn div_assign_matches_div() {
    let mut a = PathDiv::from("/etc");
    a.div_assign("init.d");
    let b = PathDiv::from("/etc").div("init.d");
    assert_eq!(b.to_str().unwrap(), a.to_str().unwrap());
}

#[test]
fn pop_until_nothing_remains() {
    let mut p = PathDiv::from("/etc/init.d");
    assert!(p.pop());
    assert_eq!("/etc", p.to_str().unwrap());
    assert!(p.pop());
    assert_eq!("/", p.to_str().unwrap());
    assert!(!p.pop());
    assert_eq!("/", p.to_str().unwrap());

    let mut q = PathDiv::from("a/b");
    assert!(q.pop());
    assert_eq!("a", q.to_str().unwrap());
    assert!(q.pop());
    assert_eq!("", q.to_str().unwrap());
    assert!(!q.pop());
}

#[test]
fn pop_skips_trailing_separators_and_dots() {
    let mut p = PathDiv::from("/etc/init.d/");
    assert!(p.pop());
    assert_eq!("/etc", p.to_str().unwrap());

    let mut q = PathDiv::from("a/./");
    assert!(q.pop());
    assert_eq!("", q.to_str().unwrap());

    let mut r = PathDiv::from("./a");
    assert!(r.pop());
    assert_eq!(".", r.to_str().unwrap());

    let mut s = PathDiv::from("a/..");
    assert!(s.pop());
    assert_eq!("a", s.to_str().unwrap());
}

#[test]
fn equality_across_representations() {
    assert_eq!(PathDiv::from("/a/b"), PathDiv::from("/a").div("b"));
    assert_eq!(PathDiv::from("/a//b"), PathDiv::from("/a/b"));
    assert_eq!(PathDiv::from("a/./b"), PathDiv::from("a/b"));
    assert_eq!(PathDiv::from("a/"), PathDiv::from("a"));
    assert_ne!(PathDiv::from("/a"), PathDiv::from("a"));
    assert_ne!(PathDiv::from("./a"), PathDiv::from("a"));
    assert_ne!(PathDiv::from("."), PathDiv::from(""));
}

#[test]
fn equality_against_bare_text() {
    assert!(PathDiv::from("/a//b").eq_str("/a/b"));
    assert!(PathDiv::from("x/y/").eq_str("x/y"));
    assert!(!PathDiv::from("/a/b").eq_str("/a/c"));
    assert!(!PathDiv::from("/a").eq_str("a"));
}

#[test]
fn end_to_end_scenario() {
    let mut p = PathDiv::from("/etc");
    p = p.div("init.d");
    assert_eq!("/etc/init.d", p.to_str().unwrap());
    p.div_assign("ssh");
    assert_eq!("/etc/init.d/ssh", p.to_str().unwrap());
    let q = p.div_ref("x");
    assert_eq!("/etc/init.d/ssh/x", q.to_str().unwrap());
    assert_eq!("/etc/init.d/ssh", p.to_str().unwrap());
}

#[test]
fn absolute_segment_replaces_buffer() {
    assert_eq!("/usr", PathDiv::from("/etc").div("/usr").to_str().unwrap());
    let mut p = PathDiv::from("relative/dir");
    p.push("/abs");
    assert_eq!("/abs", p.to_str().unwrap());
    let mut q = PathDiv::from("/etc");
    q.div_assign("/usr/local");
    assert_eq!("/usr/local", q.to_str().unwrap());
}

#[test]
fn push_separator_rule() {
    let mut p = PathDiv::from("/etc/");
    p.push("x");
    assert_eq!("/etc/x", p.to_str().unwrap());
    let mut q = PathDiv::from("");
    q.push("x");
    assert_eq!("x", q.to_str().unwrap());
    let mut r = PathDiv::from("/etc");
    r.push("");
    assert_eq!("/etc/", r.to_str().unwrap());
}

#[test]
fn set_file_name_replaces_or_pushes() {
    let mut p = PathDiv::from("/tmp/foo.txt");
    p.set_file_name("bar.txt");
    assert_eq!("/tmp/bar.txt", p.to_str().unwrap());

    let mut q = PathDiv::from("/");
    q.set_file_name("x");
    assert_eq!("/x", q.to_str().unwrap());

    let mut r = PathDiv::from("");
    r.set_file_name("x");
    assert_eq!("x", r.to_str().unwrap());
}

#[test]
fn set_extension_rules() {
    let mut p = PathDiv::from("/tmp/a.txt");
    assert!(p.set_extension("md"));
    assert_eq!("/tmp/a.md", p.to_str().unwrap());

    let mut q = PathDiv::from("/tmp/a.tar.gz");
    assert!(q.set_extension("xz"));
    assert_eq!("/tmp/a.tar.xz", q.to_str().unwrap());

    let mut r = PathDiv::from("/tmp/a.txt");
    assert!(r.set_extension(""));
    assert_eq!("/tmp/a", r.to_str().unwrap());

    let mut s = PathDiv::from("/x/.gitignore");
    assert!(s.set_extension("bak"));
    assert_eq!("/x/.gitignore.bak", s.to_str().unwrap());

    let mut t = PathDiv::from("/");
    assert!(!t.set_extension("txt"));
    assert_eq!("/", t.to_str().unwrap());

    let mut u = PathDiv::from("a");
    assert!(u.set_extension("txt"));
    assert_eq!("a.txt", u.to_str().unwrap());
}

#[test]
fn consuming_exports_keep_the_text() {
    let b = PathDiv::from("/a/b").into_boxed_path();
    assert_eq!("/a/b", &*b);
    let s = PathDiv::from("/a/b").into_os_string();
    assert_eq!("/a/b", s);
}

#[test]
fn gathered_construction() {
    let parts = vec![
        String::from("/usr"),
        String::from("local"),
        String::from("bin"),
    ];
    let p = PathDiv::from_iter(&parts);
    assert_eq!("/usr/local/bin", p.to_str().unwrap());

    let mut q = PathDiv::from("base");
    let more = vec![String::from("x"), String::from("/restart"), String::from("y")];
    q.extend(&more);
    assert_eq!("/restart/y", q.to_str().unwrap());
}

#[test]
fn empty_defaults_and_parsing() {
    assert_eq!("", PathDiv::new().to_str().unwrap());
    assert_eq!(PathDiv::new(), PathDiv::default());
    let mut p = PathDiv::new();
    assert!(!p.pop());
    let parsed = PathDiv::from_str("/etc").unwrap();
    assert_eq!(PathDiv::from("/etc"), parsed);
    assert_eq!("/etc", parsed.as_path());
    let owned = PathDiv::from_string(String::from("/etc"));
    assert_eq!(PathDiv::from("/etc"), owned);
}

#[test]
fn ordering_over_components() {
    assert!(PathDiv::from("/a") < PathDiv::from("/b"));
    assert!(PathDiv::from("/a/b") < PathDiv::from("/a/c"));
    assert!(PathDiv::from("/z") < PathDiv::from("a"));
    assert!(PathDiv::from("..") < PathDiv::from("a"));
    assert_eq!(
        Some(Ordering::Equal),
        PathDiv::from("/a//b").partial_cmp(&PathDiv::from("/a/b"))
    );
    assert_eq!(Ordering::Less, PathDiv::from("/a").cmp_str("/a/b"));
    assert_eq!(Ordering::Equal, PathDiv::from("x/y/").cmp_str("x/y"));
    assert_eq!(Ordering::Greater, PathDiv::from("b").cmp_str("a"));
}

#[test]
fn equal_paths_hash_identically() {
    assert_eq!(
        PathDiv::from("/a//b").hash(),
        PathDiv::from("/a/b").hash()
    );
    assert_eq!(PathDiv::from("x/y/").hash(), PathDiv::from("x/y").hash());
    assert_ne!(PathDiv::from("/a").hash(), PathDiv::from("a").hash());
    assert_ne!(PathDiv::from("/a/b").hash(), PathDiv::from("/a/c").hash());
}

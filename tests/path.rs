use gallery_cache::path::{collapse_separator_runs, resolve_path, strip_parent_tokens};

fn chars(s: &str) -> Vec<char> {
    s.chars().collect()
}

#[test]
fn traversal_is_removed() {
    let p = resolve_path("/photos", "album", "../../etc/passwd");
    assert_eq!(p, "/photos/album/etc/passwd");
    assert!(!p.contains(".."));
}

#[test]
fn duplicate_separators_are_collapsed() {
    assert_eq!(resolve_path("/r", "s/", "a//b"), "/r/s/a/b");
    assert_eq!(resolve_path("/r", "s/", "a///b"), "/r/s/a/b");
}

#[test]
fn plain_key_is_unchanged() {
    assert_eq!(resolve_path("/r", "s/", "img_01.JPG"), "/r/s/img_01.JPG");
}

#[test]
fn parent_tokens_strip_left_to_right() {
    assert_eq!(strip_parent_tokens(&chars("...")), chars("."));
    assert_eq!(strip_parent_tokens(&chars("....")), chars(""));
    assert_eq!(strip_parent_tokens(&chars("a..b")), chars("ab"));
    assert_eq!(strip_parent_tokens(&chars(".a.")), chars(".a."));
}

#[test]
fn separator_runs_collapse() {
    assert_eq!(collapse_separator_runs(&chars("//a////b/")), chars("/a/b/"));
    assert_eq!(collapse_separator_runs(&chars("")), chars(""));
}

#[test]
fn no_escape_for_tricky_keys() {
    for k in ["..../x", "./../..", ".../...", "a/../../b", "..//..//"] {
        let p = resolve_path("/root", "sub", k);
        assert!(p.starts_with("/root/sub"));
        assert!(!p.contains(".."), "{}", p);
        assert!(!p["/root/sub".len()..].contains("//"), "{}", p);
    }
}

use pnet_filesync::paths::{sanitize_rel, MAX_PATH};

#[test]
fn accepts_nested_files() {
    assert_eq!(sanitize_rel("a/b.txt").as_deref(), Some("a/b.txt"));
    assert_eq!(sanitize_rel("photo.jpg").as_deref(), Some("photo.jpg"));
    assert_eq!(sanitize_rel("./x/y").as_deref(), Some("x/y"));
}

#[test]
fn rejects_escapes_and_hidden() {
    assert!(sanitize_rel("../x").is_none());
    assert!(sanitize_rel("/etc/passwd").is_none());
    assert!(sanitize_rel("a/../b").is_none());
    assert!(sanitize_rel(".hidden").is_none());
    assert!(sanitize_rel("a/.git/x").is_none());
    assert!(sanitize_rel("").is_none());
    assert!(sanitize_rel("a\0b").is_none());
}

#[test]
fn drops_empty_and_dot_components() {
    assert_eq!(sanitize_rel("a//b").as_deref(), Some("a/b"));
    assert_eq!(sanitize_rel("a/./b/").as_deref(), Some("a/b"));
    assert_eq!(sanitize_rel("./.").as_deref(), None);
    assert_eq!(sanitize_rel("  notes/todo.txt \t").as_deref(), Some("notes/todo.txt"));
    assert_eq!(sanitize_rel("\u{3000}x\u{85}").as_deref(), Some("x"));
    assert_eq!(sanitize_rel("grüße/été.txt").as_deref(), Some("grüße/été.txt"));
}

#[test]
fn rejects_backslash_and_control() {
    assert!(sanitize_rel("\\x").is_none());
    assert!(sanitize_rel("a\\b").is_none());
    assert!(sanitize_rel("a\nb").is_none());
    assert!(sanitize_rel("a\u{7f}b").is_none());
    assert!(sanitize_rel("a\u{9f}b").is_none());
    assert!(sanitize_rel("...").is_none());
}

#[test]
fn length_is_counted_in_bytes() {
    let fits: String = "a".repeat(MAX_PATH);
    assert_eq!(sanitize_rel(&fits), Some(fits.clone()));
    assert!(sanitize_rel(&"a".repeat(MAX_PATH + 1)).is_none());
    assert!(sanitize_rel(&"é".repeat(256)).is_some());
    assert!(sanitize_rel(&"é".repeat(257)).is_none());
    let padded = format!("  {}  ", fits);
    assert_eq!(sanitize_rel(&padded), Some(fits));
}

#[test]
fn sanitizing_twice_is_sanitizing_once() {
    for raw in ["a/b", "./x//y/", " a b /c", "x/ y"] {
        let once = sanitize_rel(raw).unwrap();
        assert_eq!(sanitize_rel(&once), Some(once.clone()));
    }
    // Leading white space that a dropped component uncovers is kept once.
    assert_eq!(sanitize_rel("./ x").as_deref(), Some(" x"));
    assert_eq!(sanitize_rel(" x").as_deref(), Some("x"));
}

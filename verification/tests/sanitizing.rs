use p2p_autos::sanitize::{sanitize_mime, sanitize_name};

#[test]
fn main_names() {
    assert_eq!(sanitize_name("../../etc/passwd"), "passwd");
    assert_eq!(sanitize_name("C:\\Users\\a\\b.txt"), "b.txt");
    assert_eq!(sanitize_name("ok\r\nX-Evil: 1"), "okX-Evil: 1");
    assert_eq!(sanitize_name("   "), "download");
    assert_eq!(sanitize_name(".."), "download");
    assert_eq!(sanitize_name("hé.txt"), "hé.txt");
}

#[test]
fn sanitize_names() {
    assert_eq!(sanitize_name("../../etc/passwd"), "passwd");
    assert_eq!(sanitize_name("C:\\Users\\a\\b.txt"), "b.txt");
    assert_eq!(sanitize_name("ok\r\nX-Evil: 1"), "okX-Evil: 1");
    assert_eq!(sanitize_name("   "), "download");
    assert_eq!(sanitize_name(".."), "download");
    assert_eq!(sanitize_name("hé.txt"), "hé.txt");
}

#[test]
fn main_mimes() {
    assert_eq!(sanitize_mime("video/MP4"), "video/mp4");
    assert_eq!(sanitize_mime(""), "application/octet-stream");
    assert_eq!(
        sanitize_mime("text/html; charset=x"),
        "application/octet-stream"
    );
    assert_eq!(sanitize_mime("a/b/c"), "application/octet-stream");
    assert_eq!(sanitize_mime("te xt/plain"), "application/octet-stream");
}

#[test]
fn sanitize_mimes() {
    assert_eq!(sanitize_mime("video/MP4"), "video/mp4");
    assert_eq!(sanitize_mime(""), "application/octet-stream");
    assert_eq!(
        sanitize_mime("text/html; charset=x"),
        "application/octet-stream"
    );
    assert_eq!(sanitize_mime("a/b/c"), "application/octet-stream");
    assert_eq!(sanitize_mime("te xt/plain"), "application/octet-stream");
}

/// The same rules, written with std's own tools.
fn plain_name(raw: &str) -> String {
    let base = raw.rsplit(['/', '\\']).next().unwrap_or("");
    let cleaned: String = base
        .chars()
        .filter(|c| !c.is_control())
        .take(255)
        .collect();
    match cleaned.trim().trim_matches('.') {
        "" => "download".into(),
        s => s.into(),
    }
}

#[test]
fn names_agree_with_the_plain_rules() {
    let long = "x".repeat(300);
    let spaced = format!("{}  .", "y".repeat(254));
    for raw in [
        "",
        "/",
        "a/",
        "\\a",
        ".hidden",
        "...a.b...",
        " . a . ",
        "\u{a0}nbsp\u{a0}",
        "\u{85}next\u{85}line\u{85}",
        "a\u{0}b\u{7f}c\u{9f}d",
        "tab\there",
        "名前.txt",
        "a/b\\c/d.e",
        "\u{3000}.\u{3000}",
        long.as_str(),
        spaced.as_str(),
    ] {
        assert_eq!(sanitize_name(raw), plain_name(raw), "{raw:?}");
    }
    assert_eq!(sanitize_name(&long).chars().count(), 255);
}

#[test]
fn names_are_safe() {
    for raw in ["../x", "a\\..\\b", ".\r\n.", "\u{1}", "./.", "a/.b."] {
        let name = sanitize_name(raw);
        assert!(!name.is_empty());
        assert!(!name.contains(['/', '\\']));
        assert!(!name.chars().any(|c| c.is_control()));
        assert!(!name.starts_with('.') && !name.ends_with('.'));
    }
}

#[test]
fn mimes_at_the_edges() {
    assert_eq!(sanitize_mime("  Text/Plain\t"), "text/plain");
    assert_eq!(sanitize_mime("a/"), "application/octet-stream");
    assert_eq!(sanitize_mime("/b"), "application/octet-stream");
    assert_eq!(sanitize_mime("a"), "application/octet-stream");
    assert_eq!(sanitize_mime("é/b"), "application/octet-stream");
    assert_eq!(
        sanitize_mime("application/vnd.api+json"),
        "application/vnd.api+json"
    );
    assert_eq!(sanitize_mime("!#$%&'*+-.^_`|~/x"), "!#$%&'*+-.^_`|~/x");
    assert_eq!(sanitize_mime("a\"/b"), "application/octet-stream");
    // Type and subtype together must stay below 128 characters.
    let kept = format!("{}/{}", "a".repeat(63), "b".repeat(64));
    let dropped = format!("{}/{}", "a".repeat(64), "b".repeat(64));
    assert_eq!(sanitize_mime(&kept), kept);
    assert_eq!(sanitize_mime(&dropped), "application/octet-stream");
}

#[test]
fn mimes_are_stable() {
    for raw in ["video/MP4", "", "a/b/c", " X/Y "] {
        let once = sanitize_mime(raw);
        assert_eq!(sanitize_mime(&once), once);
    }
}

//! Album-title normalization scenarios.

use metal_calendar::calendar::Release;
use metal_calendar::text::normalize_album_title;

#[test]
fn bracket_stripping_ok() {
    assert_eq!(
        normalize_album_title("Voices in the Sky [Bonus Edition]"),
        "Voices in the Sky"
    );
}

#[test]
fn whitespace_collapse_ok() {
    assert_eq!(normalize_album_title("Time   II\n\t"), "Time II");
}

#[test]
fn normalization_idempotent_on_samples() {
    let samples = [
        "  a  b ",
        "x [y] z",
        "",
        "\t\n",
        "one",
        "a [b",
        "[x]",
        "a  b  [c d] e",
        "Voices in the Sky [Bonus Edition]",
        "Time   II\n\t",
    ];
    for s in samples {
        let once = normalize_album_title(s);
        let twice = normalize_album_title(&once);
        assert_eq!(twice, once, "normalizing {:?} twice", s);
    }
}

#[test]
fn release_new_normalizes_album() {
    let r = Release::new("Wintersun", "Time   II\n\t[Deluxe]");
    assert_eq!(r.artist, "Wintersun");
    assert_eq!(r.album, "Time II");
    assert!(r.metallum_info.is_none());
}

#[test]
fn bracket_only_title_becomes_empty() {
    assert_eq!(normalize_album_title("   [Live]"), "");
}

#[test]
fn unicode_whitespace_collapses() {
    assert_eq!(normalize_album_title("a\u{a0}\u{2003}b"), "a b");
}

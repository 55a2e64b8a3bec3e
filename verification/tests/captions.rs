use lib::captions::{iso639_2, strip_markup, CaptionFormat};

#[test]
fn format_detection_from_path() {
    assert_eq!(CaptionFormat::from_path("a/b.SRT"), Some(CaptionFormat::Srt));
    assert_eq!(CaptionFormat::from_path("x.vtt"), Some(CaptionFormat::Vtt));
    assert_eq!(CaptionFormat::from_path("x.mp4"), None);
}

#[test]
fn markup_and_entities_are_stripped() {
    // What a cue's plain text is: its text with the markup stripped.
    assert_eq!(strip_markup("<i>Ich</i> &amp; <c.yellow>du</c> {\\an8}<v Bob>hi"), "Ich & du hi");
    // A bare ampersand is not an entity and must survive verbatim.
    assert_eq!(strip_markup("Tom & Jerry"), "Tom & Jerry");
    assert_eq!(strip_markup("a &lt;b&gt; c"), "a <b> c");
    assert_eq!(strip_markup("x&nbsp;y"), "x y");
}

#[test]
fn bidi_marks_and_unknown_entities() {
    // Bidi marks are invisible controls and are dropped.
    assert_eq!(strip_markup("a&lrm;b&rlm;c"), "abc");
    assert_eq!(strip_markup("&bogus; stays"), "&bogus; stays");
    assert_eq!(strip_markup("{not an override}"), "{not an override}");
    assert_eq!(strip_markup("unterminated <b"), "unterminated ");
    assert_eq!(strip_markup(""), "");
}

#[test]
fn formats_name_their_extension_and_mime_type() {
    assert_eq!(CaptionFormat::Srt.extension(), "srt");
    assert_eq!(CaptionFormat::Vtt.extension(), "vtt");
    assert_eq!(CaptionFormat::Srt.mime_type(), "application/x-subrip");
    assert_eq!(CaptionFormat::Vtt.mime_type(), "text/vtt");
    assert_eq!(CaptionFormat::from_path("noext"), None);
    assert_eq!(CaptionFormat::from_path("dir.srt/file"), None);
    assert_eq!(CaptionFormat::from_path("show.en.WebVTT"), Some(CaptionFormat::Vtt));
}

#[test]
fn language_tags_map_to_three_letter_codes() {
    assert_eq!(&iso639_2("en-US"), b"eng");
    assert_eq!(&iso639_2("por"), b"por");
    assert_eq!(&iso639_2(""), b"und");
    assert_eq!(&iso639_2("DE_at"), b"deu");
    assert_eq!(&iso639_2("zz"), b"und");
    assert_eq!(&iso639_2("x1y"), b"und");
}

use kiro_bridge::attachment::{
    classify, is_local_path, parse_attachment_markers, AttachmentKind, TargetLocation,
};

#[test]
fn parse_single_image() {
    let (text, attachments) = parse_attachment_markers("Check this [IMAGE:/tmp/a.png]");
    assert_eq!(text, "Check this");
    assert_eq!(attachments.len(), 1);
    assert_eq!(attachments[0].kind, AttachmentKind::Image);
    assert_eq!(attachments[0].target, "/tmp/a.png");
}

#[test]
fn parse_multiple_attachments() {
    let (text, attachments) = parse_attachment_markers(
        "Report\n[IMAGE:https://example.com/a.png]\n[DOCUMENT:/tmp/report.pdf]",
    );
    assert_eq!(text, "Report");
    assert_eq!(attachments.len(), 2);
    assert_eq!(attachments[0].kind, AttachmentKind::Image);
    assert_eq!(attachments[1].kind, AttachmentKind::Document);
}

#[test]
fn parse_preserves_non_markers() {
    let (text, attachments) = parse_attachment_markers("Hello [world] and [not:a:marker]");
    assert_eq!(text, "Hello [world] and [not:a:marker]");
    assert_eq!(attachments.len(), 0);
}

#[test]
fn is_local_path_detection() {
    assert!(is_local_path("/tmp/file.png"));
    assert!(is_local_path("~/file.png"));
    assert!(is_local_path("./file.png"));
    assert!(!is_local_path("http://example.com/file.png"));
    assert!(!is_local_path("https://example.com/file.png"));
}

#[test]
fn text_without_brackets_is_only_trimmed() {
    let (text, attachments) = parse_attachment_markers("  plain words: no markers here \n");
    assert_eq!(text, "plain words: no markers here");
    assert!(attachments.is_empty());
    let (text, attachments) = parse_attachment_markers("");
    assert_eq!(text, "");
    assert!(attachments.is_empty());
    let (text, attachments) = parse_attachment_markers("closing ] alone");
    assert_eq!(text, "closing ] alone");
    assert!(attachments.is_empty());
}

#[test]
fn trimming_covers_unicode_white_space() {
    let (text, attachments) = parse_attachment_markers("\u{3000}\u{a0}word\u{2003}\u{85}");
    assert_eq!(text, "word");
    assert!(attachments.is_empty());
    let (text, _) = parse_attachment_markers("\u{200b}word");
    assert_eq!(text, "\u{200b}word");
}

#[test]
fn synonyms_and_case_give_the_canonical_kind() {
    let (text, attachments) =
        parse_attachment_markers("a [photo: /tmp/p.jpg ] b [ File :doc.pdf] c [vOiCe:v.ogg]");
    assert_eq!(text, "a  b  c");
    assert_eq!(attachments.len(), 3);
    assert_eq!(attachments[0].kind, AttachmentKind::Image);
    assert_eq!(attachments[0].target, "/tmp/p.jpg");
    assert_eq!(attachments[1].kind, AttachmentKind::Document);
    assert_eq!(attachments[1].target, "doc.pdf");
    assert_eq!(attachments[2].kind, AttachmentKind::Voice);
    assert_eq!(attachments[2].target, "v.ogg");
}

#[test]
fn attachments_come_in_source_order() {
    let (text, attachments) =
        parse_attachment_markers("[VIDEO:1][AUDIO:2] mid [IMAGE:3] [nope] [VOICE:4]");
    assert_eq!(text, "mid  [nope]");
    let kinds: Vec<AttachmentKind> = attachments.iter().map(|a| a.kind).collect();
    assert_eq!(
        kinds,
        vec![
            AttachmentKind::Video,
            AttachmentKind::Audio,
            AttachmentKind::Image,
            AttachmentKind::Voice
        ]
    );
    let targets: Vec<&str> = attachments.iter().map(|a| a.target.as_str()).collect();
    assert_eq!(targets, vec!["1", "2", "3", "4"]);
}

#[test]
fn spans_that_are_no_markers_stay() {
    for input in ["[STICKER:/tmp/a.png]", "[IMAGE]", "[IMAGE:]", "[IMAGE:   ]", "[:x]", "[]"] {
        let (text, attachments) = parse_attachment_markers(input);
        assert_eq!(text, input);
        assert!(attachments.is_empty());
    }
    let (text, attachments) = parse_attachment_markers("x [IMAGE: ] y [DOCUMENT:d] z");
    assert_eq!(text, "x [IMAGE: ] y  z");
    assert_eq!(attachments.len(), 1);
    assert_eq!(attachments[0].target, "d");
}

#[test]
fn target_keeps_later_colons() {
    let (text, attachments) = parse_attachment_markers("[IMAGE:https://h:8080/a.png]");
    assert_eq!(text, "");
    assert_eq!(attachments[0].target, "https://h:8080/a.png");
}

#[test]
fn unclosed_bracket_ends_the_scan() {
    let (text, attachments) = parse_attachment_markers("[IMAGE:a] then [IMAGE:/tmp/b.png");
    assert_eq!(text, "then [IMAGE:/tmp/b.png");
    assert_eq!(attachments.len(), 1);
    assert_eq!(attachments[0].target, "a");
}

#[test]
fn first_closing_bracket_ends_a_marker() {
    let (text, attachments) = parse_attachment_markers("[IMAGE:a]b]");
    assert_eq!(text, "b]");
    assert_eq!(attachments.len(), 1);
    assert_eq!(attachments[0].target, "a");
    let (text, attachments) = parse_attachment_markers("[x [IMAGE:/tmp/a.png]");
    assert_eq!(text, "[x [IMAGE:/tmp/a.png]");
    assert!(attachments.is_empty());
}

#[test]
fn targets_are_never_empty() {
    let (_, attachments) = parse_attachment_markers("[IMAGE: a ][FILE:\tb\t][AUDIO: ]");
    assert_eq!(attachments.len(), 2);
    for a in &attachments {
        assert!(!a.target.is_empty());
    }
}

#[test]
fn marker_names_are_read_back() {
    for kind in [
        AttachmentKind::Image,
        AttachmentKind::Document,
        AttachmentKind::Video,
        AttachmentKind::Audio,
        AttachmentKind::Voice,
    ] {
        assert_eq!(AttachmentKind::from_marker(kind.marker_name()), Some(kind));
    }
}

#[test]
fn from_marker_accepts_synonyms_and_rejects_the_rest() {
    assert_eq!(AttachmentKind::from_marker("PHOTO"), Some(AttachmentKind::Image));
    assert_eq!(AttachmentKind::from_marker(" photo\n"), Some(AttachmentKind::Image));
    assert_eq!(AttachmentKind::from_marker("File"), Some(AttachmentKind::Document));
    assert_eq!(AttachmentKind::from_marker("video"), Some(AttachmentKind::Video));
    assert_eq!(AttachmentKind::from_marker("Audio"), Some(AttachmentKind::Audio));
    assert_eq!(AttachmentKind::from_marker("IMAGES"), None);
    assert_eq!(AttachmentKind::from_marker("IMA GE"), None);
    assert_eq!(AttachmentKind::from_marker(""), None);
    assert_eq!(AttachmentKind::from_marker("\u{ff29}\u{ff2d}\u{ff21}\u{ff27}\u{ff25}"), None);
}

#[test]
fn classify_goes_by_the_exact_prefix() {
    assert_eq!(classify("http://example.com/a.png"), TargetLocation::Remote);
    assert_eq!(classify("https://example.com/a.png"), TargetLocation::Remote);
    assert_eq!(classify("http://"), TargetLocation::Remote);
    assert_eq!(classify("HTTP://example.com/a.png"), TargetLocation::Local);
    assert_eq!(classify("Https://example.com/a.png"), TargetLocation::Local);
    assert_eq!(classify(" http://example.com"), TargetLocation::Local);
    assert_eq!(classify("ftp://example.com/a.png"), TargetLocation::Local);
    assert_eq!(classify("file:///tmp/a.png"), TargetLocation::Local);
    assert_eq!(classify("http:/one-slash"), TargetLocation::Local);
    assert_eq!(classify("~/a.png"), TargetLocation::Local);
    assert_eq!(classify("./a.png"), TargetLocation::Local);
    assert_eq!(classify("/abs/a.png"), TargetLocation::Local);
    assert_eq!(classify("a.png"), TargetLocation::Local);
    assert_eq!(classify(""), TargetLocation::Local);
    assert!(is_local_path("https:/"));
    assert!(!is_local_path("https://"));
}

#[test]
fn cleaned_text_holds_no_marker() {
    for input in [
        "Check this [IMAGE:/tmp/a.png]",
        "  [VIDEO:v] a [b] [IMAGE:x] [c:d] \n",
        "[IMAGE:x [VIDEO:v] tail [",
        "[[IMAGE:a] [AUDIO:b]",
        "\t[nope] [FILE: f ]  ",
        "[IM[VIDEO:v]AGE:x]",
        "plain",
        "",
    ] {
        let (text, _) = parse_attachment_markers(input);
        let (again, attachments) = parse_attachment_markers(&text);
        assert_eq!(again, text);
        assert!(attachments.is_empty());
    }
}

use kiro_bridge::attachment::{parse_attachment_markers, AttachmentKind};
use kiro_bridge::sanitize::{
    clean_output_lines, convert_md_images, detect_bare_image_paths, reports_context_overflow,
    strip_ansi_and_artifacts, strip_control_sequences,
};

#[test]
fn markdown_image_with_file_address_becomes_a_marker() {
    assert_eq!(strip_ansi_and_artifacts("![chart](file:///tmp/c.png)"), "[IMAGE:/tmp/c.png]");
    assert_eq!(convert_md_images("![chart](file:///tmp/c.png)"), "[IMAGE:/tmp/c.png]");
}

#[test]
fn colour_sequences_are_removed() {
    assert_eq!(strip_ansi_and_artifacts("\u{1b}[31mred\u{1b}[0m text"), "red text");
    assert_eq!(strip_ansi_and_artifacts("a\u{1b}[1;32;40mb\u{1b}[Kc"), "abc");
    assert_eq!(strip_ansi_and_artifacts("\u{1b}[2J\u{1b}[Hdone"), "done");
}

#[test]
fn a_sequence_ends_at_its_first_letter() {
    assert_eq!(strip_ansi_and_artifacts("x\u{1b}[12;5Hyz"), "xyz");
    assert_eq!(strip_ansi_and_artifacts("x\u{1b}[?25ly"), "xy");
    assert_eq!(strip_ansi_and_artifacts("x\u{1b}[AB"), "xB");
}

#[test]
fn a_sequence_without_an_end_takes_the_rest() {
    assert_eq!(strip_ansi_and_artifacts("kept\u{1b}[12;34"), "kept");
    assert_eq!(strip_ansi_and_artifacts("kept\u{1b}["), "kept");
}

#[test]
fn an_escape_without_a_bracket_stays() {
    assert_eq!(strip_ansi_and_artifacts("a\u{1b}b"), "a\u{1b}b");
    assert_eq!(strip_ansi_and_artifacts("a\u{1b}\u{1b}[0mb"), "a\u{1b}b");
    assert_eq!(strip_ansi_and_artifacts("a\u{1b}"), "a\u{1b}");
}

#[test]
fn line_artifacts_are_removed() {
    assert_eq!(strip_ansi_and_artifacts("> quoted"), "quoted");
    assert_eq!(strip_ansi_and_artifacts("first\n> second\nthird"), "first\nsecond\nthird");
    assert_eq!(strip_ansi_and_artifacts("textmm"), "text");
    assert_eq!(strip_ansi_and_artifacts("textm"), "text");
    assert_eq!(strip_ansi_and_artifacts("textmmm"), "textm");
    assert_eq!(strip_ansi_and_artifacts("> mm"), "");
    assert_eq!(strip_ansi_and_artifacts(">no space"), ">no space");
    assert_eq!(strip_ansi_and_artifacts("a > b"), "a > b");
    assert_eq!(strip_ansi_and_artifacts("> > twice"), "> twice");
}

#[test]
fn lines_end_with_or_without_carriage_return() {
    assert_eq!(strip_ansi_and_artifacts("am\r\nbm\ncmm\r\n"), "a\nb\nc");
    assert_eq!(strip_ansi_and_artifacts("a\rm\nb"), "a\r\nb");
    assert_eq!(strip_ansi_and_artifacts("a\n\nb"), "a\n\nb");
    assert_eq!(strip_ansi_and_artifacts("x\ny\r"), "x\ny");
    assert_eq!(strip_ansi_and_artifacts("x\nym\rz"), "x\nym\rz");
}

#[test]
fn residue_of_a_sequence_is_cleaned_with_the_line() {
    assert_eq!(strip_ansi_and_artifacts("\u{1b}[38;5;12m> \u{1b}[0mHello\u{1b}[0m"), "Hello");
    assert_eq!(strip_ansi_and_artifacts("  \n> answer \n\n"), "answer");
    assert_eq!(strip_ansi_and_artifacts("  \n\t> answer \n\n"), "> answer");
}

#[test]
fn empty_output_stays_empty() {
    assert_eq!(strip_ansi_and_artifacts(""), "");
    assert_eq!(strip_ansi_and_artifacts("\n\n"), "");
    assert_eq!(strip_ansi_and_artifacts("\u{1b}[0m"), "");
}

#[test]
fn absolute_image_address_is_always_converted() {
    assert_eq!(convert_md_images("![](/tmp/a.png)"), "[IMAGE:/tmp/a.png]");
    assert_eq!(convert_md_images("![](file:///tmp/a.png)"), "[IMAGE:/tmp/a.png]");
    assert_eq!(convert_md_images("see ![x](/a/b.gif) here"), "see [IMAGE:/a/b.gif] here");
    assert_eq!(convert_md_images("![x](/tmp/notes.txt)"), "[IMAGE:/tmp/notes.txt]");
}

#[test]
fn other_image_address_needs_an_alternative_text() {
    assert_eq!(
        convert_md_images("![logo](https://example.com/l.png)"),
        "[IMAGE:https://example.com/l.png]"
    );
    assert_eq!(convert_md_images("![logo](pics/l.png)"), "[IMAGE:pics/l.png]");
    assert_eq!(convert_md_images("![](https://example.com/l.png)"), "![](https://example.com/l.png)");
    assert_eq!(convert_md_images("![](pics/l.png)"), "![](pics/l.png)");
    assert_eq!(convert_md_images("![]()"), "![]()");
    assert_eq!(convert_md_images("![a]()"), "[IMAGE:]");
}

#[test]
fn file_scheme_is_taken_off_before_anything_else() {
    assert_eq!(convert_md_images("![pic](file://pics/l.png)"), "[IMAGE:pics/l.png]");
    assert_eq!(convert_md_images("![a](file://rel.png)"), "[IMAGE:rel.png]");
    assert_eq!(strip_ansi_and_artifacts("![a](file://rel.png)"), "[IMAGE:rel.png]");
    assert_eq!(convert_md_images("![a](file://)"), "[IMAGE:]");
    assert_eq!(convert_md_images("![a](file://file:///x.png)"), "[IMAGE:file:///x.png]");
    assert_eq!(convert_md_images("![](file://pics/l.png)"), "![](file://pics/l.png)");
    assert_eq!(convert_md_images("![pic](FILE:///tmp/l.png)"), "[IMAGE:FILE:///tmp/l.png]");
}

#[test]
fn unfinished_images_stay() {
    assert_eq!(convert_md_images("wow![ no image"), "wow![ no image");
    assert_eq!(convert_md_images("![alt](never closed"), "![alt](never closed");
    assert_eq!(convert_md_images("![alt] (x)"), "![alt] (x)");
    assert_eq!(convert_md_images("![![a](/x.png)"), "[IMAGE:/x.png]");
    assert_eq!(convert_md_images("![a](b ![c](/d.png)"), "[IMAGE:b ![c](/d.png]");
}

#[test]
fn several_images_in_one_text() {
    assert_eq!(
        convert_md_images("![a](/1.png) and ![](2.png) and ![c](file:///3.png)!"),
        "[IMAGE:/1.png] and ![](2.png) and [IMAGE:/3.png]!"
    );
}

#[test]
fn plain_links_are_no_images() {
    assert_eq!(convert_md_images("[text](/tmp/report.pdf)"), "[text](/tmp/report.pdf)");
}

#[test]
fn bare_image_paths_are_wrapped() {
    assert_eq!(detect_bare_image_paths("/tmp/a.png"), "[IMAGE:/tmp/a.png]");
    assert_eq!(detect_bare_image_paths("saved to /tmp/shot.jpg now"), "saved to [IMAGE:/tmp/shot.jpg] now");
    assert_eq!(detect_bare_image_paths("a /x/1.jpeg\n\tb /y/2.gif  /z/3.webp /w/4.bmp"), "a [IMAGE:/x/1.jpeg]\n\tb [IMAGE:/y/2.gif]  [IMAGE:/z/3.webp] [IMAGE:/w/4.bmp]");
}

#[test]
fn extension_is_matched_in_any_case() {
    assert_eq!(detect_bare_image_paths("/tmp/A.PNG"), "[IMAGE:/tmp/A.PNG]");
    assert_eq!(detect_bare_image_paths("/tmp/a.JpEg"), "[IMAGE:/tmp/a.JpEg]");
    assert_eq!(detect_bare_image_paths("/.png"), "[IMAGE:/.png]");
}

#[test]
fn punctuation_around_a_path_stays_outside_the_marker() {
    assert_eq!(detect_bare_image_paths("(/tmp/a.png)"), "([IMAGE:/tmp/a.png])");
    assert_eq!(detect_bare_image_paths("see \"/tmp/a.png\","), "see \"[IMAGE:/tmp/a.png]\",");
    assert_eq!(detect_bare_image_paths("at: `/tmp/a.png`!"), "at: `[IMAGE:/tmp/a.png]`!");
    assert_eq!(detect_bare_image_paths("\u{ab}/tmp/a.png\u{bb}"), "\u{ab}[IMAGE:/tmp/a.png]\u{bb}");
    assert_eq!(detect_bare_image_paths("~/a.png"), "~[IMAGE:/a.png]");
}

#[test]
fn other_words_are_left_alone() {
    for text in [
        "/tmp/notes.txt",
        "tmp/a.png",
        "./a.png",
        "a.png",
        "/tmp/a.png.bak",
        "/tmp/a.pngx",
        "/tmp/png",
        "/tmp/a.png/",
        "/tmp/a.png.",
        "/tmp/a.png\u{e9}",
        "https://example.com/a.png",
        "file:///tmp/a.png",
        "x=/tmp/a.png",
        "",
        "   ",
    ] {
        assert_eq!(detect_bare_image_paths(text), text);
    }
}

#[test]
fn white_space_between_words_is_kept() {
    assert_eq!(detect_bare_image_paths("  a \t /b.png\r\n\u{3000}c  "), "  a \t [IMAGE:/b.png]\r\n\u{3000}c  ");
}

#[test]
fn a_wrapped_path_is_not_wrapped_again() {
    for text in [
        "/tmp/a.png",
        "see (/tmp/a.png), /tmp/b.JPG and /tmp/a.png again",
        "[IMAGE:/tmp/a.png]",
        "[IMAGE:/tmp/a.png] /tmp/a.png",
        "![x](/tmp/a.png) /tmp/c.gif",
        "no paths at all",
        "[IMAGE: /tmp/a.png]",
    ] {
        let once = detect_bare_image_paths(text);
        let twice = detect_bare_image_paths(&once);
        assert_eq!(twice, once);
    }
    assert_eq!(detect_bare_image_paths("[IMAGE:/tmp/a.png]"), "[IMAGE:/tmp/a.png]");
    assert_eq!(
        detect_bare_image_paths("[IMAGE: /tmp/a.png]"),
        "[IMAGE: [IMAGE:/tmp/a.png]]"
    );
    assert_eq!(
        detect_bare_image_paths("[IMAGE: [IMAGE:/tmp/a.png]]"),
        "[IMAGE: [IMAGE:/tmp/a.png]]"
    );
}

#[test]
fn a_path_whose_marker_the_text_holds_is_skipped() {
    assert_eq!(
        detect_bare_image_paths("[IMAGE:/tmp/a.png] /tmp/a.png"),
        "[IMAGE:/tmp/a.png] /tmp/a.png"
    );
    assert_eq!(
        detect_bare_image_paths("(/tmp/a.png) see [IMAGE:/tmp/a.png]"),
        "(/tmp/a.png) see [IMAGE:/tmp/a.png]"
    );
    assert_eq!(
        convert_md_images("![shot](/tmp/a.png) is at /tmp/a.png, not /tmp/b.png!"),
        "[IMAGE:/tmp/a.png] is at /tmp/a.png, not [IMAGE:/tmp/b.png]!"
    );
    assert_eq!(
        detect_bare_image_paths("[IMAGE:/tmp/a.png] /a.png"),
        "[IMAGE:/tmp/a.png] [IMAGE:/a.png]"
    );
    assert_eq!(
        detect_bare_image_paths("[image:/a.png] /a.png"),
        "[image:/a.png] [IMAGE:/a.png]"
    );
}

#[test]
fn every_bare_occurrence_is_wrapped_on_its_own() {
    assert_eq!(
        detect_bare_image_paths("/a.png and /a.png"),
        "[IMAGE:/a.png] and [IMAGE:/a.png]"
    );
    assert_eq!(
        detect_bare_image_paths("/a.png /a.png.bak /x/a.png"),
        "[IMAGE:/a.png] /a.png.bak [IMAGE:/x/a.png]"
    );
}

#[test]
fn conversion_wraps_bare_paths_too() {
    assert_eq!(
        convert_md_images("![a](/1.png) then /2.png"),
        "[IMAGE:/1.png] then [IMAGE:/2.png]"
    );
    assert_eq!(
        strip_ansi_and_artifacts("\u{1b}[1m> Saved\u{1b}[0m to /tmp/out.png\nmm"),
        "Saved to [IMAGE:/tmp/out.png]"
    );
}

#[test]
fn synthesized_markers_are_read_back_as_attachments() {
    let cleaned = strip_ansi_and_artifacts("Here: ![chart](file:///tmp/c.png) and /tmp/d.jpg!");
    assert_eq!(cleaned, "Here: [IMAGE:/tmp/c.png] and [IMAGE:/tmp/d.jpg]!");
    let (text, attachments) = parse_attachment_markers(&cleaned);
    assert_eq!(text, "Here:  and !");
    assert_eq!(attachments.len(), 2);
    assert_eq!(attachments[0].kind, AttachmentKind::Image);
    assert_eq!(attachments[0].target, "/tmp/c.png");
    assert_eq!(attachments[1].kind, AttachmentKind::Image);
    assert_eq!(attachments[1].target, "/tmp/d.jpg");
}

#[test]
fn overflow_is_found_in_any_case() {
    assert!(reports_context_overflow("context window has overflowed"));
    assert!(reports_context_overflow("Error: the Context Window Has OVERFLOWED, retry"));
    assert!(!reports_context_overflow("context window has overflown"));
    assert!(!reports_context_overflow("context  window has overflowed"));
    assert!(!reports_context_overflow("context window has overflowe"));
    assert!(!reports_context_overflow(""));
}

#[test]
fn stripping_control_sequences_touches_nothing_else() {
    assert_eq!(strip_control_sequences("  > plainm\r\n ![a](/b.png) "), "  > plainm\r\n ![a](/b.png) ");
    assert_eq!(strip_control_sequences(" \u{1b}[1mbold\u{1b}[22m \n"), " bold \n");
    assert_eq!(strip_control_sequences("[0m is no sequence"), "[0m is no sequence");
    assert_eq!(strip_control_sequences("\u{1b}[\u{1b}[0mx"), "x");
    assert_eq!(strip_control_sequences("\u{1b}[12\u{e9}\u{4e2d}Zrest"), "rest");
}

#[test]
fn cleaning_lines_does_not_trim() {
    assert_eq!(clean_output_lines(" > a \n> bm\n"), " > a \nb");
    assert_eq!(clean_output_lines("\n"), "");
    assert_eq!(clean_output_lines("\n\n"), "\n");
    assert_eq!(clean_output_lines("a\n\nb\n"), "a\n\nb");
    assert_eq!(clean_output_lines("m"), "");
    assert_eq!(clean_output_lines("> m"), "");
    assert_eq!(clean_output_lines(">  m"), " ");
    assert_eq!(clean_output_lines("> "), "");
    assert_eq!(clean_output_lines(">"), ">");
}

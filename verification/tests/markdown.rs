use specific::markdown::{emit_graphemes, line_colors_of, Color, Markdown};
use specific::syntax::RESET;

#[test]
fn highlights_markdown_without_hiding_source() {
    for (text, color, span) in [
        ("## Result", Color::Heading, "## Result"),
        ("a **bold** result", Color::Emphasis, "**bold**"),
        ("an *italic* result", Color::Emphasis, "*italic*"),
        ("use `command` here", Color::Code, "`command`"),
        ("use ``a ` b`` here", Color::Code, "``a ` b``"),
        ("[docs](https://example.com)", Color::Link, "[docs](https://example.com)"),
        ("- item", Color::Marker, "-"),
        ("12. item", Color::Marker, "12."),
        ("> quote", Color::Marker, "> quote"),
    ] {
        let color = color.escape();
        let mut rendered = String::new();
        Markdown::default().draw(&mut rendered, text, 100);
        assert!(rendered.contains(&format!("{color}{span}{RESET}")), "{rendered:?}");
        assert_eq!(rendered.replace(color, "").replace(RESET, ""), text);
    }
}

#[test]
fn distinguishes_list_markers_from_emphasis() {
    let mut rendered = String::new();
    Markdown::default().draw(&mut rendered, "* **bold**", 100);
    let (marker, emphasis) = (Color::Marker.escape(), Color::Emphasis.escape());
    assert_eq!(rendered, format!("{RESET}{marker}*{RESET} {RESET}{emphasis}**bold**{RESET}"));
}

#[test]
fn fences_match_marker_length_and_ignore_markdown_inside() {
    let code = Color::Code.escape();
    let mut markdown = Markdown::default();
    for line in ["````rust", "# not a heading", "```", "~~~", "```` trailing", "````"] {
        let mut rendered = String::new();
        markdown.draw(&mut rendered, line, 100);
        assert_eq!(rendered, format!("{RESET}{code}{line}{RESET}"));
    }
    assert!(!markdown.advance("plain"));
    assert!(markdown.advance("  ~~~sh"));
    assert!(markdown.advance("~~~"));
    assert!(!markdown.advance("plain"));
    assert!(!markdown.advance("```not`a fence"));
}

#[test]
fn clips_colors_without_splitting_graphemes_or_leaking_style() {
    let emphasis = Color::Emphasis.escape();
    let mut rendered = String::new();
    let used =
        Markdown::default().draw(&mut rendered, "**\u{1f469}\u{200d}\u{1f4bb}e\u{301}**", 5);
    assert_eq!(used, 5);
    assert_eq!(rendered, format!("{RESET}{emphasis}**\u{1f469}\u{200d}\u{1f4bb}e\u{301}{RESET}"));
    rendered.clear();
    assert_eq!(Markdown::default().draw(&mut rendered, "# heading", 0), 0);
    assert!(rendered.is_empty());
}

#[test]
fn leaves_plain_output_and_unmatched_delimiters_alone() {
    for text in [
        "plain output",
        "snake_case_name",
        "#hashtag",
        "**partial",
        "\\*literal*",
        "[partial](url",
    ] {
        let mut rendered = String::new();
        Markdown::default().draw(&mut rendered, text, 100);
        assert_eq!(rendered, text);
    }
}

#[test]
fn indented_code_and_control_graphemes() {
    let code = Color::Code.escape();
    let mut rendered = String::new();
    let used = Markdown::default().draw(&mut rendered, "    code\x07!", 100);
    assert_eq!(rendered, format!("{RESET}{code}    code!{RESET}"));
    assert_eq!(used, 9);
}

#[test]
fn emphasis_needs_a_word_boundary() {
    let mut rendered = String::new();
    Markdown::default().draw(&mut rendered, "a*b* * c*", 100);
    assert_eq!(rendered, "a*b* * c*");
}

#[test]
fn emits_clusters_by_given_widths() {
    let gs = vec![vec!['a'], vec!['\u{754c}'], vec!['b']];
    let mut buffer = String::new();
    let used = emit_graphemes(&mut buffer, &gs, &vec![1, 2, 1], &vec![Color::Plain, Color::Code, Color::Code], 3);
    assert_eq!(used, 3);
    assert_eq!(buffer, format!("a{RESET}{}\u{754c}{RESET}", Color::Code.escape()));
    let mut buffer = String::new();
    let used = emit_graphemes(&mut buffer, &vec![vec!['x', '\u{1}'], vec!['y']], &vec![1, 1], &vec![Color::Link; 3], 5);
    assert_eq!(used, 1);
    assert_eq!(buffer, format!("{RESET}{}y{RESET}", Color::Link.escape()));
}

#[test]
fn line_colours_mark_markers_and_spans() {
    let t: Vec<char> = "- `a` b".chars().collect();
    let colors = line_colors_of(false, &t);
    assert_eq!(colors, vec![Color::Marker, Color::Plain, Color::Code, Color::Code, Color::Code, Color::Plain, Color::Plain]);
    assert_eq!(line_colors_of(true, &t), vec![Color::Code; 7]);
}

#[test]
fn fence_closes_only_on_its_own_marker() {
    let mut markdown = Markdown::default();
    assert!(markdown.advance("````"));
    for line in ["~~~~", "```", "```` x", "    ````", "plain"] {
        assert!(markdown.advance(line), "{line:?} must not close the fence");
    }
    assert!(markdown.advance("   `````  \t"));
    assert!(!markdown.advance("plain"));
}

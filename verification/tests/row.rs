use specific::row::{is_sep, render_row, HlState, Row};
use specific::syntax::HlType::{Comment, Keyword1, MlComment, Normal, Number};
use specific::syntax::{HlType, SyntaxConf, RESET};

fn drawn(text: &str, conf: &SyntaxConf, offset: usize, max_len: usize, use_color: bool) -> String {
    let mut row = Row::new(text.as_bytes().to_vec());
    row.update(conf, HlState::Normal, 4);
    let mut buffer = String::new();
    row.draw(offset, max_len, &mut buffer, use_color);
    buffer
}

#[test]
fn column_clipping() {
    for (text, offset, max_len, expected) in [
        ("a\u{754c}b", 0, 3, "a\u{754c}"),
        ("a\u{754c}b", 0, 2, "a"),
        ("a\u{754c}b", 1, 3, "\u{754c}b"),
        ("a\u{754c}b", 2, 2, " b"),
        ("\u{754c}b", 1, 1, " "),
        ("\u{754c}bc", 2, 1, "b"),
        ("\u{754c}\tb", 0, 4, "\u{754c}  "),
        ("\u{754c}\tb", 3, 2, " b"),
        ("e\u{301}\u{302}b", 0, 1, "e\u{301}\u{302}"),
        ("e\u{301}b", 1, 1, "b"),
        ("\u{754c}\u{301}b", 1, 2, " b"),
        ("\u{301}b", 0, 1, "b"),
        ("e\u{301}", 0, 0, ""),
        ("\u{754c}", 3, 2, ""),
        ("\0b", 0, 1, "@"),
    ] {
        let buffer = drawn(text, &SyntaxConf::default(), offset, max_len, false);
        assert_eq!(buffer, expected, "clipping must use terminal columns");
    }
}

#[test]
fn byte_indexed_highlight() {
    for (text, offset) in [("\u{754c} 12", 3), ("e\u{301} 12", 2), ("\u{754c}\t12", 4)] {
        let syntax = SyntaxConf { highlight_numbers: true, ..SyntaxConf::default() };
        let buffer = drawn(text, &syntax, offset, 2, true);
        assert_eq!(buffer, format!("{}12{}", HlType::Number.escape(), RESET), "syntax uses rendered byte indices");
    }
}

#[test]
fn match_preserves_syntax_after_wide_character() {
    let mut row = Row::new("\u{754c} 12".as_bytes().to_vec());
    let syntax = SyntaxConf { highlight_numbers: true, ..SyntaxConf::default() };
    row.update(&syntax, HlState::Normal, 4);
    row.match_segment = Some(3..4);
    let mut buffer = String::new();
    row.draw(2, 3, &mut buffer, true);
    assert_eq!(
        buffer,
        format!(" {}1{RESET}{}2{RESET}", HlType::Match.escape(), HlType::Number.escape()),
        "matches use terminal columns and restore byte-indexed syntax colors",
    );
}

#[test]
fn tabs_render_to_tab_stops_and_maps_follow() {
    let mut row = Row::new(b"a\tb".to_vec());
    row.update(&SyntaxConf::default(), HlState::Normal, 4);
    assert_eq!(row.render.iter().collect::<String>(), "a   b");
    assert_eq!(row.cx2rx, vec![0, 1, 4, 5]);
    assert_eq!(row.rx2cx, vec![0, 1, 1, 1, 2, 3]);
    assert_eq!(row.get_char_size(1), 1);
    assert_eq!(row.get_char_size(4), 1);
}

#[test]
fn wide_and_multibyte_characters_map_bytes_to_columns() {
    let mut row = Row::new("\u{754c}x".as_bytes().to_vec());
    row.update(&SyntaxConf::default(), HlState::Normal, 4);
    assert_eq!(row.cx2rx, vec![0, 0, 0, 2, 3]);
    assert_eq!(row.rx2cx, vec![0, 0, 3, 4]);
    assert_eq!(row.get_char_size(0), 3);
    assert_eq!(row.get_char_size(2), 1);
    assert_eq!(row.get_char_size(100), 1);
}

#[test]
fn invalid_utf8_is_replaced() {
    let mut row = Row::new(vec![b'a', 0xff, b'b', 0xe2, 0x82]);
    row.update(&SyntaxConf::default(), HlState::Normal, 4);
    assert_eq!(row.render.iter().collect::<String>(), "a\u{fffd}b\u{fffd}");
}

fn rust_like() -> SyntaxConf {
    SyntaxConf {
        name: "test".to_string(),
        highlight_numbers: true,
        sl_string_quotes: vec!['"', '\''],
        sl_comment_start: vec!["//".to_string()],
        ml_comment_delims: Some(("/*".to_string(), "*/".to_string())),
        ml_string_delim: Some("\"\"\"".to_string()),
        keywords: vec![(HlType::Keyword1, vec!["if".to_string(), "in".to_string()])],
    }
}

#[test]
fn highlights_comments_strings_numbers_and_keywords() {
    let conf = rust_like();
    let mut row = Row::new(b"if x1 in 42 \"s\\\"t\" // c".to_vec());
    let state = row.update(&conf, HlState::Normal, 4);
    assert_eq!(state, HlState::Normal);
    let expected = vec![
        Keyword1, Keyword1, Normal, Normal, Normal, Normal, Keyword1, Keyword1, Normal, Number,
        Number, Normal, HlType::String, HlType::String, HlType::String, HlType::String, HlType::String, HlType::String, Normal, Comment, Comment,
        Comment, Comment,
    ];
    assert_eq!(row.hl, expected);
}

#[test]
fn multi_line_comments_carry_to_the_next_row() {
    let conf = rust_like();
    let mut first = Row::new(b"a /* b".to_vec());
    assert_eq!(first.update(&conf, HlState::Normal, 4), HlState::MultiLineComment);
    let mut second = Row::new(b"c */ d".to_vec());
    assert_eq!(second.update(&conf, HlState::MultiLineComment, 4), HlState::Normal);
    assert_eq!(second.hl, vec![MlComment, MlComment, MlComment, MlComment, Normal, Normal]);
    let mut string = Row::new(b"\"open".to_vec());
    assert_eq!(string.update(&conf, HlState::Normal, 4), HlState::Normal, "strings end with the row");
}

#[test]
fn is_sep_matches_ascii_separators() {
    assert!(is_sep(b' ') && is_sep(b'.') && is_sep(0) && is_sep(b'\t'));
    assert!(!is_sep(b'_') && !is_sep(b'a') && !is_sep(b'7'));
}

#[test]
fn control_characters_are_drawn_as_letters() {
    let buffer = drawn("\x01\x7f", &SyntaxConf::default(), 0, 10, false);
    assert_eq!(buffer, "A?");
}

#[test]
fn index_maps_agree_at_character_starts() {
    let text = "a\t\u{20ac}\u{754c}e\u{301}b";
    let mut row = Row::new(text.as_bytes().to_vec());
    row.update(&SyntaxConf::default(), HlState::Normal, 4);
    let mut column = 0;
    for (byte, c) in text.char_indices() {
        assert_eq!(row.cx2rx[byte], column);
        let width = match c {
            '\t' => 4 - column % 4,
            '\u{754c}' => 2,
            '\u{301}' => 0,
            _ => 1,
        };
        if width > 0 {
            assert_eq!(row.rx2cx[column], byte);
        }
        column += width;
    }
    assert_eq!(row.cx2rx[text.len()], column);
    assert_eq!(row.rx2cx[column], text.len());
    for rx in 0..row.rx2cx.len() {
        assert!(row.cx2rx[row.rx2cx[rx]] <= rx);
    }
}

#[test]
fn checked_update_agrees_with_update() {
    let conf = rust_like();
    let mut checked = Row::new(b"if	x /* c".to_vec());
    let mut plain = Row::new(b"if	x /* c".to_vec());
    assert_eq!(checked.update_checked(&conf, HlState::Normal, 4), Some(HlState::MultiLineComment));
    assert_eq!(plain.update(&conf, HlState::Normal, 4), HlState::MultiLineComment);
    assert_eq!(checked.render, plain.render);
    assert_eq!(checked.cx2rx, plain.cx2rx);
    assert_eq!(checked.rx2cx, plain.rx2cx);
    assert_eq!(checked.hl, plain.hl);
}

#[test]
fn empty_comment_opening_marks_every_byte() {
    let conf = SyntaxConf {
        ml_comment_delims: Some((String::new(), "*/".to_string())),
        ..SyntaxConf::default()
    };
    let mut row = Row::new(b"ab*/c".to_vec());
    assert_eq!(row.update(&conf, HlState::Normal, 4), HlState::MultiLineComment);
    assert_eq!(row.hl, vec![MlComment; 5]);
    let conf = SyntaxConf {
        ml_comment_delims: Some(("/*".to_string(), String::new())),
        ..SyntaxConf::default()
    };
    let mut row = Row::new(b"a/*b".to_vec());
    assert_eq!(row.update(&conf, HlState::Normal, 4), HlState::Normal);
    assert_eq!(row.hl, vec![Normal, MlComment, MlComment, Normal]);
}

#[test]
fn plain_ascii_draws_the_column_slice() {
    let text = "let x = 42; // ok";
    let n = text.len();
    for offset in 0..n + 3 {
        for max_len in [0, 1, 5, n, usize::MAX] {
            let buffer = drawn(text, &rust_like(), offset, max_len, false);
            let end = n.min(offset.saturating_add(max_len));
            assert_eq!(buffer, text[offset.min(n)..end.max(offset.min(n))]);
        }
    }
}

#[test]
fn renders_with_the_given_widths() {
    let cs: Vec<char> = "a\u{754c}\tb".chars().collect();
    let (render, cx2rx, rx2cx) = render_row(&cs, &vec![None, Some(2), None, None], 4);
    assert_eq!(render.iter().collect::<String>(), "a\u{754c} b");
    assert_eq!(cx2rx, vec![0, 1, 1, 1, 3, 4, 5]);
    assert_eq!(rx2cx, vec![0, 1, 1, 4, 5, 6]);
    let (render, cx2rx, rx2cx) = render_row(&cs, &vec![Some(7), Some(0), Some(9), Some(5)], 4);
    assert_eq!(render.iter().collect::<String>(), "a\u{754c} b");
    assert_eq!(cx2rx, vec![0, 7, 7, 7, 7, 8, 13]);
    assert_eq!(rx2cx, vec![0, 0, 0, 0, 0, 0, 0, 4, 5, 5, 5, 5, 5, 6]);
}

#[test]
fn updating_twice_changes_nothing() {
    let conf = rust_like();
    let mut row = Row::new(b"if /* x".to_vec());
    let first = row.update(&conf, HlState::Normal, 4);
    let (render, cx2rx, rx2cx, hl) = (row.render.clone(), row.cx2rx.clone(), row.rx2cx.clone(), row.hl.clone());
    assert_eq!(row.update(&conf, HlState::Normal, 4), first);
    assert_eq!((row.render.clone(), row.cx2rx.clone(), row.rx2cx.clone(), row.hl.clone()), (render, cx2rx, rx2cx, hl));
}

#[test]
fn char_size_covers_following_zero_width_characters() {
    let mut row = Row::new("e\u{301}\u{302}b\t\u{754c}".as_bytes().to_vec());
    row.update(&SyntaxConf::default(), HlState::Normal, 4);
    assert_eq!(row.get_char_size(0), 5);
    assert_eq!(row.get_char_size(1), 1);
    assert_eq!(row.get_char_size(2), 1);
    assert_eq!(row.get_char_size(4), 3);
}

#[test]
fn drawing_is_terminal_safe() {
    let text = "a\x1b[31mb\x07c\x7f";
    let plain = drawn(text, &SyntaxConf::default(), 0, 100, false);
    assert_eq!(plain, "a?[31mbGc?");
    assert!(!plain.chars().any(|c| c.is_ascii_control()));
    let coloured = drawn(text, &rust_like(), 0, 100, true);
    assert!(coloured.ends_with(RESET));
}

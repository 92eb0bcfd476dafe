use burokku::dom::{Dom, ElementStyle, ElementTag, NodeKind};
use burokku::runs::{first_window, text_spans};
use burokku::text::{
    append_styled_character, collapse_white_space, font_family, normalize_text_spans,
    normalize_white_space, resolve_text_wrap, white_space_char, FontFamily, TextOverflowWrap,
    TextSpan, TextWhiteSpace, TextWordBreak, TextWrap,
};

fn spans(parts: &[(&str, u64)]) -> Vec<TextSpan> {
    parts
        .iter()
        .map(|(text, style)| TextSpan { text: text.to_string(), style: *style })
        .collect()
}

fn parts(spans: &[TextSpan]) -> Vec<(String, u64)> {
    spans.iter().map(|span| (span.text.clone(), span.style)).collect()
}

#[test]
fn collapsing_joins_runs_of_white_space_into_one_space() {
    assert_eq!(collapse_white_space("  hello \t\n  world  ", false), "hello world");
    assert_eq!(collapse_white_space("", false), "");
    assert_eq!(collapse_white_space("   ", false), "");
    assert_eq!(collapse_white_space("a\u{3000}b", false), "a b");
}

#[test]
fn pre_line_keeps_newlines_and_drops_spaces_around_them() {
    assert_eq!(collapse_white_space("a  \n   b", true), "a\nb");
    assert_eq!(collapse_white_space("\n\na", true), "\n\na");
    assert_eq!(collapse_white_space("a \t b\n", true), "a b\n");
}

#[test]
fn white_space_modes_choose_between_keeping_and_collapsing() {
    let text = " one  two\n three ";
    for mode in [TextWhiteSpace::Pre, TextWhiteSpace::PreWrap, TextWhiteSpace::BreakSpaces] {
        assert_eq!(normalize_white_space(text, mode), text);
    }
    for mode in [TextWhiteSpace::Normal, TextWhiteSpace::NoWrap] {
        assert_eq!(normalize_white_space(text, mode), "one two three");
    }
    assert_eq!(normalize_white_space(text, TextWhiteSpace::PreLine), "one two\nthree");
}

#[test]
fn white_space_is_the_unicode_property() {
    for c in [' ', '\t', '\n', '\r', '\u{a0}', '\u{2003}', '\u{3000}'] {
        assert!(white_space_char(c));
        assert_eq!(white_space_char(c), c.is_whitespace());
    }
    for c in ['a', '_', '\u{200b}', '\u{feff}'] {
        assert!(!white_space_char(c));
        assert_eq!(white_space_char(c), c.is_whitespace());
    }
}

#[test]
fn wrapping_follows_white_space_word_break_and_overflow_wrap() {
    assert_eq!(resolve_text_wrap(TextWhiteSpace::NoWrap, TextWordBreak::BreakAll, TextOverflowWrap::Anywhere), TextWrap::NoWrap);
    assert_eq!(resolve_text_wrap(TextWhiteSpace::Pre, TextWordBreak::Normal, TextOverflowWrap::Normal), TextWrap::NoWrap);
    assert_eq!(resolve_text_wrap(TextWhiteSpace::BreakSpaces, TextWordBreak::KeepAll, TextOverflowWrap::Normal), TextWrap::Glyph);
    assert_eq!(resolve_text_wrap(TextWhiteSpace::Normal, TextWordBreak::BreakAll, TextOverflowWrap::Normal), TextWrap::Glyph);
    assert_eq!(resolve_text_wrap(TextWhiteSpace::PreWrap, TextWordBreak::KeepAll, TextOverflowWrap::Anywhere), TextWrap::Word);
    assert_eq!(resolve_text_wrap(TextWhiteSpace::Normal, TextWordBreak::Normal, TextOverflowWrap::Normal), TextWrap::Word);
    assert_eq!(resolve_text_wrap(TextWhiteSpace::PreLine, TextWordBreak::Normal, TextOverflowWrap::BreakWord), TextWrap::WordOrGlyph);
    assert_eq!(resolve_text_wrap(TextWhiteSpace::Normal, TextWordBreak::Normal, TextOverflowWrap::Anywhere), TextWrap::Glyph);
}

#[test]
fn generic_families_are_matched_without_regard_to_case() {
    assert!(matches!(font_family("serif"), FontFamily::Serif));
    assert!(matches!(font_family("Sans-Serif"), FontFamily::SansSerif));
    assert!(matches!(font_family("MONOSPACE"), FontFamily::Monospace));
    assert!(matches!(font_family("cursive"), FontFamily::Cursive));
    assert!(matches!(font_family("Fantasy"), FontFamily::Fantasy));
    match font_family("Fira Code") {
        FontFamily::Named(name) => assert_eq!(name, "Fira Code"),
        other => panic!("unexpected family {other:?}"),
    }
    match font_family("serif ") {
        FontFamily::Named(name) => assert_eq!(name, "serif "),
        other => panic!("unexpected family {other:?}"),
    }
}

#[test]
fn appending_a_character_extends_a_span_of_the_same_style() {
    let mut list = Vec::new();
    append_styled_character(&mut list, 'a', 1);
    append_styled_character(&mut list, 'b', 1);
    append_styled_character(&mut list, 'c', 2);
    append_styled_character(&mut list, 'd', 1);
    assert_eq!(
        parts(&list),
        vec![("ab".to_string(), 1), ("c".to_string(), 2), ("d".to_string(), 1)]
    );
}

#[test]
fn span_white_space_collapses_across_span_boundaries() {
    let input = spans(&[("  hello ", 1), ("  big", 2), (" world  ", 3)]);
    let normal = normalize_text_spans(&input, TextWhiteSpace::Normal);
    // The collapsed space takes the style of the first white space of its run.
    assert_eq!(
        parts(&normal),
        vec![
            ("hello ".to_string(), 1),
            ("big".to_string(), 2),
            (" world".to_string(), 3)
        ]
    );
    let kept = normalize_text_spans(&input, TextWhiteSpace::Pre);
    assert_eq!(parts(&kept), parts(&input));
}

#[test]
fn pre_line_spans_keep_newlines_and_merge_equal_styles() {
    let input = spans(&[("a \n", 1), (" b", 1), ("c", 2)]);
    let out = normalize_text_spans(&input, TextWhiteSpace::PreLine);
    assert_eq!(parts(&out), vec![("a\nb".to_string(), 1), ("c".to_string(), 2)]);
    assert!(normalize_text_spans(&spans(&[("   ", 4)]), TextWhiteSpace::Normal).is_empty());
}

#[test]
fn nested_text_elements_give_runs_in_document_order() {
    let mut dom = Dom::new();
    let root = dom.root();
    assert_eq!(first_window(&dom), None);
    let window = dom.create(NodeKind::Element(ElementTag::Window, ElementStyle::initial()));
    let outer = dom.create(NodeKind::Element(ElementTag::Text, ElementStyle::initial()));
    let inner = dom.create(NodeKind::Element(ElementTag::Text, ElementStyle::initial()));
    let hello = dom.create(NodeKind::Text("hello ".to_string()));
    let bold = dom.create(NodeKind::Text("bold".to_string()));
    let tail = dom.create(NodeKind::Text("!".to_string()));
    let block = dom.create(NodeKind::Element(ElementTag::Div, ElementStyle::initial()));
    dom.append_child(root, window).unwrap();
    dom.append_child(window, outer).unwrap();
    dom.append_child(outer, hello).unwrap();
    dom.append_child(outer, inner).unwrap();
    dom.append_child(inner, bold).unwrap();
    dom.append_child(outer, block).unwrap();
    dom.append_child(outer, tail).unwrap();
    assert_eq!(first_window(&dom), Some(window));
    let runs = text_spans(&dom, outer);
    assert_eq!(
        parts(&runs),
        vec![
            ("hello ".to_string(), outer.raw()),
            ("bold".to_string(), inner.raw()),
            ("!".to_string(), outer.raw())
        ]
    );
    assert!(text_spans(&dom, block).is_empty());
    assert!(text_spans(&dom, hello).is_empty());
}

#[test]
fn collapsed_text_keeps_visible_characters_with_single_spaces() {
    let out = collapse_white_space(" \t a \u{a0} b\n\n c ", false);
    assert_eq!(out, "a b c");
    assert!(!out.contains("  "));
    let visible: String = " \t a \u{a0} b\n\n c ".chars().filter(|c| !c.is_whitespace()).collect();
    assert_eq!(out.chars().filter(|c| !c.is_whitespace()).collect::<String>(), visible);
}

#[test]
fn normalized_spans_hold_the_normalized_joined_text() {
    let input = spans(&[("  one ", 1), ("  two", 2), ("\n three  ", 2), (" ", 3)]);
    let joined: String = input.iter().map(|span| span.text.as_str()).collect();
    for mode in [TextWhiteSpace::Normal, TextWhiteSpace::NoWrap, TextWhiteSpace::PreLine, TextWhiteSpace::Pre] {
        let out = normalize_text_spans(&input, mode);
        let text: String = out.iter().map(|span| span.text.as_str()).collect();
        assert_eq!(text, normalize_white_space(&joined, mode));
        if mode != TextWhiteSpace::Pre {
            assert!(out.iter().all(|span| !span.text.is_empty()));
            assert!(out.windows(2).all(|pair| pair[0].style != pair[1].style));
        }
    }
}

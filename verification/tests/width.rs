use verge_proxy::width::{
    cut_measured, is_private_use, prompt_char_width, prompt_display_width, truncate_to_width,
};

#[test]
fn private_use_takes_two_columns() {
    for ch in ['\u{e000}', '\u{f8ff}', '\u{f0000}', '\u{ffffd}', '\u{100000}', '\u{10fffd}'] {
        assert!(is_private_use(ch));
        assert_eq!(prompt_char_width(ch), 2);
    }
    for ch in ['\u{d7ff}', '\u{f900}', '\u{effff}', '\u{ffffe}', '\u{10fffe}'] {
        assert!(!is_private_use(ch));
    }
}

#[test]
fn characters_take_their_columns() {
    assert_eq!(prompt_char_width('a'), 1);
    assert_eq!(prompt_char_width('日'), 2);
    assert_eq!(prompt_char_width('\u{301}'), 0);
    assert_eq!(prompt_char_width('\n'), 0);
    assert_eq!(prompt_display_width("a日\u{301}"), 3);
}

#[test]
fn width_of_texts_adds() {
    for (left, right) in [("a", "日"), ("", "é"), ("\u{f0493}", " x")] {
        assert_eq!(
            prompt_display_width(&format!("{left}{right}")),
            prompt_display_width(left) + prompt_display_width(right)
        );
    }
}

#[test]
fn texts_are_cut_to_a_width() {
    assert_eq!(truncate_to_width("日本", 4), "日本");
    assert_eq!(truncate_to_width("日本国", 5), "日本…");
    assert_eq!(truncate_to_width("日本国", 4), "日…");
    assert_eq!(truncate_to_width("日本", 1), "…");
    assert_eq!(truncate_to_width("日本", 0), "");
    assert_eq!(truncate_to_width("", 0), "");
    for width in 0..12 {
        let cut = truncate_to_width("新加坡 IPLC 专线", width);
        assert!(prompt_display_width(&cut) <= width);
    }
}

#[test]
fn the_first_character_that_does_not_fit_ends_the_text() {
    let chars: Vec<char> = "a日b".chars().collect();
    assert_eq!(cut_measured(&chars, &vec![1, 2, 1], 1, 3), "a…");
    assert_eq!(cut_measured(&chars, &vec![1, 2, 1], 1, 4), "a日b");
    assert_eq!(cut_measured(&chars, &vec![1, 2, 1], 2, 2), "…");
    assert_eq!(cut_measured(&chars, &vec![9, 0, 0], 1, 4), "…");
}

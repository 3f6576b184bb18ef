use verge_proxy::text::{
    in_order, index_of, join, keep_non_empty, lines, replace, split, text_contains, text_ends_with,
    text_starts_with, trim, trim_end_matches, trim_quotes, trim_start, whitespace, without,
    Delimiter,
};

fn owned(list: &[&str]) -> Vec<String> {
    list.iter().map(|text| text.to_string()).collect()
}

const SAMPLES: [&str; 12] = [
    "",
    " ",
    "a",
    " a b ",
    "\u{3000}日本\u{a0}",
    "aaa",
    "a\nb",
    "a\r\nb\n",
    "a\r\r\n\nb\r",
    "\n",
    "é🔰é",
    "'\"'x'\"",
];

#[test]
fn whitespace_is_that_of_unicode() {
    for ch in '\u{0}'..=char::MAX {
        assert_eq!(whitespace(ch), ch.is_whitespace(), "{ch:?}");
    }
}

#[test]
fn trimming_agrees_with_the_standard_library() {
    for text in SAMPLES {
        assert_eq!(trim(text), text.trim());
        assert_eq!(trim_start(text), text.trim_start());
        assert_eq!(trim_quotes(text), text.trim_matches(['"', '\'']));
        assert_eq!(trim_end_matches(text, 'a'), text.trim_end_matches('a'));
    }
}

#[test]
fn searching_agrees_with_the_standard_library() {
    for text in SAMPLES {
        for pattern in SAMPLES {
            assert_eq!(text_contains(text, pattern), text.contains(pattern));
            assert_eq!(text_starts_with(text, pattern), text.starts_with(pattern));
            assert_eq!(in_order(text, pattern), text <= pattern);
            if !pattern.is_empty() {
                assert_eq!(replace(text, pattern, "<>"), text.replace(pattern, "<>"));
            }
        }
        assert_eq!(text_ends_with(text, '\n'), text.ends_with('\n'));
    }
    assert_eq!(replace("aaaaa", "aa", "b"), "bba");
}

#[test]
fn cutting_agrees_with_the_standard_library() {
    for text in SAMPLES {
        assert_eq!(lines(text), text.lines().collect::<Vec<_>>());
        assert_eq!(
            split(text, Delimiter::Char('\n')),
            text.split('\n').collect::<Vec<_>>()
        );
        assert_eq!(
            keep_non_empty(split(text, Delimiter::Whitespace)),
            text.split_whitespace().collect::<Vec<_>>()
        );
    }
}

#[test]
fn pieces_join_back_to_the_text() {
    for text in SAMPLES {
        assert_eq!(join(&split(text, Delimiter::Char('a')), "a"), text);
    }
    assert_eq!(join(&Vec::new(), ","), "");
    assert_eq!(join(&owned(&["a", "", "b"]), ", "), "a, , b");
}

#[test]
fn lists_are_searched_and_thinned() {
    let list = owned(&["a", "b", "a"]);
    assert_eq!(index_of(&list, "a"), Some(0));
    assert_eq!(index_of(&list, "b"), Some(1));
    assert_eq!(index_of(&list, "c"), None);
    assert_eq!(without(&list, "a"), ["b"]);
    assert_eq!(without(&list, "c"), list);
}

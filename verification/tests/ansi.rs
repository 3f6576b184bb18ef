use verge_proxy::ansi::{ansi_bg_fg, ansi_fg, hex_to_rgb};

#[test]
fn colours_are_read_from_hexadecimal() {
    assert_eq!(hex_to_rgb("#a6e3a1"), Some((166, 227, 161)));
    assert_eq!(hex_to_rgb("A6E3A1"), Some((166, 227, 161)));
    assert_eq!(hex_to_rgb("+a+b+c"), Some((10, 11, 12)));
    assert_eq!(hex_to_rgb("#a6e3a"), None);
    assert_eq!(hex_to_rgb("##a6e3a"), None);
    assert_eq!(hex_to_rgb("a6e3ag"), None);
    assert_eq!(hex_to_rgb("éé12"), None);
    assert_eq!(hex_to_rgb(""), None);
}

#[test]
fn sequences_have_their_exact_text() {
    assert_eq!(ansi_fg("#010203"), "\u{1b}[38;2;1;2;3m");
    assert_eq!(ansi_fg("none"), "\u{1b}[38;2;205;214;244m");
    assert_eq!(
        ansi_bg_fg("#0a0b0c", "#ffffff"),
        "\u{1b}[48;2;10;11;12m\u{1b}[38;2;255;255;255m"
    );
    assert_eq!(
        ansi_bg_fg("", ""),
        "\u{1b}[48;2;49;50;68m\u{1b}[38;2;17;17;27m"
    );
}

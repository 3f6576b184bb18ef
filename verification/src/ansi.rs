//! Terminal colours: escape sequences for 24-bit foregrounds and backgrounds.

use vstd::prelude::*;
use vstd::utf8::*;
use crate::numbers::{decimal, decimal_text, is_digit, lemma_decimal_digits};
use crate::text::{chars_of, text_between};

verus! {

/// Back to the terminal's own colours.
pub const ANSI_RESET: &'static str = "\x1b[0m";

/// A bold green foreground.
pub const ANSI_BOLD_GREEN: &'static str = "\x1b[1;38;2;166;227;161m";

/// A bold red foreground.
pub const ANSI_BOLD_RED: &'static str = "\x1b[1;38;2;243;139;168m";

/// The value of a hexadecimal digit.
pub open spec fn hex_digit(byte: u8) -> Option<u8> {
    if 48 <= byte <= 57 {
        Some((byte - 48) as u8)
    } else if 97 <= byte <= 102 {
        Some((byte - 87) as u8)
    } else if 65 <= byte <= 70 {
        Some((byte - 55) as u8)
    } else {
        None
    }
}

/// The value of two bytes read as a hexadecimal number: two digits, or a plus sign and one.
pub open spec fn hex_pair(high: u8, low: u8) -> Option<u8> {
    match (hex_digit(high), hex_digit(low)) {
        (Some(h), Some(l)) => Some((16 * h + l) as u8),
        (None, Some(l)) if high == 43 => Some(l),
        _ => None,
    }
}

/// The bytes of a colour after the optional hash sign.
pub open spec fn color_bytes(color: Seq<char>) -> Seq<u8> {
    if color.len() > 0 && color[0] == '#' {
        encode_utf8(color.drop_first())
    } else {
        encode_utf8(color)
    }
}

/// The red, green and blue that a colour such as `#a6e3a1` names.
pub open spec fn rgb(color: Seq<char>) -> Option<(u8, u8, u8)> {
    let bytes = color_bytes(color);
    if bytes.len() != 6 {
        None
    } else {
        match (hex_pair(bytes[0], bytes[1]), hex_pair(bytes[2], bytes[3]), hex_pair(
            bytes[4],
            bytes[5],
        )) {
            (Some(red), Some(green), Some(blue)) => Some((red, green, blue)),
            _ => None,
        }
    }
}

/// The two-byte parts of a six-byte colour that are read do not cut a character in two.
pub open spec fn cuts_whole(color: Seq<char>) -> bool {
    let bytes = color_bytes(color);
    bytes.len() == 6 ==> {
        &&& is_char_boundary(bytes, 2)
        &&& hex_pair(bytes[0], bytes[1]) is Some ==> is_char_boundary(bytes, 4)
    }
}

/// Three colour values in decimal notation with semicolons between them.
pub open spec fn color_numbers(color: (u8, u8, u8)) -> Seq<char> {
    decimal(color.0 as nat) + ";"@ + decimal(color.1 as nat) + ";"@ + decimal(color.2 as nat)
}

/// The escape sequence that sets the foreground to `fg`; an unreadable colour counts as a
/// light grey.
pub open spec fn fg_sequence(fg: Seq<char>) -> Seq<char> {
    let color = match rgb(fg) {
        Some(color) => color,
        None => (205u8, 214u8, 244u8),
    };
    "\x1b[38;2;"@ + color_numbers(color) + "m"@
}

/// The escape sequences that set the background to `bg` and the foreground to `fg`; an
/// unreadable background counts as a dark grey, an unreadable foreground as near black.
pub open spec fn bg_fg_sequence(bg: Seq<char>, fg: Seq<char>) -> Seq<char> {
    let back = match rgb(bg) {
        Some(color) => color,
        None => (49u8, 50u8, 68u8),
    };
    let front = match rgb(fg) {
        Some(color) => color,
        None => (17u8, 17u8, 27u8),
    };
    "\x1b[48;2;"@ + color_numbers(back) + "m\x1b[38;2;"@ + color_numbers(front) + "m"@
}

/// `ch` is an ASCII letter.
pub open spec fn is_letter(ch: char) -> bool {
    'a' <= ch <= 'z' || 'A' <= ch <= 'Z'
}

/// `text` without what comes up to its first ASCII letter, and without that letter.
pub open spec fn after_letter(text: Seq<char>) -> Seq<char>
    decreases text.len(),
{
    if text.len() == 0 {
        text
    } else if is_letter(text[0]) {
        text.drop_first()
    } else {
        after_letter(text.drop_first())
    }
}

pub proof fn lemma_after_letter_shorter(text: Seq<char>)
    ensures
        after_letter(text).len() <= text.len(),
    decreases text.len(),
{
    if text.len() > 0 && !is_letter(text[0]) {
        lemma_after_letter_shorter(text.drop_first());
    }
}

/// `text` without its escape sequences. Each begins with the escape character and a bracket and
/// ends with the next ASCII letter.
pub open spec fn without_escapes(text: Seq<char>) -> Seq<char>
    decreases text.len(),
{
    if text.len() == 0 {
        text
    } else if text[0] == '\u{1b}' && text.len() > 1 && text[1] == '[' {
        proof {
            lemma_after_letter_shorter(text.skip(2));
        }
        without_escapes(after_letter(text.skip(2)))
    } else {
        seq![text[0]] + without_escapes(text.drop_first())
    }
}

proof fn lemma_after_letter(numbers: Seq<char>, letter: char, rest: Seq<char>)
    requires
        forall|i: int| 0 <= i < numbers.len() ==> !is_letter(#[trigger] numbers[i]),
        is_letter(letter),
    ensures
        after_letter(numbers + seq![letter] + rest) == rest,
    decreases numbers.len(),
{
    let text = numbers + seq![letter] + rest;
    if numbers.len() == 0 {
        assert(text.drop_first() =~= rest);
    } else {
        let fewer = numbers.drop_first();
        assert forall|i: int| 0 <= i < fewer.len() implies !is_letter(#[trigger] fewer[i]) by {
            assert(fewer[i] == numbers[i + 1]);
        }
        assert(text[0] == numbers[0]);
        assert(text.drop_first() =~= fewer + seq![letter] + rest);
        lemma_after_letter(fewer, letter, rest);
    }
}

/// A sequence of a bracket, numbers and a letter shows nothing.
pub proof fn lemma_sequence_shows_nothing(numbers: Seq<char>, rest: Seq<char>)
    requires
        forall|i: int| 0 <= i < numbers.len() ==> !is_letter(#[trigger] numbers[i]),
    ensures
        without_escapes(seq!['\u{1b}', '['] + numbers + seq!['m'] + rest) == without_escapes(rest),
{
    let text = seq!['\u{1b}', '['] + numbers + seq!['m'] + rest;
    assert(text.skip(2) =~= numbers + seq!['m'] + rest);
    lemma_after_letter(numbers, 'm', rest);
}

proof fn lemma_color_numbers(color: (u8, u8, u8))
    ensures
        forall|i: int|
            0 <= i < color_numbers(color).len() ==> !is_letter(#[trigger] color_numbers(color)[i]),
{
    reveal_strlit(";");
    let red = decimal(color.0 as nat);
    let green = decimal(color.1 as nat);
    let blue = decimal(color.2 as nat);
    lemma_decimal_digits(color.0 as nat);
    lemma_decimal_digits(color.1 as nat);
    lemma_decimal_digits(color.2 as nat);
    let numbers = color_numbers(color);
    assert forall|i: int| 0 <= i < numbers.len() implies !is_letter(#[trigger] numbers[i]) by {
        let second = i - red.len() - 1;
        let third = second - green.len() - 1;
        if i < red.len() {
            assert(is_digit(red[i]));
        } else if 0 <= second < green.len() {
            assert(is_digit(green[second]));
        } else if 0 <= third {
            assert(is_digit(blue[third]));
        }
    }
}

/// The sequence that takes colours back shows nothing.
pub proof fn lemma_reset_shows_nothing(rest: Seq<char>)
    ensures
        without_escapes(ANSI_RESET@ + rest) == without_escapes(rest),
{
    reveal_strlit("\x1b[0m");
    assert(ANSI_RESET@ =~= seq!['\u{1b}', '['] + seq!['0'] + seq!['m']);
    lemma_sequence_shows_nothing(seq!['0'], rest);
}

/// The sequence that sets a foreground shows nothing.
pub proof fn lemma_fg_shows_nothing(fg: Seq<char>, rest: Seq<char>)
    ensures
        without_escapes(fg_sequence(fg) + rest) == without_escapes(rest),
{
    reveal_strlit("\x1b[38;2;");
    reveal_strlit("m");
    let color = match rgb(fg) {
        Some(color) => color,
        None => (205u8, 214u8, 244u8),
    };
    lemma_color_numbers(color);
    let start = seq!['3', '8', ';', '2', ';'];
    let numbers = start + color_numbers(color);
    assert forall|i: int| 0 <= i < numbers.len() implies !is_letter(#[trigger] numbers[i]) by {
        if i >= 5 {
            assert(!is_letter(color_numbers(color)[i - 5]));
        }
    }
    assert(fg_sequence(fg) + rest =~= seq!['\u{1b}', '['] + numbers + seq!['m'] + rest);
    lemma_sequence_shows_nothing(numbers, rest);
}

/// The sequences that set a background and a foreground show nothing.
pub proof fn lemma_bg_fg_shows_nothing(bg: Seq<char>, fg: Seq<char>, rest: Seq<char>)
    ensures
        without_escapes(bg_fg_sequence(bg, fg) + rest) == without_escapes(rest),
{
    reveal_strlit("\x1b[48;2;");
    reveal_strlit("m\x1b[38;2;");
    reveal_strlit("m");
    let back = match rgb(bg) {
        Some(color) => color,
        None => (49u8, 50u8, 68u8),
    };
    let front = match rgb(fg) {
        Some(color) => color,
        None => (17u8, 17u8, 27u8),
    };
    lemma_color_numbers(back);
    lemma_color_numbers(front);
    let first = seq!['4', '8', ';', '2', ';'] + color_numbers(back);
    let second = seq!['3', '8', ';', '2', ';'] + color_numbers(front);
    assert forall|i: int| 0 <= i < first.len() implies !is_letter(#[trigger] first[i]) by {
        if i >= 5 {
            assert(!is_letter(color_numbers(back)[i - 5]));
        }
    }
    assert forall|i: int| 0 <= i < second.len() implies !is_letter(#[trigger] second[i]) by {
        if i >= 5 {
            assert(!is_letter(color_numbers(front)[i - 5]));
        }
    }
    let later = seq!['\u{1b}', '['] + second + seq!['m'] + rest;
    assert(bg_fg_sequence(bg, fg) + rest =~= seq!['\u{1b}', '['] + first + seq!['m'] + later);
    lemma_sequence_shows_nothing(first, later);
    lemma_sequence_shows_nothing(second, rest);
}

/// A text without an escape character is shown as it is.
pub proof fn lemma_plain_is_shown(text: Seq<char>, rest: Seq<char>)
    requires
        !text.contains('\u{1b}'),
    ensures
        without_escapes(text + rest) == text + without_escapes(rest),
    decreases text.len(),
{
    if text.len() == 0 {
        assert(text + rest =~= rest);
        assert(text + without_escapes(rest) =~= without_escapes(rest));
    } else {
        let fewer = text.drop_first();
        assert(!fewer.contains('\u{1b}')) by {
            if fewer.contains('\u{1b}') {
                let at = choose|i: int| 0 <= i < fewer.len() && fewer[i] == '\u{1b}';
                assert(text[at + 1] == '\u{1b}');
            }
        }
        lemma_plain_is_shown(fewer, rest);
        assert(text.contains(text[0]));
        assert((text + rest).drop_first() =~= fewer + rest);
        assert(seq![text[0]] + (fewer + without_escapes(rest)) =~= text + without_escapes(rest));
    }
}

/// A colour of ASCII characters is cut between characters.
pub proof fn lemma_ascii_cuts_whole(color: Seq<char>)
    requires
        is_ascii_chars(color),
    ensures
        cuts_whole(color),
{
    let digits = if color.len() > 0 && color[0] == '#' {
        color.drop_first()
    } else {
        color
    };
    let bytes = color_bytes(color);
    if bytes.len() == 6 {
        is_ascii_chars_encode_utf8(digits);
        encode_utf8_valid_utf8(digits);
        assert forall|i: int| 0 <= i < 6 implies !is_continuation_byte(#[trigger] bytes[i]) by {
            assert(digits[i] <= '\u{7f}');
        }
        is_char_boundary_iff_not_is_continuation_byte(bytes, 2);
        is_char_boundary_iff_not_is_continuation_byte(bytes, 4);
    }
}

/// The value of a hexadecimal digit.
pub fn read_hex_digit(byte: u8) -> (value: Option<u8>)
    ensures
        value == hex_digit(byte),
{
    if 48 <= byte && byte <= 57 {
        Some(byte - 48)
    } else if 97 <= byte && byte <= 102 {
        Some(byte - 87)
    } else if 65 <= byte && byte <= 70 {
        Some(byte - 55)
    } else {
        None
    }
}

/// The value of two bytes read as a hexadecimal number.
pub fn read_hex_pair(high: u8, low: u8) -> (value: Option<u8>)
    ensures
        value == hex_pair(high, low),
{
    match (read_hex_digit(high), read_hex_digit(low)) {
        (Some(h), Some(l)) => Some(16 * h + l),
        (None, Some(l)) => if high == 43 {
            Some(l)
        } else {
            None
        },
        _ => None,
    }
}

/// The red, green and blue that a colour names.
pub fn hex_to_rgb(input: &str) -> (color: Option<(u8, u8, u8)>)
    requires
        cuts_whole(input@),
    ensures
        color == rgb(input@),
{
    let chars = chars_of(input);
    let start: usize = if chars.len() > 0 && chars[0] == '#' {
        1
    } else {
        0
    };
    let digits = text_between(&chars, start, chars.len());
    assert(start == 1 ==> digits@ =~= input@.drop_first());
    assert(start == 0 ==> digits@ =~= input@);
    let bytes = digits.as_str().as_bytes();
    if bytes.len() != 6 {
        return None;
    }
    let red = read_hex_pair(bytes[0], bytes[1]);
    let green = read_hex_pair(bytes[2], bytes[3]);
    let blue = read_hex_pair(bytes[4], bytes[5]);
    match (red, green, blue) {
        (Some(red), Some(green), Some(blue)) => Some((red, green, blue)),
        _ => None,
    }
}

/// Three colour values in decimal notation with semicolons between them.
pub fn color_numbers_text(color: (u8, u8, u8)) -> (text: String)
    ensures
        text@ == color_numbers(color),
{
    let mut text = decimal_text(color.0 as u64);
    text.append(";");
    text.append(decimal_text(color.1 as u64).as_str());
    text.append(";");
    text.append(decimal_text(color.2 as u64).as_str());
    text
}

/// The escape sequences that set a background and a foreground.
pub fn ansi_bg_fg(bg: &str, fg: &str) -> (sequence: String)
    requires
        cuts_whole(bg@),
        cuts_whole(fg@),
    ensures
        sequence@ == bg_fg_sequence(bg@, fg@),
{
    let back = match hex_to_rgb(bg) {
        Some(color) => color,
        None => (49u8, 50u8, 68u8),
    };
    let front = match hex_to_rgb(fg) {
        Some(color) => color,
        None => (17u8, 17u8, 27u8),
    };
    let mut sequence = String::new();
    sequence.append("\x1b[48;2;");
    sequence.append(color_numbers_text(back).as_str());
    sequence.append("m\x1b[38;2;");
    sequence.append(color_numbers_text(front).as_str());
    sequence.append("m");
    assert(sequence@ =~= bg_fg_sequence(bg@, fg@));
    sequence
}

/// The escape sequence that sets a foreground.
pub fn ansi_fg(fg: &str) -> (sequence: String)
    requires
        cuts_whole(fg@),
    ensures
        sequence@ == fg_sequence(fg@),
{
    let color = match hex_to_rgb(fg) {
        Some(color) => color,
        None => (205u8, 214u8, 244u8),
    };
    let mut sequence = String::new();
    sequence.append("\x1b[38;2;");
    sequence.append(color_numbers_text(color).as_str());
    sequence.append("m");
    assert(sequence@ =~= fg_sequence(fg@));
    sequence
}

/// The byte of the hexadecimal digit with the value `digit`, in lower case.
pub open spec fn hex_byte(digit: int) -> char {
    if digit < 10 {
        ('0' as u32 + digit) as char
    } else {
        ('a' as u32 + digit - 10) as char
    }
}

/// A colour as it is written: two hexadecimal digits for each of its parts.
pub open spec fn hex_written(red: u8, green: u8, blue: u8) -> Seq<char> {
    seq![
        hex_byte(red as int / 16),
        hex_byte(red as int % 16),
        hex_byte(green as int / 16),
        hex_byte(green as int % 16),
        hex_byte(blue as int / 16),
        hex_byte(blue as int % 16),
    ]
}

proof fn lemma_hex_byte(value: u8)
    ensures
        hex_pair(hex_byte(value as int / 16) as u8, hex_byte(value as int % 16) as u8) == Some(
            value,
        ),
        hex_byte(value as int / 16) as u32 <= 0x7f,
        hex_byte(value as int % 16) as u32 <= 0x7f,
        hex_byte(value as int / 16) != '#',
{
}

/// A colour is read from its six hexadecimal digits, with a hash sign before them or without,
/// and its parts stand in the escape sequences in their order.
pub proof fn colors_are_read_from_their_digits(back: (u8, u8, u8), front: (u8, u8, u8))
    ensures
        rgb(seq!['#'] + hex_written(back.0, back.1, back.2)) == Some(back),
        rgb(hex_written(back.0, back.1, back.2)) == Some(back),
        fg_sequence(seq!['#'] + hex_written(front.0, front.1, front.2)) == "\x1b[38;2;"@ + (decimal(
            front.0 as nat,
        ) + ";"@ + decimal(front.1 as nat) + ";"@ + decimal(front.2 as nat)) + "m"@,
        bg_fg_sequence(
            seq!['#'] + hex_written(back.0, back.1, back.2),
            seq!['#'] + hex_written(front.0, front.1, front.2),
        ) == "\x1b[48;2;"@ + (decimal(back.0 as nat) + ";"@ + decimal(back.1 as nat) + ";"@
            + decimal(back.2 as nat)) + "m\x1b[38;2;"@ + (decimal(front.0 as nat) + ";"@ + decimal(
            front.1 as nat,
        ) + ";"@ + decimal(front.2 as nat)) + "m"@,
{
    lemma_color_read(back.0, back.1, back.2);
    lemma_color_read(front.0, front.1, front.2);
}

proof fn lemma_color_read(red: u8, green: u8, blue: u8)
    ensures
        rgb(seq!['#'] + hex_written(red, green, blue)) == Some((red, green, blue)),
        rgb(hex_written(red, green, blue)) == Some((red, green, blue)),
{
    let digits = hex_written(red, green, blue);
    lemma_hex_byte(red);
    lemma_hex_byte(green);
    lemma_hex_byte(blue);
    assert(is_ascii_chars(digits));
    is_ascii_chars_encode_utf8(digits);
    assert((seq!['#'] + digits).drop_first() =~= digits);
    let bytes = encode_utf8(digits);
    assert(bytes[0] == digits[0] as u8);
    assert(bytes[1] == digits[1] as u8);
    assert(bytes[2] == digits[2] as u8);
    assert(bytes[3] == digits[3] as u8);
    assert(bytes[4] == digits[4] as u8);
    assert(bytes[5] == digits[5] as u8);
}

/// A colour that cannot be read counts as a light grey in front, and as near black on a tag and
/// a dark grey behind.
pub proof fn unreadable_colors_have_stand_ins(color: Seq<char>)
    requires
        rgb(color) is None,
    ensures
        fg_sequence(color) == fg_sequence(seq!['#'] + hex_written(205, 214, 244)),
        bg_fg_sequence(color, color) == bg_fg_sequence(
            seq!['#'] + hex_written(49, 50, 68),
            seq!['#'] + hex_written(17, 17, 27),
        ),
{
    lemma_color_read(205, 214, 244);
    lemma_color_read(49, 50, 68);
    lemma_color_read(17, 17, 27);
}

/// The sequences that set the bold foregrounds show nothing.
pub proof fn lemma_bold_shows_nothing(rest: Seq<char>)
    ensures
        without_escapes(ANSI_BOLD_GREEN@ + rest) == without_escapes(rest),
        without_escapes(ANSI_BOLD_RED@ + rest) == without_escapes(rest),
{
    reveal_strlit("\x1b[1;38;2;166;227;161m");
    reveal_strlit("\x1b[1;38;2;243;139;168m");
    let green = seq![
        '1', ';', '3', '8', ';', '2', ';', '1', '6', '6', ';', '2', '2', '7', ';', '1', '6', '1',
    ];
    let red = seq![
        '1', ';', '3', '8', ';', '2', ';', '2', '4', '3', ';', '1', '3', '9', ';', '1', '6', '8',
    ];
    assert(ANSI_BOLD_GREEN@ =~= seq!['\u{1b}', '['] + green + seq!['m']);
    assert(ANSI_BOLD_RED@ =~= seq!['\u{1b}', '['] + red + seq!['m']);
    lemma_sequence_shows_nothing(green, rest);
    lemma_sequence_shows_nothing(red, rest);
}

/// A byte is a hexadecimal digit if it is a decimal digit or one of the first six letters, in
/// lower case or in upper case, and else it is none. Only a colour of six bytes is read.
pub proof fn hexadecimal_digits_are_read_in_either_case(value: int, byte: u8, color: Seq<char>)
    requires
        0 <= value < 16,
    ensures
        hex_digit(hex_byte(value) as u8) == Some(value as u8),
        value >= 10 ==> hex_digit((hex_byte(value) as u8 - 32) as u8) == Some(value as u8),
        hex_digit(byte) matches Some(digit) ==> digit < 16 && (byte == hex_byte(digit as int) as u8
            || byte + 32 == hex_byte(digit as int) as u8),
        rgb(color) is Some ==> color_bytes(color).len() == 6,
{
}

} // verus!

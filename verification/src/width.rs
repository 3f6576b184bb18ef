//! How many terminal columns a text takes, and how to cut it to a number of columns.

use unicode_width::{UnicodeWidthChar, UnicodeWidthStr};
use vstd::prelude::*;
use vstd::utf8::*;
use crate::text::{chars_of, text_between};

verus! {

/// What stands in for the part of a text that was cut off.
pub const MARKER: &'static str = "…";

/// The columns that the `unicode-width` crate gives to one character: `None` for a control
/// character.
pub uninterp spec fn char_columns(ch: char) -> Option<usize>;

/// The columns that the `unicode-width` crate gives to a whole text, in which neighbouring
/// characters may share columns.
pub uninterp spec fn text_columns(text: Seq<char>) -> usize;

/// `UnicodeWidthChar::width`, named by [`char_columns`]. Printable ASCII takes one column, and
/// no other character takes more than three, or more than two where two bytes encode it in
/// UTF-8; ASCII control characters have no width.
#[verifier::external_body]
fn char_width(ch: char) -> (columns: Option<usize>)
    ensures
        columns == char_columns(ch),
        ' ' <= ch <= '~' ==> columns == Some(1usize),
        ch < ' ' || ch == '\u{7f}' ==> columns is None,
        columns matches Some(count) ==> count <= 3 && (ch < '\u{800}' ==> count <= 2),
{
    UnicodeWidthChar::width(ch)
}

/// `UnicodeWidthStr::width`, named by [`text_columns`]. A text of one character above U+00A0
/// takes the columns of that character, and the ellipsis takes one. In printable ASCII each
/// character takes one column.
#[verifier::external_body]
pub(crate) fn display_width(input: &str) -> (columns: usize)
    ensures
        columns == text_columns(input@),
        input@.len() == 1 && input@[0] > '\u{a0}' ==> char_columns(input@[0]) == Some(columns),
        input@ == seq!['…'] ==> columns == 1,
        (forall|i: int| 0 <= i < input@.len() ==> ' ' <= #[trigger] input@[i] <= '~') ==> columns
            == input@.len(),
{
    UnicodeWidthStr::width(input)
}

/// `ch` is a private-use character, such as the icons of patched terminal fonts.
pub open spec fn private_use(ch: char) -> bool {
    ||| '\u{e000}' <= ch <= '\u{f8ff}'
    ||| '\u{f0000}' <= ch <= '\u{ffffd}'
    ||| '\u{100000}' <= ch <= '\u{10fffd}'
}

/// The columns that a prompt reserves for `ch`, of which it is known that it takes `columns`:
/// two for a private-use character, none for a control character.
pub open spec fn reserved_columns(ch: char, columns: Option<usize>) -> nat {
    if private_use(ch) {
        2
    } else {
        match columns {
            Some(count) => count as nat,
            None => 0,
        }
    }
}

/// The columns that a prompt reserves for `ch`.
pub open spec fn prompt_columns(ch: char) -> nat {
    reserved_columns(ch, char_columns(ch))
}

/// The columns that a prompt reserves for each character of `text`.
pub open spec fn prompt_columns_of(text: Seq<char>) -> Seq<nat> {
    text.map_values(|ch: char| prompt_columns(ch))
}

/// The sum of `columns`.
pub open spec fn total(columns: Seq<nat>) -> nat
    decreases columns.len(),
{
    if columns.len() == 0 {
        0
    } else {
        total(columns.drop_last()) + columns.last()
    }
}

/// The columns that a prompt reserves for `text`.
pub open spec fn prompt_width(text: Seq<char>) -> nat {
    total(prompt_columns_of(text))
}

/// How many of `columns`, taken from the left, fit in `budget` together: the first that does
/// not fit ends the row.
pub open spec fn fitting(columns: Seq<nat>, budget: nat) -> nat
    decreases columns.len(),
{
    if columns.len() == 0 {
        0
    } else {
        let before = fitting(columns.drop_last(), budget);
        if before == columns.len() - 1 && total(columns) <= budget {
            columns.len()
        } else {
            before
        }
    }
}

/// `text`, whose characters take `columns`, cut to `limit` columns. A text that fits stays
/// whole. Otherwise as many characters from its start are kept as leave room for the marker,
/// which takes `marker` columns and comes last; where there is room for no more than the
/// marker it stands alone, and where there is no room nothing is left.
pub open spec fn cut_to(
    text: Seq<char>,
    columns: Seq<nat>,
    marker: nat,
    limit: nat,
) -> Seq<char> {
    if total(columns) <= limit {
        text
    } else if limit == 0 {
        Seq::empty()
    } else if limit <= marker {
        MARKER@
    } else {
        text.take(fitting(columns, (limit - marker) as nat) as int) + MARKER@
    }
}

/// `text` cut to `limit` of the columns that a prompt reserves.
pub open spec fn truncated(text: Seq<char>, limit: nat) -> Seq<char> {
    cut_to(text, prompt_columns_of(text), text_columns(MARKER@) as nat, limit)
}

pub proof fn lemma_total_add(left: Seq<nat>, right: Seq<nat>)
    ensures
        total(left + right) == total(left) + total(right),
    decreases right.len(),
{
    if right.len() == 0 {
        assert(left + right == left);
    } else {
        assert((left + right).drop_last() == left + right.drop_last());
        lemma_total_add(left, right.drop_last());
    }
}

proof fn lemma_total_prefix(columns: Seq<nat>, count: int)
    requires
        0 <= count <= columns.len(),
    ensures
        total(columns.take(count)) <= total(columns),
{
    assert(columns.take(count) + columns.skip(count) == columns);
    lemma_total_add(columns.take(count), columns.skip(count));
}

/// The width of two texts in a row is the sum of their widths.
pub proof fn prompt_width_adds(left: Seq<char>, right: Seq<char>)
    ensures
        prompt_width(left + right) == prompt_width(left) + prompt_width(right),
{
    assert(prompt_columns_of(left + right) == prompt_columns_of(left) + prompt_columns_of(right));
    lemma_total_add(prompt_columns_of(left), prompt_columns_of(right));
}

/// What fits in a budget has no more columns than the budget, and what follows it would not
/// have fitted.
pub proof fn fitting_is_largest(columns: Seq<nat>, budget: nat)
    ensures
        fitting(columns, budget) <= columns.len(),
        total(columns.take(fitting(columns, budget) as int)) <= budget,
        fitting(columns, budget) < columns.len() ==> total(
            columns.take(fitting(columns, budget) as int + 1),
        ) > budget,
    decreases columns.len(),
{
    if columns.len() > 0 {
        let shorter = columns.drop_last();
        fitting_is_largest(shorter, budget);
        let before = fitting(shorter, budget);
        assert(columns.take(before as int) == shorter.take(before as int));
        assert(columns.take(columns.len() as int) == columns);
        if before < columns.len() - 1 {
            assert(columns.take(before as int + 1) == shorter.take(before as int + 1));
        }
    } else {
        assert(columns.take(0) == columns);
    }
}

proof fn lemma_fitting_stops(columns: Seq<nat>, budget: nat, stop: int)
    requires
        0 <= stop < columns.len(),
        fitting(columns.take(stop), budget) == stop,
        total(columns.take(stop + 1)) > budget,
    ensures
        fitting(columns, budget) == stop,
    decreases columns.len(),
{
    let shorter = columns.drop_last();
    if stop == columns.len() - 1 {
        assert(columns.take(stop) == shorter);
        assert(columns.take(stop + 1) == columns);
    } else {
        assert(columns.take(stop) == shorter.take(stop));
        assert(columns.take(stop + 1) == shorter.take(stop + 1));
        lemma_fitting_stops(shorter, budget, stop);
    }
}

/// Adding a character at the end adds its UTF-8 bytes at the end.
pub proof fn lemma_encode_push(text: Seq<char>, ch: char)
    ensures
        encode_utf8(text.push(ch)) == encode_utf8(text) + encode_scalar(ch as u32),
    decreases text.len(),
{
    let longer = text.push(ch);
    if text.len() == 0 {
        assert(longer.drop_first() =~= Seq::<char>::empty());
        reveal_with_fuel(encode_utf8, 2);
        assert(encode_utf8(longer) =~= encode_scalar(ch as u32));
        assert(encode_utf8(text) + encode_scalar(ch as u32) =~= encode_scalar(ch as u32));
    } else {
        lemma_encode_push(text.drop_first(), ch);
        assert(longer.drop_first() == text.drop_first().push(ch));
        assert(encode_utf8(longer) =~= encode_utf8(text) + encode_scalar(ch as u32));
    }
}

/// The first characters of a text take no more UTF-8 bytes than all of it.
pub proof fn lemma_encode_prefix(text: Seq<char>, count: int)
    requires
        0 <= count <= text.len(),
    ensures
        encode_utf8(text.take(count)).len() <= encode_utf8(text).len(),
    decreases text.len(),
{
    if count == text.len() {
        assert(text.take(count) == text);
    } else {
        assert(text.drop_last().take(count) == text.take(count));
        lemma_encode_prefix(text.drop_last(), count);
        lemma_encode_push(text.drop_last(), text.last());
        assert(text.drop_last().push(text.last()) == text);
    }
}

/// Whether a character is a private-use character.
pub fn is_private_use(ch: char) -> (yes: bool)
    ensures
        yes == private_use(ch),
{
    ('\u{e000}' <= ch && ch <= '\u{f8ff}') || ('\u{f0000}' <= ch && ch <= '\u{ffffd}') || (
    '\u{100000}' <= ch && ch <= '\u{10fffd}')
}

/// The columns that a prompt reserves for a character that takes `columns`.
pub fn columns_to_reserve(ch: char, columns: Option<usize>) -> (count: usize)
    ensures
        count == reserved_columns(ch, columns),
{
    if is_private_use(ch) {
        return 2;
    }
    match columns {
        Some(count) => count,
        None => 0,
    }
}

/// The columns that a prompt reserves for a character, no more than its UTF-8 bytes.
pub fn prompt_char_width(ch: char) -> (count: usize)
    ensures
        count == prompt_columns(ch),
        count <= encode_scalar(ch as u32).len(),
        ' ' <= ch <= '~' ==> count == 1,
{
    columns_to_reserve(ch, char_width(ch))
}

/// The columns that a prompt reserves for each character.
pub fn prompt_char_widths(chars: &Vec<char>) -> (widths: Vec<usize>)
    ensures
        counts(widths@) == prompt_columns_of(chars@),
        prompt_width(chars@) <= encode_utf8(chars@).len(),
{
    let mut widths: Vec<usize> = Vec::new();
    let mut i: usize = 0;
    while i < chars.len()
        invariant
            i <= chars@.len(),
            widths@.len() == i,
            forall|k: int| 0 <= k < i ==> #[trigger] widths@[k] == prompt_columns(chars@[k]),
            prompt_width(chars@.take(i as int)) <= encode_utf8(chars@.take(i as int)).len(),
        decreases chars@.len() - i,
    {
        let width = prompt_char_width(chars[i]);
        widths.push(width);
        proof {
            let before = chars@.take(i as int);
            let ch = chars@[i as int];
            assert(chars@.take(i + 1) == before.push(ch));
            lemma_encode_push(before, ch);
            assert(prompt_columns_of(before.push(ch)).drop_last() == prompt_columns_of(before));
        }
        i += 1;
    }
    assert(chars@.take(i as int) == chars@);
    assert(counts(widths@) =~= prompt_columns_of(chars@));
    widths
}

/// The columns that a prompt reserves for a text: one for each printable ASCII character, and
/// no more in all than the text has UTF-8 bytes.
pub fn prompt_display_width(input: &str) -> (count: usize)
    ensures
        count == prompt_width(input@),
        count <= encode_utf8(input@).len(),
        forall|i: int|
            0 <= i < input@.len() && ' ' <= #[trigger] input@[i] <= '~' ==> prompt_columns(
                input@[i],
            ) == 1,
{
    let chars = chars_of(input);
    let byte_count: usize = input.as_bytes().len();
    assert(byte_count == encode_utf8(input@).len());
    let mut count: usize = 0;
    let mut i: usize = 0;
    while i < chars.len()
        invariant
            i <= chars@.len(),
            count == prompt_width(chars@.take(i as int)),
            count <= encode_utf8(chars@.take(i as int)).len(),
            encode_utf8(chars@).len() <= usize::MAX,
            forall|k: int|
                0 <= k < i && ' ' <= #[trigger] chars@[k] <= '~' ==> prompt_columns(chars@[k])
                    == 1,
        decreases chars@.len() - i,
    {
        let width = prompt_char_width(chars[i]);
        proof {
            let before = chars@.take(i as int);
            let ch = chars@[i as int];
            assert(chars@.take(i + 1) == before.push(ch));
            lemma_encode_push(before, ch);
            lemma_encode_prefix(chars@, i + 1);
            assert(prompt_columns_of(before.push(ch)).drop_last() == prompt_columns_of(before));
        }
        count += width;
        i += 1;
    }
    assert(chars@.take(i as int) == chars@);
    count
}

/// The counts of a list as mathematical numbers.
pub open spec fn counts(list: Seq<usize>) -> Seq<nat> {
    list.map_values(|count: usize| count as nat)
}

/// How many of the given columns fit in a budget, taken from the left.
pub fn count_fitting(columns: &Vec<usize>, budget: usize) -> (count: usize)
    ensures
        count == fitting(counts(columns@), budget as nat),
{
    let ghost all = counts(columns@);
    let mut used: usize = 0;
    let mut i: usize = 0;
    assert(all.take(0) =~= Seq::<nat>::empty());
    while i < columns.len()
        invariant
            i <= columns@.len(),
            all == counts(columns@),
            used == total(all.take(i as int)),
            used <= budget,
            fitting(all.take(i as int), budget as nat) == i,
        decreases columns@.len() - i,
    {
        proof {
            assert(all.take(i + 1).drop_last() == all.take(i as int));
            assert(all[i as int] == columns@[i as int]);
        }
        if columns[i] > budget - used {
            proof {
                lemma_fitting_stops(all, budget as nat, i as int);
            }
            return i;
        }
        used += columns[i];
        i += 1;
    }
    assert(all.take(i as int) == all);
    i
}

/// A text whose characters take the given columns, cut to a number of columns.
pub fn cut_measured(
    chars: &Vec<char>,
    columns: &Vec<usize>,
    marker_width: usize,
    max_width: usize,
) -> (text: String)
    requires
        chars@.len() == columns@.len(),
    ensures
        text@ == cut_to(chars@, counts(columns@), marker_width as nat, max_width as nat),
{
    let ghost all = counts(columns@);
    proof {
        fitting_is_largest(all, max_width as nat);
        assert(all.take(all.len() as int) == all);
    }
    let fits = count_fitting(columns, max_width) == columns.len();
    proof {
        if !fits && total(all) <= max_width {
            lemma_total_prefix(all, fitting(all, max_width as nat) as int + 1);
        }
    }
    if fits {
        let text = text_between(chars, 0, chars.len());
        assert(text@ == chars@);
        return text;
    }
    if max_width == 0 {
        return String::new();
    }
    if max_width <= marker_width {
        return MARKER.to_owned();
    }
    let content_width = max_width - marker_width;
    let kept = count_fitting(columns, content_width);
    proof {
        fitting_is_largest(all, content_width as nat);
    }
    let mut text = text_between(chars, 0, kept);
    text.append(MARKER);
    assert(chars@.subrange(0, kept as int) == chars@.take(kept as int));
    text
}

/// A text cut to a number of the columns that a prompt reserves. The result takes no more
/// than that number.
pub fn truncate_to_width(input: &str, max_width: usize) -> (text: String)
    ensures
        text@ == truncated(input@, max_width as nat),
        prompt_width(text@) <= max_width,
{
    let chars = chars_of(input);
    let columns = prompt_char_widths(&chars);
    let marker_width = display_width(MARKER);
    let text = cut_measured(&chars, &columns, marker_width, max_width);
    proof {
        reveal_strlit("…");
        assert(MARKER@ =~= seq!['…']);
        assert(counts(columns@) =~= prompt_columns_of(input@));
        assert(prompt_columns_of(MARKER@) =~= seq![1nat]);
        assert(prompt_width(MARKER@) == 1) by {
            reveal_with_fuel(total, 2);
        }
        assert(prompt_width(Seq::<char>::empty()) == 0);
        let all = prompt_columns_of(input@);
        if prompt_width(input@) > max_width && max_width > 1 {
            let budget = (max_width - 1) as nat;
            fitting_is_largest(all, budget);
            let kept = fitting(all, budget) as int;
            assert(prompt_columns_of(input@.take(kept)) =~= all.take(kept));
            prompt_width_adds(input@.take(kept), MARKER@);
        }
    }
    text
}

/// A prompt reserves two columns for each private-use character, whatever is known of it, and
/// for any other the columns that it takes, which are none where it has no width.
pub proof fn icons_take_two_columns(ch: char)
    ensures
        0xe000 <= ch as u32 <= 0xf8ff || 0xf0000 <= ch as u32 <= 0xffffd || 0x100000 <= ch as u32
            <= 0x10fffd ==> prompt_width(seq![ch]) == 2,
        !(0xe000 <= ch as u32 <= 0xf8ff || 0xf0000 <= ch as u32 <= 0xffffd || 0x100000 <= ch as u32
            <= 0x10fffd) ==> prompt_width(seq![ch]) == (match char_columns(ch) {
            Some(columns) => columns as nat,
            None => 0,
        }),
        prompt_width(Seq::empty()) == 0,
{
    let columns = prompt_columns_of(seq![ch]);
    assert(columns.drop_last() =~= Seq::<nat>::empty());
    assert(columns.last() == prompt_columns(ch));
    assert(prompt_columns_of(Seq::<char>::empty()) =~= Seq::<nat>::empty());
    reveal_with_fuel(total, 2);
}

/// A text that fits stays whole. One that does not is cut behind the last character that leaves
/// room for the marker, which comes last. Where there is no room but for the marker it stands
/// alone, and without any room nothing is left.
pub proof fn cutting_keeps_what_fits(text: Seq<char>, limit: nat)
    ensures
        ({
            let marker = text_columns("…"@) as nat;
            let cut = truncated(text, limit);
            &&& prompt_width(text) <= limit ==> cut == text
            &&& prompt_width(text) > limit && limit == 0 ==> cut.len() == 0
            &&& prompt_width(text) > limit && 0 < limit <= marker ==> cut == "…"@
            &&& prompt_width(text) > limit > marker ==> exists|kept: int|
                {
                    &&& 0 <= kept < text.len()
                    &&& cut == #[trigger] text.take(kept) + "…"@
                    &&& prompt_width(text.take(kept)) + marker <= limit
                    &&& prompt_width(text.take(kept + 1)) + marker > limit
                }
        }),
{
    let marker = text_columns("…"@) as nat;
    let all = prompt_columns_of(text);
    if prompt_width(text) > limit && limit > marker {
        let budget = (limit - marker) as nat;
        fitting_is_largest(all, budget);
        let kept = fitting(all, budget) as int;
        assert(prompt_columns_of(text.take(kept)) =~= all.take(kept));
        if kept == text.len() {
            assert(all.take(kept) =~= all);
        }
        assert(prompt_columns_of(text.take(kept + 1)) =~= all.take(kept + 1));
    }
}

} // verus!

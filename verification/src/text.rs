//! Texts as sequences of characters: the vocabulary that every contract of the library
//! speaks, and the executable functions that compute it.

use vstd::prelude::*;

verus! {

/// `String::push` appends one character at the end.
pub assume_specification[ String::push ](text: &mut String, ch: char)
    ensures
        final(text)@ == old(text)@.push(ch),
;

/// `str` equality holds exactly between texts with the same characters.
pub assume_specification[ <str as PartialEq>::eq ](left: &str, right: &str) -> (same: bool)
    ensures
        same == (left@ == right@),
;

/// The characters of each text of a list.
pub open spec fn texts(list: Seq<String>) -> Seq<Seq<char>> {
    list.map_values(|text: String| text@)
}

/// The characters of an optional text.
pub open spec fn optional(text: Option<String>) -> Option<Seq<char>> {
    match text {
        Some(text) => Some(text@),
        None => None,
    }
}

/// The characters of an optional borrowed text.
pub open spec fn optional_str(text: Option<&str>) -> Option<Seq<char>> {
    match text {
        Some(text) => Some(text@),
        None => None,
    }
}

/// The characters with the Unicode property `White_Space`.
pub open spec fn is_whitespace(ch: char) -> bool {
    ||| '\t' <= ch <= '\r'
    ||| ch == ' '
    ||| ch == '\u{85}'
    ||| ch == '\u{a0}'
    ||| ch == '\u{1680}'
    ||| '\u{2000}' <= ch <= '\u{200a}'
    ||| ch == '\u{2028}'
    ||| ch == '\u{2029}'
    ||| ch == '\u{202f}'
    ||| ch == '\u{205f}'
    ||| ch == '\u{3000}'
}

/// `text` without the longest run at its start of characters that `drop` accepts.
pub open spec fn drop_leading(text: Seq<char>, drop: spec_fn(char) -> bool) -> Seq<char>
    decreases text.len(),
{
    if text.len() > 0 && drop(text.first()) {
        drop_leading(text.drop_first(), drop)
    } else {
        text
    }
}

/// `text` without the longest run at its end of characters that `drop` accepts.
pub open spec fn drop_trailing(text: Seq<char>, drop: spec_fn(char) -> bool) -> Seq<char>
    decreases text.len(),
{
    if text.len() > 0 && drop(text.last()) {
        drop_trailing(text.drop_last(), drop)
    } else {
        text
    }
}

/// `text` without whitespace at its start.
pub open spec fn trimmed_start(text: Seq<char>) -> Seq<char> {
    drop_leading(text, |ch: char| is_whitespace(ch))
}

/// `text` without whitespace at either end.
pub open spec fn trimmed(text: Seq<char>) -> Seq<char> {
    drop_trailing(trimmed_start(text), |ch: char| is_whitespace(ch))
}

/// `ch` is a quotation mark, double or single.
pub open spec fn is_quote(ch: char) -> bool {
    ch == '"' || ch == '\''
}

/// `text` without quotation marks at either end.
pub open spec fn unquoted(text: Seq<char>) -> Seq<char> {
    drop_trailing(drop_leading(text, |ch: char| is_quote(ch)), |ch: char| is_quote(ch))
}

/// `pattern` stands in `text` at the position `at`.
pub open spec fn occurs_at(text: Seq<char>, pattern: Seq<char>, at: int) -> bool {
    &&& 0 <= at
    &&& at + pattern.len() <= text.len()
    &&& text.subrange(at, at + pattern.len()) == pattern
}

/// `pattern` stands somewhere in `text`.
pub open spec fn contains_text(text: Seq<char>, pattern: Seq<char>) -> bool {
    exists|at: int| occurs_at(text, pattern, at)
}

/// The leftmost place from `from` on where `pattern` stands in `text`.
pub open spec fn position(text: Seq<char>, pattern: Seq<char>, from: int) -> Option<int>
    decreases text.len() - from + 1,
{
    if from > text.len() {
        None
    } else if occurs_at(text, pattern, from) {
        Some(from)
    } else {
        position(text, pattern, from + 1)
    }
}

/// `text` begins with `pattern`.
pub open spec fn starts_with(text: Seq<char>, pattern: Seq<char>) -> bool {
    occurs_at(text, pattern, 0)
}

/// Where a text is cut into pieces.
#[derive(Clone, Copy, Debug)]
pub enum Delimiter {
    /// At each occurrence of one character.
    Char(char),
    /// At each whitespace character.
    Whitespace,
}

impl Delimiter {
    /// A piece ends before `ch` and the next one begins after it.
    pub open spec fn cuts(self, ch: char) -> bool {
        match self {
            Delimiter::Char(delimiter) => ch == delimiter,
            Delimiter::Whitespace => is_whitespace(ch),
        }
    }
}

/// The pieces of `text` between its delimiters, empty ones included: one more than there are
/// delimiters.
pub open spec fn pieces(text: Seq<char>, delimiter: Delimiter) -> Seq<Seq<char>>
    decreases text.len(),
{
    if text.len() == 0 {
        seq![Seq::<char>::empty()]
    } else {
        let before = pieces(text.drop_last(), delimiter);
        if delimiter.cuts(text.last()) {
            before.push(Seq::<char>::empty())
        } else {
            before.drop_last().push(before.last().push(text.last()))
        }
    }
}

/// The members of `list` that hold a character.
pub open spec fn non_empty(list: Seq<Seq<char>>) -> Seq<Seq<char>> {
    list.filter(|text: Seq<char>| text.len() > 0)
}

/// `text` without one carriage return at its end.
pub open spec fn without_carriage_return(text: Seq<char>) -> Seq<char> {
    if text.len() > 0 && text.last() == '\r' {
        text.drop_last()
    } else {
        text
    }
}

/// The lines of `text`. A line ends with a line feed, or a carriage return and a line feed;
/// the last one may go without.
pub open spec fn lines_of(text: Seq<char>) -> Seq<Seq<char>> {
    let cut = pieces(text, Delimiter::Char('\n'));
    let ended = cut.drop_last().map_values(|line: Seq<char>| without_carriage_return(line));
    if cut.last().len() == 0 {
        ended
    } else {
        ended.push(cut.last())
    }
}

/// The members of `list` in a row, with `separator` between each two.
pub open spec fn joined(list: Seq<Seq<char>>, separator: Seq<char>) -> Seq<char>
    decreases list.len(),
{
    if list.len() == 0 {
        Seq::empty()
    } else if list.len() == 1 {
        list[0]
    } else {
        joined(list.drop_last(), separator) + separator + list.last()
    }
}

/// `text` with each occurrence of `from`, found from the left without overlap, replaced by
/// `to`.
pub open spec fn replaced(text: Seq<char>, from: Seq<char>, to: Seq<char>) -> Seq<char>
    decreases text.len(),
{
    if text.len() == 0 {
        text
    } else if from.len() > 0 && starts_with(text, from) {
        to + replaced(text.skip(from.len() as int), from, to)
    } else {
        seq![text[0]] + replaced(text.drop_first(), from, to)
    }
}

/// `left` does not come after `right` in the order of the code points of their characters.
pub open spec fn text_le(left: Seq<char>, right: Seq<char>) -> bool
    decreases left.len(),
{
    if left.len() == 0 {
        true
    } else if right.len() == 0 {
        false
    } else if left[0] == right[0] {
        text_le(left.drop_first(), right.drop_first())
    } else {
        left[0] < right[0]
    }
}

pub proof fn lemma_pieces_non_empty(text: Seq<char>, delimiter: Delimiter)
    ensures
        pieces(text, delimiter).len() > 0,
    decreases text.len(),
{
    if text.len() > 0 {
        lemma_pieces_non_empty(text.drop_last(), delimiter);
    }
}

proof fn lemma_drop_leading(text: Seq<char>, drop: spec_fn(char) -> bool)
    ensures
        drop_leading(text, drop).len() > 0 ==> !drop(drop_leading(text, drop).first()),
        forall|i: int|
            0 <= i < drop_leading(text, drop).len() ==> text.contains(
                #[trigger] drop_leading(text, drop)[i],
            ),
    decreases text.len(),
{
    if text.len() > 0 && drop(text.first()) {
        let rest = text.drop_first();
        lemma_drop_leading(rest, drop);
        assert forall|i: int| 0 <= i < drop_leading(text, drop).len() implies text.contains(
            #[trigger] drop_leading(text, drop)[i],
        ) by {
            assert(rest.contains(drop_leading(rest, drop)[i]));
            let at = choose|k: int| 0 <= k < rest.len() && rest[k] == drop_leading(rest, drop)[i];
            assert(text[at + 1] == rest[at]);
        }
    }
}

proof fn lemma_drop_trailing(text: Seq<char>, drop: spec_fn(char) -> bool)
    ensures
        drop_trailing(text, drop).len() <= text.len(),
        drop_trailing(text, drop) == text.take(drop_trailing(text, drop).len() as int),
        drop_trailing(text, drop).len() > 0 ==> !drop(drop_trailing(text, drop).last()),
    decreases text.len(),
{
    if text.len() > 0 && drop(text.last()) {
        let front = text.drop_last();
        lemma_drop_trailing(front, drop);
        let length = drop_trailing(front, drop).len() as int;
        assert(front.take(length) =~= text.take(length));
    } else {
        assert(text.take(text.len() as int) =~= text);
    }
}

/// Trimming a trimmed text changes nothing, and no character comes up that was not there.
pub proof fn trimming_again_changes_nothing(text: Seq<char>)
    ensures
        trimmed(trimmed(text)) == trimmed(text),
        forall|i: int| 0 <= i < trimmed(text).len() ==> text.contains(#[trigger] trimmed(text)[i]),
{
    let space = |ch: char| is_whitespace(ch);
    let start = trimmed_start(text);
    let cut = trimmed(text);
    lemma_drop_leading(text, space);
    lemma_drop_trailing(start, space);
    assert forall|i: int| 0 <= i < cut.len() implies text.contains(#[trigger] cut[i]) by {
        assert(cut[i] == start[i]);
    }
    if cut.len() > 0 {
        assert(cut.first() == start.first());
        assert(trimmed_start(cut) == cut);
        assert(drop_trailing(cut, space) == cut);
    } else {
        assert(trimmed_start(cut) == cut);
    }
}

/// The leftmost place is at `at` where `pattern` stands there and not earlier.
pub proof fn lemma_position_is(text: Seq<char>, pattern: Seq<char>, from: int, at: int)
    requires
        from <= at,
        occurs_at(text, pattern, at),
        forall|k: int| from <= k < at ==> !occurs_at(text, pattern, k),
    ensures
        position(text, pattern, from) == Some(at),
    decreases at - from,
{
    if from < at {
        lemma_position_is(text, pattern, from + 1, at);
    }
}

/// What `position` says of the places in a text.
pub proof fn lemma_position(text: Seq<char>, pattern: Seq<char>, from: int)
    ensures
        match position(text, pattern, from) {
            Some(at) => {
                &&& from <= at
                &&& occurs_at(text, pattern, at)
                &&& forall|k: int| from <= k < at ==> !occurs_at(text, pattern, k)
            },
            None => forall|k: int| from <= k ==> !occurs_at(text, pattern, k),
        },
    decreases text.len() - from + 1,
{
    if from <= text.len() && !occurs_at(text, pattern, from) {
        lemma_position(text, pattern, from + 1);
    }
}

/// A pattern without the last character of `left` does not stand across the end of `left`.
pub proof fn lemma_occurs_beside(left: Seq<char>, right: Seq<char>, pattern: Seq<char>, at: int)
    requires
        occurs_at(left + right, pattern, at),
        left.len() > 0 && !pattern.contains(left.last()) || right.len() > 0 && !pattern.contains(
            right.first(),
        ),
    ensures
        occurs_at(left, pattern, at) || occurs_at(right, pattern, at - left.len()),
{
    let both = left + right;
    let split = left.len() as int;
    let end = (at + pattern.len()) as int;
    if end <= split {
        assert(left.subrange(at, end) =~= both.subrange(at, end));
    } else if at >= split {
        assert(right.subrange(at - split, end - split) =~= both.subrange(at, end));
    } else {
        assert(both.subrange(at, end)[split - 1 - at] == left.last());
        assert(both.subrange(at, end)[split - at] == right.first());
    }
}

/// A pattern that stands in a part of a text stands in the text.
pub proof fn lemma_occurs_within(left: Seq<char>, middle: Seq<char>, right: Seq<char>, pattern: Seq<char>, at: int)
    requires
        occurs_at(middle, pattern, at),
    ensures
        occurs_at(left + middle + right, pattern, left.len() + at),
{
    let all = left + middle + right;
    let from = left.len() + at;
    assert(all.subrange(from, from + pattern.len()) =~= middle.subrange(at, at + pattern.len()));
}

/// No piece holds a delimiter.
pub proof fn lemma_pieces_are_uncut(text: Seq<char>, delimiter: Delimiter, piece: int, at: int)
    requires
        0 <= piece < pieces(text, delimiter).len(),
        0 <= at < pieces(text, delimiter)[piece].len(),
    ensures
        !delimiter.cuts(pieces(text, delimiter)[piece][at]),
        text.contains(pieces(text, delimiter)[piece][at]),
    decreases text.len(),
{
    if text.len() > 0 {
        let before = pieces(text.drop_last(), delimiter);
        lemma_pieces_non_empty(text.drop_last(), delimiter);
        if piece < before.len() && at < before[piece].len() {
            lemma_pieces_are_uncut(text.drop_last(), delimiter, piece, at);
            let ch = before[piece][at];
            let k = choose|k: int| 0 <= k < text.drop_last().len() && text.drop_last()[k] == ch;
            assert(text[k] == ch);
        } else {
            assert(text[text.len() - 1] == text.last());
        }
    }
}

/// Where a delimiter stands between two texts, their pieces stand one after the other.
pub proof fn lemma_pieces_concat(
    left: Seq<char>,
    ch: char,
    right: Seq<char>,
    delimiter: Delimiter,
)
    requires
        delimiter.cuts(ch),
    ensures
        pieces(left + seq![ch] + right, delimiter) == pieces(left, delimiter) + pieces(
            right,
            delimiter,
        ),
    decreases right.len(),
{
    let both = left + seq![ch] + right;
    let all = pieces(left, delimiter) + pieces(right, delimiter);
    if right.len() == 0 {
        assert(both.drop_last() =~= left);
        assert(pieces(both, delimiter) =~= all);
    } else {
        lemma_pieces_concat(left, ch, right.drop_last(), delimiter);
        lemma_pieces_non_empty(right.drop_last(), delimiter);
        assert(both.drop_last() =~= left + seq![ch] + right.drop_last());
        assert(pieces(both, delimiter) =~= all);
    }
}

/// A text without a delimiter is one piece.
pub proof fn lemma_pieces_of_one(text: Seq<char>, delimiter: Delimiter)
    requires
        forall|i: int| 0 <= i < text.len() ==> !delimiter.cuts(#[trigger] text[i]),
    ensures
        pieces(text, delimiter) == seq![text],
    decreases text.len(),
{
    if text.len() > 0 {
        let front = text.drop_last();
        assert forall|i: int| 0 <= i < front.len() implies !delimiter.cuts(
            #[trigger] front[i],
        ) by {
            assert(front[i] == text[i]);
        }
        lemma_pieces_of_one(front, delimiter);
        assert(!delimiter.cuts(text[text.len() - 1]));
        assert(front.push(text.last()) =~= text);
        assert(pieces(text, delimiter) =~= seq![text]);
    } else {
        assert(text =~= Seq::<char>::empty());
        assert(pieces(text, delimiter) =~= seq![text]);
    }
}

/// Texts without a delimiter are the pieces of what comes out when they are joined with one.
pub proof fn lemma_pieces_of_joined(list: Seq<Seq<char>>, ch: char, delimiter: Delimiter)
    requires
        delimiter.cuts(ch),
        list.len() > 0,
        forall|i: int, at: int|
            0 <= i < list.len() && 0 <= at < list[i].len() ==> !delimiter.cuts(
                #[trigger] list[i][at],
            ),
    ensures
        pieces(joined(list, seq![ch]), delimiter) == list,
    decreases list.len(),
{
    if list.len() == 1 {
        lemma_pieces_of_one(list[0], delimiter);
        assert(list =~= seq![list[0]]);
    } else {
        let front = list.drop_last();
        let last = list[list.len() - 1];
        assert forall|i: int, at: int| 0 <= i < front.len() && 0 <= at < front[i].len() implies
            !delimiter.cuts(#[trigger] front[i][at]) by {
            assert(front[i] == list[i]);
            assert(!delimiter.cuts(list[i][at]));
        }
        lemma_pieces_of_joined(front, ch, delimiter);
        lemma_pieces_concat(joined(front, seq![ch]), ch, last, delimiter);
        lemma_pieces_of_one(last, delimiter);
        assert(front + seq![last] =~= list);
    }
}

/// A filter that accepts all members of a list keeps the list.
pub proof fn lemma_filter_keeps_all(list: Seq<Seq<char>>, keep: spec_fn(Seq<char>) -> bool)
    requires
        forall|i: int| 0 <= i < list.len() ==> keep(#[trigger] list[i]),
    ensures
        list.filter(keep) == list,
    decreases list.len(),
{
    reveal(Seq::filter);
    if list.len() > 0 {
        let front = list.drop_last();
        assert forall|i: int| 0 <= i < front.len() implies keep(#[trigger] front[i]) by {
            assert(front[i] == list[i]);
        }
        lemma_filter_keeps_all(front, keep);
        assert(keep(list[list.len() - 1]));
        assert(front.push(list.last()) =~= list);
    }
}

pub proof fn lemma_joined_push(list: Seq<Seq<char>>, item: Seq<char>, separator: Seq<char>)
    ensures
        list.len() > 0 ==> joined(list.push(item), separator) == joined(list, separator)
            + separator + item,
        list.len() == 0 ==> joined(list.push(item), separator) == item,
{
    assert(list.push(item).drop_last() == list);
}

pub proof fn lemma_joined_extend(list: Seq<Seq<char>>, ch: char, separator: Seq<char>)
    requires
        list.len() > 0,
    ensures
        joined(list.drop_last().push(list.last().push(ch)), separator) == joined(
            list,
            separator,
        ).push(ch),
{
    let front = list.drop_last();
    lemma_joined_push(front, list.last().push(ch), separator);
    lemma_joined_push(front, list.last(), separator);
    assert(front.push(list.last()) == list);
    assert(joined(front.push(list.last().push(ch)), separator) =~= joined(list, separator).push(
        ch,
    ));
}

/// Cutting a text at a character and joining the pieces with that character gives the text.
pub proof fn pieces_join_back(text: Seq<char>, delimiter: char)
    ensures
        joined(pieces(text, Delimiter::Char(delimiter)), seq![delimiter]) == text,
    decreases text.len(),
{
    let cut = pieces(text, Delimiter::Char(delimiter));
    if text.len() == 0 {
        assert(cut =~= seq![Seq::<char>::empty()]);
        assert(cut[0] =~= text);
    } else {
        let front = text.drop_last();
        let before = pieces(front, Delimiter::Char(delimiter));
        pieces_join_back(front, delimiter);
        lemma_pieces_non_empty(front, Delimiter::Char(delimiter));
        if text.last() == delimiter {
            lemma_joined_push(before, Seq::<char>::empty(), seq![delimiter]);
            assert(front + seq![delimiter] + Seq::<char>::empty() =~= text);
        } else {
            lemma_joined_extend(before, text.last(), seq![delimiter]);
            assert(front.push(text.last()) =~= text);
        }
    }
}

/// The characters of a text, one after the other.
pub fn chars_of(text: &str) -> (chars: Vec<char>)
    ensures
        chars@ == text@,
{
    let mut chars: Vec<char> = Vec::new();
    for ch in it: text.chars()
        invariant
            it.seq() == text@,
            chars@ == text@.take(it.index() as int),
    {
        chars.push(ch);
    }
    chars
}

/// The text made of the characters from `from` up to `to`.
pub fn text_between(chars: &Vec<char>, from: usize, to: usize) -> (text: String)
    requires
        from <= to <= chars@.len(),
    ensures
        text@ == chars@.subrange(from as int, to as int),
{
    let mut text = String::new();
    let mut i: usize = from;
    while i < to
        invariant
            from <= i <= to <= chars@.len(),
            text@ == chars@.subrange(from as int, i as int),
        decreases to - i,
    {
        text.push(chars[i]);
        i += 1;
    }
    text
}

/// Whether a character is whitespace.
pub fn whitespace(ch: char) -> (yes: bool)
    ensures
        yes == is_whitespace(ch),
{
    ('\t' <= ch && ch <= '\r') || ch == ' ' || ch == '\u{85}' || ch == '\u{a0}' || ch
        == '\u{1680}' || ('\u{2000}' <= ch && ch <= '\u{200a}') || ch == '\u{2028}' || ch
        == '\u{2029}' || ch == '\u{202f}' || ch == '\u{205f}' || ch == '\u{3000}'
}

/// The text without whitespace at its start.
pub fn trim_start(text: &str) -> (kept: String)
    ensures
        kept@ == trimmed_start(text@),
{
    let chars = chars_of(text);
    let mut from: usize = 0;
    assert(chars@.skip(0) == text@);
    while from < chars.len() && whitespace(chars[from])
        invariant
            from <= chars@.len(),
            trimmed_start(text@) == trimmed_start(chars@.skip(from as int)),
        decreases chars@.len() - from,
    {
        assert(chars@.skip(from as int).drop_first() == chars@.skip(from + 1));
        from += 1;
    }
    assert(chars@.skip(from as int) == chars@.subrange(from as int, chars@.len() as int));
    text_between(&chars, from, chars.len())
}

/// The text without whitespace at either end.
pub fn trim(text: &str) -> (kept: String)
    ensures
        kept@ == trimmed(text@),
{
    let start = trim_start(text);
    let chars = chars_of(start.as_str());
    let mut to: usize = chars.len();
    let ghost space = |ch: char| is_whitespace(ch);
    assert(chars@.take(to as int) == start@);
    while to > 0 && whitespace(chars[to - 1])
        invariant
            to <= chars@.len(),
            space == (|ch: char| is_whitespace(ch)),
            drop_trailing(start@, space) == drop_trailing(chars@.take(to as int), space),
        decreases to,
    {
        assert(chars@.take(to as int).drop_last() == chars@.take(to - 1));
        to -= 1;
    }
    assert(chars@.take(to as int) == chars@.subrange(0, to as int));
    text_between(&chars, 0, to)
}

/// The text without quotation marks at either end.
pub fn trim_quotes(text: &str) -> (kept: String)
    ensures
        kept@ == unquoted(text@),
{
    let chars = chars_of(text);
    let ghost quote = |ch: char| is_quote(ch);
    let mut from: usize = 0;
    assert(chars@.skip(0) == text@);
    while from < chars.len() && (chars[from] == '"' || chars[from] == '\'')
        invariant
            from <= chars@.len(),
            quote == (|ch: char| is_quote(ch)),
            drop_leading(text@, quote) == drop_leading(chars@.skip(from as int), quote),
        decreases chars@.len() - from,
    {
        assert(chars@.skip(from as int).drop_first() == chars@.skip(from + 1));
        from += 1;
    }
    let mut to: usize = chars.len();
    let ghost start = chars@.skip(from as int);
    assert(chars@.subrange(from as int, to as int) == start);
    while to > from && (chars[to - 1] == '"' || chars[to - 1] == '\'')
        invariant
            from <= to <= chars@.len(),
            quote == (|ch: char| is_quote(ch)),
            drop_trailing(start, quote) == drop_trailing(
                chars@.subrange(from as int, to as int),
                quote,
            ),
        decreases to,
    {
        assert(chars@.subrange(from as int, to as int).drop_last() == chars@.subrange(
            from as int,
            to - 1,
        ));
        to -= 1;
    }
    text_between(&chars, from, to)
}

/// The text without a character at its end, as often as it stands there.
pub fn trim_end_matches(text: &str, excess: char) -> (kept: String)
    ensures
        kept@ == drop_trailing(text@, |ch: char| ch == excess),
{
    let chars = chars_of(text);
    let ghost drop = |ch: char| ch == excess;
    let mut to: usize = chars.len();
    assert(chars@.take(to as int) == text@);
    while to > 0 && chars[to - 1] == excess
        invariant
            to <= chars@.len(),
            drop == (|ch: char| ch == excess),
            drop_trailing(text@, drop) == drop_trailing(chars@.take(to as int), drop),
        decreases to,
    {
        assert(chars@.take(to as int).drop_last() == chars@.take(to - 1));
        to -= 1;
    }
    assert(chars@.take(to as int) == chars@.subrange(0, to as int));
    text_between(&chars, 0, to)
}

/// Whether `pattern` stands in `chars` at `at`.
pub fn stands_at(chars: &Vec<char>, pattern: &Vec<char>, at: usize) -> (yes: bool)
    ensures
        yes == occurs_at(chars@, pattern@, at as int),
{
    if at > chars.len() || pattern.len() > chars.len() - at {
        return false;
    }
    let mut i: usize = 0;
    while i < pattern.len()
        invariant
            i <= pattern@.len(),
            at + pattern.len() <= chars.len(),
            forall|k: int| 0 <= k < i ==> chars@[at + k] == #[trigger] pattern@[k],
        decreases pattern@.len() - i,
    {
        if chars[at + i] != pattern[i] {
            assert(chars@.subrange(at as int, at + pattern@.len())[i as int] != pattern@[i as int]);
            return false;
        }
        i += 1;
    }
    assert(chars@.subrange(at as int, at + pattern@.len()) =~= pattern@);
    true
}

/// The leftmost place at or after `from` where `pattern` stands in `chars`.
pub fn find_from(chars: &Vec<char>, pattern: &Vec<char>, from: usize) -> (found: Option<usize>)
    requires
        from <= chars@.len(),
    ensures
        match found {
            Some(at) => position(chars@, pattern@, from as int) == Some(at as int),
            None => position(chars@, pattern@, from as int) is None,
        },
{
    let mut at: usize = from;
    loop
        invariant
            from <= at <= chars@.len(),
            position(chars@, pattern@, from as int) == position(chars@, pattern@, at as int),
        decreases chars@.len() - at,
    {
        if stands_at(chars, pattern, at) {
            return Some(at);
        }
        if at == chars.len() {
            assert(position(chars@, pattern@, at + 1) is None);
            return None;
        }
        at += 1;
    }
}

/// Whether `pattern` stands somewhere in `text`.
pub fn text_contains(text: &str, pattern: &str) -> (yes: bool)
    ensures
        yes == contains_text(text@, pattern@),
{
    let chars = chars_of(text);
    let pattern = chars_of(pattern);
    proof {
        lemma_position(chars@, pattern@, 0);
    }
    find_from(&chars, &pattern, 0).is_some()
}

/// Whether `text` begins with `pattern`.
pub fn text_starts_with(text: &str, pattern: &str) -> (yes: bool)
    ensures
        yes == starts_with(text@, pattern@),
{
    let chars = chars_of(text);
    let pattern = chars_of(pattern);
    stands_at(&chars, &pattern, 0)
}

/// Whether `ch` is the last character of `text`.
pub fn text_ends_with(text: &str, ch: char) -> (yes: bool)
    ensures
        yes == (text@.len() > 0 && text@.last() == ch),
{
    let chars = chars_of(text);
    chars.len() > 0 && chars[chars.len() - 1] == ch
}

impl Delimiter {
    /// Whether a piece ends at `ch`.
    pub fn is_cut(self, ch: char) -> (yes: bool)
        ensures
            yes == self.cuts(ch),
    {
        match self {
            Delimiter::Char(delimiter) => ch == delimiter,
            Delimiter::Whitespace => whitespace(ch),
        }
    }
}

/// The pieces of `text` between its delimiters.
pub fn split(text: &str, delimiter: Delimiter) -> (cut: Vec<String>)
    ensures
        texts(cut@) == pieces(text@, delimiter),
{
    let chars = chars_of(text);
    let mut cut: Vec<String> = Vec::new();
    let mut piece = String::new();
    let mut i: usize = 0;
    assert(texts(cut@).push(piece@) =~= pieces(chars@.take(0), delimiter));
    while i < chars.len()
        invariant
            i <= chars@.len(),
            texts(cut@).push(piece@) == pieces(chars@.take(i as int), delimiter),
        decreases chars@.len() - i,
    {
        let ch = chars[i];
        let ghost before = texts(cut@).push(piece@);
        proof {
            assert(chars@.take(i + 1).drop_last() == chars@.take(i as int));
            assert(before.drop_last() == texts(cut@));
            assert(before.last() == piece@);
        }
        if delimiter.is_cut(ch) {
            cut.push(piece);
            assert(texts(cut@) =~= before);
            piece = String::new();
        } else {
            piece.push(ch);
        }
        i += 1;
    }
    let ghost before = texts(cut@).push(piece@);
    cut.push(piece);
    assert(texts(cut@) =~= before);
    assert(chars@.take(i as int) == text@);
    cut
}

/// The members of a list that hold a character, in their order.
pub fn keep_non_empty(list: Vec<String>) -> (kept: Vec<String>)
    ensures
        texts(kept@) == non_empty(texts(list@)),
{
    let mut kept: Vec<String> = Vec::new();
    let ghost all = texts(list@);
    let ghost filled = |text: Seq<char>| text.len() > 0;
    let mut i: usize = 0;
    while i < list.len()
        invariant
            i <= list@.len(),
            all == texts(list@),
            filled == (|text: Seq<char>| text.len() > 0),
            texts(kept@) == all.take(i as int).filter(filled),
        decreases list@.len() - i,
    {
        let ghost before = texts(kept@);
        proof {
            reveal(Seq::filter);
            assert(all.take(i + 1).drop_last() == all.take(i as int));
            assert(all[i as int] == list@[i as int]@);
        }
        if !list[i].as_str().is_empty() {
            kept.push(list[i].clone());
            assert(texts(kept@) =~= before.push(list@[i as int]@));
        }
        i += 1;
    }
    assert(all.take(i as int) == all);
    kept
}

/// Each text of a list without whitespace at either end.
pub fn trim_each(list: &[String]) -> (trimmed_list: Vec<String>)
    ensures
        texts(trimmed_list@) == texts(list@).map_values(|text: Seq<char>| trimmed(text)),
{
    let mut done: Vec<String> = Vec::new();
    let mut i: usize = 0;
    while i < list.len()
        invariant
            i <= list@.len(),
            done@.len() == i,
            forall|k: int| 0 <= k < i ==> #[trigger] done@[k]@ == trimmed(list@[k]@),
        decreases list@.len() - i,
    {
        done.push(trim(list[i].as_str()));
        i += 1;
    }
    assert(texts(done@) =~= texts(list@).map_values(|text: Seq<char>| trimmed(text)));
    done
}

/// The lines of `text`.
pub fn lines(text: &str) -> (list: Vec<String>)
    ensures
        texts(list@) == lines_of(text@),
{
    let mut cut = split(text, Delimiter::Char('\n'));
    let ghost all = pieces(text@, Delimiter::Char('\n'));
    proof {
        lemma_pieces_non_empty(text@, Delimiter::Char('\n'));
        assert(texts(cut@).len() == cut@.len());
    }
    let mut list: Vec<String> = Vec::new();
    let mut i: usize = 0;
    while i < cut.len() - 1
        invariant
            0 <= i < cut@.len(),
            texts(cut@) == all,
            all == pieces(text@, Delimiter::Char('\n')),
            list@.len() == i,
            forall|k: int| 0 <= k < i ==> #[trigger] list@[k]@ == without_carriage_return(all[k]),
        decreases cut@.len() - i,
    {
        let chars = chars_of(cut[i].as_str());
        assert(all[i as int] == cut@[i as int]@);
        let to: usize = if chars.len() > 0 && chars[chars.len() - 1] == '\r' {
            chars.len() - 1
        } else {
            chars.len()
        };
        assert(chars@.subrange(0, to as int) =~= without_carriage_return(all[i as int]));
        list.push(text_between(&chars, 0, to));
        i += 1;
    }
    let ghost ended = all.drop_last().map_values(|line: Seq<char>| without_carriage_return(line));
    assert(texts(list@) =~= ended);
    let last = cut[i].clone();
    assert(last@ == all.last());
    if !last.as_str().is_empty() {
        list.push(last);
        assert(texts(list@) =~= ended.push(all.last()));
    }
    list
}

/// The texts of a list in a row, with `separator` between each two.
pub fn join(list: &Vec<String>, separator: &str) -> (text: String)
    ensures
        text@ == joined(texts(list@), separator@),
{
    let mut text = String::new();
    let ghost all = texts(list@);
    let mut i: usize = 0;
    while i < list.len()
        invariant
            i <= list@.len(),
            all == texts(list@),
            text@ == joined(all.take(i as int), separator@),
        decreases list@.len() - i,
    {
        assert(all.take(i + 1).drop_last() == all.take(i as int));
        assert(all[i as int] == list@[i as int]@);
        if i > 0 {
            text.append(separator);
        }
        let ghost before = text@;
        text.append(list[i].as_str());
        proof {
            if i == 0 {
                assert(before =~= Seq::<char>::empty());
                assert(text@ =~= all[0]);
            }
        }
        i += 1;
    }
    assert(all.take(i as int) == all);
    text
}

/// `text` with each occurrence of `from` replaced by `to`.
pub fn replace(text: &str, from: &str, to: &str) -> (result: String)
    requires
        from@.len() > 0,
    ensures
        result@ == replaced(text@, from@, to@),
{
    let chars = chars_of(text);
    let pattern = chars_of(from);
    let mut result = String::new();
    let mut i: usize = 0;
    assert(chars@.skip(0) == text@);
    while i < chars.len()
        invariant
            i <= chars@.len(),
            pattern@ == from@,
            from@.len() > 0,
            replaced(text@, from@, to@) == result@ + replaced(chars@.skip(i as int), from@, to@),
        decreases chars@.len() - i,
    {
        let ghost rest = chars@.skip(i as int);
        let ghost before = result@;
        proof {
            if i + from@.len() <= chars@.len() {
                assert(rest.subrange(0, from@.len() as int) == chars@.subrange(
                    i as int,
                    i + from@.len(),
                ));
            }
        }
        if stands_at(&chars, &pattern, i) {
            result.append(to);
            assert(rest.skip(from@.len() as int) == chars@.skip(i + from@.len()));
            i += pattern.len();
            assert(before + (to@ + replaced(chars@.skip(i as int), from@, to@)) =~= result@
                + replaced(chars@.skip(i as int), from@, to@));
        } else {
            result.push(chars[i]);
            assert(rest.drop_first() == chars@.skip(i + 1));
            i += 1;
            assert(before + (seq![rest[0]] + replaced(chars@.skip(i as int), from@, to@))
                =~= result@ + replaced(chars@.skip(i as int), from@, to@));
        }
    }
    assert(chars@.skip(i as int) =~= Seq::<char>::empty());
    assert(result@ + Seq::<char>::empty() =~= result@);
    result
}

/// Whether `left` does not come after `right` in the order of code points.
pub fn in_order(left: &str, right: &str) -> (yes: bool)
    ensures
        yes == text_le(left@, right@),
{
    let a = chars_of(left);
    let b = chars_of(right);
    let mut i: usize = 0;
    assert(a@.skip(0) == left@);
    assert(b@.skip(0) == right@);
    while i < a.len() && i < b.len() && a[i] == b[i]
        invariant
            i <= a@.len(),
            i <= b@.len(),
            text_le(left@, right@) == text_le(a@.skip(i as int), b@.skip(i as int)),
        decreases a@.len() - i,
    {
        assert(a@.skip(i as int).drop_first() == a@.skip(i + 1));
        assert(b@.skip(i as int).drop_first() == b@.skip(i + 1));
        i += 1;
    }
    if i == a.len() {
        true
    } else if i == b.len() {
        false
    } else {
        a[i] < b[i]
    }
}

/// The members of a list that differ from a text, in their order.
pub fn without(list: &Vec<String>, excluded: &str) -> (kept: Vec<String>)
    ensures
        texts(kept@) == texts(list@).filter(|text: Seq<char>| text != excluded@),
{
    let ghost all = texts(list@);
    let ghost other = |text: Seq<char>| text != excluded@;
    let mut kept: Vec<String> = Vec::new();
    let mut i: usize = 0;
    assert(texts(kept@) =~= all.take(0).filter(other)) by {
        reveal(Seq::filter);
    }
    while i < list.len()
        invariant
            i <= list@.len(),
            all == texts(list@),
            other == (|text: Seq<char>| text != excluded@),
            texts(kept@) == all.take(i as int).filter(other),
        decreases list@.len() - i,
    {
        let ghost before = texts(kept@);
        proof {
            reveal(Seq::filter);
            assert(all.take(i + 1).drop_last() == all.take(i as int));
            assert(all[i as int] == list@[i as int]@);
        }
        if *list[i].as_str() != *excluded {
            kept.push(list[i].clone());
            assert(texts(kept@) =~= before.push(list@[i as int]@));
        }
        i += 1;
    }
    assert(all.take(i as int) == all);
    kept
}

/// Copies of the texts of a list.
pub fn copy_texts(list: &[String]) -> (copy: Vec<String>)
    ensures
        texts(copy@) == texts(list@),
{
    let mut copy: Vec<String> = Vec::new();
    let mut i: usize = 0;
    while i < list.len()
        invariant
            i <= list@.len(),
            copy@.len() == i,
            forall|k: int| 0 <= k < i ==> #[trigger] copy@[k] == list@[k],
        decreases list@.len() - i,
    {
        copy.push(list[i].clone());
        i += 1;
    }
    assert(texts(copy@) =~= texts(list@));
    copy
}

/// The first place of a text in a list.
pub open spec fn place_of(list: Seq<Seq<char>>, text: Seq<char>) -> Option<int>
    decreases list.len(),
{
    if list.len() == 0 {
        None
    } else {
        match place_of(list.drop_last(), text) {
            Some(place) => Some(place),
            None => if list.last() == text {
                Some(list.len() - 1)
            } else {
                None
            },
        }
    }
}

/// The first place of a text in a list.
pub fn index_of(list: &[String], text: &str) -> (place: Option<usize>)
    ensures
        match place {
            Some(place) => place < list@.len() && place_of(texts(list@), text@) == Some(
                place as int,
            ),
            None => place_of(texts(list@), text@) is None,
        },
{
    let ghost all = texts(list@);
    let mut i: usize = 0;
    while i < list.len()
        invariant
            i <= list@.len(),
            all == texts(list@),
            place_of(all.take(i as int), text@) is None,
        decreases list@.len() - i,
    {
        proof {
            assert(all.take(i + 1).drop_last() == all.take(i as int));
            assert(all.take(i + 1).last() == list@[i as int]@);
        }
        if *list[i].as_str() == *text {
            proof {
                lemma_place_stays(all, i + 1, text@);
            }
            return Some(i);
        }
        i += 1;
    }
    assert(all.take(i as int) == all);
    None
}

proof fn lemma_place_stays(list: Seq<Seq<char>>, count: int, text: Seq<char>)
    requires
        0 <= count <= list.len(),
        place_of(list.take(count), text) is Some,
    ensures
        place_of(list, text) == place_of(list.take(count), text),
    decreases list.len() - count,
{
    if count == list.len() {
        assert(list.take(count) == list);
    } else {
        assert(list.take(count + 1).drop_last() == list.take(count));
        lemma_place_stays(list, count + 1, text);
    }
}

/// Whitespace is what Unicode counts as such, and nothing else.
pub proof fn whitespace_is_that_of_unicode(ch: char)
    ensures
        is_whitespace(ch) <==> seq![
            0x9u32, 0xa, 0xb, 0xc, 0xd, 0x20, 0x85, 0xa0, 0x1680, 0x2000, 0x2001, 0x2002, 0x2003,
            0x2004, 0x2005, 0x2006, 0x2007, 0x2008, 0x2009, 0x200a, 0x2028, 0x2029, 0x202f, 0x205f,
            0x3000,
        ].contains(ch as u32),
{
    let points = seq![
        0x9u32, 0xa, 0xb, 0xc, 0xd, 0x20, 0x85, 0xa0, 0x1680, 0x2000, 0x2001, 0x2002, 0x2003,
        0x2004, 0x2005, 0x2006, 0x2007, 0x2008, 0x2009, 0x200a, 0x2028, 0x2029, 0x202f, 0x205f,
        0x3000,
    ];
    let point = ch as u32;
    if is_whitespace(ch) {
        let at: int = if point <= 0xd {
            point - 9
        } else if point == 0x20 {
            5
        } else if point == 0x85 {
            6
        } else if point == 0xa0 {
            7
        } else if point == 0x1680 {
            8
        } else if point <= 0x200a {
            9 + (point - 0x2000)
        } else if point == 0x2028 {
            20
        } else if point == 0x2029 {
            21
        } else if point == 0x202f {
            22
        } else if point == 0x205f {
            23
        } else {
            24
        };
        assert(points[at] == point);
    }
}

/// `part` is `text` without a run of characters at each end that `drop` accepts, and neither its
/// first nor its last character is one of those.
pub open spec fn is_middle(
    text: Seq<char>,
    part: Seq<char>,
    drop: spec_fn(char) -> bool,
) -> bool {
    &&& part.len() > 0 ==> !drop(part.first()) && !drop(part.last())
    &&& exists|left: Seq<char>, right: Seq<char>|
        {
            &&& text == #[trigger] (left + part + right)
            &&& forall|i: int| 0 <= i < left.len() ==> drop(#[trigger] left[i])
            &&& forall|i: int| 0 <= i < right.len() ==> drop(#[trigger] right[i])
        }
}

proof fn lemma_leading_run(text: Seq<char>, drop: spec_fn(char) -> bool)
    ensures
        drop_leading(text, drop).len() <= text.len(),
        drop_leading(text, drop) == text.skip((text.len() - drop_leading(text, drop).len()) as int),
        forall|i: int|
            0 <= i < text.len() - drop_leading(text, drop).len() ==> drop(#[trigger] text[i]),
        drop_leading(text, drop).len() > 0 ==> !drop(drop_leading(text, drop).first()),
    decreases text.len(),
{
    let kept = drop_leading(text, drop);
    if text.len() > 0 && drop(text.first()) {
        let rest = text.drop_first();
        lemma_leading_run(rest, drop);
        let gone = rest.len() - kept.len();
        assert(rest.skip(gone) =~= text.skip(gone + 1));
        assert forall|i: int| 0 <= i < text.len() - kept.len() implies drop(
            #[trigger] text[i],
        ) by {
            if i > 0 {
                assert(text[i] == rest[i - 1]);
            }
        }
    } else {
        assert(text.skip(0) =~= text);
    }
}

proof fn lemma_trailing_run(text: Seq<char>, drop: spec_fn(char) -> bool)
    ensures
        drop_trailing(text, drop).len() <= text.len(),
        drop_trailing(text, drop) == text.take(drop_trailing(text, drop).len() as int),
        forall|i: int|
            drop_trailing(text, drop).len() <= i < text.len() ==> drop(#[trigger] text[i]),
        drop_trailing(text, drop).len() > 0 ==> !drop(drop_trailing(text, drop).last()),
    decreases text.len(),
{
    let kept = drop_trailing(text, drop);
    if text.len() > 0 && drop(text.last()) {
        let front = text.drop_last();
        lemma_trailing_run(front, drop);
        assert(front.take(kept.len() as int) =~= text.take(kept.len() as int));
        assert forall|i: int| kept.len() <= i < text.len() implies drop(#[trigger] text[i]) by {
            if i < front.len() {
                assert(text[i] == front[i]);
            }
        }
    } else {
        assert(text.take(text.len() as int) =~= text);
    }
}

proof fn lemma_both_runs(text: Seq<char>, drop: spec_fn(char) -> bool)
    ensures
        is_middle(text, drop_trailing(drop_leading(text, drop), drop), drop),
{
    let start = drop_leading(text, drop);
    let part = drop_trailing(start, drop);
    lemma_leading_run(text, drop);
    lemma_trailing_run(start, drop);
    let gone = text.len() - start.len();
    let left = text.take(gone);
    let right = start.skip(part.len() as int);
    assert(text =~= left + part + right);
    assert forall|i: int| 0 <= i < left.len() implies drop(#[trigger] left[i]) by {
        assert(left[i] == text[i]);
    }
    assert forall|i: int| 0 <= i < right.len() implies drop(#[trigger] right[i]) by {
        assert(right[i] == start[part.len() + i]);
    }
    if part.len() > 0 {
        assert(part.first() == start.first());
    }
}

/// Trimming takes away whitespace alone, and all of it at either end.
pub proof fn trimming_takes_away_whitespace(text: Seq<char>)
    ensures
        is_middle(text, trimmed(text), |ch: char| is_whitespace(ch)),
        trimmed_start(text).len() > 0 ==> !is_whitespace(trimmed_start(text).first()),
        exists|left: Seq<char>|
            {
                &&& text == #[trigger] (left + trimmed_start(text))
                &&& forall|i: int| 0 <= i < left.len() ==> is_whitespace(#[trigger] left[i])
            },
{
    let space = |ch: char| is_whitespace(ch);
    lemma_both_runs(text, space);
    lemma_leading_run(text, space);
    let left = text.take(text.len() - trimmed_start(text).len());
    assert(text =~= left + trimmed_start(text));
    assert forall|i: int| 0 <= i < left.len() implies is_whitespace(#[trigger] left[i]) by {
        assert(left[i] == text[i]);
        assert(space(text[i]));
    }
}

/// Taking quotation marks away takes away all that stand at either end, and nothing else.
pub proof fn unquoting_takes_away_quotation_marks(text: Seq<char>)
    ensures
        is_middle(text, unquoted(text), |ch: char| ch == '"' || ch == '\''),
{
    let quote = |ch: char| is_quote(ch);
    let mark = |ch: char| ch == '"' || ch == '\'';
    assert(quote =~= mark);
    lemma_both_runs(text, quote);
}

/// Two texts that are both the middle of a text are the same.
pub proof fn middle_is_one(
    text: Seq<char>,
    part: Seq<char>,
    other: Seq<char>,
    drop: spec_fn(char) -> bool,
)
    requires
        is_middle(text, part, drop),
        is_middle(text, other, drop),
    ensures
        part == other,
{
    let (left, right) = choose|left: Seq<char>, right: Seq<char>|
        {
            &&& text == #[trigger] (left + part + right)
            &&& forall|i: int| 0 <= i < left.len() ==> drop(#[trigger] left[i])
            &&& forall|i: int| 0 <= i < right.len() ==> drop(#[trigger] right[i])
        };
    let (before, after) = choose|left: Seq<char>, right: Seq<char>|
        {
            &&& text == #[trigger] (left + other + right)
            &&& forall|i: int| 0 <= i < left.len() ==> drop(#[trigger] left[i])
            &&& forall|i: int| 0 <= i < right.len() ==> drop(#[trigger] right[i])
        };
    let start = left.len() as int;
    let end = (start + part.len()) as int;
    let other_start = before.len() as int;
    let other_end = (other_start + other.len()) as int;
    assert forall|i: int| 0 <= i < text.len() && !(start <= i < end) implies drop(
        #[trigger] text[i],
    ) by {
        if i < start {
            assert(text[i] == left[i]);
        } else {
            assert(text[i] == right[i - end]);
        }
    }
    assert forall|i: int| 0 <= i < text.len() && !(other_start <= i < other_end) implies drop(
        #[trigger] text[i],
    ) by {
        if i < other_start {
            assert(text[i] == before[i]);
        } else {
            assert(text[i] == after[i - other_end]);
        }
    }
    if part.len() > 0 {
        assert(text[start] == part.first());
        assert(text[end - 1] == part.last());
    }
    if other.len() > 0 {
        assert(text[other_start] == other.first());
        assert(text[other_end - 1] == other.last());
    }
    if part.len() > 0 || other.len() > 0 {
        assert(start == other_start && end == other_end);
        assert(part =~= text.subrange(start, end));
        assert(other =~= text.subrange(other_start, other_end));
    } else {
        assert(part =~= other);
    }
}

/// A pattern stands in a text if and only if the text is something, the pattern, and something
/// after it. It stands at the start where there is nothing before it.
pub proof fn contained_text_has_a_place(text: Seq<char>, pattern: Seq<char>)
    ensures
        contains_text(text, pattern) <==> exists|left: Seq<char>, right: Seq<char>|
            text == #[trigger] (left + pattern + right),
        starts_with(text, pattern) <==> exists|right: Seq<char>| text == #[trigger] (pattern
            + right),
{
    if contains_text(text, pattern) {
        let at = choose|at: int| occurs_at(text, pattern, at);
        assert(text =~= text.take(at) + pattern + text.skip(at + pattern.len()));
    }
    if exists|left: Seq<char>, right: Seq<char>| text == #[trigger] (left + pattern + right) {
        let (left, right) = choose|left: Seq<char>, right: Seq<char>|
            text == #[trigger] (left + pattern + right);
        let at = left.len() as int;
        assert(text.subrange(at, at + pattern.len()) =~= pattern);
        assert(occurs_at(text, pattern, at));
    }
    if starts_with(text, pattern) {
        assert(text =~= pattern + text.skip(pattern.len() as int));
    }
    if exists|right: Seq<char>| text == #[trigger] (pattern + right) {
        let right = choose|right: Seq<char>| text == #[trigger] (pattern + right);
        assert(text.subrange(0, pattern.len() as int) =~= pattern);
    }
}

/// The lines of a text that begins with a line and a line feed are that line, without a carriage
/// return at its end, and then the lines of the rest. A text without a line feed is one line,
/// and an empty text has none.
pub proof fn lines_end_with_line_feeds(line: Seq<char>, rest: Seq<char>)
    requires
        !line.contains('\n'),
    ensures
        lines_of(line + seq!['\n'] + rest) == seq![
            if line.len() > 0 && line.last() == '\r' {
                line.drop_last()
            } else {
                line
            },
        ] + lines_of(rest),
        line.len() > 0 ==> lines_of(line) == seq![line],
        lines_of(Seq::empty()) == Seq::<Seq<char>>::empty(),
{
    let feed = Delimiter::Char('\n');
    let whole = line + seq!['\n'] + rest;
    lemma_pieces_concat(line, '\n', rest, feed);
    assert forall|i: int| 0 <= i < line.len() implies !feed.cuts(#[trigger] line[i]) by {
        assert(line.contains(line[i]));
    }
    lemma_pieces_of_one(line, feed);
    lemma_pieces_non_empty(rest, feed);
    let cut = pieces(rest, feed);
    assert(pieces(whole, feed) =~= seq![line] + cut);
    assert(pieces(whole, feed).drop_last() =~= seq![line] + cut.drop_last());
    assert(pieces(whole, feed).last() == cut.last());
    assert(lines_of(whole) =~= seq![without_carriage_return(line)] + lines_of(rest));
    assert(seq![line].drop_last() =~= Seq::<Seq<char>>::empty());
    assert(lines_of(line) =~= if line.len() > 0 {
        seq![line]
    } else {
        Seq::<Seq<char>>::empty()
    });
    let none = Seq::<char>::empty();
    assert(pieces(none, feed) =~= seq![none]);
    assert(seq![none].drop_last() =~= Seq::<Seq<char>>::empty());
    assert(lines_of(none) =~= Seq::<Seq<char>>::empty());
}

/// Joining no texts gives nothing and joining one gives that one. Joining the texts of two lists
/// gives what joining each gives, with a separator between.
pub proof fn joining_puts_separators_between(
    left: Seq<Seq<char>>,
    right: Seq<Seq<char>>,
    text: Seq<char>,
    separator: Seq<char>,
)
    ensures
        joined(Seq::empty(), separator) == Seq::<char>::empty(),
        joined(seq![text], separator) == text,
        left.len() > 0 && right.len() > 0 ==> joined(left + right, separator) == joined(
            left,
            separator,
        ) + separator + joined(right, separator),
    decreases right.len(),
{
    if left.len() > 0 && right.len() > 0 {
        let front = right.drop_last();
        assert((left + right).drop_last() =~= left + front);
        if front.len() > 0 {
            joining_puts_separators_between(left, front, text, separator);
        } else {
            assert(left + front =~= left);
        }
        assert(joined(left + right, separator) =~= joined(left, separator) + separator + joined(
            right,
            separator,
        ));
    }
}

/// Up to the first occurrence of what is replaced a text stays, the occurrence is replaced, and
/// replacing goes on behind it. A text without an occurrence stays as it is.
pub proof fn replacing_goes_from_left_to_right(
    left: Seq<char>,
    from: Seq<char>,
    right: Seq<char>,
    to: Seq<char>,
)
    requires
        from.len() > 0,
        forall|at: int| 0 <= at < left.len() ==> !occurs_at(left + from + right, from, at),
    ensures
        replaced(left + from + right, from, to) == left + to + replaced(right, from, to),
        !contains_text(right, from) ==> replaced(right, from, to) == right,
    decreases left.len(),
{
    let text = left + from + right;
    if left.len() == 0 {
        assert(text.subrange(0, from.len() as int) =~= from);
        assert(text.skip(from.len() as int) =~= right);
        assert(replaced(text, from, to) =~= left + to + replaced(right, from, to));
    } else {
        let rest = left.drop_first();
        assert(text.drop_first() =~= rest + from + right);
        assert forall|at: int| 0 <= at < rest.len() implies !occurs_at(
            rest + from + right,
            from,
            at,
        ) by {
            assert((rest + from + right).subrange(at, at + from.len()) =~= text.subrange(
                at + 1,
                at + 1 + from.len(),
            ));
            assert(!occurs_at(text, from, at + 1));
        }
        replacing_goes_from_left_to_right(rest, from, right, to);
        assert(!occurs_at(text, from, 0));
        assert(replaced(text, from, to) =~= left + to + replaced(right, from, to));
    }
    if !contains_text(right, from) {
        lemma_nothing_replaced(right, from, to);
    }
}

proof fn lemma_nothing_replaced(text: Seq<char>, from: Seq<char>, to: Seq<char>)
    requires
        from.len() > 0,
        !contains_text(text, from),
    ensures
        replaced(text, from, to) == text,
    decreases text.len(),
{
    if text.len() > 0 {
        let rest = text.drop_first();
        assert(!occurs_at(text, from, 0));
        if contains_text(rest, from) {
            let at = choose|at: int| occurs_at(rest, from, at);
            assert(text.subrange(at + 1, at + 1 + from.len()) =~= rest.subrange(
                at,
                at + from.len(),
            ));
            assert(occurs_at(text, from, at + 1));
        }
        lemma_nothing_replaced(rest, from, to);
        assert(seq![text[0]] + rest =~= text);
    }
}

/// Of two texts that begin alike, the one whose next character has the lower code point comes
/// first, and one that ends there comes before one that goes on.
pub proof fn first_difference_orders_texts(
    start: Seq<char>,
    low: char,
    high: char,
    left: Seq<char>,
    right: Seq<char>,
)
    requires
        low < high,
    ensures
        text_le(start, start + right),
        right.len() > 0 ==> !text_le(start + right, start),
        text_le(start + seq![low] + left, start + seq![high] + right),
        !text_le(start + seq![high] + right, start + seq![low] + left),
    decreases start.len(),
{
    let lower = start + seq![low] + left;
    let higher = start + seq![high] + right;
    if start.len() > 0 {
        let rest = start.drop_first();
        first_difference_orders_texts(rest, low, high, left, right);
        assert(lower.drop_first() =~= rest + seq![low] + left);
        assert(higher.drop_first() =~= rest + seq![high] + right);
        assert((start + right).drop_first() =~= rest + right);
    } else {
        assert(start + right =~= right);
    }
}

/// The place of a text in a list is the first where it stands, and there is none where it stands
/// nowhere.
pub proof fn place_is_the_first(list: Seq<Seq<char>>, text: Seq<char>)
    ensures
        match place_of(list, text) {
            Some(place) => {
                &&& 0 <= place < list.len()
                &&& list[place] == text
                &&& forall|k: int| 0 <= k < place ==> #[trigger] list[k] != text
            },
            None => !list.contains(text),
        },
    decreases list.len(),
{
    if list.len() > 0 {
        let front = list.drop_last();
        place_is_the_first(front, text);
        if list.contains(text) {
            let at = choose|i: int| 0 <= i < list.len() && list[i] == text;
            if at < front.len() {
                assert(front[at] == text);
            }
        }
        match place_of(front, text) {
            Some(place) => {
                assert forall|k: int| 0 <= k < place implies #[trigger] list[k] != text by {
                    assert(front[k] == list[k]);
                }
            },
            None => {
                assert forall|k: int| 0 <= k < front.len() implies #[trigger] list[k] != text by {
                    assert(front[k] == list[k]);
                    assert(front.contains(front[k]));
                }
            },
        }
    }
}

/// A list of texts is seen text by text, and a text that may be missing is seen where it is there.
pub proof fn texts_are_seen_as_they_are(list: Seq<String>, i: int, text: String, borrowed: &str)
    ensures
        texts(list).len() == list.len(),
        0 <= i < list.len() ==> texts(list)[i] == list[i]@,
        optional(Some(text)) == Some(text@),
        optional(None) is None,
        optional_str(Some(borrowed)) == Some(borrowed@),
        optional_str(None) is None,
{
}

} // verus!

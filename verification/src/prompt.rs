//! The status prompt: coloured tags for the mode, the group, the node, the delay and the port,
//! broken into lines that fit the terminal.

use vstd::prelude::*;
use vstd::slice::slice_subrange;
use crate::ansi::{
    ansi_bg_fg, ansi_fg, bg_fg_sequence, cuts_whole, fg_sequence, lemma_ascii_cuts_whole,
    lemma_bg_fg_shows_nothing, lemma_bold_shows_nothing, lemma_fg_shows_nothing,
    lemma_plain_is_shown, lemma_reset_shows_nothing, without_escapes, ANSI_BOLD_GREEN,
    ANSI_BOLD_RED, ANSI_RESET,
};
use crate::layout::{
    added_columns, break_lines, grouped, lead, lemma_line_bounds, line_lengths, line_start,
    line_width, lines_are_not_empty, lines_break_only_where_forced, lines_fit_the_terminal,
    lines_keep_all_tags, placed, what_fits_stands_on_one_line,
};
use crate::numbers::{decimal, decimal_text, is_digit, lemma_decimal_digits};
use crate::status::{delay_shown, delay_text, Delay, StatusInfo, StatusView};
use crate::text::{
    is_whitespace, join, joined, joining_puts_separators_between, keep_non_empty,
    lemma_filter_keeps_all, lemma_joined_push, lemma_pieces_are_uncut, lemma_pieces_concat,
    lemma_pieces_of_joined, lemma_pieces_of_one, non_empty, optional, pieces, pieces_join_back,
    split, texts, trim, trimmed, Delimiter,
};
use crate::width::{
    counts, display_width, prompt_columns_of, prompt_display_width, prompt_width, prompt_width_adds, text_columns,
    total, truncate_to_width, truncated, MARKER,
};

verus! {

/// The words of `text` with one space between each two.
pub open spec fn normalized(text: Seq<char>) -> Seq<char> {
    joined(non_empty(pieces(text, Delimiter::Whitespace)), " "@)
}

/// Every whitespace character of `text` is a space.
pub open spec fn only_spaces(text: Seq<char>) -> bool {
    forall|i: int| 0 <= i < text.len() && is_whitespace(#[trigger] text[i]) ==> text[i] == ' '
}

/// The text of a tag between its caps: the icon, the value, and a space on each side of both.
pub open spec fn tag_text(icon: Seq<char>, value: Seq<char>) -> Seq<char> {
    " "@ + icon + " "@ + value + " "@
}

/// A tag with both its caps.
pub open spec fn drawn_tag(icon: Seq<char>, value: Seq<char>) -> Seq<char> {
    "\u{e0b6}"@ + tag_text(icon, value) + "\u{e0b4}"@
}

/// One tag of the prompt as contracts see it.
#[verifier::ext_equal]
pub struct SegmentView {
    pub icon: Seq<char>,
    pub value: Seq<char>,
    pub color: Seq<char>,
    pub width: nat,
}

/// `from` less `amount`, and nothing where that is negative.
pub open spec fn less(from: nat, amount: nat) -> nat {
    if amount <= from {
        (from - amount) as nat
    } else {
        0
    }
}

impl SegmentView {
    /// The tag with an icon, a value and a colour. Its width counts both caps.
    pub open spec fn made(icon: Seq<char>, value: Seq<char>, color: Seq<char>) -> SegmentView {
        SegmentView {
            icon: normalized(icon),
            value: normalized(value),
            color,
            width: prompt_width(drawn_tag(normalized(icon), normalized(value))),
        }
    }

    /// The tag cut to `limit` columns: first the icon gives way, then the value.
    pub open spec fn fitted(self, limit: nat) -> SegmentView {
        if self.width <= limit {
            self
        } else {
            let icon = truncated(
                self.icon,
                less(limit, prompt_width("\u{e0b6}   \u{e0b4}"@)),
            );
            let value = truncated(
                self.value,
                less(limit, prompt_width("\u{e0b6} "@ + icon + "  \u{e0b4}"@)),
            );
            SegmentView::made(icon, value, self.color)
        }
    }
}

/// The words of a text have a character each, and no whitespace.
proof fn lemma_words(text: Seq<char>)
    ensures
        ({
            let words = non_empty(pieces(text, Delimiter::Whitespace));
            &&& forall|i: int| 0 <= i < words.len() ==> (#[trigger] words[i]).len() > 0
            &&& forall|word: int, at: int|
                0 <= word < words.len() && 0 <= at < words[word].len() ==> !is_whitespace(
                    #[trigger] words[word][at],
                )
        }),
{
    let cut = pieces(text, Delimiter::Whitespace);
    let words = non_empty(cut);
    let filled = |part: Seq<char>| part.len() > 0;
    assert forall|i: int| 0 <= i < words.len() implies (#[trigger] words[i]).len() > 0 by {
        cut.lemma_filter_pred(filled, i);
    }
    assert forall|word: int, at: int|
        0 <= word < words.len() && 0 <= at < words[word].len() implies !is_whitespace(
        #[trigger] words[word][at],
    ) by {
        cut.lemma_filter_contains_rev(filled, words[word]);
        let k = choose|k: int| 0 <= k < cut.len() && cut[k] == words[word];
        lemma_pieces_are_uncut(text, Delimiter::Whitespace, k, at);
    }
}

/// A normalized text has no whitespace but spaces, so that no line breaks inside a tag.
pub proof fn normalized_has_only_spaces(text: Seq<char>)
    ensures
        only_spaces(normalized(text)),
{
    lemma_words(text);
    lemma_joined_spaces(non_empty(pieces(text, Delimiter::Whitespace)));
}

/// Normalizing a normalized text changes nothing.
pub proof fn normalizing_again_changes_nothing(text: Seq<char>)
    ensures
        normalized(normalized(text)) == normalized(text),
{
    let words = non_empty(pieces(text, Delimiter::Whitespace));
    let filled = |part: Seq<char>| part.len() > 0;
    reveal_strlit(" ");
    assert(" "@ =~= seq![' ']);
    lemma_words(text);
    if words.len() > 0 {
        assert forall|i: int, at: int| 0 <= i < words.len() && 0 <= at < words[i].len() implies
            !Delimiter::Whitespace.cuts(#[trigger] words[i][at]) by {
            assert(!is_whitespace(words[i][at]));
        }
        lemma_pieces_of_joined(words, ' ', Delimiter::Whitespace);
        lemma_filter_keeps_all(words, filled);
    } else {
        let none = Seq::<char>::empty();
        assert(normalized(text) =~= none);
        assert(pieces(none, Delimiter::Whitespace) =~= seq![none]);
        assert(non_empty(seq![none]) =~= Seq::<Seq<char>>::empty()) by {
            reveal(Seq::filter);
            assert(seq![none].drop_last() =~= Seq::<Seq<char>>::empty());
            reveal_with_fuel(Seq::filter, 2);
        }
    }
}

proof fn lemma_joined_spaces(words: Seq<Seq<char>>)
    requires
        forall|word: int, at: int|
            0 <= word < words.len() && 0 <= at < words[word].len() ==> !is_whitespace(
                #[trigger] words[word][at],
            ),
    ensures
        only_spaces(joined(words, " "@)),
    decreases words.len(),
{
    reveal_strlit(" ");
    if words.len() > 1 {
        let front = words.drop_last();
        assert forall|word: int, at: int|
            0 <= word < front.len() && 0 <= at < front[word].len() implies !is_whitespace(
            #[trigger] front[word][at],
        ) by {
            assert(front[word] == words[word]);
        }
        lemma_joined_spaces(front);
        let last = words.last();
        assert(last == words[words.len() - 1]);
        assert forall|i: int| 0 <= i < joined(words, " "@).len() && is_whitespace(
            #[trigger] joined(words, " "@)[i],
        ) implies joined(words, " "@)[i] == ' ' by {
            let before = joined(front, " "@);
            if i < before.len() {
                assert(joined(words, " "@)[i] == before[i]);
            } else if i > before.len() {
                assert(joined(words, " "@)[i] == words[words.len() - 1][i - before.len() - 1]);
            }
        }
    } else if words.len() == 1 {
        assert forall|i: int| 0 <= i < words[0].len() && is_whitespace(
            #[trigger] words[0][i],
        ) implies words[0][i] == ' ' by {}
    }
}

proof fn lemma_dropping_empty_narrows(list: Seq<Seq<char>>)
    ensures
        prompt_width(joined(non_empty(list), " "@)) <= prompt_width(joined(list, " "@)),
    decreases list.len(),
{
    let filled = |part: Seq<char>| part.len() > 0;
    reveal(Seq::filter);
    if list.len() > 0 {
        let front = list.drop_last();
        let last = list.last();
        lemma_dropping_empty_narrows(front);
        lemma_joined_push(front, last, " "@);
        assert(front.push(last) == list);
        prompt_width_adds(joined(front, " "@) + " "@, last);
        prompt_width_adds(joined(front, " "@), " "@);
        if last.len() > 0 {
            lemma_joined_push(non_empty(front), last, " "@);
            prompt_width_adds(joined(non_empty(front), " "@) + " "@, last);
            prompt_width_adds(joined(non_empty(front), " "@), " "@);
            if front.len() == 0 {
                assert(non_empty(front) =~= Seq::<Seq<char>>::empty());
            }
        }
    } else {
        assert(non_empty(list) =~= list);
    }
}

proof fn lemma_space_pieces(text: Seq<char>)
    requires
        only_spaces(text),
    ensures
        pieces(text, Delimiter::Whitespace) == pieces(text, Delimiter::Char(' ')),
    decreases text.len(),
{
    if text.len() > 0 {
        let front = text.drop_last();
        assert forall|i: int| 0 <= i < front.len() && is_whitespace(#[trigger] front[i]) implies
            front[i] == ' ' by {
            assert(front[i] == text[i]);
        }
        lemma_space_pieces(front);
        assert(text.last() == text[text.len() - 1]);
    }
}

/// Normalizing a text that has no whitespace but spaces makes it no wider.
pub proof fn normalizing_spaces_narrows(text: Seq<char>)
    requires
        only_spaces(text),
    ensures
        prompt_width(normalized(text)) <= prompt_width(text),
{
    reveal_strlit(" ");
    assert(" "@ =~= seq![' ']);
    lemma_space_pieces(text);
    pieces_join_back(text, ' ');
    lemma_dropping_empty_narrows(pieces(text, Delimiter::Whitespace));
}

/// The words of a text with one space between each two.
pub fn normalize_prompt_text(input: &str) -> (text: String)
    ensures
        text@ == normalized(input@),
{
    let words = keep_non_empty(split(input, Delimiter::Whitespace));
    join(&words, " ")
}

/// A coloured tag of the prompt.
pub struct PromptSegment {
    pub icon: String,
    pub value: String,
    pub color: &'static str,
    pub width: usize,
}

impl View for PromptSegment {
    type V = SegmentView;

    open spec fn view(&self) -> SegmentView {
        SegmentView {
            icon: self.icon@,
            value: self.value@,
            color: self.color@,
            width: self.width as nat,
        }
    }
}

/// A cap takes two columns.
proof fn lemma_caps()
    ensures
        prompt_width("\u{e0b6}"@) == 2,
        prompt_width("\u{e0b4}"@) == 2,
{
    reveal_strlit("\u{e0b6}");
    reveal_strlit("\u{e0b4}");
    reveal_with_fuel(total, 2);
    assert(prompt_columns_of("\u{e0b6}"@) =~= seq![2nat]);
    assert(prompt_columns_of("\u{e0b4}"@) =~= seq![2nat]);
}

/// The width of a tag with both its caps.
proof fn lemma_drawn_width(icon: Seq<char>, value: Seq<char>)
    ensures
        prompt_width(drawn_tag(icon, value)) == prompt_width(tag_text(icon, value)) + 4,
{
    lemma_caps();
    prompt_width_adds("\u{e0b6}"@, tag_text(icon, value));
    prompt_width_adds("\u{e0b6}"@ + tag_text(icon, value), "\u{e0b4}"@);
}

proof fn lemma_tag_width(icon: Seq<char>, value: Seq<char>)
    ensures
        prompt_width(drawn_tag(icon, value)) == prompt_width("\u{e0b6}   \u{e0b4}"@)
            + prompt_width(icon) + prompt_width(value),
        prompt_width("\u{e0b6} "@ + icon + "  \u{e0b4}"@) == prompt_width(
            "\u{e0b6}   \u{e0b4}"@,
        ) + prompt_width(icon),
{
    reveal_strlit(" ");
    reveal_strlit("\u{e0b6}");
    reveal_strlit("\u{e0b4}");
    reveal_strlit("\u{e0b6} ");
    reveal_strlit("  \u{e0b4}");
    reveal_strlit("\u{e0b6}   \u{e0b4}");
    let start = "\u{e0b6} "@;
    let end = " "@ + "\u{e0b4}"@;
    assert("  \u{e0b4}"@ =~= " "@ + end);
    assert("\u{e0b6}   \u{e0b4}"@ =~= start + (" "@ + end));
    assert(drawn_tag(icon, value) =~= start + icon + " "@ + value + end);
    prompt_width_adds(" "@, end);
    prompt_width_adds(start, " "@ + end);
    prompt_width_adds(start, icon);
    prompt_width_adds(start + icon, "  \u{e0b4}"@);
    prompt_width_adds(start + icon, " "@);
    prompt_width_adds(start + icon + " "@, value);
    prompt_width_adds(start + icon + " "@ + value, end);
}

proof fn lemma_truncated_spaces(text: Seq<char>, limit: nat)
    requires
        only_spaces(text),
    ensures
        only_spaces(truncated(text, limit)),
{
    reveal_strlit("…");
    let cut = truncated(text, limit);
    if cut != text && cut.len() > 0 {
        let kept = cut.len() - 1;
        crate::width::fitting_is_largest(
            crate::width::prompt_columns_of(text),
            less(limit, text_columns(MARKER@) as nat),
        );
        assert forall|i: int| 0 <= i < cut.len() && is_whitespace(#[trigger] cut[i]) implies cut[i]
            == ' ' by {
            if i < kept {
                assert(cut[i] == text[i]);
            } else {
                assert(cut[i] == '…');
            }
        }
    }
}

/// The text of a tag.
fn plain_tag(icon: &str, value: &str) -> (plain: String)
    ensures
        plain@ == tag_text(icon@, value@),
{
    let mut plain = " ".to_owned();
    plain.append(icon);
    plain.append(" ");
    plain.append(value);
    plain.append(" ");
    plain
}

impl PromptSegment {
    /// The icon and the value hold no whitespace but spaces, and the width is that of the tag
    /// with both its caps.
    pub open spec fn wf(self) -> bool {
        &&& only_spaces(self.icon@)
        &&& only_spaces(self.value@)
        &&& self.width == prompt_width(drawn_tag(self.icon@, self.value@))
    }

    /// The tag with an icon, a value and a colour.
    pub fn new(icon: &str, value: &str, color: &'static str) -> (segment: Self)
        ensures
            segment@ == SegmentView::made(icon@, value@, color@),
            segment.wf(),
    {
        proof {
            normalized_has_only_spaces(icon@);
            normalized_has_only_spaces(value@);
        }
        let icon = normalize_prompt_text(icon);
        let value = normalize_prompt_text(value);
        let mut plain = "\u{e0b6}".to_owned();
        plain.append(plain_tag(icon.as_str(), value.as_str()).as_str());
        plain.append("\u{e0b4}");
        let width = prompt_display_width(plain.as_str());
        PromptSegment { icon, value, color, width }
    }

    /// The tag cut to a number of columns. From seven columns on it takes no more.
    pub fn fit_to_width(&self, max_width: usize) -> (segment: Self)
        requires
            self.wf(),
        ensures
            segment@ == self@.fitted(max_width as nat),
            segment.wf(),
            max_width >= 7 ==> segment.width <= max_width,
    {
        if self.width <= max_width {
            return PromptSegment {
                icon: self.icon.clone(),
                value: self.value.clone(),
                color: self.color,
                width: self.width,
            };
        }
        let empty_segment_width = prompt_display_width("\u{e0b6}   \u{e0b4}");
        let icon_budget = max_width.saturating_sub(empty_segment_width);
        let icon = truncate_to_width(self.icon.as_str(), icon_budget);
        let mut fixed = "\u{e0b6} ".to_owned();
        fixed.append(icon.as_str());
        fixed.append("  \u{e0b4}");
        let fixed_width = prompt_display_width(fixed.as_str());
        let value_budget = max_width.saturating_sub(fixed_width);
        let value = truncate_to_width(self.value.as_str(), value_budget);
        proof {
            let empty = "\u{e0b6}   \u{e0b4}"@;
            assert(prompt_width(empty) == 7) by {
                reveal_strlit("\u{e0b6}   \u{e0b4}");
                assert(empty[1] == ' ' && empty[2] == ' ' && empty[3] == ' ');
                assert(prompt_columns_of(empty) =~= seq![2nat, 1nat, 1nat, 1nat, 2nat]);
                let columns = prompt_columns_of(empty);
                assert(columns.drop_last() =~= seq![2nat, 1nat, 1nat, 1nat]);
                assert(seq![2nat, 1nat, 1nat, 1nat].drop_last() =~= seq![2nat, 1nat, 1nat]);
                assert(seq![2nat, 1nat, 1nat].drop_last() =~= seq![2nat, 1nat]);
                assert(seq![2nat, 1nat].drop_last() =~= seq![2nat]);
                assert(seq![2nat].drop_last() =~= Seq::<nat>::empty());
                reveal_with_fuel(total, 6);
            }
            lemma_truncated_spaces(self.icon@, icon_budget as nat);
            lemma_truncated_spaces(self.value@, value_budget as nat);
            normalizing_spaces_narrows(icon@);
            normalizing_spaces_narrows(value@);
            lemma_tag_width(icon@, value@);
            lemma_tag_width(normalized(icon@), normalized(value@));
        }
        PromptSegment::new(icon.as_str(), value.as_str(), self.color)
    }
}

/// The icons of the tags, where they are configured.
#[derive(Debug, Clone)]
pub struct PromptConfig {
    pub mode_icon: Option<String>,
    pub group_icon: Option<String>,
    pub node_icon: Option<String>,
    pub delay_icon: Option<String>,
    pub port_icon: Option<String>,
}

/// The icons of the tags as contracts see them.
#[verifier::ext_equal]
pub struct PromptView {
    pub mode_icon: Option<Seq<char>>,
    pub group_icon: Option<Seq<char>>,
    pub node_icon: Option<Seq<char>>,
    pub delay_icon: Option<Seq<char>>,
    pub port_icon: Option<Seq<char>>,
}

impl View for PromptConfig {
    type V = PromptView;

    open spec fn view(&self) -> PromptView {
        PromptView {
            mode_icon: optional(self.mode_icon),
            group_icon: optional(self.group_icon),
            node_icon: optional(self.node_icon),
            delay_icon: optional(self.delay_icon),
            port_icon: optional(self.port_icon),
        }
    }
}

impl Default for PromptConfig {
    fn default() -> (config: Self)
        ensures
            config@ == (PromptView {
                mode_icon: None,
                group_icon: None,
                node_icon: None,
                delay_icon: None,
                port_icon: None,
            }),
    {
        PromptConfig {
            mode_icon: None,
            group_icon: None,
            node_icon: None,
            delay_icon: None,
            port_icon: None,
        }
    }
}

/// The mode and the group whose tags are not shown, where they are configured.
#[derive(Debug, Clone)]
pub struct TagDefaults {
    pub mode: Option<String>,
    pub group: Option<String>,
}

/// The mode and the group whose tags are not shown, as contracts see them.
#[verifier::ext_equal]
pub struct DefaultsView {
    pub mode: Option<Seq<char>>,
    pub group: Option<Seq<char>>,
}

impl View for TagDefaults {
    type V = DefaultsView;

    open spec fn view(&self) -> DefaultsView {
        DefaultsView { mode: optional(self.mode), group: optional(self.group) }
    }
}

impl Default for TagDefaults {
    fn default() -> (defaults: Self)
        ensures
            defaults@ == (DefaultsView { mode: None, group: None }),
    {
        TagDefaults { mode: None, group: None }
    }
}

/// The foreground of the text on a tag.
pub const TAG_TEXT_COLOR: &'static str = "#11111b";

/// The tag of a value that equals its configured default, up to whitespace around the
/// default, is not shown.
pub open spec fn is_hidden(default: Option<Seq<char>>, current: Seq<char>) -> bool {
    default matches Some(value) && trimmed(value) == current
}

/// The configured icon, or the icon of the library.
pub open spec fn icon_or(icon: Option<Seq<char>>, own: Seq<char>) -> Seq<char> {
    match icon {
        Some(icon) => icon,
        None => own,
    }
}

/// The tag of the mode, unless it is not shown.
pub open spec fn mode_tags(
    info: StatusView,
    prompt: PromptView,
    defaults: DefaultsView,
) -> Seq<SegmentView> {
    if is_hidden(defaults.mode, info.mode.api_name()) {
        Seq::empty()
    } else {
        seq![
            SegmentView::made(
                icon_or(prompt.mode_icon, "󰒓"@),
                info.mode.shown(),
                "#fab387"@,
            ),
        ]
    }
}

/// The tag of the group, unless it is not shown.
pub open spec fn group_tags(
    info: StatusView,
    prompt: PromptView,
    defaults: DefaultsView,
) -> Seq<SegmentView> {
    if is_hidden(defaults.group, info.group) {
        Seq::empty()
    } else {
        seq![SegmentView::made(icon_or(prompt.group_icon, "󰓹"@), info.group, "#f9e2af"@)]
    }
}

/// The tag of the delay, unless it is not shown.
pub open spec fn delay_tags(info: StatusView, prompt: PromptView) -> Seq<SegmentView> {
    match delay_shown(info.delay) {
        Some(delay) => seq![
            SegmentView::made(icon_or(prompt.delay_icon, "󱎫"@), delay, "#74c7ec"@),
        ],
        None => Seq::empty(),
    }
}

/// The tags of the prompt from left to right: mode, group, node, delay and port.
pub open spec fn status_tags(
    info: StatusView,
    prompt: PromptView,
    defaults: DefaultsView,
) -> Seq<SegmentView> {
    let node = SegmentView::made(icon_or(prompt.node_icon, "󰍍"@), info.node, "#a6e3a1"@);
    let port = SegmentView::made(
        icon_or(prompt.port_icon, "󰤨"@),
        decimal(info.port as nat),
        "#b4befe"@,
    );
    (mode_tags(info, prompt, defaults) + group_tags(info, prompt, defaults)).push(node)
        + delay_tags(info, prompt).push(port)
}

/// The tags of the prompt, each cut to the terminal's width.
pub open spec fn fitted_tags(tags: Seq<SegmentView>, terminal: nat) -> Seq<SegmentView> {
    tags.map_values(|tag: SegmentView| tag.fitted(terminal))
}

/// The widths of tags.
pub open spec fn tag_widths(tags: Seq<SegmentView>) -> Seq<nat> {
    tags.map_values(|tag: SegmentView| tag.width)
}

/// The right cap of the tag at `at` on a line: drawn on the background of the next tag, and
/// that of the last one on the terminal's own background.
pub open spec fn right_cap(line: Seq<SegmentView>, at: int) -> Seq<char> {
    let tag = line[at];
    if at + 1 < line.len() {
        bg_fg_sequence(line[at + 1].color, tag.color) + "\u{e0b4}"@
    } else {
        ANSI_RESET@ + fg_sequence(tag.color) + "\u{e0b4}"@ + ANSI_RESET@
    }
}

/// What is printed for the tag at `at` on a line. The first has a left cap.
pub open spec fn tag_printed(line: Seq<SegmentView>, at: int) -> Seq<char> {
    let tag = line[at];
    let left = if at == 0 {
        fg_sequence(tag.color) + "\u{e0b6}"@
    } else {
        Seq::empty()
    };
    left + bg_fg_sequence(tag.color, TAG_TEXT_COLOR@) + tag_text(tag.icon, tag.value) + right_cap(
        line,
        at,
    )
}

/// What is printed for the first `count` tags of a line.
pub open spec fn tags_printed(line: Seq<SegmentView>, count: nat) -> Seq<char>
    decreases count,
{
    if count == 0 {
        Seq::empty()
    } else {
        tags_printed(line, (count - 1) as nat) + tag_printed(line, count - 1)
    }
}

/// What is printed for a line of tags.
pub open spec fn line_printed(line: Seq<SegmentView>) -> Seq<char> {
    tags_printed(line, line.len())
}

/// What the tag at `at` on a line shows, without the escape sequences that colour it.
pub open spec fn tag_drawn(line: Seq<SegmentView>, at: int) -> Seq<char> {
    let left = if at == 0 {
        "\u{e0b6}"@
    } else {
        Seq::empty()
    };
    left + tag_text(line[at].icon, line[at].value) + "\u{e0b4}"@
}

/// What the first `count` tags of a line show.
pub open spec fn tags_drawn(line: Seq<SegmentView>, count: nat) -> Seq<char>
    decreases count,
{
    if count == 0 {
        Seq::empty()
    } else {
        tags_drawn(line, (count - 1) as nat) + tag_drawn(line, count - 1)
    }
}

/// What a line of tags shows.
pub open spec fn line_drawn(line: Seq<SegmentView>) -> Seq<char> {
    tags_drawn(line, line.len())
}

/// The columns that a prompt counts on: no fewer than twenty.
pub open spec fn usable_width(terminal: nat) -> nat {
    if terminal < 20 {
        20
    } else {
        terminal
    }
}

/// The tags of each line of the prompt.
pub open spec fn prompt_lines(
    info: StatusView,
    prompt: PromptView,
    defaults: DefaultsView,
    terminal: nat,
    initial: nat,
) -> Seq<Seq<SegmentView>> {
    let tags = fitted_tags(status_tags(info, prompt, defaults), usable_width(terminal));
    grouped(tags, line_lengths(tag_widths(tags), usable_width(terminal), initial))
}

/// The prompt for a terminal with `terminal` columns, of which `initial` are in use on the
/// first line.
pub open spec fn prompt_printed(
    info: StatusView,
    prompt: PromptView,
    defaults: DefaultsView,
    terminal: nat,
    initial: nat,
) -> Seq<char> {
    joined(
        prompt_lines(info, prompt, defaults, terminal, initial).map_values(
            |line: Seq<SegmentView>| line_printed(line),
        ),
        "\n"@,
    )
}

/// Where the columns in use before the first line fit in the terminal, so does each line as it
/// is drawn, caps included: the first one after those columns.
pub open spec fn prompt_fits(
    info: StatusView,
    prompt: PromptView,
    defaults: DefaultsView,
    terminal: nat,
    initial: nat,
) -> bool {
    let lines = prompt_lines(info, prompt, defaults, terminal, initial);
    initial <= usable_width(terminal) ==> forall|line: int|
        0 <= line < lines.len() ==> lead(line, initial) + prompt_width(
            line_drawn(#[trigger] lines[line]),
        ) <= usable_width(terminal)
}

/// Every tag counts its text and both its caps.
pub open spec fn counts_caps(tags: Seq<SegmentView>) -> bool {
    forall|i: int|
        0 <= i < tags.len() ==> (#[trigger] tags[i]).width == prompt_width(
            drawn_tag(tags[i].icon, tags[i].value),
        )
}

/// A line takes no more columns as it is drawn than are counted for it.
proof fn lemma_drawn_within_counted(line: Seq<SegmentView>, count: nat)
    requires
        counts_caps(line),
        count <= line.len(),
    ensures
        prompt_width(tags_drawn(line, count)) <= line_width(tag_widths(line).take(count as int)),
    decreases count,
{
    let widths = tag_widths(line).take(count as int);
    if count == 0 {
        assert(prompt_columns_of(Seq::<char>::empty()) =~= Seq::<nat>::empty());
    } else {
        let at = count - 1;
        let before = tags_drawn(line, at as nat);
        let text = tag_text(line[at].icon, line[at].value);
        lemma_drawn_within_counted(line, at as nat);
        lemma_drawn_width(line[at].icon, line[at].value);
        lemma_caps();
        assert(widths.drop_last() =~= tag_widths(line).take(at));
        assert(widths.last() == line[at].width);
        prompt_width_adds(before, tag_drawn(line, at));
        if at == 0 {
            assert(tag_drawn(line, at) =~= drawn_tag(line[at].icon, line[at].value));
        } else {
            assert(tag_drawn(line, at) =~= text + "\u{e0b4}"@);
            prompt_width_adds(text, "\u{e0b4}"@);
        }
    }
}

/// Tags that are cut to a width count both their caps, and take a column at least.
proof fn lemma_fitted_tags(tags: Seq<SegmentView>, terminal: nat)
    requires
        counts_caps(tags),
    ensures
        counts_caps(fitted_tags(tags, terminal)),
        forall|i: int|
            0 <= i < tags.len() ==> #[trigger] tag_widths(fitted_tags(tags, terminal))[i] > 0,
{
    let fitted = fitted_tags(tags, terminal);
    assert forall|i: int| 0 <= i < fitted.len() implies (#[trigger] fitted[i]).width
        == prompt_width(drawn_tag(fitted[i].icon, fitted[i].value)) && tag_widths(fitted)[i]
        > 0 by {
        assert(tags[i].width == prompt_width(drawn_tag(tags[i].icon, tags[i].value)));
        lemma_drawn_width(fitted[i].icon, fitted[i].value);
    }
}

/// A line is broken only where the next tag would have reached the terminal's width, caps
/// included.
pub proof fn prompt_breaks_only_where_forced(
    info: StatusView,
    prompt: PromptView,
    defaults: DefaultsView,
    terminal: nat,
    initial: nat,
    line: int,
)
    requires
        0 <= line < prompt_lines(info, prompt, defaults, terminal, initial).len() - 1,
    ensures
        ({
            let lines = prompt_lines(info, prompt, defaults, terminal, initial);
            &&& lines[line + 1].len() > 0
            &&& lead(line, initial) + line_width(tag_widths(lines[line])) + added_columns(
                lines[line].len(),
                lines[line + 1][0].width,
            ) >= usable_width(terminal)
        }),
{
    let usable = usable_width(terminal);
    let tags = fitted_tags(status_tags(info, prompt, defaults), usable);
    let widths = tag_widths(tags);
    let lengths = line_lengths(widths, usable, initial);
    lemma_fitted_tags(status_tags(info, prompt, defaults), usable);
    lines_keep_all_tags(tags, widths, usable, initial);
    lines_break_only_where_forced(widths, usable, initial, line);
    lines_are_not_empty(widths, usable, initial, line + 1);
    lemma_line_bounds(lengths, line);
    lemma_line_bounds(lengths, line + 1);
    assert(grouped(widths, lengths)[line] =~= tag_widths(grouped(tags, lengths)[line]));
}

/// A text holds no escape character.
pub open spec fn escape_free(text: Seq<char>) -> bool {
    !text.contains('\u{1b}')
}

/// Every tag of a list is without escape characters.
pub open spec fn tags_escape_free(tags: Seq<SegmentView>) -> bool {
    forall|i: int|
        0 <= i < tags.len() ==> escape_free((#[trigger] tags[i]).icon) && escape_free(tags[i].value)
}

/// No text of a state and no configured icon holds an escape character.
pub open spec fn inputs_escape_free(info: StatusView, prompt: PromptView) -> bool {
    &&& escape_free(info.mode.shown())
    &&& escape_free(info.group)
    &&& escape_free(info.node)
    &&& prompt.mode_icon matches Some(icon) ==> escape_free(icon)
    &&& prompt.group_icon matches Some(icon) ==> escape_free(icon)
    &&& prompt.node_icon matches Some(icon) ==> escape_free(icon)
    &&& prompt.delay_icon matches Some(icon) ==> escape_free(icon)
    &&& prompt.port_icon matches Some(icon) ==> escape_free(icon)
}

proof fn lemma_escape_free_add(left: Seq<char>, right: Seq<char>)
    requires
        escape_free(left),
        escape_free(right),
    ensures
        escape_free(left + right),
{
    let both = left + right;
    if both.contains('\u{1b}') {
        let at = choose|i: int| 0 <= i < both.len() && both[i] == '\u{1b}';
        if at < left.len() {
            assert(left[at] == '\u{1b}');
        } else {
            assert(right[at - left.len()] == '\u{1b}');
        }
    }
}

proof fn lemma_escape_free_joined(list: Seq<Seq<char>>, separator: Seq<char>)
    requires
        forall|i: int| 0 <= i < list.len() ==> escape_free(#[trigger] list[i]),
        escape_free(separator),
    ensures
        escape_free(joined(list, separator)),
    decreases list.len(),
{
    if list.len() > 1 {
        let front = list.drop_last();
        assert forall|i: int| 0 <= i < front.len() implies escape_free(#[trigger] front[i]) by {
            assert(front[i] == list[i]);
        }
        lemma_escape_free_joined(front, separator);
        assert(escape_free(list[list.len() - 1]));
        lemma_escape_free_add(joined(front, separator), separator);
        lemma_escape_free_add(joined(front, separator) + separator, list.last());
    }
}

proof fn lemma_escape_free_normalized(text: Seq<char>)
    requires
        escape_free(text),
    ensures
        escape_free(normalized(text)),
{
    reveal_strlit(" ");
    let cut = pieces(text, Delimiter::Whitespace);
    let words = non_empty(cut);
    let filled = |part: Seq<char>| part.len() > 0;
    assert forall|word: int| 0 <= word < words.len() implies escape_free(
        #[trigger] words[word],
    ) by {
        if words[word].contains('\u{1b}') {
            let at = choose|i: int| 0 <= i < words[word].len() && words[word][i] == '\u{1b}';
            assert(words.contains(words[word]));
            cut.lemma_filter_contains_rev(filled, words[word]);
            let k = choose|k: int| 0 <= k < cut.len() && cut[k] == words[word];
            lemma_pieces_are_uncut(text, Delimiter::Whitespace, k, at);
        }
    }
    lemma_escape_free_joined(words, " "@);
}

proof fn lemma_escape_free_truncated(text: Seq<char>, limit: nat)
    requires
        escape_free(text),
    ensures
        escape_free(truncated(text, limit)),
{
    reveal_strlit("…");
    let marker = text_columns(MARKER@) as nat;
    let kept = crate::width::fitting(prompt_columns_of(text), less(limit, marker)) as int;
    crate::width::fitting_is_largest(prompt_columns_of(text), less(limit, marker));
    let start = text.take(kept);
    assert(escape_free(start)) by {
        if start.contains('\u{1b}') {
            let at = choose|i: int| 0 <= i < start.len() && start[i] == '\u{1b}';
            assert(text[at] == '\u{1b}');
        }
    }
    lemma_escape_free_add(start, MARKER@);
}

proof fn lemma_made_escape_free(icon: Seq<char>, value: Seq<char>, color: Seq<char>, limit: nat)
    requires
        escape_free(icon),
        escape_free(value),
    ensures
        escape_free(SegmentView::made(icon, value, color).icon),
        escape_free(SegmentView::made(icon, value, color).value),
        escape_free(SegmentView::made(icon, value, color).fitted(limit).icon),
        escape_free(SegmentView::made(icon, value, color).fitted(limit).value),
{
    lemma_escape_free_normalized(icon);
    lemma_escape_free_normalized(value);
    let tag = SegmentView::made(icon, value, color);
    let short = truncated(tag.icon, less(limit, prompt_width("\u{e0b6}   \u{e0b4}"@)));
    let cut = truncated(
        tag.value,
        less(limit, prompt_width("\u{e0b6} "@ + short + "  \u{e0b4}"@)),
    );
    lemma_escape_free_truncated(
        tag.icon,
        less(limit, prompt_width("\u{e0b6}   \u{e0b4}"@)),
    );
    lemma_escape_free_truncated(
        tag.value,
        less(limit, prompt_width("\u{e0b6} "@ + short + "  \u{e0b4}"@)),
    );
    lemma_escape_free_normalized(short);
    lemma_escape_free_normalized(cut);
}

proof fn lemma_decimal_escape_free(number: nat)
    ensures
        escape_free(decimal(number)),
{
    lemma_decimal_digits(number);
    if decimal(number).contains('\u{1b}') {
        let at = choose|i: int|
            0 <= i < decimal(number).len() && decimal(number)[i] == '\u{1b}';
        assert(is_digit(decimal(number)[at]));
    }
}

proof fn lemma_status_tags_escape_free(
    info: StatusView,
    prompt: PromptView,
    defaults: DefaultsView,
    limit: nat,
)
    requires
        inputs_escape_free(info, prompt),
    ensures
        tags_escape_free(fitted_tags(status_tags(info, prompt, defaults), limit)),
{
    reveal_strlit("󰒓");
    reveal_strlit("󰓹");
    reveal_strlit("󰍍");
    reveal_strlit("󱎫");
    reveal_strlit("󰤨");
    let mode_icon = icon_or(prompt.mode_icon, "󰒓"@);
    let group_icon = icon_or(prompt.group_icon, "󰓹"@);
    let node_icon = icon_or(prompt.node_icon, "󰍍"@);
    let delay_icon = icon_or(prompt.delay_icon, "󱎫"@);
    let port_icon = icon_or(prompt.port_icon, "󰤨"@);
    lemma_made_escape_free(mode_icon, info.mode.shown(), "#fab387"@, limit);
    lemma_made_escape_free(group_icon, info.group, "#f9e2af"@, limit);
    lemma_made_escape_free(node_icon, info.node, "#a6e3a1"@, limit);
    lemma_decimal_escape_free(info.port as nat);
    lemma_made_escape_free(port_icon, decimal(info.port as nat), "#b4befe"@, limit);
    if let Some(delay) = delay_shown(info.delay) {
        assert(escape_free(delay)) by {
            reveal_strlit("ms");
            reveal_strlit("timeout");
            if let Delay::Value(value) = info.delay {
                lemma_decimal_escape_free(value as nat);
                lemma_escape_free_add(decimal(value as nat), "ms"@);
            }
        }
        lemma_made_escape_free(delay_icon, delay, "#74c7ec"@, limit);
    }
}

proof fn lemma_regroup(a: Seq<char>, b: Seq<char>, c: Seq<char>, d: Seq<char>, rest: Seq<char>)
    ensures
        a + b + c + d + rest == a + (b + (c + (d + rest))),
        a + b + c + rest == a + (b + (c + rest)),
        a + b + rest == a + (b + rest),
        Seq::<char>::empty() + a + b + c + rest == a + (b + (c + rest)),
{
    assert(a + b + c + d + rest =~= a + (b + (c + (d + rest))));
    assert(a + b + c + rest =~= a + (b + (c + rest)));
    assert(a + b + rest =~= a + (b + rest));
    assert(Seq::<char>::empty() + a + b + c + rest =~= a + (b + (c + rest)));
}

proof fn lemma_tag_text_escape_free(icon: Seq<char>, value: Seq<char>)
    requires
        escape_free(icon),
        escape_free(value),
    ensures
        escape_free(tag_text(icon, value)),
{
    reveal_strlit(" ");
    lemma_escape_free_add(" "@, icon);
    lemma_escape_free_add(" "@ + icon, " "@);
    lemma_escape_free_add(" "@ + icon + " "@, value);
    lemma_escape_free_add(" "@ + icon + " "@ + value, " "@);
}

proof fn lemma_right_cap_shown(line: Seq<SegmentView>, at: int, rest: Seq<char>)
    ensures
        without_escapes(right_cap(line, at) + rest) == "\u{e0b4}"@ + without_escapes(rest),
{
    reveal_strlit("\u{e0b4}");
    let cap = "\u{e0b4}"@;
    let color = line[at].color;
    if at + 1 < line.len() {
        lemma_regroup(bg_fg_sequence(line[at + 1].color, color), cap, cap, cap, rest);
        lemma_bg_fg_shows_nothing(line[at + 1].color, color, cap + rest);
        lemma_plain_is_shown(cap, rest);
    } else {
        let end = ANSI_RESET@ + rest;
        lemma_regroup(ANSI_RESET@, fg_sequence(color), cap, ANSI_RESET@, rest);
        lemma_reset_shows_nothing(fg_sequence(color) + (cap + end));
        lemma_fg_shows_nothing(color, cap + end);
        lemma_plain_is_shown(cap, end);
        lemma_reset_shows_nothing(rest);
    }
}

/// A tag shows what is drawn for it, whatever comes after it.
proof fn lemma_tag_shown(line: Seq<SegmentView>, at: int, rest: Seq<char>)
    requires
        0 <= at < line.len(),
        tags_escape_free(line),
    ensures
        without_escapes(tag_printed(line, at) + rest) == tag_drawn(line, at) + without_escapes(
            rest,
        ),
{
    let tag = line[at];
    let text = tag_text(tag.icon, tag.value);
    let cap = "\u{e0b4}"@;
    let back = bg_fg_sequence(tag.color, TAG_TEXT_COLOR@);
    let right = right_cap(line, at);
    let shown = without_escapes(rest);
    lemma_tag_text_escape_free(tag.icon, tag.value);
    lemma_right_cap_shown(line, at, rest);
    lemma_plain_is_shown(text, right + rest);
    let body = text + (right + rest);
    lemma_bg_fg_shows_nothing(tag.color, TAG_TEXT_COLOR@, body);
    if at == 0 {
        let color = fg_sequence(tag.color);
        let left = "\u{e0b6}"@;
        reveal_strlit("\u{e0b6}");
        lemma_regroup(color + left, back, text, right, rest);
        lemma_regroup(color, left, left, left, back + body);
        lemma_fg_shows_nothing(tag.color, left + (back + body));
        lemma_plain_is_shown(left, back + body);
        lemma_regroup(left, text, cap, cap, shown);
    } else {
        let none = Seq::<char>::empty();
        lemma_regroup(back, text, right, right, rest);
        lemma_regroup(none, text, cap, cap, shown);
        assert(none + (text + (cap + shown)) =~= text + (cap + shown));
    }
}

proof fn lemma_tags_shown(line: Seq<SegmentView>, count: nat, rest: Seq<char>)
    requires
        count <= line.len(),
        tags_escape_free(line),
    ensures
        without_escapes(tags_printed(line, count) + rest) == tags_drawn(line, count)
            + without_escapes(rest),
    decreases count,
{
    if count == 0 {
        assert(tags_printed(line, count) + rest =~= rest);
        assert(tags_drawn(line, count) + without_escapes(rest) =~= without_escapes(rest));
    } else {
        let at = count - 1;
        let before = tags_printed(line, at as nat);
        assert(tags_printed(line, count) + rest =~= before + (tag_printed(line, at) + rest));
        lemma_tags_shown(line, at as nat, tag_printed(line, at) + rest);
        lemma_tag_shown(line, at, rest);
        assert(tags_drawn(line, at as nat) + (tag_drawn(line, at) + without_escapes(rest))
            =~= tags_drawn(line, count) + without_escapes(rest));
    }
}

proof fn lemma_lines_shown(lines: Seq<Seq<SegmentView>>, rest: Seq<char>)
    requires
        forall|i: int| 0 <= i < lines.len() ==> tags_escape_free(#[trigger] lines[i]),
    ensures
        without_escapes(
            joined(lines.map_values(|line: Seq<SegmentView>| line_printed(line)), "\n"@) + rest,
        ) == joined(lines.map_values(|line: Seq<SegmentView>| line_drawn(line)), "\n"@)
            + without_escapes(rest),
    decreases lines.len(),
{
    let printed = lines.map_values(|line: Seq<SegmentView>| line_printed(line));
    let drawn = lines.map_values(|line: Seq<SegmentView>| line_drawn(line));
    if lines.len() == 0 {
        assert(joined(printed, "\n"@) + rest =~= rest);
        assert(joined(drawn, "\n"@) + without_escapes(rest) =~= without_escapes(rest));
    } else {
        let last = lines[lines.len() - 1];
        lemma_tags_shown(last, last.len(), rest);
        if lines.len() > 1 {
            reveal_strlit("\n");
            let front = lines.drop_last();
            assert forall|i: int| 0 <= i < front.len() implies tags_escape_free(
                #[trigger] front[i],
            ) by {
                assert(front[i] == lines[i]);
            }
            let end = line_printed(last) + rest;
            assert(printed.drop_last() =~= front.map_values(
                |line: Seq<SegmentView>| line_printed(line),
            ));
            assert(drawn.drop_last() =~= front.map_values(
                |line: Seq<SegmentView>| line_drawn(line),
            ));
            let before = joined(printed.drop_last(), "\n"@);
            assert(joined(printed, "\n"@) + rest =~= before + ("\n"@ + end));
            lemma_lines_shown(front, "\n"@ + end);
            lemma_plain_is_shown("\n"@, end);
            assert(joined(drawn.drop_last(), "\n"@) + ("\n"@ + (line_drawn(last)
                + without_escapes(rest))) =~= joined(drawn, "\n"@) + without_escapes(rest));
        }
    }
}

/// Without its escape sequences the prompt is what its lines are drawn as, where no text and no
/// icon holds an escape character.
pub proof fn prompt_shows_its_drawing(
    info: StatusView,
    prompt: PromptView,
    defaults: DefaultsView,
    terminal: nat,
    initial: nat,
)
    requires
        inputs_escape_free(info, prompt),
    ensures
        without_escapes(prompt_printed(info, prompt, defaults, terminal, initial)) == joined(
            prompt_lines(info, prompt, defaults, terminal, initial).map_values(
                |line: Seq<SegmentView>| line_drawn(line),
            ),
            "\n"@,
        ),
{
    let usable = usable_width(terminal);
    let tags = fitted_tags(status_tags(info, prompt, defaults), usable);
    let lengths = line_lengths(tag_widths(tags), usable, initial);
    let lines = prompt_lines(info, prompt, defaults, terminal, initial);
    let none = Seq::<char>::empty();
    lemma_status_tags_escape_free(info, prompt, defaults, usable);
    lines_keep_all_tags(tags, tag_widths(tags), usable, initial);
    assert forall|i: int| 0 <= i < lines.len() implies tags_escape_free(#[trigger] lines[i]) by {
        lemma_line_bounds(lengths, i);
        let start = line_start(lengths, i) as int;
        assert forall|k: int| 0 <= k < lines[i].len() implies escape_free(
            (#[trigger] lines[i][k]).icon,
        ) && escape_free(lines[i][k].value) by {
            assert(lines[i][k] == tags[start + k]);
        }
    }
    lemma_lines_shown(lines, none);
    assert(without_escapes(none) =~= none);
    let printed = prompt_printed(info, prompt, defaults, terminal, initial);
    let drawn = joined(lines.map_values(|line: Seq<SegmentView>| line_drawn(line)), "\n"@);
    assert(printed + none =~= printed);
    assert(drawn + none =~= drawn);
}

/// A prompt has a tag for the node and one for the port, and one each for the mode, the group
/// and the delay unless they are not shown: a mode or a group that is its default has none.
pub proof fn default_tags_are_hidden(
    info: StatusView,
    prompt: PromptView,
    defaults: DefaultsView,
)
    ensures
        status_tags(info, prompt, defaults).len() == (if is_hidden(
            defaults.mode,
            info.mode.api_name(),
        ) {
            0int
        } else {
            1int
        }) + (if is_hidden(defaults.group, info.group) {
            0int
        } else {
            1int
        }) + (if info.delay == Delay::Hidden {
            0int
        } else {
            1int
        }) + 2,
        is_hidden(defaults.mode, info.mode.api_name()) && is_hidden(defaults.group, info.group)
            ==> status_tags(info, prompt, defaults)[0] == SegmentView::made(
            icon_or(prompt.node_icon, "󰍍"@),
            info.node,
            "#a6e3a1"@,
        ),
{
}

/// On a line only the first tag has a left cap. Each other tag begins right after the right cap
/// of the one before it.
pub proof fn only_first_tag_has_left_cap(line: Seq<SegmentView>, at: int)
    requires
        0 < at < line.len(),
    ensures
        tags_printed(line, 1) == tag_printed(line, 0),
        tag_printed(line, 0) == fg_sequence(line[0].color) + "\u{e0b6}"@ + bg_fg_sequence(
            line[0].color,
            TAG_TEXT_COLOR@,
        ) + tag_text(line[0].icon, line[0].value) + right_cap(line, 0),
        tags_printed(line, (at + 1) as nat) == tags_printed(line, at as nat) + tag_printed(
            line,
            at,
        ),
        tag_printed(line, at) == bg_fg_sequence(line[at].color, TAG_TEXT_COLOR@) + tag_text(
            line[at].icon,
            line[at].value,
        ) + right_cap(line, at),
{
    let none = Seq::<char>::empty();
    let body = bg_fg_sequence(line[at].color, TAG_TEXT_COLOR@);
    assert(none + body =~= body);
    reveal_with_fuel(tags_printed, 2);
    assert(none + tag_printed(line, 0) =~= tag_printed(line, 0));
}

/// The tags of a list as contracts see them.
pub open spec fn segment_views(segments: Seq<PromptSegment>) -> Seq<SegmentView> {
    segments.map_values(|segment: PromptSegment| segment@)
}

/// The colour of every tag of a list can be read.
pub open spec fn all_readable(segments: Seq<PromptSegment>) -> bool {
    forall|i: int| 0 <= i < segments.len() ==> cuts_whole((#[trigger] segments[i]).color@)
}

/// Every tag of a list is well formed.
pub open spec fn all_wf(segments: Seq<PromptSegment>) -> bool {
    forall|i: int| 0 <= i < segments.len() ==> (#[trigger] segments[i]).wf()
}

proof fn lemma_tag_colors()
    ensures
        cuts_whole("#fab387"@),
        cuts_whole("#f9e2af"@),
        cuts_whole("#a6e3a1"@),
        cuts_whole("#74c7ec"@),
        cuts_whole("#b4befe"@),
        cuts_whole(TAG_TEXT_COLOR@),
{
    reveal_strlit("#fab387");
    reveal_strlit("#f9e2af");
    reveal_strlit("#a6e3a1");
    reveal_strlit("#74c7ec");
    reveal_strlit("#b4befe");
    reveal_strlit("#11111b");
    lemma_ascii_cuts_whole("#fab387"@);
    lemma_ascii_cuts_whole("#f9e2af"@);
    lemma_ascii_cuts_whole("#a6e3a1"@);
    lemma_ascii_cuts_whole("#74c7ec"@);
    lemma_ascii_cuts_whole("#b4befe"@);
    lemma_ascii_cuts_whole(TAG_TEXT_COLOR@);
}

/// What is printed for the tag at `at` on a line.
pub fn render_tag(segments: &[PromptSegment], at: usize) -> (output: String)
    requires
        all_readable(segments@),
        at < segments@.len(),
    ensures
        output@ == tag_printed(segment_views(segments@), at as int),
{
    proof {
        lemma_tag_colors();
    }
    let segment = &segments[at];
    let left = if at == 0 {
        let mut left = ansi_fg(segment.color);
        left.append("\u{e0b6}");
        left
    } else {
        String::new()
    };
    let right = if at + 1 < segments.len() {
        let mut right = ansi_bg_fg(segments[at + 1].color, segment.color);
        right.append("\u{e0b4}");
        right
    } else {
        let mut right = ANSI_RESET.to_owned();
        right.append(ansi_fg(segment.color).as_str());
        right.append("\u{e0b4}");
        right.append(ANSI_RESET);
        right
    };
    let mut output = left;
    output.append(ansi_bg_fg(segment.color, TAG_TEXT_COLOR).as_str());
    output.append(plain_tag(segment.icon.as_str(), segment.value.as_str()).as_str());
    output.append(right.as_str());
    output
}

/// What is printed for a line of tags.
pub fn render_prompt_line(segments: &[PromptSegment]) -> (output: String)
    requires
        all_readable(segments@),
    ensures
        output@ == line_printed(segment_views(segments@)),
{
    let mut output = String::new();
    let mut index: usize = 0;
    while index < segments.len()
        invariant
            index <= segments@.len(),
            all_readable(segments@),
            output@ == tags_printed(segment_views(segments@), index as nat),
        decreases segments@.len() - index,
    {
        output.append(render_tag(segments, index).as_str());
        index += 1;
    }
    output
}

/// Whether the tag of a value is not shown because the value is the configured default.
pub fn tag_is_hidden(default: &Option<String>, current: &str) -> (yes: bool)
    ensures
        yes == is_hidden(optional(*default), current@),
{
    match default {
        Some(value) => *trim(value.as_str()).as_str() == *current,
        None => false,
    }
}

/// The configured icon, or the icon of the library.
pub fn icon_or_own<'a>(icon: &'a Option<String>, own: &'static str) -> (chosen: &'a str)
    ensures
        chosen@ == icon_or(optional(*icon), own@),
{
    match icon {
        Some(icon) => icon.as_str(),
        None => own,
    }
}

/// The tags of the prompt from left to right.
pub fn status_segments(
    info: &StatusInfo,
    prompt: &PromptConfig,
    defaults: &TagDefaults,
) -> (segments: Vec<PromptSegment>)
    ensures
        segment_views(segments@) == status_tags(info@, prompt@, defaults@),
        all_wf(segments@),
        all_readable(segments@),
{
    proof {
        lemma_tag_colors();
    }
    let mut segments: Vec<PromptSegment> = Vec::with_capacity(5);
    if !tag_is_hidden(&defaults.mode, info.mode.api_value()) {
        segments.push(
            PromptSegment::new(icon_or_own(&prompt.mode_icon, "󰒓"), info.mode.label(), "#fab387"),
        );
    }
    assert(segment_views(segments@) =~= mode_tags(info@, prompt@, defaults@));
    let ghost with_mode = segments@;
    if !tag_is_hidden(&defaults.group, info.group.as_str()) {
        segments.push(
            PromptSegment::new(
                icon_or_own(&prompt.group_icon, "󰓹"),
                info.group.as_str(),
                "#f9e2af",
            ),
        );
    }
    assert(segment_views(segments@) =~= mode_tags(info@, prompt@, defaults@) + group_tags(
        info@,
        prompt@,
        defaults@,
    ));
    segments.push(
        PromptSegment::new(icon_or_own(&prompt.node_icon, "󰍍"), info.node.as_str(), "#a6e3a1"),
    );
    let ghost with_node = segment_views(segments@);
    match delay_text(info.delay) {
        Some(delay) => {
            segments.push(
                PromptSegment::new(
                    icon_or_own(&prompt.delay_icon, "󱎫"),
                    delay.as_str(),
                    "#74c7ec",
                ),
            );
        },
        None => {},
    }
    assert(segment_views(segments@) =~= with_node + delay_tags(info@, prompt@));
    segments.push(
        PromptSegment::new(
            icon_or_own(&prompt.port_icon, "󰤨"),
            decimal_text(info.port as u64).as_str(),
            "#b4befe",
        ),
    );
    assert(segment_views(segments@) =~= status_tags(info@, prompt@, defaults@));
    segments
}

/// The prompt for a terminal, of whose first line some columns are in use. Where those fit in
/// the terminal, each line that is drawn does too.
pub fn format_status_prompt(
    info: &StatusInfo,
    prompt: &PromptConfig,
    defaults: &TagDefaults,
    terminal_width: usize,
    initial_width: usize,
) -> (output: String)
    ensures
        output@ == prompt_printed(
            info@,
            prompt@,
            defaults@,
            terminal_width as nat,
            initial_width as nat,
        ),
        prompt_fits(info@, prompt@, defaults@, terminal_width as nat, initial_width as nat),
{
    let terminal: usize = if terminal_width < 20 {
        20
    } else {
        terminal_width
    };
    let ghost usable = usable_width(terminal_width as nat);
    let segments = status_segments(info, prompt, defaults);
    let ghost all = status_tags(info@, prompt@, defaults@);
    let ghost tags = fitted_tags(all, usable);
    let mut fitted: Vec<PromptSegment> = Vec::new();
    let mut widths: Vec<usize> = Vec::new();
    assert(counts_caps(all));
    let mut i: usize = 0;
    while i < segments.len()
        invariant
            i <= segments@.len(),
            usable == terminal,
            usable >= 20,
            segment_views(segments@) == all,
            tags == fitted_tags(all, usable),
            all_wf(segments@),
            all_readable(segments@),
            counts_caps(all),
            fitted@.len() == i,
            widths@.len() == i,
            all_readable(fitted@),
            forall|k: int| 0 <= k < i ==> (#[trigger] fitted@[k])@ == tags[k],
            forall|k: int|
                0 <= k < i ==> 0 < #[trigger] widths@[k] <= usable && widths@[k] == tags[k].width,
        decreases segments@.len() - i,
    {
        assert(all[i as int] == segments@[i as int]@);
        let segment = segments[i].fit_to_width(terminal);
        proof {
            assert(segment@ == tags[i as int]);
            assert(segments@[i as int].color@ == segment.color@);
            lemma_drawn_width(segment.icon@, segment.value@);
        }
        widths.push(segment.width);
        fitted.push(segment);
        i += 1;
    }
    assert(segment_views(fitted@) =~= tags);
    assert(counts(widths@) =~= tag_widths(tags));
    let lengths = break_lines(&widths, terminal, initial_width);
    let ghost counted = counts(lengths@);
    proof {
        lines_keep_all_tags(tags, tag_widths(tags), usable, initial_width as nat);
        lemma_fitted_tags(all, usable);
    }
    let ghost lines = grouped(tags, counted);
    proof {
        if initial_width <= usable {
            assert forall|line: int| 0 <= line < lines.len() implies lead(
                line,
                initial_width as nat,
            ) + prompt_width(line_drawn(#[trigger] lines[line])) <= usable by {
                let widths = tag_widths(tags);
                lines_fit_the_terminal(widths, usable, initial_width as nat, line);
                lemma_line_bounds(counted, line);
                assert(counts_caps(lines[line])) by {
                    let start = line_start(counted, line) as int;
                    assert forall|i: int| 0 <= i < lines[line].len() implies (
                    #[trigger] lines[line][i]).width == prompt_width(
                        drawn_tag(lines[line][i].icon, lines[line][i].value),
                    ) by {
                        assert(lines[line][i] == tags[start + i]);
                    }
                }
                lemma_drawn_within_counted(lines[line], lines[line].len());
                assert(tag_widths(lines[line]).take(lines[line].len() as int) =~= grouped(
                    widths,
                    counted,
                )[line]);
            }
        }
    }
    let mut printed: Vec<String> = Vec::new();
    let mut start: usize = 0;
    let mut line: usize = 0;
    while line < lengths.len()
        invariant
            line <= lengths@.len(),
            counted == counts(lengths@),
            total(counted) == fitted.len(),
            start == line_start(counted, line as int),
            start <= fitted@.len(),
            all_readable(fitted@),
            segment_views(fitted@) == tags,
            lines == grouped(tags, counted),
            printed@.len() == line,
            forall|k: int| 0 <= k < line ==> #[trigger] printed@[k]@ == line_printed(lines[k]),
        decreases lengths@.len() - line,
    {
        proof {
            lemma_line_bounds(counted, line as int);
            assert(counted[line as int] == lengths@[line as int]);
        }
        let end = start + lengths[line];
        let part = slice_subrange(fitted.as_slice(), start, end);
        assert(segment_views(part@) =~= lines[line as int]);
        printed.push(render_prompt_line(part));
        start = end;
        line += 1;
    }
    assert(texts(printed@) =~= lines.map_values(|tags: Seq<SegmentView>| line_printed(tags)));
    join(&printed, "\n")
}

/// The state as contracts see it, where there is one.
pub open spec fn status_view(status: Option<&StatusInfo>) -> Option<StatusView> {
    match status {
        Some(info) => Some(info@),
        None => None,
    }
}

/// A message after a coloured mark.
pub open spec fn marked_message(color: Seq<char>, mark: Seq<char>, message: Seq<char>) -> Seq<
    char,
> {
    color + mark + ANSI_RESET@ + " "@ + message
}

/// A message after a coloured mark, and the prompt after the message where there is a state to
/// show. The prompt's first line begins after the mark, the message and two spaces.
pub open spec fn message_printed(
    color: Seq<char>,
    mark: Seq<char>,
    message: Seq<char>,
    status: Option<StatusView>,
    prompt: PromptView,
    defaults: DefaultsView,
    terminal: nat,
) -> Seq<char> {
    let marked = marked_message(color, mark, message);
    match status {
        Some(info) => marked + " "@ + prompt_printed(
            info,
            prompt,
            defaults,
            terminal,
            text_columns(message) as nat + 3,
        ),
        None => marked,
    }
}

/// The first tag goes on a new line wherever the columns in use reach the terminal's width
/// already: how far they go beyond it makes no difference.
proof fn lemma_initial_beyond(widths: Seq<nat>, terminal: nat, initial: nat, other: nat)
    requires
        terminal > 0,
        initial >= terminal,
        other >= terminal,
        widths.len() > 0,
    ensures
        placed(widths, terminal, initial) == placed(widths, terminal, other),
    decreases widths.len(),
{
    if widths.len() > 1 {
        lemma_initial_beyond(widths.drop_last(), terminal, initial, other);
    } else {
        assert(widths.drop_last() =~= Seq::<nat>::empty());
        reveal_with_fuel(placed, 2);
    }
}

proof fn lemma_prompt_initial_beyond(
    info: StatusView,
    prompt: PromptView,
    defaults: DefaultsView,
    terminal: nat,
    initial: nat,
    other: nat,
)
    requires
        initial >= usable_width(terminal),
        other >= usable_width(terminal),
    ensures
        prompt_printed(info, prompt, defaults, terminal, initial) == prompt_printed(
            info,
            prompt,
            defaults,
            terminal,
            other,
        ),
{
    let usable = usable_width(terminal);
    let tags = fitted_tags(status_tags(info, prompt, defaults), usable);
    assert(tags.len() > 0);
    lemma_initial_beyond(tag_widths(tags), usable, initial, other);
}

/// A message after a coloured mark, and the prompt after it where there is a state.
fn marked_line(
    color: &str,
    mark: &str,
    message: &str,
    status: Option<&StatusInfo>,
    prompt: &PromptConfig,
    defaults: &TagDefaults,
    terminal_width: usize,
) -> (output: String)
    ensures
        output@ == message_printed(
            color@,
            mark@,
            message@,
            status_view(status),
            prompt@,
            defaults@,
            terminal_width as nat,
        ),
{
    let mut output = color.to_owned();
    output.append(mark);
    output.append(ANSI_RESET);
    output.append(" ");
    output.append(message);
    match status {
        Some(info) => {
            let columns = display_width(message);
            let initial_width = columns.saturating_add(3);
            output.append(" ");
            output.append(
                format_status_prompt(info, prompt, defaults, terminal_width, initial_width).as_str(),
            );
            proof {
                if columns + 3 > usize::MAX {
                    lemma_prompt_initial_beyond(
                        info@,
                        prompt@,
                        defaults@,
                        terminal_width as nat,
                        initial_width as nat,
                        columns as nat + 3,
                    );
                }
            }
        },
        None => {},
    }
    output
}

/// The line that reports success: a green check mark, the message, and the prompt where there
/// is a state to show.
pub fn success_line(
    message: &str,
    status: Option<&StatusInfo>,
    prompt: &PromptConfig,
    defaults: &TagDefaults,
    terminal_width: usize,
) -> (output: String)
    ensures
        output@ == message_printed(
            ANSI_BOLD_GREEN@,
            "✔"@,
            message@,
            status_view(status),
            prompt@,
            defaults@,
            terminal_width as nat,
        ),
{
    marked_line(ANSI_BOLD_GREEN, "✔", message, status, prompt, defaults, terminal_width)
}

/// The line that reports an error: a red cross, the message, and the prompt where there is a
/// state to show.
pub fn error_line(
    message: &str,
    status: Option<&StatusInfo>,
    prompt: &PromptConfig,
    defaults: &TagDefaults,
    terminal_width: usize,
) -> (output: String)
    ensures
        output@ == message_printed(
            ANSI_BOLD_RED@,
            "✘"@,
            message@,
            status_view(status),
            prompt@,
            defaults@,
            terminal_width as nat,
        ),
{
    marked_line(ANSI_BOLD_RED, "✘", message, status, prompt, defaults, terminal_width)
}

proof fn lemma_words_joined(words: Seq<Seq<char>>)
    requires
        words.len() > 0,
        forall|i: int| 0 <= i < words.len() ==> (#[trigger] words[i]).len() > 0,
    ensures
        joined(words, " "@).len() > 0,
{
    assert(words[words.len() - 1].len() > 0);
}

/// A text is normalized word by word: what stands before a whitespace character and what stands
/// behind it are normalized each, with one space between them where both hold a word. A word stays
/// as it is.
pub proof fn normalizing_goes_word_by_word(left: Seq<char>, ch: char, right: Seq<char>)
    requires
        is_whitespace(ch),
    ensures
        normalized(left + seq![ch] + right) == (if normalized(left).len() == 0 {
            normalized(right)
        } else if normalized(right).len() == 0 {
            normalized(left)
        } else {
            normalized(left) + " "@ + normalized(right)
        }),
        (forall|i: int| 0 <= i < left.len() ==> !is_whitespace(#[trigger] left[i]))
            ==> normalized(left) == left,
{
    let filled = |part: Seq<char>| part.len() > 0;
    let first = pieces(left, Delimiter::Whitespace);
    let second = pieces(right, Delimiter::Whitespace);
    lemma_pieces_concat(left, ch, right, Delimiter::Whitespace);
    Seq::filter_distributes_over_add(first, second, filled);
    lemma_words(left);
    lemma_words(right);
    let words = non_empty(first);
    let more = non_empty(second);
    joining_puts_separators_between(words, more, left, " "@);
    if words.len() > 0 {
        lemma_words_joined(words);
    } else {
        assert(words + more =~= more);
    }
    if more.len() > 0 {
        lemma_words_joined(more);
    } else {
        assert(words + more =~= words);
    }
    if forall|i: int| 0 <= i < left.len() ==> !is_whitespace(#[trigger] left[i]) {
        assert forall|i: int| 0 <= i < left.len() implies !Delimiter::Whitespace.cuts(
            #[trigger] left[i],
        ) by {
            assert(!is_whitespace(left[i]));
        }
        lemma_pieces_of_one(left, Delimiter::Whitespace);
        assert(seq![left].drop_last() =~= Seq::<Seq<char>>::empty());
        reveal_with_fuel(Seq::filter, 2);
        assert(Seq::<Seq<char>>::empty().push(left) =~= seq![left]);
        if left.len() == 0 {
            assert(normalized(left) =~= left);
        }
    }
}

/// Each tag that is shown holds the value of its own field, under the icon and in the colour of
/// its own: from left to right the mode, the group, the node, the delay and the port. The mode is
/// hidden where it is the configured default, and so is the group, whatever the other is. The
/// delay is hidden where there is none. A configured icon takes the place of the usual one.
pub proof fn tags_show_their_fields(info: StatusView, prompt: PromptView, defaults: DefaultsView)
    ensures
        ({
            let tags = status_tags(info, prompt, defaults);
            let mode = if defaults.mode matches Some(name) && trimmed(name)
                == info.mode.api_name() {
                0int
            } else {
                1int
            };
            let group = if defaults.group matches Some(name) && trimmed(name) == info.group {
                0int
            } else {
                1int
            };
            let delay = if info.delay == Delay::Hidden {
                0int
            } else {
                1int
            };
            &&& tags.len() == mode + group + 1 + delay + 1
            &&& mode == 1 ==> {
                &&& tags[0].value == normalized(info.mode.shown())
                &&& tags[0].color == "#fab387"@
                &&& tags[0].icon == normalized(
                    match prompt.mode_icon {
                        Some(icon) => icon,
                        None => "󰒓"@,
                    },
                )
            }
            &&& group == 1 ==> {
                &&& tags[mode].value == normalized(info.group)
                &&& tags[mode].color == "#f9e2af"@
                &&& tags[mode].icon == normalized(
                    match prompt.group_icon {
                        Some(icon) => icon,
                        None => "󰓹"@,
                    },
                )
            }
            &&& tags[mode + group].value == normalized(info.node)
            &&& tags[mode + group].color == "#a6e3a1"@
            &&& tags[mode + group].icon == normalized(
                match prompt.node_icon {
                    Some(icon) => icon,
                    None => "󰍍"@,
                },
            )
            &&& delay == 1 ==> {
                &&& info.delay matches Delay::Value(millis) ==> tags[mode + group + 1].value
                    == normalized(decimal(millis as nat) + "ms"@)
                &&& info.delay == Delay::Timeout ==> tags[mode + group + 1].value == normalized(
                    "timeout"@,
                )
                &&& tags[mode + group + 1].color == "#74c7ec"@
                &&& tags[mode + group + 1].icon == normalized(
                    match prompt.delay_icon {
                        Some(icon) => icon,
                        None => "󱎫"@,
                    },
                )
            }
            &&& tags.last().value == normalized(decimal(info.port as nat))
            &&& tags.last().color == "#b4befe"@
            &&& tags.last().icon == normalized(
                match prompt.port_icon {
                    Some(icon) => icon,
                    None => "󰤨"@,
                },
            )
        }),
{
}

/// Every tag counts the columns of its text and of both its caps.
pub proof fn tags_count_both_their_caps(
    info: StatusView,
    prompt: PromptView,
    defaults: DefaultsView,
    at: int,
)
    requires
        0 <= at < status_tags(info, prompt, defaults).len(),
    ensures
        ({
            let tag = status_tags(info, prompt, defaults)[at];
            tag.width == 4 + prompt_width(" "@ + tag.icon + " "@ + tag.value + " "@)
        }),
{
    let tag = status_tags(info, prompt, defaults)[at];
    lemma_drawn_width(tag.icon, tag.value);
}

/// A line is printed tag by tag, and the first with a left cap in its colour before its text. The
/// columns that are counted for a line are those of its tags.
pub proof fn printing_goes_tag_by_tag(line: Seq<SegmentView>, at: int)
    requires
        0 <= at < line.len(),
    ensures
        line_printed(line) == tags_printed(line, line.len()),
        tag_widths(line).len() == line.len(),
        tag_widths(line)[at] == line[at].width,
        tags_printed(line, 0) == Seq::<char>::empty(),
        tags_printed(line, (at + 1) as nat) == tags_printed(line, at as nat) + ((if at == 0 {
            fg_sequence(line[0].color) + "\u{e0b6}"@
        } else {
            Seq::empty()
        }) + bg_fg_sequence(line[at].color, "#11111b"@) + (" "@ + line[at].icon + " "@
            + line[at].value + " "@) + right_cap(line, at)),
{
}

/// A tag that fits stays as it is. One that does not keeps its colour: its icon is cut to what
/// the caps and the spaces leave, and its value to what the caps, the spaces and the icon leave.
pub proof fn tags_are_cut_to_what_is_left(tag: SegmentView, limit: nat)
    ensures
        ({
            let frame = 4 + 3 * prompt_width(" "@);
            let cut = tag.fitted(limit);
            let icon = truncated(
                tag.icon,
                if frame <= limit {
                    (limit - frame) as nat
                } else {
                    0
                },
            );
            let value = truncated(
                tag.value,
                if frame + prompt_width(icon) <= limit {
                    (limit - frame - prompt_width(icon)) as nat
                } else {
                    0
                },
            );
            &&& tag.width <= limit ==> cut == tag
            &&& tag.width > limit ==> {
                &&& cut.color == tag.color
                &&& cut.icon == normalized(icon)
                &&& cut.value == normalized(value)
                &&& cut.width == 4 + prompt_width(
                    " "@ + normalized(icon) + " "@ + normalized(value) + " "@,
                )
            }
        }),
{
    let frame = "\u{e0b6}   \u{e0b4}"@;
    let icon = truncated(tag.icon, less(limit, prompt_width(frame)));
    let value = truncated(
        tag.value,
        less(limit, prompt_width("\u{e0b6} "@ + icon + "  \u{e0b4}"@)),
    );
    lemma_caps();
    lemma_tag_width(icon, value);
    lemma_drawn_width(normalized(icon), normalized(value));
    reveal_strlit(" ");
    reveal_strlit("\u{e0b6}");
    reveal_strlit("\u{e0b4}");
    reveal_strlit("\u{e0b6}   \u{e0b4}");
    let space = " "@;
    let left = "\u{e0b6}"@;
    let right = "\u{e0b4}"@;
    assert(frame =~= left + space + space + space + right);
    prompt_width_adds(left, space);
    prompt_width_adds(left + space, space);
    prompt_width_adds(left + space + space, space);
    prompt_width_adds(left + space + space + space, right);
}

proof fn lemma_drawn_start(line: Seq<SegmentView>, more: SegmentView, count: nat)
    requires
        count <= line.len(),
    ensures
        tags_drawn(line.push(more), count) == tags_drawn(line, count),
    decreases count,
{
    if count > 0 {
        lemma_drawn_start(line, more, (count - 1) as nat);
        assert(line.push(more)[count - 1] == line[count - 1]);
    }
}

/// A line shows its first tag between two caps, and behind it each other tag with a right cap
/// alone: its icon and its value, with a space around both.
pub proof fn drawing_goes_tag_by_tag(line: Seq<SegmentView>, tag: SegmentView)
    ensures
        line_drawn(Seq::empty()) == Seq::<char>::empty(),
        line_drawn(seq![tag]) == "\u{e0b6}"@ + (" "@ + tag.icon + " "@ + tag.value + " "@)
            + "\u{e0b4}"@,
        line.len() > 0 ==> line_drawn(line.push(tag)) == line_drawn(line) + ((" "@ + tag.icon
            + " "@ + tag.value + " "@) + "\u{e0b4}"@),
{
    let none = Seq::<char>::empty();
    let text = tag_text(tag.icon, tag.value);
    lemma_drawn_start(line, tag, line.len());
    reveal_with_fuel(tags_drawn, 2);
    assert(none + tag_drawn(seq![tag], 0) =~= tag_drawn(seq![tag], 0));
    assert(none + text =~= text);
    if line.len() > 0 {
        assert(tag_drawn(line.push(tag), line.len() as int) =~= text + "\u{e0b4}"@);
    }
}

/// The text of a tag stands on the colour of the tag. Its right cap is drawn in that colour on
/// the background of the next tag, and that of the last tag on the terminal's own.
pub proof fn caps_blend_into_the_next_tag(line: Seq<SegmentView>, at: int)
    requires
        0 <= at < line.len(),
    ensures
        at + 1 < line.len() ==> right_cap(line, at) == bg_fg_sequence(
            line[at + 1].color,
            line[at].color,
        ) + "\u{e0b4}"@,
        at + 1 == line.len() ==> right_cap(line, at) == "\x1b[0m"@ + fg_sequence(line[at].color)
            + "\u{e0b4}"@ + "\x1b[0m"@,
        TAG_TEXT_COLOR@ == "#11111b"@,
{
}

/// A prompt counts on the columns of the terminal, and on twenty where it has fewer.
pub proof fn twenty_columns_are_the_least(terminal: nat)
    ensures
        terminal <= 20 ==> usable_width(terminal) == 20,
        terminal >= 20 ==> usable_width(terminal) == terminal,
{
}

/// The lines of a prompt hold all its tags in their order, each cut to the terminal's width. They
/// are one line, which is all that is printed, where all tags fit on it behind the columns in use.
pub proof fn prompt_lines_hold_all_tags(
    info: StatusView,
    prompt: PromptView,
    defaults: DefaultsView,
    terminal: nat,
    initial: nat,
)
    ensures
        ({
            let usable = usable_width(terminal);
            let tags = status_tags(info, prompt, defaults).map_values(
                |tag: SegmentView| tag.fitted(usable),
            );
            let lines = prompt_lines(info, prompt, defaults, terminal, initial);
            &&& lines.flatten() == tags
            &&& prompt_printed(info, prompt, defaults, terminal, initial) == joined(
                lines.map_values(|line: Seq<SegmentView>| line_printed(line)),
                "\n"@,
            )
            &&& initial + line_width(tag_widths(tags)) < usable ==> {
                &&& lines == seq![tags]
                &&& prompt_printed(info, prompt, defaults, terminal, initial) == tags_printed(
                    tags,
                    tags.len(),
                )
            }
        }),
{
    let usable = usable_width(terminal);
    let tags = fitted_tags(status_tags(info, prompt, defaults), usable);
    let widths = tag_widths(tags);
    lines_keep_all_tags(tags, widths, usable, initial);
    if initial + line_width(widths) < usable {
        let lengths = line_lengths(widths, usable, initial);
        what_fits_stands_on_one_line(widths, usable, initial);
        assert(lengths.take(0) =~= Seq::<nat>::empty());
        assert(line_start(lengths, 0) == 0);
        assert(tags.subrange(0, tags.len() as int) =~= tags);
        assert(grouped(tags, lengths) =~= seq![tags]);
        let printed = seq![tags].map_values(|line: Seq<SegmentView>| line_printed(line));
        assert(printed =~= seq![line_printed(tags)]);
    }
}

/// A prompt that fits on one line shows its tags there, one behind the other, where no text and
/// no icon holds an escape character.
pub proof fn prompt_on_one_line_shows_its_tags(
    info: StatusView,
    prompt: PromptView,
    defaults: DefaultsView,
    terminal: nat,
    initial: nat,
)
    requires
        inputs_escape_free(info, prompt),
        initial + line_width(
            tag_widths(
                status_tags(info, prompt, defaults).map_values(
                    |tag: SegmentView| tag.fitted(usable_width(terminal)),
                ),
            ),
        ) < usable_width(terminal),
    ensures
        without_escapes(prompt_printed(info, prompt, defaults, terminal, initial)) == line_drawn(
            status_tags(info, prompt, defaults).map_values(
                |tag: SegmentView| tag.fitted(usable_width(terminal)),
            ),
        ),
{
    let usable = usable_width(terminal);
    let tags = fitted_tags(status_tags(info, prompt, defaults), usable);
    assert(tags =~= status_tags(info, prompt, defaults).map_values(
        |tag: SegmentView| tag.fitted(usable_width(terminal)),
    ));
    prompt_lines_hold_all_tags(info, prompt, defaults, terminal, initial);
    prompt_shows_its_drawing(info, prompt, defaults, terminal, initial);
    let drawn = seq![tags].map_values(|line: Seq<SegmentView>| line_drawn(line));
    assert(drawn =~= seq![line_drawn(tags)]);
}

/// A message stands behind its mark, which is coloured, with a space between. The prompt comes
/// behind the message and a space, and counts on the columns of the message and three more being
/// in use. There is a prompt wherever there is a state.
pub proof fn message_comes_before_the_prompt(
    color: Seq<char>,
    mark: Seq<char>,
    message: Seq<char>,
    info: &StatusInfo,
    prompt: PromptView,
    defaults: DefaultsView,
    terminal: nat,
)
    ensures
        status_view(Some(info)) == Some(info@),
        status_view(None) is None,
        message_printed(color, mark, message, None, prompt, defaults, terminal) == color + mark
            + "\x1b[0m"@ + " "@ + message,
        message_printed(color, mark, message, Some(info@), prompt, defaults, terminal)
            == message_printed(color, mark, message, None, prompt, defaults, terminal) + " "@
            + prompt_printed(
            info@,
            prompt,
            defaults,
            terminal,
            (text_columns(message) + 3) as nat,
        ),
        marked_message(color, mark, message) == message_printed(
            color,
            mark,
            message,
            None,
            prompt,
            defaults,
            terminal,
        ),
{
}

/// A message shows as its mark, a space and the message.
pub proof fn message_shows_behind_its_mark(
    mark: Seq<char>,
    message: Seq<char>,
    prompt: PromptView,
    defaults: DefaultsView,
    terminal: nat,
)
    requires
        escape_free(mark),
        escape_free(message),
    ensures
        without_escapes(
            message_printed(ANSI_BOLD_GREEN@, mark, message, None, prompt, defaults, terminal),
        ) == mark + " "@ + message,
        without_escapes(
            message_printed(ANSI_BOLD_RED@, mark, message, None, prompt, defaults, terminal),
        ) == mark + " "@ + message,
{
    lemma_marked_shown(ANSI_BOLD_GREEN@, mark, message);
    lemma_marked_shown(ANSI_BOLD_RED@, mark, message);
    let rest = mark + (ANSI_RESET@ + (" "@ + message));
    lemma_bold_shows_nothing(rest);
}

proof fn lemma_marked_shown(color: Seq<char>, mark: Seq<char>, message: Seq<char>)
    requires
        escape_free(mark),
        escape_free(message),
    ensures
        marked_message(color, mark, message) == color + (mark + (ANSI_RESET@ + (" "@ + message))),
        without_escapes(mark + (ANSI_RESET@ + (" "@ + message))) == mark + " "@ + message,
{
    let none = Seq::<char>::empty();
    let text = " "@ + message;
    reveal_strlit(" ");
    assert(marked_message(color, mark, message) =~= color + (mark + (ANSI_RESET@ + text)));
    lemma_plain_is_shown(mark, ANSI_RESET@ + text);
    lemma_reset_shows_nothing(text);
    lemma_escape_free_add(" "@, message);
    lemma_plain_is_shown(text, none);
    assert(text + none =~= text);
    assert(without_escapes(none) =~= none);
    assert(mark + text =~= mark + " "@ + message);
}

/// Icons, defaults and tags are seen with all that they hold.
pub proof fn settings_are_seen_as_they_are(
    prompt: PromptConfig,
    defaults: TagDefaults,
    segment: PromptSegment,
)
    ensures
        prompt@.mode_icon == optional(prompt.mode_icon),
        prompt@.group_icon == optional(prompt.group_icon),
        prompt@.node_icon == optional(prompt.node_icon),
        prompt@.delay_icon == optional(prompt.delay_icon),
        prompt@.port_icon == optional(prompt.port_icon),
        defaults@.mode == optional(defaults.mode),
        defaults@.group == optional(defaults.group),
        segment@.icon == segment.icon@,
        segment@.value == segment.value@,
        segment@.color == segment.color@,
        segment@.width == segment.width,
{
}

} // verus!

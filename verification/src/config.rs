//! The program's own configuration, and the defaults that are added to its file.

use vstd::prelude::*;
use crate::prompt::{DefaultsView, PromptConfig, TagDefaults};
use crate::shell::InstallAction;
use crate::text::{
    contains_text, is_whitespace, join, joined, lemma_filter_keeps_all, lemma_joined_push,
    lemma_pieces_are_uncut, lemma_pieces_concat, lemma_pieces_non_empty, lemma_pieces_of_joined,
    lemma_pieces_of_one, lines, lines_end_with_line_feeds, lines_of, occurs_at, optional, pieces,
    pieces_join_back, starts_with, text_ends_with, text_starts_with, texts, trim_start,
    trimmed_start, without_carriage_return, Delimiter,
};

verus! {

/// The key of a setting that is no longer used.
pub const ACTIVE_GROUP: &'static str = "active_group:";

/// The line that sets the mode whose tag is hidden.
pub const MODE_LINE: &'static str = "mode: \"rule\"";

/// The line that sets the group whose tag is hidden.
pub const GROUP_LINE: &'static str = "group: \"🔰 手动选择\"";

/// The lines that set the icons.
pub const PROMPT_LINES: &'static str = "prompt:
  mode_icon: \"󰒓\"
  group_icon: \"󰓹\"
  node_icon: \"󰍍\"
  delay_icon: \"󱎫\"
  port_icon: \"󰤨\"
";

/// The configuration file as it is first written.
pub const DEFAULT_CONFIG: &'static str = "filter: \"\"
concurrency: 20
timeout_ms: 5000
mode: \"rule\"
group: \"🔰 手动选择\"
prompt:
  mode_icon: \"󰒓\"
  group_icon: \"󰓹\"
  node_icon: \"󰍍\"
  delay_icon: \"󱎫\"
  port_icon: \"󰤨\"
";

/// The settings of the configuration file.
#[derive(Debug, Clone)]
pub struct AppConfig {
    /// The ranges of the search for the fastest node, separated by commas.
    pub filter: Option<String>,
    /// How many nodes are tested at a time.
    pub concurrency: Option<usize>,
    /// How long a node may take to answer, in milliseconds.
    pub timeout_ms: Option<u64>,
    /// The mode whose tag is hidden.
    pub mode: Option<String>,
    /// The group whose tag is hidden.
    pub group: Option<String>,
    /// The icons of the tags.
    pub prompt: PromptConfig,
}

/// A copy of an optional text.
fn copy_optional(text: &Option<String>) -> (copy: Option<String>)
    ensures
        optional(copy) == optional(*text),
{
    match text {
        Some(text) => Some(text.clone()),
        None => None,
    }
}

impl AppConfig {
    /// The mode and the group whose tags are hidden.
    pub fn tag_defaults(&self) -> (defaults: TagDefaults)
        ensures
            defaults@ == (DefaultsView { mode: optional(self.mode), group: optional(self.group) }),
    {
        TagDefaults { mode: copy_optional(&self.mode), group: copy_optional(&self.group) }
    }
}

/// The line sets `key`: it begins with it after whitespace.
pub open spec fn sets(line: Seq<char>, key: Seq<char>) -> bool {
    starts_with(trimmed_start(line), key)
}

/// A line of `text` sets `key`.
pub open spec fn has_key(text: Seq<char>, key: Seq<char>) -> bool {
    exists|i: int| 0 <= i < lines_of(text).len() && sets(#[trigger] lines_of(text)[i], key)
}

/// `text` ends with a line feed.
pub open spec fn ends_line(text: Seq<char>) -> bool {
    text.len() > 0 && text.last() == '\n'
}

/// `text` with a line feed at its end.
pub open spec fn line_ended(text: Seq<char>) -> Seq<char> {
    if ends_line(text) {
        text
    } else {
        text + "\n"@
    }
}

/// `text` with `line` for its last line.
pub open spec fn with_line(text: Seq<char>, line: Seq<char>) -> Seq<char> {
    line_ended(line_ended(text) + line)
}

/// `text` with `line` for its last line, where no line of it sets `key` yet.
pub open spec fn with_key(text: Seq<char>, key: Seq<char>, line: Seq<char>) -> Seq<char> {
    if has_key(text, key) {
        text
    } else {
        with_line(text, line)
    }
}

/// `text` without the lines that set the active group. Its lines end with line feeds alone,
/// and the last one as it did.
pub open spec fn without_active_group(text: Seq<char>) -> Seq<char> {
    let kept = lines_of(text).filter(|line: Seq<char>| !sets(line, ACTIVE_GROUP@));
    let rest = joined(kept, "\n"@);
    if ends_line(text) && rest.len() > 0 {
        rest + "\n"@
    } else {
        rest
    }
}

/// `text` without the active group, and with the mode, the group and the icons set.
pub open spec fn with_defaults(text: Seq<char>) -> Seq<char> {
    let text = with_key(without_active_group(text), "mode:"@, MODE_LINE@);
    let text = with_key(text, "group:"@, GROUP_LINE@);
    with_key(text, "prompt:"@, PROMPT_LINES@)
}

/// Whether a line of a text sets a key.
pub fn config_has_key(input: &str, key: &str) -> (yes: bool)
    ensures
        yes == has_key(input@, key@),
{
    let list = lines(input);
    let mut i: usize = 0;
    assert(texts(list@).len() == list@.len());
    while i < list.len()
        invariant
            i <= list@.len(),
            texts(list@) == lines_of(input@),
            texts(list@).len() == list@.len(),
            forall|k: int| 0 <= k < i ==> !sets(#[trigger] lines_of(input@)[k], key@),
        decreases list@.len() - i,
    {
        assert(lines_of(input@)[i as int] == list@[i as int]@);
        if text_starts_with(trim_start(list[i].as_str()).as_str(), key) {
            return true;
        }
        i += 1;
    }
    false
}

/// Adds a line at the end of a text.
pub fn push_config_line(output: &mut String, line: &str)
    ensures
        final(output)@ == with_line(old(output)@, line@),
{
    if !text_ends_with(output.as_str(), '\n') {
        output.append("\n");
    }
    output.append(line);
    if !text_ends_with(output.as_str(), '\n') {
        output.append("\n");
    }
}

/// A configuration without the lines that set the active group.
pub fn remove_active_group_config(input: &str) -> (output: String)
    ensures
        output@ == without_active_group(input@),
{
    let list = lines(input);
    let ghost all = texts(list@);
    let ghost used = |line: Seq<char>| !sets(line, ACTIVE_GROUP@);
    let mut kept: Vec<String> = Vec::new();
    let mut i: usize = 0;
    assert(texts(kept@) =~= all.take(0).filter(used)) by {
        reveal(Seq::filter);
    }
    while i < list.len()
        invariant
            i <= list@.len(),
            all == texts(list@),
            used == (|line: Seq<char>| !sets(line, ACTIVE_GROUP@)),
            texts(kept@) == all.take(i as int).filter(used),
        decreases list@.len() - i,
    {
        let ghost before = texts(kept@);
        proof {
            reveal(Seq::filter);
            assert(all.take(i + 1).drop_last() == all.take(i as int));
            assert(all[i as int] == list@[i as int]@);
        }
        if !text_starts_with(trim_start(list[i].as_str()).as_str(), ACTIVE_GROUP) {
            kept.push(list[i].clone());
            assert(texts(kept@) =~= before.push(list@[i as int]@));
        }
        i += 1;
    }
    assert(all.take(i as int) == all);
    let mut output = join(&kept, "\n");
    if text_ends_with(input, '\n') && !output.as_str().is_empty() {
        output.append("\n");
    }
    output
}

/// A configuration with the defaults that it lacks, and without the active group.
pub fn ensure_config_defaults(input: &str) -> (output: String)
    ensures
        output@ == with_defaults(input@),
{
    let mut output = remove_active_group_config(input);
    if !config_has_key(output.as_str(), "mode:") {
        push_config_line(&mut output, MODE_LINE);
    }
    if !config_has_key(output.as_str(), "group:") {
        push_config_line(&mut output, GROUP_LINE);
    }
    if !config_has_key(output.as_str(), "prompt:") {
        push_config_line(&mut output, PROMPT_LINES);
    }
    output
}

/// The configuration file as it is first written.
pub fn default_config_file() -> (config: &'static str)
    ensures
        config@ == DEFAULT_CONFIG@,
{
    DEFAULT_CONFIG
}

/// What is to be written to the configuration file, of which `existing` is what it holds where
/// it is there, and whether it is written for the first time.
pub fn config_update(existing: Option<&str>) -> (update: (InstallAction, Option<String>))
    ensures
        match existing {
            None => update.0 == InstallAction::Created && optional(update.1) == Some(
                DEFAULT_CONFIG@,
            ),
            Some(input) => update.0 == InstallAction::Updated && optional(update.1) == (
            if with_defaults(input@) == input@ {
                None
            } else {
                Some(with_defaults(input@))
            }),
        },
{
    match existing {
        None => (InstallAction::Created, Some(DEFAULT_CONFIG.to_owned())),
        Some(input) => {
            let updated = ensure_config_defaults(input);
            if *updated.as_str() == *input {
                (InstallAction::Updated, None)
            } else {
                (InstallAction::Updated, Some(updated))
            }
        },
    }
}

/// The lines of a text as a line feed alone cuts them.
spec fn rows(text: Seq<char>) -> Seq<Seq<char>> {
    pieces(text, Delimiter::Char('\n'))
}

proof fn lemma_rows_concat(left: Seq<char>, right: Seq<char>)
    ensures
        rows(left + "\n"@ + right) == rows(left) + rows(right),
{
    reveal_strlit("\n");
    assert("\n"@ =~= seq!['\n']);
    lemma_pieces_concat(left, '\n', right, Delimiter::Char('\n'));
}

proof fn lemma_rows_of_one(line: Seq<char>)
    requires
        !line.contains('\n'),
    ensures
        rows(line) == seq![line],
{
    lemma_pieces_of_one(line, Delimiter::Char('\n'));
}

proof fn lemma_rows_of_joined(list: Seq<Seq<char>>)
    requires
        list.len() > 0,
        forall|i: int| 0 <= i < list.len() ==> !(#[trigger] list[i]).contains('\n'),
    ensures
        rows(joined(list, "\n"@)) == list,
{
    reveal_strlit("\n");
    assert("\n"@ =~= seq!['\n']);
    assert forall|i: int, at: int| 0 <= i < list.len() && 0 <= at < list[i].len() implies
        !Delimiter::Char('\n').cuts(#[trigger] list[i][at]) by {
        assert(!list[i].contains('\n'));
    }
    lemma_pieces_of_joined(list, '\n', Delimiter::Char('\n'));
}

proof fn lemma_trimmed_start_push(text: Seq<char>, ch: char)
    ensures
        trimmed_start(text.push(ch)) == (if trimmed_start(text).len() > 0 {
            trimmed_start(text).push(ch)
        } else if is_whitespace(ch) {
            Seq::empty()
        } else {
            seq![ch]
        }),
    decreases text.len(),
{
    if text.len() > 0 && is_whitespace(text.first()) {
        assert(text.push(ch).drop_first() =~= text.drop_first().push(ch));
        lemma_trimmed_start_push(text.drop_first(), ch);
    } else if text.len() == 0 {
        assert(text.push(ch) =~= seq![ch]);
        assert(seq![ch].drop_first() =~= Seq::<char>::empty());
        assert(trimmed_start(Seq::<char>::empty()) =~= Seq::<char>::empty());
    }
}

/// Whether a line sets a key does not depend on a carriage return at its end.
proof fn lemma_sets_without_return(line: Seq<char>, key: Seq<char>)
    requires
        key.len() > 0,
        !key.contains('\r'),
    ensures
        sets(without_carriage_return(line), key) == sets(line, key),
{
    if line.len() > 0 && line.last() == '\r' {
        let front = line.drop_last();
        assert(front.push('\r') =~= line);
        lemma_trimmed_start_push(front, '\r');
        let short = trimmed_start(front);
        let long = trimmed_start(line);
        if short.len() > 0 {
            if starts_with(short, key) {
                assert(long.subrange(0, key.len() as int) =~= short.subrange(0, key.len() as int));
            }
            if starts_with(long, key) {
                if key.len() == long.len() {
                    assert(long.subrange(0, key.len() as int)[key.len() - 1] == '\r');
                }
                assert(short.subrange(0, key.len() as int) =~= long.subrange(0, key.len() as int));
            }
        }
    }
}

/// A line that sets a key does so as a row, with the carriage return that may end it.
proof fn lemma_has_key_of_rows(text: Seq<char>, key: Seq<char>)
    requires
        key.len() > 0,
        !key.contains('\r'),
    ensures
        has_key(text, key) == row_sets(text, key),
{
    let list = lines_of(text);
    let cut = rows(text);
    lemma_pieces_non_empty(text, Delimiter::Char('\n'));
    if has_key(text, key) {
        let i = choose|i: int| 0 <= i < list.len() && sets(#[trigger] list[i], key);
        lemma_sets_without_return(cut[i], key);
        assert(sets(cut[i], key));
    }
    if exists|i: int| 0 <= i < cut.len() && sets(#[trigger] cut[i], key) {
        let i = choose|i: int| 0 <= i < cut.len() && sets(#[trigger] cut[i], key);
        lemma_sets_without_return(cut[i], key);
        if i == cut.len() - 1 && cut.last().len() == 0 {
            assert(trimmed_start(cut[i]).len() == 0);
            assert(false);
        }
        assert(sets(list[i], key));
    }
}

/// A row of `text` sets `key`.
spec fn row_sets(text: Seq<char>, key: Seq<char>) -> bool {
    exists|i: int| 0 <= i < rows(text).len() && sets(#[trigger] rows(text)[i], key)
}

proof fn lemma_row_sets_concat(left: Seq<char>, right: Seq<char>, key: Seq<char>)
    ensures
        row_sets(left + "\n"@ + right, key) == (row_sets(left, key) || row_sets(right, key)),
{
    lemma_rows_concat(left, right);
    let both = rows(left + "\n"@ + right);
    if row_sets(left + "\n"@ + right, key) {
        let i = choose|i: int| 0 <= i < both.len() && sets(#[trigger] both[i], key);
        if i < rows(left).len() {
            assert(sets(rows(left)[i], key));
        } else {
            assert(sets(rows(right)[i - rows(left).len()], key));
        }
    }
    if row_sets(left, key) {
        let i = choose|i: int| 0 <= i < rows(left).len() && sets(#[trigger] rows(left)[i], key);
        assert(sets(both[i], key));
    }
    if row_sets(right, key) {
        let i = choose|i: int| 0 <= i < rows(right).len() && sets(#[trigger] rows(right)[i], key);
        assert(sets(both[rows(left).len() + i], key));
    }
}

proof fn lemma_nothing_set(key: Seq<char>)
    requires
        key.len() > 0,
    ensures
        !row_sets(Seq::<char>::empty(), key),
{
    let none = Seq::<char>::empty();
    assert(rows(none) =~= seq![none]);
    assert(trimmed_start(none) =~= none);
}

/// A line feed at the end of a text sets nothing.
proof fn lemma_line_ended_sets(text: Seq<char>, key: Seq<char>)
    requires
        key.len() > 0,
    ensures
        row_sets(line_ended(text), key) == row_sets(text, key),
{
    let none = Seq::<char>::empty();
    assert(line_ended(text) == text || line_ended(text) =~= text + "\n"@ + none);
    lemma_row_sets_concat(text, none, key);
    lemma_nothing_set(key);
}

/// A text with one more line sets what it set before and what the line sets.
proof fn lemma_with_line_sets(text: Seq<char>, line: Seq<char>, key: Seq<char>)
    requires
        key.len() > 0,
    ensures
        row_sets(with_line(text, line), key) == (row_sets(text, key) || row_sets(line, key)),
{
    reveal_strlit("\n");
    let ended = line_ended(text);
    lemma_line_ended_sets(text, key);
    lemma_line_ended_sets(ended + line, key);
    let front = ended.drop_last();
    let none = Seq::<char>::empty();
    assert(ended =~= front + "\n"@ + none);
    assert(ended + line =~= front + "\n"@ + line);
    lemma_row_sets_concat(front, none, key);
    lemma_row_sets_concat(front, line, key);
    lemma_nothing_set(key);
}

proof fn lemma_keys()
    ensures
        "mode:"@.len() > 0,
        !"mode:"@.contains('\r'),
        "group:"@.len() > 0,
        !"group:"@.contains('\r'),
        "prompt:"@.len() > 0,
        !"prompt:"@.contains('\r'),
        ACTIVE_GROUP@.len() > 0,
        !ACTIVE_GROUP@.contains('\r'),
{
    reveal_strlit("mode:");
    reveal_strlit("group:");
    reveal_strlit("prompt:");
    reveal_strlit("active_group:");
}

/// A line that begins with a key, which whitespace does not begin, sets it.
proof fn lemma_first_row_sets(line: Seq<char>, key: Seq<char>, rest: Seq<char>)
    requires
        key.len() > 0,
        !is_whitespace(key[0]),
        starts_with(line, key),
        !line.contains('\n'),
    ensures
        row_sets(line, key),
        row_sets(line + "\n"@ + rest, key),
{
    lemma_rows_of_one(line);
    assert(line.subrange(0, key.len() as int)[0] == line[0]);
    assert(trimmed_start(line) == line);
    assert(sets(rows(line)[0], key));
    lemma_row_sets_concat(line, rest, key);
}

proof fn lemma_default_lines_set()
    ensures
        row_sets(MODE_LINE@, "mode:"@),
        row_sets(GROUP_LINE@, "group:"@),
        row_sets(PROMPT_LINES@, "prompt:"@),
{
    reveal_strlit("\n");
    reveal_strlit("mode:");
    reveal_strlit("group:");
    reveal_strlit("prompt:");
    reveal_strlit("mode: \"rule\"");
    reveal_strlit("group: \"🔰 手动选择\"");
    reveal_strlit("prompt:
  mode_icon: \"󰒓\"
  group_icon: \"󰓹\"
  node_icon: \"󰍍\"
  delay_icon: \"󱎫\"
  port_icon: \"󰤨\"
");
    let none = Seq::<char>::empty();
    assert(MODE_LINE@.subrange(0, 5) =~= "mode:"@);
    lemma_first_row_sets(MODE_LINE@, "mode:"@, none);
    assert(GROUP_LINE@.subrange(0, 6) =~= "group:"@);
    lemma_first_row_sets(GROUP_LINE@, "group:"@, none);
    let rest = PROMPT_LINES@.skip(8);
    assert("prompt:"@.subrange(0, 7) =~= "prompt:"@);
    assert(PROMPT_LINES@ =~= "prompt:"@ + "\n"@ + rest);
    lemma_first_row_sets("prompt:"@, "prompt:"@, rest);
}

/// The lines of a text have no line feed in them.
proof fn lemma_lines_are_uncut(text: Seq<char>, i: int)
    requires
        0 <= i < lines_of(text).len(),
    ensures
        !lines_of(text)[i].contains('\n'),
{
    lemma_pieces_non_empty(text, Delimiter::Char('\n'));
    let line = lines_of(text)[i];
    if line.contains('\n') {
        let at = choose|k: int| 0 <= k < line.len() && line[k] == '\n';
        lemma_pieces_are_uncut(text, Delimiter::Char('\n'), i, at);
        assert(rows(text)[i][at] == line[at]);
    }
}

proof fn lemma_active_group_removed(text: Seq<char>)
    ensures
        !row_sets(without_active_group(text), ACTIVE_GROUP@),
{
    let used = |line: Seq<char>| !sets(line, ACTIVE_GROUP@);
    let kept = lines_of(text).filter(used);
    let rest = joined(kept, "\n"@);
    let none = Seq::<char>::empty();
    lemma_keys();
    lemma_nothing_set(ACTIVE_GROUP@);
    assert(!row_sets(rest, ACTIVE_GROUP@)) by {
        if kept.len() > 0 {
            assert forall|i: int| 0 <= i < kept.len() implies !(#[trigger] kept[i]).contains(
                '\n',
            ) && !sets(kept[i], ACTIVE_GROUP@) by {
                lines_of(text).lemma_filter_pred(used, i);
                assert(kept.contains(kept[i]));
                lines_of(text).lemma_filter_contains_rev(used, kept[i]);
                let at = choose|k: int|
                    0 <= k < lines_of(text).len() && lines_of(text)[k] == kept[i];
                lemma_lines_are_uncut(text, at);
            }
            lemma_rows_of_joined(kept);
        }
    }
    lemma_row_sets_concat(rest, none, ACTIVE_GROUP@);
    assert(rest + "\n"@ + none =~= rest + "\n"@);
}

/// A text without a character of a key does not set it.
proof fn lemma_lacks_key(text: Seq<char>, key: Seq<char>, ch: char)
    requires
        key.contains(ch),
        !text.contains(ch),
    ensures
        !row_sets(text, key),
{
    if row_sets(text, key) {
        let i = choose|i: int| 0 <= i < rows(text).len() && sets(#[trigger] rows(text)[i], key);
        let row = rows(text)[i];
        let k = choose|k: int| 0 <= k < key.len() && key[k] == ch;
        let start = trimmed_start(row);
        assert(start.subrange(0, key.len() as int)[k] == start[k]);
        lemma_trimmed_start_within(row);
        let at = choose|at: int| 0 <= at < row.len() && row[at] == ch;
        lemma_pieces_are_uncut(text, Delimiter::Char('\n'), i, at);
    }
}

proof fn lemma_trimmed_start_within(text: Seq<char>)
    ensures
        forall|k: int| 0 <= k < trimmed_start(text).len() ==> text.contains(
            #[trigger] trimmed_start(text)[k],
        ),
    decreases text.len(),
{
    if text.len() > 0 && is_whitespace(text.first()) {
        lemma_trimmed_start_within(text.drop_first());
        assert forall|k: int| 0 <= k < trimmed_start(text).len() implies text.contains(
            #[trigger] trimmed_start(text)[k],
        ) by {
            let rest = text.drop_first();
            assert(rest.contains(trimmed_start(rest)[k]));
            let at = choose|i: int| 0 <= i < rest.len() && rest[i] == trimmed_start(rest)[k];
            assert(text[at + 1] == rest[at]);
        }
    }
}

proof fn lemma_default_lines_set_no_active_group()
    ensures
        !row_sets(MODE_LINE@, ACTIVE_GROUP@),
        !row_sets(GROUP_LINE@, ACTIVE_GROUP@),
        !row_sets(PROMPT_LINES@, ACTIVE_GROUP@),
{
    reveal_strlit("active_group:");
    reveal_strlit("mode: \"rule\"");
    reveal_strlit("group: \"🔰 手动选择\"");
    reveal_strlit("prompt:
  mode_icon: \"󰒓\"
  group_icon: \"󰓹\"
  node_icon: \"󰍍\"
  delay_icon: \"󱎫\"
  port_icon: \"󰤨\"
");
    assert(ACTIVE_GROUP@[4] == 'v');
    lemma_lacks_key(MODE_LINE@, ACTIVE_GROUP@, 'v');
    lemma_lacks_key(GROUP_LINE@, ACTIVE_GROUP@, 'v');
    lemma_lacks_key(PROMPT_LINES@, ACTIVE_GROUP@, 'v');
}

/// A configuration with its defaults sets the mode, the group and the icons, and no active
/// group.
pub proof fn defaults_are_set(text: Seq<char>)
    ensures
        has_key(with_defaults(text), "mode:"@),
        has_key(with_defaults(text), "group:"@),
        has_key(with_defaults(text), "prompt:"@),
        !has_key(with_defaults(text), ACTIVE_GROUP@),
{
    lemma_keys();
    lemma_default_lines_set();
    lemma_default_lines_set_no_active_group();
    lemma_active_group_removed(text);
    let plain = without_active_group(text);
    let first = with_key(plain, "mode:"@, MODE_LINE@);
    let second = with_key(first, "group:"@, GROUP_LINE@);
    let third = with_defaults(text);
    lemma_has_key_of_rows(plain, "mode:"@);
    lemma_with_line_sets(plain, MODE_LINE@, "mode:"@);
    lemma_with_line_sets(plain, MODE_LINE@, ACTIVE_GROUP@);
    lemma_has_key_of_rows(first, "group:"@);
    lemma_with_line_sets(first, GROUP_LINE@, "mode:"@);
    lemma_with_line_sets(first, GROUP_LINE@, "group:"@);
    lemma_with_line_sets(first, GROUP_LINE@, ACTIVE_GROUP@);
    lemma_has_key_of_rows(second, "prompt:"@);
    lemma_with_line_sets(second, PROMPT_LINES@, "mode:"@);
    lemma_with_line_sets(second, PROMPT_LINES@, "group:"@);
    lemma_with_line_sets(second, PROMPT_LINES@, "prompt:"@);
    lemma_with_line_sets(second, PROMPT_LINES@, ACTIVE_GROUP@);
    lemma_has_key_of_rows(third, "mode:"@);
    lemma_has_key_of_rows(third, "group:"@);
    lemma_has_key_of_rows(third, "prompt:"@);
    lemma_has_key_of_rows(third, ACTIVE_GROUP@);
}

/// Defaults come after what is there, which stays as it was but for the active group.
pub proof fn defaults_come_last(text: Seq<char>)
    ensures
        starts_with(with_defaults(text), without_active_group(text)),
{
    let plain = without_active_group(text);
    let first = with_key(plain, "mode:"@, MODE_LINE@);
    let second = with_key(first, "group:"@, GROUP_LINE@);
    lemma_with_key_extends(plain, "mode:"@, MODE_LINE@);
    lemma_with_key_extends(first, "group:"@, GROUP_LINE@);
    lemma_with_key_extends(second, "prompt:"@, PROMPT_LINES@);
    let length = plain.len() as int;
    assert(first.take(length) =~= plain);
    assert(second.take(length) =~= plain);
    assert(with_defaults(text).take(length) =~= plain);
    assert(with_defaults(text).subrange(0, length) =~= with_defaults(text).take(length));
}

proof fn lemma_with_key_extends(text: Seq<char>, key: Seq<char>, line: Seq<char>)
    ensures
        with_key(text, key, line).len() >= text.len(),
        with_key(text, key, line).take(text.len() as int) == text,
{
    assert(with_key(text, key, line).take(text.len() as int) =~= text);
}

/// A row that a carriage return ends is cut off by the line feed after it.
proof fn lemma_row_end(text: Seq<char>, i: int)
    requires
        0 <= i < rows(text).len() - 1,
        rows(text)[i].len() > 0,
        rows(text)[i].last() == '\r',
    ensures
        contains_text(text, "\r\n"@),
    decreases text.len(),
{
    reveal_strlit("\r\n");
    let front = text.drop_last();
    let before = rows(front);
    lemma_pieces_non_empty(front, Delimiter::Char('\n'));
    if i < before.len() - 1 {
        assert(rows(text)[i] == before[i]);
        lemma_row_end(front, i);
        let at = choose|at: int| occurs_at(front, "\r\n"@, at);
        assert(text.subrange(at, at + 2) =~= front.subrange(at, at + 2));
        assert(occurs_at(text, "\r\n"@, at));
    } else {
        assert(text.last() == '\n');
        assert(before.last() == rows(text)[i]);
        assert(front.last() == '\r') by {
            lemma_pieces_non_empty(front.drop_last(), Delimiter::Char('\n'));
        }
        let at = text.len() - 2;
        assert(text.subrange(at, at + 2) =~= "\r\n"@);
        assert(occurs_at(text, "\r\n"@, at));
    }
}

/// A configuration that sets everything, and no active group, stays as it is, where no carriage
/// return ends a line.
pub proof fn complete_configuration_is_kept(text: Seq<char>)
    requires
        has_key(text, "mode:"@),
        has_key(text, "group:"@),
        has_key(text, "prompt:"@),
        !has_key(text, ACTIVE_GROUP@),
        !contains_text(text, "\r\n"@),
    ensures
        with_defaults(text) == text,
{
    let list = lines_of(text);
    let cut = rows(text);
    let used = |line: Seq<char>| !sets(line, ACTIVE_GROUP@);
    reveal_strlit("\n");
    lemma_keys();
    lemma_pieces_non_empty(text, Delimiter::Char('\n'));
    pieces_join_back(text, '\n');
    assert("\n"@ =~= seq!['\n']);
    assert forall|i: int| 0 <= i < cut.len() - 1 implies without_carriage_return(
        #[trigger] cut[i],
    ) == cut[i] by {
        if cut[i].len() > 0 && cut[i].last() == '\r' {
            lemma_row_end(text, i);
        }
    }
    let ended = cut.drop_last().map_values(|line: Seq<char>| without_carriage_return(line));
    assert(ended =~= cut.drop_last());
    lemma_filter_keeps_all(list, used);
    let rest = joined(list, "\n"@);
    let set = choose|i: int| 0 <= i < list.len() && sets(#[trigger] list[i], "mode:"@);
    if cut.last().len() == 0 {
        assert(list =~= cut.drop_last());
        lemma_joined_push(list, cut.last(), "\n"@);
        assert(list.push(cut.last()) =~= cut);
        assert(text =~= rest + "\n"@);
        assert(rest.len() > 0) by {
            if list.len() == 1 {
                lemma_trimmed_start_within(list[0]);
                assert(trimmed_start(list[0]).len() > 0);
                assert(list[0].contains(trimmed_start(list[0])[0]));
            }
        }
    } else {
        assert(list =~= cut);
        assert(text.len() > 0);
        assert(!ends_line(text)) by {
            lemma_pieces_non_empty(text.drop_last(), Delimiter::Char('\n'));
        }
    }
}

/// Adding the defaults again changes nothing, where no carriage return ends a line of the
/// configuration that they were added to.
pub proof fn defaults_are_added_once(text: Seq<char>)
    requires
        !contains_text(with_defaults(text), "\r\n"@),
    ensures
        with_defaults(with_defaults(text)) == with_defaults(text),
{
    defaults_are_set(text);
    complete_configuration_is_kept(with_defaults(text));
}

/// A text sets a key where its first line begins with the key after whitespace, or where the rest
/// sets it. A carriage return that ends the line does not count as part of it.
pub proof fn keys_are_set_line_by_line(line: Seq<char>, rest: Seq<char>, key: Seq<char>)
    requires
        !line.contains('\n'),
        line.len() > 0 ==> line.last() != '\r',
    ensures
        has_key(line + seq!['\n'] + rest, key) <==> starts_with(trimmed_start(line), key)
            || has_key(rest, key),
        line.len() > 0 ==> (has_key(line, key) <==> starts_with(trimmed_start(line), key)),
        !has_key(Seq::empty(), key),
{
    let whole = line + seq!['\n'] + rest;
    let list = lines_of(whole);
    let more = lines_of(rest);
    lines_end_with_line_feeds(line, rest);
    assert(list =~= seq![line] + more);
    assert(list[0] == line);
    if has_key(whole, key) {
        let i = choose|i: int| 0 <= i < list.len() && sets(#[trigger] list[i], key);
        if i > 0 {
            assert(list[i] == more[i - 1]);
            assert(sets(more[i - 1], key));
        }
    }
    if starts_with(trimmed_start(line), key) {
        assert(sets(list[0], key));
    }
    if has_key(rest, key) {
        let i = choose|i: int| 0 <= i < more.len() && sets(#[trigger] more[i], key);
        assert(list[i + 1] == more[i]);
        assert(sets(list[i + 1], key));
    }
    if line.len() > 0 {
        assert(lines_of(line)[0] == line);
    }
}

/// Nothing is left of a configuration of which every line sets the active group.
pub proof fn nothing_is_left_of_active_groups(text: Seq<char>)
    requires
        forall|i: int|
            0 <= i < lines_of(text).len() ==> starts_with(
                trimmed_start(#[trigger] lines_of(text)[i]),
                "active_group:"@,
            ),
    ensures
        without_active_group(text) == Seq::<char>::empty(),
{
    let used = |line: Seq<char>| !sets(line, ACTIVE_GROUP@);
    let kept = lines_of(text).filter(used);
    if kept.len() > 0 {
        lines_of(text).lemma_filter_pred(used, 0);
        assert(kept.contains(kept[0]));
        lines_of(text).lemma_filter_contains_rev(used, kept[0]);
        let k = choose|k: int| 0 <= k < lines_of(text).len() && lines_of(text)[k] == kept[0];
        assert(sets(lines_of(text)[k], ACTIVE_GROUP@));
    }
    assert(joined(kept, "\n"@) =~= Seq::<char>::empty());
}

/// A line that is added stands behind the text, on a line of its own, and a line feed ends it.
pub proof fn lines_are_added_behind(text: Seq<char>, line: Seq<char>)
    requires
        line.len() > 0,
        line.last() != '\n',
    ensures
        with_line(text, line) == text + (if text.len() > 0 && text.last() == '\n' {
            Seq::empty()
        } else {
            seq!['\n']
        }) + line + seq!['\n'],
{
    reveal_strlit("\n");
    assert("\n"@ =~= seq!['\n']);
    lemma_with_line_adds(text, line);
    assert(with_line(text, line) =~= text + (if text.len() > 0 && text.last() == '\n' {
        Seq::empty()
    } else {
        seq!['\n']
    }) + line + seq!['\n']);
}

/// Of a configuration that ends with a line feed, the lines that set the active group go and all
/// others stay, in their order, where anything is left. A line that still ends with a carriage
/// return, when the one before its line feed is gone, is not said to stay.
pub proof fn only_active_group_lines_go(text: Seq<char>)
    requires
        text.len() > 0 && text.last() == '\n',
        forall|i: int|
            0 <= i < lines_of(text).len() ==> (#[trigger] lines_of(text)[i]).len() > 0
                ==> lines_of(text)[i].last() != '\r',
        without_active_group(text).len() > 0,
    ensures
        lines_of(without_active_group(text)) == lines_of(text).filter(
            |line: Seq<char>| !starts_with(trimmed_start(line), "active_group:"@),
        ),
{
    let used = |line: Seq<char>| !sets(line, ACTIVE_GROUP@);
    let other = |line: Seq<char>| !starts_with(trimmed_start(line), "active_group:"@);
    assert(used =~= other);
    let list = lines_of(text);
    let kept = list.filter(used);
    let rest = joined(kept, "\n"@);
    let none = Seq::<char>::empty();
    reveal_strlit("\n");
    assert forall|i: int| 0 <= i < kept.len() implies !(#[trigger] kept[i]).contains('\n')
        && (kept[i].len() > 0 ==> kept[i].last() != '\r') by {
        assert(kept.contains(kept[i]));
        list.lemma_filter_contains_rev(used, kept[i]);
        let k = choose|k: int| 0 <= k < list.len() && list[k] == kept[i];
        lemma_lines_are_uncut(text, k);
    }
    assert(kept.len() > 0);
    lemma_rows_of_joined(kept);
    assert(rest.len() > 0);
    assert(without_active_group(text) =~= rest + "\n"@ + none);
    lemma_rows_concat(rest, none);
    assert(rows(none) =~= seq![none]);
    let cut = rows(without_active_group(text));
    assert(cut =~= kept.push(none));
    assert(cut.drop_last() =~= kept);
    assert(lines_of(without_active_group(text)) =~= kept);
}

/// A line feed behind the last line of a configuration stays there, where anything is left.
pub proof fn last_line_feed_stays(text: Seq<char>)
    requires
        text.len() > 0,
        text.last() != '\n',
        text.last() != '\r',
    ensures
        without_active_group(text.push('\n')) == (if without_active_group(text).len() > 0 {
            without_active_group(text).push('\n')
        } else {
            Seq::empty()
        }),
{
    let longer = text.push('\n');
    let feed = Delimiter::Char('\n');
    let cut = rows(text);
    lemma_pieces_non_empty(text, feed);
    lemma_pieces_non_empty(text.drop_last(), feed);
    reveal_strlit("\n");
    assert(longer.drop_last() =~= text);
    assert(rows(longer) =~= cut.push(Seq::empty()));
    assert(rows(longer).drop_last() =~= cut);
    assert(cut.last().last() == text.last());
    assert(lines_of(longer) =~= lines_of(text));
    let rest = without_active_group(text);
    assert(rest + "\n"@ =~= rest.push('\n'));
}

/// The settings that a configuration lacks are added behind it, each on a line of its own and in
/// this order: the mode, the group and the icons. Nothing is added for a setting that is there.
pub proof fn missing_settings_are_added(text: Seq<char>)
    ensures
        ({
            let plain = without_active_group(text);
            let mode = if has_key(plain, "mode:"@) {
                Seq::empty()
            } else {
                "mode: \"rule\""@ + "\n"@
            };
            let group = if has_key(plain, "group:"@) {
                Seq::empty()
            } else {
                "group: \"🔰 手动选择\""@ + "\n"@
            };
            let icons = if has_key(plain, "prompt:"@) {
                Seq::empty()
            } else {
                PROMPT_LINES@
            };
            let feed = if plain.len() > 0 && plain.last() == '\n' {
                Seq::empty()
            } else {
                "\n"@
            };
            with_defaults(text) == (if mode + group + icons == Seq::<char>::empty() {
                plain
            } else {
                plain + feed + (mode + group + icons)
            })
        }),
{
    let plain = without_active_group(text);
    let first = with_key(plain, "mode:"@, MODE_LINE@);
    let second = with_key(first, "group:"@, GROUP_LINE@);
    lemma_keys();
    lemma_has_key_of_rows(plain, "group:"@);
    lemma_has_key_of_rows(plain, "prompt:"@);
    lemma_has_key_of_rows(first, "group:"@);
    lemma_has_key_of_rows(first, "prompt:"@);
    lemma_has_key_of_rows(second, "prompt:"@);
    lemma_with_line_sets(plain, MODE_LINE@, "group:"@);
    lemma_with_line_sets(plain, MODE_LINE@, "prompt:"@);
    lemma_with_line_sets(first, GROUP_LINE@, "prompt:"@);
    reveal_strlit("group:");
    reveal_strlit("prompt:");
    reveal_strlit("\n");
    reveal_strlit("mode: \"rule\"");
    reveal_strlit("group: \"🔰 手动选择\"");
    reveal_strlit("prompt:
  mode_icon: \"󰒓\"
  group_icon: \"󰓹\"
  node_icon: \"󰍍\"
  delay_icon: \"󱎫\"
  port_icon: \"󰤨\"
");
    assert("group:"@[0] == 'g');
    assert("prompt:"@[0] == 'p');
    assert("prompt:"@[3] == 'm');
    lemma_lacks_key(MODE_LINE@, "group:"@, 'g');
    lemma_lacks_key(MODE_LINE@, "prompt:"@, 'p');
    lemma_lacks_key(GROUP_LINE@, "prompt:"@, 'm');
    lemma_with_line_adds(plain, MODE_LINE@);
    lemma_with_line_adds(first, GROUP_LINE@);
    lemma_with_line_adds(second, PROMPT_LINES@);
    let none = Seq::<char>::empty();
    let mode = if has_key(plain, "mode:"@) {
        none
    } else {
        MODE_LINE@ + "\n"@
    };
    let group = if has_key(plain, "group:"@) {
        none
    } else {
        GROUP_LINE@ + "\n"@
    };
    let icons = if has_key(plain, "prompt:"@) {
        none
    } else {
        PROMPT_LINES@
    };
    let feed = if ends_line(plain) {
        none
    } else {
        "\n"@
    };
    assert(first == if mode.len() == 0 {
        plain
    } else {
        plain + feed + mode
    });
    if mode.len() + group.len() + icons.len() == 0 {
        assert(mode + group + icons =~= none);
    } else {
        assert(mode + group + icons != none);
        assert(with_defaults(text) =~= plain + feed + (mode + group + icons));
    }
}

proof fn lemma_with_line_adds(text: Seq<char>, line: Seq<char>)
    requires
        line.len() > 0,
    ensures
        with_line(text, line) == text + (if ends_line(text) {
            Seq::empty()
        } else {
            "\n"@
        }) + (if ends_line(line) {
            line
        } else {
            line + "\n"@
        }),
        ends_line(with_line(text, line)),
{
    reveal_strlit("\n");
    let none = Seq::<char>::empty();
    let ended = line_ended(text);
    assert((ended + line).last() == line.last());
    assert(text + none =~= text);
    assert(ended + line + "\n"@ =~= ended + (line + "\n"@));
}

} // verus!

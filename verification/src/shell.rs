//! What is written for the shell: quoted words, and the functions that a start-up file holds
//! between two marker lines.

use vstd::prelude::*;
use crate::ansi::ANSI_BOLD_GREEN;
use crate::prompt::{marked_message, success_line, PromptConfig, TagDefaults};
use crate::text::{
    chars_of, contains_text, find_from, joined, lemma_occurs_beside, lemma_occurs_within, lemma_position,
    lemma_position_is, occurs_at, position, replace, replaced, starts_with, text_between,
    text_contains, text_ends_with,
};

verus! {

/// The line before the part of a start-up file that is managed here.
pub const BLOCK_BEGIN: &'static str = "# >>> verge-proxy >>>";

/// The line after the part of a start-up file that is managed here.
pub const BLOCK_END: &'static str = "# <<< verge-proxy <<<";

/// The wrapper up to the program that `eval` runs.
pub const WRAPPER_EVAL: &'static str = "# verge-proxy wrapper (added by verge-proxy install)
verge-proxy() {
  case \"$1\" in
    start|stop|restart) eval \"$(COLUMNS=${COLUMNS:-80} \"";

/// The wrapper from there to the program that runs as it is.
pub const WRAPPER_PLAIN: &'static str = "\" \"$@\")\" ;;
    *) COLUMNS=${COLUMNS:-80} \"";

/// The wrapper from there to the program that a subshell runs.
pub const WRAPPER_SUBSHELL: &'static str = "\" \"$@\" ;;
  esac
}
vp() {
  (
    eval \"$(COLUMNS=${COLUMNS:-80} \"";

/// The rest of the wrapper.
pub const WRAPPER_REST: &'static str = "\" restart -f)\" >&2 || exit
    if [[ -n ${aliases[$1]} ]]; then
      eval \"${aliases[$1]} ${(j: :)${(@q)@[2,-1]}}\"
    else
      \"$@\"
    fi
  )
}
";

/// The completion function for zsh.
pub const COMPLETION_SCRIPT: &'static str = "#compdef verge-proxy

_verge-proxy() {
  local -a commands
  commands=(
    'start:读取端口并设置当前 zsh 代理环境变量'
    'stop:移除当前 zsh 代理环境变量'
    'restart:重新读取端口并更新代理环境变量'
    'status:显示 mode/group/node/delay/port'
    'mode:交互切换规则/全局/直连'
    'group:交互切换代理组'
    'node:交互切换节点'
    'port:输出当前 mixed-port'
    'auto-node:自动测速并选择最快节点'
    'install:配置 verge-proxy'
  )
  _arguments -s \\
    '(-h --help)'{-h,--help}'[显示帮助信息]' \\
    '1:command:->cmds' \\
    '*::arg:->args'
  case \"$state\" in
    cmds) _describe 'command' commands ;;
    args)
      case \"$words[1]\" in
        stop|restart) _arguments '(-f --force)'{-f,--force}'[跳过 proxy_name 检查强制执行]' ;;
        node) _arguments '--filter=[按关键字预筛节点]' ;;
        auto-node) _arguments '--filter=[限制测速范围，逗号分隔]' ;;
      esac
      ;;
  esac
}

_verge-proxy \"$@\"
";

/// `text` between single quotes, with each single quote in it closed, escaped and opened
/// again.
pub open spec fn quoted(text: Seq<char>) -> Seq<char> {
    "'"@ + replaced(text, "'"@, "'\\''"@) + "'"@
}

/// `rest` with `ch` in front.
pub open spec fn preceded(ch: char, rest: Option<Seq<char>>) -> Option<Seq<char>> {
    match rest {
        Some(rest) => Some(seq![ch] + rest),
        None => None,
    }
}

/// The word that a shell reads from `source`, in which single quotes and backslashes guard
/// every character. Between single quotes each character stands for itself, outside of them
/// the one after a backslash does. `None` where a quote stays open or a character is not
/// guarded.
pub open spec fn shell_word(source: Seq<char>, in_quotes: bool) -> Option<Seq<char>>
    decreases source.len(),
{
    if source.len() == 0 {
        if in_quotes {
            None
        } else {
            Some(Seq::empty())
        }
    } else if source[0] == '\'' {
        shell_word(source.drop_first(), !in_quotes)
    } else if in_quotes {
        preceded(source[0], shell_word(source.drop_first(), true))
    } else if source[0] == '\\' && source.len() > 1 {
        preceded(source[1], shell_word(source.skip(2), false))
    } else {
        None
    }
}

proof fn lemma_quoted_rest(text: Seq<char>)
    ensures
        shell_word(replaced(text, "'"@, "'\\''"@) + "'"@, true) == Some(text),
    decreases text.len(),
{
    reveal_strlit("'");
    reveal_strlit("'\\''");
    let quote = "'"@;
    let escaped = "'\\''"@;
    let source = replaced(text, quote, escaped) + quote;
    if text.len() == 0 {
        assert(source =~= seq!['\'']);
        assert(source.drop_first() =~= Seq::<char>::empty());
        assert(shell_word(source.drop_first(), false) == Some(Seq::<char>::empty()));
        assert(text =~= Seq::<char>::empty());
    } else {
        let rest = text.drop_first();
        lemma_quoted_rest(rest);
        let tail = replaced(rest, quote, escaped) + quote;
        assert(text =~= seq![text[0]] + rest);
        assert(text.subrange(0, 1) =~= seq![text[0]]);
        assert(quote =~= seq!['\'']);
        if text[0] == '\'' {
            assert(starts_with(text, quote));
            assert(text.skip(1) =~= rest);
            assert(source =~= escaped + tail);
            assert(escaped =~= seq!['\'', '\\', '\'', '\'']);
            let second = source.drop_first();
            let third = second.skip(2);
            assert(second[0] == '\\' && second[1] == '\'');
            assert(third[0] == '\'');
            assert(third.drop_first() =~= tail);
            assert(shell_word(third, false) == shell_word(tail, true));
            assert(shell_word(second, false) == preceded('\'', shell_word(third, false)));
            assert(shell_word(source, true) == shell_word(second, false));
        } else {
            assert(!starts_with(text, quote)) by {
                if starts_with(text, quote) {
                    assert(text.subrange(0, 1)[0] == quote[0]);
                }
            }
            assert(source =~= seq![text[0]] + tail);
            assert(source.drop_first() =~= tail);
        }
    }
}

/// A shell reads the text back from its quoted form, whatever it holds.
pub proof fn shell_reads_quoted_back(text: Seq<char>)
    ensures
        shell_word(quoted(text), false) == Some(text),
{
    reveal_strlit("'");
    lemma_quoted_rest(text);
    assert(quoted(text).drop_first() =~= replaced(text, "'"@, "'\\''"@) + "'"@);
}

/// The text as one word of a shell command.
pub fn shell_single_quote(input: &str) -> (word: String)
    ensures
        word@ == quoted(input@),
{
    let mut word = "'".to_owned();
    proof {
        reveal_strlit("'");
    }
    word.append(replace(input, "'", "'\\''").as_str());
    word.append("'");
    word
}

/// The managed part of a start-up file, with its marker lines and the line feed after them.
pub open spec fn wrapper_block(exe: Seq<char>) -> Seq<char> {
    BLOCK_BEGIN@ + "\n"@ + WRAPPER_EVAL@ + exe + WRAPPER_PLAIN@ + exe + WRAPPER_SUBSHELL@ + exe
        + WRAPPER_REST@ + BLOCK_END@ + "\n"@
}

/// The shell functions that run the program at `exe`, between their marker lines. The
/// commands that change the environment are evaluated by the calling shell.
pub fn zsh_wrapper_block(exe: &str) -> (block: String)
    ensures
        block@ == wrapper_block(exe@),
{
    let mut block = BLOCK_BEGIN.to_owned();
    block.append("\n");
    block.append(WRAPPER_EVAL);
    block.append(exe);
    block.append(WRAPPER_PLAIN);
    block.append(exe);
    block.append(WRAPPER_SUBSHELL);
    block.append(exe);
    block.append(WRAPPER_REST);
    block.append(BLOCK_END);
    block.append("\n");
    block
}

/// Where the managed part of `text` begins and ends: from the first begin marker to the first
/// end marker after it, with the line feed that follows.
pub open spec fn managed_region(text: Seq<char>) -> Option<(int, int)> {
    match position(text, BLOCK_BEGIN@, 0) {
        None => None,
        Some(begin) => match position(text, BLOCK_END@, begin) {
            None => None,
            Some(last) => {
                let end = last + BLOCK_END@.len();
                if end < text.len() && text[end] == '\n' {
                    Some((begin, end + 1))
                } else {
                    Some((begin, end))
                }
            },
        },
    }
}

/// What separates `text` from a block after it: an empty line.
pub open spec fn gap_after(text: Seq<char>) -> Seq<char> {
    if text.len() > 0 && text.last() == '\n' {
        "\n"@
    } else {
        "\n"@ + "\n"@
    }
}

/// `text` with `block` for its managed part, or after it where it has none.
pub open spec fn with_block(text: Seq<char>, block: Seq<char>) -> Seq<char> {
    match managed_region(text) {
        Some((begin, end)) => text.take(begin) + block + text.skip(end),
        None => text + gap_after(text) + block,
    }
}

pub proof fn lemma_managed_region(text: Seq<char>)
    ensures
        managed_region(text) matches Some((begin, end)) ==> 0 <= begin <= end <= text.len(),
{
    lemma_position(text, BLOCK_BEGIN@, 0);
    if let Some(begin) = position(text, BLOCK_BEGIN@, 0) {
        lemma_position(text, BLOCK_END@, begin);
    }
}

/// What stands outside the managed part stays as it was.
pub proof fn block_leaves_the_rest(text: Seq<char>, block: Seq<char>)
    ensures
        match managed_region(text) {
            Some((begin, end)) => {
                &&& 0 <= begin <= end <= text.len()
                &&& with_block(text, block).take(begin) == text.take(begin)
                &&& with_block(text, block).skip((begin + block.len()) as int) == text.skip(end)
            },
            None => with_block(text, block).take(text.len() as int) == text,
        },
{
    lemma_managed_region(text);
}

/// `block` is what a file may hold for its managed part: it begins with the begin marker and
/// ends with the one end marker in it and a line feed.
pub open spec fn is_managed_block(block: Seq<char>) -> bool {
    &&& starts_with(block, BLOCK_BEGIN@)
    &&& block.len() > 0 && block.last() == '\n'
    &&& position(block, BLOCK_END@, 0) == Some(block.len() - 1 - BLOCK_END@.len())
}

proof fn lemma_markers()
    ensures
        BLOCK_BEGIN@.len() == 21,
        BLOCK_END@.len() == 21,
        BLOCK_BEGIN@[0] == '#',
        !BLOCK_BEGIN@.contains('\n'),
        !BLOCK_END@.contains('\n'),
        !BLOCK_END@.contains('"'),
        BLOCK_END@[2] == '<',
{
    reveal_strlit("# >>> verge-proxy >>>");
    reveal_strlit("# <<< verge-proxy <<<");
}

proof fn lemma_wrapper_parts()
    ensures
        !(BLOCK_BEGIN@ + "\n"@ + WRAPPER_EVAL@).contains('<'),
        WRAPPER_EVAL@.len() > 0,
        WRAPPER_EVAL@.last() == '"',
        !WRAPPER_PLAIN@.contains('<'),
        WRAPPER_PLAIN@.len() > 0,
        WRAPPER_PLAIN@.first() == '"',
        WRAPPER_PLAIN@.last() == '"',
        !WRAPPER_SUBSHELL@.contains('<'),
        WRAPPER_SUBSHELL@.len() > 0,
        WRAPPER_SUBSHELL@.first() == '"',
        WRAPPER_SUBSHELL@.last() == '"',
        !WRAPPER_REST@.contains('<'),
        WRAPPER_REST@.len() > 0,
        WRAPPER_REST@.first() == '"',
        WRAPPER_REST@.last() == '\n',
{
    reveal_strlit("# >>> verge-proxy >>>");
    reveal_strlit("\n");
    reveal_strlit("# verge-proxy wrapper (added by verge-proxy install)
verge-proxy() {
  case \"$1\" in
    start|stop|restart) eval \"$(COLUMNS=${COLUMNS:-80} \"");
    reveal_strlit("\" \"$@\")\" ;;
    *) COLUMNS=${COLUMNS:-80} \"");
    reveal_strlit("\" \"$@\" ;;
  esac
}
vp() {
  (
    eval \"$(COLUMNS=${COLUMNS:-80} \"");
    reveal_strlit("\" restart -f)\" >&2 || exit
    if [[ -n ${aliases[$1]} ]]; then
      eval \"${aliases[$1]} ${(j: :)${(@q)@[2,-1]}}\"
    else
      \"$@\"
    fi
  )
}
");
}

/// An end marker does not stand in a text without its angle brackets.
proof fn lemma_no_end_marker(text: Seq<char>, at: int)
    requires
        !text.contains('<'),
    ensures
        !occurs_at(text, BLOCK_END@, at),
{
    lemma_markers();
    if occurs_at(text, BLOCK_END@, at) {
        assert(text.subrange(at, at + 21)[2] == text[at + 2]);
    }
}

/// An end marker in `part + exe + rest` stands in `rest`, where there is none in `part` and
/// `exe` and a quotation mark stands on either side of `exe`.
proof fn lemma_marker_in_rest(part: Seq<char>, exe: Seq<char>, rest: Seq<char>, at: int)
    requires
        occurs_at(part + (exe + rest), BLOCK_END@, at),
        !part.contains('<'),
        part.len() > 0,
        part.last() == '"',
        !contains_text(exe, BLOCK_END@),
        rest.len() > 0,
        rest.first() == '"',
    ensures
        occurs_at(rest, BLOCK_END@, at - part.len() - exe.len()),
{
    lemma_markers();
    lemma_occurs_beside(part, exe + rest, BLOCK_END@, at);
    lemma_no_end_marker(part, at);
    lemma_occurs_beside(exe, rest, BLOCK_END@, at - part.len());
}

/// The wrapper is a managed block, unless the program's path holds the end marker.
pub proof fn wrapper_is_managed(exe: Seq<char>)
    requires
        !contains_text(exe, BLOCK_END@),
    ensures
        is_managed_block(wrapper_block(exe)),
{
    lemma_markers();
    lemma_wrapper_parts();
    reveal_strlit("\n");
    let block = wrapper_block(exe);
    let begin = BLOCK_BEGIN@ + "\n"@ + WRAPPER_EVAL@;
    let last = BLOCK_END@ + "\n"@;
    let rest = WRAPPER_REST@ + last;
    let subshell = WRAPPER_SUBSHELL@ + (exe + rest);
    let plain = WRAPPER_PLAIN@ + (exe + subshell);
    assert(block =~= begin + (exe + plain));
    assert(block.subrange(0, 21) =~= BLOCK_BEGIN@);
    let end = block.len() - 22;
    assert(block.subrange(end, end + 21) =~= BLOCK_END@);
    assert forall|at: int| 0 <= at < end implies !occurs_at(block, BLOCK_END@, at) by {
        if occurs_at(block, BLOCK_END@, at) {
            let second = at - begin.len() - exe.len();
            lemma_marker_in_rest(begin, exe, plain, at);
            let third = second - WRAPPER_PLAIN@.len() - exe.len();
            lemma_marker_in_rest(WRAPPER_PLAIN@, exe, subshell, second);
            let fourth = third - WRAPPER_SUBSHELL@.len() - exe.len();
            lemma_marker_in_rest(WRAPPER_SUBSHELL@, exe, rest, third);
            lemma_occurs_beside(WRAPPER_REST@, last, BLOCK_END@, fourth);
            lemma_no_end_marker(WRAPPER_REST@, fourth);
        }
    }
    lemma_position_is(block, BLOCK_END@, 0, end);
}

/// After a block that took the place of a managed part, the managed part is that block.
proof fn lemma_region_of_block(before: Seq<char>, block: Seq<char>, after: Seq<char>)
    requires
        is_managed_block(block),
        forall|at: int| 0 <= at < before.len() ==> !occurs_at(
            before + BLOCK_BEGIN@,
            BLOCK_BEGIN@,
            at,
        ),
    ensures
        managed_region(before + block + after) == Some(
            (before.len() as int, (before.len() + block.len()) as int),
        ),
{
    lemma_markers();
    lemma_position(block, BLOCK_END@, 0);
    let text = before + block + after;
    let begin = before.len() as int;
    lemma_occurs_within(before, block, after, BLOCK_BEGIN@, 0);
    assert forall|at: int| 0 <= at < begin implies !occurs_at(text, BLOCK_BEGIN@, at) by {
        if occurs_at(text, BLOCK_BEGIN@, at) {
            assert(block.subrange(0, 21) =~= BLOCK_BEGIN@);
            assert((before + BLOCK_BEGIN@).subrange(at, at + 21) =~= text.subrange(at, at + 21)) by {
                assert forall|k: int| at <= k < at + 21 implies (before + BLOCK_BEGIN@)[k]
                    == text[k] by {
                    if k >= begin {
                        assert(block.subrange(0, 21)[k - begin] == block[k - begin]);
                    }
                }
            }
            assert(occurs_at(before + BLOCK_BEGIN@, BLOCK_BEGIN@, at));
        }
    }
    lemma_position_is(text, BLOCK_BEGIN@, 0, begin);
    let last = begin + block.len() - 22;
    lemma_occurs_within(before, block, after, BLOCK_END@, block.len() - 22);
    assert forall|at: int| begin <= at < last implies !occurs_at(text, BLOCK_END@, at) by {
        if occurs_at(text, BLOCK_END@, at) {
            let inner = at - begin;
            assert(block.subrange(inner, inner + 21) =~= text.subrange(at, at + 21));
            assert(occurs_at(block, BLOCK_END@, inner));
        }
    }
    lemma_position_is(text, BLOCK_END@, begin, last);
    assert(text[last + 21] == block.last());
}

/// Nothing before the managed part of a text begins a begin marker.
proof fn lemma_first_marker(text: Seq<char>, begin: int, at: int)
    requires
        position(text, BLOCK_BEGIN@, 0) == Some(begin),
        0 <= at < begin,
    ensures
        !occurs_at(text.take(begin) + BLOCK_BEGIN@, BLOCK_BEGIN@, at),
{
    lemma_markers();
    lemma_position(text, BLOCK_BEGIN@, 0);
    let marked = text.take(begin) + BLOCK_BEGIN@;
    assert(marked =~= text.take(begin + 21)) by {
        assert(text.take(begin + 21) =~= text.take(begin) + text.subrange(begin, begin + 21));
    }
    if occurs_at(marked, BLOCK_BEGIN@, at) {
        assert(text.subrange(at, at + 21) =~= marked.subrange(at, at + 21));
        assert(occurs_at(text, BLOCK_BEGIN@, at));
    }
}

/// Nothing in a text without a begin marker begins one, nor does the gap after it.
proof fn lemma_no_marker(text: Seq<char>, at: int)
    requires
        !contains_text(text, BLOCK_BEGIN@),
        0 <= at < (text + gap_after(text)).len(),
    ensures
        !occurs_at(text + gap_after(text) + BLOCK_BEGIN@, BLOCK_BEGIN@, at),
{
    lemma_markers();
    reveal_strlit("\n");
    let gap = gap_after(text);
    let before = text + gap;
    if occurs_at(before + BLOCK_BEGIN@, BLOCK_BEGIN@, at) {
        assert(before.last() == '\n');
        lemma_occurs_beside(before, BLOCK_BEGIN@, BLOCK_BEGIN@, at);
        assert(gap.first() == '\n');
        lemma_occurs_beside(text, gap, BLOCK_BEGIN@, at);
        assert(contains_text(text, BLOCK_BEGIN@));
    }
}

/// A block that is put where another was put before takes its place: what comes out is the
/// same as if the other had never been there. The one file that this is not said of holds a
/// begin marker without an end marker after it.
pub proof fn installing_again_replaces(text: Seq<char>, first: Seq<char>, second: Seq<char>)
    requires
        is_managed_block(first),
        contains_text(text, BLOCK_BEGIN@) ==> managed_region(text) is Some,
    ensures
        with_block(with_block(text, first), second) == with_block(text, second),
{
    lemma_managed_region(text);
    lemma_position(text, BLOCK_BEGIN@, 0);
    let once = with_block(text, first);
    let nothing = Seq::<char>::empty();
    let (before, after) = match managed_region(text) {
        Some((begin, end)) => (text.take(begin), text.skip(end)),
        None => (text + gap_after(text), nothing),
    };
    assert(once =~= before + first + after);
    assert(with_block(text, second) =~= before + second + after);
    assert forall|at: int| 0 <= at < before.len() implies !occurs_at(
        before + BLOCK_BEGIN@,
        BLOCK_BEGIN@,
        at,
    ) by {
        match managed_region(text) {
            Some((begin, end)) => lemma_first_marker(text, begin, at),
            None => lemma_no_marker(text, at),
        }
    }
    lemma_region_of_block(before, first, after);
    assert(once.take(before.len() as int) =~= before);
    assert(once.skip((before.len() + first.len()) as int) =~= after);
}

/// The file with the block for its managed part, or after it where it has none.
pub fn replace_managed_block(original: &str, block: &str) -> (updated: String)
    ensures
        updated@ == with_block(original@, block@),
{
    let chars = chars_of(original);
    let begin_marker = chars_of(BLOCK_BEGIN);
    let end_marker = chars_of(BLOCK_END);
    proof {
        lemma_managed_region(original@);
        lemma_position(original@, BLOCK_BEGIN@, 0);
    }
    if let Some(begin) = find_from(&chars, &begin_marker, 0) {
        proof {
            lemma_position(original@, BLOCK_END@, begin as int);
        }
        if let Some(last) = find_from(&chars, &end_marker, begin) {
            assert(last + end_marker.len() <= chars.len());
            let mut end: usize = last + end_marker.len();
            if end < chars.len() && chars[end] == '\n' {
                end += 1;
            }
            let mut updated = text_between(&chars, 0, begin);
            updated.append(block);
            updated.append(text_between(&chars, end, chars.len()).as_str());
            assert(original@.subrange(0, begin as int) == original@.take(begin as int));
            assert(original@.subrange(end as int, original@.len() as int) == original@.skip(
                end as int,
            ));
            return updated;
        }
    }
    let mut updated = original.to_owned();
    if !text_ends_with(original, '\n') {
        updated.append("\n");
    }
    updated.append("\n");
    assert(updated@ =~= original@ + gap_after(original@));
    updated.append(block);
    updated
}

/// Whether something was written for the first time or again.
#[derive(Clone, Copy, Debug, PartialEq, Eq, Structural)]
pub enum InstallAction {
    /// It was not there before.
    Created,
    /// It was there before.
    Updated,
}

/// The name of an action on the screen.
pub open spec fn action_shown(action: InstallAction) -> Seq<char> {
    match action {
        InstallAction::Created => "已设置"@,
        InstallAction::Updated => "已更新"@,
    }
}

impl InstallAction {
    /// The name on the screen.
    pub fn label(self) -> (label: &'static str)
        ensures
            label@ == action_shown(self),
    {
        match self {
            InstallAction::Created => "已设置",
            InstallAction::Updated => "已更新",
        }
    }

    /// The action on a file that is there already or not.
    pub fn on_file(exists: bool) -> (action: InstallAction)
        ensures
            action == (if exists {
                InstallAction::Updated
            } else {
                InstallAction::Created
            }),
    {
        if exists {
            InstallAction::Updated
        } else {
            InstallAction::Created
        }
    }
}

/// The line that reports what was written, and where.
pub fn install_line(action: InstallAction, name: &str, path: &str, prompt: &PromptConfig) -> (line:
    String)
    ensures
        line@ == marked_message(
            ANSI_BOLD_GREEN@,
            "✔"@,
            action_shown(action) + name@ + ": "@ + path@,
        ),
{
    let mut message = action.label().to_owned();
    message.append(name);
    message.append(": ");
    message.append(path);
    success_line(message.as_str(), None, prompt, &TagDefaults::default(), 0)
}

/// What the start-up file becomes when the program at `exe` is installed, and whether the
/// wrapper was in it before.
pub fn update_zshrc(original: &str, exe: &str) -> (update: (InstallAction, String))
    ensures
        update.0 == (if contains_text(original@, BLOCK_BEGIN@) && contains_text(
            original@,
            BLOCK_END@,
        ) {
            InstallAction::Updated
        } else {
            InstallAction::Created
        }),
        update.1@ == with_block(original@, wrapper_block(exe@)),
{
    let block = zsh_wrapper_block(exe);
    let marked = text_contains(original, BLOCK_BEGIN) && text_contains(original, BLOCK_END);
    (InstallAction::on_file(marked), replace_managed_block(original, block.as_str()))
}

/// What stands from the first begin marker to the first end marker behind it, with the line feed
/// that follows where there is one, gives way to the block. What stands before and behind it stays.
pub proof fn block_takes_the_place_of_the_managed_part(
    before: Seq<char>,
    middle: Seq<char>,
    after: Seq<char>,
    block: Seq<char>,
)
    requires
        forall|at: int| 0 <= at < before.len() ==> !occurs_at(
            before + "# >>> verge-proxy >>>"@,
            "# >>> verge-proxy >>>"@,
            at,
        ),
        forall|at: int|
            0 <= at < ("# >>> verge-proxy >>>"@ + middle).len() ==> !occurs_at(
                "# >>> verge-proxy >>>"@ + middle + "# <<< verge-proxy <<<"@,
                "# <<< verge-proxy <<<"@,
                at,
            ),
    ensures
        with_block(
            before + ("# >>> verge-proxy >>>"@ + middle + "# <<< verge-proxy <<<"@ + seq!['\n'])
                + after,
            block,
        ) == before + block + after,
        after.len() == 0 || after.first() != '\n' ==> with_block(
            before + ("# >>> verge-proxy >>>"@ + middle + "# <<< verge-proxy <<<"@) + after,
            block,
        ) == before + block + after,
{
    lemma_markers();
    let start = BLOCK_BEGIN@ + middle;
    let marked = start + BLOCK_END@;
    let managed = marked + seq!['\n'];
    assert(managed.subrange(0, 21) =~= BLOCK_BEGIN@);
    assert(managed.subrange(start.len() as int, start.len() as int + 21) =~= BLOCK_END@);
    assert forall|at: int| 0 <= at < start.len() implies !occurs_at(managed, BLOCK_END@, at) by {
        if occurs_at(managed, BLOCK_END@, at) {
            assert(marked.subrange(at, at + 21) =~= managed.subrange(at, at + 21));
            assert(occurs_at(marked, BLOCK_END@, at));
        }
    }
    lemma_position_is(managed, BLOCK_END@, 0, start.len() as int);
    assert(is_managed_block(managed));
    lemma_region_of_block(before, managed, after);
    let text = before + managed + after;
    assert(text.take(before.len() as int) =~= before);
    assert(text.skip((before.len() + managed.len()) as int) =~= after);
    if after.len() == 0 || after.first() != '\n' {
        lemma_region_without_line_feed(before, middle, after);
        let text = before + marked + after;
        assert(text.take(before.len() as int) =~= before);
        assert(text.skip((before.len() + marked.len()) as int) =~= after);
    }
}

proof fn lemma_region_without_line_feed(before: Seq<char>, middle: Seq<char>, after: Seq<char>)
    requires
        forall|at: int| 0 <= at < before.len() ==> !occurs_at(
            before + BLOCK_BEGIN@,
            BLOCK_BEGIN@,
            at,
        ),
        forall|at: int|
            0 <= at < (BLOCK_BEGIN@ + middle).len() ==> !occurs_at(
                BLOCK_BEGIN@ + middle + BLOCK_END@,
                BLOCK_END@,
                at,
            ),
        after.len() == 0 || after.first() != '\n',
    ensures
        managed_region(before + (BLOCK_BEGIN@ + middle + BLOCK_END@) + after) == Some(
            (
                before.len() as int,
                (before.len() + (BLOCK_BEGIN@ + middle + BLOCK_END@).len()) as int,
            ),
        ),
{
    lemma_markers();
    let start = BLOCK_BEGIN@ + middle;
    let marked = start + BLOCK_END@;
    let text = before + marked + after;
    let begin = before.len() as int;
    let last = (before.len() + start.len()) as int;
    assert(text.subrange(begin, begin + 21) =~= BLOCK_BEGIN@);
    assert forall|at: int| 0 <= at < begin implies !occurs_at(text, BLOCK_BEGIN@, at) by {
        if occurs_at(text, BLOCK_BEGIN@, at) {
            assert((before + BLOCK_BEGIN@).subrange(at, at + 21) =~= text.subrange(at, at + 21));
            assert(occurs_at(before + BLOCK_BEGIN@, BLOCK_BEGIN@, at));
        }
    }
    lemma_position_is(text, BLOCK_BEGIN@, 0, begin);
    assert(text.subrange(last, last + 21) =~= BLOCK_END@);
    assert forall|at: int| begin <= at < last implies !occurs_at(text, BLOCK_END@, at) by {
        if occurs_at(text, BLOCK_END@, at) {
            assert(marked.subrange(at - begin, at - begin + 21) =~= text.subrange(at, at + 21));
            assert(occurs_at(marked, BLOCK_END@, at - begin));
        }
    }
    lemma_position_is(text, BLOCK_END@, begin, last);
    if after.len() > 0 {
        assert(text[last + 21] == after.first());
    }
}

/// A file without a begin marker, or without an end marker behind one, stays as it is, and the
/// block comes behind it after an empty line.
pub proof fn block_comes_behind_an_unmarked_file(text: Seq<char>, block: Seq<char>)
    requires
        forall|begin: int, end: int| #[trigger]
            occurs_at(text, "# >>> verge-proxy >>>"@, begin) && #[trigger] occurs_at(
                text,
                "# <<< verge-proxy <<<"@,
                end,
            ) ==> end < begin,
    ensures
        with_block(text, block) == text + (if text.len() > 0 && text.last() == '\n' {
            seq!['\n']
        } else {
            seq!['\n', '\n']
        }) + block,
{
    lemma_position(text, BLOCK_BEGIN@, 0);
    if let Some(begin) = position(text, BLOCK_BEGIN@, 0) {
        lemma_position(text, BLOCK_END@, begin);
    }
    reveal_strlit("\n");
    assert("\n"@ + "\n"@ =~= seq!['\n', '\n']);
    assert("\n"@ =~= seq!['\n']);
}

/// The wrapper is the same for every program, but for the program's path, which stands in it
/// three times.
pub proof fn wrapper_runs_the_program(exe: Seq<char>)
    ensures
        wrapper_block(exe) == joined(
            seq![
                "# >>> verge-proxy >>>"@ + "\n"@ + WRAPPER_EVAL@,
                WRAPPER_PLAIN@,
                WRAPPER_SUBSHELL@,
                WRAPPER_REST@ + "# <<< verge-proxy <<<"@ + "\n"@,
            ],
            exe,
        ),
{
    let parts = seq![
        "# >>> verge-proxy >>>"@ + "\n"@ + WRAPPER_EVAL@,
        WRAPPER_PLAIN@,
        WRAPPER_SUBSHELL@,
        WRAPPER_REST@ + "# <<< verge-proxy <<<"@ + "\n"@,
    ];
    assert(parts.drop_last() =~= parts.take(3));
    assert(parts.take(3).drop_last() =~= parts.take(2));
    assert(parts.take(2).drop_last() =~= parts.take(1));
    reveal_with_fuel(joined, 5);
    assert(wrapper_block(exe) =~= joined(parts, exe));
}

/// What was there before was written again, and what was not was written for the first time.
pub proof fn actions_have_their_names(action: InstallAction)
    ensures
        action == InstallAction::Created ==> action_shown(action) == "已设置"@,
        action == InstallAction::Updated ==> action_shown(action) == "已更新"@,
{
}

} // verus!

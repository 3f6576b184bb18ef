//! Testing a batch of nodes: the line that shows how far it has come, and what comes out of it.

use vstd::prelude::*;
use crate::ansi::{
    lemma_plain_is_shown, lemma_reset_shows_nothing, lemma_sequence_shows_nothing,
    without_escapes, ANSI_RESET,
};
use crate::numbers::{decimal, decimal_text, is_digit, lemma_decimal_digits};
use crate::width::{display_width, prompt_width, text_columns, truncate_to_width, truncated};

verus! {

/// The color of the spinner.
pub const ANSI_SPINNER: &'static str = "\x1b[94m";

/// The color of the part of a bar that is done.
pub const ANSI_BAR_FILLED: &'static str = "\x1b[36m";

/// The color of the part of a bar that is not done.
pub const ANSI_BAR_EMPTY: &'static str = "\x1b[34m";

/// The pictures of the spinner, one after the other.
pub const SPINNER_FRAMES: [&'static str; 10] = [
    "⠋",
    "⠙",
    "⠹",
    "⠸",
    "⠼",
    "⠴",
    "⠦",
    "⠧",
    "⠇",
    "⠏",
];

/// The picture of the spinner at a step, which come round again after the last.
pub fn spinner_frame(step: usize) -> (frame: &'static str)
    ensures
        frame == SPINNER_FRAMES@[step as int % 10],
{
    SPINNER_FRAMES[step % 10]
}

/// How much of a bar of `width` columns is filled when `done` of `total` is done: that part of
/// it, rounded down, and all of it where there is nothing to do.
pub open spec fn filled_columns(width: usize, done: u64, total: u64) -> usize {
    if total == 0 {
        width
    } else {
        let share = (done * width / total as int) as usize;
        if share < width {
            share
        } else {
            width
        }
    }
}

/// `ch`, `count` times.
pub open spec fn repeated(ch: char, count: nat) -> Seq<char> {
    Seq::new(count, |i: int| ch)
}

/// A bar of `width` columns of which `filled` are filled.
pub open spec fn bar_printed(width: nat, filled: nat) -> Seq<char> {
    if width == 0 {
        Seq::empty()
    } else {
        ANSI_BAR_FILLED@ + repeated('━', filled) + ANSI_BAR_EMPTY@ + repeated(
            '─',
            (width - filled) as nat,
        ) + ANSI_RESET@
    }
}

/// A bar is filled in proportion to what is done: not before the first step, wholly after the
/// last, and never less after a step than before it.
pub proof fn bar_fills_in_proportion(width: usize, done: u64, later: u64, total: u64)
    requires
        0 < total,
        done <= later <= total,
    ensures
        filled_columns(width, 0, total) == 0,
        filled_columns(width, done, total) == done * width / total as int,
        filled_columns(width, done, total) <= filled_columns(width, later, total),
        filled_columns(width, total, total) == width,
{
    lemma_share(width, done, total);
    lemma_share(width, later, total);
    lemma_share(width, total, total);
    lemma_share(width, 0, total);
    assert(done * width <= later * width) by (nonlinear_arith)
        requires
            done <= later,
    ;
    vstd::arithmetic::div_mod::lemma_div_is_ordered(done * width, later * width, total as int);
    assert(0 * width == 0) by (nonlinear_arith);
    assert(total * width / total as int == width) by (nonlinear_arith)
        requires
            total > 0,
    ;
}

proof fn lemma_share(width: usize, done: u64, total: u64)
    requires
        0 < total,
        done <= total,
    ensures
        0 <= done * width / total as int <= width,
{
    assert(0 <= done * width / total as int <= width) by (nonlinear_arith)
        requires
            0 < total,
            0 <= done <= total,
    ;
}

/// Adds a character to a text a number of times.
fn append_repeated(text: &mut String, ch: char, count: usize)
    ensures
        final(text)@ == old(text)@ + repeated(ch, count as nat),
{
    let ghost before = text@;
    let mut i: usize = 0;
    assert(before + repeated(ch, 0) =~= before);
    while i < count
        invariant
            i <= count,
            text@ == before + repeated(ch, i as nat),
        decreases count - i,
    {
        text.push(ch);
        i += 1;
        assert(text@ =~= before + repeated(ch, i as nat));
    }
}

/// The bar of a number of columns that shows how much is done.
pub fn render_bar(width: usize, done: u64, total: u64) -> (bar: String)
    ensures
        bar@ == bar_printed(width as nat, filled_columns(width, done, total) as nat),
{
    if width == 0 {
        return String::new();
    }
    let share: usize = if total == 0 {
        width
    } else {
        assert(0 <= done * width <= u64::MAX * usize::MAX) by (nonlinear_arith)
            requires
                0 <= done <= u64::MAX,
                0 <= width <= usize::MAX,
        ;
        assert(u64::MAX * usize::MAX <= u128::MAX) by (nonlinear_arith);
        #[verifier::truncate]
        ((done as u128 * width as u128 / total as u128) as usize)
    };
    let filled: usize = if share < width {
        share
    } else {
        width
    };
    let mut bar = ANSI_BAR_FILLED.to_owned();
    append_repeated(&mut bar, '━', filled);
    bar.append(ANSI_BAR_EMPTY);
    append_repeated(&mut bar, '─', width - filled);
    bar.append(ANSI_RESET);
    bar
}

/// What a probe line says before the bar.
pub open spec fn probe_prefix(label: Seq<char>) -> Seq<char> {
    "节点延迟测试: "@ + label
}

/// How much of the work is done, in numbers.
pub open spec fn probe_count(done: nat, total: nat) -> Seq<char> {
    decimal(done) + "/"@ + decimal(total)
}

/// The columns of a line that is never narrower than ten.
pub open spec fn probe_width(width: nat) -> nat {
    if width < 10 {
        10
    } else {
        width
    }
}

/// The columns that are left for the prefix and the bar: the spinner, three spaces and the
/// count take the others.
pub open spec fn probe_room(width: nat, count: nat) -> nat {
    if probe_width(width) < 4 + count {
        0
    } else {
        (probe_width(width) - 4 - count) as nat
    }
}

/// The columns of the bar after a prefix of `prefix` columns: the room that is left, and 36 at
/// most.
pub open spec fn probe_bar_width(prefix: nat, room: nat) -> nat {
    if prefix >= room {
        0
    } else if room - prefix > 36 {
        36
    } else {
        (room - prefix) as nat
    }
}

/// The prefix as far as it fits: whole where its `columns` are no more than `room`.
pub open spec fn prefix_shown(prefix: Seq<char>, columns: nat, room: nat) -> Seq<char> {
    if columns <= room {
        prefix
    } else {
        truncated(prefix, room)
    }
}

/// The line that shows how far a batch has come. `columns` is what the prefix takes.
pub open spec fn probe_printed(
    spinner: Seq<char>,
    label: Seq<char>,
    done: u64,
    total: u64,
    width: nat,
    columns: nat,
) -> Seq<char> {
    let count = probe_count(done as nat, total as nat);
    let room = probe_room(width, count.len());
    let bar = probe_bar_width(columns, room);
    let head = ANSI_SPINNER@ + spinner + ANSI_RESET@ + " "@ + prefix_shown(
        probe_prefix(label),
        columns,
        room,
    );
    if bar == 0 {
        head + " "@ + count
    } else {
        head + " "@ + bar_printed(bar, filled_columns(bar as usize, done, total) as nat) + " "@
            + count
    }
}

/// The columns of a probe line with a spinner of one column, of which the prefix takes
/// `prefix`, the bar `bar` and the count `count`.
pub open spec fn probe_columns(prefix: nat, bar: nat, count: nat) -> nat {
    if bar == 0 {
        1 + 1 + prefix + 1 + count
    } else {
        1 + 1 + prefix + 1 + bar + 1 + count
    }
}

/// A line whose prefix is whole and fits has no more columns than the terminal, unless the
/// spinner, the blanks and the count alone take more.
pub proof fn probe_line_fits(width: nat, prefix: nat, count: nat)
    requires
        count + 3 <= probe_width(width),
        prefix <= probe_room(width, count),
    ensures
        probe_columns(prefix, probe_bar_width(prefix, probe_room(width, count)), count)
            <= probe_width(width),
{
}

/// The line that shows how far a batch has come, where it is known how many columns the prefix
/// takes.
pub fn lay_out_probe_line(
    spinner: &str,
    label: &str,
    done: u64,
    total: u64,
    width: usize,
    prefix_width: usize,
) -> (line: String)
    ensures
        line@ == probe_printed(
            spinner@,
            label@,
            done,
            total,
            width as nat,
            prefix_width as nat,
        ),
        ({
            let count = probe_count(done as nat, total as nat).len();
            let room = probe_room(width as nat, count);
            room < prefix_width ==> prompt_width(truncated(probe_prefix(label@), room)) <= room
        }),
{
    let mut count = decimal_text(done);
    count.append("/");
    count.append(decimal_text(total).as_str());
    let count_width = display_width(count.as_str());
    proof {
        lemma_count_is_ascii(done as nat, total as nat);
    }
    let width: usize = if width < 10 {
        10
    } else {
        width
    };
    let budget: usize = width.saturating_sub(4).saturating_sub(count_width);
    let mut prefix = "节点延迟测试: ".to_owned();
    prefix.append(label);
    let mut bar_width: usize = 0;
    if prefix_width <= budget {
        bar_width = budget - prefix_width;
        if bar_width > 36 {
            bar_width = 36;
        }
    } else {
        prefix = truncate_to_width(prefix.as_str(), budget);
    }
    let mut line = ANSI_SPINNER.to_owned();
    line.append(spinner);
    line.append(ANSI_RESET);
    line.append(" ");
    line.append(prefix.as_str());
    line.append(" ");
    if bar_width > 0 {
        line.append(render_bar(bar_width, done, total).as_str());
        line.append(" ");
    }
    line.append(count.as_str());
    line
}

proof fn lemma_count_is_ascii(done: nat, total: nat)
    ensures
        forall|i: int|
            0 <= i < probe_count(done, total).len() ==> ' ' <= #[trigger] probe_count(
                done,
                total,
            )[i] <= '~',
{
    lemma_decimal_digits(done);
    lemma_decimal_digits(total);
    reveal_strlit("/");
    let count = probe_count(done, total);
    let left = decimal(done);
    assert forall|i: int| 0 <= i < count.len() implies ' ' <= #[trigger] count[i] <= '~' by {
        if i < left.len() {
            assert(is_digit(left[i]));
        } else if i > left.len() {
            assert(is_digit(decimal(total)[i - left.len() - 1]));
        }
    }
}

/// The line that shows how far a batch has come. Its bar shrinks before its label is cut, and
/// with a spinner of one column it has no more columns than the terminal, which counts as ten
/// columns wide at least, unless the spinner, the blanks and the count alone take more.
pub fn render_probe_line(spinner: &str, label: &str, done: u64, total: u64, width: usize) -> (line:
    String)
    ensures
        line@ == probe_printed(
            spinner@,
            label@,
            done,
            total,
            width as nat,
            text_columns(probe_prefix(label@)) as nat,
        ),
        ({
            let prefix = probe_prefix(label@);
            let count = probe_count(done as nat, total as nat).len();
            let room = probe_room(width as nat, count);
            let columns = text_columns(prefix) as nat;
            let shown = if columns <= room {
                columns
            } else {
                prompt_width(prefix_shown(prefix, columns, room))
            };
            count + 3 <= probe_width(width as nat) ==> probe_columns(
                shown,
                probe_bar_width(columns, room),
                count,
            ) <= probe_width(width as nat)
        }),
{
    let mut prefix = "节点延迟测试: ".to_owned();
    prefix.append(label);
    let prefix_width = display_width(prefix.as_str());
    lay_out_probe_line(spinner, label, done, total, width, prefix_width)
}

/// The line at a step of the animation. No more is shown as done than there is to do.
pub fn probe_frame(step: usize, label: &str, done: u64, total: u64, width: usize) -> (line: String)
    ensures
        line@ == probe_printed(
            SPINNER_FRAMES@[step as int % 10]@,
            label@,
            if done < total {
                done
            } else {
                total
            },
            total,
            width as nat,
            text_columns(probe_prefix(label@)) as nat,
        ),
{
    let done: u64 = if done < total {
        done
    } else {
        total
    };
    render_probe_line(spinner_frame(step), label, done, total, width)
}

/// How many of `total` nodes are tested at a time where `concurrency` may be.
pub open spec fn workers(concurrency: usize, total: usize) -> usize {
    if concurrency == 0 || total == 0 {
        1
    } else if concurrency < total {
        concurrency
    } else {
        total
    }
}

/// How many nodes are tested at a time: as many as may be, but no more than there are, and one
/// at least.
pub fn worker_count(concurrency: usize, total: usize) -> (count: usize)
    ensures
        count == (if concurrency == 0 || total == 0 {
            1
        } else if concurrency < total {
            concurrency
        } else {
            total
        }),
        count == workers(concurrency, total),
{
    if concurrency == 0 || total == 0 {
        1
    } else if concurrency < total {
        concurrency
    } else {
        total
    }
}

/// A node and how long it took to answer, in milliseconds.
#[derive(Debug, Clone)]
pub struct DelayResult {
    pub node: String,
    pub delay: u64,
}

/// A node and its delay as contracts see them.
#[verifier::ext_equal]
pub struct DelayView {
    pub node: Seq<char>,
    pub delay: u64,
}

impl View for DelayResult {
    type V = DelayView;

    open spec fn view(&self) -> DelayView {
        DelayView { node: self.node@, delay: self.delay }
    }
}

/// An optional result as contracts see it.
pub open spec fn result_view(result: Option<DelayResult>) -> Option<DelayView> {
    match result {
        Some(result) => Some(result@),
        None => None,
    }
}

/// The better of the best so far and a new result, which is better only where its delay is
/// shorter.
pub open spec fn faster(best: Option<DelayView>, result: DelayView) -> Option<DelayView> {
    match best {
        Some(best) if best.delay <= result.delay => Some(best),
        _ => Some(result),
    }
}

/// The best of results that came in one after the other.
pub open spec fn fastest(results: Seq<DelayView>) -> Option<DelayView>
    decreases results.len(),
{
    if results.len() == 0 {
        None
    } else {
        faster(fastest(results.drop_last()), results.last())
    }
}

/// The best of some results is the first of those with the shortest delay.
pub proof fn fastest_has_shortest_delay(results: Seq<DelayView>)
    requires
        results.len() > 0,
    ensures
        exists|i: int|
            {
                &&& 0 <= i < results.len()
                &&& fastest(results) == Some(#[trigger] results[i])
                &&& forall|k: int|
                    0 <= k < results.len() ==> results[i].delay <= (#[trigger] results[k]).delay
                &&& forall|k: int| 0 <= k < i ==> results[i].delay < (#[trigger] results[k]).delay
            },
    decreases results.len(),
{
    let front = results.drop_last();
    let end = results.len() - 1;
    if front.len() == 0 {
        assert(fastest(front) is None);
        assert(fastest(results) == Some(results[end]));
    } else {
        fastest_has_shortest_delay(front);
        let i = choose|i: int|
            {
                &&& 0 <= i < front.len()
                &&& fastest(front) == Some(#[trigger] front[i])
                &&& forall|k: int|
                    0 <= k < front.len() ==> front[i].delay <= (#[trigger] front[k]).delay
                &&& forall|k: int| 0 <= k < i ==> front[i].delay < (#[trigger] front[k]).delay
            };
        assert(forall|k: int| 0 <= k < front.len() ==> front[k] == #[trigger] results[k]);
        if results[i].delay <= results[end].delay {
            assert(fastest(results) == Some(results[i]));
        } else {
            assert(fastest(results) == Some(results[end]));
        }
    }
}

/// What a key that was pressed during a test asks for.
#[derive(Clone, Copy, Debug, PartialEq, Eq, Structural)]
pub enum KeyAction {
    /// Nothing.
    Ignore,
    /// To go on with the next batch.
    Skip,
    /// To end the program.
    Quit,
}

/// A key as the terminal reports it.
#[derive(Clone, Copy, Debug)]
pub struct KeyReport {
    /// The key was let go.
    pub released: bool,
    /// The key is Esc.
    pub escape: bool,
    /// The control key is held.
    pub control: bool,
    /// The character of the key.
    pub character: Option<char>,
}

/// What a key asks for.
pub open spec fn asked_by(key: KeyReport) -> KeyAction {
    if key.released {
        KeyAction::Ignore
    } else if key.escape {
        KeyAction::Skip
    } else if key.control && key.character == Some('c') {
        KeyAction::Quit
    } else {
        KeyAction::Ignore
    }
}

/// What a key asks for: Esc skips the batch and Ctrl+C ends the program, when they go down.
pub fn key_action(key: &KeyReport) -> (action: KeyAction)
    ensures
        action == (if key.released {
            KeyAction::Ignore
        } else if key.escape {
            KeyAction::Skip
        } else if key.control && key.character == Some('c') {
            KeyAction::Quit
        } else {
            KeyAction::Ignore
        }),
        action == asked_by(*key),
{
    if key.released {
        KeyAction::Ignore
    } else if key.escape {
        KeyAction::Skip
    } else {
        match key.character {
            Some(ch) if key.control && ch == 'c' => KeyAction::Quit,
            _ => KeyAction::Ignore,
        }
    }
}

/// What comes out of a batch.
#[derive(Debug)]
pub enum BatchOutcome {
    /// The node with the shortest delay among those that answered.
    Best(DelayResult),
    /// No node answered.
    Empty,
    /// The batch was skipped.
    Cancelled,
}

/// A batch of nodes under test.
#[derive(Debug)]
pub struct Batch {
    /// How many nodes there are.
    pub total: u64,
    /// The best result so far.
    pub best: Option<DelayResult>,
    /// The batch is to be skipped.
    pub cancelled: bool,
}

impl Batch {
    /// A batch of which no node has answered yet.
    pub fn new(total: u64) -> (batch: Batch)
        ensures
            batch.total == total,
            result_view(batch.best) == fastest(Seq::empty()),
            !batch.cancelled,
    {
        Batch { total, best: None, cancelled: false }
    }

    /// Takes in what a key asked for.
    pub fn press(&mut self, action: KeyAction)
        ensures
            final(self).total == old(self).total,
            final(self).best == old(self).best,
            final(self).cancelled == (old(self).cancelled || action == KeyAction::Skip),
    {
        if action == KeyAction::Skip {
            self.cancelled = true;
        }
    }

    /// Takes in a result.
    pub fn record(&mut self, result: DelayResult)
        ensures
            final(self).total == old(self).total,
            result_view(final(self).best) == faster(result_view(old(self).best), result@),
            final(self).cancelled == old(self).cancelled,
    {
        let better = match &self.best {
            Some(best) => result.delay < best.delay,
            None => true,
        };
        if better {
            self.best = Some(result);
        }
    }

    /// Whether nothing is left to wait for, when `done` nodes have been tested.
    pub fn is_finished(&self, done: u64) -> (yes: bool)
        ensures
            yes == (self.cancelled || done >= self.total),
    {
        self.cancelled || done >= self.total
    }

    /// What comes out of the batch.
    pub fn outcome(self) -> (outcome: BatchOutcome)
        ensures
            match outcome {
                BatchOutcome::Cancelled => self.cancelled,
                BatchOutcome::Best(best) => !self.cancelled && Some(best@) == result_view(
                    self.best,
                ),
                BatchOutcome::Empty => !self.cancelled && self.best is None,
            },
    {
        if self.cancelled {
            return BatchOutcome::Cancelled;
        }
        match self.best {
            Some(best) => BatchOutcome::Best(best),
            None => BatchOutcome::Empty,
        }
    }
}

/// A bar shows as many filled columns as it has, and then those that are not filled.
pub proof fn bar_shows_its_columns(width: nat, filled: nat)
    requires
        filled <= width,
    ensures
        without_escapes(bar_printed(width, filled)) == Seq::new(
            width,
            |i: int|
                if i < filled {
                    '━'
                } else {
                    '─'
                },
        ),
{
    let none = Seq::<char>::empty();
    let done = repeated('━', filled);
    let open = repeated('─', (width - filled) as nat);
    let shown = Seq::new(
        width,
        |i: int|
            if i < filled {
                '━'
            } else {
                '─'
            },
    );
    assert(without_escapes(none) =~= none);
    if width == 0 {
        assert(shown =~= none);
    } else {
        let reset = ANSI_RESET@ + none;
        let second = open + reset;
        let middle = ANSI_BAR_EMPTY@ + second;
        let first = done + middle;
        assert(bar_printed(width, filled) =~= ANSI_BAR_FILLED@ + first);
        lemma_bar_colors_show_nothing(first);
        assert(!done.contains('\u{1b}'));
        lemma_plain_is_shown(done, middle);
        lemma_bar_colors_show_nothing(second);
        assert(!open.contains('\u{1b}'));
        lemma_plain_is_shown(open, reset);
        lemma_reset_shows_nothing(none);
        assert(done + (open + none) =~= shown);
    }
}

proof fn lemma_bar_colors_show_nothing(rest: Seq<char>)
    ensures
        without_escapes(ANSI_BAR_FILLED@ + rest) == without_escapes(rest),
        without_escapes(ANSI_BAR_EMPTY@ + rest) == without_escapes(rest),
        without_escapes(ANSI_SPINNER@ + rest) == without_escapes(rest),
{
    reveal_strlit("\x1b[36m");
    reveal_strlit("\x1b[34m");
    reveal_strlit("\x1b[94m");
    assert(ANSI_BAR_FILLED@ =~= seq!['\u{1b}', '['] + seq!['3', '6'] + seq!['m']);
    assert(ANSI_BAR_EMPTY@ =~= seq!['\u{1b}', '['] + seq!['3', '4'] + seq!['m']);
    assert(ANSI_SPINNER@ =~= seq!['\u{1b}', '['] + seq!['9', '4'] + seq!['m']);
    lemma_sequence_shows_nothing(seq!['3', '6'], rest);
    lemma_sequence_shows_nothing(seq!['3', '4'], rest);
    lemma_sequence_shows_nothing(seq!['9', '4'], rest);
}

/// A bar is full where there is nothing to do.
pub proof fn bar_is_full_without_work(width: usize, done: u64)
    ensures
        filled_columns(width, done, 0) == width,
{
}

/// A line shows the spinner, what is tested, a bar and a count, with a space between each two.
/// The count says how many of how many nodes are done. The line counts on ten columns at least:
/// the label has what the spinner, the spaces and the count leave, and is cut where it takes more.
/// The bar has what the label leaves, but no more than 36 columns, and is left out where nothing
/// is left.
pub proof fn probe_line_is_laid_out(
    spinner: Seq<char>,
    label: Seq<char>,
    done: u64,
    total: u64,
    width: nat,
    columns: nat,
)
    ensures
        ({
            let count = decimal(done as nat) + "/"@ + decimal(total as nat);
            let line = if width > 10 {
                width as int
            } else {
                10
            };
            let room = if line - 4 - count.len() > 0 {
                line - 4 - count.len()
            } else {
                0
            };
            let left = room - columns;
            let bar = if left > 36 {
                36
            } else if left > 0 {
                left
            } else {
                0
            };
            let prefix = if columns <= room {
                "节点延迟测试: "@ + label
            } else {
                truncated("节点延迟测试: "@ + label, room as nat)
            };
            let start = "\x1b[94m"@ + spinner + "\x1b[0m"@ + " "@ + prefix + " "@;
            probe_printed(spinner, label, done, total, width, columns) == (if bar == 0 {
                start + count
            } else {
                start + bar_printed(
                    bar as nat,
                    filled_columns(bar as usize, done, total) as nat,
                ) + " "@ + count
            })
        }),
{
}

/// The best result so far stays unless a new one has a shorter delay, and the first result is
/// the best one.
pub proof fn shorter_delay_is_better(best: DelayView, result: DelayView)
    ensures
        faster(None, result) == Some(result),
        result.delay < best.delay ==> faster(Some(best), result) == Some(result),
        result.delay >= best.delay ==> faster(Some(best), result) == Some(best),
        fastest(Seq::empty()) is None,
{
}

/// A bar is full where no less is done than there is to do.
pub proof fn bar_is_full_when_all_is_done(width: usize, done: u64, total: u64)
    requires
        0 < total <= done,
        done * width / total as int <= usize::MAX,
    ensures
        filled_columns(width, done, total) == width,
{
    assert(done * width / total as int >= width) by (nonlinear_arith)
        requires
            0 < total <= done,
    ;
}

/// One node at least is tested at a time, and no more than there are or than may be. Both numbers
/// bound it alike.
pub proof fn workers_are_bounded(concurrency: usize, total: usize)
    ensures
        workers(concurrency, total) >= 1,
        workers(concurrency, total) == workers(total, concurrency),
        0 < concurrency <= total ==> workers(concurrency, total) == concurrency,
        concurrency == 0 ==> workers(concurrency, total) == 1,
{
}

/// A key asks for something only when it goes down. The escape key skips, whatever is held with
/// it, and a C with the control key quits.
pub proof fn keys_ask_when_they_go_down(key: KeyReport)
    ensures
        asked_by(key) == KeyAction::Skip <==> key.escape && !key.released,
        asked_by(key) == KeyAction::Quit <==> key.control && key.character == Some('c')
            && !key.escape && !key.released,
{
}

} // verus!

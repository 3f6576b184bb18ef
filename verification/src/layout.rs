//! How a row of tags is broken into lines.

use vstd::prelude::*;
use crate::width::{counts, lemma_total_add, total};

verus! {

/// Lines under construction: how many tags stand on each finished line and on the open one,
/// and how many columns of the open one are used.
#[verifier::ext_equal]
pub struct LinesView {
    pub finished: Seq<nat>,
    pub open: nat,
    pub used: nat,
}

/// The columns that a tag of the given width adds to a line with `before` tags on it. A tag
/// that is not the first shares one column with the tag to its left.
pub open spec fn added_columns(before: nat, width: nat) -> nat {
    if before == 0 || width == 0 {
        width
    } else {
        (width - 1) as nat
    }
}

impl LinesView {
    /// The lines after one more tag: on the open line where the terminal has more columns
    /// than are then used, or where none is used yet; else on a new line.
    pub open spec fn place(self, width: nat, terminal: nat) -> LinesView {
        let added = added_columns(self.open, width);
        if self.used > 0 && self.used + added >= terminal {
            LinesView { finished: self.finished.push(self.open), open: 1, used: width }
        } else {
            LinesView { finished: self.finished, open: self.open + 1, used: self.used + added }
        }
    }

    /// How many tags stand on each line.
    pub open spec fn lengths(self) -> Seq<nat> {
        if self.open > 0 {
            self.finished.push(self.open)
        } else {
            self.finished
        }
    }
}

/// The lines after all tags are placed, of which the first line has `initial` columns in use
/// before the first tag.
pub open spec fn placed(widths: Seq<nat>, terminal: nat, initial: nat) -> LinesView
    decreases widths.len(),
{
    if widths.len() == 0 {
        LinesView { finished: Seq::empty(), open: 0, used: initial }
    } else {
        placed(widths.drop_last(), terminal, initial).place(widths.last(), terminal)
    }
}

/// How many tags of the given widths stand on each line.
pub open spec fn line_lengths(widths: Seq<nat>, terminal: nat, initial: nat) -> Seq<nat> {
    placed(widths, terminal, initial).lengths()
}

/// The columns that a line of tags uses.
pub open spec fn line_width(widths: Seq<nat>) -> nat
    decreases widths.len(),
{
    if widths.len() == 0 {
        0
    } else {
        line_width(widths.drop_last()) + added_columns((widths.len() - 1) as nat, widths.last())
    }
}

/// Where the line with the number `line` begins: the number of tags before it.
pub open spec fn line_start(lengths: Seq<nat>, line: int) -> nat {
    total(lengths.take(line))
}

/// The tags of each line.
pub open spec fn grouped<T>(tags: Seq<T>, lengths: Seq<nat>) -> Seq<Seq<T>> {
    Seq::new(
        lengths.len(),
        |line: int|
            tags.subrange(
                line_start(lengths, line) as int,
                line_start(lengths, line) as int + lengths[line],
            ),
    )
}

/// The line with the number `line` lies within the row.
pub proof fn lemma_line_bounds(lengths: Seq<nat>, line: int)
    requires
        0 <= line < lengths.len(),
    ensures
        line_start(lengths, line) + lengths[line] == line_start(lengths, line + 1),
        line_start(lengths, line + 1) <= total(lengths),
{
    assert(lengths.take(line + 1).drop_last() == lengths.take(line));
    assert(lengths.take(line + 1) + lengths.skip(line + 1) == lengths);
    lemma_total_add(lengths.take(line + 1), lengths.skip(line + 1));
}

proof fn lemma_placed_counts(widths: Seq<nat>, terminal: nat, initial: nat)
    ensures
        total(placed(widths, terminal, initial).finished) + placed(widths, terminal, initial).open
            == widths.len(),
        widths.len() > 0 ==> placed(widths, terminal, initial).open > 0,
        total(line_lengths(widths, terminal, initial)) == widths.len(),
    decreases widths.len(),
{
    let all = placed(widths, terminal, initial);
    if widths.len() > 0 {
        let before = placed(widths.drop_last(), terminal, initial);
        lemma_placed_counts(widths.drop_last(), terminal, initial);
        assert(before.finished.push(before.open).drop_last() == before.finished);
    }
    assert(all.finished.push(all.open).drop_last() == all.finished);
}

/// Every tag stands on exactly one line, and the tags keep their order: line after line they
/// are the row again.
pub proof fn lines_keep_all_tags<T>(tags: Seq<T>, widths: Seq<nat>, terminal: nat, initial: nat)
    requires
        tags.len() == widths.len(),
    ensures
        total(line_lengths(widths, terminal, initial)) == tags.len(),
        grouped(tags, line_lengths(widths, terminal, initial)).flatten() == tags,
{
    lemma_placed_counts(widths, terminal, initial);
    lemma_grouped_flatten(tags, line_lengths(widths, terminal, initial));
}

proof fn lemma_grouped_flatten<T>(tags: Seq<T>, lengths: Seq<nat>)
    requires
        total(lengths) == tags.len(),
    ensures
        grouped(tags, lengths).flatten() == tags,
    decreases lengths.len(),
{
    let groups = grouped(tags, lengths);
    if lengths.len() == 0 {
        assert(groups.flatten() =~= tags);
    } else {
        let shorter = lengths.drop_last();
        let cut = total(shorter) as int;
        let head = tags.take(cut);
        lemma_grouped_flatten(head, shorter);
        assert forall|line: int| 0 <= line < shorter.len() implies grouped(head, shorter)[line]
            == #[trigger] groups[line] by {
            assert(lengths.take(line) == shorter.take(line));
            lemma_line_bounds(shorter, line);
            assert(grouped(head, shorter)[line] =~= groups[line]);
        }
        assert(lengths.take(lengths.len() - 1) == shorter);
        assert(groups.last() == tags.subrange(cut, tags.len() as int));
        assert(groups.drop_last() =~= grouped(head, shorter));
        assert(groups == groups.drop_last().push(groups.last()));
        groups.drop_last().lemma_flatten_push(groups.last());
        assert(head + tags.subrange(cut, tags.len() as int) =~= tags);
    }
}

/// No line but the first is empty, and the first is empty only after columns were in use
/// before it.
pub proof fn lines_are_not_empty(widths: Seq<nat>, terminal: nat, initial: nat, line: int)
    requires
        0 <= line < line_lengths(widths, terminal, initial).len(),
        line > 0 || initial == 0,
    ensures
        line_lengths(widths, terminal, initial)[line] > 0,
    decreases widths.len(),
{
    lemma_placed_counts(widths, terminal, initial);
    if widths.len() > 0 {
        let before = placed(widths.drop_last(), terminal, initial);
        lemma_placed_counts(widths.drop_last(), terminal, initial);
        if line < before.lengths().len() {
            lines_are_not_empty(widths.drop_last(), terminal, initial, line);
        }
        if widths.len() == 1 {
            assert(before.finished =~= Seq::<nat>::empty());
        }
    }
}

/// The columns in use before the first tag of a line.
pub open spec fn lead(line: int, initial: nat) -> nat {
    if line == 0 {
        initial
    } else {
        0
    }
}

/// The columns that are used on a line, those before its first tag included.
pub open spec fn used_columns(
    widths: Seq<nat>,
    lengths: Seq<nat>,
    initial: nat,
    line: int,
) -> nat {
    lead(line, initial) + line_width(grouped(widths, lengths)[line])
}

proof fn lemma_same_line(
    shorter: Seq<nat>,
    widths: Seq<nat>,
    before: Seq<nat>,
    lengths: Seq<nat>,
    line: int,
)
    requires
        shorter == widths.drop_last(),
        widths.len() > 0,
        0 <= line < before.len(),
        line < lengths.len(),
        before.take(line + 1) == lengths.take(line + 1),
        total(before) == shorter.len(),
    ensures
        grouped(shorter, before)[line] == grouped(widths, lengths)[line],
{
    assert(before.take(line) == before.take(line + 1).take(line));
    assert(lengths.take(line) == lengths.take(line + 1).take(line));
    assert(before[line] == before.take(line + 1)[line]);
    assert(lengths[line] == lengths.take(line + 1)[line]);
    lemma_line_bounds(before, line);
    assert(grouped(shorter, before)[line] =~= grouped(widths, lengths)[line]);
}

proof fn lemma_open_line(widths: Seq<nat>, terminal: nat, initial: nat)
    requires
        widths.len() > 0,
        forall|i: int| 0 <= i < widths.len() ==> #[trigger] widths[i] > 0,
    ensures
        placed(widths, terminal, initial).used > 0,
        placed(widths, terminal, initial).used == used_columns(
            widths,
            line_lengths(widths, terminal, initial),
            initial,
            placed(widths, terminal, initial).finished.len() as int,
        ),
    decreases widths.len(),
{
    let shorter = widths.drop_last();
    let before = placed(shorter, terminal, initial);
    let after = placed(widths, terminal, initial);
    let lengths = after.lengths();
    let line = after.finished.len() as int;
    lemma_placed_counts(shorter, terminal, initial);
    lemma_placed_counts(widths, terminal, initial);
    assert(lengths.take(line) == after.finished);
    let tags = grouped(widths, lengths)[line];
    assert(tags == widths.subrange(widths.len() - after.open, widths.len() as int));
    assert(tags.last() == widths.last());
    if after.open == 1 {
        assert(tags.drop_last() =~= Seq::<nat>::empty());
        assert(line_width(tags) == widths.last()) by {
            reveal_with_fuel(line_width, 2);
        }
        if before.open == 0 {
            assert(shorter.len() == 0);
        }
    } else {
        assert(shorter.len() > 0);
        lemma_open_line(shorter, terminal, initial);
        assert(before.lengths().take(line) == before.finished);
        let tags_before = grouped(shorter, before.lengths())[line];
        assert(tags_before =~= shorter.subrange(
            shorter.len() - before.open,
            shorter.len() as int,
        ));
        assert(tags.drop_last() =~= tags_before);
    }
}

/// A line does not reach the terminal's width, unless it is one tag with nothing before it.
pub proof fn lines_stay_inside_the_terminal(
    widths: Seq<nat>,
    terminal: nat,
    initial: nat,
    line: int,
)
    requires
        forall|i: int| 0 <= i < widths.len() ==> #[trigger] widths[i] > 0,
        0 <= line < line_lengths(widths, terminal, initial).len(),
        line_lengths(widths, terminal, initial)[line] > (if lead(line, initial) > 0 {
            0int
        } else {
            1
        }),
    ensures
        used_columns(widths, line_lengths(widths, terminal, initial), initial, line) < terminal,
    decreases widths.len(),
{
    if widths.len() > 0 {
        let shorter = widths.drop_last();
        let before = placed(shorter, terminal, initial);
        let after = placed(widths, terminal, initial);
        lemma_placed_counts(shorter, terminal, initial);
        lemma_placed_counts(widths, terminal, initial);
        if line < after.finished.len() {
            assert(before.lengths().len() > line) by {
                if before.open == 0 {
                    assert(shorter.len() == 0);
                }
            }
            assert(before.lengths().take(line + 1) =~= after.lengths().take(line + 1));
            lemma_same_line(shorter, widths, before.lengths(), after.lengths(), line);
            lines_stay_inside_the_terminal(shorter, terminal, initial, line);
        } else {
            lemma_open_line(widths, terminal, initial);
            if shorter.len() > 0 {
                lemma_open_line(shorter, terminal, initial);
            }
        }
    }
}

/// The widest that a line can be: no wider than the terminal where each tag and the columns
/// before the first line fit in it.
pub proof fn lines_fit_the_terminal(
    widths: Seq<nat>,
    terminal: nat,
    initial: nat,
    line: int,
)
    requires
        forall|i: int| 0 <= i < widths.len() ==> 0 < #[trigger] widths[i] <= terminal,
        initial <= terminal,
        0 <= line < line_lengths(widths, terminal, initial).len(),
    ensures
        used_columns(widths, line_lengths(widths, terminal, initial), initial, line) <= terminal,
{
    let lengths = line_lengths(widths, terminal, initial);
    if lengths[line] > (if lead(line, initial) > 0 {
        0int
    } else {
        1
    }) {
        lines_stay_inside_the_terminal(widths, terminal, initial, line);
    } else {
        lemma_placed_counts(widths, terminal, initial);
        lemma_line_bounds(lengths, line);
        let tags = grouped(widths, lengths)[line];
        if tags.len() == 1 {
            assert(tags.drop_last() =~= Seq::<nat>::empty());
            reveal_with_fuel(line_width, 2);
            assert(tags[0] == widths[line_start(lengths, line) as int]);
        }
    }
}

/// A line is broken only where the first tag of the next one would have reached the terminal's
/// width on it.
pub proof fn lines_break_only_where_forced(
    widths: Seq<nat>,
    terminal: nat,
    initial: nat,
    line: int,
)
    requires
        forall|i: int| 0 <= i < widths.len() ==> #[trigger] widths[i] > 0,
        0 <= line < line_lengths(widths, terminal, initial).len() - 1,
    ensures
        ({
            let lengths = line_lengths(widths, terminal, initial);
            used_columns(widths, lengths, initial, line) + added_columns(
                lengths[line],
                widths[line_start(lengths, line + 1) as int],
            ) >= terminal
        }),
    decreases widths.len(),
{
    if widths.len() > 0 {
        let shorter = widths.drop_last();
        let before = placed(shorter, terminal, initial);
        let after = placed(widths, terminal, initial);
        lemma_placed_counts(shorter, terminal, initial);
        lemma_placed_counts(widths, terminal, initial);
        if shorter.len() == 0 {
            assert(before.finished =~= Seq::<nat>::empty());
            let lengths = after.lengths();
            assert(line == 0 && lengths[0] == 0);
            assert(lengths.take(0) =~= Seq::<nat>::empty());
            assert(lengths.take(1).drop_last() =~= Seq::<nat>::empty());
            reveal_with_fuel(total, 2);
            assert(grouped(widths, lengths)[0] =~= Seq::<nat>::empty());
        } else {
            let lengths = after.lengths();
            assert(before.lengths().take(line + 1) =~= lengths.take(line + 1));
            lemma_same_line(shorter, widths, before.lengths(), lengths, line);
            assert(lengths[line] == lengths.take(line + 1)[line]);
            assert(before.lengths()[line] == before.lengths().take(line + 1)[line]);
            if line < before.finished.len() {
                lines_break_only_where_forced(shorter, terminal, initial, line);
                lines_are_not_empty(shorter, terminal, initial, line + 1);
                lemma_line_bounds(before.lengths(), line + 1);
            } else {
                lemma_open_line(shorter, terminal, initial);
                assert(before.lengths().take(line + 1) =~= before.lengths());
            }
        }
    }
}

/// How many tags of the given widths stand on each line of the terminal.
pub fn break_lines(widths: &Vec<usize>, terminal_width: usize, initial_width: usize) -> (lengths:
    Vec<usize>)
    ensures
        counts(lengths@) == line_lengths(
            counts(widths@),
            terminal_width as nat,
            initial_width as nat,
        ),
{
    let ghost all = counts(widths@);
    let ghost terminal = terminal_width as nat;
    let ghost initial = initial_width as nat;
    let mut lengths: Vec<usize> = Vec::new();
    let mut open: usize = 0;
    let mut used: usize = initial_width;
    let mut i: usize = 0;
    assert(counts(lengths@) =~= Seq::<nat>::empty());
    while i < widths.len()
        invariant
            i <= widths@.len(),
            all == counts(widths@),
            terminal == terminal_width,
            initial == initial_width,
            open <= i,
            placed(all.take(i as int), terminal, initial) == (LinesView {
                finished: counts(lengths@),
                open: open as nat,
                used: used as nat,
            }),
        decreases widths@.len() - i,
    {
        proof {
            assert(all.take(i + 1).drop_last() == all.take(i as int));
            assert(all.take(i + 1).last() == widths@[i as int]);
        }
        let width = widths[i];
        let added: usize = if open == 0 {
            width
        } else {
            width.saturating_sub(1)
        };
        if used > 0 && used.saturating_add(added) >= terminal_width {
            let ghost before = counts(lengths@);
            lengths.push(open);
            assert(counts(lengths@) =~= before.push(open as nat));
            open = 1;
            used = width;
        } else {
            open += 1;
            used += added;
        }
        i += 1;
    }
    assert(all.take(i as int) == all);
    let ghost before = counts(lengths@);
    if open > 0 {
        lengths.push(open);
        assert(counts(lengths@) =~= before.push(open as nat));
    }
    lengths
}

/// Neighbours on a line share one column: a line is as wide as its tags are together, less one
/// column for each tag but the first.
pub proof fn neighbours_share_a_column(widths: Seq<nat>)
    requires
        widths.len() > 0,
        forall|i: int| 0 <= i < widths.len() ==> #[trigger] widths[i] > 0,
    ensures
        line_width(widths) + widths.len() - 1 == total(widths),
    decreases widths.len(),
{
    let front = widths.drop_last();
    assert(widths[widths.len() - 1] > 0);
    if front.len() > 0 {
        assert forall|i: int| 0 <= i < front.len() implies #[trigger] front[i] > 0 by {
            assert(front[i] == widths[i]);
        }
        neighbours_share_a_column(front);
    } else {
        assert(line_width(front) == 0);
        assert(total(front) == 0);
    }
}

/// Tags that fit behind the columns in use without reaching the terminal's width stand on one
/// line.
pub proof fn what_fits_stands_on_one_line(widths: Seq<nat>, terminal: nat, initial: nat)
    requires
        widths.len() > 0,
        initial + line_width(widths) < terminal,
    ensures
        line_lengths(widths, terminal, initial) == seq![widths.len()],
{
    lemma_one_line(widths, terminal, initial);
    assert(line_lengths(widths, terminal, initial) =~= seq![widths.len()]);
}

proof fn lemma_one_line(widths: Seq<nat>, terminal: nat, initial: nat)
    requires
        initial + line_width(widths) < terminal,
    ensures
        placed(widths, terminal, initial) == (LinesView {
            finished: Seq::empty(),
            open: widths.len(),
            used: initial + line_width(widths),
        }),
    decreases widths.len(),
{
    if widths.len() > 0 {
        lemma_one_line(widths.drop_last(), terminal, initial);
    }
}

} // verus!

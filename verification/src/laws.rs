use vstd::prelude::*;

use crate::list::checked_list;
use crate::list::display_of;
use crate::list::display_position;
use crate::list::finish;
use crate::list::finished_of;
use crate::list::first_match;
use crate::list::lemma_display_contains;
use crate::list::lemma_display_partition;
use crate::list::line_break;
use crate::list::parse_lines;
use crate::list::removed_list;
use crate::list::split_lines;
use crate::list::storage_text;
use crate::list::unfinished_of;
use crate::task::TaskView;
use crate::task::line_of;
use crate::task::parse_line;

verus! {

/// A task whose text has no newline renders to a line with none either.
pub proof fn lemma_line_no_newline(t: TaskView)
    requires
        !t.text.contains('\n'),
    ensures
        forall|k: int| 0 <= k < line_of(t).len() ==> line_of(t)[k] != '\n',
{
    assert forall|k: int| 0 <= k < line_of(t).len() implies line_of(t)[k] != '\n' by {
        if k >= 4 {
            assert(line_of(t)[k] == t.text[k - 4]);
            assert(!t.text.contains('\n'));
            if t.text[k - 4] == '\n' {
                assert(t.text.contains('\n'));
            }
        }
    }
}

/// The first newline after a newline-free prefix is the one that follows it.
pub proof fn lemma_line_break_concat(a: Seq<char>, b: Seq<char>)
    requires
        forall|k: int| 0 <= k < a.len() ==> a[k] != '\n',
    ensures
        line_break(a + seq!['\n'] + b) == a.len(),
    decreases a.len(),
{
    let s = a + seq!['\n'] + b;
    if a.len() == 0 {
        assert(s[0] == '\n');
    } else {
        lemma_line_break_concat(a.drop_first(), b);
        assert(s.drop_first() =~= a.drop_first() + seq!['\n'] + b);
        assert(s[0] == a[0]);
    }
}

/// Splitting text that opens with a newline-free line takes that line off.
pub proof fn lemma_split_lines_unfold(a: Seq<char>, b: Seq<char>)
    requires
        forall|k: int| 0 <= k < a.len() ==> a[k] != '\n',
    ensures
        split_lines(a + seq!['\n'] + b) == seq![a] + split_lines(b),
{
    let s = a + seq!['\n'] + b;
    lemma_line_break_concat(a, b);
    assert(s.take(a.len() as int) =~= a);
    assert(s.skip(a.len() as int + 1) =~= b);
    assert(split_lines(s) =~= seq![a] + split_lines(b));
}

/// Parsing undoes rendering on a single task's line.
pub proof fn lemma_parse_line_of(t: TaskView)
    ensures
        parse_line(line_of(t)) == Some(t),
{
    let line = line_of(t);
    assert(line[0] == '[' && line[2] == ']' && line[3] == ' ');
    assert(line[1] == (if t.finished {
        'x'
    } else {
        ' '
    }));
    assert(line.skip(4) =~= t.text);
}

/// The lines of the persisted text are exactly one rendered line per task,
/// in storage order — provided no task text holds a newline.
pub proof fn lemma_storage_lines(ts: Seq<TaskView>)
    requires
        forall|k: int| 0 <= k < ts.len() ==> !(#[trigger] ts[k]).text.contains('\n'),
    ensures
        split_lines(storage_text(ts)) == Seq::new(ts.len(), |k: int| line_of(ts[k])),
    decreases ts.len(),
{
    if ts.len() == 0 {
        assert(split_lines(storage_text(ts)) =~= Seq::new(ts.len(), |k: int| line_of(ts[k])));
    } else {
        let rest = ts.drop_first();
        assert(forall|k: int| 0 <= k < rest.len() ==> !(#[trigger] rest[k]).text.contains('\n'));
        lemma_storage_lines(rest);
        lemma_line_no_newline(ts[0]);
        lemma_split_lines_unfold(line_of(ts[0]), storage_text(rest));
        assert(storage_text(ts) == line_of(ts[0]) + seq!['\n'] + storage_text(rest));
        assert(split_lines(storage_text(ts)) =~= Seq::new(ts.len(), |k: int| line_of(ts[k])));
    }
}

/// Round trip: any list whose task texts hold no newline is read back from
/// its persisted text exactly, storage order and content preserved.
pub proof fn lemma_round_trip(ts: Seq<TaskView>)
    requires
        forall|k: int| 0 <= k < ts.len() ==> !(#[trigger] ts[k]).text.contains('\n'),
    ensures
        parse_lines(storage_text(ts)) == Some(ts),
{
    lemma_storage_lines(ts);
    let lines = split_lines(storage_text(ts));
    assert forall|k: int| 0 <= k < lines.len() implies (#[trigger] parse_line(lines[k]))
        == Some(ts[k]) by {
        lemma_parse_line_of(ts[k]);
    }
    assert(Seq::new(lines.len(), |k: int| parse_line(lines[k])->0) =~= ts);
}

/// Display ordering: every unfinished task stands before every finished
/// one, and each block is the order-preserving selection of its status
/// from storage order.
pub proof fn lemma_display_ordering(ts: Seq<TaskView>)
    ensures
        display_of(ts) == unfinished_of(ts) + finished_of(ts),
        display_of(ts).len() == ts.len(),
        forall|k: int|
            0 <= k < unfinished_of(ts).len() ==> !(#[trigger] display_of(ts)[k]).finished,
        forall|k: int|
            unfinished_of(ts).len() <= k < display_of(ts).len() ==> (#[trigger] display_of(
                ts,
            )[k]).finished,
{
    broadcast use Seq::lemma_filter_pred;

    lemma_display_partition(ts);
    assert forall|k: int| 0 <= k < unfinished_of(ts).len() implies !(#[trigger] display_of(
        ts,
    )[k]).finished by {
        assert(display_of(ts)[k] == unfinished_of(ts)[k]);
    }
    assert forall|k: int|
        unfinished_of(ts).len() <= k < display_of(ts).len() implies (#[trigger] display_of(
        ts,
    )[k]).finished by {
        assert(display_of(ts)[k] == finished_of(ts)[k - unfinished_of(ts).len()]);
    }
}

/// An unfinished task's place in its display block: the unfinished tasks
/// stored before it come first, and nothing else.
proof fn lemma_unfinished_position(ts: Seq<TaskView>, p: int)
    requires
        0 <= p < ts.len(),
        !ts[p].finished,
    ensures
        unfinished_of(ts.take(p)).len() < unfinished_of(ts).len(),
        unfinished_of(ts)[unfinished_of(ts.take(p)).len() as int] == ts[p],
    decreases ts.len(),
{
    broadcast use Seq::lemma_filter_push;

    if p == ts.len() - 1 {
        assert(ts.take(p).push(ts[p]) =~= ts);
        assert(unfinished_of(ts.take(p).push(ts[p])) == unfinished_of(ts.take(p)).push(ts[p]));
    } else {
        lemma_unfinished_position(ts.drop_last(), p);
        assert(ts.drop_last().take(p) =~= ts.take(p));
        assert(ts.drop_last().push(ts.last()) =~= ts);
        assert(unfinished_of(ts.drop_last().push(ts.last())) == if !ts.last().finished {
            unfinished_of(ts.drop_last()).push(ts.last())
        } else {
            unfinished_of(ts.drop_last())
        });
    }
}

/// A finished task's place in its display block, likewise.
proof fn lemma_finished_position(ts: Seq<TaskView>, p: int)
    requires
        0 <= p < ts.len(),
        ts[p].finished,
    ensures
        finished_of(ts.take(p)).len() < finished_of(ts).len(),
        finished_of(ts)[finished_of(ts.take(p)).len() as int] == ts[p],
    decreases ts.len(),
{
    broadcast use Seq::lemma_filter_push;

    if p == ts.len() - 1 {
        assert(ts.take(p).push(ts[p]) =~= ts);
        assert(finished_of(ts.take(p).push(ts[p])) == finished_of(ts.take(p)).push(ts[p]));
    } else {
        lemma_finished_position(ts.drop_last(), p);
        assert(ts.drop_last().take(p) =~= ts.take(p));
        assert(ts.drop_last().push(ts.last()) =~= ts);
        assert(finished_of(ts.drop_last().push(ts.last())) == if ts.last().finished {
            finished_of(ts.drop_last()).push(ts.last())
        } else {
            finished_of(ts.drop_last())
        });
    }
}

/// Counting a status through a longer storage prefix that includes one
/// more task of that status counts strictly more.
proof fn lemma_status_count_grows(ts: Seq<TaskView>, p: int, q: int)
    requires
        0 <= p < q <= ts.len(),
    ensures
        !ts[p].finished ==> unfinished_of(ts.take(p)).len() < unfinished_of(ts.take(q)).len(),
        ts[p].finished ==> finished_of(ts.take(p)).len() < finished_of(ts.take(q)).len(),
    decreases q,
{
    broadcast use Seq::lemma_filter_push;

    if q == p + 1 {
        assert(ts.take(q) =~= ts.take(p).push(ts[p]));
    } else {
        lemma_status_count_grows(ts, p, q - 1);
        assert(ts.take(q) =~= ts.take(q - 1).push(ts[q - 1]));
    }
}

/// Each stored task is shown at `display_position`: unfinished tasks all
/// stand before finished ones there.
pub proof fn lemma_display_follows_storage(ts: Seq<TaskView>, p: int)
    requires
        0 <= p < ts.len(),
    ensures
        0 <= display_position(ts, p) < display_of(ts).len(),
        display_of(ts)[display_position(ts, p)] == ts[p],
        !ts[p].finished ==> display_position(ts, p) < unfinished_of(ts).len(),
        ts[p].finished ==> unfinished_of(ts).len() <= display_position(ts, p),
{
    lemma_display_partition(ts);
    if !ts[p].finished {
        lemma_unfinished_position(ts, p);
    } else {
        lemma_finished_position(ts, p);
    }
}

/// Within each status group, display order follows storage order: of two
/// same-status tasks, the one stored earlier is shown earlier.
pub proof fn lemma_display_order_is_storage_order(ts: Seq<TaskView>, p: int, q: int)
    requires
        0 <= p < q < ts.len(),
        ts[p].finished == ts[q].finished,
    ensures
        display_position(ts, p) < display_position(ts, q),
{
    lemma_status_count_grows(ts, p, q);
}

/// Checking an unfinished task rewrites exactly one line of the persisted
/// text, turning its `[ ]` marker into `[x]`; every other line is
/// unchanged, and so is the storage order.
pub proof fn lemma_check_changes_one_line(ts: Seq<TaskView>, i: int)
    requires
        1 <= i <= ts.len(),
        forall|k: int| 0 <= k < ts.len() ==> !(#[trigger] ts[k]).text.contains('\n'),
        !display_of(ts)[i - 1].finished,
    ensures
        ({
            let j = first_match(ts, display_of(ts)[i - 1]);
            let before = split_lines(storage_text(ts));
            let after = split_lines(storage_text(checked_list(ts, i)));
            &&& 0 <= j < ts.len()
            &&& before.len() == ts.len()
            &&& after.len() == ts.len()
            &&& forall|k: int| 0 <= k < ts.len() && k != j ==> after[k] == before[k]
            &&& before[j][1] == ' '
            &&& after[j] == before[j].update(1, 'x')
        }),
{
    let t = display_of(ts)[i - 1];
    lemma_display_partition(ts);
    lemma_display_contains(ts, i - 1);
    crate::list::lemma_first_match(ts, t);
    let j = first_match(ts, t);
    let ts2 = checked_list(ts, i);
    assert(forall|k: int| 0 <= k < ts2.len() ==> !(#[trigger] ts2[k]).text.contains('\n'));
    lemma_storage_lines(ts);
    lemma_storage_lines(ts2);
    assert(line_of(finish(t)) =~= line_of(t).update(1, 'x'));
}

/// Removing a task deletes exactly one line of the persisted text; the
/// remaining lines are those of the old text, in their old order.
pub proof fn lemma_remove_deletes_one_line(ts: Seq<TaskView>, i: int)
    requires
        1 <= i <= ts.len(),
        forall|k: int| 0 <= k < ts.len() ==> !(#[trigger] ts[k]).text.contains('\n'),
    ensures
        ({
            let j = first_match(ts, display_of(ts)[i - 1]);
            let before = split_lines(storage_text(ts));
            let after = split_lines(storage_text(removed_list(ts, i)));
            &&& 0 <= j < ts.len()
            &&& before.len() == ts.len()
            &&& after.len() == ts.len() - 1
            &&& after == before.remove(j)
        }),
{
    let t = display_of(ts)[i - 1];
    lemma_display_partition(ts);
    lemma_display_contains(ts, i - 1);
    crate::list::lemma_first_match(ts, t);
    let j = first_match(ts, t);
    let ts2 = removed_list(ts, i);
    assert(forall|k: int| 0 <= k < ts2.len() ==> !(#[trigger] ts2[k]).text.contains('\n'));
    lemma_storage_lines(ts);
    lemma_storage_lines(ts2);
    let before = split_lines(storage_text(ts));
    let after = split_lines(storage_text(ts2));
    assert(after =~= before.remove(j));
}

} // verus!

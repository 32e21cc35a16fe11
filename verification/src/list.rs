use vstd::prelude::*;
use vstd::std_specs::cmp::PartialEqSpec;

use crate::errors::Error;
use crate::errors::ParseError;
use crate::task::Status;
use crate::task::Task;
use crate::task::TaskView;
use crate::task::line_of;
use crate::task::parse_line;
use crate::text::decimal_chars;
use crate::text::decimal_string;

verus! {

/// The views of a sequence of tasks, in the same order.
pub open spec fn views_of(tasks: Seq<Task>) -> Seq<TaskView> {
    tasks.map_values(|t: Task| t@)
}

/// The unfinished tasks, in storage order.
pub open spec fn unfinished_of(ts: Seq<TaskView>) -> Seq<TaskView> {
    ts.filter(|t: TaskView| !t.finished)
}

/// The finished tasks, in storage order.
pub open spec fn finished_of(ts: Seq<TaskView>) -> Seq<TaskView> {
    ts.filter(|t: TaskView| t.finished)
}

/// The display order: every unfinished task first, then every finished one,
/// each block keeping storage order. Display indices are 1-based positions
/// in this sequence.
pub open spec fn display_of(ts: Seq<TaskView>) -> Seq<TaskView> {
    unfinished_of(ts) + finished_of(ts)
}

/// The 0-based display position of the task at storage position `p`: an
/// unfinished task is preceded in display order by the unfinished tasks
/// stored before it; a finished one by every unfinished task and by the
/// finished tasks stored before it. The 1-based display index is this
/// position plus one.
pub open spec fn display_position(ts: Seq<TaskView>, p: int) -> int {
    if !ts[p].finished {
        unfinished_of(ts.take(p)).len() as int
    } else {
        unfinished_of(ts).len() + finished_of(ts.take(p)).len() as int
    }
}

/// The persisted form of a list: one line per task in storage order, each
/// line newline-terminated, no numbering and no separator.
pub open spec fn storage_text(ts: Seq<TaskView>) -> Seq<char>
    decreases ts.len(),
{
    if ts.len() == 0 {
        Seq::empty()
    } else {
        line_of(ts[0]) + seq!['\n'] + storage_text(ts.drop_first())
    }
}

/// The index of the first newline in `s`, or `s.len()` if it holds none.
pub open spec fn line_break(s: Seq<char>) -> int
    decreases s.len(),
{
    if s.len() == 0 {
        0
    } else if s[0] == '\n' {
        0
    } else {
        1 + line_break(s.drop_first())
    }
}

/// The lines of store text: the text split at each newline. A trailing
/// newline yields no empty final line; line breaks inside are kept as
/// separators, so `"a\nb\n"`, `"a\nb"` and `"a\n\nb"` give two, two and
/// three lines.
pub open spec fn split_lines(s: Seq<char>) -> Seq<Seq<char>>
    decreases s.len(),
    via split_lines_decreases
{
    if s.len() == 0 {
        Seq::empty()
    } else {
        let i = line_break(s);
        if i >= s.len() {
            seq![s]
        } else {
            seq![s.take(i)] + split_lines(s.skip(i + 1))
        }
    }
}

#[via_fn]
proof fn split_lines_decreases(s: Seq<char>) {
    lemma_line_break(s);
}

/// What parsing whole store text yields: each line parsed as one task, in
/// order; one malformed line fails the whole parse.
pub open spec fn parse_lines(s: Seq<char>) -> Option<Seq<TaskView>> {
    let lines = split_lines(s);
    if forall|k: int| 0 <= k < lines.len() ==> (#[trigger] parse_line(lines[k])) is Some {
        Some(Seq::new(lines.len(), |k: int| parse_line(lines[k])->0))
    } else {
        None
    }
}

/// `line_break` points at the first newline: nothing before it is one, and
/// it is one itself unless the text has none at all.
pub proof fn lemma_line_break(s: Seq<char>)
    ensures
        0 <= line_break(s) <= s.len(),
        line_break(s) < s.len() ==> s[line_break(s)] == '\n',
        forall|k: int| 0 <= k < line_break(s) ==> s[k] != '\n',
    decreases s.len(),
{
    if s.len() > 0 && s[0] != '\n' {
        lemma_line_break(s.drop_first());
        assert forall|k: int| 0 <= k < line_break(s) implies s[k] != '\n' by {
            if k > 0 {
                assert(s.drop_first()[k - 1] != '\n');
            }
        }
    }
}

/// One block of numbered display lines, `"<index> <line>\n"` each, the
/// indices counting up from `start`.
pub open spec fn numbered_text(ts: Seq<TaskView>, start: nat) -> Seq<char>
    decreases ts.len(),
{
    if ts.len() == 0 {
        Seq::empty()
    } else {
        decimal_chars(start) + seq![' '] + line_of(ts[0]) + seq!['\n'] + numbered_text(
            ts.drop_first(),
            start + 1,
        )
    }
}

/// The user-facing form: the unfinished block numbered from 1, one blank
/// line, then the finished block with the numbering carrying on; both
/// blocks keep storage order, and the separator stands even when either
/// block is empty.
pub open spec fn display_text(ts: Seq<TaskView>) -> Seq<char> {
    numbered_text(unfinished_of(ts), 1) + seq!['\n'] + numbered_text(
        finished_of(ts),
        unfinished_of(ts).len() + 1,
    )
}

/// Appending one task appends one numbered line to a display block.
proof fn lemma_numbered_text_push(ts: Seq<TaskView>, start: nat, t: TaskView)
    ensures
        numbered_text(ts.push(t), start) == numbered_text(ts, start) + decimal_chars(
            start + ts.len(),
        ) + seq![' '] + line_of(t) + seq!['\n'],
    decreases ts.len(),
{
    reveal_with_fuel(numbered_text, 2);
    if ts.len() == 0 {
        assert(ts.push(t).drop_first() =~= Seq::<TaskView>::empty());
        assert(numbered_text(ts.push(t), start) =~= numbered_text(ts, start) + decimal_chars(
            start + ts.len(),
        ) + seq![' '] + line_of(t) + seq!['\n']);
    } else {
        lemma_numbered_text_push(ts.drop_first(), start + 1, t);
        assert(ts.push(t).drop_first() =~= ts.drop_first().push(t));
        assert(numbered_text(ts.push(t), start) =~= numbered_text(ts, start) + decimal_chars(
            start + ts.len(),
        ) + seq![' '] + line_of(t) + seq!['\n']);
    }
}

/// The same task marked finished.
pub open spec fn finish(t: TaskView) -> TaskView {
    TaskView { text: t.text, finished: true }
}

/// The least storage index holding a task structurally equal to `t`
/// (meaningful only when `ts` contains `t`).
pub open spec fn first_match(ts: Seq<TaskView>, t: TaskView) -> int
    decreases ts.len(),
{
    if ts.len() == 0 {
        0
    } else if ts[0] == t {
        0
    } else {
        1 + first_match(ts.drop_first(), t)
    }
}

/// What a successful `check(i)` leaves in storage: the earliest task equal
/// to the one at display position `i` is marked finished in place.
pub open spec fn checked_list(ts: Seq<TaskView>, i: int) -> Seq<TaskView> {
    let t = display_of(ts)[i - 1];
    ts.update(first_match(ts, t), finish(t))
}

/// What a successful `remove(i)` leaves in storage: the earliest task equal
/// to the one at display position `i` is deleted, the rest keep their order.
pub open spec fn removed_list(ts: Seq<TaskView>, i: int) -> Seq<TaskView> {
    let t = display_of(ts)[i - 1];
    ts.remove(first_match(ts, t))
}

/// The two status blocks of the display order split the storage sequence.
pub proof fn lemma_display_partition(ts: Seq<TaskView>)
    ensures
        unfinished_of(ts).len() + finished_of(ts).len() == ts.len(),
        display_of(ts).len() == ts.len(),
    decreases ts.len(),
{
    broadcast use Seq::lemma_filter_push;

    if ts.len() > 0 {
        lemma_display_partition(ts.drop_last());
        assert(ts.drop_last().push(ts.last()) =~= ts);
    }
}

/// Every task shown in display order sits somewhere in storage.
pub proof fn lemma_display_contains(ts: Seq<TaskView>, k: int)
    requires
        0 <= k < display_of(ts).len(),
    ensures
        ts.contains(display_of(ts)[k]),
{
    broadcast use Seq::lemma_filter_contains_rev;

    let t = display_of(ts)[k];
    if k < unfinished_of(ts).len() {
        assert(unfinished_of(ts).contains(t));
    } else {
        assert(finished_of(ts).contains(t));
    }
}

/// Where `ts` contains `t`, `first_match` really is the least index of a
/// structurally equal task.
pub proof fn lemma_first_match(ts: Seq<TaskView>, t: TaskView)
    requires
        ts.contains(t),
    ensures
        0 <= first_match(ts, t) < ts.len(),
        ts[first_match(ts, t)] == t,
        forall|k: int| 0 <= k < first_match(ts, t) ==> ts[k] != t,
    decreases ts.len(),
{
    if ts.len() > 0 && ts[0] != t {
        let rest = ts.drop_first();
        assert(rest.contains(t)) by {
            let w = choose|w: int| 0 <= w < ts.len() && ts[w] == t;
            assert(rest[w - 1] == t);
        }
        lemma_first_match(rest, t);
        assert forall|k: int| 0 <= k < first_match(ts, t) implies ts[k] != t by {
            if k > 0 {
                assert(rest[k - 1] != t);
            }
        }
    }
}

/// Appending one task appends one line to the persisted text.
proof fn lemma_storage_text_push(ts: Seq<TaskView>, t: TaskView)
    ensures
        storage_text(ts.push(t)) == storage_text(ts) + line_of(t) + seq!['\n'],
    decreases ts.len(),
{
    reveal_with_fuel(storage_text, 2);
    if ts.len() == 0 {
        assert(ts.push(t).drop_first() =~= Seq::<TaskView>::empty());
        assert(storage_text(ts.push(t)) =~= storage_text(ts) + line_of(t) + seq!['\n']);
    } else {
        lemma_storage_text_push(ts.drop_first(), t);
        assert(ts.push(t).drop_first() =~= ts.drop_first().push(t));
        assert(storage_text(ts.push(t)) =~= storage_text(ts) + line_of(t) + seq!['\n']);
    }
}

/// `views_of` commutes with indexing and preserves length.
proof fn lemma_views_index(tasks: Seq<Task>)
    ensures
        views_of(tasks).len() == tasks.len(),
        forall|k: int| 0 <= k < tasks.len() ==> #[trigger] views_of(tasks)[k] == tasks[k]@,
{
}

/// An ordered todo list. `tasks` is the storage order: the order entries
/// were added or appear in the store, never reordered by status.
#[derive(Debug)]
pub struct TaskList {
    pub tasks: Vec<Task>,
}

impl View for TaskList {
    type V = Seq<TaskView>;

    open spec fn view(&self) -> Seq<TaskView> {
        views_of(self.tasks@)
    }
}

impl PartialEq for TaskList {
    fn eq(&self, other: &TaskList) -> (r: bool) {
        let r = self.tasks == other.tasks;
        proof {
            let a = self.tasks@;
            let b = other.tasks@;
            lemma_views_index(a);
            lemma_views_index(b);
            if r {
                assert(views_of(a) =~= views_of(b));
            } else {
                if views_of(a) == views_of(b) {
                    assert forall|k: int| 0 <= k < a.len() implies a[k].eq_spec(&b[k]) by {
                        assert(views_of(a)[k] == views_of(b)[k]);
                    }
                    assert(false);
                }
            }
        }
        r
    }
}

impl vstd::std_specs::cmp::PartialEqSpecImpl for TaskList {
    open spec fn obeys_eq_spec() -> bool {
        true
    }

    open spec fn eq_spec(&self, other: &TaskList) -> bool {
        self@ == other@
    }
}

impl TaskList {
    /// An empty list.
    pub fn new() -> (r: TaskList)
        ensures
            r@ == Seq::<TaskView>::empty(),
    {
        let list = TaskList { tasks: Vec::new() };
        proof {
            assert(list@ =~= Seq::<TaskView>::empty());
        }
        list
    }

    /// Appends a task at the end of storage order.
    pub fn add(&mut self, new_task: Task)
        ensures
            final(self)@ == old(self)@.push(new_task@),
    {
        let ghost before = self@;
        self.tasks.push(new_task);
        proof {
            assert(self@ =~= before.push(new_task@));
        }
    }

    /// Copies of the finished tasks, in storage order.
    pub fn finished_tasks(&self) -> (r: Vec<Task>)
        ensures
            views_of(r@) == finished_of(self@),
    {
        let ghost vs = self@;
        let mut out: Vec<Task> = Vec::new();
        let mut i: usize = 0;
        while i < self.tasks.len()
            invariant
                i <= self.tasks@.len(),
                vs == views_of(self.tasks@),
                views_of(out@) == finished_of(vs.take(i as int)),
            decreases self.tasks@.len() - i,
        {
            let ghost out_before = out@;
            proof {
                lemma_views_index(self.tasks@);
                assert(vs[i as int] == self.tasks@[i as int]@);
            }
            if self.tasks[i].is_finished() {
                out.push(self.tasks[i].clone());
                proof {
                    assert(views_of(out@) =~= views_of(out_before).push(vs[i as int]));
                }
            }
            proof {
                broadcast use Seq::lemma_filter_push;

                let t = vs.take(i as int);
                assert(vs.take(i + 1) =~= t.push(vs[i as int]));
                assert(finished_of(t.push(vs[i as int])) == if vs[i as int].finished {
                    finished_of(t).push(vs[i as int])
                } else {
                    finished_of(t)
                });
            }
            i += 1;
        }
        proof {
            assert(vs.take(self.tasks@.len() as int) =~= vs);
        }
        out
    }

    /// Copies of the unfinished tasks, in storage order.
    pub fn unfinished_tasks(&self) -> (r: Vec<Task>)
        ensures
            views_of(r@) == unfinished_of(self@),
    {
        let ghost vs = self@;
        let mut out: Vec<Task> = Vec::new();
        let mut i: usize = 0;
        while i < self.tasks.len()
            invariant
                i <= self.tasks@.len(),
                vs == views_of(self.tasks@),
                views_of(out@) == unfinished_of(vs.take(i as int)),
            decreases self.tasks@.len() - i,
        {
            let ghost out_before = out@;
            proof {
                lemma_views_index(self.tasks@);
                assert(vs[i as int] == self.tasks@[i as int]@);
            }
            if !self.tasks[i].is_finished() {
                out.push(self.tasks[i].clone());
                proof {
                    assert(views_of(out@) =~= views_of(out_before).push(vs[i as int]));
                }
            }
            proof {
                broadcast use Seq::lemma_filter_push;

                let t = vs.take(i as int);
                assert(vs.take(i + 1) =~= t.push(vs[i as int]));
                assert(unfinished_of(t.push(vs[i as int])) == if !vs[i as int].finished {
                    unfinished_of(t).push(vs[i as int])
                } else {
                    unfinished_of(t)
                });
            }
            i += 1;
        }
        proof {
            assert(vs.take(self.tasks@.len() as int) =~= vs);
        }
        out
    }

    /// The persisted form: storage order, one newline-terminated line per
    /// task. Mutations are written back through this, never through the
    /// display order, so the stored order never drifts with status changes.
    pub fn to_string_unordered(&self) -> (r: String)
        ensures
            r@ == storage_text(self@),
    {
        let ghost vs = self@;
        let mut out = String::new();
        let mut i: usize = 0;
        while i < self.tasks.len()
            invariant
                i <= self.tasks@.len(),
                vs == views_of(self.tasks@),
                out@ == storage_text(vs.take(i as int)),
            decreases self.tasks@.len() - i,
        {
            let ghost out_before = out@;
            let line = self.tasks[i].render();
            out.append(line.as_str());
            out.append("\n");
            proof {
                reveal_strlit("\n");
                assert("\n"@ =~= seq!['\n']);
                lemma_storage_text_push(vs.take(i as int), vs[i as int]);
                assert(vs.take(i + 1) =~= vs.take(i as int).push(vs[i as int]));
                assert(out@ =~= storage_text(vs.take(i + 1)));
            }
            i += 1;
        }
        proof {
            assert(vs.take(self.tasks@.len() as int) =~= vs);
        }
        out
    }

    /// The user-facing form: display order with 1-based indices, a blank
    /// line between the unfinished and the finished block.
    pub fn render_display(&self) -> (r: String)
        ensures
            r@ == display_text(self@),
    {
        proof {
            lemma_display_partition(self@);
        }
        let unfinished = self.unfinished_tasks();
        let finished = self.finished_tasks();
        let ghost uvs = views_of(unfinished@);
        let ghost fvs = views_of(finished@);
        let mut out = String::new();
        let mut i: usize = 0;
        while i < unfinished.len()
            invariant
                i <= unfinished@.len(),
                uvs == views_of(unfinished@),
                out@ == numbered_text(uvs.take(i as int), 1),
            decreases unfinished@.len() - i,
        {
            let num = decimal_string(i + 1);
            out.append(num.as_str());
            out.append(" ");
            let line = unfinished[i].render();
            out.append(line.as_str());
            out.append("\n");
            proof {
                reveal_strlit(" ");
                reveal_strlit("\n");
                lemma_views_index(unfinished@);
                lemma_numbered_text_push(uvs.take(i as int), 1, uvs[i as int]);
                assert(uvs.take(i + 1) =~= uvs.take(i as int).push(uvs[i as int]));
                assert(out@ =~= numbered_text(uvs.take(i + 1), 1));
            }
            i += 1;
        }
        proof {
            lemma_views_index(unfinished@);
            assert(uvs.take(unfinished@.len() as int) =~= uvs);
        }
        out.append("\n");
        proof {
            reveal_strlit("\n");
        }
        let offset = unfinished.len();
        let total = self.tasks.len();
        proof {
            lemma_views_index(self.tasks@);
            lemma_views_index(finished@);
            assert(offset + finished@.len() == total);
        }
        let mut k: usize = 0;
        while k < finished.len()
            invariant
                k <= finished@.len(),
                uvs == views_of(unfinished@),
                fvs == views_of(finished@),
                offset == unfinished@.len(),
                offset + finished@.len() <= usize::MAX,
                out@ == numbered_text(uvs, 1) + seq!['\n'] + numbered_text(
                    fvs.take(k as int),
                    (offset + 1) as nat,
                ),
            decreases finished@.len() - k,
        {
            let num = decimal_string(offset + k + 1);
            out.append(num.as_str());
            out.append(" ");
            let line = finished[k].render();
            out.append(line.as_str());
            out.append("\n");
            proof {
                reveal_strlit(" ");
                reveal_strlit("\n");
                lemma_views_index(finished@);
                lemma_numbered_text_push(fvs.take(k as int), (offset + 1) as nat, fvs[k as int]);
                assert(fvs.take(k + 1) =~= fvs.take(k as int).push(fvs[k as int]));
                assert(out@ =~= numbered_text(uvs, 1) + seq!['\n'] + numbered_text(
                    fvs.take(k + 1),
                    (offset + 1) as nat,
                ));
            }
            k += 1;
        }
        proof {
            lemma_views_index(finished@);
            assert(fvs.take(finished@.len() as int) =~= fvs);
            assert(out@ =~= display_text(self@));
        }
        out
    }

    /// Marks the task at display position `task_index` finished and returns
    /// a copy of the updated task. The task affected is the earliest one in
    /// storage structurally equal to the displayed one, so duplicates are
    /// resolved in favour of the first. Any index outside `1..=length` is
    /// rejected; marking an already finished task succeeds and changes
    /// nothing.
    pub fn check(&mut self, task_index: usize) -> (r: Result<Task, Error>)
        ensures
            r is Err <==> !(1 <= task_index <= old(self)@.len()),
            r is Err ==> r == Err::<Task, Error>(Error::IndexOutOfBounds) && final(self)@ == old(
                self,
            )@,
            1 <= task_index <= old(self)@.len() ==> ({
                &&& final(self)@ == checked_list(old(self)@, task_index as int)
                &&& r matches Ok(t) && t@ == finish(display_of(old(self)@)[task_index - 1])
            }),
    {
        let ghost ts = self@;
        proof {
            lemma_views_index(self.tasks@);
        }
        if task_index == 0 || task_index > self.tasks.len() {
            return Err(Error::IndexOutOfBounds);
        }
        proof {
            lemma_display_partition(ts);
        }
        let mut display = self.unfinished_tasks();
        let mut fin = self.finished_tasks();
        display.append(&mut fin);
        proof {
            assert(views_of(display@) =~= display_of(ts));
            lemma_views_index(display@);
        }
        let target = display[task_index - 1].clone();
        proof {
            assert(target@ == display_of(ts)[task_index - 1]);
            lemma_display_contains(ts, task_index - 1);
        }
        let mut j: usize = 0;
        while j < self.tasks.len()
            invariant
                ts == old(self)@,
                ts == views_of(self.tasks@),
                1 <= task_index <= ts.len(),
                j <= ts.len(),
                display_of(ts).len() == ts.len(),
                target@ == display_of(ts)[task_index - 1],
                ts.contains(target@),
                forall|k: int| 0 <= k < j ==> ts[k] != target@,
            decreases ts.len() - j,
        {
            proof {
                lemma_views_index(self.tasks@);
            }
            if self.tasks[j] == target {
                proof {
                    assert(ts[j as int] == target@);
                }
                let ghost tasks_before = self.tasks@;
                let removed_task = self.tasks.remove(j);
                let new_task = Task { text: removed_task.text, status: Status::Finished };
                let result = new_task.clone();
                self.tasks.insert(j, new_task);
                proof {
                    lemma_first_match(ts, target@);
                    assert(first_match(ts, target@) == j);
                    assert(self.tasks@ =~= tasks_before.update(j as int, new_task));
                    assert(views_of(self.tasks@) =~= ts.update(j as int, finish(target@)));
                }
                return Ok(result);
            }
            j += 1;
        }
        proof {
            let w = choose|w: int| 0 <= w < ts.len() && ts[w] == target@;
            assert(false);
        }
        Err(Error::IndexOutOfBounds)
    }

    /// Deletes the task at display position `task_index` from storage — the
    /// earliest structurally equal task is the one deleted, all others keep
    /// their relative order — and returns the removed task. Any index
    /// outside `1..=length` is rejected.
    pub fn remove(&mut self, task_index: usize) -> (r: Result<Task, Error>)
        ensures
            r is Err <==> !(1 <= task_index <= old(self)@.len()),
            r is Err ==> r == Err::<Task, Error>(Error::IndexOutOfBounds) && final(self)@ == old(
                self,
            )@,
            1 <= task_index <= old(self)@.len() ==> ({
                &&& final(self)@ == removed_list(old(self)@, task_index as int)
                &&& r matches Ok(t) && t@ == display_of(old(self)@)[task_index - 1]
            }),
    {
        let ghost ts = self@;
        proof {
            lemma_views_index(self.tasks@);
        }
        if task_index == 0 || task_index > self.tasks.len() {
            return Err(Error::IndexOutOfBounds);
        }
        proof {
            lemma_display_partition(ts);
        }
        let mut display = self.unfinished_tasks();
        let mut fin = self.finished_tasks();
        display.append(&mut fin);
        proof {
            assert(views_of(display@) =~= display_of(ts));
            lemma_views_index(display@);
        }
        let target = display[task_index - 1].clone();
        proof {
            assert(target@ == display_of(ts)[task_index - 1]);
            lemma_display_contains(ts, task_index - 1);
        }
        let mut j: usize = 0;
        while j < self.tasks.len()
            invariant
                ts == old(self)@,
                ts == views_of(self.tasks@),
                1 <= task_index <= ts.len(),
                j <= ts.len(),
                display_of(ts).len() == ts.len(),
                target@ == display_of(ts)[task_index - 1],
                ts.contains(target@),
                forall|k: int| 0 <= k < j ==> ts[k] != target@,
            decreases ts.len() - j,
        {
            proof {
                lemma_views_index(self.tasks@);
            }
            if self.tasks[j] == target {
                proof {
                    assert(ts[j as int] == target@);
                }
                let removed_task = self.tasks.remove(j);
                proof {
                    lemma_first_match(ts, target@);
                    assert(first_match(ts, target@) == j);
                    assert(views_of(self.tasks@) =~= ts.remove(j as int));
                }
                return Ok(removed_task);
            }
            j += 1;
        }
        proof {
            let w = choose|w: int| 0 <= w < ts.len() && ts[w] == target@;
            assert(false);
        }
        Err(Error::IndexOutOfBounds)
    }

    /// Parses whole store text into a list; mirrors `parse_lines` exactly.
    pub fn parse(content: &str) -> (r: Result<TaskList, ParseError>)
        ensures
            match r {
                Ok(l) => parse_lines(content@) == Some(l@),
                Err(_) => parse_lines(content@) is None,
            },
    {
        let mut tasks: Vec<Task> = Vec::new();
        let mut rest: &str = content;
        let ghost mut done: Seq<Seq<char>> = Seq::empty();
        proof {
            assert(split_lines(content@) =~= done + split_lines(rest@));
        }
        while !rest.is_empty()
            invariant
                split_lines(content@) == done + split_lines(rest@),
                done.len() == tasks@.len(),
                forall|k: int|
                    0 <= k < done.len() ==> parse_line(#[trigger] done[k]) == Some(
                        views_of(tasks@)[k],
                    ),
            decreases rest@.len(),
        {
            let ghost s = rest@;
            let n = rest.unicode_len();
            let mut j: usize = 0;
            while j < n && rest.get_char(j) != '\n'
                invariant
                    j <= n,
                    n == rest@.len(),
                    s == rest@,
                    forall|k: int| 0 <= k < j ==> s[k] != '\n',
                decreases n - j,
            {
                j += 1;
            }
            proof {
                lemma_line_break(s);
                if j < n {
                    assert(s[j as int] == '\n');
                    if line_break(s) < j {
                        assert(s[line_break(s)] != '\n');
                    }
                    assert(line_break(s) == j);
                } else {
                    if line_break(s) < s.len() {
                        assert(s[line_break(s)] != '\n');
                    }
                    assert(line_break(s) == n);
                }
            }
            let line = rest.substring_char(0, j);
            proof {
                assert(line@ =~= s.take(j as int));
                if j == n {
                    assert(line@ =~= s);
                    assert(split_lines(s) == seq![s]);
                } else {
                    assert(split_lines(s) == seq![s.take(j as int)] + split_lines(
                        s.skip(j + 1),
                    ));
                }
                assert(split_lines(content@)[done.len() as int] == line@);
            }
            let task = match Task::parse(line) {
                Ok(task) => task,
                Err(_) => {
                    proof {
                        let lines = split_lines(content@);
                        assert(parse_line(lines[done.len() as int]) is None);
                    }
                    return Err(ParseError);
                },
            };
            let ghost tasks_before = tasks@;
            tasks.push(task);
            proof {
                done = done.push(line@);
                assert(views_of(tasks@) =~= views_of(tasks_before).push(task@));
            }
            if j < n {
                rest = rest.substring_char(j + 1, n);
                proof {
                    assert(rest@ =~= s.skip(j + 1));
                    assert(split_lines(content@) =~= done + split_lines(rest@));
                }
            } else {
                rest = "";
                proof {
                    reveal_strlit("");
                    assert(rest@.len() == 0);
                    assert(split_lines(rest@) =~= Seq::<Seq<char>>::empty());
                    assert(split_lines(content@) =~= done + split_lines(rest@));
                }
            }
        }
        let list = TaskList { tasks };
        proof {
            assert(split_lines(rest@) =~= Seq::<Seq<char>>::empty());
            assert(split_lines(content@) =~= done);
            let lines = split_lines(content@);
            assert(forall|k: int|
                0 <= k < lines.len() ==> (#[trigger] parse_line(lines[k])) is Some);
            assert(Seq::new(lines.len(), |k: int| parse_line(lines[k])->0) =~= list@);
        }
        Ok(list)
    }
}

} // verus!

use vstd::prelude::*;

use crate::errors::ParseError;

verus! {

/// Whether a task is still open or has been marked done.
#[derive(Debug, Clone, Copy, PartialEq, Eq, Structural)]
pub enum Status {
    Unfinished,
    Finished,
}

/// The mathematical content of a task: its description and whether it is done.
pub ghost struct TaskView {
    pub text: Seq<char>,
    pub finished: bool,
}

/// The three-character marker that opens a task's line: `[x]` when the task
/// is finished, `[ ]` when it is not.
pub open spec fn marker_chars(finished: bool) -> Seq<char> {
    if finished {
        seq!['[', 'x', ']']
    } else {
        seq!['[', ' ', ']']
    }
}

/// The one-line textual form of a task: `<marker> <text>`, no newline.
pub open spec fn line_of(t: TaskView) -> Seq<char> {
    marker_chars(t.finished) + seq![' '] + t.text
}

/// What parsing one line yields: the line must open with `[ ]` or `[x]`,
/// character 3 must be a space, and the rest is the text verbatim.
/// Any other shape (including a line shorter than 4 characters) is rejected.
pub open spec fn parse_line(line: Seq<char>) -> Option<TaskView> {
    if line.len() >= 4 && line[0] == '[' && line[2] == ']' && line[3] == ' ' && (line[1] == ' '
        || line[1] == 'x') {
        Some(TaskView { text: line.skip(4), finished: line[1] == 'x' })
    } else {
        None
    }
}

impl Status {
    pub open spec fn is_finished_spec(self) -> bool {
        self is Finished
    }

    /// The marker this status renders as.
    pub fn render(&self) -> (r: &'static str)
        ensures
            r@ == marker_chars(self.is_finished_spec()),
    {
        match self {
            Status::Unfinished => {
                let s = "[ ]";
                proof {
                    reveal_strlit("[ ]");
                    assert(s@ =~= marker_chars(false));
                }
                s
            },
            Status::Finished => {
                let s = "[x]";
                proof {
                    reveal_strlit("[x]");
                    assert(s@ =~= marker_chars(true));
                }
                s
            },
        }
    }
}

/// One entry of a todo list: a free-form description (it should hold no
/// newline, or the stored form will not read back) and a status.
#[derive(Debug)]
pub struct Task {
    pub text: String,
    pub status: Status,
}

impl Clone for Task {
    /// A copy with the same text and status.
    fn clone(&self) -> (r: Self)
        ensures
            r@ == self@,
    {
        Task { text: self.text.clone(), status: self.status }
    }
}

impl View for Task {
    type V = TaskView;

    open spec fn view(&self) -> TaskView {
        TaskView { text: self.text@, finished: self.status.is_finished_spec() }
    }
}

impl PartialEq for Task {
    fn eq(&self, other: &Task) -> (r: bool) {
        self.text == other.text && self.status == other.status
    }
}

impl vstd::std_specs::cmp::PartialEqSpecImpl for Task {
    open spec fn obeys_eq_spec() -> bool {
        true
    }

    open spec fn eq_spec(&self, other: &Task) -> bool {
        self@ == other@
    }
}

impl Task {
    /// Whether the task has been marked done.
    pub fn is_finished(&self) -> (r: bool)
        ensures
            r == self@.finished,
    {
        match self.status {
            Status::Finished => true,
            Status::Unfinished => false,
        }
    }

    /// Marks the task finished (idempotently) and returns a copy of the
    /// updated task.
    pub fn check(&mut self) -> (r: Task)
        ensures
            final(self)@ == (TaskView { text: old(self)@.text, finished: true }),
            r@ == final(self)@,
    {
        self.status = Status::Finished;
        Task { text: self.text.clone(), status: Status::Finished }
    }

    /// The task's one-line textual form, `<marker> <text>`.
    pub fn render(&self) -> (r: String)
        ensures
            r@ == line_of(self@),
    {
        let mut out = String::from_str(self.status.render());
        out.append(" ");
        out.append(self.text.as_str());
        proof {
            reveal_strlit(" ");
            assert(" "@ =~= seq![' ']);
            assert(out@ =~= line_of(self@));
        }
        out
    }

    /// Parses one line of store text; mirrors `parse_line` exactly.
    pub fn parse(line: &str) -> (r: Result<Task, ParseError>)
        ensures
            match r {
                Ok(t) => parse_line(line@) == Some(t@),
                Err(_) => parse_line(line@) is None,
            },
    {
        let n = line.unicode_len();
        if n < 4 {
            return Err(ParseError);
        }
        let c0 = line.get_char(0);
        let c1 = line.get_char(1);
        let c2 = line.get_char(2);
        let c3 = line.get_char(3);
        if c0 == '[' && c2 == ']' && c3 == ' ' && (c1 == ' ' || c1 == 'x') {
            let text = line.substring_char(4, n);
            let task = Task {
                text: String::from_str(text),
                status: if c1 == 'x' {
                    Status::Finished
                } else {
                    Status::Unfinished
                },
            };
            proof {
                assert(task@.text =~= line@.skip(4));
            }
            Ok(task)
        } else {
            Err(ParseError)
        }
    }
}

} // verus!

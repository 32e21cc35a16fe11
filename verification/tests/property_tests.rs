use todo_rs::text::decimal_string;
use todo_rs::Error;
use todo_rs::Status;
use todo_rs::Task;
use todo_rs::TaskList;

#[test]
fn round_trip_preserves_storage_exactly() {
    let stored = "[ ] alpha\n[x] beta\n[ ] gamma\n[x] delta\n";
    let list = TaskList::parse(stored).unwrap();
    let rendered = list.to_string_unordered();
    assert_eq!(stored, rendered);
    let reparsed = TaskList::parse(&rendered).unwrap();
    assert_eq!(list, reparsed);
}

#[test]
fn round_trip_of_empty_list() {
    let list = TaskList::parse("").unwrap();
    assert_eq!(0, list.tasks.len());
    assert_eq!("", list.to_string_unordered());
    assert_eq!(list, TaskList::parse(&list.to_string_unordered()).unwrap());
}

#[test]
fn display_lists_unfinished_before_finished() {
    let list = TaskList::parse("[x] Already done\n[ ] Not done yet\n").unwrap();
    assert_eq!(
        "1 [ ] Not done yet\n\n2 [x] Already done\n",
        list.render_display()
    );
}

#[test]
fn check_changes_exactly_one_line() {
    let mut list = TaskList::parse("[ ] Task 1\n[x] Task 2\n").unwrap();
    let task = list.check(1).unwrap();
    assert_eq!(
        Task {
            text: "Task 1".to_string(),
            status: Status::Finished
        },
        task
    );
    assert_eq!("[x] Task 1\n[x] Task 2\n", list.to_string_unordered());
}

#[test]
fn remove_deletes_exactly_one_line() {
    let mut list = TaskList::parse("[x] A\n[x] B\n[ ] C\n").unwrap();
    let removed = list.remove(3).unwrap();
    assert_eq!(
        Task {
            text: "B".to_string(),
            status: Status::Finished
        },
        removed
    );
    assert_eq!("[x] A\n[ ] C\n", list.to_string_unordered());
}

#[test]
fn check_rejects_zero_and_length_plus_one() {
    let mut list = TaskList::parse("[ ] a\n[x] b\n[ ] c\n").unwrap();
    assert_eq!(Err(Error::IndexOutOfBounds), list.check(0));
    assert_eq!(Err(Error::IndexOutOfBounds), list.check(4));
    assert!(list.check(3).is_ok());
}

#[test]
fn check_on_empty_list_is_out_of_bounds() {
    let mut list = TaskList::new();
    assert_eq!(Err(Error::IndexOutOfBounds), list.check(1));
    assert_eq!(Err(Error::IndexOutOfBounds), list.check(7));
}

#[test]
fn remove_rejects_zero_and_length_plus_one() {
    let mut list = TaskList::parse("[ ] a\n[x] b\n").unwrap();
    assert_eq!(Err(Error::IndexOutOfBounds), list.remove(0));
    assert_eq!(Err(Error::IndexOutOfBounds), list.remove(3));
    assert_eq!(2, list.tasks.len());
}

#[test]
fn check_of_finished_task_succeeds_unchanged() {
    let mut list = TaskList::parse("[ ] open\n[x] done\n").unwrap();
    let task = list.check(2).unwrap();
    assert_eq!(
        Task {
            text: "done".to_string(),
            status: Status::Finished
        },
        task
    );
    assert_eq!("[ ] open\n[x] done\n", list.to_string_unordered());
}

#[test]
fn check_on_duplicates_marks_earliest_in_storage() {
    let mut list = TaskList::parse("[ ] Same\n[ ] Same\n").unwrap();
    let task = list.check(2).unwrap();
    assert_eq!(Status::Finished, task.status);
    assert_eq!("[x] Same\n[ ] Same\n", list.to_string_unordered());
}

#[test]
fn remove_on_duplicates_deletes_earliest_in_storage() {
    let mut list = TaskList::parse("[x] D\n[ ] keep\n[x] D\n").unwrap();
    let removed = list.remove(2).unwrap();
    assert_eq!(
        Task {
            text: "D".to_string(),
            status: Status::Finished
        },
        removed
    );
    assert_eq!("[ ] keep\n[x] D\n", list.to_string_unordered());
}

#[test]
fn parse_rejects_short_line() {
    assert!(Task::parse("[x]").is_err());
    assert!(Task::parse("").is_err());
    assert!(TaskList::parse("[ ] fine\n[x]").is_err());
}

#[test]
fn parse_rejects_bad_marker() {
    assert!(Task::parse("[y] nope").is_err());
    assert!(Task::parse("[X] nope").is_err());
    assert!(Task::parse(" [x] nope").is_err());
    assert!(TaskList::parse("( ) nope\n").is_err());
}

#[test]
fn parse_requires_space_after_marker() {
    assert!(Task::parse("[x]_text").is_err());
    assert!(Task::parse("[ ]text").is_err());
    let task = Task::parse("[ ]  two spaces").unwrap();
    assert_eq!(" two spaces", task.text);
}

#[test]
fn parse_keeps_interior_empty_lines_as_errors() {
    assert!(TaskList::parse("[ ] a\n\n[ ] b\n").is_err());
}

#[test]
fn display_of_empty_list_is_just_the_separator() {
    let list = TaskList::new();
    assert_eq!("\n", list.render_display());
}

#[test]
fn display_keeps_separator_when_one_block_is_empty() {
    let unfinished_only = TaskList::parse("[ ] a\n").unwrap();
    assert_eq!("1 [ ] a\n\n", unfinished_only.render_display());
    let finished_only = TaskList::parse("[x] a\n").unwrap();
    assert_eq!("\n1 [x] a\n", finished_only.render_display());
}

#[test]
fn display_indices_reach_two_digits() {
    let mut stored = String::new();
    for k in 0..11 {
        stored.push_str("[ ] item");
        stored.push_str(&decimal_string(k));
        stored.push('\n');
    }
    let list = TaskList::parse(&stored).unwrap();
    let display = list.render_display();
    assert!(display.contains("10 [ ] item9\n"));
    assert!(display.contains("11 [ ] item10\n"));
}

#[test]
fn decimal_string_renders_exact_numerals() {
    assert_eq!("0", decimal_string(0));
    assert_eq!("7", decimal_string(7));
    assert_eq!("10", decimal_string(10));
    assert_eq!("905", decimal_string(905));
    assert_eq!("12034", decimal_string(12034));
}

#[test]
fn add_appends_at_end_of_storage_order() {
    let mut list = TaskList::parse("[x] old\n").unwrap();
    list.add(Task {
        text: "new".to_string(),
        status: Status::Unfinished,
    });
    assert_eq!("[x] old\n[ ] new\n", list.to_string_unordered());
}

#[test]
fn task_check_marks_and_returns_copy() {
    let mut task = Task {
        text: "water plants".to_string(),
        status: Status::Unfinished,
    };
    let copy = task.check();
    assert_eq!(Status::Finished, task.status);
    assert_eq!(task, copy);
    let again = task.check();
    assert_eq!(task, again);
}

#[test]
fn status_renders_markers() {
    assert_eq!("[ ]", Status::Unfinished.render());
    assert_eq!("[x]", Status::Finished.render());
}

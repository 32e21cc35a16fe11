use todo_rs::Error;
use todo_rs::Status;
use todo_rs::Task;
use todo_rs::TaskList;

#[test]
fn test_parse_unfinished_task() {
    let task = Task::parse("[ ] Make things work").expect("parsing failed");

    assert_eq!(
        Task {
            text: "Make things work".to_string(),
            status: Status::Unfinished
        },
        task
    );
}

#[test]
fn test_parse_finished_task() {
    let task = Task::parse("[x] Nothing special").expect("parsing failed");

    assert_eq!(
        Task {
            text: "Nothing special".to_string(),
            status: Status::Finished
        },
        task
    );
}

#[test]
fn test_finished_task_to_string() {
    let task = Task {
        text: "Get coffee".to_string(),
        status: Status::Finished,
    };

    assert_eq!("[x] Get coffee", task.render());
}

#[test]
fn test_unfinished_task_to_string() {
    let task = Task {
        text: "Get coffee".to_string(),
        status: Status::Unfinished,
    };

    assert_eq!("[ ] Get coffee", task.render());
}

#[test]
fn test_parse_and_display_a_list_of_tasks() {
    let mut tasks = TaskList::new();
    let task1 = Task {
        text: "Water the plants".to_string(),
        status: Status::Finished,
    };
    let task2 = Task {
        text: "Clean the kitchen".to_string(),
        status: Status::Unfinished,
    };
    let task3 = Task {
        text: "Read the newspaper".to_string(),
        status: Status::Unfinished,
    };
    tasks.add(task1);
    tasks.add(task2);
    tasks.add(task3);

    assert_eq!(
        r"1 [ ] Clean the kitchen
2 [ ] Read the newspaper

3 [x] Water the plants
",
        tasks.render_display()
    );
}

#[test]
fn test_task_list_finished() {
    let mut tasks = TaskList::new();
    let task1 = Task {
        text: "Water the plants".to_string(),
        status: Status::Finished,
    };
    let task2 = Task {
        text: "Clean the kitchen".to_string(),
        status: Status::Unfinished,
    };
    tasks.add(task1.clone());
    tasks.add(task2.clone());

    assert_eq!(tasks.finished_tasks(), vec![task1]);
}

#[test]
fn test_is_finished() {
    let task1 = Task {
        text: "Water the plants".to_string(),
        status: Status::Finished,
    };
    let task2 = Task {
        text: "Clean the kitchen".to_string(),
        status: Status::Unfinished,
    };

    assert!(task1.is_finished());
    assert!(!task2.is_finished());
}

#[test]
fn test_task_list_unfinished() {
    let mut tasks = TaskList::new();
    let task1 = Task {
        text: "Water the plants".to_string(),
        status: Status::Finished,
    };
    let task2 = Task {
        text: "Clean the kitchen".to_string(),
        status: Status::Unfinished,
    };
    tasks.add(task1.clone());
    tasks.add(task2.clone());

    assert_eq!(tasks.unfinished_tasks(), vec![task2]);
}

#[test]
fn test_parse_task_list() {
    let tasks = TaskList::parse("[ ] Task 1\n[x] Task 2").unwrap();
    let task1 = Task::parse("[ ] Task 1").unwrap();
    let task2 = Task::parse("[x] Task 2").unwrap();
    let mut expected_tasks = TaskList::new();
    expected_tasks.add(task1);
    expected_tasks.add(task2);

    assert_eq!(expected_tasks, tasks);
}

#[test]
fn test_to_string_unordered() {
    let tasks = TaskList::parse("[ ] Task 1\n[x] Task 2").unwrap();
    assert_eq!(tasks.to_string_unordered(), "[ ] Task 1\n[x] Task 2\n");
}

#[test]
fn test_check_marks_task_and_returns_task() {
    let mut tasks = TaskList::parse("[ ] Task 1\n[x] Task 2").unwrap();

    let task = tasks.check(1).unwrap();
    assert_eq!("[x] Task 1\n[x] Task 2\n", tasks.to_string_unordered());
    assert_eq!(
        Task {
            text: "Task 1".to_string(),
            status: Status::Finished
        },
        task
    );
}

#[test]
fn test_check_indexes_correctly() {
    let mut tasks = TaskList::parse("[x] Task 2\n[ ] Task 1").unwrap();

    let checked_task = tasks.check(1).unwrap();
    assert_eq!("[x] Task 2\n[x] Task 1\n", tasks.to_string_unordered());
    assert_eq!(
        Task {
            text: "Task 1".to_string(),
            status: Status::Finished
        },
        checked_task
    );
}

#[test]
fn test_check_returns_out_of_bounds_error() {
    let mut tasks = TaskList::parse("[ ] Task 1\n[x] Task 2").unwrap();
    let result = tasks.check(5);
    assert_eq!(Err(Error::IndexOutOfBounds), result);
}

#[test]
fn test_task_list_remove_item() {
    let mut tasks = TaskList::parse(
        r"[x] Read a book from a series of books
[x] Buy all of the books from the series
[ ] Read all the books from the book series",
    )
    .unwrap();
    let task2 = tasks.remove(3).unwrap();
    assert_eq!(
        Task {
            text: "Buy all of the books from the series".to_string(),
            status: Status::Finished
        },
        task2
    );
    assert_eq!(
        vec![
            Task {
                text: "Read a book from a series of books".to_string(),
                status: Status::Finished
            },
            Task {
                text: "Read all the books from the book series".to_string(),
                status: Status::Unfinished
            }
        ],
        tasks.tasks
    );

    let task3 = tasks.remove(1).unwrap();
    assert_eq!(
        Task {
            text: "Read all the books from the book series".to_string(),
            status: Status::Unfinished
        },
        task3
    );
    assert_eq!(
        vec![Task {
            text: "Read a book from a series of books".to_string(),
            status: Status::Finished
        }],
        tasks.tasks
    );

    assert_eq!(Err(Error::IndexOutOfBounds), tasks.remove(5));
}

#[test]
fn test_remove_takes_index_as_displayed_not_as_in_file() {
    let mut tasks = TaskList::parse("[x] Task2\n[ ] Task1").unwrap();

    let task1 = tasks.remove(1).unwrap();

    assert_eq!(task1, Task::parse("[ ] Task1").unwrap());
    assert_eq!(TaskList::parse("[x] Task2").unwrap(), tasks);
}

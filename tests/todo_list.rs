use algorithms_and_data_structures::todo_list::{parse_todos, ParseError, TodoList};

#[test]
fn parse_todos_takes_one_task_per_line() {
    let list = parse_todos("buy milk\nwrite code\r\nsleep").unwrap();
    assert_eq!(list.tasks().to_vec(), vec!["buy milk", "write code", "sleep"]);
}

#[test]
fn parse_todos_rejects_empty_text() {
    assert_eq!(parse_todos("").err(), Some(ParseError::Empty));
}

#[test]
fn a_single_newline_is_one_empty_task() {
    let list = parse_todos("\n").unwrap();
    assert_eq!(list.tasks().to_vec(), vec![""]);
}

#[test]
fn from_lines_needs_a_task() {
    assert_eq!(TodoList::from_lines(vec![]).err(), Some(ParseError::Empty));
    assert_eq!(TodoList::from_lines(vec!["a".to_string()]).unwrap().tasks().len(), 1);
}

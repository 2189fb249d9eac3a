//! A list of tasks read from text, one task per line.
use crate::text::{lines_of, split_lines};
use vstd::prelude::*;

verus! {

/// Why a text is not a todo list.
#[derive(Debug, Clone, Copy, PartialEq, Eq)]
pub enum ParseError {
    /// The text has no lines.
    Empty,
}

/// The tasks of a todo list, in order.
#[derive(Debug)]
pub struct TodoList {
    tasks: Vec<String>,
}

impl TodoList {
    /// The tasks.
    pub closed spec fn tasks_spec(&self) -> Seq<Seq<char>> {
        self.tasks@.map_values(|t: String| t@)
    }

    /// The list whose tasks are `lines`; a list needs at least one task.
    pub fn from_lines(lines: Vec<String>) -> (r: Result<TodoList, ParseError>)
        ensures
            lines@.len() == 0 <==> r == Err::<TodoList, ParseError>(ParseError::Empty),
            r matches Ok(t) ==> t.tasks_spec() == lines@.map_values(|t: String| t@),
    {
        if lines.len() == 0 {
            Err(ParseError::Empty)
        } else {
            Ok(TodoList { tasks: lines })
        }
    }

    /// The tasks.
    pub fn tasks(&self) -> (r: &[String])
        ensures
            r@.map_values(|t: String| t@) == self.tasks_spec(),
    {
        self.tasks.as_slice()
    }
}

/// The todo list whose tasks are the lines of `todo_str`; an error when it
/// has no lines.
pub fn parse_todos(todo_str: &str) -> (r: Result<TodoList, ParseError>)
    ensures
        lines_of(todo_str@).len() == 0 <==> r == Err::<TodoList, ParseError>(ParseError::Empty),
        r matches Ok(t) ==> t.tasks_spec() == lines_of(todo_str@),
{
    let lines = split_lines(todo_str);
    TodoList::from_lines(lines)
}

} // verus!

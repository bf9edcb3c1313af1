//! The task as it is shown: what the store says of it, and where it
//! stands in the tree.

use vstd::prelude::*;

verus! {

/// The lifecycle of a task.
#[derive(Debug, Clone, Copy, PartialEq, Eq, Structural)]
pub enum TaskState {
    Wip,
    Todo,
    Done,
}

/// One task of the list, with its place in the tree.
#[derive(Debug, Clone)]
pub struct TaskLine {
    /// Slash-separated path below the store's root.
    pub path: String,
    /// The name that is shown.
    pub name: String,
    /// The identifier that is copied to the clipboard.
    pub yak_id: String,
    /// The number of ancestors.
    pub depth: usize,
    /// The lifecycle state.
    pub state: TaskState,
    /// Who works on the task, if anyone.
    pub assigned_to: Option<String>,
    /// Free text; a prefix `blocked:`, `done:` or `wip:` decides the colour.
    pub agent_status: Option<String>,
    /// Another task of the list lies below this one.
    pub has_children: bool,
    /// No later task of the list has the same parent.
    pub is_last_sibling: bool,
    /// For each ancestor found in the list, nearest first: whether a later
    /// task has the same parent as that ancestor.
    pub ancestor_continuations: Vec<bool>,
}

/// The mathematical content of a `TaskLine`.
pub struct TaskLineView {
    pub path: Seq<char>,
    pub name: Seq<char>,
    pub yak_id: Seq<char>,
    pub depth: nat,
    pub state: TaskState,
    pub assigned_to: Option<Seq<char>>,
    pub agent_status: Option<Seq<char>>,
    pub has_children: bool,
    pub is_last_sibling: bool,
    pub ancestor_continuations: Seq<bool>,
}

/// The text of an optional string.
pub open spec fn text_of(s: Option<String>) -> Option<Seq<char>> {
    match s {
        Some(t) => Some(t@),
        None => None,
    }
}

impl View for TaskLine {
    type V = TaskLineView;

    open spec fn view(&self) -> TaskLineView {
        TaskLineView {
            path: self.path@,
            name: self.name@,
            yak_id: self.yak_id@,
            depth: self.depth as nat,
            state: self.state,
            assigned_to: text_of(self.assigned_to),
            agent_status: text_of(self.agent_status),
            has_children: self.has_children,
            is_last_sibling: self.is_last_sibling,
            ancestor_continuations: self.ancestor_continuations@,
        }
    }
}

/// The views of a list of tasks.
pub open spec fn task_views(tasks: Seq<TaskLine>) -> Seq<TaskLineView> {
    Seq::new(tasks.len(), |i: int| tasks[i]@)
}

/// A root task without name, state `Todo`, and no place in a tree yet.
pub open spec fn blank_task() -> TaskLineView {
    TaskLineView {
        path: Seq::empty(),
        name: Seq::empty(),
        yak_id: Seq::empty(),
        depth: 0,
        state: TaskState::Todo,
        assigned_to: None,
        agent_status: None,
        has_children: false,
        is_last_sibling: false,
        ancestor_continuations: Seq::empty(),
    }
}

impl Default for TaskLine {
    /// A task with nothing filled in.
    fn default() -> (r: Self)
        ensures
            r@ == blank_task(),
    {
        Self {
            path: String::new(),
            name: String::new(),
            yak_id: String::new(),
            depth: 0,
            state: TaskState::Todo,
            assigned_to: None,
            agent_status: None,
            has_children: false,
            is_last_sibling: false,
            ancestor_continuations: Vec::new(),
        }
    }
}

} // verus!

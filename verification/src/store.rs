use vstd::prelude::*;
use crate::model::blank_view;
use crate::model::TaskView;
use crate::tasks::box_views;
use crate::tasks::BoxTaskVec;
use crate::tasks::Task;

verus! {

/// Connection settings for the relational storage adapter.
///
/// The adapter itself — reconstructing the hierarchy from parent/child rows
/// and writing it back — performs I/O and lives with the surrounding
/// program; the engine only carries the connection string for it.
#[derive(Debug, Clone)]
pub struct SQLiteStore {
    conn: String,
}

impl SQLiteStore {
    /// The connection string this store was built with.
    pub closed spec fn spec_conn(self) -> Seq<char> {
        self.conn@
    }

    /// A store bound to the given connection string.
    pub fn new(conn: String) -> (s: SQLiteStore)
        ensures
            s.spec_conn() == conn@,
    {
        SQLiteStore { conn }
    }

    /// The connection string this store was built with.
    pub fn conn(&self) -> (c: &String)
        ensures
            c@ == self.spec_conn(),
    {
        &self.conn
    }
}

/// A storage collaborator that serves a small fixed tree and accepts every
/// write; stands in for real storage when exercising the registry.
#[derive(Debug, Clone, Copy, PartialEq, Eq, Structural)]
pub struct MockDataStore;

impl MockDataStore {
    /// A fresh mock store.
    pub fn new() -> (s: MockDataStore) {
        MockDataStore
    }

    /// The fixed tree this store serves: three top-level tasks, the first
    /// owning one subtask and the third owning two.
    pub fn sample_tasks() -> (r: BoxTaskVec)
        ensures
            box_views(r@) == seq![
                TaskView { subtasks: seq![blank_view(3)], ..blank_view(0) },
                blank_view(1),
                TaskView { subtasks: seq![blank_view(4), blank_view(5)], ..blank_view(2) },
            ],
    {
        // Three top-level tasks; task 0 owns subtask 3, task 2 owns
        // subtasks 4 and 5, and task 1 stays a leaf.
        let mut task_a = Box::new(Task::new_with_id(0));
        let task_b = Box::new(Task::new_with_id(1));
        let mut task_c = Box::new(Task::new_with_id(2));
        let subtask_a = Box::new(Task::new_with_id(3));
        let subtask_b = Box::new(Task::new_with_id(4));
        let subtask_c = Box::new(Task::new_with_id(5));
        task_a.add_subtask(subtask_a);

        task_c.add_subtask(subtask_b);
        task_c.add_subtask(subtask_c);

        let r: BoxTaskVec = vec![task_a, task_b, task_c];
        proof {
            assert(task_a@.subtasks =~= seq![blank_view(3)]);
            assert(task_a@ =~= (TaskView { subtasks: seq![blank_view(3)], ..blank_view(0) }));
            assert(task_c@.subtasks =~= seq![blank_view(4), blank_view(5)]);
            assert(task_c@ =~= (TaskView {
                subtasks: seq![blank_view(4), blank_view(5)],
                ..blank_view(2)
            }));
            assert(box_views(r@) =~= seq![
                TaskView { subtasks: seq![blank_view(3)], ..blank_view(0) },
                blank_view(1),
                TaskView { subtasks: seq![blank_view(4), blank_view(5)], ..blank_view(2) },
            ]);
        }
        r
    }
}

/// A storage collaborator that holds nothing and accepts every write.
#[derive(Debug, Clone, Copy, PartialEq, Eq, Structural)]
pub struct DummyStore;

impl DummyStore {
    /// A fresh dummy store.
    pub fn new() -> (s: DummyStore) {
        DummyStore
    }
}

} // verus!

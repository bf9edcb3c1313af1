//! The task store, as a snapshot.
//!
//! A `TaskRepository` holds what one scan of the store found: the task
//! directories by their paths below the root, and the field files in
//! them with their raw content. Whoever scans the store fills it in;
//! the questions that the dashboard asks are answered from it.

use crate::listing::{
    is_listing, lemma_listing_of_visible, lemma_listing_unique, lemma_sorted_is_distinct,
    sorted_visible,
};
use crate::path::{
    count_ancestors, depth_of, has_parent, is_hidden, joined, join_path, last_slash, leaf_name,
    leaf_of, lemma_hidden_parent, lemma_last_slash, parent_path, take_chars,
};
use crate::task::{text_of, TaskLine, TaskLineView, TaskState};
use crate::text::{from_chars, same_chars, to_chars, trim, trimmed};
use crate::tree::{
    distinct, find_path, lemma_index_of_path, lemma_roots_cover_list, lemma_texts_push,
    parent_closed, root_count, root_descendants, texts,
};
use vstd::prelude::*;

verus! {

/// The names of the field files that a task directory may hold.
pub const FIELD_NAMES: [&'static str; 5] = ["state", "name", "id", "assigned-to", "agent-status"];

/// One field file of a task directory.
struct FieldFile {
    path: Vec<char>,
    name: Vec<char>,
    content: Vec<char>,
}

/// A snapshot of the task store.
pub struct TaskRepository {
    yaks_dir: String,
    present: bool,
    dirs: Vec<Vec<char>>,
    files: Vec<FieldFile>,
}

/// The content of the file `name` in the directory `path`, as last written.
spec fn file_among(files: Seq<FieldFile>, path: Seq<char>, name: Seq<char>) -> Option<Seq<char>>
    decreases files.len(),
{
    if files.len() == 0 {
        None
    } else if files.last().path@ == path && files.last().name@ == name {
        Some(files.last().content@)
    } else {
        file_among(files.drop_last(), path, name)
    }
}

/// The path `p` names the directory `q`: `q` is `p` itself, or `p` cut
/// before one of its `/`.
pub open spec fn names_directory(p: Seq<char>, q: Seq<char>) -> bool {
    q == p || exists|k: int| 0 <= k < p.len() && p[k] == '/' && q == #[trigger] p.take(k)
}

/// The value of a field whose file holds `raw`: the content without the
/// whitespace around it, and nothing where that is empty or no file is there.
pub open spec fn field_value(raw: Option<Seq<char>>) -> Option<Seq<char>> {
    match raw {
        Some(content) => if trim(content).len() > 0 {
            Some(trim(content))
        } else {
            None
        },
        None => None,
    }
}

/// The lifecycle state that the field `state` stands for.
pub open spec fn state_of(value: Option<Seq<char>>) -> TaskState {
    if value == Some("wip"@) {
        TaskState::Wip
    } else if value == Some("done"@) {
        TaskState::Done
    } else {
        TaskState::Todo
    }
}

/// The paths of a listing of tasks.
pub open spec fn listed_paths(tasks: Seq<(String, usize)>) -> Seq<Seq<char>> {
    Seq::new(tasks.len(), |i: int| tasks[i].0@)
}

/// Whether two strings hold the same text.
pub fn same_text(a: &str, b: &str) -> (r: bool)
    ensures
        r == (a@ == b@),
{
    let x = to_chars(a);
    let y = to_chars(b);
    same_chars(&x, &y)
}

impl Default for TaskRepository {
    /// The snapshot of a store that was never scanned: its root has no
    /// name and is missing.
    fn default() -> (r: Self)
        ensures
            r.root() == Seq::<char>::empty(),
            !r.root_exists(),
            forall|p: Seq<char>| !r.directories().contains(p),
            forall|p: Seq<char>, n: Seq<char>| r.file(p, n) is None,
            r.wf(),
    {
        TaskRepository::missing(String::new())
    }
}

/// Looking a file up among the first `n` files finds the last one that matches.
proof fn lemma_file_among_take(files: Seq<FieldFile>, path: Seq<char>, name: Seq<char>, n: int)
    requires
        0 <= n <= files.len(),
        forall|k: int| n <= k < files.len() ==> !(files[k].path@ == path && files[k].name@ == name),
    ensures
        file_among(files, path, name) == file_among(files.take(n), path, name),
    decreases files.len() - n,
{
    if n < files.len() {
        assert(files.drop_last().take(n) =~= files.take(n));
        assert forall|k: int| n <= k < files.drop_last().len() implies !(files.drop_last()[k].path@
            == path && files.drop_last()[k].name@ == name) by {
            assert(files.drop_last()[k] == files[k]);
        }
        lemma_file_among_take(files.drop_last(), path, name, n);
    } else {
        assert(files.take(n) =~= files);
    }
}

impl TaskRepository {
    /// The path of the store's root directory.
    pub closed spec fn root(&self) -> Seq<char> {
        self.yaks_dir@
    }

    /// Whether the root directory was there when the store was scanned.
    pub closed spec fn root_exists(&self) -> bool {
        self.present
    }

    /// The paths of the directories below the root.
    pub closed spec fn directories(&self) -> Set<Seq<char>> {
        Set::new(|p: Seq<char>| texts(self.dirs@).contains(p))
    }

    /// The raw content of the file `name` in the directory `path`, if
    /// there is such a file.
    pub closed spec fn file(&self, path: Seq<char>, name: Seq<char>) -> Option<Seq<char>> {
        file_among(self.files@, path, name)
    }

    /// What holds of every snapshot: with a directory it holds the
    /// directories above it, and where the root is missing there are none.
    pub open spec fn wf(&self) -> bool {
        &&& forall|p: Seq<char>|
            #[trigger] self.directories().contains(p) && has_parent(p)
                ==> self.directories().contains(parent_path(p))
        &&& !self.root_exists() ==> forall|p: Seq<char>| !self.directories().contains(p)
    }

    /// The directories that are listed as tasks: all but the hidden ones.
    pub open spec fn visible(&self) -> Set<Seq<char>> {
        Set::new(
            |p: Seq<char>| self.root_exists() && self.directories().contains(p) && !is_hidden(p),
        )
    }

    /// The paths of the tasks, in the order in which they are listed.
    pub open spec fn listing(&self) -> Seq<Seq<char>> {
        choose|l: Seq<Seq<char>>| is_listing(self.visible(), l)
    }

    /// The value of the field `name` of the task at `path`.
    pub open spec fn field(&self, path: Seq<char>, name: Seq<char>) -> Option<Seq<char>> {
        field_value(self.file(path, name))
    }

    /// The task at `path` as the store describes it, not yet placed in a tree.
    pub open spec fn task_at(&self, path: Seq<char>, depth: nat) -> TaskLineView {
        TaskLineView {
            path,
            name: match self.field(path, "name"@) {
                Some(name) => name,
                None => leaf_name(path),
            },
            yak_id: match self.field(path, "id"@) {
                Some(id) => id,
                None => leaf_name(path),
            },
            depth,
            state: state_of(self.field(path, "state"@)),
            assigned_to: self.field(path, "assigned-to"@),
            agent_status: self.field(path, "agent-status"@),
            has_children: false,
            is_last_sibling: false,
            ancestor_continuations: Seq::empty(),
        }
    }

    /// The path of the file `context.md` of the task at `task_path`.
    pub open spec fn context_of(&self, task_path: Seq<char>) -> Seq<char> {
        join_path(join_path(self.root(), task_path), "context.md"@)
    }

    /// The snapshot of a store whose root directory exists and is empty.
    pub fn new(yaks_dir: String) -> (r: Self)
        ensures
            r.root() == yaks_dir@,
            r.root_exists(),
            forall|p: Seq<char>| !r.directories().contains(p),
            forall|p: Seq<char>, n: Seq<char>| r.file(p, n) is None,
            r.wf(),
    {
        TaskRepository { yaks_dir, present: true, dirs: Vec::new(), files: Vec::new() }
    }

    /// The snapshot of a store whose root directory is missing.
    pub fn missing(yaks_dir: String) -> (r: Self)
        ensures
            r.root() == yaks_dir@,
            !r.root_exists(),
            forall|p: Seq<char>| !r.directories().contains(p),
            forall|p: Seq<char>, n: Seq<char>| r.file(p, n) is None,
            r.wf(),
    {
        TaskRepository { yaks_dir, present: false, dirs: Vec::new(), files: Vec::new() }
    }

    /// The path of the store's root directory.
    pub fn yaks_dir(&self) -> (r: &String)
        ensures
            r@ == self.root(),
    {
        &self.yaks_dir
    }

    /// Whether the root directory was there when the store was scanned.
    pub fn has_root(&self) -> (r: bool)
        ensures
            r == self.root_exists(),
    {
        self.present
    }

    /// Records `q` as a directory, unless it is recorded already.
    fn record(&mut self, q: Vec<char>)
        ensures
            final(self).yaks_dir == old(self).yaks_dir,
            final(self).present == old(self).present,
            final(self).files == old(self).files,
            forall|x: Seq<char>|
                texts(final(self).dirs@).contains(x) <==> texts(old(self).dirs@).contains(x) || x
                    == q@,
    {
        let ghost before = texts(self.dirs@);
        let found = find_path(&self.dirs, &q);
        proof {
            lemma_index_of_path(before, q@);
        }
        if found.is_none() {
            proof {
                lemma_texts_push(self.dirs@, q);
            }
            self.dirs.push(q);
            proof {
                let after = texts(self.dirs@);
                assert forall|x: Seq<char>| after.contains(x) <==> before.contains(x) || x
                    == q@ by {
                    if after.contains(x) {
                        let k = choose|k: int| 0 <= k < after.len() && after[k] == x;
                        if k < before.len() {
                            assert(before[k] == x);
                        }
                    }
                    if before.contains(x) {
                        let k = choose|k: int| 0 <= k < before.len() && before[k] == x;
                        assert(after[k] == x);
                    }
                    if x == q@ {
                        assert(after[before.len() as int] == x);
                    }
                }
            }
        } else {
            proof {
                assert(before[found.unwrap() as int] == q@);
            }
        }
    }

    /// Records the directory at `path` and, as creating it would have
    /// created them, the directories above it and the root.
    pub fn add_directory(&mut self, path: &str)
        ensures
            old(self).wf() ==> final(self).wf(),
            final(self).root() == old(self).root(),
            final(self).root_exists(),
            forall|q: Seq<char>|
                final(self).directories().contains(q) <==> old(self).directories().contains(q)
                    || names_directory(path@, q),
            forall|p: Seq<char>, n: Seq<char>| final(self).file(p, n) == old(self).file(p, n),
    {
        let p = to_chars(path);
        self.present = true;
        let mut i: usize = 0;
        while i < p.len()
            invariant
                i <= p.len(),
                p@ == path@,
                self.yaks_dir == old(self).yaks_dir,
                self.present,
                self.files == old(self).files,
                forall|q: Seq<char>|
                    texts(self.dirs@).contains(q) <==> texts(old(self).dirs@).contains(q) || (
                    exists|k: int| 0 <= k < i && p@[k] == '/' && q == #[trigger] p@.take(k)),
            decreases p.len() - i,
        {
            if p[i] == '/' {
                let above = take_chars(&p, i);
                self.record(above);
            }
            i += 1;
        }
        self.record(p);
        proof {
            assert forall|q: Seq<char>|
                old(self).wf() && #[trigger] self.directories().contains(q) && has_parent(
                    q,
                ) implies self.directories().contains(parent_path(q)) by {
                if old(self).directories().contains(q) {
                    assert(old(self).directories().contains(parent_path(q)));
                } else {
                    lemma_last_slash(q);
                    let cut = last_slash(q);
                    if q != path@ {
                        let k = choose|k: int|
                            0 <= k < path@.len() && path@[k] == '/' && q == #[trigger] path@.take(
                                k,
                            );
                        assert(q[cut] == path@[cut]);
                        assert(parent_path(q) =~= path@.take(cut));
                    }
                    assert(names_directory(path@, parent_path(q)));
                }
            }
        }
    }

    /// Records the file `name` in the directory `path` with the raw
    /// `content`, in place of what was recorded for it before.
    pub fn set_field(&mut self, path: &str, name: &str, content: &str)
        ensures
            old(self).wf() ==> final(self).wf(),
            final(self).root() == old(self).root(),
            final(self).root_exists() == old(self).root_exists(),
            final(self).directories() == old(self).directories(),
            forall|p: Seq<char>, n: Seq<char>|
                final(self).file(p, n) == if p == path@ && n == name@ {
                    Some(content@)
                } else {
                    old(self).file(p, n)
                },
    {
        let file = FieldFile {
            path: to_chars(path),
            name: to_chars(name),
            content: to_chars(content),
        };
        let ghost before = self.files@;
        self.files.push(file);
        proof {
            assert(self.files@.drop_last() =~= before);
            assert(self.directories() == old(self).directories());
            assert forall|p: Seq<char>|
                old(self).wf() && #[trigger] self.directories().contains(p) && has_parent(
                    p,
                ) implies self.directories().contains(parent_path(p)) by {
                assert(old(self).directories().contains(p));
            }
        }
    }

    /// The value of the field `field` of the task at `task_path`: what its
    /// file holds, without the whitespace around it. A field whose file
    /// is missing, empty or all whitespace has no value.
    pub fn get_field(&self, task_path: &str, field: &str) -> (r: Option<String>)
        ensures
            text_of(r) == self.field(task_path@, field@),
    {
        let p = to_chars(task_path);
        let n = to_chars(field);
        let mut i: usize = self.files.len();
        while i > 0
            invariant
                i <= self.files.len(),
                p@ == task_path@,
                n@ == field@,
                forall|k: int|
                    i <= k < self.files.len() ==> !(self.files@[k].path@ == p@
                        && self.files@[k].name@ == n@),
            decreases i,
        {
            let file = &self.files[i - 1];
            if same_chars(&file.path, &p) && same_chars(&file.name, &n) {
                proof {
                    lemma_file_among_take(self.files@, p@, n@, i as int);
                    assert(self.files@.take(i as int).last() == self.files@[i - 1]);
                }
                let value = trimmed(&file.content);
                if value.len() > 0 {
                    return Some(from_chars(&value));
                } else {
                    return None;
                }
            }
            i -= 1;
        }
        proof {
            lemma_file_among_take(self.files@, p@, n@, 0);
        }
        None
    }

    /// The tasks of the store: the directories below the root that are
    /// not hidden, each with the number of its ancestors, in the order of
    /// a depth-first walk that visits the directories of one level by
    /// name: sorted by `path_lt`, which puts a task after its parent and
    /// before its next sibling by name, with all that lies below it in
    /// between. A store whose root is missing has no tasks.
    pub fn list_tasks(&self) -> (r: Vec<(String, usize)>)
        ensures
            is_listing(self.visible(), listed_paths(r@)),
            listed_paths(r@) == self.listing(),
            forall|i: int| 0 <= i < r.len() ==> (#[trigger] r[i]).1 == depth_of(r[i].0@),
    {
        let sorted: Vec<Vec<char>> = if self.present {
            sorted_visible(&self.dirs)
        } else {
            Vec::new()
        };
        proof {
            assert forall|q: Seq<char>| #[trigger]
                texts(sorted@).contains(q) <==> self.visible().contains(q) by {
                if !self.present && texts(sorted@).contains(q) {
                    let k = choose|k: int| 0 <= k < texts(sorted@).len() && texts(sorted@)[k] == q;
                }
            }
        }
        let mut tasks: Vec<(String, usize)> = Vec::new();
        let mut j: usize = 0;
        while j < sorted.len()
            invariant
                j <= sorted.len(),
                tasks.len() == j,
                forall|k: int| 0 <= k < j ==> (#[trigger] tasks[k]).0@ == sorted@[k]@,
                forall|k: int| 0 <= k < j ==> (#[trigger] tasks[k]).1 == depth_of(sorted@[k]@),
            decreases sorted.len() - j,
        {
            let path = from_chars(&sorted[j]);
            let depth = count_ancestors(&sorted[j]);
            tasks.push((path, depth));
            j += 1;
        }
        proof {
            let listed = listed_paths(tasks@);
            assert(listed =~= texts(sorted@));
            assert(is_listing(self.visible(), listed));
            lemma_listing_unique(self.visible(), listed, self.listing());
        }
        tasks
    }

    /// The task at `path` as the store describes it: the state from the
    /// field `state`, name and identifier from the fields `name` and `id`
    /// or else the last segment of the path, and the fields `assigned-to`
    /// and `agent-status`. Its place in the tree is left open.
    pub fn get_task(&self, path: &str, depth: usize) -> (r: TaskLine)
        ensures
            r@ == self.task_at(path@, depth as nat),
    {
        let state = match self.get_field(path, "state") {
            Some(value) => {
                if same_text(value.as_str(), "wip") {
                    TaskState::Wip
                } else if same_text(value.as_str(), "done") {
                    TaskState::Done
                } else {
                    TaskState::Todo
                }
            },
            None => TaskState::Todo,
        };
        let chars = to_chars(path);
        let name = match self.get_field(path, "name") {
            Some(value) => value,
            None => from_chars(&leaf_of(&chars)),
        };
        let yak_id = match self.get_field(path, "id") {
            Some(value) => value,
            None => from_chars(&leaf_of(&chars)),
        };
        TaskLine {
            path: from_chars(&chars),
            name,
            yak_id,
            depth,
            state,
            assigned_to: self.get_field(path, "assigned-to"),
            agent_status: self.get_field(path, "agent-status"),
            has_children: false,
            is_last_sibling: false,
            ancestor_continuations: Vec::new(),
        }
    }

    /// Every store has a listing: `listing` names the one list that
    /// holds the visible directories, each once, in the order of a
    /// depth-first walk.
    pub proof fn lemma_listing_exists(&self)
        ensures
            is_listing(self.visible(), self.listing()),
    {
        let found = if self.present {
            lemma_listing_of_visible(texts(self.dirs@))
        } else {
            Seq::empty()
        };
        assert forall|q: Seq<char>| found.contains(q) <==> self.visible().contains(q) by {
            if !self.present && found.contains(q) {
                let k = choose|k: int| 0 <= k < found.len() && found[k] == q;
            }
        }
        assert(is_listing(self.visible(), found));
    }

    /// The listing of a store is complete: it holds no task twice, with
    /// every task it holds the task above it, and every task is a root
    /// or the descendant of exactly one root.
    pub proof fn lemma_listing_is_complete(&self)
        requires
            self.wf(),
        ensures
            distinct(self.listing()),
            parent_closed(self.listing()),
            root_descendants(self.listing()) + root_count(self.listing()) == self.listing().len(),
    {
        let listing = self.listing();
        self.lemma_listing_exists();
        lemma_sorted_is_distinct(listing);
        assert forall|i: int| 0 <= i < listing.len() && has_parent(
            #[trigger] listing[i],
        ) implies listing.contains(parent_path(listing[i])) by {
            let p = listing[i];
            assert(listing.contains(p));
            assert(self.directories().contains(p));
            if is_hidden(parent_path(p)) {
                lemma_hidden_parent(p);
            }
            assert(self.visible().contains(parent_path(p)));
        }
        lemma_roots_cover_list(listing);
    }

    /// The path of the file `context.md` of a task. The file may not exist.
    pub fn context_path(&self, task_path: &str) -> (r: String)
        ensures
            r@ == self.context_of(task_path@),
    {
        let root = to_chars(self.yaks_dir.as_str());
        let task = to_chars(task_path);
        let file = to_chars("context.md");
        let dir = joined(&root, &task);
        from_chars(&joined(&dir, &file))
    }
}

} // verus!

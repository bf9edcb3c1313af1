//! The state of the dashboard and what it does on each event.
//!
//! The dashboard itself reads no file and talks to no host. An event
//! changes the state and yields a reaction: whether to draw again, and
//! what to ask of the host. Whoever drives the dashboard carries the
//! request out; after a scan of the store it hands the snapshot back.

use crate::path::{depth_of, host_path, host_path_of};
use crate::render::{
    highlighted, lemma_highlight_keeps_text, lemma_line_is_closed, line_of, stripped,
    visible_width,
};
use crate::repository::{listed_paths, TaskRepository};
use crate::shell::{clipboard_command, copy_yak_name_to_clipboard};
use crate::task::{task_views, text_of, TaskLine, TaskLineView};
use crate::text::{
    from_chars, push_repeated, push_text, repeated, starts_with, texts_of, to_chars,
};
use crate::listing::is_listing;
use crate::tree::{
    distinct, laid_out, layout_tasks, lemma_continuations_per_ancestor, lemma_layout_idempotent,
    parent_closed, paths_of, root_count, root_descendants,
};
use crate::viewport::{
    clamp_selection, clamped, move_down, move_up, moved_down, moved_up, scroll_to_selection,
    scrolled, selection_valid, selection_visible, step, Viewport, ViewportOp,
};
use vstd::prelude::*;

verus! {

/// The seconds between two timer ticks.
pub const REFRESH_INTERVAL_SECS: u32 = 2;

/// The root of the store as the dashboard sees it.
pub const YAKS_DIR: &'static str = "/host/.yaks";

/// The rows of a frame that are not for tasks.
pub const CHROME_ROWS: usize = 3;

/// The rows that a toast takes.
pub const TOAST_ROWS: usize = 2;

/// Everything that the dashboard remembers between events.
pub struct State {
    /// The last snapshot of the store.
    pub repository: TaskRepository,
    /// The tasks of that snapshot, laid out as a tree.
    pub tasks: Vec<TaskLine>,
    /// The position of the selected task.
    pub selected_index: usize,
    /// The position of the first task in the window.
    pub scroll_offset: usize,
    /// Why the dashboard cannot show the store, if it cannot.
    pub error: Option<String>,
    /// A passing message below the list.
    pub toast_message: Option<String>,
    /// For how many more timer ticks the message stays.
    pub toast_ticks_remaining: u8,
}

/// The mathematical content of a `State`.
pub struct StateView {
    pub repository: TaskRepository,
    pub tasks: Seq<TaskLineView>,
    pub selected_index: nat,
    pub scroll_offset: nat,
    pub error: Option<Seq<char>>,
    pub toast_message: Option<Seq<char>>,
    pub toast_ticks_remaining: nat,
}

impl View for State {
    type V = StateView;

    open spec fn view(&self) -> StateView {
        StateView {
            repository: self.repository,
            tasks: task_views(self.tasks@),
            selected_index: self.selected_index as nat,
            scroll_offset: self.scroll_offset as nat,
            error: text_of(self.error),
            toast_message: text_of(self.toast_message),
            toast_ticks_remaining: self.toast_ticks_remaining as nat,
        }
    }
}

/// A key without its modifiers.
#[derive(Debug, Clone, Copy, PartialEq, Eq)]
pub enum BareKey {
    Up,
    Down,
    Enter,
    Char(char),
    /// Any other key.
    Other,
}

/// A key as it was pressed.
#[derive(Debug, Clone, Copy, PartialEq, Eq)]
pub struct KeyPress {
    pub bare_key: BareKey,
    /// No modifier key was held.
    pub no_modifiers: bool,
}

/// What the host tells the dashboard.
#[derive(Debug, Clone, Copy, PartialEq, Eq)]
pub enum Event {
    /// The timer ran out.
    Timer,
    Key(KeyPress),
    /// An event that the dashboard has no use for.
    Other,
}

/// What a key asks of the dashboard.
#[derive(Debug, Clone, Copy, PartialEq, Eq)]
pub enum Action {
    MoveUp,
    MoveDown,
    Refresh,
    EditContext,
    CopyName,
    ViewContext,
    /// The key means nothing here.
    Unhandled,
}

/// What the dashboard asks of the host.
#[derive(Debug, Clone, PartialEq, Eq)]
pub enum Request {
    Nothing,
    /// Scan the store anew and hand the snapshot to `State::reload`.
    Rescan,
    /// Make sure that the file at `path` and the directories above it
    /// exist, then open the file, which the host knows as `host_path`,
    /// in an editor.
    EditFile { path: String, host_path: String },
    /// Run the command `argv`, program first.
    RunCommand { argv: Vec<String> },
    /// If there is a file at `path`, show it, which the host knows as
    /// `host_path`, in a pager.
    ViewFile { path: String, host_path: String },
}

/// The mathematical content of a `Request`.
pub enum RequestView {
    Nothing,
    Rescan,
    EditFile { path: Seq<char>, host_path: Seq<char> },
    RunCommand { argv: Seq<Seq<char>> },
    ViewFile { path: Seq<char>, host_path: Seq<char> },
}

impl View for Request {
    type V = RequestView;

    open spec fn view(&self) -> RequestView {
        match *self {
            Request::Nothing => RequestView::Nothing,
            Request::Rescan => RequestView::Rescan,
            Request::EditFile { path, host_path } => RequestView::EditFile {
                path: path@,
                host_path: host_path@,
            },
            Request::RunCommand { argv } => RequestView::RunCommand { argv: texts_of(argv@) },
            Request::ViewFile { path, host_path } => RequestView::ViewFile {
                path: path@,
                host_path: host_path@,
            },
        }
    }
}

/// How the dashboard reacts to an event.
#[derive(Debug, Clone, PartialEq, Eq)]
pub struct Reaction {
    /// The event was handled and the frame is to be drawn again.
    pub render: bool,
    /// The timer is to be set again, to `REFRESH_INTERVAL_SECS`.
    pub rearm_timer: bool,
    pub request: Request,
}

/// The mathematical content of a `Reaction`.
pub struct ReactionView {
    pub render: bool,
    pub rearm_timer: bool,
    pub request: RequestView,
}

impl View for Reaction {
    type V = ReactionView;

    open spec fn view(&self) -> ReactionView {
        ReactionView {
            render: self.render,
            rearm_timer: self.rearm_timer,
            request: self.request@,
        }
    }
}

/// The keys of the dashboard. A key with a modifier means nothing.
pub open spec fn key_action(key: KeyPress) -> Action {
    if !key.no_modifiers {
        Action::Unhandled
    } else {
        match key.bare_key {
            BareKey::Up => Action::MoveUp,
            BareKey::Down => Action::MoveDown,
            BareKey::Enter => Action::ViewContext,
            BareKey::Char(c) => if c == 'k' {
                Action::MoveUp
            } else if c == 'j' {
                Action::MoveDown
            } else if c == 'r' {
                Action::Refresh
            } else if c == 'e' {
                Action::EditContext
            } else if c == 'y' {
                Action::CopyName
            } else {
                Action::Unhandled
            },
            BareKey::Other => Action::Unhandled,
        }
    }
}

/// The tasks of a store as the store describes them, in the order of
/// its listing, not yet placed in a tree.
pub open spec fn stored_tasks(repository: TaskRepository) -> Seq<TaskLineView> {
    let listing = repository.listing();
    Seq::new(listing.len(), |i: int| repository.task_at(listing[i], depth_of(listing[i])))
}

/// The state after the list was rebuilt from the snapshot: the tasks of
/// the snapshot laid out as a tree, and the selection brought back into
/// the list.
pub open spec fn refreshed(s: StateView) -> StateView {
    let tasks = laid_out(stored_tasks(s.repository));
    StateView { tasks, selected_index: clamped(s.selected_index, tasks.len()), ..s }
}

/// What the dashboard says when the store is not there.
pub open spec fn missing_store_message(dir: Seq<char>) -> Seq<char> {
    "Yaks directory not found: "@ + dir + "\nRun `yx add <name>` to create a task."@
}

/// The state after the first scan of the store: with the store missing
/// an error that stays, else the snapshot and its tasks.
pub open spec fn loaded(s: StateView, store: TaskRepository) -> StateView {
    if store.root_exists() {
        refreshed(StateView { repository: store, ..s })
    } else {
        StateView { error: Some(missing_store_message(store.root())), ..s }
    }
}

/// The selected task, if the selection names one.
pub open spec fn selected_task(s: StateView) -> Option<TaskLineView> {
    if s.selected_index < s.tasks.len() {
        Some(s.tasks[s.selected_index as int])
    } else {
        None
    }
}

/// The toast after a timer tick: it goes when its last tick is used up.
pub open spec fn ticked_toast(s: StateView) -> Option<Seq<char>> {
    if s.toast_ticks_remaining == 1 {
        None
    } else {
        s.toast_message
    }
}

/// What the toast says after the name of a task was copied.
pub open spec fn copied_message(id: Seq<char>) -> Seq<char> {
    "Copied: "@ + id
}

/// The state after an event.
pub open spec fn updated(s: StateView, event: Event) -> StateView {
    match event {
        Event::Timer => StateView {
            toast_message: ticked_toast(s),
            toast_ticks_remaining: moved_up(s.toast_ticks_remaining),
            ..s
        },
        Event::Key(key) => match key_action(key) {
            Action::MoveUp => StateView { selected_index: moved_up(s.selected_index), ..s },
            Action::MoveDown => StateView {
                selected_index: moved_down(s.selected_index, s.tasks.len()),
                ..s
            },
            Action::CopyName => match selected_task(s) {
                Some(task) => StateView {
                    toast_message: Some(copied_message(task.yak_id)),
                    toast_ticks_remaining: 1,
                    ..s
                },
                None => s,
            },
            _ => s,
        },
        Event::Other => s,
    }
}

/// The request that opens the context file of the selected task, in an
/// editor or in a pager. Without a selected task nothing is asked.
pub open spec fn context_request(s: StateView, edit: bool) -> RequestView {
    match selected_task(s) {
        Some(task) => {
            let path = s.repository.context_of(task.path);
            if edit {
                RequestView::EditFile { path, host_path: host_path_of(path) }
            } else {
                RequestView::ViewFile { path, host_path: host_path_of(path) }
            }
        },
        None => RequestView::Nothing,
    }
}

/// What an event asks of the host.
pub open spec fn request_for(s: StateView, event: Event) -> RequestView {
    match event {
        Event::Timer => RequestView::Rescan,
        Event::Key(key) => match key_action(key) {
            Action::Refresh => RequestView::Rescan,
            Action::EditContext => context_request(s, true),
            Action::ViewContext => context_request(s, false),
            Action::CopyName => match selected_task(s) {
                Some(task) => RequestView::RunCommand { argv: clipboard_command(task.yak_id) },
                None => RequestView::Nothing,
            },
            _ => RequestView::Nothing,
        },
        Event::Other => RequestView::Nothing,
    }
}

/// The reaction to an event: a timer tick and every key of the
/// dashboard draw the frame again, and the timer tick sets the timer again.
pub open spec fn reaction_to(s: StateView, event: Event) -> ReactionView {
    ReactionView {
        render: match event {
            Event::Timer => true,
            Event::Key(key) => key_action(key) != Action::Unhandled,
            Event::Other => false,
        },
        rearm_timer: event == Event::Timer,
        request: request_for(s, event),
    }
}

/// The rows of a frame of `rows` rows that are for tasks.
pub open spec fn visible_rows(rows: nat, toast: bool) -> nat {
    let taken = CHROME_ROWS + if toast {
        TOAST_ROWS as int
    } else {
        0
    };
    if rows > taken {
        (rows - taken) as nat
    } else {
        0
    }
}

/// The frame shows tasks: there is no error and the list is not empty.
pub open spec fn shows_tasks(s: StateView) -> bool {
    s.error is None && s.tasks.len() > 0
}

/// The state after a frame of `rows` rows was drawn: where tasks are
/// shown, the window has followed the selection.
pub open spec fn rendered(s: StateView, rows: nat) -> StateView {
    if shows_tasks(s) {
        StateView {
            scroll_offset: scrolled(
                s.selected_index,
                s.scroll_offset,
                visible_rows(rows, s.toast_message is Some),
            ),
            ..s
        }
    } else {
        s
    }
}

/// The row of a task in a frame of `cols` columns: its line, and for the
/// selected task the line highlighted and padded with blanks to the
/// width of the frame.
pub open spec fn row_of(task: TaskLineView, selected: bool, cols: nat) -> Seq<char> {
    let line = line_of(task);
    if selected {
        let width = stripped(line).len();
        let missing = if cols > width {
            (cols - width) as nat
        } else {
            0
        };
        highlighted(line, repeated(' ', missing))
    } else {
        line
    }
}

/// The number of tasks in a window of `rows` rows that starts at `scroll`.
pub open spec fn window_len(len: nat, scroll: nat, rows: nat) -> nat {
    if scroll >= len {
        0
    } else if len - scroll < rows {
        (len - scroll) as nat
    } else {
        rows
    }
}

/// The rows of the tasks in the window.
pub open spec fn task_rows(
    tasks: Seq<TaskLineView>,
    selected: nat,
    scroll: nat,
    rows: nat,
    cols: nat,
) -> Seq<Seq<char>> {
    Seq::new(
        window_len(tasks.len(), scroll, rows),
        |i: int| row_of(tasks[scroll + i], scroll + i == selected, cols),
    )
}

/// The rows of the toast: an empty row, and the message in reverse
/// video and bold between two blanks.
pub open spec fn toast_rows(toast: Option<Seq<char>>) -> Seq<Seq<char>> {
    match toast {
        Some(message) => seq![
            Seq::empty(),
            "\x1b[7m\x1b[1m"@ + seq![' '] + message + seq![' '] + "\x1b[0m"@,
        ],
        None => Seq::empty(),
    }
}

/// The frame of `rows` rows and `cols` columns: the error alone where
/// there is one, two rows of advice where there is no task, and else
/// the tasks in the window, which has followed the selection, and the toast.
pub open spec fn frame_of(s: StateView, rows: nat, cols: nat) -> Seq<Seq<char>> {
    match s.error {
        Some(error) => seq!["\x1b[31mError: "@ + error + "\x1b[0m"@],
        None => if s.tasks.len() == 0 {
            seq!["No tasks. Run `yx add <name>` to create one."@, "(Refresh interval: 2s)"@]
        } else {
            let visible = visible_rows(rows, s.toast_message is Some);
            task_rows(
                s.tasks,
                s.selected_index,
                scrolled(s.selected_index, s.scroll_offset, visible),
                visible,
                cols,
            ) + toast_rows(s.toast_message)
        },
    }
}

impl Default for State {
    /// The state before the store was scanned: no store, no task, no message.
    fn default() -> (r: Self)
        ensures
            !r@.repository.root_exists(),
            r@.repository.root() == Seq::<char>::empty(),
            r@.repository.wf(),
            forall|p: Seq<char>| !r@.repository.directories().contains(p),
            forall|p: Seq<char>, n: Seq<char>| r@.repository.file(p, n) is None,
            r@.tasks.len() == 0,
            r@.selected_index == 0,
            r@.scroll_offset == 0,
            r@.error is None,
            r@.toast_message is None,
            r@.toast_ticks_remaining == 0,
    {
        State {
            repository: TaskRepository::default(),
            tasks: Vec::new(),
            selected_index: 0,
            scroll_offset: 0,
            error: None,
            toast_message: None,
            toast_ticks_remaining: 0,
        }
    }
}

/// What a key asks of the dashboard.
pub fn action_of(key: &KeyPress) -> (r: Action)
    ensures
        r == key_action(*key),
{
    if !key.no_modifiers {
        return Action::Unhandled;
    }
    match key.bare_key {
        BareKey::Up => Action::MoveUp,
        BareKey::Down => Action::MoveDown,
        BareKey::Enter => Action::ViewContext,
        BareKey::Char(c) => {
            if c == 'k' {
                Action::MoveUp
            } else if c == 'j' {
                Action::MoveDown
            } else if c == 'r' {
                Action::Refresh
            } else if c == 'e' {
                Action::EditContext
            } else if c == 'y' {
                Action::CopyName
            } else {
                Action::Unhandled
            }
        },
        BareKey::Other => Action::Unhandled,
    }
}

impl State {
    /// Rebuilds the list of tasks from the snapshot, lays it out as a
    /// tree and brings the selection back into the list.
    pub fn refresh_tasks(&mut self)
        ensures
            final(self)@ == refreshed(old(self)@),
    {
        let listing = self.repository.list_tasks();
        let ghost paths = listed_paths(listing@);
        let ghost stored = stored_tasks(self.repository);
        let mut tasks: Vec<TaskLine> = Vec::new();
        let mut i: usize = 0;
        while i < listing.len()
            invariant
                i <= listing.len(),
                self.repository == old(self).repository,
                paths == listed_paths(listing@),
                paths == self.repository.listing(),
                stored == stored_tasks(self.repository),
                forall|k: int| 0 <= k < listing.len() ==> (#[trigger] listing[k]).1 == depth_of(
                    listing[k].0@,
                ),
                tasks.len() == i,
                forall|k: int| 0 <= k < i ==> #[trigger] tasks@[k]@ == stored[k],
            decreases listing.len() - i,
        {
            let entry = &listing[i];
            proof {
                assert(paths[i as int] == entry.0@);
            }
            let task = self.repository.get_task(entry.0.as_str(), entry.1);
            tasks.push(task);
            i += 1;
        }
        proof {
            assert(task_views(tasks@) =~= stored);
        }
        layout_tasks(&mut tasks);
        let len: usize = tasks.len();
        self.tasks = tasks;
        self.selected_index = clamp_selection(self.selected_index, len);
        proof {
            assert(self@.tasks.len() == len);
        }
    }

    /// Takes the snapshot of a new scan of the store and rebuilds the
    /// list of tasks from it.
    pub fn reload(&mut self, store: TaskRepository)
        ensures
            final(self)@ == refreshed(StateView { repository: store, ..old(self)@ }),
    {
        self.repository = store;
        self.refresh_tasks();
    }

    /// Takes the snapshot of the first scan of the store. Where the root
    /// of the store is missing, the dashboard keeps an error that says
    /// so, and the snapshot is dropped.
    pub fn load(&mut self, store: TaskRepository)
        ensures
            final(self)@ == loaded(old(self)@, store),
    {
        if !store.has_root() {
            let mut message = to_chars("Yaks directory not found: ");
            push_text(&mut message, store.yaks_dir().as_str());
            push_text(&mut message, "\nRun `yx add <name>` to create a task.");
            self.error = Some(from_chars(&message));
            return ;
        }
        self.reload(store);
    }

    /// The request that shows the context file of the selected task in
    /// a pager. Without a selected task nothing is asked.
    pub fn open_selected_task_context(&self) -> (r: Request)
        ensures
            r@ == context_request(self@, false),
    {
        if self.selected_index >= self.tasks.len() {
            return Request::Nothing;
        }
        let task = &self.tasks[self.selected_index];
        let path = self.repository.context_path(task.path.as_str());
        let host = host_path(path.as_str());
        Request::ViewFile { path, host_path: host }
    }

    /// Handles one event: changes the state as `updated` says and
    /// answers with the reaction that `reaction_to` names.
    pub fn update(&mut self, event: Event) -> (r: Reaction)
        ensures
            final(self)@ == updated(old(self)@, event),
            r@ == reaction_to(old(self)@, event),
    {
        match event {
            Event::Timer => {
                if self.toast_ticks_remaining > 0 {
                    self.toast_ticks_remaining -= 1;
                    if self.toast_ticks_remaining == 0 {
                        self.toast_message = None;
                    }
                }
                Reaction { render: true, rearm_timer: true, request: Request::Rescan }
            },
            Event::Key(key) => {
                let request = match action_of(&key) {
                    Action::MoveUp => {
                        self.selected_index = move_up(self.selected_index);
                        Request::Nothing
                    },
                    Action::MoveDown => {
                        self.selected_index = move_down(self.selected_index, self.tasks.len());
                        Request::Nothing
                    },
                    Action::Refresh => Request::Rescan,
                    Action::EditContext => {
                        if self.selected_index < self.tasks.len() {
                            let task = &self.tasks[self.selected_index];
                            let path = self.repository.context_path(task.path.as_str());
                            let host = host_path(path.as_str());
                            Request::EditFile { path, host_path: host }
                        } else {
                            Request::Nothing
                        }
                    },
                    Action::CopyName => {
                        if self.selected_index < self.tasks.len() {
                            let task = &self.tasks[self.selected_index];
                            let argv = copy_yak_name_to_clipboard(task.yak_id.as_str());
                            let mut message = to_chars("Copied: ");
                            push_text(&mut message, task.yak_id.as_str());
                            self.toast_message = Some(from_chars(&message));
                            self.toast_ticks_remaining = 1;
                            Request::RunCommand { argv }
                        } else {
                            Request::Nothing
                        }
                    },
                    Action::ViewContext => self.open_selected_task_context(),
                    Action::Unhandled => {
                        return Reaction {
                            render: false,
                            rearm_timer: false,
                            request: Request::Nothing,
                        };
                    },
                };
                Reaction { render: true, rearm_timer: false, request }
            },
            Event::Other => Reaction { render: false, rearm_timer: false, request: Request::Nothing },
        }
    }

    /// Draws the frame: one string for each row. Where tasks are shown,
    /// the window first follows the selection.
    pub fn render(&mut self, rows: usize, cols: usize) -> (frame: Vec<String>)
        ensures
            final(self)@ == rendered(old(self)@, rows as nat),
            texts_of(frame@) == frame_of(old(self)@, rows as nat, cols as nat),
            frame@.len() == frame_of(old(self)@, rows as nat, cols as nat).len(),
    {
        let mut frame: Vec<String> = Vec::new();
        if let Some(error) = &self.error {
            let mut line = to_chars("\x1b[31mError: ");
            push_text(&mut line, error.as_str());
            push_text(&mut line, "\x1b[0m");
            frame.push(from_chars(&line));
            proof {
                assert(texts_of(frame@) =~= frame_of(old(self)@, rows as nat, cols as nat));
            }
            return frame;
        }
        if self.tasks.len() == 0 {
            frame.push("No tasks. Run `yx add <name>` to create one.".to_owned());
            frame.push("(Refresh interval: 2s)".to_owned());
            proof {
                assert(texts_of(frame@) =~= frame_of(old(self)@, rows as nat, cols as nat));
            }
            return frame;
        }
        let taken: usize = if self.toast_message.is_some() {
            CHROME_ROWS + TOAST_ROWS
        } else {
            CHROME_ROWS
        };
        let visible: usize = if rows > taken {
            rows - taken
        } else {
            0
        };
        self.scroll_offset = scroll_to_selection(self.selected_index, self.scroll_offset, visible);
        let scroll: usize = self.scroll_offset;
        let len: usize = self.tasks.len();
        let count: usize = if scroll >= len {
            0
        } else if len - scroll < visible {
            len - scroll
        } else {
            visible
        };
        let ghost tasks = self@.tasks;
        let ghost wanted = task_rows(
            tasks,
            self.selected_index as nat,
            scroll as nat,
            visible as nat,
            cols as nat,
        );
        let mut i: usize = 0;
        while i < count
            invariant
                i <= count,
                len == self.tasks.len(),
                count > 0 ==> scroll + count <= len,
                tasks == self@.tasks,
                wanted == task_rows(
                    tasks,
                    self.selected_index as nat,
                    scroll as nat,
                    visible as nat,
                    cols as nat,
                ),
                wanted.len() == count,
                frame.len() == i,
                forall|k: int| 0 <= k < i ==> #[trigger] frame@[k]@ == wanted[k],
            decreases count - i,
        {
            let task = &self.tasks[scroll + i];
            proof {
                assert(tasks[scroll + i] == task@);
            }
            let line = self.render_task(task);
            if scroll + i == self.selected_index {
                let width = visible_width(line.as_str());
                let missing: usize = if cols > width {
                    cols - width
                } else {
                    0
                };
                let mut padding: Vec<char> = Vec::new();
                push_repeated(&mut padding, ' ', missing);
                proof {
                    assert(padding@ =~= repeated(' ', missing as nat));
                }
                let padding = from_chars(&padding);
                frame.push(self.highlight_line(line.as_str(), padding.as_str()));
            } else {
                frame.push(line);
            }
            i += 1;
        }
        let ghost shown = frame@;
        if let Some(message) = &self.toast_message {
            frame.push(String::new());
            let mut toast = to_chars("\x1b[7m\x1b[1m");
            toast.push(' ');
            push_text(&mut toast, message.as_str());
            toast.push(' ');
            push_text(&mut toast, "\x1b[0m");
            proof {
                assert(toast@ =~= "\x1b[7m\x1b[1m"@ + seq![' '] + message@ + seq![' ']
                    + "\x1b[0m"@);
            }
            frame.push(from_chars(&toast));
            proof {
                assert(frame@ =~= shown.push(frame@[count as int]).push(frame@[count + 1]));
                assert(texts_of(frame@) =~= texts_of(shown) + toast_rows(self@.toast_message));
            }
        } else {
            proof {
                assert(texts_of(frame@) =~= texts_of(shown) + toast_rows(self@.toast_message));
            }
        }
        proof {
            assert(texts_of(shown) =~= wanted);
        }
        frame
    }
}

/// The selected row shows what the line of its task shows, followed by
/// blanks up to the width of the frame; a row that is not selected is
/// the line itself.
pub proof fn lemma_selected_row_fills_frame(task: TaskLineView, cols: nat)
    ensures
        starts_with(stripped(row_of(task, true, cols)), stripped(line_of(task))),
        stripped(row_of(task, true, cols)).len() == if cols > stripped(line_of(task)).len() {
            cols
        } else {
            stripped(line_of(task)).len()
        },
        forall|k: int|
            stripped(line_of(task)).len() <= k < stripped(row_of(task, true, cols)).len()
                ==> stripped(row_of(task, true, cols))[k] == ' ',
        row_of(task, false, cols) == line_of(task),
{
    let line = line_of(task);
    let width = stripped(line).len();
    let missing = if cols > width {
        (cols - width) as nat
    } else {
        0
    };
    lemma_line_is_closed(task);
    lemma_highlight_keeps_text(line, missing);
    let row = stripped(row_of(task, true, cols));
    assert(row == stripped(line) + repeated(' ', missing));
    assert(row.take(width as int) =~= stripped(line));
}

/// The viewport of a state.
pub open spec fn viewport_of(s: StateView) -> Viewport {
    Viewport { selected: s.selected_index, scroll: s.scroll_offset, len: s.tasks.len() }
}

/// An event does to the viewport what the key asks for, and nothing else.
pub proof fn lemma_update_moves_viewport(s: StateView, event: Event)
    ensures
        viewport_of(updated(s, event)) == match event {
            Event::Key(key) => match key_action(key) {
                Action::MoveUp => step(viewport_of(s), ViewportOp::MoveUp),
                Action::MoveDown => step(viewport_of(s), ViewportOp::MoveDown),
                _ => viewport_of(s),
            },
            _ => viewport_of(s),
        },
{
}

/// Rebuilding the list rebuilds the viewport for the new length, so the
/// selection names a task afterwards, or is 0 where there is none.
pub proof fn lemma_refresh_rebuilds_viewport(s: StateView)
    ensures
        viewport_of(refreshed(s)) == step(
            viewport_of(s),
            ViewportOp::Rebuild { len: refreshed(s).tasks.len() },
        ),
        selection_valid(viewport_of(refreshed(s))),
{
}

/// Drawing a frame that shows tasks lets the window follow the
/// selection: with at least one row for tasks the selected row lies in
/// the window afterwards.
pub proof fn lemma_render_scrolls_viewport(s: StateView, rows: nat)
    requires
        shows_tasks(s),
    ensures
        viewport_of(rendered(s, rows)) == step(
            viewport_of(s),
            ViewportOp::Render { visible_rows: visible_rows(rows, s.toast_message is Some) },
        ),
        visible_rows(rows, s.toast_message is Some) > 0 ==> selection_visible(
            viewport_of(rendered(s, rows)),
            visible_rows(rows, s.toast_message is Some),
        ),
{
}

/// After the list was rebuilt from a snapshot, it is the tree of the
/// store: its paths are the listing of the store, every task but a root
/// has its parent in the list, the roots and their descendants make up
/// the whole list, and every task has as many ancestors as its depth
/// says, with one continuation flag for each.
pub proof fn lemma_refreshed_is_tree(s: StateView)
    requires
        s.repository.wf(),
    ensures
        ({
            let tasks = refreshed(s).tasks;
            let paths = paths_of(tasks);
            &&& is_listing(s.repository.visible(), paths)
            &&& distinct(paths)
            &&& parent_closed(paths)
            &&& root_descendants(paths) + root_count(paths) == tasks.len()
            &&& forall|i: int|
                0 <= i < tasks.len() ==> (#[trigger] tasks[i]).depth == depth_of(tasks[i].path)
                    && tasks[i].ancestor_continuations.len() == tasks[i].depth
        }),
{
    let tasks = refreshed(s).tasks;
    let paths = paths_of(tasks);
    assert(paths =~= s.repository.listing());
    s.repository.lemma_listing_exists();
    s.repository.lemma_listing_is_complete();
    lemma_layout_idempotent(stored_tasks(s.repository));
    assert forall|i: int| 0 <= i < tasks.len() implies (#[trigger] tasks[i]).depth == depth_of(
        tasks[i].path,
    ) && tasks[i].ancestor_continuations.len() == tasks[i].depth by {
        assert(paths[i] == tasks[i].path);
        assert(paths.contains(paths[i]));
        lemma_continuations_per_ancestor(paths, tasks[i].path);
    }
}

/// Rebuilding the list twice from the same snapshot gives what
/// rebuilding it once gives.
pub proof fn lemma_refresh_idempotent(s: StateView)
    ensures
        refreshed(refreshed(s)) == refreshed(s),
{
}

} // verus!

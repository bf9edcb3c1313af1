use yak_tree::path::{host_path, task_path_of};
use yak_tree::repository::TaskRepository;
use yak_tree::shell::CLIPBOARD_SCRIPT;
use yak_tree::state::{
    action_of, Action, BareKey, Event, KeyPress, Reaction, Request, State, REFRESH_INTERVAL_SECS,
    YAKS_DIR,
};
use yak_tree::tree::layout_tasks;
use yak_tree::viewport::{clamp_selection, move_down, move_up, scroll_to_selection};

fn yaks() -> TaskRepository {
    TaskRepository::new("/host/.yaks".to_string())
}

fn yaks_with(paths: &[&str]) -> TaskRepository {
    let mut repo = yaks();
    for path in paths {
        repo.add_directory(path);
    }
    repo
}

fn key(bare_key: BareKey) -> Event {
    Event::Key(KeyPress {
        bare_key,
        no_modifiers: true,
    })
}

fn handled(request: Request) -> Reaction {
    Reaction {
        render: true,
        rearm_timer: false,
        request,
    }
}

fn ten_tasks() -> State {
    let mut state = State::default();
    state.reload(yaks_with(&[
        "t0", "t1", "t2", "t3", "t4", "t5", "t6", "t7", "t8", "t9",
    ]));
    state
}

#[test]
fn refresh_tasks_sets_is_last_sibling() {
    let repo = yaks_with(&["task-a", "task-b", "task-c"]);
    let mut state = State {
        repository: repo,
        ..Default::default()
    };
    state.refresh_tasks();

    let task_a = state.tasks.iter().find(|t| t.name == "task-a").unwrap();
    let task_b = state.tasks.iter().find(|t| t.name == "task-b").unwrap();
    let task_c = state.tasks.iter().find(|t| t.name == "task-c").unwrap();

    assert!(!task_a.is_last_sibling);
    assert!(!task_b.is_last_sibling);
    assert!(task_c.is_last_sibling);
}

#[test]
fn refresh_tasks_handles_empty_directory() {
    let repo = yaks();
    let mut state = State {
        repository: repo,
        selected_index: 5,
        ..Default::default()
    };
    state.refresh_tasks();

    assert!(state.tasks.is_empty());
    assert_eq!(state.selected_index, 0);
}

#[test]
fn refresh_tasks_selected_index_bounded() {
    let repo = yaks_with(&["task-a"]);
    let mut state = State {
        repository: repo,
        selected_index: 10,
        ..Default::default()
    };
    state.refresh_tasks();

    assert_eq!(state.selected_index, 0);
}

#[test]
fn refresh_tasks_lays_out_nested_tasks() {
    let mut state = State::default();
    state.reload(yaks_with(&["parent/child/grandchild", "parent/child2"]));
    let paths: Vec<&str> = state.tasks.iter().map(|t| t.path.as_str()).collect();
    assert_eq!(
        paths,
        vec![
            "parent",
            "parent/child",
            "parent/child/grandchild",
            "parent/child2"
        ]
    );
    let depths: Vec<usize> = state.tasks.iter().map(|t| t.depth).collect();
    assert_eq!(depths, vec![0, 1, 2, 1]);
    let grandchild = &state.tasks[2];
    assert_eq!(grandchild.ancestor_continuations, vec![true, false]);
    // the flag of the outermost ancestor is never drawn: one column is left
    assert_eq!(
        grandchild.ancestor_continuations[..grandchild.depth - 1],
        [true]
    );
    assert_eq!(
        state.tree_prefix(grandchild),
        "\x1b[90m│ \x1b[0m\x1b[90m╰─\x1b[0m"
    );
    assert!(grandchild.is_last_sibling);
    assert!(!grandchild.has_children);
    let child = &state.tasks[1];
    assert!(child.has_children);
    assert!(!child.is_last_sibling);
    assert_eq!(child.ancestor_continuations, vec![false]);
    let parent = &state.tasks[0];
    assert!(parent.has_children);
    assert!(parent.is_last_sibling);
    assert!(parent.ancestor_continuations.is_empty());
    let child2 = &state.tasks[3];
    assert!(!child2.has_children);
    assert!(child2.is_last_sibling);
}

#[test]
fn refresh_tasks_clamps_to_the_last_task_of_a_shorter_list() {
    let mut state = ten_tasks();
    state.selected_index = 7;
    state.reload(yaks_with(&["a", "b", "c"]));
    assert_eq!(state.tasks.len(), 3);
    assert_eq!(state.selected_index, 2);
    state.reload(yaks_with(&["a", "b", "c", "d"]));
    assert_eq!(state.selected_index, 2);
}

#[test]
fn refresh_tasks_twice_gives_the_same_tasks() {
    let mut repo = yaks_with(&["a/b/c", "a/d", "e"]);
    repo.set_field("a/b", "state", "wip");
    repo.set_field("e", "assigned-to", "eve");
    let mut state = State {
        repository: repo,
        selected_index: 4,
        ..Default::default()
    };
    state.refresh_tasks();
    let once: Vec<String> = state.tasks.iter().map(|t| format!("{:?}", t)).collect();
    let selected = state.selected_index;
    state.refresh_tasks();
    let twice: Vec<String> = state.tasks.iter().map(|t| format!("{:?}", t)).collect();
    assert_eq!(once, twice);
    assert_eq!(state.selected_index, selected);
    layout_tasks(&mut state.tasks);
    let again: Vec<String> = state.tasks.iter().map(|t| format!("{:?}", t)).collect();
    assert_eq!(once, again);
}

#[test]
fn layout_skips_an_ancestor_that_is_not_listed() {
    let state = State::default();
    let mut tasks = vec![
        yaks().get_task("a", 0),
        yaks().get_task("a/ghost/leaf", 2),
        yaks().get_task("b", 0),
    ];
    layout_tasks(&mut tasks);
    // "a/ghost" is not in the list: one flag only, for "a"
    assert_eq!(tasks[1].ancestor_continuations, vec![true]);
    assert!(tasks[1].is_last_sibling);
    assert!(tasks[0].has_children);
    assert!(!tasks[0].is_last_sibling);
    assert!(tasks[2].is_last_sibling);
    assert_eq!(
        state.tree_prefix(&tasks[1]),
        "\x1b[90m│ \x1b[0m\x1b[90m╰─\x1b[0m"
    );
}

#[test]
fn layout_overwrites_stale_marks() {
    let mut tasks = vec![yaks().get_task("a", 0), yaks().get_task("b", 0)];
    tasks[0].is_last_sibling = true;
    tasks[0].has_children = true;
    tasks[0].ancestor_continuations = vec![true];
    layout_tasks(&mut tasks);
    assert!(!tasks[0].is_last_sibling);
    assert!(!tasks[0].has_children);
    assert!(tasks[0].ancestor_continuations.is_empty());
    assert!(tasks[1].is_last_sibling);
}

#[test]
fn has_children_needs_a_whole_segment() {
    let mut state = State::default();
    state.reload(yaks_with(&["ab", "a"]));
    // "ab" continues "a" but not after a slash
    assert!(!state.tasks[0].has_children);
    assert!(!state.tasks[1].has_children);
}

#[test]
fn load_keeps_an_error_when_the_store_is_missing() {
    let mut state = State::default();
    state.load(TaskRepository::missing(YAKS_DIR.to_string()));
    assert_eq!(
        state.error,
        Some(
            "Yaks directory not found: /host/.yaks\nRun `yx add <name>` to create a task."
                .to_string()
        )
    );
    assert!(state.tasks.is_empty());
    assert!(!state.repository.has_root());
    assert_eq!(state.repository.yaks_dir(), "");
    assert_eq!(
        state.render(24, 80),
        vec![
            "\x1b[31mError: Yaks directory not found: /host/.yaks\nRun `yx add <name>` to create a task.\x1b[0m"
                .to_string()
        ]
    );
}

#[test]
fn load_takes_the_snapshot_of_an_existing_store() {
    let mut state = State::default();
    state.selected_index = 9;
    state.load(yaks_with(&["a", "b"]));
    assert_eq!(state.error, None);
    assert_eq!(state.tasks.len(), 2);
    assert_eq!(state.selected_index, 1);
    assert_eq!(state.repository.yaks_dir(), "/host/.yaks");
}

#[test]
fn render_empty_store_shows_the_placeholder() {
    let mut state = State::default();
    state.selected_index = 3;
    state.load(yaks());
    assert_eq!(state.selected_index, 0);
    assert_eq!(
        state.render(24, 80),
        vec![
            "No tasks. Run `yx add <name>` to create one.".to_string(),
            "(Refresh interval: 2s)".to_string()
        ]
    );
    assert_eq!(REFRESH_INTERVAL_SECS, 2);
}

#[test]
fn render_single_root_task_without_state() {
    let mut state = State::default();
    state.load(yaks_with(&["only"]));
    assert_eq!(state.tasks[0].state, yak_tree::task::TaskState::Todo);
    assert_eq!(state.status_symbol(&state.tasks[0]), '○');
    assert_eq!(state.task_color(&state.tasks[0]), "\x1b[37m");
    let frame = state.render(10, 12);
    // the selected line is padded to 12 visible columns: "○ only" has 6
    assert_eq!(
        frame,
        vec!["\x1b[48;5;237m\x1b[37m○ only\x1b[0m\x1b[48;5;237m      \x1b[0m".to_string()]
    );
}

#[test]
fn render_shows_the_window_and_highlights_the_selection() {
    let mut state = ten_tasks();
    state.selected_index = 1;
    // 3 rows of chrome leave 2 rows for tasks
    let frame = state.render(5, 4);
    assert_eq!(state.scroll_offset, 0);
    assert_eq!(
        frame,
        vec![
            "\x1b[37m○ t0\x1b[0m".to_string(),
            "\x1b[48;5;237m\x1b[37m○ t1\x1b[0m\x1b[48;5;237m\x1b[0m".to_string(),
        ]
    );
}

#[test]
fn render_scrolls_by_the_least_amount() {
    let mut state = ten_tasks();
    state.selected_index = 6;
    let frame = state.render(7, 0);
    // 4 visible rows: the selection becomes the last row
    assert_eq!(state.scroll_offset, 3);
    assert_eq!(frame.len(), 4);
    assert!(frame[3].starts_with("\x1b[48;5;237m"));
    assert!(frame[3].contains("t6"));
    assert!(frame[0].contains("t3"));

    state.selected_index = 4;
    state.render(7, 0);
    assert_eq!(state.scroll_offset, 3);

    state.selected_index = 1;
    let frame = state.render(7, 0);
    assert_eq!(state.scroll_offset, 1);
    assert!(frame[0].starts_with("\x1b[48;5;237m"));

    // no row for tasks: nothing is drawn, nothing scrolls down
    state.selected_index = 9;
    let frame = state.render(3, 80);
    assert!(frame.is_empty());
    assert_eq!(state.scroll_offset, 1);
    // but the window never starts after the selection
    state.selected_index = 0;
    state.render(0, 80);
    assert_eq!(state.scroll_offset, 0);
}

#[test]
fn render_shows_fewer_rows_when_the_list_ends() {
    let mut state = State::default();
    state.load(yaks_with(&["a", "b"]));
    let frame = state.render(40, 0);
    assert_eq!(frame.len(), 2);
    state.scroll_offset = 5;
    state.selected_index = 7;
    let frame = state.render(40, 0);
    // a stale selection past the list: the window is past the list too
    assert_eq!(state.scroll_offset, 5);
    assert!(frame.is_empty());
}

#[test]
fn render_with_toast_takes_two_more_rows() {
    let mut state = ten_tasks();
    let reaction = state.update(key(BareKey::Char('y')));
    assert_eq!(
        reaction,
        handled(Request::RunCommand {
            argv: vec![
                "sh".to_string(),
                "-c".to_string(),
                CLIPBOARD_SCRIPT.to_string(),
                "sh".to_string(),
                "t0".to_string()
            ]
        })
    );
    assert_eq!(state.toast_message, Some("Copied: t0".to_string()));
    assert_eq!(state.toast_ticks_remaining, 1);
    let frame = state.render(8, 0);
    // 8 rows, 3 of chrome and 2 for the toast: 3 tasks, then the toast
    assert_eq!(frame.len(), 5);
    assert_eq!(frame[3], "");
    assert_eq!(frame[4], "\x1b[7m\x1b[1m Copied: t0 \x1b[0m");

    let tick = state.update(Event::Timer);
    assert_eq!(
        tick,
        Reaction {
            render: true,
            rearm_timer: true,
            request: Request::Rescan
        }
    );
    assert_eq!(state.toast_message, None);
    assert_eq!(state.toast_ticks_remaining, 0);
    assert_eq!(state.render(8, 0).len(), 5);
}

#[test]
fn timer_counts_a_longer_toast_down() {
    let mut state = State::default();
    state.toast_message = Some("hold".to_string());
    state.toast_ticks_remaining = 2;
    state.update(Event::Timer);
    assert_eq!(state.toast_message, Some("hold".to_string()));
    assert_eq!(state.toast_ticks_remaining, 1);
    state.update(Event::Timer);
    assert_eq!(state.toast_message, None);
    state.toast_message = Some("stays without ticks".to_string());
    state.update(Event::Timer);
    assert_eq!(state.toast_message, Some("stays without ticks".to_string()));
    assert_eq!(state.toast_ticks_remaining, 0);
}

#[test]
fn keys_move_the_selection() {
    let mut state = State::default();
    state.load(yaks_with(&["a", "b", "c"]));
    assert_eq!(state.update(key(BareKey::Up)), handled(Request::Nothing));
    assert_eq!(state.selected_index, 0);
    assert_eq!(state.update(key(BareKey::Down)), handled(Request::Nothing));
    assert_eq!(state.selected_index, 1);
    state.update(key(BareKey::Char('j')));
    assert_eq!(state.selected_index, 2);
    state.update(key(BareKey::Char('j')));
    assert_eq!(state.selected_index, 2);
    state.update(key(BareKey::Char('k')));
    assert_eq!(state.selected_index, 1);
    state.update(key(BareKey::Up));
    state.update(key(BareKey::Up));
    assert_eq!(state.selected_index, 0);
}

#[test]
fn keys_in_an_empty_list_leave_the_selection() {
    let mut state = State::default();
    state.update(key(BareKey::Down));
    assert_eq!(state.selected_index, 0);
    assert_eq!(state.update(key(BareKey::Enter)), handled(Request::Nothing));
    assert_eq!(
        state.update(key(BareKey::Char('e'))),
        handled(Request::Nothing)
    );
    assert_eq!(
        state.update(key(BareKey::Char('y'))),
        handled(Request::Nothing)
    );
    assert_eq!(state.toast_message, None);
}

#[test]
fn refresh_key_asks_for_a_scan() {
    let mut state = ten_tasks();
    assert_eq!(
        state.update(key(BareKey::Char('r'))),
        handled(Request::Rescan)
    );
    assert_eq!(state.tasks.len(), 10);
}

#[test]
fn context_keys_name_the_file_of_the_selected_task() {
    let mut state = State::default();
    state.load(yaks_with(&["a/b"]));
    state.selected_index = 1;
    assert_eq!(
        state.update(key(BareKey::Char('e'))),
        handled(Request::EditFile {
            path: "/host/.yaks/a/b/context.md".to_string(),
            host_path: ".yaks/a/b/context.md".to_string()
        })
    );
    assert_eq!(
        state.update(key(BareKey::Enter)),
        handled(Request::ViewFile {
            path: "/host/.yaks/a/b/context.md".to_string(),
            host_path: ".yaks/a/b/context.md".to_string()
        })
    );
    assert_eq!(
        state.open_selected_task_context(),
        Request::ViewFile {
            path: "/host/.yaks/a/b/context.md".to_string(),
            host_path: ".yaks/a/b/context.md".to_string()
        }
    );
}

#[test]
fn copy_key_uses_the_id_field() {
    let mut repo = yaks_with(&["a"]);
    repo.set_field("a", "id", "a-1f2e");
    repo.set_field("a", "name", "A task");
    let mut state = State::default();
    state.load(repo);
    let reaction = state.update(key(BareKey::Char('y')));
    match reaction.request {
        Request::RunCommand { argv } => assert_eq!(argv[4], "a-1f2e"),
        other => panic!("unexpected request {:?}", other),
    }
    assert_eq!(state.toast_message, Some("Copied: a-1f2e".to_string()));
}

#[test]
fn other_keys_and_events_are_unhandled() {
    let mut state = ten_tasks();
    state.selected_index = 4;
    let nothing = Reaction {
        render: false,
        rearm_timer: false,
        request: Request::Nothing,
    };
    assert_eq!(state.update(key(BareKey::Char('x'))), nothing);
    assert_eq!(state.update(key(BareKey::Other)), nothing);
    assert_eq!(state.update(Event::Other), nothing);
    for bare_key in [
        BareKey::Up,
        BareKey::Down,
        BareKey::Enter,
        BareKey::Char('k'),
        BareKey::Char('j'),
        BareKey::Char('r'),
        BareKey::Char('e'),
        BareKey::Char('y'),
    ] {
        let with_modifier = Event::Key(KeyPress {
            bare_key,
            no_modifiers: false,
        });
        assert_eq!(state.update(with_modifier), nothing);
    }
    assert_eq!(state.selected_index, 4);
    assert_eq!(state.toast_message, None);
}

#[test]
fn action_of_maps_the_keyboard() {
    let plain = |bare_key| KeyPress {
        bare_key,
        no_modifiers: true,
    };
    assert_eq!(action_of(&plain(BareKey::Up)), Action::MoveUp);
    assert_eq!(action_of(&plain(BareKey::Char('k'))), Action::MoveUp);
    assert_eq!(action_of(&plain(BareKey::Down)), Action::MoveDown);
    assert_eq!(action_of(&plain(BareKey::Char('j'))), Action::MoveDown);
    assert_eq!(action_of(&plain(BareKey::Char('r'))), Action::Refresh);
    assert_eq!(action_of(&plain(BareKey::Char('e'))), Action::EditContext);
    assert_eq!(action_of(&plain(BareKey::Char('y'))), Action::CopyName);
    assert_eq!(action_of(&plain(BareKey::Enter)), Action::ViewContext);
    assert_eq!(action_of(&plain(BareKey::Char('K'))), Action::Unhandled);
    assert_eq!(action_of(&plain(BareKey::Other)), Action::Unhandled);
}

#[test]
fn viewport_functions_exact_values() {
    assert_eq!(move_up(0), 0);
    assert_eq!(move_up(5), 4);
    assert_eq!(move_down(0, 0), 0);
    assert_eq!(move_down(3, 5), 4);
    assert_eq!(move_down(4, 5), 4);
    assert_eq!(move_down(9, 5), 4);
    assert_eq!(move_down(usize::MAX, usize::MAX), usize::MAX - 1);
    assert_eq!(clamp_selection(7, 0), 0);
    assert_eq!(clamp_selection(7, 3), 2);
    assert_eq!(clamp_selection(2, 3), 2);
    assert_eq!(scroll_to_selection(2, 5, 4), 2);
    assert_eq!(scroll_to_selection(9, 5, 4), 6);
    assert_eq!(scroll_to_selection(8, 5, 4), 5);
    assert_eq!(scroll_to_selection(9, 5, 0), 5);
    assert_eq!(scroll_to_selection(usize::MAX, 0, usize::MAX), 1);
    assert_eq!(scroll_to_selection(usize::MAX - 1, 0, usize::MAX), 0);
    assert_eq!(scroll_to_selection(usize::MAX, 0, 1), usize::MAX);
}

#[test]
fn selection_stays_in_the_window_after_every_frame() {
    let mut state = ten_tasks();
    let rows = 6; // 3 visible rows
    let keys = [
        BareKey::Down,
        BareKey::Down,
        BareKey::Down,
        BareKey::Down,
        BareKey::Up,
        BareKey::Down,
        BareKey::Down,
        BareKey::Down,
        BareKey::Down,
        BareKey::Down,
        BareKey::Down,
        BareKey::Up,
        BareKey::Up,
        BareKey::Up,
        BareKey::Up,
        BareKey::Up,
        BareKey::Up,
        BareKey::Up,
        BareKey::Up,
        BareKey::Up,
    ];
    for (step, bare_key) in keys.iter().enumerate() {
        state.update(key(*bare_key));
        if step == 7 {
            state.reload(yaks_with(&["a", "b", "c", "d"]));
        }
        let frame = state.render(rows, 20);
        assert!(state.scroll_offset <= state.selected_index);
        assert!(state.selected_index < state.scroll_offset + 3);
        assert!(state.selected_index < state.tasks.len());
        let highlighted = frame
            .iter()
            .filter(|row| row.starts_with("\x1b[48;5;237m"))
            .count();
        assert_eq!(highlighted, 1);
    }
}

#[test]
fn host_path_strips_the_mount_point() {
    assert_eq!(host_path("/host/.yaks/a/context.md"), ".yaks/a/context.md");
    assert_eq!(host_path("/host"), "");
    assert_eq!(host_path("/host/"), "");
    assert_eq!(host_path("/host//x"), "x");
    assert_eq!(host_path("//host/./x/y/"), "x/y");
    assert_eq!(host_path("/host/../x"), "../x");
    assert_eq!(host_path("host/x"), "host/x");
    assert_eq!(host_path("/hostile/x"), "/hostile/x");
    assert_eq!(host_path("relative/host/x"), "relative/host/x");
    assert_eq!(host_path(""), "");
}

#[test]
fn task_path_of_turns_backslashes_into_slashes() {
    assert_eq!(task_path_of("a\\b\\c"), "a/b/c");
    assert_eq!(task_path_of("a/b"), "a/b");
    assert_eq!(task_path_of("\\"), "/");
    assert_eq!(task_path_of(""), "");
}

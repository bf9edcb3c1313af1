use yak_tree::render::{strip_ansi, visible_width};
use yak_tree::repository::TaskRepository;
use yak_tree::shell::{
    copy_yak_name_to_clipboard, escape_single_quoted, pager_command, CLIPBOARD_SCRIPT,
};
use yak_tree::state::State;
use yak_tree::task::{TaskLine, TaskState};

fn store() -> TaskRepository {
    TaskRepository::new("/tmp/mock/.yaks".to_string())
}

fn state_over(repository: TaskRepository) -> State {
    let mut state = State {
        repository,
        ..Default::default()
    };
    state.refresh_tasks();
    state
}

#[test]
fn task_color_red_for_blocked() {
    let state = State::default();
    let task = TaskLine {
        agent_status: Some("blocked: waiting".to_string()),
        ..TaskLine::default()
    };
    assert_eq!(state.task_color(&task), "\x1b[31m");
}

#[test]
fn task_color_green_for_done() {
    let state = State::default();
    let task = TaskLine {
        agent_status: Some("done: finished".to_string()),
        ..TaskLine::default()
    };
    assert_eq!(state.task_color(&task), "\x1b[32m");
}

#[test]
fn task_color_yellow_for_wip() {
    let state = State::default();
    let task = TaskLine {
        agent_status: Some("wip: working".to_string()),
        ..TaskLine::default()
    };
    assert_eq!(state.task_color(&task), "\x1b[33m");
}

#[test]
fn task_color_yellow_when_state_is_wip() {
    let state = State::default();
    let task = TaskLine {
        state: TaskState::Wip,
        agent_status: None,
        ..TaskLine::default()
    };
    assert_eq!(state.task_color(&task), "\x1b[33m");
}

#[test]
fn task_color_white_for_todo() {
    let state = State::default();
    let task = TaskLine {
        state: TaskState::Todo,
        agent_status: None,
        ..TaskLine::default()
    };
    assert_eq!(state.task_color(&task), "\x1b[37m");
}

#[test]
fn debug_continuation() {
    let mut yaks = store();
    yaks.add_directory("task-a/child1");
    yaks.add_directory("task-a/child2");

    let state = state_over(yaks);

    for task in &state.tasks {
        println!(
            "{}: depth={}, ancestors={:?}, is_last={}",
            task.path, task.depth, task.ancestor_continuations, task.is_last_sibling
        );
    }
}

#[test]
fn tree_prefix_depth_2_parent_has_sibling_shows_continuation() {
    let mut yaks = store();
    // "child" has the sibling "child2" under "parent"
    yaks.add_directory("parent/child/grandchild");
    yaks.add_directory("parent/child2");

    let state = state_over(yaks);

    let grandchild = state.tasks.iter().find(|t| t.name == "grandchild").unwrap();
    let prefix = state.tree_prefix(grandchild);
    assert_eq!(prefix, "\x1b[90m│ \x1b[0m\x1b[90m╰─\x1b[0m");
}

#[test]
fn tree_prefix_depth_2_last_child_has_continuation() {
    let mut yaks = store();
    yaks.add_directory("task-a/child1");
    yaks.add_directory("task-a/child2");

    let state = state_over(yaks);

    // task-a has no sibling at depth 0, so no column is drawn
    let child2 = state.tasks.iter().find(|t| t.name == "child2").unwrap();
    let prefix = state.tree_prefix(child2);
    assert_eq!(prefix, "\x1b[90m╰─\x1b[0m");
}

#[test]
fn tree_prefix_depth_2_no_continuation_when_parent_is_last() {
    let mut yaks = store();
    // "child" is the only child of "parent"
    yaks.add_directory("parent/child/grandchild");

    let state = state_over(yaks);

    let grandchild = state.tasks.iter().find(|t| t.name == "grandchild").unwrap();
    let prefix = state.tree_prefix(grandchild);
    assert_eq!(prefix, "  \x1b[90m╰─\x1b[0m");
}

#[test]
fn tree_prefix_depth_3_shows_two_continuation_columns() {
    let mut yaks = store();
    // a/b/c/d at depth 3; b has sibling b2, c has no sibling
    yaks.add_directory("a/b/c/d");
    yaks.add_directory("a/b2");

    let state = state_over(yaks);

    let d = state.tasks.iter().find(|t| t.name == "d").unwrap();
    let prefix = state.tree_prefix(d);
    assert_eq!(prefix, "\x1b[90m│ \x1b[0m  \x1b[90m╰─\x1b[0m");
}

#[test]
fn render_task_wip_shows_green_bullet() {
    let mut yaks = store();
    yaks.add_directory("my-task");
    yaks.set_field("my-task", "state", "wip");

    let state = state_over(yaks);

    let task = state.tasks.iter().find(|t| t.name == "my-task").unwrap();
    let rendered = state.render_task(task);

    assert!(rendered.contains("●"), "rendered: {:?}", rendered);
}

#[test]
fn render_task_done_shows_strikethrough() {
    let mut yaks = store();
    yaks.add_directory("my-task");
    yaks.set_field("my-task", "state", "done");

    let state = state_over(yaks);

    let task = state.tasks.iter().find(|t| t.name == "my-task").unwrap();
    let rendered = state.render_task(task);

    assert!(rendered.contains("\x1b[9m"));
    assert!(rendered.contains("my-task"));
    assert!(rendered.contains("\x1b[0m"));
}

#[test]
fn render_task_todo_shows_white() {
    let mut yaks = store();
    yaks.add_directory("my-task");

    let state = state_over(yaks);

    let task = state.tasks.iter().find(|t| t.name == "my-task").unwrap();
    let rendered = state.render_task(task);

    assert!(rendered.contains("○"));
    assert!(rendered.contains("\x1b[37m"));
}

#[test]
fn render_task_with_assignment_shows_agent() {
    let mut yaks = store();
    yaks.add_directory("my-task");
    yaks.set_field("my-task", "assigned-to", "bob");

    let state = state_over(yaks);

    let task = state.tasks.iter().find(|t| t.name == "my-task").unwrap();
    assert!(
        task.assigned_to.is_some(),
        "assigned_to: {:?}",
        task.assigned_to
    );

    let rendered = state.render_task(task);
    assert!(rendered.contains("bob"), "rendered: {:?}", rendered);
}

#[test]
fn escape_single_quoted_empty() {
    assert_eq!(escape_single_quoted(""), "''");
}

#[test]
fn escape_single_quoted_no_special() {
    assert_eq!(escape_single_quoted("foo-bar"), "'foo-bar'");
}

#[test]
fn escape_single_quoted_with_single_quote() {
    assert_eq!(escape_single_quoted("it's"), "'it'\\''s'");
}

#[test]
fn highlight_line_uses_explicit_bg_not_reverse_video() {
    let state = State::default();
    let result = state.highlight_line("hello", "   ");
    assert!(
        result.starts_with("\x1b[48;5;237m"),
        "should start with explicit bg: {:?}",
        result
    );
    assert!(
        !result.contains("\x1b[7m"),
        "should not use reverse video: {:?}",
        result
    );
    assert!(
        result.ends_with("\x1b[0m"),
        "should end with reset: {:?}",
        result
    );
}

#[test]
fn highlight_line_reestablishes_bg_after_reset() {
    let state = State::default();
    // A line with a reset in the middle, as coloured text has it
    let line = "\x1b[32mfoo\x1b[0mbar";
    let result = state.highlight_line(line, "");
    assert!(
        result.contains("\x1b[0m\x1b[48;5;237m"),
        "bg not re-established after reset: {:?}",
        result
    );
}

#[test]
fn highlight_line_padding_uses_same_bg() {
    let state = State::default();
    let result = state.highlight_line("hi", "     ");
    let bg = "\x1b[48;5;237m";
    assert!(result.starts_with(bg));
    // the padding stands before the final reset
    let reset_pos = result.rfind("\x1b[0m").unwrap();
    assert!(
        reset_pos == result.len() - "\x1b[0m".len(),
        "final reset should be at end: {:?}",
        result
    );
}

#[test]
fn highlight_line_exact() {
    let state = State::default();
    assert_eq!(
        state.highlight_line("\x1b[32mfoo\x1b[0mbar\x1b[0m", "  "),
        "\x1b[48;5;237m\x1b[32mfoo\x1b[0m\x1b[48;5;237mbar\x1b[0m\x1b[48;5;237m  \x1b[0m"
    );
    assert_eq!(state.highlight_line("", ""), "\x1b[48;5;237m\x1b[0m");
    // an escape that is not a whole reset stays as it is
    assert_eq!(
        state.highlight_line("\x1b[0", "."),
        "\x1b[48;5;237m\x1b[0.\x1b[0m"
    );
}

#[test]
fn render_task_exact_lines() {
    let state = State::default();
    let todo = TaskLine {
        name: "plain".to_string(),
        ..TaskLine::default()
    };
    assert_eq!(state.render_task(&todo), "\x1b[37m○ plain\x1b[0m");

    let done = TaskLine {
        name: "old".to_string(),
        depth: 1,
        state: TaskState::Done,
        agent_status: Some("done: merged".to_string()),
        assigned_to: Some("bob".to_string()),
        is_last_sibling: false,
        ..TaskLine::default()
    };
    assert_eq!(
        state.render_task(&done),
        "\x1b[90m├─\x1b[0m\x1b[32m● \x1b[9mold\x1b[0m [\x1b[36mbob\x1b[0m]\x1b[0m"
    );

    let finished = TaskLine {
        name: "gone".to_string(),
        state: TaskState::Done,
        ..TaskLine::default()
    };
    assert_eq!(
        state.render_task(&finished),
        "\x1b[90m● \x1b[9mgone\x1b[0m\x1b[0m"
    );

    let wip = TaskLine {
        name: "now".to_string(),
        state: TaskState::Wip,
        ..TaskLine::default()
    };
    assert_eq!(state.render_task(&wip), "\x1b[33m● now\x1b[0m");
}

#[test]
fn blocked_agent_overrides_todo() {
    let state = State::default();
    let task = TaskLine {
        name: "stuck".to_string(),
        state: TaskState::Todo,
        agent_status: Some("blocked: waiting".to_string()),
        ..TaskLine::default()
    };
    assert_eq!(state.task_color(&task), "\x1b[31m");
    assert_eq!(state.status_symbol(&task), '●');
    assert_eq!(state.render_task(&task), "\x1b[31m● stuck\x1b[0m");
}

#[test]
fn agent_colour_overrides_the_grey_of_a_done_task() {
    let state = State::default();
    let blocked = TaskLine {
        name: "t".to_string(),
        state: TaskState::Done,
        agent_status: Some("blocked: x".to_string()),
        ..TaskLine::default()
    };
    let line = state.render_task(&blocked);
    assert!(line.starts_with("\x1b[31m●"), "{:?}", line);
    assert_eq!(line, "\x1b[31m● \x1b[9mt\x1b[0m\x1b[0m");
    let wip = TaskLine {
        name: "t".to_string(),
        state: TaskState::Done,
        agent_status: Some("wip: again".to_string()),
        ..TaskLine::default()
    };
    assert_eq!(state.render_task(&wip), "\x1b[33m● \x1b[9mt\x1b[0m\x1b[0m");
    // a status without a known prefix leaves a done task grey
    let idle = TaskLine {
        name: "t".to_string(),
        state: TaskState::Done,
        agent_status: Some("resting".to_string()),
        ..TaskLine::default()
    };
    assert_eq!(state.render_task(&idle), "\x1b[90m● \x1b[9mt\x1b[0m\x1b[0m");
}

#[test]
fn status_symbol_by_state_and_agent() {
    let state = State::default();
    let todo = TaskLine::default();
    assert_eq!(state.status_symbol(&todo), '○');
    let wip = TaskLine {
        state: TaskState::Wip,
        ..TaskLine::default()
    };
    assert_eq!(state.status_symbol(&wip), '●');
    let done = TaskLine {
        state: TaskState::Done,
        ..TaskLine::default()
    };
    assert_eq!(state.status_symbol(&done), '●');
    let unknown = TaskLine {
        agent_status: Some("idle".to_string()),
        ..TaskLine::default()
    };
    assert_eq!(state.status_symbol(&unknown), '○');
    assert_eq!(state.task_color(&unknown), "\x1b[37m");
    let agent_wip = TaskLine {
        agent_status: Some("wip:".to_string()),
        ..TaskLine::default()
    };
    assert_eq!(state.status_symbol(&agent_wip), '●');
    let agent_done = TaskLine {
        agent_status: Some("done: x".to_string()),
        ..TaskLine::default()
    };
    assert_eq!(state.status_symbol(&agent_done), '●');
    // the prefix must stand at the very start, colon included
    let late = TaskLine {
        agent_status: Some(" blocked: no".to_string()),
        ..TaskLine::default()
    };
    assert_eq!(state.status_symbol(&late), '○');
    let no_colon = TaskLine {
        agent_status: Some("blocked".to_string()),
        state: TaskState::Done,
        ..TaskLine::default()
    };
    assert_eq!(state.task_color(&no_colon), "\x1b[90m");
}

#[test]
fn tree_prefix_uses_at_most_the_flags_there_are() {
    let state = State::default();
    let root = TaskLine {
        ancestor_continuations: vec![true, true],
        is_last_sibling: true,
        ..TaskLine::default()
    };
    assert_eq!(state.tree_prefix(&root), "");
    // depth 4 asks for three columns, only one flag is there
    let short = TaskLine {
        depth: 4,
        ancestor_continuations: vec![true],
        ..TaskLine::default()
    };
    assert_eq!(
        state.tree_prefix(&short),
        "\x1b[90m│ \x1b[0m\x1b[90m├─\x1b[0m"
    );
    // the outermost flag is never drawn, the others outermost first
    let deep = TaskLine {
        depth: 3,
        ancestor_continuations: vec![false, true, true],
        is_last_sibling: true,
        ..TaskLine::default()
    };
    assert_eq!(
        state.tree_prefix(&deep),
        "\x1b[90m│ \x1b[0m  \x1b[90m╰─\x1b[0m"
    );
}

#[test]
fn strip_ansi_removes_control_sequences() {
    assert_eq!(strip_ansi("\x1b[32mfoo\x1b[0mbar"), "foobar");
    assert_eq!(strip_ansi("plain"), "plain");
    assert_eq!(strip_ansi(""), "");
    // a sequence that never ends swallows the rest
    assert_eq!(strip_ansi("a\x1b[12;34"), "a");
    // an escape without bracket is kept
    assert_eq!(strip_ansi("a\x1bmb"), "a\x1bmb");
    assert_eq!(strip_ansi("\x1b"), "\x1b");
    assert_eq!(strip_ansi("\x1b[48;5;237m│ ●\x1b[0m"), "│ ●");
    assert_eq!(visible_width("\x1b[90m╰─\x1b[0m\x1b[37m○ name\x1b[0m"), 8);
}

#[test]
fn highlight_shows_the_line_and_the_padding() {
    let state = State::default();
    for line in ["", "plain", "\x1b[32mfoo\x1b[0mbar", "\x1b[0m\x1b[0m", "esc\x1b", "[\x1b[0m["] {
        for padding in ["", " ", "     "] {
            let shown = strip_ansi(&state.highlight_line(line, padding));
            assert_eq!(shown, format!("{}{}", strip_ansi(line), padding), "{:?}", line);
        }
    }
    // a line that ends within a control sequence swallows the padding
    assert_eq!(strip_ansi(&state.highlight_line("\x1b[", " ")), "");
}

#[test]
fn selected_row_is_as_wide_as_the_frame() {
    let mut repo = store();
    repo.add_directory("a/b");
    repo.set_field("a/b", "state", "done");
    repo.set_field("a/b", "assigned-to", "eve");
    repo.set_field("a/b", "name", "odd \x1b[ name");
    let mut state = state_over(repo);
    state.selected_index = 1;
    let line = state.render_task(&state.tasks[1]);
    let width = visible_width(&line);
    for cols in [0, width - 1, width, width + 1, 40] {
        let frame = state.render(10, cols);
        assert_eq!(frame.len(), 2);
        assert_eq!(visible_width(&frame[1]), cols.max(width));
        assert!(strip_ansi(&frame[1]).starts_with(&strip_ansi(&line)));
        assert_eq!(frame[0], state.render_task(&state.tasks[0]));
    }
}

#[test]
fn clipboard_command_passes_the_name_as_argument() {
    let argv = copy_yak_name_to_clipboard("it's a yak");
    assert_eq!(argv.len(), 5);
    assert_eq!(argv[0], "sh");
    assert_eq!(argv[1], "-c");
    assert_eq!(argv[2], CLIPBOARD_SCRIPT);
    assert_eq!(argv[3], "sh");
    assert_eq!(argv[4], "it's a yak");
    assert!(CLIPBOARD_SCRIPT.starts_with("if command -v pbcopy >/dev/null 2>&1; then printf '%s' \"$1\" | pbcopy\nelif command -v xclip"));
    assert!(CLIPBOARD_SCRIPT.ends_with("found\" >&2; exit 1\nfi"));
}

#[test]
fn pager_command_defaults_to_less() {
    assert_eq!(
        pager_command(None, ".yaks/a/context.md"),
        vec!["less".to_string(), ".yaks/a/context.md".to_string()]
    );
    assert_eq!(
        pager_command(Some("bat".to_string()), "f"),
        vec!["bat".to_string(), "f".to_string()]
    );
}

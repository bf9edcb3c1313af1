use yak_tree::repository::TaskRepository;
use yak_tree::state::State;
use yak_tree::task::TaskLine;
use yak_tree::tree::layout_tasks;

fn forest() -> TaskRepository {
    let mut repo = TaskRepository::new("/host/.yaks".to_string());
    for path in [
        "alpha/one/x",
        "alpha/one/y",
        "alpha/two",
        "beta",
        "gamma/only/deep/deeper",
        "alpha-2",
        ".hidden/inside",
    ] {
        repo.add_directory(path);
    }
    repo
}

fn parent_of(path: &str) -> &str {
    match path.rfind('/') {
        Some(at) => &path[..at],
        None => "",
    }
}

fn laid_out() -> Vec<TaskLine> {
    let mut state = State::default();
    state.load(forest());
    state.tasks
}

#[test]
fn roots_and_their_descendants_cover_the_listing() {
    let listing = forest().list_tasks();
    let paths: Vec<&str> = listing.iter().map(|(p, _)| p.as_str()).collect();
    assert_eq!(paths.len(), 11);
    let mut roots = 0;
    let mut descendants = 0;
    for (path, depth) in &listing {
        if *depth == 0 {
            roots += 1;
            let below = format!("{}/", path);
            descendants += paths.iter().filter(|p| p.starts_with(&below)).count();
        } else {
            assert!(paths.contains(&parent_of(path)), "no parent of {}", path);
        }
        assert_eq!(*depth, path.matches('/').count());
    }
    assert_eq!(roots, 4);
    assert_eq!(descendants + roots, paths.len());
}

#[test]
fn one_last_sibling_in_each_group() {
    let tasks = laid_out();
    for task in &tasks {
        let group: Vec<&TaskLine> = tasks
            .iter()
            .filter(|t| parent_of(&t.path) == parent_of(&task.path))
            .collect();
        let last: Vec<&&TaskLine> = group.iter().filter(|t| t.is_last_sibling).collect();
        assert_eq!(last.len(), 1, "group of {}", task.path);
        assert_eq!(last[0].path, group[group.len() - 1].path);
    }
    let last_paths: Vec<&str> = tasks
        .iter()
        .filter(|t| t.is_last_sibling)
        .map(|t| t.path.as_str())
        .collect();
    assert_eq!(
        last_paths,
        vec![
            "alpha/one/y",
            "alpha/two",
            "gamma",
            "gamma/only",
            "gamma/only/deep",
            "gamma/only/deep/deeper"
        ]
    );
}

#[test]
fn one_continuation_flag_for_each_ancestor() {
    let tasks = laid_out();
    for task in &tasks {
        assert_eq!(task.ancestor_continuations.len(), task.depth);
        // nearest ancestor first: the flag at k is that of the k-th ancestor
        let mut ancestor = parent_of(&task.path);
        for flag in &task.ancestor_continuations {
            let at = tasks.iter().find(|t| t.path == ancestor).unwrap();
            assert_eq!(*flag, !at.is_last_sibling);
            ancestor = parent_of(ancestor);
        }
    }
    let deeper = tasks.iter().find(|t| t.name == "deeper").unwrap();
    assert_eq!(deeper.ancestor_continuations, vec![false, false, false]);
    let x = tasks.iter().find(|t| t.name == "x").unwrap();
    assert_eq!(x.ancestor_continuations, vec![true, true]);
}

#[test]
fn has_children_marks_the_inner_tasks() {
    let tasks = laid_out();
    let inner: Vec<&str> = tasks
        .iter()
        .filter(|t| t.has_children)
        .map(|t| t.path.as_str())
        .collect();
    assert_eq!(
        inner,
        vec!["alpha", "alpha/one", "gamma", "gamma/only", "gamma/only/deep"]
    );
}

#[test]
fn layout_is_idempotent() {
    let mut tasks = laid_out();
    let once: Vec<String> = tasks.iter().map(|t| format!("{:?}", t)).collect();
    layout_tasks(&mut tasks);
    let twice: Vec<String> = tasks.iter().map(|t| format!("{:?}", t)).collect();
    assert_eq!(once, twice);
}

#[test]
fn layout_of_duplicate_paths_uses_the_last_one() {
    let repo = TaskRepository::new("r".to_string());
    let mut tasks = vec![
        repo.get_task("p", 0),
        repo.get_task("p/c", 1),
        repo.get_task("p", 0),
        repo.get_task("q", 0),
    ];
    layout_tasks(&mut tasks);
    // the flag of "p/c" speaks of the later "p", which "q" follows
    assert_eq!(tasks[1].ancestor_continuations, vec![true]);
    assert!(!tasks[0].is_last_sibling);
    assert!(!tasks[2].is_last_sibling);
    assert!(tasks[3].is_last_sibling);
    assert!(tasks[0].has_children && tasks[2].has_children);
}

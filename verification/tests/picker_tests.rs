use snip::picker::{Key, Outcome, State};
use snip::snippet::Snippet;
use snip::store::Store;

fn snippet(id: i32, command: &str) -> Snippet {
    Snippet {
        id,
        command: command.to_string(),
        created_at: "2024-01-01 00:00:00".to_string(),
    }
}

fn three_snippets() -> Vec<Snippet> {
    vec![
        snippet(1, "git status"),
        snippet(2, "git log"),
        snippet(3, "ls -la"),
    ]
}

fn step_ok(state: &mut State, store: &mut Store, key: Key) -> Outcome {
    state.step(store, key).expect("step should succeed")
}

fn visible_commands(state: &State) -> Vec<String> {
    state
        .filtered()
        .into_iter()
        .map(|i| state.snippets[i].command.clone())
        .collect()
}

#[test]
fn typing_git_filters_then_commit_selects_second_match() {
    let mut store = Store::open_in_memory().expect("store should open");
    store.save("git status").expect("save should succeed");
    store.save("git log").expect("save should succeed");
    store.save("ls -la").expect("save should succeed");
    let rows_before = store.list().expect("list should succeed").len();

    let mut state = State::new(three_snippets());
    step_ok(&mut state, &mut store, Key::Char('g'));
    step_ok(&mut state, &mut store, Key::Char('i'));
    step_ok(&mut state, &mut store, Key::Char('t'));
    assert_eq!(visible_commands(&state), vec!["git status", "git log"]);

    step_ok(&mut state, &mut store, Key::Down);
    let outcome = step_ok(&mut state, &mut store, Key::Enter);
    match outcome {
        Outcome::Selected(s) => assert_eq!(s.command, "git log"),
        _ => panic!("enter on a highlighted entry must select it"),
    }
    let remaining: Vec<String> = state.snippets.iter().map(|s| s.command.clone()).collect();
    assert_eq!(remaining, vec!["git status", "ls -la"]);
    let rows_after = store.list().expect("list should succeed").len();
    assert_eq!(rows_before, rows_after);
}

#[test]
fn delete_current_removes_row_from_store_and_session() {
    let mut store = Store::open_in_memory().expect("store should open");
    store.save("git status").expect("save should succeed");
    store.save("git log").expect("save should succeed");
    store.save("ls -la").expect("save should succeed");
    let listed = store.list().expect("list should succeed");
    let mut state = State::new(listed);
    assert_eq!(state.snippets[0].command, "ls -la");

    let outcome = step_ok(&mut state, &mut store, Key::DeleteCurrent);
    assert!(matches!(outcome, Outcome::Continue));
    let in_memory: Vec<String> = state.snippets.iter().map(|s| s.command.clone()).collect();
    assert_eq!(in_memory, vec!["git log", "git status"]);
    let persisted: Vec<String> = store
        .list()
        .expect("list should succeed")
        .into_iter()
        .map(|s| s.command)
        .collect();
    assert_eq!(persisted, vec!["git log", "git status"]);
}

#[test]
fn delete_current_on_last_snippet_cancels_and_empties_store() {
    let mut store = Store::open_in_memory().expect("store should open");
    store.save("only one").expect("save should succeed");
    let listed = store.list().expect("list should succeed");
    let mut state = State::new(listed);

    let outcome = step_ok(&mut state, &mut store, Key::DeleteCurrent);
    assert!(matches!(outcome, Outcome::Cancelled));
    assert!(state.snippets.is_empty());
    assert!(store.list().expect("list should succeed").is_empty());
}

#[test]
fn longer_query_narrows_the_filtered_set() {
    let mut store = Store::open_in_memory().expect("store should open");
    let mut state = State::new(three_snippets());
    step_ok(&mut state, &mut store, Key::Char('g'));
    step_ok(&mut state, &mut store, Key::Char('i'));
    step_ok(&mut state, &mut store, Key::Char('t'));
    let wide = state.filtered();
    step_ok(&mut state, &mut store, Key::Char(' '));
    step_ok(&mut state, &mut store, Key::Char('s'));
    let narrow = state.filtered();
    assert!(narrow.iter().all(|i| wide.contains(i)));
    assert_eq!(visible_commands(&state), vec!["git status"]);
}

#[test]
fn selection_stays_inside_the_filtered_view() {
    let mut store = Store::open_in_memory().expect("store should open");
    let mut state = State::new(three_snippets());
    let keys = vec![
        Key::Down,
        Key::Down,
        Key::Down,
        Key::Char('g'),
        Key::Down,
        Key::Char('i'),
        Key::Up,
        Key::Backspace,
        Key::Backspace,
        Key::Char('z'),
        Key::Char('z'),
        Key::Backspace,
        Key::Backspace,
        Key::Up,
    ];
    for key in keys {
        step_ok(&mut state, &mut store, key);
        let visible = state.filtered().len();
        if visible == 0 {
            assert_eq!(state.selected, 0);
        } else {
            assert!(state.selected < visible);
        }
    }
}

#[test]
fn vim_keys_navigate_only_while_query_is_empty() {
    let mut store = Store::open_in_memory().expect("store should open");
    let mut state = State::new(three_snippets());
    step_ok(&mut state, &mut store, Key::Char('j'));
    assert_eq!(state.selected, 1);
    assert!(state.query.is_empty());
    step_ok(&mut state, &mut store, Key::Char('k'));
    assert_eq!(state.selected, 0);
    step_ok(&mut state, &mut store, Key::Char('l'));
    step_ok(&mut state, &mut store, Key::Char('j'));
    let query: String = state.query.iter().collect();
    assert_eq!(query, "lj");
}

#[test]
fn navigation_clamps_at_both_ends() {
    let mut store = Store::open_in_memory().expect("store should open");
    let mut state = State::new(three_snippets());
    step_ok(&mut state, &mut store, Key::Up);
    assert_eq!(state.selected, 0);
    for _ in 0..10 {
        step_ok(&mut state, &mut store, Key::Down);
    }
    assert_eq!(state.selected, 2);
}

#[test]
fn commit_and_delete_are_noops_when_nothing_matches() {
    let mut store = Store::open_in_memory().expect("store should open");
    let mut state = State::new(three_snippets());
    step_ok(&mut state, &mut store, Key::Char('z'));
    step_ok(&mut state, &mut store, Key::Char('q'));
    assert!(state.filtered().is_empty());
    let on_enter = step_ok(&mut state, &mut store, Key::Enter);
    assert!(matches!(on_enter, Outcome::Continue));
    let on_delete = step_ok(&mut state, &mut store, Key::DeleteCurrent);
    assert!(matches!(on_delete, Outcome::Continue));
    assert_eq!(state.snippets.len(), 3);
}

#[test]
fn backspace_on_empty_query_is_a_noop() {
    let mut store = Store::open_in_memory().expect("store should open");
    let mut state = State::new(three_snippets());
    let outcome = step_ok(&mut state, &mut store, Key::Backspace);
    assert!(matches!(outcome, Outcome::Continue));
    assert!(state.query.is_empty());
    assert_eq!(state.filtered().len(), 3);
}

#[test]
fn cancel_leaves_everything_untouched() {
    let mut store = Store::open_in_memory().expect("store should open");
    store.save("kept").expect("save should succeed");
    let mut state = State::new(three_snippets());
    let outcome = step_ok(&mut state, &mut store, Key::Cancel);
    assert!(matches!(outcome, Outcome::Cancelled));
    assert_eq!(state.snippets.len(), 3);
    assert_eq!(store.list().expect("list should succeed").len(), 1);
}

#[test]
fn filter_matches_case_insensitively() {
    let mut store = Store::open_in_memory().expect("store should open");
    let mut state = State::new(vec![snippet(1, "Git Status"), snippet(2, "make all")]);
    step_ok(&mut state, &mut store, Key::Char('g'));
    step_ok(&mut state, &mut store, Key::Char('I'));
    step_ok(&mut state, &mut store, Key::Char('t'));
    assert_eq!(visible_commands(&state), vec!["Git Status"]);
}

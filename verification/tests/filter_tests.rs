use snip::filter::contains_chars;
use snip::picker::{Key, State};
use snip::render::render_model;
use snip::snippet::Snippet;
use snip::store::Store;

fn chars(s: &str) -> Vec<char> {
    s.chars().collect()
}

fn snippet_row(id: i32, command: &str) -> Snippet {
    Snippet {
        id,
        command: command.to_string(),
        created_at: "2024-01-01 00:00:00".to_string(),
    }
}

#[test]
fn contains_chars_finds_inner_substring() {
    assert!(contains_chars(&chars("hello world"), &chars("lo wo")));
    assert!(contains_chars(&chars("hello"), &chars("hello")));
    assert!(contains_chars(&chars("hello"), &chars("h")));
    assert!(contains_chars(&chars("hello"), &chars("o")));
}

#[test]
fn contains_chars_rejects_absent_substring() {
    assert!(!contains_chars(&chars("hello"), &chars("world")));
    assert!(!contains_chars(&chars("abc"), &chars("abcd")));
    assert!(!contains_chars(&chars(""), &chars("a")));
}

#[test]
fn contains_chars_empty_needle_matches_anything() {
    assert!(contains_chars(&chars(""), &chars("")));
    assert!(contains_chars(&chars("xyz"), &chars("")));
}

#[test]
fn render_model_projects_filtered_commands() {
    let mut store = Store::open_in_memory().expect("store should open");
    let mut state = State::new(vec![
        snippet_row(1, "git status"),
        snippet_row(2, "git log"),
        snippet_row(3, "ls -la"),
    ]);
    state.step(&mut store, Key::Char('g')).expect("step should succeed");
    let frame = render_model(&state);
    assert_eq!(frame.items, vec!["git status", "git log"]);
    assert_eq!(frame.highlighted, Some(0));
    assert_eq!(frame.query, "g");
    assert_eq!(frame.help, "  enter: run   ctrl+d: delete   esc: quit");
}

#[test]
fn render_model_hides_highlight_when_nothing_matches() {
    let mut store = Store::open_in_memory().expect("store should open");
    let mut state = State::new(vec![snippet_row(1, "make")]);
    state.step(&mut store, Key::Char('z')).expect("step should succeed");
    let frame = render_model(&state);
    assert!(frame.items.is_empty());
    assert_eq!(frame.highlighted, None);
    assert_eq!(frame.query, "z");
}

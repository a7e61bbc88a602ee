use tasklist::app::{App, AppError, AppMode};
use tasklist::app::handle_app_error;

#[test]
fn add_assigns_increasing_unique_ids() {
    let mut app = App::new();
    app.add_task(String::from("one"));
    app.add_task(String::from("two"));
    app.add_task(String::from("three"));
    assert_eq!(app.tasks.len(), 3);
    assert_eq!(app.tasks[0].id, 0);
    assert_eq!(app.tasks[1].id, 1);
    assert_eq!(app.tasks[2].id, 2);
    assert!(app.tasks[0].id < app.tasks[1].id);
    assert!(app.tasks[1].id < app.tasks[2].id);
    assert_eq!(app.tasks[0].name, "one");
    assert!(!app.tasks[0].done);
    assert_eq!(app.next_id, 3);
}

#[test]
fn toggle_twice_restores_done_flag() {
    let mut app = App::new();
    app.add_task(String::from("a"));
    app.next_task();
    assert_eq!(app.selected, Some(0));
    assert!(!app.tasks[0].done);
    app.toggle_task();
    assert!(app.tasks[0].done);
    app.toggle_task();
    assert!(!app.tasks[0].done);
}

#[test]
fn toggle_without_selection_is_noop() {
    let mut app = App::new();
    app.add_task(String::from("a"));
    app.toggle_task();
    assert!(!app.tasks[0].done);
}

#[test]
fn delete_single_task_clears_selection() {
    let mut app = App::new();
    app.add_task(String::from("only"));
    app.next_task();
    assert_eq!(app.selected, Some(0));
    app.delete_task();
    assert_eq!(app.tasks.len(), 0);
    assert_eq!(app.selected, None);
}

#[test]
fn delete_middle_task_selects_previous() {
    let mut app = App::new();
    app.add_task(String::from("A"));
    app.add_task(String::from("B"));
    app.add_task(String::from("C"));
    app.next_task();
    app.next_task();
    assert_eq!(app.selected, Some(1));
    app.delete_task();
    assert_eq!(app.tasks.len(), 2);
    assert_eq!(app.tasks[0].name, "A");
    assert_eq!(app.tasks[0].id, 0);
    assert_eq!(app.tasks[1].name, "C");
    assert_eq!(app.tasks[1].id, 2);
    assert_eq!(app.selected, Some(0));
}

#[test]
fn delete_at_positive_index_selects_previous() {
    let mut app = App::new();
    app.add_task(String::from("A"));
    app.add_task(String::from("B"));
    app.add_task(String::from("C"));
    app.next_task();
    app.next_task();
    app.next_task();
    assert_eq!(app.selected, Some(2));
    app.delete_task();
    assert_eq!(app.tasks.len(), 2);
    assert_eq!(app.selected, Some(1));
}

#[test]
fn selection_clamps_at_both_ends() {
    let mut app = App::new();
    app.next_task();
    assert_eq!(app.selected, None);
    app.previous_task();
    assert_eq!(app.selected, None);
    app.add_task(String::from("A"));
    app.add_task(String::from("B"));
    app.next_task();
    assert_eq!(app.selected, Some(0));
    app.next_task();
    assert_eq!(app.selected, Some(1));
    app.next_task();
    assert_eq!(app.selected, Some(1));
    app.previous_task();
    assert_eq!(app.selected, Some(0));
    app.previous_task();
    assert_eq!(app.selected, Some(0));
}

#[test]
fn modify_task_renames_target_only() {
    let mut app = App::new();
    app.add_task(String::from("old"));
    app.add_task(String::from("other"));
    app.modify_index = Some(0);
    app.modify_task(String::from("new"));
    assert_eq!(app.tasks[0].name, "new");
    assert_eq!(app.tasks[0].id, 0);
    assert!(!app.tasks[0].done);
    assert_eq!(app.tasks[1].name, "other");
}

#[test]
fn modify_task_without_target_is_noop() {
    let mut app = App::new();
    app.add_task(String::from("keep"));
    app.modify_task(String::from("new"));
    assert_eq!(app.tasks[0].name, "keep");
    app.modify_index = Some(7);
    app.modify_task(String::from("new"));
    assert_eq!(app.tasks[0].name, "keep");
}

#[test]
fn new_app_starts_browsing_and_empty() {
    let app = App::new();
    assert_eq!(app.tasks.len(), 0);
    assert_eq!(app.selected, None);
    assert!(matches!(app.mode, AppMode::TaskMode));
    assert_eq!(app.input.len(), 0);
    assert_eq!(app.next_id, 0);
    assert_eq!(app.modify_index, None);
}

#[test]
fn handle_app_error_maps_each_variant() {
    assert!(handle_app_error(Ok(())).is_ok());
    assert_eq!(
        handle_app_error(Err(AppError::FileIO)).unwrap_err(),
        "Error reading or writing to file"
    );
    assert_eq!(
        handle_app_error(Err(AppError::Serialization)).unwrap_err(),
        "Error serializing tasks to TOML"
    );
    assert_eq!(
        handle_app_error(Err(AppError::Deserialization)).unwrap_err(),
        "Error deserializing tasks from TOML"
    );
}

use tasklist::app::{App, AppMode};
use tasklist::ui::{handle_key, KeyInput};

fn key(app: &mut App, confirm: &mut bool, k: KeyInput) -> tasklist::ui::StepAction {
    handle_key(app, confirm, k)
}

fn type_word(app: &mut App, confirm: &mut bool, word: &str) {
    for c in word.chars() {
        key(app, confirm, KeyInput::Char(c));
    }
}

#[test]
fn add_flow_appends_task_and_saves() {
    let mut app = App::new();
    let mut confirm = false;
    let act = key(&mut app, &mut confirm, KeyInput::Tab);
    assert!(matches!(app.mode, AppMode::InputMode));
    assert!(!act.save && !act.quit);
    type_word(&mut app, &mut confirm, "buy milk");
    let act = key(&mut app, &mut confirm, KeyInput::Enter);
    assert!(act.save && !act.quit);
    assert!(matches!(app.mode, AppMode::TaskMode));
    assert_eq!(app.tasks.len(), 1);
    assert_eq!(app.tasks[0].name, "buy milk");
    assert_eq!(app.input.len(), 0);
}

#[test]
fn empty_submit_mutates_nothing_but_returns_to_browsing() {
    let mut app = App::new();
    let mut confirm = false;
    key(&mut app, &mut confirm, KeyInput::Tab);
    assert!(matches!(app.mode, AppMode::InputMode));
    let act = key(&mut app, &mut confirm, KeyInput::Enter);
    assert!(matches!(app.mode, AppMode::TaskMode));
    assert_eq!(app.tasks.len(), 0);
    assert_eq!(app.next_id, 0);
    assert!(!act.save && !act.quit);
}

#[test]
fn empty_edit_submit_mutates_nothing_but_returns_to_browsing() {
    let mut app = App::new();
    let mut confirm = false;
    app.add_task(String::from("keep"));
    key(&mut app, &mut confirm, KeyInput::Down);
    key(&mut app, &mut confirm, KeyInput::Char('m'));
    assert!(matches!(app.mode, AppMode::EditMode));
    let act = key(&mut app, &mut confirm, KeyInput::Enter);
    assert!(matches!(app.mode, AppMode::TaskMode));
    assert_eq!(app.tasks[0].name, "keep");
    assert!(!act.save);
}

#[test]
fn activate_without_selection_is_guarded() {
    let mut app = App::new();
    let mut confirm = false;
    let act = key(&mut app, &mut confirm, KeyInput::Enter);
    assert_eq!(app.tasks.len(), 0);
    assert_eq!(app.selected, None);
    assert!(matches!(app.mode, AppMode::TaskMode));
    assert!(act.save && !act.quit);
    assert!(!confirm);
}

#[test]
fn activate_toggles_selected_and_saves() {
    let mut app = App::new();
    let mut confirm = false;
    app.add_task(String::from("a"));
    key(&mut app, &mut confirm, KeyInput::Down);
    let act = key(&mut app, &mut confirm, KeyInput::Enter);
    assert!(app.tasks[0].done);
    assert!(act.save);
}

#[test]
fn edit_flow_renames_selected_task() {
    let mut app = App::new();
    let mut confirm = false;
    app.add_task(String::from("old"));
    key(&mut app, &mut confirm, KeyInput::Down);
    key(&mut app, &mut confirm, KeyInput::Char('m'));
    assert!(matches!(app.mode, AppMode::EditMode));
    assert_eq!(app.modify_index, Some(0));
    type_word(&mut app, &mut confirm, "new");
    let act = key(&mut app, &mut confirm, KeyInput::Enter);
    assert!(act.save);
    assert_eq!(app.tasks[0].name, "new");
    assert_eq!(app.tasks[0].id, 0);
}

#[test]
fn delete_confirmation_flow() {
    let mut app = App::new();
    let mut confirm = false;
    app.add_task(String::from("a"));
    app.add_task(String::from("b"));
    key(&mut app, &mut confirm, KeyInput::Down);
    key(&mut app, &mut confirm, KeyInput::Char('x'));
    assert!(confirm);
    // any other key is ignored while confirming
    let act = key(&mut app, &mut confirm, KeyInput::Char('z'));
    assert!(confirm && !act.save && !act.quit);
    assert_eq!(app.tasks.len(), 2);
    // declining leaves the list alone
    let act = key(&mut app, &mut confirm, KeyInput::Char('n'));
    assert!(!confirm && !act.save);
    assert_eq!(app.tasks.len(), 2);
    // confirming deletes and saves
    key(&mut app, &mut confirm, KeyInput::Char('x'));
    let act = key(&mut app, &mut confirm, KeyInput::Char('y'));
    assert!(!confirm && act.save);
    assert_eq!(app.tasks.len(), 1);
    assert_eq!(app.tasks[0].name, "b");
}

#[test]
fn quit_only_from_browsing() {
    let mut app = App::new();
    let mut confirm = false;
    let act = key(&mut app, &mut confirm, KeyInput::Char('q'));
    assert!(act.quit);
    let mut app = App::new();
    let mut confirm = false;
    key(&mut app, &mut confirm, KeyInput::Tab);
    let act = key(&mut app, &mut confirm, KeyInput::Char('q'));
    assert!(!act.quit);
    assert_eq!(app.input, vec!['q']);
}

#[test]
fn backspace_and_escape_edit_the_buffer() {
    let mut app = App::new();
    let mut confirm = false;
    key(&mut app, &mut confirm, KeyInput::Tab);
    let act = key(&mut app, &mut confirm, KeyInput::Backspace);
    assert!(!act.save);
    assert_eq!(app.input.len(), 0);
    type_word(&mut app, &mut confirm, "ab");
    key(&mut app, &mut confirm, KeyInput::Backspace);
    assert_eq!(app.input, vec!['a']);
    key(&mut app, &mut confirm, KeyInput::Esc);
    assert!(matches!(app.mode, AppMode::TaskMode));
    assert_eq!(app.input.len(), 0);
    // entering input mode again starts from a clear buffer
    type_word(&mut app, &mut confirm, "zz");
    key(&mut app, &mut confirm, KeyInput::Tab);
    assert_eq!(app.input.len(), 0);
}

#[test]
fn unrecognized_keys_are_ignored() {
    let mut app = App::new();
    let mut confirm = false;
    app.add_task(String::from("a"));
    let act = key(&mut app, &mut confirm, KeyInput::Other);
    assert!(!act.save && !act.quit);
    assert_eq!(app.tasks.len(), 1);
    assert!(matches!(app.mode, AppMode::TaskMode));
}

use crate::app::{
    add_spec, delete_spec, edit_spec, next_sel_spec, prev_sel_spec, toggle_spec, App, AppMode, AppV,
};
use crate::codec::chars_to_string;
use vstd::prelude::*;

verus! {

/// A keyboard event, as the interaction controller distinguishes them. Any
/// other input (other keys, pointer events) is mapped to `Other` and ignored.
#[derive(PartialEq, Eq, Structural, Clone, Copy, Debug)]
pub enum KeyInput {
    Tab,
    Down,
    Up,
    Enter,
    Backspace,
    Esc,
    Char(char),
    Other,
}

/// What the event loop must do after a step: stop the loop, and/or persist
/// the list (surfacing any persistence error).
#[derive(PartialEq, Eq, Structural, Clone, Copy, Debug)]
pub struct StepAction {
    pub quit: bool,
    pub save: bool,
}

pub open spec fn no_action() -> StepAction {
    StepAction { quit: false, save: false }
}

pub open spec fn save_action() -> StepAction {
    StepAction { quit: false, save: true }
}

/// One step of the text-entry handling shared by the adding and editing
/// modes: `adding` tells which submission applies.
pub open spec fn step_text_spec(a: AppV, key: KeyInput, adding: bool) -> (AppV, bool, StepAction) {
    match key {
        KeyInput::Enter => if a.input.len() > 0 {
            let a1 = if adding {
                add_spec(a, a.input)
            } else {
                edit_spec(a, a.input)
            };
            (AppV { mode: AppMode::TaskMode, input: Seq::empty(), ..a1 }, false, save_action())
        } else {
            (AppV { mode: AppMode::TaskMode, ..a }, false, no_action())
        },
        KeyInput::Char(c) => (AppV { input: a.input.push(c), ..a }, false, no_action()),
        KeyInput::Backspace => (
            AppV {
                input: if a.input.len() == 0 {
                    a.input
                } else {
                    a.input.drop_last()
                },
                ..a
            },
            false,
            no_action(),
        ),
        KeyInput::Esc => (AppV { mode: AppMode::TaskMode, input: Seq::empty(), ..a }, false, no_action()),
        _ => (a, false, no_action()),
    }
}

/// The interaction controller's transition function: from application state,
/// confirmation flag and key to the next state, the next flag, and what the
/// event loop must do. The confirmation overlay pre-empts all mode handling.
pub open spec fn step_spec(a: AppV, confirm: bool, key: KeyInput) -> (AppV, bool, StepAction) {
    if confirm {
        match key {
            KeyInput::Char(c) => if c == 'y' {
                (delete_spec(a), false, save_action())
            } else if c == 'n' {
                (a, false, no_action())
            } else {
                (a, true, no_action())
            },
            _ => (a, true, no_action()),
        }
    } else {
        match a.mode {
            AppMode::TaskMode => match key {
                KeyInput::Tab => (
                    AppV { mode: AppMode::InputMode, input: Seq::empty(), ..a },
                    false,
                    no_action(),
                ),
                KeyInput::Down => (next_sel_spec(a), false, no_action()),
                KeyInput::Up => (prev_sel_spec(a), false, no_action()),
                KeyInput::Enter => (toggle_spec(a), false, save_action()),
                KeyInput::Char(c) => if c == 'm' {
                    (
                        AppV {
                            mode: AppMode::EditMode,
                            modify_index: a.selected,
                            input: Seq::empty(),
                            ..a
                        },
                        false,
                        no_action(),
                    )
                } else if c == 'x' {
                    (a, true, no_action())
                } else if c == 'q' {
                    (a, false, StepAction { quit: true, save: false })
                } else {
                    (a, false, no_action())
                },
                _ => (a, false, no_action()),
            },
            AppMode::InputMode => step_text_spec(a, key, true),
            AppMode::EditMode => step_text_spec(a, key, false),
        }
    }
}

/// Submitting with an empty input buffer performs no store mutation and
/// triggers no save, but still returns control to browsing.
pub proof fn lemma_empty_submit_no_mutation(a: AppV, confirm: bool)
    requires
        a.input.len() == 0,
        a.mode == AppMode::InputMode || a.mode == AppMode::EditMode,
        !confirm,
    ensures
        step_spec(a, confirm, KeyInput::Enter).0.tasks == a.tasks,
        step_spec(a, confirm, KeyInput::Enter).0.next_id == a.next_id,
        step_spec(a, confirm, KeyInput::Enter).0.mode == AppMode::TaskMode,
        step_spec(a, confirm, KeyInput::Enter).1 == false,
        step_spec(a, confirm, KeyInput::Enter).2 == no_action(),
{
}

/// Activating while browsing with nothing selected leaves the whole state
/// unchanged; the save that follows merely rewrites the unchanged list.
pub proof fn lemma_activate_without_selection(a: AppV)
    requires
        a.mode == AppMode::TaskMode,
        a.selected is None,
    ensures
        step_spec(a, false, KeyInput::Enter).0 == a,
        step_spec(a, false, KeyInput::Enter).1 == false,
        step_spec(a, false, KeyInput::Enter).2 == save_action(),
{
}

/// Processes one keyboard event: dispatches on the confirmation overlay and
/// the current mode, performs at most one store mutation, and reports what
/// the event loop must do next.
pub fn handle_key(app: &mut App, show_confirm: &mut bool, key: KeyInput) -> (act: StepAction)
    requires
        old(app).wf(),
        old(app)@.next_id < usize::MAX,
    ensures
        final(app).wf(),
        (final(app)@, *final(show_confirm), act) == step_spec(
            old(app)@,
            *old(show_confirm),
            key,
        ),
{
    let ghost prev = app@;
    let ghost prev_confirm = *show_confirm;
    if *show_confirm {
        match key {
            KeyInput::Char(c) => {
                if c == 'y' {
                    app.delete_task();
                    *show_confirm = false;
                    return StepAction { quit: false, save: true };
                } else if c == 'n' {
                    *show_confirm = false;
                    return StepAction { quit: false, save: false };
                } else {
                    return StepAction { quit: false, save: false };
                }
            },
            _ => {
                return StepAction { quit: false, save: false };
            },
        }
    }
    match app.mode {
        AppMode::TaskMode => {
            match key {
                KeyInput::Tab => {
                    app.mode = AppMode::InputMode;
                    app.input.clear();
                    proof {
                        assert(app@ =~= step_spec(prev, false, key).0);
                    }
                    StepAction { quit: false, save: false }
                },
                KeyInput::Down => {
                    app.next_task();
                    StepAction { quit: false, save: false }
                },
                KeyInput::Up => {
                    app.previous_task();
                    StepAction { quit: false, save: false }
                },
                KeyInput::Enter => {
                    app.toggle_task();
                    StepAction { quit: false, save: true }
                },
                KeyInput::Char(c) => {
                    if c == 'm' {
                        app.modify_index = app.selected;
                        app.mode = AppMode::EditMode;
                        app.input.clear();
                        proof {
                            assert(app@ =~= step_spec(prev, false, key).0);
                        }
                        StepAction { quit: false, save: false }
                    } else if c == 'x' {
                        *show_confirm = true;
                        StepAction { quit: false, save: false }
                    } else if c == 'q' {
                        StepAction { quit: true, save: false }
                    } else {
                        StepAction { quit: false, save: false }
                    }
                },
                _ => StepAction { quit: false, save: false },
            }
        },
        AppMode::InputMode => {
            match key {
                KeyInput::Enter => {
                    if app.input.len() > 0 {
                        let name = chars_to_string(&app.input);
                        app.input.clear();
                        app.add_task(name);
                        app.mode = AppMode::TaskMode;
                        proof {
                            assert(app@ =~= step_spec(prev, false, key).0);
                        }
                        StepAction { quit: false, save: true }
                    } else {
                        app.mode = AppMode::TaskMode;
                        proof {
                            assert(app@ =~= step_spec(prev, false, key).0);
                        }
                        StepAction { quit: false, save: false }
                    }
                },
                KeyInput::Char(c) => {
                    app.input.push(c);
                    proof {
                        assert(app@ =~= step_spec(prev, false, key).0);
                    }
                    StepAction { quit: false, save: false }
                },
                KeyInput::Backspace => {
                    if app.input.len() > 0 {
                        app.input.pop();
                    }
                    proof {
                        assert(app@ =~= step_spec(prev, false, key).0);
                    }
                    StepAction { quit: false, save: false }
                },
                KeyInput::Esc => {
                    app.input.clear();
                    app.mode = AppMode::TaskMode;
                    proof {
                        assert(app@ =~= step_spec(prev, false, key).0);
                    }
                    StepAction { quit: false, save: false }
                },
                _ => StepAction { quit: false, save: false },
            }
        },
        AppMode::EditMode => {
            match key {
                KeyInput::Enter => {
                    if app.input.len() > 0 {
                        let name = chars_to_string(&app.input);
                        app.input.clear();
                        app.modify_task(name);
                        app.mode = AppMode::TaskMode;
                        proof {
                            assert(app@ =~= step_spec(prev, false, key).0);
                        }
                        StepAction { quit: false, save: true }
                    } else {
                        app.mode = AppMode::TaskMode;
                        proof {
                            assert(app@ =~= step_spec(prev, false, key).0);
                        }
                        StepAction { quit: false, save: false }
                    }
                },
                KeyInput::Char(c) => {
                    app.input.push(c);
                    proof {
                        assert(app@ =~= step_spec(prev, false, key).0);
                    }
                    StepAction { quit: false, save: false }
                },
                KeyInput::Backspace => {
                    if app.input.len() > 0 {
                        app.input.pop();
                    }
                    proof {
                        assert(app@ =~= step_spec(prev, false, key).0);
                    }
                    StepAction { quit: false, save: false }
                },
                KeyInput::Esc => {
                    app.input.clear();
                    app.mode = AppMode::TaskMode;
                    proof {
                        assert(app@ =~= step_spec(prev, false, key).0);
                    }
                    StepAction { quit: false, save: false }
                },
                _ => StepAction { quit: false, save: false },
            }
        },
    }
}

} // verus!

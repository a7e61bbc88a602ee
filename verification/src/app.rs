use crate::task::{views_of, Task, TaskView};
use vstd::prelude::*;
use vstd::string::StringExecFns;

verus! {

/// Which category of input the controller is interpreting: list navigation,
/// entering a new task name, or entering a replacement name.
#[derive(PartialEq, Eq, Structural, Clone, Copy, Debug)]
pub enum AppMode {
    TaskMode,
    InputMode,
    EditMode,
}

/// Why a persistence operation failed.
#[derive(PartialEq, Eq, Structural, Clone, Copy, Debug)]
pub enum AppError {
    /// Reading or writing the backing medium failed.
    FileIO,
    /// Turning the list into its text form failed.
    Serialization,
    /// The persisted store could not be parsed.
    Deserialization,
}

/// Mathematical image of the application state.
#[verifier::ext_equal]
pub ghost struct AppV {
    pub tasks: Seq<TaskView>,
    pub selected: Option<int>,
    pub mode: AppMode,
    pub input: Seq<char>,
    pub next_id: int,
    pub modify_index: Option<int>,
}

impl AppV {
    /// Well-formedness: every stored identifier is below the allocator's next
    /// value, and the selection, when present, points into the list.
    pub open spec fn wf(self) -> bool {
        &&& forall|i: int|
            0 <= i < self.tasks.len() ==> (#[trigger] self.tasks[i]).id < self.next_id
        &&& 0 <= self.next_id
        &&& match self.selected {
            Some(s) => 0 <= s < self.tasks.len(),
            None => true,
        }
    }
}

/// Appending a task: it gets the allocator's value as identifier, the given
/// name, and is not done; the allocator moves one past it.
pub open spec fn add_spec(a: AppV, name: Seq<char>) -> AppV {
    AppV {
        tasks: a.tasks.push(TaskView { id: a.next_id, name: name, done: false }),
        next_id: a.next_id + 1,
        ..a
    }
}

/// Renaming the task the edit target points at; a no-op when the target is
/// absent or out of range.
pub open spec fn edit_spec(a: AppV, new_name: Seq<char>) -> AppV {
    match a.modify_index {
        Some(i) => if 0 <= i < a.tasks.len() {
            AppV { tasks: a.tasks.update(i, TaskView { name: new_name, ..a.tasks[i] }), ..a }
        } else {
            a
        },
        None => a,
    }
}

/// Flipping the done flag of the selected task; a no-op without a selection.
pub open spec fn toggle_spec(a: AppV) -> AppV {
    match a.selected {
        Some(i) => if 0 <= i < a.tasks.len() {
            AppV {
                tasks: a.tasks.update(i, TaskView { done: !a.tasks[i].done, ..a.tasks[i] }),
                ..a
            }
        } else {
            a
        },
        None => a,
    }
}

/// Moving the selection forward one position, clamped at the end of the list;
/// selects the first task when nothing was selected and the list is non-empty.
pub open spec fn next_sel_spec(a: AppV) -> AppV {
    AppV {
        selected: if a.tasks.len() == 0 {
            None
        } else {
            match a.selected {
                Some(i) => if i + 1 < a.tasks.len() {
                    Some(i + 1)
                } else {
                    Some(a.tasks.len() - 1)
                },
                None => Some(0),
            }
        },
        ..a
    }
}

/// Moving the selection backward one position, clamped at the first task;
/// selects the first task when nothing was selected and the list is non-empty.
pub open spec fn prev_sel_spec(a: AppV) -> AppV {
    AppV {
        selected: if a.tasks.len() == 0 {
            None
        } else {
            match a.selected {
                Some(i) => Some(if i <= 0 { 0 } else { i - 1 }),
                None => Some(0),
            }
        },
        ..a
    }
}

/// Removing the selected task. The selection becomes the previous position
/// (clamped at the first task) when tasks remain, and nothing otherwise.
pub open spec fn delete_spec(a: AppV) -> AppV {
    match a.selected {
        Some(i) => if 0 <= i < a.tasks.len() {
            AppV {
                tasks: a.tasks.remove(i),
                selected: if a.tasks.len() == 1 {
                    None
                } else {
                    Some(if i <= 0 { 0 } else { i - 1 })
                },
                ..a
            }
        } else {
            a
        },
        None => a,
    }
}

/// The application state: the task list, the selection, the controller mode,
/// the text-input buffer, the identifier allocator, and the edit target.
pub struct App {
    pub tasks: Vec<Task>,
    pub selected: Option<usize>,
    pub mode: AppMode,
    pub input: Vec<char>,
    pub next_id: usize,
    pub modify_index: Option<usize>,
}

impl View for App {
    type V = AppV;

    open spec fn view(&self) -> AppV {
        AppV {
            tasks: views_of(self.tasks@),
            selected: match self.selected {
                Some(i) => Some(i as int),
                None => None,
            },
            mode: self.mode,
            input: self.input@,
            next_id: self.next_id as int,
            modify_index: match self.modify_index {
                Some(i) => Some(i as int),
                None => None,
            },
        }
    }
}

impl App {
    pub open spec fn wf(&self) -> bool {
        self@.wf()
    }

    /// A fresh application: no tasks, nothing selected, browsing, empty input
    /// buffer, allocator at zero, no edit target.
    pub fn new() -> (a: App)
        ensures
            a@.tasks.len() == 0,
            a@.selected is None,
            a@.mode == AppMode::TaskMode,
            a@.input.len() == 0,
            a@.next_id == 0,
            a@.modify_index is None,
            a.wf(),
    {
        App {
            tasks: Vec::new(),
            selected: None,
            mode: AppMode::TaskMode,
            input: Vec::new(),
            next_id: 0,
            modify_index: None,
        }
    }

    /// Appends a new task named `name`; always succeeds.
    pub fn add_task(&mut self, name: String)
        requires
            old(self).wf(),
            old(self)@.next_id < usize::MAX,
        ensures
            final(self).wf(),
            final(self)@ == add_spec(old(self)@, name@),
    {
        let id = self.next_id;
        let ghost prev = self@;
        self.tasks.push(Task { id, name, done: false });
        self.next_id = self.next_id + 1;
        proof {
            assert(views_of(self.tasks@) =~= prev.tasks.push(
                TaskView { id: prev.next_id, name: name@, done: false },
            ));
            assert(self@ =~= add_spec(prev, name@));
        }
    }

    /// Replaces the name of the task the edit target points at; a no-op when
    /// the target is absent or out of range.
    pub fn modify_task(&mut self, new_name: String)
        requires
            old(self).wf(),
        ensures
            final(self).wf(),
            final(self)@ == edit_spec(old(self)@, new_name@),
    {
        let ghost prev = self@;
        match self.modify_index {
            Some(index) => {
                if index < self.tasks.len() {
                    let mut t = self.tasks.remove(index);
                    t.name = new_name;
                    self.tasks.insert(index, t);
                    proof {
                        assert(views_of(self.tasks@) =~= prev.tasks.update(
                            index as int,
                            TaskView { name: new_name@, ..prev.tasks[index as int] },
                        ));
                        assert(self@ =~= edit_spec(prev, new_name@));
                    }
                } else {
                    proof {
                        assert(self@ =~= edit_spec(prev, new_name@));
                    }
                }
            },
            None => {
                proof {
                    assert(self@ =~= edit_spec(prev, new_name@));
                }
            },
        }
    }

    /// Flips the done flag of the selected task; a no-op without a selection.
    pub fn toggle_task(&mut self)
        requires
            old(self).wf(),
        ensures
            final(self).wf(),
            final(self)@ == toggle_spec(old(self)@),
    {
        let ghost prev = self@;
        match self.selected {
            Some(selected) => {
                let mut t = self.tasks.remove(selected);
                t.done = !t.done;
                self.tasks.insert(selected, t);
                proof {
                    assert(views_of(self.tasks@) =~= prev.tasks.update(
                        selected as int,
                        TaskView { done: !prev.tasks[selected as int].done, ..prev.tasks[selected as int] },
                    ));
                    assert(self@ =~= toggle_spec(prev));
                }
            },
            None => {
                proof {
                    assert(self@ =~= toggle_spec(prev));
                }
            },
        }
    }

    /// Moves the selection forward one position, clamped at the list end.
    pub fn next_task(&mut self)
        requires
            old(self).wf(),
        ensures
            final(self).wf(),
            final(self)@ == next_sel_spec(old(self)@),
    {
        let ghost prev = self@;
        let n = self.tasks.len();
        let sel = if n == 0 {
            None
        } else {
            match self.selected {
                Some(i) => if i + 1 < n {
                    Some(i + 1)
                } else {
                    Some(n - 1)
                },
                None => Some(0),
            }
        };
        self.selected = sel;
        proof {
            assert(self@ =~= next_sel_spec(prev));
        }
    }

    /// Moves the selection backward one position, clamped at the first task.
    pub fn previous_task(&mut self)
        requires
            old(self).wf(),
        ensures
            final(self).wf(),
            final(self)@ == prev_sel_spec(old(self)@),
    {
        let ghost prev = self@;
        let n = self.tasks.len();
        let sel = if n == 0 {
            None
        } else {
            match self.selected {
                Some(i) => if i == 0 {
                    Some(0)
                } else {
                    Some(i - 1)
                },
                None => Some(0),
            }
        };
        self.selected = sel;
        proof {
            assert(self@ =~= prev_sel_spec(prev));
        }
    }

    /// Removes the selected task and re-derives the selection; a no-op
    /// without a selection.
    pub fn delete_task(&mut self)
        requires
            old(self).wf(),
        ensures
            final(self).wf(),
            final(self)@ == delete_spec(old(self)@),
    {
        let ghost prev = self@;
        match self.selected {
            Some(selected) => {
                self.tasks.remove(selected);
                self.selected = if self.tasks.len() == 0 {
                    None
                } else {
                    Some(if selected == 0 { 0 } else { selected - 1 })
                };
                proof {
                    assert(views_of(self.tasks@) =~= prev.tasks.remove(selected as int));
                    assert(self@ =~= delete_spec(prev));
                }
            },
            None => {
                proof {
                    assert(self@ =~= delete_spec(prev));
                }
            },
        }
    }
}

/// Applying a sequence of additions, first name first.
pub open spec fn add_all(a: AppV, names: Seq<Seq<char>>) -> AppV
    decreases names.len(),
{
    if names.len() == 0 {
        a
    } else {
        add_all(add_spec(a, names[0]), names.drop_first())
    }
}

/// Adding preserves well-formedness, appends tasks whose identifiers
/// continue the allocator one by one, and leaves the earlier tasks alone.
pub proof fn lemma_add_all(a: AppV, names: Seq<Seq<char>>)
    requires
        a.wf(),
    ensures
        add_all(a, names).wf(),
        add_all(a, names).tasks.len() == a.tasks.len() + names.len(),
        add_all(a, names).next_id == a.next_id + names.len(),
        forall|i: int| 0 <= i < a.tasks.len() ==> add_all(a, names).tasks[i] == a.tasks[i],
        forall|i: int|
            a.tasks.len() <= i < add_all(a, names).tasks.len() ==> (#[trigger] add_all(
                a,
                names,
            ).tasks[i]).id == a.next_id + (i - a.tasks.len()),
    decreases names.len(),
{
    if names.len() > 0 {
        let a1 = add_spec(a, names[0]);
        assert(forall|i: int| 0 <= i < a.tasks.len() ==> a1.tasks[i] == a.tasks[i]);
        assert(a1.tasks[a.tasks.len() as int].id == a.next_id);
        assert(a1.wf());
        lemma_add_all(a1, names.drop_first());
        let r = add_all(a, names);
        assert(r == add_all(a1, names.drop_first()));
        assert(forall|i: int| 0 <= i < a1.tasks.len() ==> r.tasks[i] == a1.tasks[i]);
        assert forall|i: int|
            a.tasks.len() <= i < r.tasks.len() implies (#[trigger] r.tasks[i]).id == a.next_id + (
        i - a.tasks.len()) by {
            if i < a1.tasks.len() {
                assert(r.tasks[i] == a1.tasks[i]);
                assert(i == a.tasks.len());
            } else {
                assert(r.tasks[i].id == a1.next_id + (i - a1.tasks.len()));
            }
        }
    }
}

/// For all sequences of additions to an empty store, the resulting
/// identifiers are strictly increasing in list order, hence unique.
pub proof fn lemma_add_ids_strictly_increasing(a: AppV, names: Seq<Seq<char>>)
    requires
        a.wf(),
        a.tasks.len() == 0,
    ensures
        forall|i: int, j: int|
            0 <= i < j < add_all(a, names).tasks.len() ==> (#[trigger] add_all(
                a,
                names,
            ).tasks[i]).id < (#[trigger] add_all(a, names).tasks[j]).id,
{
    lemma_add_all(a, names);
}

/// Toggling the same selection twice restores the state exactly, done flag
/// included.
pub proof fn lemma_toggle_twice(a: AppV)
    requires
        a.wf(),
    ensures
        toggle_spec(toggle_spec(a)) == a,
{
    match a.selected {
        Some(i) => {
            let a1 = toggle_spec(a);
            assert(a1.tasks[i] == TaskView { done: !a.tasks[i].done, ..a.tasks[i] });
            assert(TaskView { done: !a1.tasks[i].done, ..a1.tasks[i] } =~= a.tasks[i]);
            assert(toggle_spec(a1).tasks =~= a.tasks);
            assert(toggle_spec(a1) =~= a);
        },
        None => {},
    }
}

/// Deleting the only task leaves an empty list and no selection.
pub proof fn lemma_delete_last_clears(a: AppV)
    requires
        a.wf(),
        a.tasks.len() == 1,
        a.selected == Some(0int),
    ensures
        delete_spec(a).tasks.len() == 0,
        delete_spec(a).selected is None,
{
}

/// Deleting at a positive selection keeps the list non-empty and moves the
/// selection one position back.
pub proof fn lemma_delete_selects_previous(a: AppV)
    requires
        a.wf(),
        a.selected matches Some(i) && i > 0,
    ensures
        delete_spec(a).tasks.len() == a.tasks.len() - 1,
        delete_spec(a).tasks.len() > 0,
        delete_spec(a).selected == Some(a.selected->0 - 1),
{
}

/// The largest identifier in the list, or -1 when it is empty.
pub open spec fn max_id(ts: Seq<TaskView>) -> int
    decreases ts.len(),
{
    if ts.len() == 0 {
        -1
    } else {
        let m = max_id(ts.drop_last());
        if ts.last().id > m {
            ts.last().id
        } else {
            m
        }
    }
}

/// The allocator's value after loading: one past the largest identifier, or
/// zero for an empty list.
pub open spec fn reseed(ts: Seq<TaskView>) -> int {
    max_id(ts) + 1
}

pub proof fn lemma_max_id(ts: Seq<TaskView>)
    requires
        forall|i: int| 0 <= i < ts.len() ==> (#[trigger] ts[i]).id >= 0,
    ensures
        max_id(ts) >= -1,
        forall|i: int| 0 <= i < ts.len() ==> (#[trigger] ts[i]).id <= max_id(ts),
        ts.len() > 0 ==> exists|i: int| 0 <= i < ts.len() && max_id(ts) == ts[i].id,
    decreases ts.len(),
{
    if ts.len() > 0 {
        lemma_max_id(ts.drop_last());
        assert(forall|i: int| 0 <= i < ts.len() - 1 ==> ts[i] == ts.drop_last()[i]);
        if ts.last().id > max_id(ts.drop_last()) {
            assert(max_id(ts) == ts[ts.len() - 1].id);
        } else {
            if ts.len() > 1 {
                let j = choose|j: int|
                    0 <= j < ts.drop_last().len() && max_id(ts.drop_last())
                        == ts.drop_last()[j].id;
                assert(max_id(ts) == ts[j].id);
            }
        }
    }
}

/// What loading does: absent store means an empty list and allocator zero; a
/// readable store replaces the list and reseeds the allocator; anything else
/// is a deserialization error that leaves the state alone. Loading clears the
/// selection and the edit target.
pub open spec fn load_spec(a: AppV, contents: Option<Seq<char>>) -> Result<AppV, AppError> {
    match contents {
        None => Ok(
            AppV { tasks: Seq::empty(), selected: None, modify_index: None, next_id: 0, ..a },
        ),
        Some(s) => match crate::codec::spec_parse(s) {
            Some(ts) => Ok(
                AppV {
                    tasks: ts,
                    selected: None,
                    modify_index: None,
                    next_id: reseed(ts),
                    ..a
                },
            ),
            None => Err(AppError::Deserialization),
        },
    }
}

impl App {
    /// The text form of the current list, ready to be written to the
    /// persisted store.
    pub fn save_tasks(&self) -> (r: String)
        ensures
            r@ == crate::codec::spec_render(views_of(self.tasks@)),
    {
        crate::codec::render_store(&self.tasks)
    }

    /// Replaces the list from the persisted store's text; `None` stands for
    /// an absent store, which is the empty-list success path, not an error.
    pub fn load_tasks(&mut self, contents: Option<&str>) -> (r: Result<(), AppError>)
        requires
            old(self).wf(),
        ensures
            final(self).wf(),
            match load_spec(
                old(self)@,
                match contents {
                    Some(s) => Some(s@),
                    None => None,
                },
            ) {
                Ok(a2) => r is Ok && final(self)@ == a2,
                Err(e) => r matches Err(e2) && e2 == e && final(self)@ == old(self)@,
            },
    {
        let ghost prev = self@;
        match contents {
            None => {
                self.tasks = Vec::new();
                self.selected = None;
                self.modify_index = None;
                self.next_id = 0;
                proof {
                    assert(views_of(self.tasks@) =~= Seq::<TaskView>::empty());
                    assert(self@ =~= AppV {
                        tasks: Seq::empty(),
                        selected: None,
                        modify_index: None,
                        next_id: 0,
                        ..prev
                    });
                }
                Ok(())
            },
            Some(s) => {
                match crate::codec::parse_store(s) {
                    Some(td) => {
                        let ghost vs = views_of(td.tasks@);
                        proof {
                            crate::codec::lemma_spec_parse_range(s@);
                            lemma_max_id(vs);
                        }
                        self.tasks = td.tasks;
                        self.selected = None;
                        self.modify_index = None;
                        if self.tasks.len() == 0 {
                            self.next_id = 0;
                            proof {
                                assert(vs.len() == 0);
                                assert(reseed(vs) == 0);
                            }
                        } else {
                            let mut m: usize = self.tasks[0].id;
                            let mut i: usize = 1;
                            proof {
                                assert(vs.take(1).drop_last() =~= Seq::<TaskView>::empty());
                                assert(vs.take(1).last() == vs[0]);
                                assert(max_id(Seq::<TaskView>::empty()) == -1);
                                assert(vs[0] == self.tasks@[0]@);
                                assert(m as int == max_id(vs.take(1)));
                            }
                            while i < self.tasks.len()
                                invariant
                                    1 <= i <= self.tasks@.len(),
                                    vs == views_of(self.tasks@),
                                    m as int == max_id(vs.take(i as int)),
                                decreases self.tasks@.len() - i,
                            {
                                proof {
                                    assert(vs.take(i as int + 1).drop_last() =~= vs.take(i as int));
                                    assert(vs.take(i as int + 1).last() == vs[i as int]);
                                    assert(vs[i as int] == self.tasks@[i as int]@);
                                }
                                if self.tasks[i].id > m {
                                    m = self.tasks[i].id;
                                }
                                i = i + 1;
                            }
                            proof {
                                assert(vs.take(vs.len() as int) =~= vs);
                                assert(m as int == max_id(vs));
                                assert(m < usize::MAX) by {
                                    let j = choose|j: int|
                                        0 <= j < vs.len() && max_id(vs) == vs[j].id;
                                    assert(vs[j].id < usize::MAX);
                                }
                            }
                            self.next_id = m + 1;
                        }
                        proof {
                            assert(self@ =~= AppV {
                                tasks: vs,
                                selected: None,
                                modify_index: None,
                                next_id: reseed(vs),
                                ..prev
                            });
                            assert(self.wf()) by {
                                assert(forall|k: int|
                                    0 <= k < vs.len() ==> (#[trigger] vs[k]).id <= max_id(vs));
                            }
                        }
                        Ok(())
                    },
                    None => Err(AppError::Deserialization),
                }
            },
        }
    }
}

/// Error text for each persistence failure, as surfaced to the event loop.
pub open spec fn error_text(e: AppError) -> Seq<char> {
    match e {
        AppError::FileIO => "Error reading or writing to file"@,
        AppError::Serialization => "Error serializing tasks to TOML"@,
        AppError::Deserialization => "Error deserializing tasks from TOML"@,
    }
}

/// Flattens a persistence result into a printable error for the event loop
/// boundary.
pub fn handle_app_error(result: Result<(), AppError>) -> (r: Result<(), String>)
    ensures
        result is Ok <==> r is Ok,
        result matches Err(e) ==> r matches Err(m) && m@ == error_text(e),
{
    match result {
        Ok(()) => Ok(()),
        Err(AppError::FileIO) => Err(String::from_str("Error reading or writing to file")),
        Err(AppError::Serialization) => Err(String::from_str("Error serializing tasks to TOML")),
        Err(AppError::Deserialization) => Err(
            String::from_str("Error deserializing tasks from TOML"),
        ),
    }
}

} // verus!

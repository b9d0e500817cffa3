use expr_proc_macros::machine::{StateFnHandlers, StateResult, SM};
use expr_proc_macros::parse::Fsm1;
use expr_proc_macros::plan::table_is_wf;
use expr_proc_macros::source::{AttrItem, FnItem, FsmSource};
use std::ops::{Deref, DerefMut};

/// A function marked `#[fsm1_state]` (or `#[fsm1_state(parent)]`).
fn state_fn(name: &str, parent: Option<&str>) -> FnItem {
    FnItem {
        name: name.to_string(),
        attrs: vec![AttrItem {
            ident: Some("fsm1_state".to_string()),
            single_ident_arg: parent.map(|p| p.to_string()),
        }],
        macros: vec![],
    }
}

/// A function without attributes.
fn plain_fn(name: &str) -> FnItem {
    FnItem { name: name.to_string(), attrs: vec![], macros: vec![] }
}

/// The machine that `fsm1!` builds for a struct `ident` and these functions.
fn machine(ident: &str, fns: Vec<FnItem>) -> SM {
    let fsm = Fsm1::parse(FsmSource { ident: ident.to_string(), fields_named: true, fns }).unwrap();
    assert_eq!(fsm.check(), None);
    let plan = fsm.plan();
    let table = plan.state_table();
    assert!(table_is_wf(&table));
    SM::new(table, plan.initial_state_hdl)
}

/// A declared state machine: the runtime part and the user's data, whose
/// functions are the states' functions.
struct Fsm<D: StateFnHandlers> {
    sm: SM,
    data: D,
}

impl<D: StateFnHandlers> Fsm<D> {
    /// What `Default::default()` gives: nothing queued for entry.
    fn default_with(sm: SM, data: D) -> Self {
        Fsm { sm, data }
    }

    /// What `new()` gives: the initial state and its ancestors queued for entry.
    fn new_with(sm: SM, data: D) -> Self {
        let mut fsm = Fsm { sm, data };
        fsm.sm.initial_enter_fns_hdls();
        fsm
    }

    fn dispatch(&mut self) {
        self.sm.dispatch(&mut self.data).expect("transition to a state of the machine");
    }
}

impl<D: StateFnHandlers> Deref for Fsm<D> {
    type Target = D;
    fn deref(&self) -> &D {
        &self.data
    }
}

impl<D: StateFnHandlers> DerefMut for Fsm<D> {
    fn deref_mut(&mut self) -> &mut D {
        &mut self.data
    }
}

// ---------------------------------------------------------------------------
// A machine with a single state `initial` that handles everything.

#[derive(Default)]
struct Single {}

impl StateFnHandlers for Single {
    fn enter(&mut self, _hdl: usize) {}
    fn process(&mut self, _hdl: usize) -> StateResult {
        StateResult::Handled
    }
    fn exit(&mut self, _hdl: usize) {}
}

type Test = Fsm<Single>;

impl Default for Test {
    fn default() -> Self {
        Fsm::default_with(machine("Test", vec![state_fn("initial", None)]), Single {})
    }
}

impl Test {
    fn new() -> Self {
        Fsm::new_with(machine("Test", vec![state_fn("initial", None)]), Single {})
    }
}

#[test]
fn test_initialization_via_default() {
    let fsm: Test = Default::default();
    assert_eq!(fsm.sm.current_state_fns_handle as usize, 0);
    assert_eq!(fsm.sm.previous_state_fns_handle as usize, 0);
    assert!(fsm.sm.current_state_changed);
}

#[test]
fn test_initialization_via_new() {
    let mut fsm = Test::new();
    assert_eq!(fsm.sm.current_state_fns_handle as usize, 0);
    assert_eq!(fsm.sm.previous_state_fns_handle as usize, 0);
    assert!(fsm.sm.current_state_changed);

    fsm.dispatch();
    assert_eq!(fsm.sm.current_state_fns_handle as usize, 0);
    assert_eq!(fsm.sm.previous_state_fns_handle as usize, 0);
    assert!(!fsm.sm.current_state_changed);
}

// ---------------------------------------------------------------------------
// `initial` moves to `done`, which handles everything.

#[derive(Default)]
struct InitialDone {}

impl StateFnHandlers for InitialDone {
    fn enter(&mut self, _hdl: usize) {}
    fn process(&mut self, hdl: usize) -> StateResult {
        match hdl {
            0 => StateResult::TransitionTo(1usize),
            _ => StateResult::Handled,
        }
    }
    fn exit(&mut self, _hdl: usize) {}
}

fn initial_done() -> SM {
    machine("TestDispatch", vec![state_fn("initial", None), state_fn("done", None)])
}

#[test]
fn test_dispatch() {
    let mut fsm = Fsm::new_with(initial_done(), InitialDone {});
    assert_eq!(fsm.sm.current_state_fns_handle as usize, 0);
    assert_eq!(fsm.sm.previous_state_fns_handle as usize, 0);
    assert!(fsm.sm.current_state_changed);

    fsm.dispatch();
    assert_eq!(fsm.sm.current_state_fns_handle as usize, 1);
    assert_eq!(fsm.sm.previous_state_fns_handle as usize, 0);
    assert!(fsm.sm.current_state_changed);

    fsm.dispatch();
    assert_eq!(fsm.sm.current_state_fns_handle as usize, 1);
    assert_eq!(fsm.sm.previous_state_fns_handle as usize, 0);
    assert!(!fsm.sm.current_state_changed);

    fsm.dispatch();
    assert_eq!(fsm.sm.current_state_fns_handle as usize, 1);
    assert_eq!(fsm.sm.previous_state_fns_handle as usize, 0);
    assert!(!fsm.sm.current_state_changed);
}

#[test]
fn test_transition_to() {
    let mut fsm = Fsm::new_with(initial_done(), InitialDone {});
    assert_eq!(fsm.sm.current_state_fns_handle as usize, 0);
    assert_eq!(fsm.sm.previous_state_fns_handle as usize, 0);
    assert!(fsm.sm.current_state_changed);

    fsm.dispatch();
    assert_eq!(fsm.sm.current_state_fns_handle as usize, 1);
    assert_eq!(fsm.sm.previous_state_fns_handle as usize, 0);
    assert!(fsm.sm.current_state_changed);
}

// ---------------------------------------------------------------------------
// Counting the calls of `initial` and `done` and of their enter and exit
// functions, where the declaration has them.

#[derive(Default)]
struct Counts {
    initial_enter_cnt: usize,
    initial_cnt: usize,
    initial_exit_cnt: usize,
    done_enter_cnt: usize,
    done_cnt: usize,
    done_exit_cnt: usize,
}

impl StateFnHandlers for Counts {
    fn enter(&mut self, hdl: usize) {
        match hdl {
            0 => self.initial_enter_cnt += 1,
            _ => self.done_enter_cnt += 1,
        }
    }
    fn process(&mut self, hdl: usize) -> StateResult {
        match hdl {
            0 => {
                self.initial_cnt += 1;
                StateResult::TransitionTo(1usize)
            }
            _ => {
                self.done_cnt += 1;
                StateResult::Handled
            }
        }
    }
    fn exit(&mut self, hdl: usize) {
        match hdl {
            0 => self.initial_exit_cnt += 1,
            _ => self.done_exit_cnt += 1,
        }
    }
}

fn assert_counts(fsm: &Fsm<Counts>, expected: [usize; 6]) {
    assert_eq!(fsm.initial_enter_cnt, expected[0]);
    assert_eq!(fsm.initial_cnt, expected[1]);
    assert_eq!(fsm.initial_exit_cnt, expected[2]);
    assert_eq!(fsm.done_enter_cnt, expected[3]);
    assert_eq!(fsm.done_cnt, expected[4]);
    assert_eq!(fsm.done_exit_cnt, expected[5]);
}

#[test]
fn test_no_enter_exit() {
    let sm = machine("Test", vec![state_fn("initial", None), state_fn("done", None)]);
    let mut fsm = Fsm::new_with(sm, Counts::default());
    assert_counts(&fsm, [0, 0, 0, 0, 0, 0]);

    fsm.dispatch();
    assert_counts(&fsm, [0, 1, 0, 0, 0, 0]);

    fsm.dispatch();
    assert_counts(&fsm, [0, 1, 0, 0, 1, 0]);
}

#[test]
fn test_enter() {
    let sm = machine(
        "Test",
        vec![
            plain_fn("initial_enter"),
            state_fn("initial", None),
            state_fn("done", None),
            plain_fn("done_enter"),
        ],
    );
    let mut fsm = Fsm::new_with(sm, Counts::default());
    assert_counts(&fsm, [0, 0, 0, 0, 0, 0]);

    fsm.dispatch();
    assert_counts(&fsm, [1, 1, 0, 0, 0, 0]);

    fsm.dispatch();
    assert_counts(&fsm, [1, 1, 0, 1, 1, 0]);
}

#[test]
fn test_exit() {
    let sm = machine(
        "Test",
        vec![
            state_fn("initial", None),
            plain_fn("initial_exit"),
            plain_fn("done_exit"),
            state_fn("done", None),
        ],
    );
    let mut fsm = Fsm::new_with(sm, Counts::default());
    assert_counts(&fsm, [0, 0, 0, 0, 0, 0]);

    fsm.dispatch();
    assert_counts(&fsm, [0, 1, 1, 0, 0, 0]);

    fsm.dispatch();
    assert_counts(&fsm, [0, 1, 1, 0, 1, 0]);
}

// ---------------------------------------------------------------------------
// `initial` moves to `do_work`, which handles two dispatches and then moves
// to `done`; every state has enter and exit functions.

#[derive(Default)]
struct Work {
    initial_enter_cnt: usize,
    initial_cnt: usize,
    initial_exit_cnt: usize,
    do_work_enter_cnt: usize,
    do_work_cnt: usize,
    do_work_exit_cnt: usize,
    done_enter_cnt: usize,
    done_cnt: usize,
    done_exit_cnt: usize,
}

impl StateFnHandlers for Work {
    fn enter(&mut self, hdl: usize) {
        match hdl {
            0 => self.initial_enter_cnt += 1,
            1 => self.do_work_enter_cnt += 1,
            _ => self.done_enter_cnt += 1,
        }
    }
    fn process(&mut self, hdl: usize) -> StateResult {
        match hdl {
            0 => {
                self.initial_cnt += 1;
                StateResult::TransitionTo(1)
            }
            1 => {
                self.do_work_cnt += 1;
                if self.do_work_cnt < 3 {
                    StateResult::Handled
                } else {
                    StateResult::TransitionTo(2)
                }
            }
            _ => {
                self.done_cnt += 1;
                StateResult::Handled
            }
        }
    }
    fn exit(&mut self, hdl: usize) {
        match hdl {
            0 => self.initial_exit_cnt += 1,
            1 => self.do_work_exit_cnt += 1,
            _ => self.done_exit_cnt += 1,
        }
    }
}

fn assert_work(fsm: &Fsm<Work>, expected: [usize; 9]) {
    assert_eq!(fsm.initial_enter_cnt, expected[0]);
    assert_eq!(fsm.initial_cnt, expected[1]);
    assert_eq!(fsm.initial_exit_cnt, expected[2]);
    assert_eq!(fsm.do_work_enter_cnt, expected[3]);
    assert_eq!(fsm.do_work_cnt, expected[4]);
    assert_eq!(fsm.do_work_exit_cnt, expected[5]);
    assert_eq!(fsm.done_enter_cnt, expected[6]);
    assert_eq!(fsm.done_cnt, expected[7]);
    assert_eq!(fsm.done_exit_cnt, expected[8]);
}

#[test]
fn test_both_enter_exit() {
    let sm = machine(
        "Test",
        vec![
            plain_fn("initial_enter"),
            state_fn("initial", None),
            plain_fn("initial_exit"),
            plain_fn("do_work_exit"),
            state_fn("do_work", None),
            plain_fn("do_work_enter"),
            plain_fn("done_exit"),
            state_fn("done", None),
            plain_fn("done_enter"),
        ],
    );
    let mut fsm = Fsm::new_with(sm, Work::default());
    assert_work(&fsm, [0, 0, 0, 0, 0, 0, 0, 0, 0]);

    fsm.dispatch();
    assert_work(&fsm, [1, 1, 1, 0, 0, 0, 0, 0, 0]);

    fsm.dispatch();
    assert_work(&fsm, [1, 1, 1, 1, 1, 0, 0, 0, 0]);

    fsm.dispatch();
    assert_work(&fsm, [1, 1, 1, 1, 2, 0, 0, 0, 0]);

    fsm.dispatch();
    assert_work(&fsm, [1, 1, 1, 1, 3, 1, 0, 0, 0]);

    fsm.dispatch();
    assert_work(&fsm, [1, 1, 1, 1, 3, 1, 1, 1, 0]);

    fsm.dispatch();
    assert_work(&fsm, [1, 1, 1, 1, 3, 1, 1, 2, 0]);
}

// ---------------------------------------------------------------------------
// The program in the crate's example: `MyFsm` with a counter.

#[derive(Default)]
struct MyFsmData {
    a_i32: i32,
}

impl MyFsmData {
    fn non_state_fn(&mut self) {
        self.a_i32 += 1;
    }
}

impl StateFnHandlers for MyFsmData {
    fn enter(&mut self, _hdl: usize) {}
    fn process(&mut self, hdl: usize) -> StateResult {
        match hdl {
            0 => {
                self.non_state_fn();
                StateResult::TransitionTo(1)
            }
            1 => {
                self.a_i32 += 1;
                StateResult::TransitionTo(2)
            }
            _ => {
                self.a_i32 += 1;
                StateResult::Handled
            }
        }
    }
    fn exit(&mut self, _hdl: usize) {}
}

fn my_fsm() -> SM {
    machine(
        "MyFsm",
        vec![
            plain_fn("non_state_fn"),
            plain_fn("initial_enter"),
            state_fn("initial", None),
            plain_fn("initial_exit"),
            state_fn("do_work", None),
            state_fn("done", None),
        ],
    )
}

#[test]
fn my_fsm_runs_through_its_states() {
    let mut my_new_fsm = Fsm::new_with(my_fsm(), MyFsmData::default());
    my_new_fsm.a_i32 = 321;
    assert_eq!(my_new_fsm.a_i32, 321);

    let mut my_fsm = Fsm::default_with(my_fsm(), MyFsmData::default());
    assert_eq!(my_fsm.sm.current_state_fns_handle as usize, 0);
    assert_eq!(my_fsm.sm.previous_state_fns_handle as usize, 0);
    assert!(my_fsm.sm.current_state_changed);

    my_fsm.a_i32 = 123;

    my_fsm.dispatch();
    assert_eq!(my_fsm.a_i32, 124);
    assert_eq!(my_fsm.sm.current_state_fns_handle as usize, 1);
    assert_eq!(my_fsm.sm.previous_state_fns_handle as usize, 0);
    assert!(my_fsm.sm.current_state_changed);

    my_fsm.dispatch();
    assert_eq!(my_fsm.a_i32, 125);
    assert_eq!(my_fsm.sm.current_state_fns_handle as usize, 2);
    assert_eq!(my_fsm.sm.previous_state_fns_handle as usize, 1);
    assert!(my_fsm.sm.current_state_changed);

    my_fsm.dispatch();
    assert_eq!(my_fsm.a_i32, 126);
    assert_eq!(my_fsm.sm.current_state_fns_handle as usize, 2);
    assert_eq!(my_fsm.sm.previous_state_fns_handle as usize, 1);
    assert!(!my_fsm.sm.current_state_changed);

    my_fsm.dispatch();
    assert_eq!(my_fsm.a_i32, 127);
    assert_eq!(my_fsm.sm.current_state_fns_handle as usize, 2);
    assert_eq!(my_fsm.sm.previous_state_fns_handle as usize, 1);
    assert!(!my_fsm.sm.current_state_changed);
    assert_eq!(my_fsm.sm.state_name(), "done");
}

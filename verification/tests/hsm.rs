use expr_proc_macros::machine::{chain_ends_at, ChainStep, DispatchError, StateFnHandlers, StateFns, StateResult, SM};
use expr_proc_macros::plan::table_is_wf;

fn row(name: &str, parent: Option<usize>, has_enter: bool, has_exit: bool) -> StateFns {
    StateFns { name: name.to_string(), parent, has_enter, has_exit, active: false }
}

/// Records every call, and answers each process call from a script.
struct Log {
    calls: Vec<String>,
    answers: Vec<StateResult>,
}

impl Log {
    fn new(answers: Vec<StateResult>) -> Self {
        Log { calls: vec![], answers }
    }
}

impl StateFnHandlers for Log {
    fn enter(&mut self, hdl: usize) {
        self.calls.push(format!("enter {}", hdl));
    }
    fn process(&mut self, hdl: usize) -> StateResult {
        self.calls.push(format!("process {}", hdl));
        self.answers.remove(0)
    }
    fn exit(&mut self, hdl: usize) {
        self.calls.push(format!("exit {}", hdl));
    }
}

fn calls(log: &mut Log) -> Vec<String> {
    std::mem::take(&mut log.calls)
}

#[test]
fn readme_hsm_child_defers_to_base() {
    // base handles; initial (child of base) does not.
    let table = vec![row("base", None, false, false), row("initial", Some(0), false, false)];
    let mut sm = SM::new(table, 1);
    sm.initial_enter_fns_hdls();
    assert_eq!(sm.enter_fns_hdls, vec![1, 0]);
    let mut log = Log::new(vec![StateResult::NotHandled, StateResult::Handled]);
    assert_eq!(sm.dispatch(&mut log), Ok(None));
    assert_eq!(calls(&mut log), vec!["process 1", "process 0"]);
    assert_eq!(sm.current_state_fns_handle, 1);
    assert!(!sm.current_state_changed);
}

#[test]
fn not_handled_at_the_root_does_nothing() {
    let table = vec![row("initial", None, false, false)];
    let mut sm = SM::new(table, 0);
    let mut log = Log::new(vec![StateResult::NotHandled]);
    assert_eq!(sm.dispatch(&mut log), Ok(None));
    assert_eq!(calls(&mut log), vec!["process 0"]);
    assert_eq!(sm.current_state_fns_handle, 0);
}

fn family() -> Vec<StateFns> {
    // 0 base (enter, exit), 1 initial child of base (enter, exit),
    // 2 other child of base (enter, exit), 3 top (no parent, enter, exit)
    vec![
        row("base", None, true, true),
        row("initial", Some(0), true, true),
        row("other", Some(0), true, true),
        row("top", None, true, true),
    ]
}

#[test]
fn entering_runs_outermost_first() {
    let table = family();
    assert!(table_is_wf(&table));
    let mut sm = SM::new(table, 1);
    sm.initial_enter_fns_hdls();
    let mut log = Log::new(vec![StateResult::Handled]);
    assert_eq!(sm.dispatch(&mut log), Ok(None));
    assert_eq!(calls(&mut log), vec!["enter 0", "enter 1", "process 1"]);
    assert!(sm.state_fns[0].active && sm.state_fns[1].active);
    assert!(!sm.state_fns[2].active && !sm.state_fns[3].active);
}

#[test]
fn moving_to_a_sibling_keeps_the_common_parent() {
    let mut sm = SM::new(family(), 1);
    sm.initial_enter_fns_hdls();
    let mut log = Log::new(vec![StateResult::TransitionTo(2), StateResult::Handled]);
    assert_eq!(sm.dispatch(&mut log), Ok(Some(2)));
    assert_eq!(calls(&mut log), vec!["enter 0", "enter 1", "process 1", "exit 1"]);
    assert_eq!(sm.enter_fns_hdls, vec![2]);
    assert_eq!(sm.current_state_fns_handle, 2);
    assert_eq!(sm.previous_state_fns_handle, 1);
    assert_eq!(sm.state_name(), "other");
    assert_eq!(sm.dispatch(&mut log), Ok(None));
    assert_eq!(calls(&mut log), vec!["enter 2", "process 2"]);
}

#[test]
fn moving_to_another_tree_leaves_every_ancestor() {
    let mut sm = SM::new(family(), 1);
    sm.initial_enter_fns_hdls();
    let mut log = Log::new(vec![StateResult::TransitionTo(3), StateResult::Handled]);
    assert_eq!(sm.dispatch(&mut log), Ok(Some(3)));
    assert_eq!(calls(&mut log), vec!["enter 0", "enter 1", "process 1", "exit 1", "exit 0"]);
    assert_eq!(sm.dispatch(&mut log), Ok(None));
    assert_eq!(calls(&mut log), vec!["enter 3", "process 3"]);
}

#[test]
fn a_parent_may_order_the_transition() {
    let mut sm = SM::new(family(), 1);
    sm.initial_enter_fns_hdls();
    let mut log = Log::new(vec![StateResult::NotHandled, StateResult::TransitionTo(2)]);
    assert_eq!(sm.dispatch(&mut log), Ok(Some(2)));
    assert_eq!(
        calls(&mut log),
        vec!["enter 0", "enter 1", "process 1", "process 0", "exit 1"]
    );
    assert_eq!(sm.current_state_fns_handle, 2);
}

#[test]
fn transition_to_itself_exits_and_reenters() {
    let mut sm = SM::new(family(), 1);
    sm.initial_enter_fns_hdls();
    let mut log = Log::new(vec![StateResult::TransitionTo(1), StateResult::Handled]);
    assert_eq!(sm.dispatch(&mut log), Ok(Some(1)));
    assert_eq!(calls(&mut log), vec!["enter 0", "enter 1", "process 1", "exit 1"]);
    assert_eq!(sm.previous_state_fns_handle, 1);
    assert_eq!(sm.dispatch(&mut log), Ok(None));
    assert_eq!(calls(&mut log), vec!["enter 1", "process 1"]);
}

#[test]
fn a_parent_without_enter_function_never_becomes_active() {
    // base has no enter function, so it is never marked active and a move
    // between its children leaves and re-enters it.
    let table = vec![
        row("base", None, false, true),
        row("initial", Some(0), true, true),
        row("other", Some(0), true, true),
    ];
    let mut sm = SM::new(table, 1);
    sm.initial_enter_fns_hdls();
    let mut log = Log::new(vec![StateResult::TransitionTo(2)]);
    assert_eq!(sm.dispatch(&mut log), Ok(Some(2)));
    assert_eq!(calls(&mut log), vec!["enter 1", "process 1", "exit 1", "exit 0"]);
    assert_eq!(sm.enter_fns_hdls, vec![2, 0]);
}

#[test]
fn transition_outside_the_table_is_refused() {
    let mut sm = SM::new(vec![row("initial", None, true, true)], 0);
    sm.initial_enter_fns_hdls();
    let mut log = Log::new(vec![StateResult::TransitionTo(7)]);
    assert_eq!(sm.dispatch(&mut log), Err(DispatchError::NoSuchState(7)));
    assert_eq!(calls(&mut log), vec!["enter 0", "process 0"]);
    assert_eq!(sm.current_state_fns_handle, 0);
    assert!(!sm.current_state_changed);
}

#[test]
fn dispatch_from_a_given_state() {
    let mut sm = SM::new(family(), 1);
    let mut log = Log::new(vec![StateResult::Handled]);
    assert_eq!(sm.dispatch_hdl(3, &mut log), Ok(None));
    assert_eq!(calls(&mut log), vec!["process 3"]);
}

#[test]
fn exit_and_enter_lists_of_a_transition() {
    let mut sm = SM::new(family(), 1);
    sm.state_fns[0].active = true;
    sm.setup_exit_enter_fns_hdls(2);
    assert_eq!(sm.enter_fns_hdls, vec![2]);
    assert_eq!(sm.exit_fns_hdls, vec![1]);

    let mut sm = SM::new(family(), 1);
    sm.setup_exit_enter_fns_hdls(2);
    assert_eq!(sm.enter_fns_hdls, vec![2, 0]);
    assert_eq!(sm.exit_fns_hdls, vec![1, 0]);

    let mut sm = SM::new(family(), 1);
    sm.setup_exit_fns_hdls(Some(1));
    assert_eq!(sm.exit_fns_hdls, vec![1]);
    let mut sm = SM::new(family(), 1);
    sm.setup_exit_fns_hdls(Some(0));
    assert_eq!(sm.exit_fns_hdls, vec![1]);
    let mut sm = SM::new(family(), 1);
    sm.setup_exit_fns_hdls(None);
    assert_eq!(sm.exit_fns_hdls, vec![1, 0]);
}

#[test]
fn chain_steps() {
    let sm = SM::new(family(), 1);
    assert_eq!(sm.chain_step(1, StateResult::NotHandled), ChainStep::AskParent(0));
    assert_eq!(sm.chain_step(0, StateResult::NotHandled), ChainStep::Done);
    assert_eq!(sm.chain_step(1, StateResult::Handled), ChainStep::Done);
    assert_eq!(sm.chain_step(0, StateResult::TransitionTo(3)), ChainStep::Transition(3));
}

#[test]
fn a_flat_machine_exits_now_and_enters_next() {
    let table = vec![row("initial", None, true, true), row("done", None, true, true)];
    let mut sm = SM::new(table, 0);
    sm.initial_enter_fns_hdls();
    let mut log = Log::new(vec![
        StateResult::TransitionTo(1),
        StateResult::Handled,
        StateResult::Handled,
    ]);
    assert_eq!(sm.dispatch(&mut log), Ok(Some(1)));
    assert_eq!(calls(&mut log), vec!["enter 0", "process 0", "exit 0"]);
    assert_eq!(sm.dispatch(&mut log), Ok(None));
    assert_eq!(calls(&mut log), vec!["enter 1", "process 1"]);
    assert_eq!(sm.dispatch(&mut log), Ok(None));
    assert_eq!(calls(&mut log), vec!["process 1"]);
    assert_eq!(sm.current_state_fns_handle, 1);
    assert_eq!(sm.previous_state_fns_handle, 0);
}

#[test]
fn a_loop_of_parents_that_is_never_reached_does_not_matter() {
    // 1 and 2 are each other's parent; 0 never moves there.
    let table = vec![row("initial", None, true, true), row("a", Some(2), false, false), row("b", Some(1), false, false)];
    assert!(!table_is_wf(&table));
    assert!(chain_ends_at(&table, 0));
    assert!(!chain_ends_at(&table, 1));
    let mut sm = SM::new(table, 0);
    sm.initial_enter_fns_hdls();
    let mut log = Log::new(vec![StateResult::Handled, StateResult::TransitionTo(1)]);
    assert_eq!(sm.dispatch(&mut log), Ok(None));
    assert_eq!(calls(&mut log), vec!["enter 0", "process 0"]);
    assert_eq!(sm.dispatch(&mut log), Err(DispatchError::ParentLoop(1)));
    assert_eq!(calls(&mut log), vec!["process 0"]);
    assert_eq!(sm.current_state_fns_handle, 0);
}

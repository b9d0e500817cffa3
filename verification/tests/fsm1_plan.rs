use expr_proc_macros::parse::{Fsm1, Fsm1ParseError, Init, InitParseError, InitSource};
use expr_proc_macros::plan::{table_is_wf, Fsm1Failure};
use expr_proc_macros::source::{AttrItem, FnItem, FsmSource, MacroItem};

fn attr(ident: Option<&str>, arg: Option<&str>) -> AttrItem {
    AttrItem { ident: ident.map(|s| s.to_string()), single_ident_arg: arg.map(|s| s.to_string()) }
}

fn state_fn(name: &str, parent: Option<&str>) -> FnItem {
    FnItem { name: name.to_string(), attrs: vec![attr(Some("fsm1_state"), parent)], macros: vec![] }
}

fn plain_fn(name: &str) -> FnItem {
    FnItem { name: name.to_string(), attrs: vec![], macros: vec![] }
}

fn mac(name: &str, tokens: &[&str]) -> MacroItem {
    MacroItem { name: Some(name.to_string()), tokens: tokens.iter().map(|t| t.to_string()).collect() }
}

fn with_macros(mut f: FnItem, macros: Vec<MacroItem>) -> FnItem {
    f.macros = macros;
    f
}

fn parse(fns: Vec<FnItem>) -> Fsm1 {
    Fsm1::parse(FsmSource { ident: "MyFsm".to_string(), fields_named: true, fns }).unwrap()
}

#[test]
fn struct_without_named_fields_is_refused() {
    let r = Fsm1::parse(FsmSource {
        ident: "MyFsm".to_string(),
        fields_named: false,
        fns: vec![state_fn("initial", None)],
    });
    assert!(matches!(r, Err(Fsm1ParseError::ExpectingFsmStruct)));
}

#[test]
fn only_marked_functions_are_states() {
    let fsm = parse(vec![
        plain_fn("non_state_fn"),
        plain_fn("initial_enter"),
        state_fn("initial", None),
        plain_fn("initial_exit"),
        state_fn("do_work", None),
        FnItem {
            name: "done".to_string(),
            attrs: vec![attr(Some("allow"), Some("unused")), attr(None, None), attr(Some("fsm1_state"), None)],
            macros: vec![],
        },
    ]);
    assert_eq!(fsm.fsm_ident, "MyFsm");
    assert_eq!(fsm.fsm_fns.len(), 6);
    let names: Vec<&str> =
        fsm.fsm_state_fn_idents.iter().map(|s| s.process_fn_ident.as_str()).collect();
    assert_eq!(names, vec!["initial", "do_work", "done"]);
    let initial = &fsm.fsm_state_fn_idents[0];
    assert_eq!(initial.enter_fn_ident.as_deref(), Some("initial_enter"));
    assert_eq!(initial.exit_fn_ident.as_deref(), Some("initial_exit"));
    assert_eq!(initial.parent_fn_ident, None);
    assert_eq!(fsm.fsm_state_fn_idents[1].enter_fn_ident, None);
    assert_eq!(fsm.fsm_state_fn_idents[1].exit_fn_ident, None);
}

#[test]
fn first_state_attribute_names_the_parent() {
    let fsm = parse(vec![
        state_fn("base", None),
        FnItem {
            name: "initial".to_string(),
            attrs: vec![attr(Some("fsm1_state"), Some("base")), attr(Some("fsm1_state"), Some("other"))],
            macros: vec![],
        },
    ]);
    assert_eq!(fsm.fsm_state_fn_idents[1].parent_fn_ident.as_deref(), Some("base"));
    assert_eq!(fsm.check(), None);
    let plan = fsm.plan();
    assert_eq!(plan.state_fns[0].parent, None);
    assert_eq!(plan.state_fns[1].parent, Some(0));
    assert_eq!(plan.initial_state_hdl, 1);
}

#[test]
fn plan_has_names_functions_and_handles() {
    let fsm = parse(vec![
        plain_fn("initial_enter"),
        with_macros(
            state_fn("initial", None),
            vec![mac("println", &["\"hi\""]), mac("transition_to", &["done"])],
        ),
        with_macros(state_fn("done", None), vec![mac("transition_to", &["initial"])]),
        plain_fn("done_exit"),
    ]);
    assert_eq!(fsm.check(), None);
    let plan = fsm.plan();
    assert_eq!(plan.initial_state_hdl, 0);
    assert_eq!(plan.state_fns.len(), 2);
    assert_eq!(plan.state_fns[0].name, "initial");
    assert_eq!(plan.state_fns[0].enter_fn.as_deref(), Some("initial_enter"));
    assert_eq!(plan.state_fns[0].exit_fn, None);
    assert_eq!(plan.state_fns[1].name, "done");
    assert_eq!(plan.state_fns[1].enter_fn, None);
    assert_eq!(plan.state_fns[1].exit_fn.as_deref(), Some("done_exit"));
    assert_eq!(plan.transitions, vec![vec![], vec![None, Some(1)], vec![Some(0)], vec![]]);

    let table = plan.state_table();
    assert_eq!(table.len(), 2);
    assert!(table[0].has_enter && !table[0].has_exit && !table[0].active);
    assert!(!table[1].has_enter && table[1].has_exit && !table[1].active);
    assert!(table_is_wf(&table));
}

#[test]
fn later_state_of_the_same_name_wins() {
    let fsm = parse(vec![
        state_fn("initial", None),
        state_fn("twice", None),
        state_fn("twice", None),
        with_macros(plain_fn("helper"), vec![mac("transition_to", &["twice"])]),
    ]);
    assert_eq!(fsm.check(), None);
    assert_eq!(fsm.plan().transitions[3], vec![Some(2)]);
}

#[test]
fn second_initial_state_fails() {
    let fsm = parse(vec![state_fn("initial", None), state_fn("initial", None)]);
    assert_eq!(fsm.check(), Some(Fsm1Failure::DuplicateInitial { first: 0, state: 1 }));
}

#[test]
fn third_initial_state_names_the_first() {
    let fsm = parse(vec![
        state_fn("start", None),
        state_fn("initial", None),
        plain_fn("initial"),
        state_fn("initial", None),
    ]);
    assert_eq!(fsm.check(), Some(Fsm1Failure::DuplicateInitial { first: 1, state: 2 }));
}

#[test]
fn undefined_parent_fails() {
    let fsm = parse(vec![state_fn("initial", Some("nope"))]);
    assert_eq!(fsm.check(), Some(Fsm1Failure::UndefinedParent { state: 0 }));
}

#[test]
fn a_plain_function_is_no_parent() {
    let fsm = parse(vec![plain_fn("base"), state_fn("initial", Some("base"))]);
    assert_eq!(fsm.check(), Some(Fsm1Failure::UndefinedParent { state: 0 }));
}

#[test]
fn missing_initial_state_fails() {
    let fsm = parse(vec![state_fn("start", None), plain_fn("initial")]);
    assert_eq!(fsm.check(), Some(Fsm1Failure::NoInitialState));
}

#[test]
fn state_failures_come_before_a_missing_initial() {
    let fsm = parse(vec![state_fn("start", Some("nope"))]);
    assert_eq!(fsm.check(), Some(Fsm1Failure::UndefinedParent { state: 0 }));
}

#[test]
fn transition_without_parameter_fails() {
    let fsm = parse(vec![with_macros(state_fn("initial", None), vec![mac("transition_to", &[])])]);
    assert_eq!(fsm.check(), Some(Fsm1Failure::TransitionWithoutParameter { fun: 0, mac: 0 }));
}

#[test]
fn transition_with_two_parameters_fails() {
    let fsm = parse(vec![
        state_fn("initial", None),
        with_macros(plain_fn("f"), vec![mac("println", &[]), mac("transition_to", &["a", "b"])]),
    ]);
    assert_eq!(fsm.check(), Some(Fsm1Failure::TransitionWithManyParameters { fun: 1, mac: 1 }));
}

#[test]
fn transition_to_unknown_state_fails() {
    let fsm = parse(vec![
        with_macros(state_fn("initial", None), vec![mac("transition_to", &["nowhere"])]),
        with_macros(state_fn("done", None), vec![mac("transition_to", &[])]),
    ]);
    assert_eq!(fsm.check(), Some(Fsm1Failure::TransitionToUnknownState { fun: 0, mac: 0 }));
}

#[test]
fn transition_to_a_plain_function_fails() {
    let fsm = parse(vec![
        with_macros(state_fn("initial", None), vec![mac("transition_to", &["helper"])]),
        plain_fn("helper"),
    ]);
    assert_eq!(fsm.check(), Some(Fsm1Failure::TransitionToUnknownState { fun: 0, mac: 0 }));
}

#[test]
fn looping_parents_cannot_run() {
    let fsm = parse(vec![state_fn("initial", Some("b")), state_fn("b", Some("initial"))]);
    assert_eq!(fsm.check(), None);
    let table = fsm.plan().state_table();
    assert_eq!(table[0].parent, Some(1));
    assert_eq!(table[1].parent, Some(0));
    assert!(!table_is_wf(&table));
}

#[test]
fn init_requires_named_fields() {
    let ok = Init::parse(InitSource {
        struct_name: "X".to_string(),
        fields_named: true,
        fn_name: "process".to_string(),
    })
    .unwrap();
    assert_eq!(ok.struct_name, "X");
    assert_eq!(ok.fn_name, "process");
    let err = Init::parse(InitSource {
        struct_name: "X".to_string(),
        fields_named: false,
        fn_name: "process".to_string(),
    });
    assert!(matches!(err, Err(InitParseError::ExpectingFsmStruct)));
}

use expr_proc_macros::tokens::{fsm1_state, verbatim, verbatium};
use proc_macro2::TokenStream;

fn tokens(text: &str) -> TokenStream {
    text.parse().unwrap()
}

#[test]
fn verbatim_returns_its_input() {
    let input = tokens("println!(\"hello, {}\", \"world\")");
    assert_eq!(verbatim(input.clone()).to_string(), input.to_string());
}

#[test]
fn verbatium_returns_its_input() {
    let input = tokens("a + b");
    assert_eq!(verbatium(input.clone()).to_string(), "a + b");
}

#[test]
fn fsm1_state_returns_the_function() {
    let item = tokens("fn initial(&mut self) -> StateResult { StateResult::Handled }");
    let out = fsm1_state(tokens("base"), item.clone());
    assert_eq!(out.to_string(), item.to_string());
}

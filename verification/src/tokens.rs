//! The macros that hand their input back unchanged.
use proc_macro2::TokenStream;
use vstd::prelude::*;

verus! {

/// `proc_macro2::TokenStream`, a stream of tokens as a macro receives it.
/// Declared so that verified code can carry such streams; nothing of their
/// contents is known to the verifier.
#[verifier::external_type_specification]
#[verifier::external_body]
pub struct ExTokenStream(proc_macro2::TokenStream);

/// `verbatim!`: returns the input tokens as output.
pub fn verbatim(input: TokenStream) -> (output: TokenStream)
    ensures
        output == input,
{
    input
}

/// `verbatium!`: returns the input tokens as output.
pub fn verbatium(input: TokenStream) -> (output: TokenStream)
    ensures
        output == input,
{
    input
}

/// `#[fsm1_state]`: marks a state function and returns the function as it is.
pub fn fsm1_state(_attr: TokenStream, item: TokenStream) -> (output: TokenStream)
    ensures
        output == item,
{
    item
}

} // verus!

//! The `visit1` macro: its input is read as a Rust file, which is then
//! walked, with a counter of one step for every function item and every
//! macro invocation met.
use proc_macro2::TokenStream;
use vstd::prelude::*;

verus! {

/// `syn::File`, a parsed Rust source file. Declared so that verified code can
/// hand one on; nothing of its contents is known to the verifier.
#[verifier::external_type_specification]
#[verifier::external_body]
pub struct ExFile(syn::File);

/// What `syn::parse2::<syn::File>` gives for `input`: the file the tokens
/// form, or `None` when they form no Rust file. It is syn's grammar of Rust
/// and depends on the tokens alone.
pub uninterp spec fn parsed_file(input: TokenStream) -> Option<syn::File>;

/// `syn::parse2::<syn::File>`: reads the tokens as a Rust file; syn's error
/// becomes `None`.
#[verifier::external_body]
fn parse_file(input: &TokenStream) -> (r: Option<syn::File>)
    ensures
        r == parsed_file(*input),
{
    syn::parse2::<syn::File>(input.clone()).ok()
}

/// What `visit1!` makes of its input once it was read: the input, unchanged,
/// as the macro's output together with the file to walk, or `None` when the
/// input formed no Rust file.
pub fn pass_on_parsed(input: TokenStream, parsed: Option<syn::File>) -> (r: Option<(TokenStream, syn::File)>)
    ensures
        r == (match parsed {
            Some(f) => Some((input, f)),
            None => None,
        }),
{
    match parsed {
        Some(file) => Some((input, file)),
        None => None,
    }
}

/// `visit1!`: reads its input as a Rust file. When it is one, returns the
/// input unchanged (the macro's output) together with the file to walk;
/// `None` exactly when the input is not a Rust file.
pub fn visit1(input: TokenStream) -> (r: Option<(TokenStream, syn::File)>)
    ensures
        r == (match parsed_file(input) {
            Some(f) => Some((input, f)),
            None => None,
        }),
{
    let parsed = parse_file(&input);
    pass_on_parsed(input, parsed)
}

/// The counter kept while a file is walked.
pub struct Visitor {
    pub data: u32,
}

impl Visitor {
    /// A visitor that has met nothing yet.
    pub fn new() -> (v: Self)
        ensures
            v.data == 0,
    {
        Self { data: 0 }
    }

    /// Counts a function item; returns the count so far.
    pub fn visit_item_fn(&mut self) -> (count: u32)
        requires
            old(self).data < u32::MAX,
        ensures
            final(self).data == old(self).data + 1,
            count == final(self).data,
    {
        self.data = self.data + 1;
        self.data
    }

    /// Counts a macro invocation; returns the count so far.
    pub fn visit_macro(&mut self) -> (count: u32)
        requires
            old(self).data < u32::MAX,
        ensures
            final(self).data == old(self).data + 1,
            count == final(self).data,
    {
        self.data = self.data + 1;
        self.data
    }
}

} // verus!

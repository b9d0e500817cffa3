//! The declarations that the `fsm1` and `init` macros read, held as plain
//! values: names as strings, attributes and macro invocations as the few
//! strings the logic looks at.
use vstd::prelude::*;

verus! {

/// An attribute on a function.
pub struct AttrItem {
    /// The attribute's path when it is a single identifier (as in
    /// `#[fsm1_state]`), otherwise `None`.
    pub ident: Option<String>,
    /// The attribute's arguments when they are exactly one identifier (as in
    /// `#[fsm1_state(base)]`), otherwise `None`.
    pub single_ident_arg: Option<String>,
}

/// A macro invocation inside a function body.
pub struct MacroItem {
    /// The last segment of the macro's path (`transition_to` in
    /// `transition_to!(done)`), if the path has one.
    pub name: Option<String>,
    /// The invocation's top-level token trees, each as its text.
    pub tokens: Vec<String>,
}

/// A function of a declaration.
pub struct FnItem {
    pub name: String,
    pub attrs: Vec<AttrItem>,
    /// The macro invocations in the body, in the order a syntax walk meets them.
    pub macros: Vec<MacroItem>,
}

/// An `fsm1!` declaration: a struct followed by functions.
pub struct FsmSource {
    /// The struct's name.
    pub ident: String,
    /// Whether the struct has named fields (`struct S { a: u8 }`).
    pub fields_named: bool,
    pub fns: Vec<FnItem>,
}

pub ghost struct AttrModel {
    pub ident: Option<Seq<char>>,
    pub arg: Option<Seq<char>>,
}

pub ghost struct MacroModel {
    pub name: Option<Seq<char>>,
    pub tokens: Seq<Seq<char>>,
}

pub ghost struct FnModel {
    pub name: Seq<char>,
    pub attrs: Seq<AttrModel>,
    pub macros: Seq<MacroModel>,
}

pub ghost struct SourceModel {
    pub ident: Seq<char>,
    pub fields_named: bool,
    pub fns: Seq<FnModel>,
}

/// The text of an optional string.
pub open spec fn opt_view(o: Option<String>) -> Option<Seq<char>> {
    match o {
        Some(s) => Some(s@),
        None => None,
    }
}

impl View for AttrItem {
    type V = AttrModel;

    open spec fn view(&self) -> AttrModel {
        AttrModel { ident: opt_view(self.ident), arg: opt_view(self.single_ident_arg) }
    }
}

impl View for MacroItem {
    type V = MacroModel;

    open spec fn view(&self) -> MacroModel {
        MacroModel { name: opt_view(self.name), tokens: self.tokens@.map_values(|t: String| t@) }
    }
}

impl View for FnItem {
    type V = FnModel;

    open spec fn view(&self) -> FnModel {
        FnModel {
            name: self.name@,
            attrs: self.attrs@.map_values(|a: AttrItem| a@),
            macros: self.macros@.map_values(|m: MacroItem| m@),
        }
    }
}

impl View for FsmSource {
    type V = SourceModel;

    open spec fn view(&self) -> SourceModel {
        SourceModel {
            ident: self.ident@,
            fields_named: self.fields_named,
            fns: self.fns@.map_values(|f: FnItem| f@),
        }
    }
}

} // verus!

//! Reading an `fsm1!` declaration: which functions are states, which state
//! is each state's parent, and which states have enter and exit functions.
use crate::source::{AttrItem, AttrModel, FnItem, FnModel, FsmSource, SourceModel, opt_view};
use vstd::prelude::*;
use vstd::string::*;

verus! {

/// The names a state is built from.
pub struct StateFnIdents {
    /// The name given in `#[fsm1_state(parent)]`, if any.
    pub parent_fn_ident: Option<String>,
    /// `<name>_enter`, when the declaration has a function of that name.
    pub enter_fn_ident: Option<String>,
    /// The state's own (process) function.
    pub process_fn_ident: String,
    /// `<name>_exit`, when the declaration has a function of that name.
    pub exit_fn_ident: Option<String>,
}

/// A parsed `fsm1!` declaration.
pub struct Fsm1 {
    pub fsm_ident: String,
    pub fsm_fns: Vec<FnItem>,
    /// The states, in the order their functions are declared.
    pub fsm_state_fn_idents: Vec<StateFnIdents>,
}

/// Why a declaration was refused.
#[derive(Clone, Copy, Debug, PartialEq, Eq, Structural)]
pub enum Fsm1ParseError {
    /// The struct does not have named fields.
    ExpectingFsmStruct,
}

pub ghost struct StateIdentsModel {
    pub parent: Option<Seq<char>>,
    pub enter: Option<Seq<char>>,
    pub process: Seq<char>,
    pub exit: Option<Seq<char>>,
}

pub ghost struct Fsm1Model {
    pub ident: Seq<char>,
    pub fns: Seq<FnModel>,
    pub states: Seq<StateIdentsModel>,
}

impl View for StateFnIdents {
    type V = StateIdentsModel;

    open spec fn view(&self) -> StateIdentsModel {
        StateIdentsModel {
            parent: opt_view(self.parent_fn_ident),
            enter: opt_view(self.enter_fn_ident),
            process: self.process_fn_ident@,
            exit: opt_view(self.exit_fn_ident),
        }
    }
}

impl View for Fsm1 {
    type V = Fsm1Model;

    open spec fn view(&self) -> Fsm1Model {
        Fsm1Model {
            ident: self.fsm_ident@,
            fns: self.fsm_fns@.map_values(|f: FnItem| f@),
            states: self.fsm_state_fn_idents@.map_values(|s: StateFnIdents| s@),
        }
    }
}

/// The attribute that marks a function as a state.
pub open spec fn is_state_attr(a: AttrModel) -> bool {
    a.ident == Some("fsm1_state"@)
}

/// The position of the first state attribute in `attrs` from `i` on, or `attrs.len()`.
pub open spec fn first_state_attr(attrs: Seq<AttrModel>, i: int) -> int
    decreases attrs.len() - i,
{
    if i >= attrs.len() {
        attrs.len() as int
    } else if is_state_attr(attrs[i]) {
        i
    } else {
        first_state_attr(attrs, i + 1)
    }
}

/// The function carries a state attribute.
pub open spec fn is_state_fn(f: FnModel) -> bool {
    first_state_attr(f.attrs, 0) < f.attrs.len()
}

/// The parent named by the function's first state attribute.
pub open spec fn state_parent(f: FnModel) -> Option<Seq<char>> {
    f.attrs[first_state_attr(f.attrs, 0)].arg
}

/// The declaration has a function called `name`.
pub open spec fn has_fn(fns: Seq<FnModel>, name: Seq<char>) -> bool {
    exists|j: int| 0 <= j < fns.len() && (#[trigger] fns[j]).name == name
}

/// `Some(name)` when the declaration has a function called `name`.
pub open spec fn optional_fn(fns: Seq<FnModel>, name: Seq<char>) -> Option<Seq<char>> {
    if has_fn(fns, name) {
        Some(name)
    } else {
        None
    }
}

/// The state built from function `f` of declaration `fns`.
pub open spec fn state_idents(f: FnModel, fns: Seq<FnModel>) -> StateIdentsModel {
    StateIdentsModel {
        parent: state_parent(f),
        enter: optional_fn(fns, f.name + "_enter"@),
        process: f.name,
        exit: optional_fn(fns, f.name + "_exit"@),
    }
}

/// The states among the functions `prefix` of declaration `fns`, in order.
pub open spec fn states_of(prefix: Seq<FnModel>, fns: Seq<FnModel>) -> Seq<StateIdentsModel>
    decreases prefix.len(),
{
    if prefix.len() == 0 {
        Seq::empty()
    } else {
        let prev = states_of(prefix.drop_last(), fns);
        if is_state_fn(prefix.last()) {
            prev.push(state_idents(prefix.last(), fns))
        } else {
            prev
        }
    }
}

/// What reading a declaration gives.
pub open spec fn parse_spec(src: SourceModel) -> Result<Fsm1Model, Fsm1ParseError> {
    if src.fields_named {
        Ok(Fsm1Model { ident: src.ident, fns: src.fns, states: states_of(src.fns, src.fns) })
    } else {
        Err(Fsm1ParseError::ExpectingFsmStruct)
    }
}

/// The position of the first state attribute in `attrs`, if any.
fn find_state_attr(attrs: &Vec<AttrItem>, tag: &String) -> (r: usize)
    requires
        tag@ == "fsm1_state"@,
    ensures
        r == first_state_attr(attrs@.map_values(|a: AttrItem| a@), 0),
{
    let ghost m = attrs@.map_values(|a: AttrItem| a@);
    let mut i: usize = 0;
    while i < attrs.len()
        invariant
            i <= attrs.len(),
            m == attrs@.map_values(|a: AttrItem| a@),
            tag@ == "fsm1_state"@,
            first_state_attr(m, 0) == first_state_attr(m, i as int),
        decreases attrs.len() - i,
    {
        let hit = match &attrs[i].ident {
            Some(s) => *s == *tag,
            None => false,
        };
        assert(m[i as int] == attrs@[i as int]@);
        if hit {
            return i;
        }
        i = i + 1;
    }
    i
}

/// Whether a function of `fns` is called `name`.
fn has_fn_named(fns: &Vec<FnItem>, name: &String) -> (r: bool)
    ensures
        r == has_fn(fns@.map_values(|f: FnItem| f@), name@),
{
    let ghost m = fns@.map_values(|f: FnItem| f@);
    let mut j: usize = 0;
    while j < fns.len()
        invariant
            j <= fns.len(),
            m == fns@.map_values(|f: FnItem| f@),
            forall|k: int| 0 <= k < j ==> (#[trigger] m[k]).name != name@,
        decreases fns.len() - j,
    {
        assert(m[j as int] == fns@[j as int]@);
        if fns[j].name == *name {
            assert(m[j as int].name == name@);
            return true;
        }
        j = j + 1;
    }
    false
}

/// `Some(name)` when a function of `fns` is called `name`.
fn optional_fn_named(fns: &Vec<FnItem>, name: String) -> (r: Option<String>)
    ensures
        opt_view(r) == optional_fn(fns@.map_values(|f: FnItem| f@), name@),
{
    if has_fn_named(fns, &name) {
        Some(name)
    } else {
        None
    }
}

impl Fsm1 {
    /// Reads a declaration. The struct must have named fields; every
    /// function carrying an `fsm1_state` attribute is a state, whose parent
    /// is the argument of its first such attribute, and which has an enter
    /// (exit) function when the declaration has a function called
    /// `<name>_enter` (`<name>_exit`).
    pub fn parse(src: FsmSource) -> (r: Result<Fsm1, Fsm1ParseError>)
        ensures
            match r {
                Ok(f) => parse_spec(src@) == Ok::<Fsm1Model, Fsm1ParseError>(f@),
                Err(e) => parse_spec(src@) == Err::<Fsm1Model, Fsm1ParseError>(e),
            },
    {
        if !src.fields_named {
            return Err(Fsm1ParseError::ExpectingFsmStruct);
        }
        let tag = "fsm1_state".to_owned();
        let ghost fm = src.fns@.map_values(|f: FnItem| f@);
        let mut states: Vec<StateFnIdents> = Vec::new();
        let mut i: usize = 0;
        while i < src.fns.len()
            invariant
                i <= src.fns.len(),
                fm == src.fns@.map_values(|f: FnItem| f@),
                tag@ == "fsm1_state"@,
                states@.map_values(|s: StateFnIdents| s@) == states_of(fm.take(i as int), fm),
            decreases src.fns.len() - i,
        {
            let f = &src.fns[i];
            let k = find_state_attr(&f.attrs, &tag);
            proof {
                assert(fm[i as int] == src.fns@[i as int]@);
                assert(fm.take(i + 1).drop_last() == fm.take(i as int));
                assert(fm.take(i + 1).last() == fm[i as int]);
            }
            if k < f.attrs.len() {
                let parent = match &f.attrs[k].single_ident_arg {
                    Some(p) => Some(p.clone()),
                    None => None,
                };
                let mut enter_name = f.name.clone();
                enter_name.append("_enter");
                let mut exit_name = f.name.clone();
                exit_name.append("_exit");
                let idents = StateFnIdents {
                    parent_fn_ident: parent,
                    enter_fn_ident: optional_fn_named(&src.fns, enter_name),
                    process_fn_ident: f.name.clone(),
                    exit_fn_ident: optional_fn_named(&src.fns, exit_name),
                };
                proof {
                    assert(f.attrs@.map_values(|a: AttrItem| a@)[k as int] == f.attrs@[k as int]@);
                    assert(idents@ == state_idents(fm[i as int], fm));
                }
                states.push(idents);
                proof {
                    assert(states@.map_values(|s: StateFnIdents| s@) =~= states_of(
                        fm.take(i + 1),
                        fm,
                    ));
                }
            }
            i = i + 1;
        }
        proof {
            assert(fm.take(src.fns.len() as int) == fm);
        }
        Ok(Fsm1 { fsm_ident: src.ident, fsm_fns: src.fns, fsm_state_fn_idents: states })
    }
}

/// An `init!` declaration: a struct followed by one function.
pub struct InitSource {
    pub struct_name: String,
    /// Whether the struct has named fields.
    pub fields_named: bool,
    pub fn_name: String,
}

/// A read `init!` declaration.
pub struct Init {
    pub struct_name: String,
    pub fn_name: String,
}

/// Why an `init!` declaration was refused.
#[derive(Clone, Copy, Debug, PartialEq, Eq, Structural)]
pub enum InitParseError {
    /// The struct does not have named fields.
    ExpectingFsmStruct,
}

impl Init {
    /// Reads an `init!` declaration: the struct must have named fields.
    pub fn parse(src: InitSource) -> (r: Result<Init, InitParseError>)
        ensures
            src.fields_named <==> r is Ok,
            r matches Ok(i) ==> i.struct_name@ == src.struct_name@ && i.fn_name@ == src.fn_name@,
            r matches Err(e) ==> e == InitParseError::ExpectingFsmStruct,
    {
        if src.fields_named {
            Ok(Init { struct_name: src.struct_name, fn_name: src.fn_name })
        } else {
            Err(InitParseError::ExpectingFsmStruct)
        }
    }
}

} // verus!

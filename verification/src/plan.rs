//! Turning a parsed `fsm1!` declaration into a state table: the handle of
//! each state's parent, the initial state, and the handle each
//! `transition_to!(name)` in the functions stands for.
use crate::machine::{StateFns, chain_ends_at, path_from, table_wf};
use crate::parse::{Fsm1, Fsm1Model, StateFnIdents, StateIdentsModel};
use crate::source::{FnItem, FnModel, MacroItem, MacroModel, opt_view};
use vstd::prelude::*;

verus! {

/// Why a declaration cannot be turned into a state machine.
#[derive(Clone, Copy, Debug, PartialEq, Eq, Structural)]
pub enum Fsm1Failure {
    /// State `state` is called `initial`, as state `first` is.
    DuplicateInitial { first: usize, state: usize },
    /// The parent named by state `state` is not a state.
    UndefinedParent { state: usize },
    /// No state is called `initial`.
    NoInitialState,
    /// A `transition_to!` (macro `mac` of function `fun`) has no parameter.
    TransitionWithoutParameter { fun: usize, mac: usize },
    /// A `transition_to!` has more than one parameter.
    TransitionWithManyParameters { fun: usize, mac: usize },
    /// A `transition_to!` names a state that does not exist.
    TransitionToUnknownState { fun: usize, mac: usize },
}

/// One state of the generated machine.
pub struct StatePlan {
    pub name: String,
    pub parent: Option<usize>,
    pub enter_fn: Option<String>,
    pub exit_fn: Option<String>,
}

/// The generated machine.
pub struct Fsm1Plan {
    pub state_fns: Vec<StatePlan>,
    pub initial_state_hdl: usize,
    /// For each function and each macro invocation in it: the handle that
    /// replaces the parameter of a `transition_to!`, `None` for other macros.
    pub transitions: Vec<Vec<Option<usize>>>,
}

pub ghost struct StatePlanModel {
    pub name: Seq<char>,
    pub parent: Option<usize>,
    pub enter_fn: Option<Seq<char>>,
    pub exit_fn: Option<Seq<char>>,
}

pub ghost struct Fsm1PlanModel {
    pub state_fns: Seq<StatePlanModel>,
    pub initial_state_hdl: usize,
    pub transitions: Seq<Seq<Option<usize>>>,
}

impl View for StatePlan {
    type V = StatePlanModel;

    open spec fn view(&self) -> StatePlanModel {
        StatePlanModel {
            name: self.name@,
            parent: self.parent,
            enter_fn: opt_view(self.enter_fn),
            exit_fn: opt_view(self.exit_fn),
        }
    }
}

impl View for Fsm1Plan {
    type V = Fsm1PlanModel;

    open spec fn view(&self) -> Fsm1PlanModel {
        Fsm1PlanModel {
            state_fns: self.state_fns@.map_values(|s: StatePlan| s@),
            initial_state_hdl: self.initial_state_hdl,
            transitions: self.transitions@.map_values(|v: Vec<Option<usize>>| v@),
        }
    }
}

/// The handle of the last state of `states[0..n]` called `name` (a later
/// state of the same name hides an earlier one).
pub open spec fn state_named(states: Seq<StateIdentsModel>, name: Seq<char>, n: int) -> Option<usize>
    decreases n,
{
    if n <= 0 {
        None
    } else if states[n - 1].process == name {
        Some((n - 1) as usize)
    } else {
        state_named(states, name, n - 1)
    }
}

/// The handle of the state called `name`, if any.
pub open spec fn lookup(states: Seq<StateIdentsModel>, name: Seq<char>) -> Option<usize> {
    state_named(states, name, states.len() as int)
}

/// Some state before `k` is called `initial`.
pub open spec fn initial_before(states: Seq<StateIdentsModel>, k: int) -> bool {
    exists|j: int| 0 <= j < k && (#[trigger] states[j]).process == "initial"@
}

/// The failure, if any, met at state `k`.
pub open spec fn state_failure(states: Seq<StateIdentsModel>, k: int) -> Option<Fsm1Failure> {
    if states[k].process == "initial"@ && initial_before(states, k) {
        Some(Fsm1Failure::DuplicateInitial { first: initial_index(states, 0) as usize, state: k as usize })
    } else if states[k].parent is Some && lookup(states, states[k].parent.unwrap()) is None {
        Some(Fsm1Failure::UndefinedParent { state: k as usize })
    } else {
        None
    }
}

/// The first failure met at a state from `k` on.
pub open spec fn first_state_failure(states: Seq<StateIdentsModel>, k: int) -> Option<Fsm1Failure>
    decreases states.len() - k,
{
    if k >= states.len() {
        None
    } else if state_failure(states, k) is Some {
        state_failure(states, k)
    } else {
        first_state_failure(states, k + 1)
    }
}

/// The macro is a `transition_to!`.
pub open spec fn is_transition(mac: MacroModel) -> bool {
    mac.name == Some("transition_to"@)
}

/// The failure, if any, met at macro `mac` (number `m` of function `f`).
pub open spec fn macro_failure(
    states: Seq<StateIdentsModel>,
    mac: MacroModel,
    f: int,
    m: int,
) -> Option<Fsm1Failure> {
    if !is_transition(mac) {
        None
    } else if mac.tokens.len() == 0 {
        Some(Fsm1Failure::TransitionWithoutParameter { fun: f as usize, mac: m as usize })
    } else if mac.tokens.len() > 1 {
        Some(Fsm1Failure::TransitionWithManyParameters { fun: f as usize, mac: m as usize })
    } else if lookup(states, mac.tokens[0]) is None {
        Some(Fsm1Failure::TransitionToUnknownState { fun: f as usize, mac: m as usize })
    } else {
        None
    }
}

/// The first failure met at a macro of function `f` from macro `m` on.
pub open spec fn first_macro_failure(
    states: Seq<StateIdentsModel>,
    macs: Seq<MacroModel>,
    f: int,
    m: int,
) -> Option<Fsm1Failure>
    decreases macs.len() - m,
{
    if m >= macs.len() {
        None
    } else if macro_failure(states, macs[m], f, m) is Some {
        macro_failure(states, macs[m], f, m)
    } else {
        first_macro_failure(states, macs, f, m + 1)
    }
}

/// The first failure met at a macro of a function from function `f` on.
pub open spec fn first_fn_failure(states: Seq<StateIdentsModel>, fns: Seq<FnModel>, f: int) -> Option<
    Fsm1Failure,
>
    decreases fns.len() - f,
{
    if f >= fns.len() {
        None
    } else if first_macro_failure(states, fns[f].macros, f, 0) is Some {
        first_macro_failure(states, fns[f].macros, f, 0)
    } else {
        first_fn_failure(states, fns, f + 1)
    }
}

/// The first failure met while turning the declaration into a machine, in
/// the order the states and then the functions' macros are looked at.
pub open spec fn fsm1_failure(d: Fsm1Model) -> Option<Fsm1Failure> {
    if first_state_failure(d.states, 0) is Some {
        first_state_failure(d.states, 0)
    } else if !initial_before(d.states, d.states.len() as int) {
        Some(Fsm1Failure::NoInitialState)
    } else {
        first_fn_failure(d.states, d.fns, 0)
    }
}

/// The position of the (first) state called `initial`.
pub open spec fn initial_index(states: Seq<StateIdentsModel>, k: int) -> int
    decreases states.len() - k,
{
    if k >= states.len() {
        states.len() as int
    } else if states[k].process == "initial"@ {
        k
    } else {
        initial_index(states, k + 1)
    }
}

/// The planned row of state `s`.
pub open spec fn state_plan(states: Seq<StateIdentsModel>, s: StateIdentsModel) -> StatePlanModel {
    StatePlanModel {
        name: s.process,
        parent: match s.parent {
            Some(p) => lookup(states, p),
            None => None,
        },
        enter_fn: s.enter,
        exit_fn: s.exit,
    }
}

/// The replacement for a macro: the handle of the state named by a
/// `transition_to!`, nothing for other macros.
pub open spec fn macro_plan(states: Seq<StateIdentsModel>, mac: MacroModel) -> Option<usize> {
    if is_transition(mac) {
        lookup(states, mac.tokens[0])
    } else {
        None
    }
}

/// The machine generated for a declaration that does not fail.
pub open spec fn plan_spec(d: Fsm1Model) -> Fsm1PlanModel {
    Fsm1PlanModel {
        state_fns: d.states.map_values(|s: StateIdentsModel| state_plan(d.states, s)),
        initial_state_hdl: initial_index(d.states, 0) as usize,
        transitions: d.fns.map_values(
            |f: FnModel| f.macros.map_values(|mac: MacroModel| macro_plan(d.states, mac)),
        ),
    }
}

/// The runtime row of a planned state: not yet active.
pub open spec fn runtime_row(p: StatePlanModel, s: StateFns) -> bool {
    &&& s.name@ == p.name
    &&& s.parent == p.parent
    &&& s.has_enter == (p.enter_fn is Some)
    &&& s.has_exit == (p.exit_fn is Some)
    &&& !s.active
}

// ---------------------------------------------------------------------------

/// The handle of the last of `states` called `name`.
fn lookup_state(states: &Vec<StateFnIdents>, name: &String) -> (r: Option<usize>)
    ensures
        r == lookup(states@.map_values(|s: StateFnIdents| s@), name@),
{
    let ghost m = states@.map_values(|s: StateFnIdents| s@);
    let mut n = states.len();
    while n > 0
        invariant
            n <= states.len(),
            m == states@.map_values(|s: StateFnIdents| s@),
            lookup(m, name@) == state_named(m, name@, n as int),
        decreases n,
    {
        assert(m[n - 1] == states@[n - 1]@);
        if states[n - 1].process_fn_ident == *name {
            return Some(n - 1);
        }
        n = n - 1;
    }
    None
}

impl Fsm1 {
    /// The failure that turning this declaration into a machine meets, if
    /// any: looking at the states in order, a second state called `initial`
    /// or a parent that is not a state; then a missing `initial` state; then,
    /// looking at the functions' macros in order, a `transition_to!` without
    /// exactly one parameter or naming no state.
    pub fn check(&self) -> (r: Option<Fsm1Failure>)
        ensures
            r == fsm1_failure(self@),
    {
        let ghost d = self@;
        let states = &self.fsm_state_fn_idents;
        let initial = "initial".to_owned();
        let mut first_initial: Option<usize> = None;
        let mut k: usize = 0;
        proof {
            lemma_initial_index(d.states, 0);
        }
        while k < states.len()
            invariant
                k <= states.len(),
                d == self@,
                states == &self.fsm_state_fn_idents,
                initial@ == "initial"@,
                d.states.len() == states.len(),
                first_initial is Some == initial_before(d.states, k as int),
                first_initial matches Some(f) ==> f == initial_index(d.states, 0),
                first_state_failure(d.states, 0) == first_state_failure(d.states, k as int),
                initial_index(d.states, 0) < d.states.len() ==> d.states[initial_index(
                    d.states,
                    0,
                )].process == "initial"@,
                forall|j: int|
                    0 <= j < initial_index(d.states, 0) ==> (#[trigger] d.states[j]).process
                        != "initial"@,
                0 <= initial_index(d.states, 0) <= d.states.len(),
            decreases states.len() - k,
        {
            assert(d.states[k as int] == states@[k as int]@);
            let is_initial = states[k].process_fn_ident == initial;
            match first_initial {
                Some(f) => {
                    if is_initial {
                        return Some(Fsm1Failure::DuplicateInitial { first: f, state: k });
                    }
                },
                None => {},
            }
            match &states[k].parent_fn_ident {
                Some(p) => {
                    if lookup_state(states, p).is_none() {
                        return Some(Fsm1Failure::UndefinedParent { state: k });
                    }
                },
                None => {},
            }
            if is_initial && first_initial.is_none() {
                proof {
                    let i = initial_index(d.states, 0);
                    if i < k {
                        assert(initial_before(d.states, k as int));
                    }
                    if i > k {
                        assert(d.states[k as int].process != "initial"@);
                    }
                }
                first_initial = Some(k);
            }
            proof {
                if !is_initial {
                    assert forall|j: int|
                        0 <= j < k + 1 && (#[trigger] d.states[j]).process
                            == "initial"@ implies 0 <= j < k by {}
                }
            }
            k = k + 1;
        }
        if first_initial.is_none() {
            return Some(Fsm1Failure::NoInitialState);
        }
        let transition = "transition_to".to_owned();
        let fns = &self.fsm_fns;
        let mut f: usize = 0;
        while f < fns.len()
            invariant
                f <= fns.len(),
                d == self@,
                states == &self.fsm_state_fn_idents,
                fns == &self.fsm_fns,
                transition@ == "transition_to"@,
                first_state_failure(d.states, 0) is None,
                initial_before(d.states, d.states.len() as int),
                first_fn_failure(d.states, d.fns, 0) == first_fn_failure(d.states, d.fns, f as int),
            decreases fns.len() - f,
        {
            assert(d.fns[f as int] == fns@[f as int]@);
            let macs = &fns[f].macros;
            let ghost mm = d.fns[f as int].macros;
            let mut m: usize = 0;
            while m < macs.len()
                invariant
                    m <= macs.len(),
                    d == self@,
                    states == &self.fsm_state_fn_idents,
                    transition@ == "transition_to"@,
                    f < fns.len(),
                    d.fns.len() == fns.len(),
                    mm == d.fns[f as int].macros,
                    first_state_failure(d.states, 0) is None,
                    initial_before(d.states, d.states.len() as int),
                    first_fn_failure(d.states, d.fns, 0) == first_fn_failure(
                        d.states,
                        d.fns,
                        f as int,
                    ),
                    mm == macs@.map_values(|x: MacroItem| x@),
                    first_macro_failure(d.states, mm, f as int, 0) == first_macro_failure(
                        d.states,
                        mm,
                        f as int,
                        m as int,
                    ),
                decreases macs.len() - m,
            {
                let mac = &macs[m];
                assert(mm[m as int] == mac@);
                let is_transition = match &mac.name {
                    Some(n) => *n == transition,
                    None => false,
                };
                if is_transition {
                    assert(mac@.tokens.len() == mac.tokens@.len());
                    if mac.tokens.len() == 0 {
                        let r = Fsm1Failure::TransitionWithoutParameter { fun: f, mac: m };
                        assert(macro_failure(d.states, mm[m as int], f as int, m as int) == Some(r));
                        assert(first_fn_failure(d.states, d.fns, f as int) == Some(r));
                        return Some(r);
                    }
                    if mac.tokens.len() > 1 {
                        let r = Fsm1Failure::TransitionWithManyParameters { fun: f, mac: m };
                        assert(macro_failure(d.states, mm[m as int], f as int, m as int) == Some(r));
                        assert(first_fn_failure(d.states, d.fns, f as int) == Some(r));
                        return Some(r);
                    }
                    assert(mac@.tokens[0] == mac.tokens@[0]@);
                    if lookup_state(states, &mac.tokens[0]).is_none() {
                        return Some(Fsm1Failure::TransitionToUnknownState { fun: f, mac: m });
                    }
                }
                m = m + 1;
            }
            f = f + 1;
        }
        None
    }
}

impl Fsm1 {
    /// The machine for a declaration that [`Fsm1::check`] finds nothing
    /// wrong with: one row per state (its name, the handle of its parent, its
    /// enter and exit functions), the handle of the state called `initial`,
    /// and the handle that each `transition_to!` stands for.
    pub fn plan(&self) -> (r: Fsm1Plan)
        requires
            fsm1_failure(self@) is None,
        ensures
            r@ == plan_spec(self@),
            r.initial_state_hdl < r.state_fns.len(),
    {
        let ghost d = self@;
        let states = &self.fsm_state_fn_idents;
        let initial = "initial".to_owned();
        proof {
            lemma_no_failure_facts(d);
        }
        let mut initial_hdl: usize = 0;
        while initial_hdl < states.len()
            invariant
                initial_hdl <= states.len(),
                d == self@,
                states == &self.fsm_state_fn_idents,
                initial@ == "initial"@,
                d.states.len() == states.len(),
                initial_index(d.states, 0) < d.states.len(),
                initial_index(d.states, 0) == initial_index(d.states, initial_hdl as int),
            ensures
                initial_hdl < states.len(),
                initial_index(d.states, 0) == initial_hdl,
            decreases states.len() - initial_hdl,
        {
            assert(d.states[initial_hdl as int] == states@[initial_hdl as int]@);
            if states[initial_hdl].process_fn_ident == initial {
                break ;
            }
            initial_hdl = initial_hdl + 1;
        }
        let ghost want = plan_spec(d);
        let mut rows: Vec<StatePlan> = Vec::new();
        let mut k: usize = 0;
        while k < states.len()
            invariant
                k <= states.len(),
                d == self@,
                want == plan_spec(d),
                states == &self.fsm_state_fn_idents,
                want.state_fns.len() == states@.len(),
                rows@.len() == k,
                rows@.map_values(|s: StatePlan| s@) == want.state_fns.take(k as int),
            decreases states.len() - k,
        {
            let s = &states[k];
            assert(d.states[k as int] == s@);
            let parent = match &s.parent_fn_ident {
                Some(p) => lookup_state(states, p),
                None => None,
            };
            let enter_fn = match &s.enter_fn_ident {
                Some(x) => Some(x.clone()),
                None => None,
            };
            let exit_fn = match &s.exit_fn_ident {
                Some(x) => Some(x.clone()),
                None => None,
            };
            let row = StatePlan { name: s.process_fn_ident.clone(), parent, enter_fn, exit_fn };
            assert(row@ == want.state_fns[k as int]);
            let ghost before = rows@;
            rows.push(row);
            let ghost mapped = rows@.map_values(|s: StatePlan| s@);
            assert forall|j: int| 0 <= j < k + 1 implies #[trigger] mapped[j]
                == want.state_fns.take(k + 1)[j] by {
                if j < k {
                    assert(rows@[j] == before[j]);
                    assert(before.map_values(|s: StatePlan| s@)[j] == want.state_fns.take(k as int)[j]);
                }
            }
            assert(rows@.map_values(|s: StatePlan| s@) =~= want.state_fns.take(k + 1));
            k = k + 1;
        }
        assert(want.state_fns.take(states.len() as int) =~= want.state_fns);
        let transition = "transition_to".to_owned();
        let fns = &self.fsm_fns;
        let mut all: Vec<Vec<Option<usize>>> = Vec::new();
        let mut f: usize = 0;
        while f < fns.len()
            invariant
                f <= fns.len(),
                d == self@,
                want == plan_spec(d),
                states == &self.fsm_state_fn_idents,
                fns == &self.fsm_fns,
                d.fns.len() == fns.len(),
                transition@ == "transition_to"@,
                first_fn_failure(d.states, d.fns, f as int) is None,
                want.transitions.len() == fns@.len(),
                all@.len() == f,
                all@.map_values(|v: Vec<Option<usize>>| v@) == want.transitions.take(f as int),
            decreases fns.len() - f,
        {
            assert(d.fns[f as int] == fns@[f as int]@);
            let macs = &fns[f].macros;
            let ghost mm = d.fns[f as int].macros;
            proof {
                assert(first_macro_failure(d.states, mm, f as int, 0) is None);
            }
            let mut out: Vec<Option<usize>> = Vec::new();
            let mut m: usize = 0;
            while m < macs.len()
                invariant
                    m <= macs.len(),
                    d == self@,
                    states == &self.fsm_state_fn_idents,
                    transition@ == "transition_to"@,
                    mm == macs@.map_values(|x: MacroItem| x@),
                    first_macro_failure(d.states, mm, f as int, m as int) is None,
                    out@ == mm.take(m as int).map_values(|mac: MacroModel| macro_plan(d.states, mac)),
                decreases macs.len() - m,
            {
                let mac = &macs[m];
                assert(mm[m as int] == mac@);
                assert(mac@.tokens.len() == mac.tokens@.len());
                let is_transition = match &mac.name {
                    Some(n) => *n == transition,
                    None => false,
                };
                let h = if is_transition {
                    assert(mac@.tokens[0] == mac.tokens@[0]@);
                    lookup_state(states, &mac.tokens[0])
                } else {
                    None
                };
                out.push(h);
                assert(mm.take(m + 1).map_values(|mac: MacroModel| macro_plan(d.states, mac))
                    =~= mm.take(m as int).map_values(|mac: MacroModel| macro_plan(d.states, mac)).push(
                    h,
                ));
                m = m + 1;
            }
            assert(mm.take(macs.len() as int) =~= mm);
            assert(out@ == want.transitions[f as int]);
            let ghost before = all@;
            all.push(out);
            let ghost mapped = all@.map_values(|v: Vec<Option<usize>>| v@);
            assert forall|j: int| 0 <= j < f + 1 implies #[trigger] mapped[j]
                == want.transitions.take(f + 1)[j] by {
                if j < f {
                    assert(all@[j] == before[j]);
                    assert(before.map_values(|v: Vec<Option<usize>>| v@)[j] == want.transitions.take(
                        f as int,
                    )[j]);
                }
            }
            assert(all@.map_values(|v: Vec<Option<usize>>| v@) =~= want.transitions.take(f + 1));
            f = f + 1;
        }
        assert(want.transitions.take(fns.len() as int) =~= want.transitions);
        Fsm1Plan { state_fns: rows, initial_state_hdl: initial_hdl, transitions: all }
    }
}

/// What a declaration without failure guarantees.
pub proof fn lemma_no_failure_facts(d: Fsm1Model)
    requires
        fsm1_failure(d) is None,
    ensures
        first_state_failure(d.states, 0) is None,
        initial_before(d.states, d.states.len() as int),
        first_fn_failure(d.states, d.fns, 0) is None,
        initial_index(d.states, 0) < d.states.len(),
{
    lemma_initial_index(d.states, 0);
}

/// `initial_index` finds the first state called `initial` when there is one.
pub proof fn lemma_initial_index(states: Seq<StateIdentsModel>, k: int)
    requires
        0 <= k <= states.len(),
    ensures
        k <= initial_index(states, k) <= states.len(),
        initial_index(states, k) < states.len() ==> states[initial_index(states, k)].process
            == "initial"@,
        forall|j: int|
            k <= j < initial_index(states, k) ==> (#[trigger] states[j]).process != "initial"@,
        (exists|j: int| k <= j < states.len() && (#[trigger] states[j]).process == "initial"@)
            ==> initial_index(states, k) < states.len(),
    decreases states.len() - k,
{
    if k < states.len() {
        lemma_initial_index(states, k + 1);
    }
}

impl Fsm1Plan {
    /// The runtime table for the planned states: the same names and parent
    /// handles, enter and exit functions where the plan has them, and no
    /// state active yet.
    pub fn state_table(&self) -> (r: Vec<StateFns>)
        ensures
            r@.len() == self@.state_fns.len(),
            forall|k: int| 0 <= k < r@.len() ==> runtime_row(self@.state_fns[k], #[trigger] r@[k]),
    {
        let mut r: Vec<StateFns> = Vec::new();
        let mut k: usize = 0;
        while k < self.state_fns.len()
            invariant
                k <= self.state_fns.len(),
                r@.len() == k,
                forall|j: int| 0 <= j < k ==> runtime_row(self@.state_fns[j], #[trigger] r@[j]),
            decreases self.state_fns.len() - k,
        {
            let p = &self.state_fns[k];
            assert(self@.state_fns[k as int] == p@);
            r.push(
                StateFns {
                    name: p.name.clone(),
                    parent: p.parent,
                    has_enter: p.enter_fn.is_some(),
                    has_exit: p.exit_fn.is_some(),
                    active: false,
                },
            );
            k = k + 1;
        }
        r
    }
}

/// Whether every parent link of `states` stays in the table and no chain of
/// parents loops anywhere in it.
pub fn table_is_wf(states: &Vec<StateFns>) -> (r: bool)
    ensures
        r == table_wf(states@),
{
    let n = states.len();
    let mut i: usize = 0;
    while i < n
        invariant
            n == states@.len(),
            i <= n,
            forall|j: usize| j < i ==> (#[trigger] path_from(states@, j, states@.len())) is Some,
        decreases n - i,
    {
        if !chain_ends_at(states, i) {
            return false;
        }
        i = i + 1;
    }
    true
}

} // verus!

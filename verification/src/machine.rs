//! The hierarchical state machine that an `fsm1` declaration runs on.
//!
//! A machine is a table of states. Each state has a name, an optional parent,
//! an optional enter function, a process function and an optional exit
//! function. The user's functions are reached through [`StateFnHandlers`];
//! the machine decides which of them run, in which order, and which state is
//! current afterwards.
use std::collections::VecDeque;
use vstd::prelude::*;

verus! {

/// What a state's process function reports back to the machine.
#[derive(Clone, Copy, Debug, PartialEq, Eq, Structural)]
pub enum StateResult {
    /// The state did not handle the event: its parent (if any) is asked next.
    NotHandled,
    /// The state handled the event and the machine stays where it is.
    Handled,
    /// The state handled the event and the machine moves to the given state.
    TransitionTo(usize),
}

/// One row of the state table.
pub struct StateFns {
    pub name: String,
    pub parent: Option<usize>,
    pub has_enter: bool,
    pub has_exit: bool,
    pub active: bool,
}

/// Why a dispatch could not move to the state a process function named.
#[derive(Clone, Copy, Debug, PartialEq, Eq, Structural)]
pub enum DispatchError {
    /// The table holds no such state.
    NoSuchState(usize),
    /// The state's chain of parents loops, so the states on the way into it
    /// cannot be listed.
    ParentLoop(usize),
}

/// What happens after a process function returned.
#[derive(Clone, Copy, Debug, PartialEq, Eq, Structural)]
pub enum ChainStep {
    /// Ask the given (parent) state's process function next.
    AskParent(usize),
    /// Nothing more to do in this dispatch.
    Done,
    /// Move to the given state.
    Transition(usize),
}

/// A call of one of the user's state functions.
pub ghost enum Call {
    /// The enter function of a state ran.
    Enter(usize),
    /// The process function of a state ran and gave this answer.
    Process(usize, StateResult),
    /// The exit function of a state ran.
    Exit(usize),
}

/// The mathematical state of a machine.
pub ghost struct SmModel {
    pub states: Seq<StateFns>,
    pub enter: Seq<usize>,
    pub exit: Seq<usize>,
    pub current: usize,
    pub previous: usize,
    pub changed: bool,
}

/// The runtime part of a state machine.
pub struct SM {
    pub state_fns: Vec<StateFns>,
    /// States whose enter functions are still to run, the outermost last.
    pub enter_fns_hdls: Vec<usize>,
    /// States whose exit functions are still to run, the innermost first.
    pub exit_fns_hdls: VecDeque<usize>,
    pub current_state_fns_handle: usize,
    pub previous_state_fns_handle: usize,
    pub current_state_changed: bool,
}

impl View for SM {
    type V = SmModel;

    open spec fn view(&self) -> SmModel {
        SmModel {
            states: self.state_fns@,
            enter: self.enter_fns_hdls@,
            exit: self.exit_fns_hdls@,
            current: self.current_state_fns_handle,
            previous: self.previous_state_fns_handle,
            changed: self.current_state_changed,
        }
    }
}

/// The user's state functions, addressed by state handle.
///
/// `history` is what the implementor's functions have been called with so
/// far: each method appends its own call, with the handle it was given and,
/// for `process`, the answer it returned. What the machine's contracts say
/// of a dispatch they say over `history`, so they fix which of the user's
/// functions run, with which handles, in which order, and which answers the
/// machine acted on.
///
/// An implementation that Verus checks defines `history` as its record of
/// calls. The default body is a single fixed sequence, which no
/// implementation of the methods can keep (each call lengthens the history),
/// so a checked implementation must replace it. It is there because the
/// compiled trait keeps `history`, every impl must then have one, and
/// plain-Rust impls cannot write a spec function. Those impls (the state functions that
/// `fsm1!` generates, and the handlers of the tests) keep no record: they are
/// trusted to behave as if they kept one, that is to run the user's function
/// of exactly the handle each method is given, and nothing else.
pub trait StateFnHandlers {
    /// The calls of these functions made so far, in order.
    closed spec fn history(&self) -> Seq<Call> {
        arbitrary()
    }

    /// Runs the enter function of state `hdl`.
    fn enter(&mut self, hdl: usize)
        ensures
            final(self).history() == old(self).history().push(Call::Enter(hdl)),
    ;

    /// Runs the process function of state `hdl`.
    fn process(&mut self, hdl: usize) -> (r: StateResult)
        ensures
            final(self).history() == old(self).history().push(Call::Process(hdl, r)),
    ;

    /// Runs the exit function of state `hdl`.
    fn exit(&mut self, hdl: usize)
        ensures
            final(self).history() == old(self).history().push(Call::Exit(hdl)),
    ;
}

// ---------------------------------------------------------------------------
// The state table and the chain of parents
// ---------------------------------------------------------------------------

/// The chain `h, parent(h), parent(parent(h)), ...` up to a state without a
/// parent, following at most `fuel` parent links; `None` when a link leaves
/// the table or the fuel runs out.
pub open spec fn path_from(states: Seq<StateFns>, h: usize, fuel: nat) -> Option<Seq<usize>>
    decreases fuel,
{
    if h < states.len() {
        match states[h as int].parent {
            None => Some(seq![h]),
            Some(p) => if fuel == 0 {
                None
            } else {
                match path_from(states, p, (fuel - 1) as nat) {
                    Some(rest) => Some(seq![h] + rest),
                    None => None,
                }
            },
        }
    } else {
        None
    }
}

/// The chain of parents of `h` stays in the table and ends.
pub open spec fn chain_ends(states: Seq<StateFns>, h: usize) -> bool {
    path_from(states, h, states.len()) is Some
}

/// Every parent link stays in the table and no chain of parents loops.
pub open spec fn table_wf(states: Seq<StateFns>) -> bool {
    forall|i: usize| i < states.len() ==> (#[trigger] path_from(states, i, states.len())) is Some
}

/// State `h` followed by all its ancestors, the outermost last.
pub open spec fn ancestry(states: Seq<StateFns>, h: usize) -> Seq<usize> {
    path_from(states, h, states.len()).unwrap()
}

/// The two tables have the same states linked in the same way.
pub open spec fn same_links(s1: Seq<StateFns>, s2: Seq<StateFns>) -> bool {
    &&& s1.len() == s2.len()
    &&& forall|i: int| 0 <= i < s1.len() ==> (#[trigger] s1[i]).parent == s2[i].parent
}

/// The two tables differ at most in the `active` flags.
pub open spec fn same_shape(s1: Seq<StateFns>, s2: Seq<StateFns>) -> bool {
    &&& s1.len() == s2.len()
    &&& forall|i: int|
        0 <= i < s1.len() ==> {
            &&& (#[trigger] s1[i]).parent == s2[i].parent
            &&& s1[i].name == s2[i].name
            &&& s1[i].has_enter == s2[i].has_enter
            &&& s1[i].has_exit == s2[i].has_exit
        }
}

/// The smallest index `j >= i` of `a` whose element satisfies `pred`, or `a.len()`.
pub open spec fn first_match(a: Seq<usize>, pred: spec_fn(usize) -> bool, i: int) -> int
    decreases a.len() - i,
{
    if i >= a.len() {
        a.len() as int
    } else if pred(a[i]) {
        i
    } else {
        first_match(a, pred, i + 1)
    }
}

pub open spec fn is_sentinel(sentinel: Option<usize>) -> spec_fn(usize) -> bool {
    |x: usize| sentinel == Some(x)
}

pub open spec fn is_active(states: Seq<StateFns>) -> spec_fn(usize) -> bool {
    |x: usize| states[x as int].active
}

/// The states exited when leaving `a[0]` (whose ancestry is `a`) towards the
/// common ancestor `sentinel`: `a[0]` always, then its ancestors up to but
/// not including the sentinel.
pub open spec fn exit_seq(a: Seq<usize>, sentinel: Option<usize>) -> Seq<usize> {
    if sentinel == Some(a[0]) {
        a.take(1)
    } else {
        a.take(first_match(a, is_sentinel(sentinel), 1))
    }
}

/// Position in `ancestry(states, t)` of the first active strict ancestor of `t`.
pub open spec fn first_active(states: Seq<StateFns>, t: usize) -> int {
    first_match(ancestry(states, t), is_active(states), 1)
}

/// The states entered on the way into `t`: `t` and its ancestors up to but not
/// including the first active one.
pub open spec fn entry_seq(states: Seq<StateFns>, t: usize) -> Seq<usize> {
    ancestry(states, t).take(first_active(states, t))
}

/// The first active strict ancestor of `t`, if there is one.
pub open spec fn entry_sentinel(states: Seq<StateFns>, t: usize) -> Option<usize> {
    let b = ancestry(states, t);
    let k = first_active(states, t);
    if k < b.len() {
        Some(b[k])
    } else {
        None
    }
}

/// The table row `s` with its `active` flag set.
pub open spec fn activated(s: StateFns) -> StateFns {
    StateFns {
        name: s.name,
        parent: s.parent,
        has_enter: s.has_enter,
        has_exit: s.has_exit,
        active: true,
    }
}

/// The table row `s` after an enter phase that did (`pending`) or did not
/// have its state pending: a pending state with an enter function becomes
/// active.
pub open spec fn entered_row(s: StateFns, pending: bool) -> StateFns {
    if pending && s.has_enter {
        activated(s)
    } else {
        s
    }
}

/// The machine after the enter phase of a dispatch: when the current state
/// changed, every pending state with an enter function becomes active, the
/// pending list empties and the change is acknowledged.
pub open spec fn after_enter(m: SmModel) -> SmModel {
    if m.changed {
        SmModel {
            states: Seq::new(
                m.states.len(),
                |i: int| entered_row(m.states[i], m.enter.contains(i as usize)),
            ),
            enter: Seq::empty(),
            changed: false,
            ..m
        }
    } else {
        m
    }
}

/// The machine after a process function asked to move to `t`: the states on
/// the way into `t` are queued for entry, the states left are exited (their
/// exit list drained), and `t` becomes current.
pub open spec fn after_transition(m: SmModel, t: usize) -> SmModel {
    SmModel {
        enter: m.enter + entry_seq(m.states, t),
        exit: Seq::empty(),
        current: t,
        previous: m.current,
        changed: true,
        ..m
    }
}

/// The exit list once a transition to `t` is set up: the states already
/// queued, then the states left on the way from the current state to the
/// common ancestor.
pub open spec fn transition_exits(m: SmModel, t: usize) -> Seq<usize> {
    m.exit + exit_seq(ancestry(m.states, m.current), entry_sentinel(m.states, t))
}

/// The decision after the process function of `hdl` returned `r`.
pub open spec fn chain_step_spec(states: Seq<StateFns>, hdl: int, r: StateResult) -> ChainStep {
    match r {
        StateResult::NotHandled => match states[hdl].parent {
            Some(p) => ChainStep::AskParent(p),
            None => ChainStep::Done,
        },
        StateResult::Handled => ChainStep::Done,
        StateResult::TransitionTo(t) => ChainStep::Transition(t),
    }
}

/// The calls of an enter phase over the pending list `e`: the pending
/// states are taken from the end (outermost first), and those with an enter
/// function have it run.
pub open spec fn enter_calls(states: Seq<StateFns>, e: Seq<usize>) -> Seq<Call>
    decreases e.len(),
{
    if e.len() == 0 {
        Seq::empty()
    } else {
        let h = e.last();
        let here = if states[h as int].has_enter {
            seq![Call::Enter(h)]
        } else {
            Seq::empty()
        };
        here + enter_calls(states, e.drop_last())
    }
}

/// The calls of the enter phase of a dispatch of `m`.
pub open spec fn enter_phase_calls(m: SmModel) -> Seq<Call> {
    if m.changed {
        enter_calls(m.states, m.enter)
    } else {
        Seq::empty()
    }
}

/// The calls of an exit phase over the queue `x`: the queued states are
/// taken from the front (innermost first), and those with an exit function
/// have it run.
pub open spec fn exit_calls(states: Seq<StateFns>, x: Seq<usize>) -> Seq<Call>
    decreases x.len(),
{
    if x.len() == 0 {
        Seq::empty()
    } else {
        let h = x[0];
        let here = if states[h as int].has_exit {
            seq![Call::Exit(h)]
        } else {
            Seq::empty()
        };
        here + exit_calls(states, x.drop_first())
    }
}

/// The answer recorded in a process call.
pub open spec fn answer_of(c: Call) -> StateResult {
    match c {
        Call::Process(_, r) => r,
        _ => StateResult::Handled,
    }
}

/// The state whose function a call ran.
pub open spec fn handle_of(c: Call) -> usize {
    match c {
        Call::Enter(h) => h,
        Call::Process(h, _) => h,
        Call::Exit(h) => h,
    }
}

/// `chain` is a run of process functions up the ancestry `a`: the first
/// state's, then, while the answer is `NotHandled`, its parent's, and so on;
/// it stops at the first other answer or at the outermost ancestor.
pub open spec fn is_process_chain(a: Seq<usize>, chain: Seq<Call>) -> bool {
    &&& 1 <= chain.len() <= a.len()
    &&& forall|i: int|
        0 <= i < chain.len() ==> #[trigger] chain[i] == Call::Process(a[i], answer_of(chain[i]))
    &&& forall|i: int|
        0 <= i < chain.len() - 1 ==> answer_of(#[trigger] chain[i]) == StateResult::NotHandled
    &&& answer_of(chain.last()) == StateResult::NotHandled ==> chain.len() == a.len()
}

/// A dispatch of `m` starting at `hdl`, whose process chain was `chain`,
/// returned `r`, left the machine as `post`, and made the calls `log`: the
/// enter phase's calls, the chain, and, when the last answer moved to a state
/// of the table whose chain of parents ends, the exit calls of the states
/// left; the result and the new machine follow from the last answer.
pub open spec fn dispatch_outcome(
    m: SmModel,
    chain: Seq<Call>,
    r: Result<Option<usize>, DispatchError>,
    post: SmModel,
    log: Seq<Call>,
) -> bool {
    let m0 = after_enter(m);
    let before = enter_phase_calls(m) + chain;
    match answer_of(chain.last()) {
        StateResult::TransitionTo(t) => if t >= m.states.len() {
            &&& r == Err::<Option<usize>, DispatchError>(DispatchError::NoSuchState(t))
            &&& post == m0
            &&& log == before
        } else if !chain_ends(m.states, t) {
            &&& r == Err::<Option<usize>, DispatchError>(DispatchError::ParentLoop(t))
            &&& post == m0
            &&& log == before
        } else {
            &&& r == Ok::<Option<usize>, DispatchError>(Some(t))
            &&& post == after_transition(m0, t)
            &&& log == before + exit_calls(m0.states, transition_exits(m0, t))
        },
        _ => {
            &&& r == Ok::<Option<usize>, DispatchError>(None)
            &&& post == m0
            &&& log == before
        },
    }
}

impl SmModel {
    pub open spec fn wf(self) -> bool {
        &&& chain_ends(self.states, self.current)
        &&& self.current < self.states.len()
        &&& self.previous < self.states.len()
        &&& forall|k: int| 0 <= k < self.enter.len() ==> (#[trigger] self.enter[k]) < self.states.len()
        &&& forall|k: int| 0 <= k < self.exit.len() ==> (#[trigger] self.exit[k]) < self.states.len()
    }
}

impl SM {
    /// The chain of parents of the current state ends, and every handle the
    /// machine holds is in the table.
    pub open spec fn wf(&self) -> bool {
        &&& chain_ends(self.state_fns@, self.current_state_fns_handle)
        &&& self.current_state_fns_handle < self.state_fns@.len()
        &&& self.previous_state_fns_handle < self.state_fns@.len()
        &&& forall|k: int|
            0 <= k < self.enter_fns_hdls@.len() ==> (#[trigger] self.enter_fns_hdls@[k])
                < self.state_fns@.len()
        &&& forall|k: int|
            0 <= k < self.exit_fns_hdls@.len() ==> (#[trigger] self.exit_fns_hdls@[k])
                < self.state_fns@.len()
    }
}

// ---------------------------------------------------------------------------
// Lemmas
// ---------------------------------------------------------------------------

/// A machine is well formed exactly when its model is, so that what holds of
/// every well-formed model holds of every well-formed machine.
pub proof fn lemma_wf_view(sm: &SM)
    ensures
        sm.wf() == sm@.wf(),
{
    let m = sm@;
    assert(m.enter == sm.enter_fns_hdls@);
    assert(m.exit == sm.exit_fns_hdls@);
}

/// More fuel does not change a chain that was found.
pub proof fn lemma_path_fuel(states: Seq<StateFns>, h: usize, f: nat, g: nat)
    requires
        path_from(states, h, f) is Some,
        f <= g,
    ensures
        path_from(states, h, g) == path_from(states, h, f),
    decreases f,
{
    if h < states.len() {
        if let Some(p) = states[h as int].parent {
            lemma_path_fuel(states, p, (f - 1) as nat, (g - 1) as nat);
        }
    }
}

/// The shape of a chain of parents.
pub proof fn lemma_path_shape(states: Seq<StateFns>, h: usize, f: nat)
    requires
        path_from(states, h, f) is Some,
    ensures
        ({
            let a = path_from(states, h, f).unwrap();
            &&& a.len() >= 1
            &&& a[0] == h
            &&& forall|j: int| 0 <= j < a.len() ==> #[trigger] a[j] < states.len()
            &&& forall|j: int|
                #![trigger a[j]]
                0 <= j < a.len() - 1 ==> states[a[j] as int].parent == Some(a[j + 1])
            &&& states[a[a.len() - 1] as int].parent is None
        }),
    decreases f,
{
    if let Some(p) = states[h as int].parent {
        lemma_path_shape(states, p, (f - 1) as nat);
        let rest = path_from(states, p, (f - 1) as nat).unwrap();
        let a = path_from(states, h, f).unwrap();
        assert(a == seq![h] + rest);
        assert(a[1] == rest[0]);
        assert(a[a.len() - 1] == rest[rest.len() - 1]);
        assert forall|j: int| 0 <= j < a.len() implies #[trigger] a[j] < states.len() by {
            if j > 0 {
                assert(a[j] == rest[j - 1]);
            }
        }
        assert forall|j: int|
            #![trigger a[j]]
            0 <= j < a.len() - 1 implies states[a[j] as int].parent == Some(a[j + 1]) by {
            if j > 0 {
                assert(a[j] == rest[j - 1]);
                assert(a[j + 1] == rest[j]);
            } else {
                assert(a[j] == h);
            }
        }
    }
}

/// The shape of an ancestry in a well-formed table.
pub proof fn lemma_ancestry_shape(states: Seq<StateFns>, h: usize)
    requires
        chain_ends(states, h),
    ensures
        ({
            let a = ancestry(states, h);
            &&& a.len() >= 1
            &&& a[0] == h
            &&& forall|j: int| 0 <= j < a.len() ==> #[trigger] a[j] < states.len()
            &&& forall|j: int|
                #![trigger a[j]]
                0 <= j < a.len() - 1 ==> states[a[j] as int].parent == Some(a[j + 1])
            &&& states[a[a.len() - 1] as int].parent is None
        }),
{
    lemma_path_shape(states, h, states.len());
}

/// One step up an ancestry.
pub proof fn lemma_ancestry_step(states: Seq<StateFns>, h: usize, p: usize)
    requires
        chain_ends(states, h),
        states[h as int].parent == Some(p),
    ensures
        p < states.len(),
        chain_ends(states, p),
        ancestry(states, h) == seq![h] + ancestry(states, p),
{
    assert(h < states.len());
    let rest = path_from(states, p, (states.len() - 1) as nat);
    assert(rest is Some);
    lemma_path_fuel(states, p, (states.len() - 1) as nat, states.len());
}

/// Chains of parents only depend on the parent links.
pub proof fn lemma_path_links(s1: Seq<StateFns>, s2: Seq<StateFns>, h: usize, f: nat)
    requires
        same_links(s1, s2),
    ensures
        path_from(s1, h, f) == path_from(s2, h, f),
    decreases f,
{
    if h < s1.len() {
        assert(s1[h as int].parent == s2[h as int].parent);
        if let Some(p) = s1[h as int].parent {
            if f > 0 {
                lemma_path_links(s1, s2, p, (f - 1) as nat);
            }
        }
    }
}

/// Well-formedness and ancestries only depend on the parent links.
pub proof fn lemma_links_wf(s1: Seq<StateFns>, s2: Seq<StateFns>)
    requires
        same_links(s1, s2),
    ensures
        table_wf(s1) == table_wf(s2),
        forall|h: usize| #[trigger] ancestry(s1, h) == ancestry(s2, h),
        forall|h: usize| #[trigger] chain_ends(s1, h) == chain_ends(s2, h),
{
    assert forall|h: usize| #[trigger] path_from(s1, h, s1.len()) == path_from(s2, h, s2.len()) by {
        lemma_path_links(s1, s2, h, s1.len());
    }
    assert forall|h: usize| #[trigger] ancestry(s1, h) == ancestry(s2, h) by {
        assert(path_from(s1, h, s1.len()) == path_from(s2, h, s2.len()));
    }
    assert forall|h: usize| #[trigger] chain_ends(s1, h) == chain_ends(s2, h) by {
        assert(path_from(s1, h, s1.len()) == path_from(s2, h, s2.len()));
    }
    if table_wf(s1) {
        assert forall|i: usize| i < s2.len() implies (#[trigger] path_from(s2, i, s2.len())) is Some by {
            assert(path_from(s1, i, s1.len()) == path_from(s2, i, s2.len()));
        }
    }
    if table_wf(s2) {
        assert forall|i: usize| i < s1.len() implies (#[trigger] path_from(s1, i, s1.len())) is Some by {
            assert(path_from(s1, i, s1.len()) == path_from(s2, i, s2.len()));
        }
    }
}

/// `first_match` stays between its start and the length.
pub proof fn lemma_first_match_range(a: Seq<usize>, pred: spec_fn(usize) -> bool, i: int)
    requires
        0 <= i <= a.len(),
    ensures
        i <= first_match(a, pred, i) <= a.len(),
    decreases a.len() - i,
{
    if i < a.len() {
        lemma_first_match_range(a, pred, i + 1);
    }
}

/// `first_match` is the first index from `i` on that matches.
pub proof fn lemma_first_match(a: Seq<usize>, pred: spec_fn(usize) -> bool, i: int, k: int)
    requires
        0 <= i <= k <= a.len(),
        forall|j: int| i <= j < k ==> !pred(#[trigger] a[j]),
        k == a.len() || pred(a[k]),
    ensures
        first_match(a, pred, i) == k,
    decreases k - i,
{
    if i < k {
        lemma_first_match(a, pred, i + 1, k);
    }
}

// ---------------------------------------------------------------------------
// The machine
// ---------------------------------------------------------------------------

/// Whether `x` is the sentinel.
fn reaches_sentinel(x: usize, sentinel: Option<usize>) -> (r: bool)
    ensures
        r == (sentinel == Some(x)),
{
    match sentinel {
        Some(v) => v == x,
        None => false,
    }
}

/// Whether the chain of parents of `h` stays in `states` and ends.
pub fn chain_ends_at(states: &Vec<StateFns>, h: usize) -> (r: bool)
    ensures
        r == chain_ends(states@, h),
{
    let n = states.len();
    let mut cur = h;
    let mut fuel = n;
    loop
        invariant
            n == states@.len(),
            fuel <= n,
            path_from(states@, h, n as nat) is Some == path_from(states@, cur, fuel as nat) is Some,
        decreases fuel,
    {
        if cur >= n {
            return false;
        }
        match states[cur].parent {
            None => {
                return true;
            },
            Some(p) => {
                if fuel == 0 {
                    return false;
                }
                fuel = fuel - 1;
                cur = p;
            },
        }
    }
}

impl SM {
    /// A machine over `state_fns` whose current and previous state is
    /// `initial`, with nothing queued and the current state marked as changed,
    /// so that the first dispatch runs the queued enter functions.
    ///
    /// Any table is taken, loops of parents included. The machine can run
    /// (`wf`) when the chain of parents of `initial` ends, which
    /// `chain_ends_at` decides.
    pub fn new(state_fns: Vec<StateFns>, initial: usize) -> (sm: SM)
        requires
            initial < state_fns.len(),
        ensures
            sm@ == (SmModel {
                states: state_fns@,
                enter: Seq::empty(),
                exit: Seq::empty(),
                current: initial,
                previous: initial,
                changed: true,
            }),
            sm.wf() == chain_ends(state_fns@, initial),
    {
        let n = state_fns.len();
        SM {
            state_fns,
            enter_fns_hdls: Vec::with_capacity(n),
            exit_fns_hdls: VecDeque::with_capacity(n),
            current_state_fns_handle: initial,
            previous_state_fns_handle: initial,
            current_state_changed: true,
        }
    }

    /// Queues the current state and all its ancestors for entry, so that the
    /// next dispatch enters them outermost first.
    pub fn initial_enter_fns_hdls(&mut self)
        requires
            old(self).wf(),
        ensures
            final(self)@ == (SmModel {
                enter: old(self)@.enter + ancestry(old(self)@.states, old(self)@.current),
                ..old(self)@
            }),
            final(self).wf(),
    {
        let ghost states = self.state_fns@;
        let ghost a = ancestry(states, self.current_state_fns_handle);
        proof {
            lemma_ancestry_shape(states, self.current_state_fns_handle);
        }
        let mut enter_hdl = self.current_state_fns_handle;
        let ghost mut j: int = 0;
        loop
            invariant_except_break
                self.enter_fns_hdls@ == old(self).enter_fns_hdls@ + a.take(j),
            invariant
                self.state_fns@ == states,
                self.exit_fns_hdls@ == old(self).exit_fns_hdls@,
                self.current_state_fns_handle == old(self).current_state_fns_handle,
                self.previous_state_fns_handle == old(self).previous_state_fns_handle,
                self.current_state_changed == old(self).current_state_changed,
                states == old(self).state_fns@,
                a.len() >= 1,
                forall|i: int| 0 <= i < a.len() ==> #[trigger] a[i] < states.len(),
                forall|i: int|
                    #![trigger a[i]]
                    0 <= i < a.len() - 1 ==> states[a[i] as int].parent == Some(a[i + 1]),
                states[a[a.len() - 1] as int].parent is None,
                0 <= j < a.len(),
                enter_hdl == a[j],
            ensures
                self.enter_fns_hdls@ == old(self).enter_fns_hdls@ + a,
            decreases a.len() - j,
        {
            self.enter_fns_hdls.push(enter_hdl);
            proof {
                assert(a.take(j + 1) == a.take(j).push(a[j]));
            }
            match self.state_fns[enter_hdl].parent {
                Some(h) => {
                    enter_hdl = h;
                    proof {
                        j = j + 1;
                    }
                },
                None => {
                    proof {
                        assert(a.take(j + 1) == a);
                    }
                    break ;
                },
            }
        }
        proof {
            let e = self.enter_fns_hdls@;
            let oe = old(self).enter_fns_hdls@;
            assert forall|k: int| 0 <= k < e.len() implies #[trigger] e[k] < states.len() by {
                if k >= oe.len() {
                    assert(e[k] == a[k - oe.len()]);
                }
            }
        }
    }

    /// Queues for exit the current state and its ancestors up to but not
    /// including `exit_sentinel` (the current state itself is queued even when
    /// it is the sentinel).
    pub fn setup_exit_fns_hdls(&mut self, exit_sentinel: Option<usize>)
        requires
            old(self).wf(),
        ensures
            final(self)@ == (SmModel {
                exit: old(self)@.exit + exit_seq(
                    ancestry(old(self)@.states, old(self)@.current),
                    exit_sentinel,
                ),
                ..old(self)@
            }),
            final(self).wf(),
    {
        let ghost states = self.state_fns@;
        let ghost a = ancestry(states, self.current_state_fns_handle);
        let ghost pred = is_sentinel(exit_sentinel);
        proof {
            lemma_ancestry_shape(states, self.current_state_fns_handle);
        }
        let mut exit_hdl = self.current_state_fns_handle;
        self.exit_fns_hdls.push_back(exit_hdl);
        if reaches_sentinel(exit_hdl, exit_sentinel) {
            proof {
                assert(a.take(1) == seq![a[0]]);
                assert(exit_seq(a, exit_sentinel) == a.take(1));
                let e = self.exit_fns_hdls@;
                let oe = old(self).exit_fns_hdls@;
                assert(e == oe.push(a[0]));
                assert(e =~= oe + exit_seq(a, exit_sentinel));
                assert forall|k: int| 0 <= k < e.len() implies #[trigger] e[k] < states.len() by {
                    if k >= oe.len() {
                        assert(e[k] == a[0]);
                    }
                }
            }
            return ;
        }
        let ghost mut j: int = 0;
        proof {
            assert(a.take(1) == seq![a[0]]);
        }
        loop
            invariant_except_break
                forall|i: int| 1 <= i <= j ==> !pred(#[trigger] a[i]),
                self.exit_fns_hdls@ == old(self).exit_fns_hdls@ + a.take(j + 1),
            invariant
                self.state_fns@ == states,
                self.enter_fns_hdls@ == old(self).enter_fns_hdls@,
                self.current_state_fns_handle == old(self).current_state_fns_handle,
                self.previous_state_fns_handle == old(self).previous_state_fns_handle,
                self.current_state_changed == old(self).current_state_changed,
                states == old(self).state_fns@,
                pred == is_sentinel(exit_sentinel),
                a.len() >= 1,
                forall|i: int| 0 <= i < a.len() ==> #[trigger] a[i] < states.len(),
                forall|i: int|
                    #![trigger a[i]]
                    0 <= i < a.len() - 1 ==> states[a[i] as int].parent == Some(a[i + 1]),
                states[a[a.len() - 1] as int].parent is None,
                exit_sentinel != Some(a[0]),
                0 <= j < a.len(),
                exit_hdl == a[j],
            ensures
                self.exit_fns_hdls@ == old(self).exit_fns_hdls@ + exit_seq(a, exit_sentinel),
            decreases a.len() - j,
        {
            match self.state_fns[exit_hdl].parent {
                None => {
                    proof {
                        lemma_first_match(a, pred, 1, a.len() as int);
                        assert(a.take(j + 1) == a);
                    }
                    break ;
                },
                Some(h) => {
                    exit_hdl = h;
                    proof {
                        j = j + 1;
                    }
                    if reaches_sentinel(exit_hdl, exit_sentinel) {
                        proof {
                            lemma_first_match(a, pred, 1, j);
                        }
                        break ;
                    }
                    self.exit_fns_hdls.push_back(exit_hdl);
                    proof {
                        assert(a.take(j + 1) == a.take(j).push(a[j]));
                    }
                },
            }
        }
        proof {
            let e = self.exit_fns_hdls@;
            let oe = old(self).exit_fns_hdls@;
            let x = exit_seq(a, exit_sentinel);
            lemma_first_match_range(a, pred, 1);
            assert(x.len() <= a.len());
            assert forall|k: int| 0 <= k < e.len() implies #[trigger] e[k] < states.len() by {
                if k >= oe.len() {
                    assert(e[k] == x[k - oe.len()]);
                    assert(x[k - oe.len()] == a[k - oe.len()]);
                }
            }
        }
    }
}

impl SM {
    /// Queues the states to enter on the way into `next_state_hdl` (it and
    /// its ancestors up to the first active one) and the states to exit on
    /// the way there from the current state (it and its ancestors up to that
    /// same active ancestor, or all of them when there is none).
    pub fn setup_exit_enter_fns_hdls(&mut self, next_state_hdl: usize)
        requires
            old(self).wf(),
            next_state_hdl < old(self).state_fns.len(),
            chain_ends(old(self)@.states, next_state_hdl),
        ensures
            final(self)@ == (SmModel {
                enter: old(self)@.enter + entry_seq(old(self)@.states, next_state_hdl),
                exit: transition_exits(old(self)@, next_state_hdl),
                ..old(self)@
            }),
            final(self).wf(),
    {
        let ghost states = self.state_fns@;
        let ghost b = ancestry(states, next_state_hdl);
        let ghost pred = is_active(states);
        proof {
            lemma_ancestry_shape(states, next_state_hdl);
        }
        let mut cur_hdl = next_state_hdl;
        let mut exit_sentinel: Option<usize> = None;
        let ghost mut j: int = 0;
        loop
            invariant_except_break
                self.enter_fns_hdls@ == old(self).enter_fns_hdls@ + b.take(j),
                forall|i: int| 1 <= i <= j ==> !pred(#[trigger] b[i]),
            invariant
                self.state_fns@ == states,
                self.exit_fns_hdls@ == old(self).exit_fns_hdls@,
                self.current_state_fns_handle == old(self).current_state_fns_handle,
                self.previous_state_fns_handle == old(self).previous_state_fns_handle,
                self.current_state_changed == old(self).current_state_changed,
                states == old(self).state_fns@,
                pred == is_active(states),
                b == ancestry(states, next_state_hdl),
                b.len() >= 1,
                forall|i: int| 0 <= i < b.len() ==> #[trigger] b[i] < states.len(),
                forall|i: int|
                    #![trigger b[i]]
                    0 <= i < b.len() - 1 ==> states[b[i] as int].parent == Some(b[i + 1]),
                states[b[b.len() - 1] as int].parent is None,
                0 <= j < b.len(),
                cur_hdl == b[j],
            ensures
                self.enter_fns_hdls@ == old(self).enter_fns_hdls@ + entry_seq(states, next_state_hdl),
                exit_sentinel == entry_sentinel(states, next_state_hdl),
            decreases b.len() - j,
        {
            self.enter_fns_hdls.push(cur_hdl);
            proof {
                assert(b.take(j + 1) == b.take(j).push(b[j]));
            }
            match self.state_fns[cur_hdl].parent {
                None => {
                    proof {
                        lemma_first_match(b, pred, 1, b.len() as int);
                        assert(b.take(j + 1) == b);
                    }
                    exit_sentinel = None;
                    break ;
                },
                Some(h) => {
                    cur_hdl = h;
                    proof {
                        j = j + 1;
                    }
                    if self.state_fns[cur_hdl].active {
                        proof {
                            lemma_first_match(b, pred, 1, j);
                        }
                        exit_sentinel = Some(cur_hdl);
                        break ;
                    }
                },
            }
        }
        proof {
            let e = self.enter_fns_hdls@;
            let oe = old(self).enter_fns_hdls@;
            let x = entry_seq(states, next_state_hdl);
            lemma_first_match_range(b, pred, 1);
            assert(x.len() <= b.len());
            assert forall|k: int| 0 <= k < e.len() implies #[trigger] e[k] < states.len() by {
                if k >= oe.len() {
                    assert(e[k] == x[k - oe.len()]);
                    assert(x[k - oe.len()] == b[k - oe.len()]);
                }
            }
        }
        self.setup_exit_fns_hdls(exit_sentinel);
    }

    /// The name of the current state.
    pub fn state_name(&self) -> (name: &str)
        requires
            self.current_state_fns_handle < self.state_fns.len(),
        ensures
            name@ == self@.states[self@.current as int].name@,
    {
        self.state_fns[self.current_state_fns_handle].name.as_str()
    }

    /// What a dispatch does after the process function of `hdl` returned `r`.
    pub fn chain_step(&self, hdl: usize, r: StateResult) -> (step: ChainStep)
        requires
            hdl < self.state_fns.len(),
        ensures
            step == chain_step_spec(self@.states, hdl as int, r),
    {
        match r {
            StateResult::NotHandled => match self.state_fns[hdl].parent {
                Some(p) => ChainStep::AskParent(p),
                None => ChainStep::Done,
            },
            StateResult::Handled => ChainStep::Done,
            StateResult::TransitionTo(t) => ChainStep::Transition(t),
        }
    }

    /// The enter phase of a dispatch: when the current state changed, runs the
    /// pending enter functions outermost first and marks their states active.
    fn run_enter_fns<H: StateFnHandlers>(&mut self, handlers: &mut H)
        requires
            old(self).wf(),
        ensures
            final(self)@ == after_enter(old(self)@),
            final(self).wf(),
            final(handlers).history() == old(handlers).history() + enter_phase_calls(old(self)@),
    {
        if self.current_state_changed {
            let n_states = self.state_fns.len();
            let ghost st0 = self.state_fns@;
            let ghost e = self.enter_fns_hdls@;
            assert(e.take(e.len() as int) == e);
            while self.enter_fns_hdls.len() > 0
                invariant
                    self.enter_fns_hdls@ == e.take(self.enter_fns_hdls@.len() as int),
                    self.enter_fns_hdls@.len() <= e.len(),
                    e == old(self).enter_fns_hdls@,
                    st0 == old(self).state_fns@,
                    n_states == st0.len(),
                    self.state_fns@.len() == st0.len(),
                    forall|i: usize|
                        i < st0.len() ==> #[trigger] self.state_fns@[i as int] == entered_row(
                            st0[i as int],
                            e.skip(self.enter_fns_hdls@.len() as int).contains(i),
                        ),
                    forall|k: int| 0 <= k < e.len() ==> (#[trigger] e[k]) < st0.len(),
                    self.exit_fns_hdls@ == old(self).exit_fns_hdls@,
                    self.current_state_fns_handle == old(self).current_state_fns_handle,
                    self.previous_state_fns_handle == old(self).previous_state_fns_handle,
                    self.current_state_changed == old(self).current_state_changed,
                    old(handlers).history() + enter_calls(st0, e) == handlers.history() + enter_calls(
                        st0,
                        e.take(self.enter_fns_hdls@.len() as int),
                    ),
                decreases self.enter_fns_hdls@.len(),
            {
                let ghost n = self.enter_fns_hdls@.len() as int;
                let enter_hdl = self.enter_fns_hdls.pop().unwrap();
                proof {
                    assert(enter_hdl == e[n - 1]);
                    assert(e.take(n - 1) == e.take(n).drop_last());
                    assert(e.skip(n - 1) == seq![e[n - 1]] + e.skip(n));
                }
                let ghost sf_before = self.state_fns@;
                let ghost calls_before = handlers.history();
                proof {
                    assert(e.take(n).last() == enter_hdl);
                    assert(sf_before[enter_hdl as int] == entered_row(
                        st0[enter_hdl as int],
                        e.skip(n).contains(enter_hdl),
                    ));
                    assert(sf_before[enter_hdl as int].has_enter == st0[enter_hdl as int].has_enter);
                }
                if self.state_fns[enter_hdl].has_enter {
                    handlers.enter(enter_hdl);
                    self.state_fns[enter_hdl].active = true;
                }
                proof {
                    let here = if st0[enter_hdl as int].has_enter {
                        seq![Call::Enter(enter_hdl)]
                    } else {
                        Seq::<Call>::empty()
                    };
                    assert(enter_calls(st0, e.take(n)) == here + enter_calls(st0, e.take(n - 1)));
                    if st0[enter_hdl as int].has_enter {
                        assert(handlers.history() =~= calls_before + here);
                    } else {
                        assert(handlers.history() =~= calls_before + here);
                    }
                    assert(calls_before + enter_calls(st0, e.take(n)) == handlers.history() + enter_calls(
                        st0,
                        e.take(n - 1),
                    ));
                }
                proof {
                    assert forall|i: usize| i < st0.len() implies #[trigger] self.state_fns@[i as int]
                        == entered_row(st0[i as int], e.skip(n - 1).contains(i)) by {
                        assert(sf_before[i as int] == entered_row(
                            st0[i as int],
                            e.skip(n).contains(i),
                        ));
                        if i == enter_hdl {
                            assert(e.skip(n - 1)[0] == enter_hdl);
                            assert(e.skip(n - 1).contains(i));
                        } else {
                            assert(self.state_fns@[i as int] == sf_before[i as int]);
                            if e.skip(n - 1).contains(i) {
                                let w = choose|w: int|
                                    0 <= w < e.skip(n - 1).len() && #[trigger] e.skip(n - 1)[w]
                                        == i;
                                assert(e.skip(n)[w - 1] == i);
                            }
                            if e.skip(n).contains(i) {
                                let w = choose|w: int|
                                    0 <= w < e.skip(n).len() && #[trigger] e.skip(n)[w] == i;
                                assert(e.skip(n - 1)[w + 1] == i);
                            }
                        }
                    }
                }
            }
            self.current_state_changed = false;
            proof {
                assert(e.take(0) == Seq::<usize>::empty());
                assert(handlers.history() == old(handlers).history() + enter_calls(st0, e));
                assert(e.skip(0) == e);
                let m = after_enter(old(self)@);
                assert forall|i: int| 0 <= i < st0.len() implies #[trigger] self.state_fns@[i]
                    == m.states[i] by {
                    assert(self.state_fns@[(i as usize) as int] == entered_row(
                        st0[(i as usize) as int],
                        e.contains(i as usize),
                    ));
                }
                assert(self.state_fns@ =~= m.states);
                assert(self.enter_fns_hdls@ =~= Seq::<usize>::empty());
                assert(same_links(st0, self.state_fns@));
                lemma_links_wf(st0, self.state_fns@);
            }
        }
    }

    /// The exit phase of a transition: runs the queued exit functions,
    /// innermost first, and empties the exit list.
    fn run_exit_fns<H: StateFnHandlers>(&mut self, handlers: &mut H)
        requires
            old(self).wf(),
        ensures
            final(self)@ == (SmModel { exit: Seq::empty(), ..old(self)@ }),
            final(self).wf(),
            final(handlers).history() == old(handlers).history() + exit_calls(
                old(self)@.states,
                old(self)@.exit,
            ),
    {
        while self.exit_fns_hdls.len() > 0
            invariant
                self.state_fns@ == old(self).state_fns@,
                self.enter_fns_hdls@ == old(self).enter_fns_hdls@,
                self.current_state_fns_handle == old(self).current_state_fns_handle,
                self.previous_state_fns_handle == old(self).previous_state_fns_handle,
                self.current_state_changed == old(self).current_state_changed,
                old(handlers).history() + exit_calls(old(self)@.states, old(self)@.exit) == handlers.history()
                    + exit_calls(self.state_fns@, self.exit_fns_hdls@),
                forall|k: int|
                    0 <= k < self.exit_fns_hdls@.len() ==> #[trigger] self.exit_fns_hdls@[k]
                        < self.state_fns@.len(),
            decreases self.exit_fns_hdls@.len(),
        {
            let ghost x0 = self.exit_fns_hdls@;
            let exit_hdl = self.exit_fns_hdls.pop_front().unwrap();
            proof {
                assert(exit_hdl == x0[0]);
                assert forall|k: int| 0 <= k < self.exit_fns_hdls@.len() implies #[trigger] self.exit_fns_hdls@[k]
                    < self.state_fns@.len() by {
                    assert(self.exit_fns_hdls@[k] == x0[k + 1]);
                }
            }
            let ghost calls_before = handlers.history();
            if self.state_fns[exit_hdl].has_exit {
                handlers.exit(exit_hdl);
            }
            proof {
                let st = self.state_fns@;
                let here = if st[exit_hdl as int].has_exit {
                    seq![Call::Exit(exit_hdl)]
                } else {
                    Seq::<Call>::empty()
                };
                assert(x0.drop_first() =~= self.exit_fns_hdls@);
                assert(exit_calls(st, x0) == here + exit_calls(st, self.exit_fns_hdls@));
                assert(handlers.history() =~= calls_before + here);
                assert(calls_before + exit_calls(st, x0) =~= handlers.history() + exit_calls(
                    st,
                    self.exit_fns_hdls@,
                ));
            }
        }
        proof {
            assert(self.exit_fns_hdls@ =~= Seq::<usize>::empty());
            assert(handlers.history() =~= old(handlers).history() + exit_calls(old(self)@.states, old(self)@.exit));
        }
    }
}

impl SM {
    /// Runs the process function of `hdl` and, while the answer is
    /// `NotHandled`, those of its ancestors in turn; returns the state whose
    /// answer ended the chain and that answer. The chain ends at the first
    /// answer other than `NotHandled`, or at the outermost ancestor.
    fn process_chain<H: StateFnHandlers>(&mut self, hdl: usize, handlers: &mut H) -> (answer: (
        usize,
        StateResult,
    ))
        requires
            old(self).wf(),
            hdl < old(self).state_fns.len(),
            chain_ends(old(self)@.states, hdl),
        ensures
            final(self)@ == old(self)@,
            final(handlers).history() == old(handlers).history() + final(handlers).history().skip(
                old(handlers).history().len() as int,
            ),
            is_process_chain(
                ancestry(old(self)@.states, hdl),
                final(handlers).history().skip(old(handlers).history().len() as int),
            ),
            final(handlers).history().last() == Call::Process(answer.0, answer.1),
            ancestry(old(self)@.states, hdl).contains(answer.0),
            answer.0 < old(self)@.states.len(),
            answer.1 is NotHandled ==> old(self)@.states[answer.0 as int].parent is None,
    {
        let ghost states = self.state_fns@;
        let ghost a = ancestry(states, hdl);
        let ghost c0 = handlers.history();
        proof {
            lemma_ancestry_shape(states, hdl);
        }
        let mut cur_hdl = hdl;
        let ghost mut j: int = 0;
        loop
            invariant
                self.wf(),
                self@ == old(self)@,
                states == self.state_fns@,
                c0 == old(handlers).history(),
                a == ancestry(states, hdl),
                a.len() >= 1,
                forall|i: int| 0 <= i < a.len() ==> #[trigger] a[i] < states.len(),
                forall|i: int|
                    #![trigger a[i]]
                    0 <= i < a.len() - 1 ==> states[a[i] as int].parent == Some(a[i + 1]),
                states[a[a.len() - 1] as int].parent is None,
                0 <= j < a.len(),
                cur_hdl == a[j],
                handlers.history().len() == c0.len() + j,
                handlers.history().take(c0.len() as int) == c0,
                forall|i: int|
                    0 <= i < j ==> #[trigger] handlers.history()[c0.len() + i] == Call::Process(
                        a[i],
                        StateResult::NotHandled,
                    ),
            decreases a.len() - j,
        {
            let ghost calls_before = handlers.history();
            let r = handlers.process(cur_hdl);
            proof {
                assert(handlers.history().take(c0.len() as int) =~= calls_before.take(c0.len() as int));
                assert forall|i: int| 0 <= i < j implies #[trigger] handlers.history()[c0.len() + i]
                    == Call::Process(a[i], StateResult::NotHandled) by {
                    assert(handlers.history()[c0.len() + i] == calls_before[c0.len() + i]);
                }
            }
            match self.chain_step(cur_hdl, r) {
                ChainStep::AskParent(p) => {
                    proof {
                        assert(j < a.len() - 1) by {
                            if j == a.len() - 1 {
                                assert(states[a[j] as int].parent is None);
                            }
                        }
                        assert(states[a[j] as int].parent == Some(a[j + 1]));
                    }
                    cur_hdl = p;
                    proof {
                        j = j + 1;
                    }
                },
                _ => {
                    proof {
                        let chain = handlers.history().skip(c0.len() as int);
                        assert(handlers.history() =~= c0 + chain);
                        assert(chain.len() == j + 1);
                        assert(chain.last() == Call::Process(a[j], r));
                        assert forall|i: int| 0 <= i < chain.len() implies #[trigger] chain[i]
                            == Call::Process(a[i], answer_of(chain[i])) by {
                            assert(chain[i] == handlers.history()[c0.len() + i]);
                        }
                        assert forall|i: int| 0 <= i < chain.len() - 1 implies answer_of(
                            #[trigger] chain[i],
                        ) == StateResult::NotHandled by {
                            assert(chain[i] == handlers.history()[c0.len() + i]);
                        }
                        if r is NotHandled {
                            if j < a.len() - 1 {
                                assert(states[a[j] as int].parent == Some(a[j + 1]));
                            }
                        }
                        assert(a.contains(cur_hdl));
                    }
                    return (cur_hdl, r);
                },
            }
        }
    }

    /// Dispatches starting at state `hdl`.
    ///
    /// When the current state changed since the last dispatch, the pending
    /// enter functions run first (outermost first) and their states become
    /// active. Then the process function of `hdl` runs, and while it answers
    /// `NotHandled`, that of each ancestor in turn. An answer
    /// `TransitionTo(t)` queues the states on the way into `t` for entry
    /// (they are entered at the next dispatch), runs the exit functions of
    /// the states left (innermost first), and makes `t` current and the old
    /// current state previous. A target outside the table is refused with
    /// `NoSuchState`, and a target whose chain of parents loops (the states
    /// on the way into it cannot be listed) with `ParentLoop`; either once
    /// the enter phase and the process chain have run, and nothing more
    /// happens. `hdl`'s own chain of parents must end.
    ///
    /// Every call of a user function is in the handlers' `history`: the dispatch
    /// appends the enter calls of its enter phase, then its process chain
    /// (`is_process_chain` up the ancestry of `hdl`), then, for a move into
    /// the table, the exit calls of the states left; `dispatch_outcome` ties
    /// the result and the new machine to the last answer of the chain.
    pub fn dispatch_hdl<H: StateFnHandlers>(&mut self, hdl: usize, handlers: &mut H) -> (r: Result<
        Option<usize>,
        DispatchError,
    >)
        requires
            old(self).wf(),
            hdl < old(self).state_fns.len(),
            chain_ends(old(self)@.states, hdl),
        ensures
            final(self).wf(),
            final(handlers).history().len() >= old(handlers).history().len(),
            final(handlers).history().take(old(handlers).history().len() as int) == old(handlers).history(),
            exists|chain: Seq<Call>|
                #[trigger] is_process_chain(ancestry(old(self)@.states, hdl), chain)
                    && dispatch_outcome(
                    old(self)@,
                    chain,
                    r,
                    final(self)@,
                    final(handlers).history().skip(old(handlers).history().len() as int),
                ),
    {
        let ghost m = self@;
        let ghost c0 = handlers.history();
        self.run_enter_fns(handlers);
        let ghost m0 = self@;
        let ghost c1 = handlers.history();
        proof {
            assert(same_links(m.states, m0.states));
            lemma_links_wf(m.states, m0.states);
            assert(ancestry(m.states, hdl) == ancestry(m0.states, hdl));
        }
        let (_, answer) = self.process_chain(hdl, handlers);
        let ghost c2 = handlers.history();
        let ghost chain = c2.skip(c1.len() as int);
        proof {
            assert(chain.last() == c2.last());
            assert(answer_of(chain.last()) == answer);
            assert(c1 == c0 + enter_phase_calls(m));
            assert(c2.skip(c0.len() as int) =~= enter_phase_calls(m) + chain);
            assert(c2.take(c0.len() as int) =~= c0);
        }
        match answer {
            StateResult::NotHandled => Ok(None),
            StateResult::Handled => Ok(None),
            StateResult::TransitionTo(t) => {
                if t >= self.state_fns.len() {
                    Err(DispatchError::NoSuchState(t))
                } else if !chain_ends_at(&self.state_fns, t) {
                    Err(DispatchError::ParentLoop(t))
                } else {
                    self.setup_exit_enter_fns_hdls(t);
                    self.current_state_changed = true;
                    self.run_exit_fns(handlers);
                    self.previous_state_fns_handle = self.current_state_fns_handle;
                    self.current_state_fns_handle = t;
                    proof {
                        let c3 = handlers.history();
                        let x = exit_calls(m0.states, transition_exits(m0, t));
                        assert(c3 == c2 + x);
                        assert(c3.skip(c0.len() as int) =~= enter_phase_calls(m) + chain + x);
                        assert(c3.take(c0.len() as int) =~= c0);
                    }
                    Ok(Some(t))
                }
            },
        }
    }

    /// Dispatches starting at the current state (see [`SM::dispatch_hdl`]).
    pub fn dispatch<H: StateFnHandlers>(&mut self, handlers: &mut H) -> (r: Result<
        Option<usize>,
        DispatchError,
    >)
        requires
            old(self).wf(),
        ensures
            final(self).wf(),
            final(handlers).history().len() >= old(handlers).history().len(),
            final(handlers).history().take(old(handlers).history().len() as int) == old(handlers).history(),
            exists|chain: Seq<Call>|
                #[trigger] is_process_chain(ancestry(old(self)@.states, old(self)@.current), chain)
                    && dispatch_outcome(
                    old(self)@,
                    chain,
                    r,
                    final(self)@,
                    final(handlers).history().skip(old(handlers).history().len() as int),
                ),
    {
        let hdl = self.current_state_fns_handle;
        self.dispatch_hdl(hdl, handlers)
    }
}

} // verus!

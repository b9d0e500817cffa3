//! What holds of the library as a whole: of every dispatch, of every pair of
//! dispatches, and of every declaration that turns into a machine.
use crate::machine::{
    Call, DispatchError, SmModel, StateFns, StateResult, after_enter, after_transition, ancestry,
    answer_of, dispatch_outcome, enter_calls, enter_phase_calls, entry_sentinel, entry_seq,
    exit_calls, exit_seq, first_match, handle_of, is_active, is_process_chain, is_sentinel,
    lemma_ancestry_shape, lemma_ancestry_step, lemma_first_match, lemma_first_match_range,
    chain_ends, lemma_links_wf, path_from, same_links, same_shape, transition_exits,
};
use crate::parse::{
    Fsm1Model, StateIdentsModel, first_state_attr, has_fn, is_state_fn, state_idents, states_of,
};
use crate::plan::{
    Fsm1Failure,
    first_fn_failure, first_macro_failure, first_state_failure, fsm1_failure, initial_before,
    initial_index, is_transition, lemma_initial_index, macro_failure, plan_spec, state_failure,
    state_named, state_plan,
};
use crate::source::{AttrModel, FnModel, MacroModel};
use vstd::prelude::*;

verus! {

/// A chain of parents visits no state twice, and each of its suffixes is the
/// ancestry of its first state.
pub proof fn lemma_ancestry_suffix(states: Seq<StateFns>, h: usize, j: int)
    requires
        chain_ends(states, h),
        0 <= j < ancestry(states, h).len(),
    ensures
        chain_ends(states, ancestry(states, h)[j]),
        ancestry(states, ancestry(states, h)[j]) == ancestry(states, h).skip(j),
    decreases j,
{
    let a = ancestry(states, h);
    if j == 0 {
        lemma_ancestry_shape(states, h);
        assert(a.skip(0) == a);
    } else {
        lemma_ancestry_suffix(states, h, j - 1);
        let x = a[j - 1];
        let y = a[j];
        assert(states[x as int].parent == Some(y)) by {
            lemma_ancestry_shape(states, h);
        }
        lemma_ancestry_step(states, x, y);
        let tail = ancestry(states, y);
        let s1 = a.skip(j - 1);
        assert(s1 == seq![x] + tail);
        assert(a.skip(j) =~= s1.skip(1));
        assert(tail =~= (seq![x] + tail).skip(1));
    }
}

/// The states of an ancestry are pairwise distinct.
pub proof fn lemma_ancestry_distinct(states: Seq<StateFns>, h: usize)
    requires
        chain_ends(states, h),
    ensures
        forall|i: int, j: int|
            0 <= i < j < ancestry(states, h).len() ==> ancestry(states, h)[i] != ancestry(
                states,
                h,
            )[j],
{
    let a = ancestry(states, h);
    assert forall|i: int, j: int| 0 <= i < j < a.len() implies a[i] != a[j] by {
        lemma_ancestry_suffix(states, h, i);
        lemma_ancestry_suffix(states, h, j);
        if a[i] == a[j] {
            assert(a.skip(i).len() != a.skip(j).len());
        }
    }
}

/// Entering and exiting stay on the chains of parents: a transition to `t`
/// queues `t` first and then only ancestors of `t` for entry, and exits the
/// current state first and then only ancestors of the current state.
pub proof fn law_transition_stays_on_ancestries(m: SmModel, t: usize)
    requires
        m.wf(),
        chain_ends(m.states, t),
    ensures
        entry_seq(m.states, t).len() >= 1,
        entry_seq(m.states, t)[0] == t,
        entry_seq(m.states, t).is_prefix_of(ancestry(m.states, t)),
        exit_seq(ancestry(m.states, m.current), entry_sentinel(m.states, t)).len() >= 1,
        exit_seq(ancestry(m.states, m.current), entry_sentinel(m.states, t))[0] == m.current,
        exit_seq(ancestry(m.states, m.current), entry_sentinel(m.states, t)).is_prefix_of(
            ancestry(m.states, m.current),
        ),
{
    let b = ancestry(m.states, t);
    let a = ancestry(m.states, m.current);
    lemma_ancestry_shape(m.states, t);
    lemma_ancestry_shape(m.states, m.current);
    lemma_first_match_range(b, is_active(m.states), 1);
    lemma_first_match_range(a, is_sentinel(entry_sentinel(m.states, t)), 1);
}

/// What `first_match` finds: no match from `i` up to it, and a match at it
/// unless it is the length.
pub proof fn lemma_first_match_found(a: Seq<usize>, pred: spec_fn(usize) -> bool, i: int)
    requires
        0 <= i <= a.len(),
    ensures
        i <= first_match(a, pred, i) <= a.len(),
        forall|j: int| i <= j < first_match(a, pred, i) ==> !pred(#[trigger] a[j]),
        first_match(a, pred, i) < a.len() ==> pred(a[first_match(a, pred, i)]),
    decreases a.len() - i,
{
    if i < a.len() && !pred(a[i]) {
        lemma_first_match_found(a, pred, i + 1);
    }
}

/// A transition to `t` queues for entry `t` and then its ancestors, up to
/// and not including the first ancestor whose `active` flag is set,
/// whatever functions that ancestor has (all of them when none is active);
/// that ancestor is the one at which leaving the current state stops.
pub proof fn law_entry_stops_at_first_active(states: Seq<StateFns>, t: usize)
    requires
        chain_ends(states, t),
    ensures
        ({
            let a = ancestry(states, t);
            let e = entry_seq(states, t);
            &&& 1 <= e.len() <= a.len()
            &&& e == a.take(e.len() as int)
            &&& e[0] == t
            &&& forall|j: int|
                #![trigger a[j]]
                1 <= j < e.len() ==> !states[a[j] as int].active
            &&& e.len() < a.len() ==> states[a[e.len() as int] as int].active
            &&& entry_sentinel(states, t) == (if e.len() < a.len() {
                Some(a[e.len() as int])
            } else {
                None
            })
        }),
{
    let a = ancestry(states, t);
    lemma_ancestry_shape(states, t);
    lemma_first_match_found(a, is_active(states), 1);
    let k = first_match(a, is_active(states), 1);
    let e = entry_seq(states, t);
    assert(e.len() == k);
    assert forall|j: int| #![trigger a[j]] 1 <= j < e.len() implies !states[a[j] as int].active by {
        assert(!is_active(states)(a[j]));
    }
    if k < a.len() {
        assert(is_active(states)(a[k]));
    }
}

/// Leaving the current state `c` towards the ancestor `sentinel` exits `c`
/// and then its ancestors up to and not including the sentinel (all of them
/// when the sentinel is not among them); when `c` is the sentinel, `c` alone.
pub proof fn law_exit_stops_at_sentinel(states: Seq<StateFns>, c: usize, sentinel: Option<usize>)
    requires
        chain_ends(states, c),
    ensures
        ({
            let a = ancestry(states, c);
            let x = exit_seq(a, sentinel);
            &&& 1 <= x.len() <= a.len()
            &&& x == a.take(x.len() as int)
            &&& x[0] == c
            &&& sentinel == Some(c) ==> x.len() == 1
            &&& sentinel != Some(c) ==> {
                &&& forall|j: int| #![trigger a[j]] 1 <= j < x.len() ==> sentinel != Some(a[j])
                &&& x.len() < a.len() ==> sentinel == Some(a[x.len() as int])
            }
        }),
{
    let a = ancestry(states, c);
    lemma_ancestry_shape(states, c);
    lemma_first_match_found(a, is_sentinel(sentinel), 1);
    let k = first_match(a, is_sentinel(sentinel), 1);
    if sentinel != Some(c) {
        let x = exit_seq(a, sentinel);
        assert(x.len() == k);
        assert forall|j: int| #![trigger a[j]] 1 <= j < x.len() implies sentinel != Some(a[j]) by {
            assert(!is_sentinel(sentinel)(a[j]));
        }
        if k < a.len() {
            assert(is_sentinel(sentinel)(a[k]));
        }
    }
}

/// In a machine without parents, a transition from `c` to `t` exits exactly
/// `c` and queues exactly `t` for entry.
pub proof fn law_flat_transition(m: SmModel, t: usize)
    requires
        m.wf(),
        t < m.states.len(),
        forall|i: int| 0 <= i < m.states.len() ==> (#[trigger] m.states[i]).parent is None,
    ensures
        chain_ends(m.states, t),
        entry_seq(m.states, t) == seq![t],
        exit_seq(ancestry(m.states, m.current), entry_sentinel(m.states, t)) == seq![m.current],
{
    assert(path_from(m.states, t, m.states.len()) == Some(seq![t]));
    let b = ancestry(m.states, t);
    let a = ancestry(m.states, m.current);
    lemma_ancestry_shape(m.states, t);
    lemma_ancestry_shape(m.states, m.current);
    assert(b.len() == 1) by {
        if b.len() > 1 {
            assert(m.states[b[0] as int].parent == Some(b[1]));
        }
    }
    assert(a.len() == 1) by {
        if a.len() > 1 {
            assert(m.states[a[0] as int].parent == Some(a[1]));
        }
    }
    lemma_first_match(b, is_active(m.states), 1, 1);
    lemma_first_match(a, is_sentinel(entry_sentinel(m.states, t)), 1, 1);
    assert(b.take(1) == seq![t]);
    assert(a.take(1) == seq![m.current]);
}

/// A state that transitions to itself is exited and queued for entry again,
/// together with its ancestors up to (not including) the nearest active one:
/// the states exited are exactly the states re-entered, in opposite order.
pub proof fn law_self_transition(m: SmModel)
    requires
        m.wf(),
    ensures
        exit_seq(ancestry(m.states, m.current), entry_sentinel(m.states, m.current)) == entry_seq(
            m.states,
            m.current,
        ),
{
    let c = m.current;
    let a = ancestry(m.states, c);
    let pred = is_active(m.states);
    lemma_ancestry_shape(m.states, c);
    lemma_ancestry_distinct(m.states, c);
    lemma_first_match_range(a, pred, 1);
    let k = first_match(a, pred, 1);
    let s = entry_sentinel(m.states, c);
    if k < a.len() {
        assert(s == Some(a[k]));
        assert(a[0] != a[k]);
        assert forall|j: int| 1 <= j < k implies !is_sentinel(s)(#[trigger] a[j]) by {
            assert(a[j] != a[k]);
        }
        lemma_first_match(a, is_sentinel(s), 1, k);
    } else {
        assert(s is None);
        lemma_first_match(a, is_sentinel(s), 1, a.len() as int);
    }
}

/// A dispatch that makes no transition (its chain ends in `Handled`,
/// `NotHandled`, or a move to a state outside the table) keeps the current
/// and previous states, acknowledges the change, leaves the exit list as it
/// was, makes no call after the process chain, and leaves nothing for the
/// next dispatch to enter.
pub proof fn law_dispatch_without_transition(
    m: SmModel,
    chain: Seq<Call>,
    r: Result<Option<usize>, DispatchError>,
    post: SmModel,
    log: Seq<Call>,
)
    requires
        m.wf(),
        is_process_chain(ancestry(m.states, m.current), chain),
        dispatch_outcome(m, chain, r, post, log),
        !(r matches Ok(Some(_))),
    ensures
        post.current == m.current,
        post.previous == m.previous,
        !post.changed,
        post.exit == m.exit,
        log == enter_phase_calls(m) + chain,
        enter_phase_calls(post) == Seq::<Call>::empty(),
        after_enter(post) == post,
{
    match answer_of(chain.last()) {
        StateResult::TransitionTo(t) => {
            if t < m.states.len() && chain_ends(m.states, t) {
                assert(r == Ok::<Option<usize>, DispatchError>(Some(t)));
            }
        },
        _ => {},
    }
}

/// A transition of a state to itself exits, in that dispatch, exactly the
/// states that the next dispatch enters: both run over the same states
/// (the current one and its ancestors below the nearest active one), the
/// exits innermost first and the entries outermost first.
pub proof fn law_self_transition_calls(
    m: SmModel,
    chain: Seq<Call>,
    r: Result<Option<usize>, DispatchError>,
    post: SmModel,
    log: Seq<Call>,
)
    requires
        m.wf(),
        m.changed || m.enter.len() == 0,
        m.exit.len() == 0,
        is_process_chain(ancestry(m.states, m.current), chain),
        dispatch_outcome(m, chain, r, post, log),
        r == Ok::<Option<usize>, DispatchError>(Some(m.current)),
    ensures
        ({
            let q = entry_seq(after_enter(m).states, m.current);
            &&& log == enter_phase_calls(m) + chain + exit_calls(post.states, q)
            &&& enter_phase_calls(post) == enter_calls(post.states, q)
        }),
{
    let m0 = after_enter(m);
    lemma_after_enter_wf(m);
    law_exit_now_enter_next(m, chain, r, post, log, m.current);
    law_self_transition(m0);
    assert(transition_exits(m0, m.current) =~= exit_seq(
        ancestry(m0.states, m0.current),
        entry_sentinel(m0.states, m0.current),
    ));
}

/// Dispatching never changes the table beyond turning states active, and a
/// state once active stays active.
pub proof fn law_dispatch_only_activates(m: SmModel, t: usize)
    requires
        m.wf(),
    ensures
        same_shape(m.states, after_enter(m).states),
        forall|i: int|
            0 <= i < m.states.len() && (#[trigger] m.states[i]).active ==> after_enter(
                m,
            ).states[i].active,
        after_transition(after_enter(m), t).states == after_enter(m).states,
{
}

/// The enter functions that a transition queues run at the next dispatch:
/// after a transition to `t` (from a machine with nothing pending), the next
/// dispatch makes active exactly the states on the way into `t` that have
/// an enter function, besides those already active.
pub proof fn law_entered_after_transition(m: SmModel, t: usize)
    requires
        m.wf(),
        t < m.states.len(),
        m.enter.len() == 0,
    ensures
        ({
            let m1 = after_transition(after_enter(m), t);
            let m2 = after_enter(m1);
            forall|i: int|
                0 <= i < m.states.len() ==> (#[trigger] m2.states[i]).active == (
                after_enter(m).states[i].active || (entry_seq(after_enter(m).states, t).contains(
                    i as usize,
                ) && m.states[i].has_enter))
        }),
{
    let m0 = after_enter(m);
    let m1 = after_transition(m0, t);
    assert(m1.enter == entry_seq(m0.states, t)) by {
        if m.changed {
            assert(m0.enter == Seq::<usize>::empty());
        }
        assert(m0.enter.len() == 0);
        assert(m1.enter =~= entry_seq(m0.states, t));
    }
}

// ---------------------------------------------------------------------------
// The calls a dispatch makes
// ---------------------------------------------------------------------------

/// The enter phase keeps a machine well formed.
pub proof fn lemma_after_enter_wf(m: SmModel)
    requires
        m.wf(),
    ensures
        after_enter(m).wf(),
        same_links(m.states, after_enter(m).states),
        forall|h: usize| #[trigger] ancestry(after_enter(m).states, h) == ancestry(m.states, h),
        forall|h: usize| #[trigger] chain_ends(after_enter(m).states, h) == chain_ends(m.states, h),
{
    let m0 = after_enter(m);
    assert(same_links(m.states, m0.states));
    lemma_links_wf(m.states, m0.states);
}

/// The last call of an enter phase over `e` is the enter function of `e[0]`,
/// when that state has one.
pub proof fn lemma_enter_calls_last(states: Seq<StateFns>, e: Seq<usize>)
    requires
        e.len() >= 1,
        states[e[0] as int].has_enter,
    ensures
        enter_calls(states, e).len() >= 1,
        enter_calls(states, e).last() == Call::Enter(e[0]),
    decreases e.len(),
{
    let rest = e.drop_last();
    if e.len() == 1 {
        assert(rest.len() == 0);
        assert(enter_calls(states, rest) == Seq::<Call>::empty());
    } else {
        assert(rest[0] == e[0]);
        lemma_enter_calls_last(states, rest);
    }
}

/// When a process function answers `NotHandled`, the same dispatch asks the
/// process function of its state's parent next; the chain starts at the
/// state dispatched to, and ends with `NotHandled` only at a state without a
/// parent.
pub proof fn law_not_handled_asks_parent(states: Seq<StateFns>, h: usize, chain: Seq<Call>)
    requires
        chain_ends(states, h),
        is_process_chain(ancestry(states, h), chain),
    ensures
        chain[0] == Call::Process(h, answer_of(chain[0])),
        forall|i: int|
            0 <= i < chain.len() && answer_of(#[trigger] chain[i]) == StateResult::NotHandled
                && states[handle_of(chain[i]) as int].parent is Some ==> {
                &&& i + 1 < chain.len()
                &&& chain[i + 1] == Call::Process(
                    states[handle_of(chain[i]) as int].parent.unwrap(),
                    answer_of(chain[i + 1]),
                )
            },
        forall|i: int|
            0 <= i < chain.len() - 1 ==> answer_of(#[trigger] chain[i]) == StateResult::NotHandled,
        answer_of(chain.last()) == StateResult::NotHandled ==> states[handle_of(
            chain.last(),
        ) as int].parent is None,
{
    let a = ancestry(states, h);
    lemma_ancestry_shape(states, h);
    assert(chain[0] == Call::Process(a[0], answer_of(chain[0])));
    assert forall|i: int|
        0 <= i < chain.len() && answer_of(#[trigger] chain[i]) == StateResult::NotHandled
            && states[handle_of(chain[i]) as int].parent is Some implies {
        &&& i + 1 < chain.len()
        &&& chain[i + 1] == Call::Process(
            states[handle_of(chain[i]) as int].parent.unwrap(),
            answer_of(chain[i + 1]),
        )
    } by {
        assert(chain[i] == Call::Process(a[i], answer_of(chain[i])));
        assert(handle_of(chain[i]) == a[i]);
        if i == chain.len() - 1 {
            assert(chain.last() == chain[i]);
            assert(chain.len() == a.len());
            assert(states[a[a.len() - 1] as int].parent is None);
        }
        assert(i + 1 < chain.len());
        assert(states[a[i] as int].parent == Some(a[i + 1]));
        assert(chain[i + 1] == Call::Process(a[i + 1], answer_of(chain[i + 1])));
    }
    let l = chain.len() - 1;
    assert(chain[l] == Call::Process(a[l], answer_of(chain[l])));
    if answer_of(chain.last()) == StateResult::NotHandled {
        assert(chain.len() == a.len());
    }
}

/// A dispatch that moves to `t` runs the exit functions of the states left
/// in that same dispatch, right after the process function that asked for
/// the move; the enter functions of the states entered run at the start of
/// the next dispatch, the one of `t` last, just before `t` processes.
pub proof fn law_exit_now_enter_next(
    m: SmModel,
    chain: Seq<Call>,
    r: Result<Option<usize>, DispatchError>,
    post: SmModel,
    log: Seq<Call>,
    t: usize,
)
    requires
        m.wf(),
        m.changed || m.enter.len() == 0,
        is_process_chain(ancestry(m.states, m.current), chain),
        dispatch_outcome(m, chain, r, post, log),
        r == Ok::<Option<usize>, DispatchError>(Some(t)),
    ensures
        answer_of(chain.last()) == StateResult::TransitionTo(t),
        log == enter_phase_calls(m) + chain + exit_calls(
            after_enter(m).states,
            transition_exits(after_enter(m), t),
        ),
        post.current == t,
        post.previous == m.current,
        post.changed,
        post.exit.len() == 0,
        enter_phase_calls(post) == enter_calls(post.states, entry_seq(post.states, t)),
        post.states[t as int].has_enter ==> enter_phase_calls(post).last() == Call::Enter(t),
{
    let m0 = after_enter(m);
    lemma_after_enter_wf(m);
    match answer_of(chain.last()) {
        StateResult::TransitionTo(u) => {
            if u < m.states.len() {
                assert(u == t);
            }
        },
        _ => {},
    }
    assert(m0.enter.len() == 0);
    assert(post.enter =~= entry_seq(m0.states, t));
    assert(post.states == m0.states);
    assert(chain_ends(m0.states, t) == chain_ends(m.states, t));
    law_transition_stays_on_ancestries(m0, t);
    if post.states[t as int].has_enter {
        lemma_enter_calls_last(post.states, entry_seq(post.states, t));
    }
}

/// In a machine without parents (as in every `fsm1!` declaration whose
/// `#[fsm1_state]` attributes name no parent), a dispatch runs
/// the process function of the current state alone. When it moves to `t`,
/// the exit function of the state left runs in that dispatch (if it has
/// one), and the next dispatch starts with the enter function of `t` (if it
/// has one). Otherwise the dispatch makes no call after the process
/// function, and the next dispatch runs no enter function.
pub proof fn law_flat_dispatch_calls(
    m: SmModel,
    chain: Seq<Call>,
    r: Result<Option<usize>, DispatchError>,
    post: SmModel,
    log: Seq<Call>,
)
    requires
        m.wf(),
        forall|i: int| 0 <= i < m.states.len() ==> (#[trigger] m.states[i]).parent is None,
        m.exit.len() == 0,
        m.changed || m.enter.len() == 0,
        is_process_chain(ancestry(m.states, m.current), chain),
        dispatch_outcome(m, chain, r, post, log),
    ensures
        chain == seq![Call::Process(m.current, answer_of(chain[0]))],
        match r {
            Ok(Some(t)) => {
                &&& log == enter_phase_calls(m) + chain + (if m.states[m.current as int].has_exit {
                    seq![Call::Exit(m.current)]
                } else {
                    Seq::empty()
                })
                &&& enter_phase_calls(post) == (if m.states[t as int].has_enter {
                    seq![Call::Enter(t)]
                } else {
                    Seq::empty()
                })
            },
            _ => {
                &&& log == enter_phase_calls(m) + chain
                &&& enter_phase_calls(post) == Seq::<Call>::empty()
            },
        },
{
    let m0 = after_enter(m);
    let c = m.current;
    lemma_after_enter_wf(m);
    lemma_ancestry_shape(m.states, c);
    let a = ancestry(m.states, c);
    assert(a.len() == 1) by {
        if a.len() > 1 {
            assert(m.states[a[0] as int].parent == Some(a[1]));
        }
    }
    assert(chain.len() == 1);
    assert(chain =~= seq![Call::Process(c, answer_of(chain[0]))]);
    assert(chain.last() == chain[0]);
    match r {
        Ok(Some(t)) => {
            law_exit_now_enter_next(m, chain, r, post, log, t);
            assert forall|i: int| 0 <= i < m0.states.len() implies (
            #[trigger] m0.states[i]).parent is None by {
                assert(m0.states[i].parent == m.states[i].parent);
            }
            law_flat_transition(m0, t);
            assert(transition_exits(m0, t) =~= seq![c]);
            assert(seq![c].drop_first() =~= Seq::<usize>::empty());
            assert(exit_calls(m0.states, Seq::<usize>::empty()) == Seq::<Call>::empty());
            assert(m0.states[c as int].has_exit == m.states[c as int].has_exit);
            assert(post.states == m0.states);
            assert(seq![t].drop_last() =~= Seq::<usize>::empty());
            assert(enter_calls(post.states, Seq::<usize>::empty()) == Seq::<Call>::empty());
            assert(m0.states[t as int].has_enter == m.states[t as int].has_enter);
            let ex = if m.states[c as int].has_exit {
                seq![Call::Exit(c)]
            } else {
                Seq::<Call>::empty()
            };
            assert(exit_calls(m0.states, seq![c]) =~= ex);
            let en = if m.states[t as int].has_enter {
                seq![Call::Enter(t)]
            } else {
                Seq::<Call>::empty()
            };
            assert(enter_calls(post.states, seq![t]) =~= en);
        },
        _ => {
            assert(post == m0);
            assert(!post.changed);
        },
    }
}

// ---------------------------------------------------------------------------
// Declarations
// ---------------------------------------------------------------------------

/// What `first_state_attr` finds: no `fsm1_state` attribute from `i` up to
/// it, and one at it unless it is the length.
pub proof fn lemma_first_state_attr_found(attrs: Seq<AttrModel>, i: int)
    requires
        0 <= i <= attrs.len(),
    ensures
        i <= first_state_attr(attrs, i) <= attrs.len(),
        forall|j: int|
            i <= j < first_state_attr(attrs, i) ==> (#[trigger] attrs[j]).ident != Some(
                "fsm1_state"@,
            ),
        first_state_attr(attrs, i) < attrs.len() ==> attrs[first_state_attr(attrs, i)].ident
            == Some("fsm1_state"@),
    decreases attrs.len() - i,
{
    if i < attrs.len() && attrs[i].ident != Some("fsm1_state"@) {
        lemma_first_state_attr_found(attrs, i + 1);
    }
}

/// The parent of each state read from a declaration is the argument of the
/// first `fsm1_state` attribute of the function the state was read from;
/// no other attribute ever supplies a parent.
pub proof fn law_state_parent_from_first_mark(prefix: Seq<FnModel>, fns: Seq<FnModel>)
    ensures
        forall|k: int|
            0 <= k < states_of(prefix, fns).len() ==> exists|j: int, i: int|
                #![trigger prefix[j].attrs[i]]
                0 <= j < prefix.len() && 0 <= i < prefix[j].attrs.len() && prefix[j].name
                    == (#[trigger] states_of(prefix, fns)[k]).process
                    && prefix[j].attrs[i].ident == Some("fsm1_state"@) && (forall|i2: int|
                    0 <= i2 < i ==> (#[trigger] prefix[j].attrs[i2]).ident != Some(
                        "fsm1_state"@,
                    )) && states_of(prefix, fns)[k].parent == prefix[j].attrs[i].arg,
    decreases prefix.len(),
{
    if prefix.len() > 0 {
        let pre = prefix.drop_last();
        law_state_parent_from_first_mark(pre, fns);
        let st = states_of(prefix, fns);
        let sp = states_of(pre, fns);
        assert forall|k: int| #![trigger st[k]] 0 <= k < st.len() implies exists|j: int, i: int|
            #![trigger prefix[j].attrs[i]]
            0 <= j < prefix.len() && 0 <= i < prefix[j].attrs.len() && prefix[j].name
                == st[k].process && prefix[j].attrs[i].ident == Some("fsm1_state"@) && (forall|
                i2: int,
            |
                0 <= i2 < i ==> (#[trigger] prefix[j].attrs[i2]).ident != Some("fsm1_state"@))
                && st[k].parent == prefix[j].attrs[i].arg by {
            if k < sp.len() {
                assert(st[k] == sp[k]);
                let (j, i) = choose|j: int, i: int|
                    #![trigger pre[j].attrs[i]]
                    0 <= j < pre.len() && 0 <= i < pre[j].attrs.len() && pre[j].name
                        == sp[k].process && pre[j].attrs[i].ident == Some("fsm1_state"@)
                        && (forall|i2: int|
                        0 <= i2 < i ==> (#[trigger] pre[j].attrs[i2]).ident != Some(
                            "fsm1_state"@,
                        )) && sp[k].parent == pre[j].attrs[i].arg;
                assert(prefix[j] == pre[j]);
                assert(prefix[j].attrs[i] == pre[j].attrs[i]);
            } else {
                let j = prefix.len() - 1;
                let f = prefix[j];
                assert(f == prefix.last());
                let i = first_state_attr(f.attrs, 0);
                lemma_first_state_attr_found(f.attrs, 0);
                assert(st[k] == state_idents(f, fns));
                assert(prefix[j].attrs[i].ident == Some("fsm1_state"@));
            }
        }
    }
}

/// Every state of a read declaration is one of its functions and carries an
/// `fsm1_state` attribute; it has an enter (exit) function exactly when the
/// declaration has a function called `<name>_enter` (`<name>_exit`).
pub proof fn law_states_are_marked_functions(prefix: Seq<FnModel>, fns: Seq<FnModel>)
    ensures
        forall|k: int|
            0 <= k < states_of(prefix, fns).len() ==> {
                let s = #[trigger] states_of(prefix, fns)[k];
                &&& exists|j: int|
                    0 <= j < prefix.len() && (#[trigger] prefix[j]).name == s.process && is_state_fn(
                        prefix[j],
                    )
                &&& (s.enter is Some <==> has_fn(fns, s.process + "_enter"@))
                &&& (s.exit is Some <==> has_fn(fns, s.process + "_exit"@))
                &&& s.enter is Some ==> s.enter == Some(s.process + "_enter"@)
                &&& s.exit is Some ==> s.exit == Some(s.process + "_exit"@)
            },
        states_of(prefix, fns).len() <= prefix.len(),
    decreases prefix.len(),
{
    if prefix.len() > 0 {
        let pre = prefix.drop_last();
        law_states_are_marked_functions(pre, fns);
        let st = states_of(prefix, fns);
        assert forall|k: int| #![trigger st[k]] 0 <= k < st.len() implies exists|j: int|
            0 <= j < prefix.len() && (#[trigger] prefix[j]).name == st[k].process && is_state_fn(
                prefix[j],
            ) by {
            if k < states_of(pre, fns).len() {
                let j = choose|j: int|
                    0 <= j < pre.len() && (#[trigger] pre[j]).name == st[k].process
                        && is_state_fn(pre[j]);
                assert(prefix[j] == pre[j]);
            } else {
                assert(prefix[prefix.len() - 1] == prefix.last());
            }
        }
    }
}

/// Every function carrying an `fsm1_state` attribute is a state.
pub proof fn law_marked_functions_are_states(prefix: Seq<FnModel>, fns: Seq<FnModel>)
    ensures
        forall|j: int|
            0 <= j < prefix.len() && is_state_fn(#[trigger] prefix[j]) ==> exists|k: int|
                0 <= k < states_of(prefix, fns).len() && (#[trigger] states_of(prefix, fns)[k]).process
                    == prefix[j].name,
    decreases prefix.len(),
{
    if prefix.len() > 0 {
        let pre = prefix.drop_last();
        law_marked_functions_are_states(pre, fns);
        let st = states_of(prefix, fns);
        assert forall|j: int| 0 <= j < prefix.len() && is_state_fn(#[trigger] prefix[j]) implies exists|
            k: int,
        | 0 <= k < st.len() && (#[trigger] st[k]).process == prefix[j].name by {
            if j < pre.len() {
                assert(pre[j] == prefix[j]);
                let k = choose|k: int|
                    0 <= k < states_of(pre, fns).len() && (#[trigger] states_of(pre, fns)[k]).process
                        == pre[j].name;
                assert(st[k] == states_of(pre, fns)[k]);
            } else {
                assert(prefix[j] == prefix.last());
                assert(st[st.len() - 1].process == prefix[j].name);
            }
        }
    }
}

/// `state_named` finds a state of that name, and the last one.
pub proof fn lemma_state_named(states: Seq<StateIdentsModel>, name: Seq<char>, n: int)
    requires
        0 <= n <= states.len(),
        states.len() <= usize::MAX,
    ensures
        state_named(states, name, n) is Some <==> exists|j: int|
            0 <= j < n && (#[trigger] states[j]).process == name,
        state_named(states, name, n) is Some ==> {
            let h = state_named(states, name, n).unwrap();
            &&& h < n
            &&& states[h as int].process == name
            &&& forall|j: int| h < j < n ==> (#[trigger] states[j]).process != name
        },
    decreases n,
{
    if n > 0 {
        lemma_state_named(states, name, n - 1);
        if states[n - 1].process != name {
            if state_named(states, name, n) is Some {
                let h = state_named(states, name, n).unwrap();
                assert forall|j: int| h < j < n implies (#[trigger] states[j]).process != name by {
                    if j < n - 1 {
                    }
                }
            }
        }
    }
}

/// In the machine planned for a declaration without failure, the initial
/// handle is that of the one state called `initial`.
pub proof fn law_plan_initial(d: Fsm1Model)
    requires
        fsm1_failure(d) is None,
        d.states.len() <= usize::MAX,
    ensures
        plan_spec(d).initial_state_hdl < plan_spec(d).state_fns.len(),
        plan_spec(d).state_fns[plan_spec(d).initial_state_hdl as int].name == "initial"@,
        forall|k: int|
            0 <= k < plan_spec(d).state_fns.len() && (#[trigger] plan_spec(d).state_fns[k]).name
                == "initial"@ ==> k == plan_spec(d).initial_state_hdl,
{
    let p = plan_spec(d);
    lemma_initial_unique(d.states, 0);
    lemma_plan_initial_index(d);
    lemma_initial_index(d.states, 0);
    let i = initial_index(d.states, 0);
    assert(0 <= i < d.states.len());
    assert(p.initial_state_hdl as int == i);
    assert(p.state_fns.len() == d.states.len());
    assert(p.state_fns[i] == state_plan(d.states, d.states[i]));
    assert forall|k: int|
        0 <= k < p.state_fns.len() && (#[trigger] p.state_fns[k]).name == "initial"@ implies k
        == p.initial_state_hdl by {
        assert(p.state_fns[k] == state_plan(d.states, d.states[k]));
        if k < i {
            assert(d.states[k].process != "initial"@);
        }
        if k > i {
            assert(d.states[i].process == "initial"@);
        }
    }
}

/// No two states are called `initial` when no state failure is met.
proof fn lemma_initial_unique(states: Seq<StateIdentsModel>, k: int)
    requires
        0 <= k <= states.len(),
        first_state_failure(states, k) is None,
    ensures
        forall|i: int, j: int|
            k <= j < states.len() && 0 <= i < j && (#[trigger] states[i]).process == "initial"@
                ==> (#[trigger] states[j]).process != "initial"@,
    decreases states.len() - k,
{
    if k < states.len() {
        lemma_initial_unique(states, k + 1);
        assert(state_failure(states, k) is None);
        assert forall|i: int| 0 <= i < k && (#[trigger] states[i]).process == "initial"@ implies states[k].process
            != "initial"@ by {
            if states[k].process == "initial"@ {
                assert(initial_before(states, k));
            }
        }
    }
}

proof fn lemma_plan_initial_index(d: Fsm1Model)
    requires
        fsm1_failure(d) is None,
    ensures
        initial_index(d.states, 0) < d.states.len(),
        d.states[initial_index(d.states, 0)].process == "initial"@,
        forall|i: int, j: int|
            0 <= i < j < d.states.len() && (#[trigger] d.states[i]).process == "initial"@
                ==> (#[trigger] d.states[j]).process != "initial"@,
{
    lemma_initial_index(d.states, 0);
    lemma_initial_unique(d.states, 0);
}

/// In the machine planned for a declaration without failure, each state's
/// parent handle is that of the (last) state called as the declared parent,
/// and each `transition_to!(name)` stands for the (last) state called `name`.
pub proof fn law_plan_handles_name_their_states(d: Fsm1Model)
    requires
        fsm1_failure(d) is None,
        d.states.len() <= usize::MAX,
    ensures
        forall|k: int|
            0 <= k < d.states.len() && (#[trigger] d.states[k]).parent is Some ==> {
                let h = plan_spec(d).state_fns[k].parent;
                &&& h is Some
                &&& h.unwrap() < d.states.len()
                &&& plan_spec(d).state_fns[h.unwrap() as int].name == d.states[k].parent.unwrap()
            },
        forall|f: int, m: int|
            0 <= f < d.fns.len() && 0 <= m < d.fns[f].macros.len() && is_transition(
                #[trigger] d.fns[f].macros[m],
            ) ==> {
                let h = plan_spec(d).transitions[f][m];
                &&& h is Some
                &&& h.unwrap() < d.states.len()
                &&& plan_spec(d).state_fns[h.unwrap() as int].name == d.fns[f].macros[m].tokens[0]
            },
{
    let p = plan_spec(d);
    assert forall|k: int| 0 <= k < d.states.len() && (#[trigger] d.states[k]).parent is Some implies {
        let h = p.state_fns[k].parent;
        &&& h is Some
        &&& h.unwrap() < d.states.len()
        &&& p.state_fns[h.unwrap() as int].name == d.states[k].parent.unwrap()
    } by {
        lemma_state_failures_none(d.states, 0, k);
        lemma_state_named(d.states, d.states[k].parent.unwrap(), d.states.len() as int);
    }
    assert forall|f: int, m: int|
        0 <= f < d.fns.len() && 0 <= m < d.fns[f].macros.len() && is_transition(
            #[trigger] d.fns[f].macros[m],
        ) implies {
        let h = p.transitions[f][m];
        &&& h is Some
        &&& h.unwrap() < d.states.len()
        &&& p.state_fns[h.unwrap() as int].name == d.fns[f].macros[m].tokens[0]
    } by {
        lemma_fn_failures_none(d.states, d.fns, 0, f);
        lemma_macro_failures_none(d.states, d.fns[f].macros, f, 0, m);
        lemma_state_named(d.states, d.fns[f].macros[m].tokens[0], d.states.len() as int);
    }
}

proof fn lemma_state_failures_none(states: Seq<StateIdentsModel>, k: int, i: int)
    requires
        0 <= k <= i < states.len(),
        first_state_failure(states, k) is None,
    ensures
        state_failure(states, i) is None,
    decreases i - k,
{
    if k < i {
        lemma_state_failures_none(states, k + 1, i);
    }
}

proof fn lemma_fn_failures_none(states: Seq<StateIdentsModel>, fns: Seq<FnModel>, k: int, i: int)
    requires
        0 <= k <= i < fns.len(),
        first_fn_failure(states, fns, k) is None,
    ensures
        first_macro_failure(states, fns[i].macros, i, 0) is None,
    decreases i - k,
{
    if k < i {
        lemma_fn_failures_none(states, fns, k + 1, i);
    }
}

proof fn lemma_macro_failures_none(
    states: Seq<StateIdentsModel>,
    macs: Seq<MacroModel>,
    f: int,
    k: int,
    i: int,
)
    requires
        0 <= k <= i < macs.len(),
        first_macro_failure(states, macs, f, k) is None,
    ensures
        macro_failure(states, macs[i], f, i) is None,
    decreases i - k,
{
    if k < i {
        lemma_macro_failures_none(states, macs, f, k + 1, i);
    }
}

// ---------------------------------------------------------------------------
// What check refuses
// ---------------------------------------------------------------------------

/// `state_named` finds nothing exactly when no state below `n` has the name.
pub proof fn lemma_state_named_none(states: Seq<StateIdentsModel>, name: Seq<char>, n: int)
    requires
        0 <= n <= states.len(),
    ensures
        state_named(states, name, n) is None <==> forall|j: int|
            0 <= j < n ==> (#[trigger] states[j]).process != name,
    decreases n,
{
    if n > 0 {
        lemma_state_named_none(states, name, n - 1);
    }
}

/// The failures met at the states are about initial states and parents.
pub proof fn lemma_state_failure_kind(states: Seq<StateIdentsModel>, k: int)
    ensures
        first_state_failure(states, k) matches Some(e) ==> (e is DuplicateInitial
            || e is UndefinedParent),
    decreases states.len() - k,
{
    if k < states.len() && state_failure(states, k) is None {
        lemma_state_failure_kind(states, k + 1);
    }
}

/// Where in the macros from `m` on an unknown-state failure comes from.
pub proof fn lemma_macro_failure_unknown(
    states: Seq<StateIdentsModel>,
    macs: Seq<MacroModel>,
    f: int,
    m: int,
    fun: usize,
    mac: usize,
)
    requires
        0 <= m,
        macs.len() <= usize::MAX,
        first_macro_failure(states, macs, f, m) == Some(
            Fsm1Failure::TransitionToUnknownState { fun, mac },
        ),
    ensures
        m <= mac < macs.len(),
        macro_failure(states, macs[mac as int], f, mac as int) == Some(
            Fsm1Failure::TransitionToUnknownState { fun, mac },
        ),
    decreases macs.len() - m,
{
    if macro_failure(states, macs[m], f, m) is None {
        lemma_macro_failure_unknown(states, macs, f, m + 1, fun, mac);
    }
}

/// Where in the functions from `f` on an unknown-state failure comes from.
pub proof fn lemma_fn_failure_unknown(
    states: Seq<StateIdentsModel>,
    fns: Seq<FnModel>,
    f: int,
    fun: usize,
    mac: usize,
)
    requires
        0 <= f,
        fns.len() <= usize::MAX,
        forall|g: int| 0 <= g < fns.len() ==> (#[trigger] fns[g]).macros.len() <= usize::MAX,
        first_fn_failure(states, fns, f) == Some(Fsm1Failure::TransitionToUnknownState { fun, mac }),
    ensures
        f <= fun < fns.len(),
        mac < fns[fun as int].macros.len(),
        macro_failure(states, fns[fun as int].macros[mac as int], fun as int, mac as int) == Some(
            Fsm1Failure::TransitionToUnknownState { fun, mac },
        ),
    decreases fns.len() - f,
{
    if first_macro_failure(states, fns[f].macros, f, 0) is None {
        lemma_fn_failure_unknown(states, fns, f + 1, fun, mac);
    } else {
        lemma_macro_failure_unknown(states, fns[f].macros, f, 0, fun, mac);
        let m = mac as int;
        assert(macro_failure(states, fns[f].macros[m], f, m) == Some(
            Fsm1Failure::TransitionToUnknownState { fun, mac },
        ));
        assert(fun as int == f);
    }
}

/// A declaration is refused with `TransitionToUnknownState` only for a
/// `transition_to!` with a single parameter that no state is called by:
/// any state of that name, with or without a parent, is a valid target.
pub proof fn law_unknown_state_names_no_state(d: Fsm1Model)
    requires
        d.fns.len() <= usize::MAX,
        forall|g: int| 0 <= g < d.fns.len() ==> (#[trigger] d.fns[g]).macros.len() <= usize::MAX,
    ensures
        fsm1_failure(d) matches Some(Fsm1Failure::TransitionToUnknownState { fun, mac }) ==> {
            &&& fun < d.fns.len()
            &&& mac < d.fns[fun as int].macros.len()
            &&& d.fns[fun as int].macros[mac as int].name == Some("transition_to"@)
            &&& d.fns[fun as int].macros[mac as int].tokens.len() == 1
            &&& forall|k: int|
                0 <= k < d.states.len() ==> (#[trigger] d.states[k]).process
                    != d.fns[fun as int].macros[mac as int].tokens[0]
        },
{
    lemma_state_failure_kind(d.states, 0);
    if let Some(Fsm1Failure::TransitionToUnknownState { fun, mac }) = fsm1_failure(d) {
        assert(first_fn_failure(d.states, d.fns, 0) == Some(
            Fsm1Failure::TransitionToUnknownState { fun, mac },
        ));
        lemma_fn_failure_unknown(d.states, d.fns, 0, fun, mac);
        let mm = d.fns[fun as int].macros[mac as int];
        lemma_state_named_none(d.states, mm.tokens[0], d.states.len() as int);
    }
}

/// A declaration is accepted when exactly one state is called `initial`,
/// every parent named is a state, and every `transition_to!` has a single
/// parameter that some state is called by, whether or not that state has a
/// parent.
pub proof fn law_sound_declaration_is_accepted(d: Fsm1Model)
    requires
        exists|k: int| 0 <= k < d.states.len() && (#[trigger] d.states[k]).process == "initial"@,
        forall|k1: int, k2: int|
            0 <= k1 < k2 < d.states.len() && (#[trigger] d.states[k1]).process == "initial"@
                ==> (#[trigger] d.states[k2]).process != "initial"@,
        forall|k: int|
            0 <= k < d.states.len() && (#[trigger] d.states[k]).parent is Some ==> exists|j: int|
                0 <= j < d.states.len() && (#[trigger] d.states[j]).process == d.states[k].parent.unwrap(),
        forall|f: int, m: int|
            0 <= f < d.fns.len() && 0 <= m < d.fns[f].macros.len() && (#[trigger] d.fns[f].macros[m]).name
                == Some("transition_to"@) ==> {
                &&& d.fns[f].macros[m].tokens.len() == 1
                &&& exists|k: int|
                    0 <= k < d.states.len() && (#[trigger] d.states[k]).process
                        == d.fns[f].macros[m].tokens[0]
            },
    ensures
        fsm1_failure(d) is None,
{
    let st = d.states;
    lemma_states_sound(d, 0);
    assert(initial_before(st, st.len() as int));
    lemma_fns_sound(d, 0);
}

/// The states from `k` on meet no failure (see `law_sound_declaration_is_accepted`).
pub proof fn lemma_states_sound(d: Fsm1Model, k: int)
    requires
        0 <= k,
        forall|k1: int, k2: int|
            0 <= k1 < k2 < d.states.len() && (#[trigger] d.states[k1]).process == "initial"@
                ==> (#[trigger] d.states[k2]).process != "initial"@,
        forall|k: int|
            0 <= k < d.states.len() && (#[trigger] d.states[k]).parent is Some ==> exists|j: int|
                0 <= j < d.states.len() && (#[trigger] d.states[j]).process == d.states[k].parent.unwrap(),
    ensures
        first_state_failure(d.states, k) is None,
    decreases d.states.len() - k,
{
    let st = d.states;
    if k < st.len() {
        if st[k].process == "initial"@ && initial_before(st, k) {
            let j = choose|j: int| 0 <= j < k && (#[trigger] st[j]).process == "initial"@;
            assert(st[k].process != "initial"@);
        }
        if st[k].parent is Some {
            let j = choose|j: int| 0 <= j < st.len() && (#[trigger] st[j]).process == st[k].parent.unwrap();
            lemma_state_named_none(st, st[k].parent.unwrap(), st.len() as int);
        }
        assert(state_failure(st, k) is None);
        lemma_states_sound(d, k + 1);
    }
}

/// The macros of the functions from `f` on meet no failure (see
/// `law_sound_declaration_is_accepted`).
pub proof fn lemma_fns_sound(d: Fsm1Model, f: int)
    requires
        0 <= f,
        forall|f: int, m: int|
            0 <= f < d.fns.len() && 0 <= m < d.fns[f].macros.len() && (#[trigger] d.fns[f].macros[m]).name
                == Some("transition_to"@) ==> {
                &&& d.fns[f].macros[m].tokens.len() == 1
                &&& exists|k: int|
                    0 <= k < d.states.len() && (#[trigger] d.states[k]).process
                        == d.fns[f].macros[m].tokens[0]
            },
    ensures
        first_fn_failure(d.states, d.fns, f) is None,
    decreases d.fns.len() - f,
{
    if f < d.fns.len() {
        lemma_macros_sound(d, f, 0);
        lemma_fns_sound(d, f + 1);
    }
}

/// The macros of function `f` from `m` on meet no failure.
pub proof fn lemma_macros_sound(d: Fsm1Model, f: int, m: int)
    requires
        0 <= f < d.fns.len(),
        0 <= m,
        forall|f: int, m: int|
            0 <= f < d.fns.len() && 0 <= m < d.fns[f].macros.len() && (#[trigger] d.fns[f].macros[m]).name
                == Some("transition_to"@) ==> {
                &&& d.fns[f].macros[m].tokens.len() == 1
                &&& exists|k: int|
                    0 <= k < d.states.len() && (#[trigger] d.states[k]).process
                        == d.fns[f].macros[m].tokens[0]
            },
    ensures
        first_macro_failure(d.states, d.fns[f].macros, f, m) is None,
    decreases d.fns[f].macros.len() - m,
{
    let macs = d.fns[f].macros;
    if m < macs.len() {
        let mac = d.fns[f].macros[m];
        if is_transition(mac) {
            let k = choose|k: int| 0 <= k < d.states.len() && (#[trigger] d.states[k]).process == mac.tokens[0];
            lemma_state_named_none(d.states, mac.tokens[0], d.states.len() as int);
        }
        assert(macro_failure(d.states, macs[m], f, m) is None);
        lemma_macros_sound(d, f, m + 1);
    }
}

} // verus!

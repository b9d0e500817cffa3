# expr-proc-macros

Experiments with procedural macros, the largest of which, `fsm1!`, turns a
struct and its functions into a hierarchical state machine.

Layout:

- `src/` — the verified library:
  - `source.rs`: a macro's input as plain values (function names, attributes,
    macro invocations);
  - `parse.rs`: reading an `fsm1!` (and `init!`) declaration;
  - `plan.rs`: turning a declaration into a state table, and every way it
    can fail;
  - `machine.rs`: the state machine the table runs on (entering, exiting,
    dispatching); the handlers of the user's state functions carry a ghost
    history of the calls they receive, over which dispatch is specified;
  - `laws.rs`: what holds of every dispatch (which of the user's functions
    it calls, with which states, in which order, and what it returns and
    leaves behind) and of every declaration;
  - `tokens.rs`, `visit.rs`: the macros that return their input, and the
    counter of the `visit1` walk.
- `tests/` — the examples of the workspace as tests.
- `app/` — the macros themselves: reading tokens with `syn`, emitting code
  with `quote`, and the example programs.

Looking up a function or a state by name is a scan of the list of functions
or states rather than a hash map keyed by name: where two have the same name,
the last one wins, as a later `HashMap::insert` would.

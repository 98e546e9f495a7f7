//! The fixed-point loop that solves a list of gates.
use vstd::prelude::*;
use crate::arithmetic::ArithmeticSolver;
use crate::circuit::{Expression, GadgetCall, Gate, Opcode, PartialWitness, eval_expr, values};
use crate::directives::{directive_step, solve_directive};
use crate::field::FieldElement;
use crate::logic::{LogicSolver, logic_shape, logic_step, range_outcome};

verus! {

broadcast use vstd::std_specs::btree::group_btree_axioms;

/// What became of a gate, or of a whole solving attempt.
#[derive(Debug)]
pub enum GateResolution {
    /// Solved.
    Resolved,
    /// Cannot be solved yet: an input is unknown.
    Skip,
    /// A malformed gate.
    UnknownError(String),
    /// The backend does not implement this black-box function.
    UnsupportedOpcode(Opcode),
    /// The witness violates a constraint.
    UnsatisfiedConstrain,
    /// A full pass solved nothing; these gates are left.
    Stalled(Vec<Gate>),
}

/// Every gate is an arithmetic gate.
pub open spec fn all_arithmetic(gs: Seq<Gate>) -> bool {
    forall|i: int| 0 <= i < gs.len() ==> #[trigger] gs[i] is Arithmetic
}

/// The value of an arithmetic gate's expression.
pub open spec fn gate_value(g: Gate, m: Map<u32, nat>) -> Option<nat> {
    match g {
        Gate::Arithmetic(e) => eval_expr(e, m),
        _ => None,
    }
}

/// Some arithmetic gate evaluates to a nonzero value.
pub open spec fn some_violated(gs: Seq<Gate>, m: Map<u32, nat>) -> bool {
    exists|i: int|
        0 <= i < gs.len() && (#[trigger] gate_value(gs[i], m)) is Some && gate_value(gs[i], m).unwrap()
            != 0
}

/// The arithmetic gates that cannot be evaluated yet, in their order.
pub open spec fn undetermined(gs: Seq<Gate>, m: Map<u32, nat>) -> Seq<Gate>
    decreases gs.len(),
{
    if gs.len() == 0 {
        gs
    } else {
        let u = undetermined(gs.drop_last(), m);
        if gate_value(gs.last(), m) is None {
            u.push(gs.last())
        } else {
            u
        }
    }
}

proof fn lemma_undetermined(gs: Seq<Gate>, m: Map<u32, nat>)
    requires
        all_arithmetic(gs),
    ensures
        undetermined(gs, m).len() <= gs.len(),
        all_arithmetic(undetermined(gs, m)),
        forall|i: int|
            0 <= i < undetermined(gs, m).len() ==> #[trigger] gate_value(undetermined(gs, m)[i], m)
                is None,
        undetermined(undetermined(gs, m), m) == undetermined(gs, m),
    decreases gs.len(),
{
    if gs.len() > 0 {
        let t = gs.drop_last();
        assert(all_arithmetic(t)) by {
            assert forall|i: int| 0 <= i < t.len() implies #[trigger] t[i] is Arithmetic by {
                assert(t[i] == gs[i]);
            }
        }
        lemma_undetermined(t, m);
        let u = undetermined(t, m);
        if gate_value(gs.last(), m) is None {
            let v = u.push(gs.last());
            assert(v.drop_last() =~= u);
            assert(all_arithmetic(v)) by {
                assert forall|i: int| 0 <= i < v.len() implies #[trigger] v[i] is Arithmetic by {
                    if i < u.len() {
                        assert(v[i] == u[i]);
                    }
                }
            }
        }
    }
}

/// What one gate does to the assignment `m`, as far as the solver itself decides it.
pub open spec fn gate_step(g: Gate, m: Map<u32, nat>, r: GateResolution, m2: Map<u32, nat>) -> bool {
    match g {
        Gate::Arithmetic(e) => m2 == m && match eval_expr(e, m) {
            None => r is Skip,
            Some(v) => if v == 0 {
                r is Resolved
            } else {
                r is UnsatisfiedConstrain
            },
        },
        Gate::Directive(d) => directive_step(d, m, r, m2),
        Gate::GadgetCall(gc) => match gc.name {
            Opcode::Range => m2 == m && if gc.inputs@.len() != 1 {
                r is UnknownError
            } else {
                range_outcome(gc, m, r)
            },
            Opcode::And => if logic_shape(gc) {
                logic_step(gc, m, false, r, m2)
            } else {
                r is UnknownError && m2 == m
            },
            Opcode::Xor => if logic_shape(gc) {
                logic_step(gc, m, true, r, m2)
            } else {
                r is UnknownError && m2 == m
            },
            Opcode::Named(_) => if exists|i: int|
                0 <= i < gc.inputs@.len() && !m.contains_key(#[trigger] gc.inputs@[i].witness.0) {
                r is Skip && m2 == m
            } else {
                r is Resolved || r is UnsupportedOpcode
            },
        },
    }
}

/// The backend's part of solving: black-box functions the solver does not
/// know itself.
pub trait GadgetSolver {
    /// Computes the outputs of a black-box call whose inputs are all known,
    /// or names the opcode as unsupported.
    fn solve_gadget_call(initial_witness: &mut PartialWitness, gc: &GadgetCall) -> Result<
        (),
        Opcode,
    >;
}

/// Witness generation for a backend: the solving loop, with the backend's
/// own black-box calls.
pub trait PartialWitnessGenerator: GadgetSolver {
    /// Solves the gates against the witness pass after pass, with this
    /// backend for the black-box calls only it knows.
    fn solve(&self, initial_witness: &mut PartialWitness, gates: Vec<Gate>) -> (r: GateResolution)
        ensures
            solve_outcome(gates@, values(old(initial_witness)@), r, values(final(initial_witness)@)),
    {
        solve(self, initial_witness, gates)
    }

    /// The value of an expression, once every witness it reads is known.
    fn get_value(a: &Expression, initial_witness: &PartialWitness) -> (r: Option<FieldElement>)
        ensures
            r.is_some() == eval_expr(*a, values(initial_witness@)).is_some(),
            r.is_some() ==> r.unwrap().value() == eval_expr(*a, values(initial_witness@)).unwrap(),
    {
        crate::circuit::get_value(a, initial_witness)
    }
}

/// Runs one gate.
pub fn solve_gate<G: GadgetSolver + ?Sized>(w: &mut PartialWitness, gate: &Gate) -> (r: GateResolution)
    ensures
        gate_step(*gate, values(old(w)@), r, values(final(w)@)),
        !(r is Stalled),
{
    match gate {
        Gate::Arithmetic(e) => ArithmeticSolver::solve(w, e),
        Gate::Directive(d) => solve_directive(w, d),
        Gate::GadgetCall(gc) => match &gc.name {
            Opcode::Range => LogicSolver::solve_range_gate(w, gc),
            Opcode::And => LogicSolver::solve_and_gate(w, gc),
            Opcode::Xor => LogicSolver::solve_xor_gate(w, gc),
            Opcode::Named(_) => {
                let mut i: usize = 0;
                while i < gc.inputs.len()
                    invariant
                        0 <= i <= gc.inputs@.len(),
                        *gate == Gate::GadgetCall(*gc),
                        gc.name is Named,
                        w@ == old(w)@,
                        forall|j: int| 0 <= j < i ==> w@.contains_key(#[trigger] gc.inputs@[j].witness.0),
                    decreases gc.inputs@.len() - i,
                {
                    if !w.contains_key(&gc.inputs[i].witness.0) {
                        assert(!values(w@).contains_key(gc.inputs@[i as int].witness.0));
                        return GateResolution::Skip;
                    }
                    i = i + 1;
                }
                match G::solve_gadget_call(w, gc) {
                    Err(op) => GateResolution::UnsupportedOpcode(op),
                    Ok(()) => GateResolution::Resolved,
                }
            },
        },
    }
}

/// Gates `gs` run in order from `states[0]`: gate `i` takes `states[i]`
/// to `states[i + 1]` with outcome `results[i]`.
pub open spec fn run_ok(gs: Seq<Gate>, states: Seq<Map<u32, nat>>, results: Seq<GateResolution>) -> bool {
    &&& states.len() == gs.len() + 1
    &&& results.len() == gs.len()
    &&& forall|i: int| 0 <= i < gs.len() ==> #[trigger] gate_step(gs[i], states[i], results[i], states[i + 1])
}

/// Each outcome is Resolved or Skip.
pub open spec fn all_soft(results: Seq<GateResolution>) -> bool {
    forall|i: int| 0 <= i < results.len() ==> (#[trigger] results[i] is Resolved || results[i] is Skip)
}

/// The gates whose outcome was Skip, in their order.
pub open spec fn skipped(gs: Seq<Gate>, results: Seq<GateResolution>) -> Seq<Gate>
    decreases gs.len(),
{
    if gs.len() == 0 || results.len() < gs.len() {
        Seq::empty()
    } else {
        let u = skipped(gs.drop_last(), results.subrange(0, gs.len() - 1));
        if results[gs.len() - 1] is Skip {
            u.push(gs.last())
        } else {
            u
        }
    }
}

/// A full pass over `gs` from `m` solves or skips each gate in turn, ends
/// at `m2`, and leaves the skipped gates `u`.
pub open spec fn pass_completes(gs: Seq<Gate>, m: Map<u32, nat>, u: Seq<Gate>, m2: Map<u32, nat>) -> bool {
    exists|states: Seq<Map<u32, nat>>, results: Seq<GateResolution>|
        #[trigger] run_ok(gs, states, results) && states[0] == m && states.last() == m2 && all_soft(
            results,
        ) && u == skipped(gs, results)
}

/// A pass over `gs` from `m` solves or skips the gates before some gate,
/// which then fails with `e`, leaving `m2`.
pub open spec fn pass_fails(gs: Seq<Gate>, m: Map<u32, nat>, e: GateResolution, m2: Map<u32, nat>) -> bool {
    exists|k: int, states: Seq<Map<u32, nat>>, results: Seq<GateResolution>|
        0 <= k < gs.len() && #[trigger] run_ok(gs.subrange(0, k + 1), states, results) && states[0] == m
            && states.last() == m2 && all_soft(results.subrange(0, k)) && results[k] == e && !(e is Resolved)
            && !(e is Skip)
}

/// One pass over the gates: the gates left unsolved, or the first failure.
fn solve_pass<G: GadgetSolver + ?Sized>(w: &mut PartialWitness, gates: Vec<Gate>) -> (r: Result<Vec<Gate>, GateResolution>)
    ensures
        r is Ok ==> r->Ok_0@.len() <= gates@.len(),
        r is Err ==> !(r->Err_0 is Skip) && !(r->Err_0 is Resolved) && !(r->Err_0 is Stalled),
        r is Ok ==> pass_completes(gates@, values(old(w)@), r->Ok_0@, values(final(w)@)),
        r is Err ==> pass_fails(gates@, values(old(w)@), r->Err_0, values(final(w)@)),
        all_arithmetic(gates@) ==> {
            &&& values(final(w)@) == values(old(w)@)
            &&& match r {
                Ok(u) => !some_violated(gates@, values(old(w)@)) && u@ == undetermined(gates@, values(old(w)@)),
                Err(e) => e is UnsatisfiedConstrain && some_violated(gates@, values(old(w)@)),
            }
        },
{
    let ghost g0 = gates@;
    let ghost m0 = values(w@);
    let mut rest = gates;
    let mut unsolved: Vec<Gate> = Vec::new();
    let ghost mut done: int = 0;
    let ghost mut states: Seq<Map<u32, nat>> = seq![m0];
    let ghost mut results: Seq<GateResolution> = Seq::empty();
    while rest.len() > 0
        invariant
            0 <= done <= g0.len(),
            run_ok(g0.subrange(0, done), states, results),
            states[0] == m0,
            states.last() == values(w@),
            all_soft(results),
            unsolved@ == skipped(g0.subrange(0, done), results),
            rest@ == g0.subrange(done, g0.len() as int),
            unsolved@.len() <= done,
            m0 == values(old(w)@),
            g0 == gates@,
            all_arithmetic(g0) ==> {
                &&& values(w@) == m0
                &&& !some_violated(g0.subrange(0, done), m0)
                &&& unsolved@ == undetermined(g0.subrange(0, done), m0)
            },
        decreases rest@.len(),
    {
        let gate = rest.remove(0);
        let ghost before = values(w@);
        let res = solve_gate::<G>(w, &gate);
        let ghost states1 = states.push(values(w@));
        let ghost results1 = results.push(res);
        proof {
            let pre = g0.subrange(0, done);
            let pre1 = g0.subrange(0, done + 1);
            assert(pre1.drop_last() =~= pre);
            assert(results1.subrange(0, done) =~= results);
            assert forall|i: int| 0 <= i < pre1.len() implies #[trigger] gate_step(pre1[i], states1[i], results1[i], states1[i + 1]) by {
                if i < done {
                    assert(pre1[i] == pre[i]);
                    assert(states1[i] == states[i]);
                    assert(states1[i + 1] == states[i + 1]);
                    assert(results1[i] == results[i]);
                } else {
                    assert(pre1[i] == gate);
                }
            }
            assert(run_ok(pre1, states1, results1));
            assert(gate == g0[done]);
            let next_prefix = g0.subrange(0, done + 1);
            assert(next_prefix.drop_last() =~= g0.subrange(0, done));
            assert(next_prefix.last() == gate);
            if all_arithmetic(g0) {
                assert(g0[done] is Arithmetic);
            }
        }
        match res {
            GateResolution::Resolved => {},
            GateResolution::Skip => {
                unsolved.push(gate);
            },
            _ => {
                proof {
                    if all_arithmetic(g0) {
                        assert(gate_value(g0[done], m0) is Some);
                        assert(gate_value(g0[done], m0).unwrap() != 0);
                        assert(some_violated(g0, m0));
                    }
                    assert(g0.subrange(0, done + 1) =~= gates@.subrange(0, done + 1));
                    assert(pass_fails(gates@, m0, res, values(w@)));
                }
                return Err(res);
            },
        }
        proof {
            let next_prefix = g0.subrange(0, done + 1);
            if all_arithmetic(g0) {
                assert(!some_violated(next_prefix, m0)) by {
                    assert forall|i: int| 0 <= i < next_prefix.len() && (#[trigger] gate_value(next_prefix[i], m0)) is Some
                        implies gate_value(next_prefix[i], m0).unwrap() == 0 by {
                        if i < done {
                            assert(next_prefix[i] == g0.subrange(0, done)[i]);
                        }
                    }
                }
            }
            assert(all_soft(results1)) by {
                assert forall|i: int| 0 <= i < results1.len() implies (#[trigger] results1[i] is Resolved || results1[i] is Skip) by {
                    if i < done {
                        assert(results1[i] == results[i]);
                    }
                }
            }
            states = states1;
            results = results1;
            done = done + 1;
            assert(rest@ =~= g0.subrange(done, g0.len() as int));
        }
    }
    proof {
        assert(g0.subrange(0, done) =~= g0);
        assert(pass_completes(gates@, m0, unsolved@, values(w@)));
    }
    Ok(unsolved)
}

/// Passes in a row: pass `j` runs over `lists[j]` from `ms[j]`, solves at
/// least one gate, and leaves `lists[j + 1]` at `ms[j + 1]`.
pub open spec fn passes_ok(lists: Seq<Seq<Gate>>, ms: Seq<Map<u32, nat>>) -> bool {
    &&& lists.len() >= 1
    &&& ms.len() == lists.len()
    &&& forall|j: int| 0 <= j < lists.len() - 1 ==> #[trigger] pass_link(lists, ms, j)
}

/// Pass `j` leaves `lists[j + 1]` from `lists[j]`, with fewer gates.
pub open spec fn pass_link(lists: Seq<Seq<Gate>>, ms: Seq<Map<u32, nat>>, j: int) -> bool {
    pass_completes(lists[j], ms[j], lists[j + 1], ms[j + 1]) && lists[j + 1].len() < lists[j].len()
}

/// How the last pass, over `last` from `m`, ends the attempt: nothing was
/// left, or it solved no gate, or a gate failed.
pub open spec fn attempt_ends(last: Seq<Gate>, m: Map<u32, nat>, r: GateResolution, m2: Map<u32, nat>) -> bool {
    ||| last.len() == 0 && r is Resolved && m2 == m
    ||| last.len() > 0 && r is Stalled && r->Stalled_0@.len() == last.len() && pass_completes(
        last,
        m,
        r->Stalled_0@,
        m2,
    )
    ||| pass_fails(last, m, r, m2)
}

/// A solving attempt: full passes, each solving at least one gate, until
/// one ends it.
pub open spec fn solve_runs(gates: Seq<Gate>, m: Map<u32, nat>, r: GateResolution, m2: Map<u32, nat>) -> bool {
    exists|lists: Seq<Seq<Gate>>, ms: Seq<Map<u32, nat>>|
        #[trigger] passes_ok(lists, ms) && lists[0] == gates && ms[0] == m && attempt_ends(
            lists.last(),
            ms.last(),
            r,
            m2,
        )
}

/// How a solving attempt ends: it is a run of passes as `solve_runs`
/// describes. Every attempt on an empty list succeeds;
/// a stalled attempt names the gates it left. On arithmetic gates alone
/// the witness is left as it was, any gate that evaluates to nonzero
/// fails the attempt, and otherwise the gates that cannot be evaluated
/// are exactly those reported as stalled.
pub open spec fn solve_outcome(gates: Seq<Gate>, m: Map<u32, nat>, r: GateResolution, m2: Map<u32, nat>) -> bool {
    &&& solve_runs(gates, m, r, m2)
    &&& gates.len() == 0 ==> r is Resolved && m2 == m
    &&& r is Stalled ==> r->Stalled_0@.len() > 0
    &&& !(r is Skip)
    &&& all_arithmetic(gates) ==> {
        &&& m2 == m
        &&& some_violated(gates, m) ==> r is UnsatisfiedConstrain
        &&& !some_violated(gates, m) && undetermined(gates, m).len() == 0 ==> r is Resolved
        &&& !some_violated(gates, m) && undetermined(gates, m).len() > 0 ==> r is Stalled
            && r->Stalled_0@ == undetermined(gates, m)
    }
}

/// Solves the gates against the witness pass after pass, with `backend`
/// for the black-box calls it alone knows: stops when no gate is left,
/// when a pass solves no gate, or at the first failure.
pub fn solve<G: GadgetSolver + ?Sized>(_backend: &G, initial_witness: &mut PartialWitness, gates: Vec<Gate>) -> (r: GateResolution)
    ensures
        solve_outcome(gates@, values(old(initial_witness)@), r, values(final(initial_witness)@)),
{
    let ghost g0 = gates@;
    let ghost m0 = values(initial_witness@);
    let mut current = gates;
    let ghost mut first = true;
    let ghost mut lists: Seq<Seq<Gate>> = seq![g0];
    let ghost mut ms: Seq<Map<u32, nat>> = seq![m0];
    loop
        invariant
            passes_ok(lists, ms),
            lists[0] == g0,
            ms[0] == m0,
            lists.last() == current@,
            ms.last() == values(initial_witness@),
            m0 == values(old(initial_witness)@),
            g0 == gates@,
            first ==> current@ == g0 && values(initial_witness@) == m0,
            !first ==> current@.len() > 0,
            all_arithmetic(g0) ==> {
                &&& values(initial_witness@) == m0
                &&& all_arithmetic(current@)
                &&& !first ==> current@ == undetermined(g0, m0) && !some_violated(g0, m0)
            },
        decreases current@.len(),
    {
        if current.len() == 0 {
            proof {
                if all_arithmetic(g0) {
                    assert(undetermined(g0, m0).len() == 0);
                }
            }
            proof {
                assert(attempt_ends(lists.last(), ms.last(), GateResolution::Resolved, values(initial_witness@)));
            }
            return GateResolution::Resolved;
        }
        let n = current.len();
        let ghost cur = current@;
        let ghost before_pass = values(initial_witness@);
        proof {
            if all_arithmetic(g0) {
                lemma_undetermined(g0, m0);
                lemma_undetermined(cur, m0);
                if !first {
                    assert(!some_violated(cur, m0));
                }
            }
        }
        match solve_pass::<G>(initial_witness, current) {
            Err(e) => {
                proof {
                    assert(attempt_ends(lists.last(), ms.last(), e, values(initial_witness@)));
                }
                return e;
            },
            Ok(unsolved) => {
                let ghost lists1 = lists.push(unsolved@);
                let ghost ms1 = ms.push(values(initial_witness@));
                proof {
                    if unsolved@.len() < n {
                        assert(passes_ok(lists1, ms1)) by {
                        assert forall|j: int| 0 <= j < lists1.len() - 1 implies #[trigger] pass_link(lists1, ms1, j) by {
                            if j < lists.len() - 1 {
                                assert(lists1[j] == lists[j] && lists1[j + 1] == lists[j + 1]);
                                assert(ms1[j] == ms[j] && ms1[j + 1] == ms[j + 1]);
                                assert(pass_link(lists, ms, j));
                            } else {
                                assert(lists1[j] == cur);
                                assert(ms1[j] == before_pass);
                                assert(lists1[j + 1] == unsolved@);
                            }
                        }
                        }
                    }
                }
                if unsolved.len() == 0 {
                    proof {
                        assert(attempt_ends(lists1.last(), ms1.last(), GateResolution::Resolved, values(initial_witness@)));
                    }
                    return GateResolution::Resolved;
                }
                if unsolved.len() == n {
                    return GateResolution::Stalled(unsolved);
                }
                current = unsolved;
                proof {
                    first = false;
                    lists = lists1;
                    ms = ms1;
                }
            },
        }
    }
}

} // verus!

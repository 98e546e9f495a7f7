//! Properties that relate several solver steps.
use vstd::prelude::*;
use vstd::arithmetic::power2::{pow2, lemma_pow2_pos, lemma_pow2_unfold};
use vstd::arithmetic::div_mod::{lemma_fundamental_div_mod, lemma_mod_bound};
use crate::circuit::{Directive, Expression, Witness, eval_expr, defined, lin_defined, mul_defined, lin_sum, mul_sum};
use crate::store::keeps_values;
use crate::field::FieldElement;
use crate::directives::{bit_digits, byte_digits, directive_step};
use crate::pwg::{GateResolution, solve_runs, passes_ok, pass_link, pass_completes, pass_fails, attempt_ends, run_ok, all_soft, skipped, gate_step, all_arithmetic, gate_value, solve_outcome, some_violated, undetermined};
use crate::circuit::Gate;
use crate::store::{assign_seq, key_seq, lemma_assign_seq_again, lemma_assign_seq_overwritten};

verus! {

/// The witnesses a Split or ToBytes directive writes, and the digits it writes there.
pub open spec fn digit_targets(d: Directive, m: Map<u32, nat>) -> (Seq<u32>, Seq<nat>) {
    match d {
        Directive::Split { a, b, bit_size } => (
            key_seq(b@.subrange(0, bit_size as int)),
            bit_digits(eval_expr(a, m).unwrap(), bit_size as nat),
        ),
        Directive::ToBytes { a, b, byte_size } => (
            key_seq(b@.subrange(0, byte_size as int)),
            byte_digits(eval_expr(a, m).unwrap(), byte_size as nat),
        ),
        _ => (Seq::empty(), Seq::empty()),
    }
}

/// The expression a Split or ToBytes directive decomposes.
pub open spec fn digit_source(d: Directive, m: Map<u32, nat>) -> Option<nat> {
    match d {
        Directive::Split { a, .. } => eval_expr(a, m),
        Directive::ToBytes { a, .. } => eval_expr(a, m),
        _ => None,
    }
}

/// Split and ToBytes are idempotent: solved again, with the decomposed
/// value unchanged, the directive succeeds and writes nothing new.
pub proof fn lemma_digits_idempotent(
    d: Directive,
    m: Map<u32, nat>,
    r: GateResolution,
    m2: Map<u32, nat>,
    r2: GateResolution,
    m3: Map<u32, nat>,
)
    requires
        d is Split || d is ToBytes,
        directive_step(d, m, r, m2),
        r is Resolved,
        digit_source(d, m2) == digit_source(d, m),
        directive_step(d, m2, r2, m3),
    ensures
        r2 is Resolved,
        m3 == m2,
{
    let (keys, digits) = digit_targets(d, m);
    assert(keys.len() == digits.len());
    lemma_assign_seq_again(m, keys, digits);
    assert(digit_targets(d, m2) == digit_targets(d, m));
}

/// After a successful Split or ToBytes, giving one of its outputs another
/// value makes solving it again fail.
pub proof fn lemma_digits_overwrite_detected(
    d: Directive,
    m: Map<u32, nat>,
    r: GateResolution,
    m2: Map<u32, nat>,
    i: int,
    v: nat,
    r2: GateResolution,
    m3: Map<u32, nat>,
)
    requires
        d is Split || d is ToBytes,
        directive_step(d, m, r, m2),
        r is Resolved,
        0 <= i < digit_targets(d, m).0.len(),
        v != digit_targets(d, m).1[i],
        digit_source(d, m2.insert(digit_targets(d, m).0[i], v)) == digit_source(d, m),
        directive_step(d, m2.insert(digit_targets(d, m).0[i], v), r2, m3),
    ensures
        r2 is UnsatisfiedConstrain,
{
    let (keys, digits) = digit_targets(d, m);
    assert(keys.len() == digits.len());
    lemma_assign_seq_overwritten(m, keys, digits, i, v);
    assert(digit_targets(d, m2.insert(keys[i], v)) == digit_targets(d, m));
}

/// Truncating `a` to `k` bits gives `b` and `c` with `c * 2^k + b == a`.
pub proof fn lemma_truncate_round_trip(
    a: Witness,
    b: Witness,
    c: Witness,
    k: u32,
    m: Map<u32, nat>,
    r: GateResolution,
    m2: Map<u32, nat>,
)
    requires
        m.contains_key(a.0),
        b.0 != c.0,
        directive_step(Directive::Truncate { a, b, c, bit_size: k }, m, r, m2),
    ensures
        r is Resolved,
        m2[b.0] < pow2(k as nat),
        m2[c.0] * pow2(k as nat) + m2[b.0] == m[a.0],
{
    let p = pow2(k as nat) as int;
    lemma_pow2_pos(k as nat);
    lemma_fundamental_div_mod(m[a.0] as int, p);
    lemma_mod_bound(m[a.0] as int, p);
    assert(m2[c.0] == m[a.0] / pow2(k as nat));
    assert(m2[b.0] == m[a.0] % pow2(k as nat));
    assert(m2[c.0] * p == p * (m[a.0] as int / p)) by (nonlinear_arith)
        requires
            m2[c.0] == m[a.0] as int / p,
    ;
}

/// Oddrange on `a < 2^k` splits off the top bit: `b` is 0 or 1, `r < 2^(k-1)`,
/// and `b * 2^(k-1) + r == a`; on `a >= 2^k` it fails and writes nothing.
pub proof fn lemma_oddrange_split(
    a: Witness,
    b: Witness,
    rw: Witness,
    k: u32,
    m: Map<u32, nat>,
    r: GateResolution,
    m2: Map<u32, nat>,
)
    requires
        m.contains_key(a.0),
        k > 0,
        b.0 != rw.0,
        directive_step(Directive::Oddrange { a, b, r: rw, bit_size: k }, m, r, m2),
    ensures
        m[a.0] >= pow2(k as nat) ==> r is UnsatisfiedConstrain && m2 == m,
        m[a.0] < pow2(k as nat) ==> {
            &&& r is Resolved
            &&& m2[b.0] == 0 || m2[b.0] == 1
            &&& m2[rw.0] < pow2((k - 1) as nat)
            &&& m2[b.0] * pow2((k - 1) as nat) + m2[rw.0] == m[a.0]
        },
{
    if m[a.0] < pow2(k as nat) {
        let x = m[a.0] as int;
        let h = pow2((k - 1) as nat) as int;
        lemma_pow2_pos((k - 1) as nat);
        lemma_pow2_unfold(k as nat);
        lemma_fundamental_div_mod(x, h);
        lemma_mod_bound(x, h);
        let q = x / h;
        assert(0 <= q < 2) by (nonlinear_arith)
            requires
                x == h * q + x % h,
                0 <= x % h < h,
                0 <= x < 2 * h,
        ;
        assert(q % 2 == q);
        assert(m2[b.0] == q);
        assert(m2[b.0] * h == h * q) by (nonlinear_arith)
            requires
                m2[b.0] == q,
        ;
    }
}

proof fn lemma_none_undetermined(gs: Seq<Gate>, m: Map<u32, nat>)
    requires
        forall|i: int| 0 <= i < gs.len() ==> (#[trigger] gate_value(gs[i], m)) is Some,
    ensures
        undetermined(gs, m).len() == 0,
    decreases gs.len(),
{
    if gs.len() > 0 {
        let t = gs.drop_last();
        assert forall|i: int| 0 <= i < t.len() implies (#[trigger] gate_value(t[i], m)) is Some by {
            assert(t[i] == gs[i]);
        }
        lemma_none_undetermined(t, m);
        assert(gate_value(gs[gs.len() - 1], m) is Some);
    }
}

/// Solving arithmetic gates that the witness already satisfies succeeds
/// and leaves the witness as it was.
pub proof fn lemma_satisfied_circuit_resolves(gates: Seq<Gate>, m: Map<u32, nat>, r: GateResolution, m2: Map<u32, nat>)
    requires
        all_arithmetic(gates),
        forall|i: int| 0 <= i < gates.len() ==> #[trigger] gate_value(gates[i], m) == Some(0nat),
        solve_outcome(gates, m, r, m2),
    ensures
        r is Resolved,
        m2 == m,
{
    lemma_none_undetermined(gates, m);
}

/// An arithmetic gate that evaluates to a nonzero value makes solving
/// arithmetic gates fail.
pub proof fn lemma_violated_gate_fails(gates: Seq<Gate>, i: int, m: Map<u32, nat>, r: GateResolution, m2: Map<u32, nat>)
    requires
        all_arithmetic(gates),
        0 <= i < gates.len(),
        gate_value(gates[i], m) is Some,
        gate_value(gates[i], m).unwrap() != 0,
        solve_outcome(gates, m, r, m2),
    ensures
        r is UnsatisfiedConstrain,
{
    assert(some_violated(gates, m));
}

/// A lone arithmetic gate that reads a witness nobody assigns ends the
/// attempt as stalled, with that gate left.
pub proof fn lemma_lone_unknown_gate_stalls(g: Gate, m: Map<u32, nat>, r: GateResolution, m2: Map<u32, nat>)
    requires
        g is Arithmetic,
        gate_value(g, m) is None,
        solve_outcome(seq![g], m, r, m2),
    ensures
        r is Stalled,
        r->Stalled_0@ == seq![g],
        m2 == m,
{
    let gs = seq![g];
    assert(gs.drop_last() =~= Seq::<Gate>::empty());
    assert(undetermined(Seq::<Gate>::empty(), m) == Seq::<Gate>::empty());
    assert(Seq::<Gate>::empty().push(g) =~= gs);
    assert(all_arithmetic(gs)) by {
        assert forall|i: int| 0 <= i < gs.len() implies #[trigger] gs[i] is Arithmetic by {
            assert(gs[i] == g);
        }
    }
    assert(!some_violated(gs, m)) by {
        assert forall|i: int| 0 <= i < gs.len() implies !((#[trigger] gate_value(gs[i], m)) is Some) by {
            assert(gs[i] == g);
        }
    }
}

proof fn lemma_lin_sum_keeps(t: Seq<(FieldElement, Witness)>, m: Map<u32, nat>, m2: Map<u32, nat>)
    requires
        lin_defined(t, m),
        keeps_values(m, m2),
    ensures
        lin_defined(t, m2),
        lin_sum(t, m2) == lin_sum(t, m),
    decreases t.len(),
{
    assert forall|i: int| 0 <= i < t.len() implies m2.contains_key(#[trigger] t[i].1.0) by {
        assert(m.contains_key(t[i].1.0));
    }
    if t.len() > 0 {
        let u = t.drop_last();
        assert forall|i: int| 0 <= i < u.len() implies m.contains_key(#[trigger] u[i].1.0) by {
            assert(u[i] == t[i]);
        }
        lemma_lin_sum_keeps(u, m, m2);
        assert(m.contains_key(t[t.len() - 1].1.0));
    }
}

proof fn lemma_mul_sum_keeps(t: Seq<(FieldElement, Witness, Witness)>, m: Map<u32, nat>, m2: Map<u32, nat>)
    requires
        mul_defined(t, m),
        keeps_values(m, m2),
    ensures
        mul_defined(t, m2),
        mul_sum(t, m2) == mul_sum(t, m),
    decreases t.len(),
{
    assert forall|i: int| 0 <= i < t.len() implies m2.contains_key(#[trigger] t[i].1.0) && m2.contains_key(t[i].2.0) by {
        assert(m.contains_key(t[i].1.0));
        assert(m.contains_key(t[i].2.0));
    }
    if t.len() > 0 {
        let u = t.drop_last();
        assert forall|i: int| 0 <= i < u.len() implies m.contains_key(#[trigger] u[i].1.0) && m.contains_key(u[i].2.0) by {
            assert(u[i] == t[i]);
        }
        lemma_mul_sum_keeps(u, m, m2);
        assert(m.contains_key(t[t.len() - 1].1.0));
        assert(m.contains_key(t[t.len() - 1].2.0));
    }
}

/// An expression whose witnesses are all known keeps its value when the
/// assignment only gains keys.
pub proof fn lemma_eval_keeps(e: Expression, m: Map<u32, nat>, m2: Map<u32, nat>)
    requires
        defined(e, m),
        keeps_values(m, m2),
    ensures
        eval_expr(e, m2) == eval_expr(e, m),
{
    lemma_lin_sum_keeps(e.linear_combinations@, m, m2);
    lemma_mul_sum_keeps(e.mul_terms@, m, m2);
}

/// Solving one gate to success is one pass in which that gate resolved.
proof fn lemma_single_resolved(g: Gate, m: Map<u32, nat>, m2: Map<u32, nat>)
    requires
        solve_runs(seq![g], m, GateResolution::Resolved, m2),
    ensures
        gate_step(g, m, GateResolution::Resolved, m2),
{
    let gs = seq![g];
    let (lists, ms) = choose|lists: Seq<Seq<Gate>>, ms: Seq<Map<u32, nat>>|
        #[trigger] passes_ok(lists, ms) && lists[0] == gs && ms[0] == m && attempt_ends(
            lists.last(),
            ms.last(),
            GateResolution::Resolved,
            m2,
        );
    if lists.len() == 1 {
        assert(lists.last() == gs);
        assert(false);
    }
    assert(pass_link(lists, ms, 0));
    if lists.len() > 2 {
        assert(pass_link(lists, ms, 1));
        assert(false);
    }
    assert(lists.last() == lists[1]);
    let (states, results) = choose|states: Seq<Map<u32, nat>>, results: Seq<GateResolution>|
        #[trigger] run_ok(gs, states, results) && states[0] == m && states.last() == ms[1] && all_soft(results)
            && lists[1] == skipped(gs, results);
    assert(gate_step(gs[0], states[0], results[0], states[1]));
    assert(gs.drop_last() =~= Seq::<Gate>::empty());
    assert(skipped(Seq::<Gate>::empty(), results.subrange(0, 0)) == Seq::<Gate>::empty());
    assert(results[0] is Resolved || results[0] is Skip);
    if results[0] is Skip {
        assert(skipped(gs, results).len() == 1);
        assert(false);
    }
    assert(results[0] == GateResolution::Resolved);
}

/// A lone gate that, from `m`, always resolves and writes nothing makes
/// the attempt resolve and leave `m` as it was.
proof fn lemma_single_fixed(g: Gate, m: Map<u32, nat>, r: GateResolution, m2: Map<u32, nat>)
    requires
        solve_runs(seq![g], m, r, m2),
        forall|res: GateResolution, s: Map<u32, nat>| #[trigger] gate_step(g, m, res, s) ==> res is Resolved && s == m,
    ensures
        r is Resolved,
        m2 == m,
{
    let gs = seq![g];
    assert(gs.drop_last() =~= Seq::<Gate>::empty());
    let (lists, ms) = choose|lists: Seq<Seq<Gate>>, ms: Seq<Map<u32, nat>>|
        #[trigger] passes_ok(lists, ms) && lists[0] == gs && ms[0] == m && attempt_ends(lists.last(), ms.last(), r, m2);
    if lists.len() == 1 {
        assert(lists.last() == gs);
        assert(ms.last() == m);
        if pass_fails(gs, m, r, m2) {
            let (k, states, results) = choose|k: int, states: Seq<Map<u32, nat>>, results: Seq<GateResolution>|
                0 <= k < gs.len() && #[trigger] run_ok(gs.subrange(0, k + 1), states, results) && states[0] == m
                    && states.last() == m2 && all_soft(results.subrange(0, k)) && results[k] == r && !(r is Resolved)
                    && !(r is Skip);
            assert(k == 0);
            assert(gs.subrange(0, 1) =~= gs);
            assert(gate_step(gs[0], states[0], results[0], states[1]));
            assert(false);
        } else {
            assert(r is Stalled);
            let u = r->Stalled_0@;
            assert(pass_completes(gs, m, u, m2));
            let (states, results) = choose|states: Seq<Map<u32, nat>>, results: Seq<GateResolution>|
                #[trigger] run_ok(gs, states, results) && states[0] == m && states.last() == m2 && all_soft(results)
                    && u == skipped(gs, results);
            assert(gate_step(gs[0], states[0], results[0], states[1]));
            assert(skipped(Seq::<Gate>::empty(), results.subrange(0, 0)) == Seq::<Gate>::empty());
            assert(false);
        }
    }
    assert(pass_link(lists, ms, 0));
    if lists.len() > 2 {
        assert(pass_link(lists, ms, 1));
        assert(false);
    }
    assert(lists.last() == lists[1]);
    let (states, results) = choose|states: Seq<Map<u32, nat>>, results: Seq<GateResolution>|
        #[trigger] run_ok(gs, states, results) && states[0] == m && states.last() == ms[1] && all_soft(results)
            && lists[1] == skipped(gs, results);
    assert(gate_step(gs[0], states[0], results[0], states[1]));
    if pass_fails(lists[1], ms[1], r, m2) {
        let (k, st2, rs2) = choose|k: int, st2: Seq<Map<u32, nat>>, rs2: Seq<GateResolution>|
            0 <= k < lists[1].len() && #[trigger] run_ok(lists[1].subrange(0, k + 1), st2, rs2);
        assert(false);
    }
}

/// Solving a Split or ToBytes directive again, once it resolved, resolves
/// and changes nothing.
pub proof fn lemma_solve_digits_idempotent(d: Directive, m: Map<u32, nat>, m2: Map<u32, nat>, r2: GateResolution, m3: Map<u32, nat>)
    requires
        d is Split || d is ToBytes,
        solve_outcome(seq![Gate::Directive(d)], m, GateResolution::Resolved, m2),
        solve_outcome(seq![Gate::Directive(d)], m2, r2, m3),
    ensures
        r2 is Resolved,
        m3 == m2,
{
    let g = Gate::Directive(d);
    lemma_single_resolved(g, m, m2);
    assert(directive_step(d, m, GateResolution::Resolved, m2));
    assert(keeps_values(m, m2));
    match d {
        Directive::Split { a, .. } => {
            lemma_eval_keeps(a, m, m2);
        },
        Directive::ToBytes { a, .. } => {
            lemma_eval_keeps(a, m, m2);
        },
        _ => {},
    }
    assert(digit_source(d, m2) == digit_source(d, m));
    assert forall|res: GateResolution, s: Map<u32, nat>| #[trigger] gate_step(g, m2, res, s) implies res is Resolved && s == m2 by {
        lemma_digits_idempotent(d, m, GateResolution::Resolved, m2, res, s);
    }
    lemma_single_fixed(g, m2, r2, m3);
}

/// A lone gate that, from `m`, always fails as unsatisfied without losing
/// a value makes the attempt fail the same way.
proof fn lemma_single_fails(g: Gate, m: Map<u32, nat>, r: GateResolution, m2: Map<u32, nat>)
    requires
        solve_runs(seq![g], m, r, m2),
        forall|res: GateResolution, s: Map<u32, nat>| #[trigger] gate_step(g, m, res, s) ==> res is UnsatisfiedConstrain
            && keeps_values(m, s),
    ensures
        r is UnsatisfiedConstrain,
        keeps_values(m, m2),
{
    let gs = seq![g];
    assert(gs.drop_last() =~= Seq::<Gate>::empty());
    let (lists, ms) = choose|lists: Seq<Seq<Gate>>, ms: Seq<Map<u32, nat>>|
        #[trigger] passes_ok(lists, ms) && lists[0] == gs && ms[0] == m && attempt_ends(lists.last(), ms.last(), r, m2);
    if lists.len() == 1 {
        assert(lists.last() == gs);
        assert(ms.last() == m);
        if pass_fails(gs, m, r, m2) {
            let (k, states, results) = choose|k: int, states: Seq<Map<u32, nat>>, results: Seq<GateResolution>|
                0 <= k < gs.len() && #[trigger] run_ok(gs.subrange(0, k + 1), states, results) && states[0] == m
                    && states.last() == m2 && all_soft(results.subrange(0, k)) && results[k] == r && !(r is Resolved)
                    && !(r is Skip);
            assert(k == 0);
            assert(gs.subrange(0, 1) =~= gs);
            assert(gate_step(gs[0], states[0], results[0], states[1]));
        } else {
            let u = r->Stalled_0@;
            assert(pass_completes(gs, m, u, m2));
            let (states, results) = choose|states: Seq<Map<u32, nat>>, results: Seq<GateResolution>|
                #[trigger] run_ok(gs, states, results) && states[0] == m && states.last() == m2 && all_soft(results)
                    && u == skipped(gs, results);
            assert(gate_step(gs[0], states[0], results[0], states[1]));
            assert(false);
        }
    } else {
        assert(pass_link(lists, ms, 0));
        let (states, results) = choose|states: Seq<Map<u32, nat>>, results: Seq<GateResolution>|
            #[trigger] run_ok(gs, states, results) && states[0] == m && states.last() == ms[1] && all_soft(results)
                && lists[1] == skipped(gs, results);
        assert(gate_step(gs[0], states[0], results[0], states[1]));
        assert(false);
    }
}

/// After a Split or ToBytes resolved, giving one of its outputs another
/// value makes solving it again fail, and the value given stays.
pub proof fn lemma_solve_digits_overwrite_detected(
    d: Directive,
    m: Map<u32, nat>,
    m2: Map<u32, nat>,
    i: int,
    v: nat,
    r2: GateResolution,
    m3: Map<u32, nat>,
)
    requires
        d is Split || d is ToBytes,
        solve_outcome(seq![Gate::Directive(d)], m, GateResolution::Resolved, m2),
        0 <= i < digit_targets(d, m).0.len(),
        v != digit_targets(d, m).1[i],
        digit_source(d, m2.insert(digit_targets(d, m).0[i], v)) == digit_source(d, m),
        solve_outcome(seq![Gate::Directive(d)], m2.insert(digit_targets(d, m).0[i], v), r2, m3),
    ensures
        r2 is UnsatisfiedConstrain,
        m3.contains_key(digit_targets(d, m).0[i]),
        m3[digit_targets(d, m).0[i]] == v,
{
    let g = Gate::Directive(d);
    let k = digit_targets(d, m).0[i];
    let m2v = m2.insert(k, v);
    lemma_single_resolved(g, m, m2);
    assert forall|res: GateResolution, s: Map<u32, nat>| #[trigger] gate_step(g, m2v, res, s) implies res is UnsatisfiedConstrain
        && keeps_values(m2v, s) by {
        lemma_digits_overwrite_detected(d, m, GateResolution::Resolved, m2, i, v, res, s);
    }
    lemma_single_fails(g, m2v, r2, m3);
    assert(m2v.contains_key(k));
}

} // verus!

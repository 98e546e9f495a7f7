//! Writing values into a partial witness.
use vstd::prelude::*;
use crate::circuit::{PartialWitness, Witness, values};
use crate::field::{FieldElement, modulus};

verus! {

broadcast use vstd::std_specs::btree::group_btree_axioms;

/// Assigning `keys[i]` after the earlier pairs would meet a different value.
pub open spec fn conflicts_at(old: Map<u32, nat>, keys: Seq<u32>, vals: Seq<nat>, i: int) -> bool {
    let cur = assign_seq(old, keys.subrange(0, i), vals.subrange(0, i));
    cur.contains_key(keys[i]) && cur[keys[i]] != vals[i]
}

/// Some pair of the list disagrees with a value set before it.
pub open spec fn conflicts(old: Map<u32, nat>, keys: Seq<u32>, vals: Seq<nat>) -> bool {
    exists|i: int| 0 <= i < keys.len() && #[trigger] conflicts_at(old, keys, vals, i)
}

/// Every key of `m` still holds its value in `m2`.
pub open spec fn keeps_values(m: Map<u32, nat>, m2: Map<u32, nat>) -> bool {
    forall|k: u32| #[trigger] m.contains_key(k) ==> m2.contains_key(k) && m2[k] == m[k]
}

/// The witness indices of a list of witnesses.
pub open spec fn key_seq(ws: Seq<Witness>) -> Seq<u32> {
    ws.map_values(|x: Witness| x.0)
}

/// The values of a list of field elements.
pub open spec fn val_seq(fs: Seq<FieldElement>) -> Seq<nat> {
    fs.map_values(|f: FieldElement| f.value())
}

/// `old` with each `keys[i]` set to `vals[i]`, in order.
pub open spec fn assign_seq(old: Map<u32, nat>, keys: Seq<u32>, vals: Seq<nat>) -> Map<u32, nat>
    decreases keys.len(),
{
    if keys.len() == 0 || vals.len() < keys.len() {
        old
    } else {
        assign_seq(old, keys.drop_last(), vals.subrange(0, keys.len() - 1)).insert(
            keys.last(),
            vals[keys.len() - 1],
        )
    }
}

/// Sets `k` to `v`, replacing any earlier value.
pub fn set_value(w: &mut PartialWitness, k: u32, v: FieldElement)
    ensures
        values(final(w)@) == values(old(w)@).insert(k, v.value()),
{
    w.insert(k, v);
    assert(values(w@) =~= values(old(w)@).insert(k, v.value()));
}

/// Sets `k` to `v` unless `k` already holds another value; says whether it did.
pub fn assign_value(w: &mut PartialWitness, k: u32, v: FieldElement) -> (r: bool)
    ensures
        r == !(values(old(w)@).contains_key(k) && values(old(w)@)[k] != v.value()),
        r ==> values(final(w)@) == values(old(w)@).insert(k, v.value()),
        !r ==> final(w)@ == old(w)@,
{
    proof {
        use_type_invariant(&v);
    }
    match w.get(&k) {
        Some(cur) => {
            proof {
                use_type_invariant(cur);
                vstd::arithmetic::div_mod::lemma_small_mod(cur.value(), modulus());
                vstd::arithmetic::div_mod::lemma_small_mod(v.value(), modulus());
            }
            if cur.same_as(&v) {
                assert(values(w@) =~= values(old(w)@).insert(k, v.value()));
                true
            } else {
                false
            }
        },
        None => {
            w.insert(k, v);
            assert(values(w@) =~= values(old(w)@).insert(k, v.value()));
            true
        },
    }
}

/// Assigns `keys[i]` to `vals[i]` for each `i < n` in order, stopping at the
/// first that already holds another value; says whether all were assigned.
pub fn assign_all(w: &mut PartialWitness, keys: &Vec<Witness>, vals: &Vec<FieldElement>, n: usize) -> (r: bool)
    requires
        n <= keys@.len(),
        n <= vals@.len(),
    ensures
        r == !conflicts(
            values(old(w)@),
            key_seq(keys@.subrange(0, n as int)),
            val_seq(vals@.subrange(0, n as int)),
        ),
        r ==> values(final(w)@) == assign_seq(
            values(old(w)@),
            key_seq(keys@.subrange(0, n as int)),
            val_seq(vals@.subrange(0, n as int)),
        ),
        keeps_values(values(old(w)@), values(final(w)@)),
{
    let ghost v0 = values(w@);
    let ghost ks = key_seq(keys@.subrange(0, n as int));
    let ghost vs = val_seq(vals@.subrange(0, n as int));
    let mut i: usize = 0;
    while i < n
        invariant
            0 <= i <= n,
            n <= keys@.len(),
            n <= vals@.len(),
            v0 == values(old(w)@),
            ks == key_seq(keys@.subrange(0, n as int)),
            vs == val_seq(vals@.subrange(0, n as int)),
            forall|j: int| 0 <= j < i ==> !#[trigger] conflicts_at(v0, ks, vs, j),
            values(w@) == assign_seq(v0, ks.subrange(0, i as int), vs.subrange(0, i as int)),
            keeps_values(v0, values(w@)),
        decreases n - i,
    {
        let ghost before = values(w@);
        let ok = assign_value(w, keys[i].0, vals[i]);
        proof {
            assert forall|k: u32| #[trigger] v0.contains_key(k) implies values(w@).contains_key(k)
                && values(w@)[k] == v0[k] by {
                assert(before.contains_key(k) && before[k] == v0[k]);
            }
            assert(ks[i as int] == keys@[i as int].0);
            assert(vs[i as int] == vals@[i as int].value());
            let k1 = ks.subrange(0, i + 1);
            let v1 = vs.subrange(0, i + 1);
            assert(k1.drop_last() =~= ks.subrange(0, i as int));
            assert(v1.subrange(0, i as int) =~= vs.subrange(0, i as int));
        }
        if !ok {
            assert(conflicts_at(v0, ks, vs, i as int));
            return false;
        }
        i = i + 1;
    }
    assert(ks.subrange(0, n as int) =~= ks);
    assert(vs.subrange(0, n as int) =~= vs);
    true
}

proof fn lemma_conflicts_prefix(m: Map<u32, nat>, keys: Seq<u32>, vals: Seq<nat>)
    requires
        keys.len() == vals.len(),
        keys.len() > 0,
        !conflicts(m, keys, vals),
    ensures
        !conflicts(m, keys.drop_last(), vals.subrange(0, keys.len() - 1)),
{
    let k1 = keys.drop_last();
    let v1 = vals.subrange(0, keys.len() - 1);
    assert forall|i: int| 0 <= i < k1.len() implies !#[trigger] conflicts_at(m, k1, v1, i) by {
        assert(k1.subrange(0, i) =~= keys.subrange(0, i));
        assert(v1.subrange(0, i) =~= vals.subrange(0, i));
        assert(!conflicts_at(m, keys, vals, i));
    }
}

/// What `assign_seq` holds: the old keys and the assigned ones; an old
/// key not assigned keeps its value; without conflicts each assigned key
/// holds its own value.
pub proof fn lemma_assign_seq(m: Map<u32, nat>, keys: Seq<u32>, vals: Seq<nat>)
    requires
        keys.len() == vals.len(),
    ensures
        forall|k: u32| #[trigger] assign_seq(m, keys, vals).contains_key(k) <==> (m.contains_key(k) || keys.contains(k)),
        forall|k: u32| !keys.contains(k) && m.contains_key(k) ==> #[trigger] assign_seq(m, keys, vals)[k] == m[k],
        !conflicts(m, keys, vals) ==> forall|i: int| 0 <= i < keys.len() ==> #[trigger] assign_seq(m, keys, vals)[keys[i]] == vals[i],
    decreases keys.len(),
{
    if keys.len() > 0 {
        let n = keys.len() - 1;
        let k1 = keys.drop_last();
        let v1 = vals.subrange(0, n as int);
        lemma_assign_seq(m, k1, v1);
        let cur = assign_seq(m, k1, v1);
        assert forall|k: u32| keys.contains(k) <==> (k1.contains(k) || k == keys.last()) by {
            if keys.contains(k) {
                let i = choose|i: int| 0 <= i < keys.len() && keys[i] == k;
                if i < n {
                    assert(k1[i] == k);
                }
            }
            if k1.contains(k) {
                let i = choose|i: int| 0 <= i < k1.len() && k1[i] == k;
                assert(keys[i] == k);
            }
            if k == keys.last() {
                assert(keys[n as int] == k);
            }
        }
        if !conflicts(m, keys, vals) {
            lemma_conflicts_prefix(m, keys, vals);
            assert(keys.subrange(0, n as int) =~= k1);
            assert(!conflicts_at(m, keys, vals, n as int));
            assert forall|i: int| 0 <= i < keys.len() implies #[trigger] assign_seq(m, keys, vals)[keys[i]] == vals[i] by {
                if i < n {
                    assert(k1[i] == keys[i]);
                    assert(v1[i] == vals[i]);
                    if keys[i] == keys.last() {
                        assert(k1.contains(keys[i]));
                        assert(cur.contains_key(keys.last()));
                    }
                }
            }
        }
    }
}

/// Assigning values a map already holds leaves it as it is.
proof fn lemma_assign_seq_fixed(m: Map<u32, nat>, keys: Seq<u32>, vals: Seq<nat>)
    requires
        keys.len() == vals.len(),
        forall|i: int| 0 <= i < keys.len() ==> m.contains_key(#[trigger] keys[i]) && m[keys[i]] == vals[i],
    ensures
        assign_seq(m, keys, vals) == m,
    decreases keys.len(),
{
    if keys.len() > 0 {
        let n = keys.len() - 1;
        let k1 = keys.drop_last();
        let v1 = vals.subrange(0, n as int);
        assert forall|i: int| 0 <= i < k1.len() implies m.contains_key(#[trigger] k1[i]) && m[k1[i]] == v1[i] by {
            assert(k1[i] == keys[i]);
        }
        lemma_assign_seq_fixed(m, k1, v1);
        assert(keys[n as int] == keys.last());
        assert(m.insert(keys.last(), vals[n as int]) =~= m);
    }
}

/// Assigning the same list again, after it was assigned without conflict,
/// meets no conflict and changes nothing.
pub proof fn lemma_assign_seq_again(m: Map<u32, nat>, keys: Seq<u32>, vals: Seq<nat>)
    requires
        keys.len() == vals.len(),
        !conflicts(m, keys, vals),
    ensures
        !conflicts(assign_seq(m, keys, vals), keys, vals),
        assign_seq(assign_seq(m, keys, vals), keys, vals) == assign_seq(m, keys, vals),
{
    let m2 = assign_seq(m, keys, vals);
    lemma_assign_seq(m, keys, vals);
    assert forall|i: int| 0 <= i < keys.len() implies m2.contains_key(#[trigger] keys[i]) && m2[keys[i]] == vals[i] by {
        assert(keys.contains(keys[i]));
    }
    lemma_assign_seq_fixed(m2, keys, vals);
    assert forall|i: int| 0 <= i < keys.len() implies !#[trigger] conflicts_at(m2, keys, vals, i) by {
        let kp = keys.subrange(0, i);
        let vp = vals.subrange(0, i);
        assert forall|j: int| 0 <= j < kp.len() implies m2.contains_key(#[trigger] kp[j]) && m2[kp[j]] == vp[j] by {
            assert(kp[j] == keys[j]);
        }
        lemma_assign_seq_fixed(m2, kp, vp);
    }
}

proof fn lemma_first_index(keys: Seq<u32>, k: u32, i: int) -> (j: int)
    requires
        0 <= i < keys.len(),
        keys[i] == k,
    ensures
        0 <= j <= i,
        keys[j] == k,
        !keys.subrange(0, j).contains(k),
    decreases i,
{
    if keys.subrange(0, i).contains(k) {
        let l = choose|l: int| 0 <= l < i && keys.subrange(0, i)[l] == k;
        assert(keys[l] == k);
        lemma_first_index(keys, k, l)
    } else {
        i
    }
}

/// Once the list was assigned without conflict, giving one of its keys
/// another value makes assigning the list again conflict.
pub proof fn lemma_assign_seq_overwritten(m: Map<u32, nat>, keys: Seq<u32>, vals: Seq<nat>, i: int, v: nat)
    requires
        keys.len() == vals.len(),
        !conflicts(m, keys, vals),
        0 <= i < keys.len(),
        v != vals[i],
    ensures
        conflicts(assign_seq(m, keys, vals).insert(keys[i], v), keys, vals),
{
    let m2 = assign_seq(m, keys, vals);
    let m3 = m2.insert(keys[i], v);
    lemma_assign_seq(m, keys, vals);
    let j = lemma_first_index(keys, keys[i], i);
    let kp = keys.subrange(0, j);
    let vp = vals.subrange(0, j);
    lemma_assign_seq(m3, kp, vp);
    assert(m2[keys[j]] == vals[j]);
    assert(assign_seq(m3, kp, vp)[keys[j]] == v);
    assert(conflicts_at(m3, keys, vals, j));
}

} // verus!

//! Laws of the value model: structural equality is an equivalence, and the
//! hash agrees with it.

use vstd::prelude::*;
use crate::value::{covered, digests, distinct, inserted, lemma_same_members, occurs, xor_all, Val};

verus! {

/// Every value equals itself.
pub proof fn law_same_reflexive(a: Val)
    ensures
        a.same(a),
    decreases a,
{
    match a {
        Val::List(xs) => {
            assert forall|i: int| 0 <= i < xs.len() implies (#[trigger] xs[i]).same(xs[i]) by {
                law_same_reflexive(xs[i]);
            }
        },
        Val::Members(xs) => {
            assert forall|i: int| 0 <= i < xs.len() implies occurs(#[trigger] xs[i], xs) by {
                law_same_reflexive(xs[i]);
            }
            assert forall|j: int| 0 <= j < xs.len() implies covered(xs, #[trigger] xs[j]) by {
                law_same_reflexive(xs[j]);
            }
        },
        _ => {},
    }
}

/// Equality does not depend on the side a value stands on.
pub proof fn law_same_symmetric(a: Val, b: Val)
    requires
        a.same(b),
    ensures
        b.same(a),
    decreases a,
{
    match (a, b) {
        (Val::List(xs), Val::List(ys)) => {
            assert forall|i: int| 0 <= i < ys.len() implies (#[trigger] ys[i]).same(xs[i]) by {
                law_same_symmetric(xs[i], ys[i]);
            }
        },
        (Val::Members(xs), Val::Members(ys)) => {
            assert forall|j: int| 0 <= j < ys.len() implies occurs(#[trigger] ys[j], xs) by {
                assert(covered(xs, ys[j]));
                let i = choose|i: int| 0 <= i < xs.len() && (#[trigger] xs[i]).same(ys[j]);
                law_same_symmetric(xs[i], ys[j]);
            }
            assert forall|i: int| 0 <= i < xs.len() implies covered(ys, #[trigger] xs[i]) by {
                assert(occurs(xs[i], ys));
                let j = choose|j: int| 0 <= j < ys.len() && xs[i].same(#[trigger] ys[j]);
                law_same_symmetric(xs[i], ys[j]);
            }
        },
        _ => {},
    }
}

/// Two values that equal a third equal each other.
pub proof fn law_same_transitive(a: Val, b: Val, c: Val)
    requires
        a.same(b),
        b.same(c),
    ensures
        a.same(c),
    decreases a,
{
    match (a, b, c) {
        (Val::List(xs), Val::List(ys), Val::List(zs)) => {
            assert forall|i: int| 0 <= i < xs.len() implies (#[trigger] xs[i]).same(zs[i]) by {
                assert(ys[i].same(zs[i]));
                law_same_transitive(xs[i], ys[i], zs[i]);
            }
        },
        (Val::Members(xs), Val::Members(ys), Val::Members(zs)) => {
            assert forall|i: int| 0 <= i < xs.len() implies occurs(#[trigger] xs[i], zs) by {
                assert(occurs(xs[i], ys));
                let j = choose|j: int| 0 <= j < ys.len() && xs[i].same(#[trigger] ys[j]);
                assert(occurs(ys[j], zs));
                let k = choose|k: int| 0 <= k < zs.len() && ys[j].same(#[trigger] zs[k]);
                law_same_transitive(xs[i], ys[j], zs[k]);
            }
            assert forall|k: int| 0 <= k < zs.len() implies covered(xs, #[trigger] zs[k]) by {
                assert(covered(ys, zs[k]));
                let j = choose|j: int| 0 <= j < ys.len() && (#[trigger] ys[j]).same(zs[k]);
                assert(covered(xs, ys[j]));
                let i = choose|i: int| 0 <= i < xs.len() && (#[trigger] xs[i]).same(ys[j]);
                law_same_transitive(xs[i], ys[j], zs[k]);
            }
        },
        _ => {},
    }
}

/// Taking one word out of a sequence takes it out of the xor of all.
pub proof fn lemma_xor_remove(s: Seq<u64>, j: int)
    requires
        0 <= j < s.len(),
    ensures
        xor_all(s) == xor_all(s.remove(j)) ^ s[j],
    decreases s.len(),
{
    if j == s.len() - 1 {
        assert(s.remove(j) =~= s.drop_last());
    } else {
        let front = s.drop_last();
        lemma_xor_remove(front, j);
        assert(s.remove(j).drop_last() =~= front.remove(j));
        assert(s.remove(j).last() == s.last());
        let rest = xor_all(front.remove(j));
        let x = s[j];
        let y = s.last();
        assert((rest ^ x) ^ y == (rest ^ y) ^ x) by (bit_vector);
    }
}

/// Each element of `xs` equals an element of `ys`, and the other way round.
pub open spec fn matching(xs: Seq<Val>, ys: Seq<Val>) -> bool {
    &&& forall|i: int| 0 <= i < xs.len() ==> occurs(#[trigger] xs[i], ys)
    &&& forall|j: int| 0 <= j < ys.len() ==> covered(xs, #[trigger] ys[j])
}

/// Elements of `xs` and `ys` that are equal have equal hashes.
pub open spec fn hashes_agree(xs: Seq<Val>, ys: Seq<Val>) -> bool {
    forall|i: int, j: int|
        #![trigger xs[i].same(ys[j])]
        0 <= i < xs.len() && 0 <= j < ys.len() && xs[i].same(ys[j]) ==> xs[i].digest()
            == ys[j].digest()
}

/// A sequence without repeats has none after its last element is dropped.
pub proof fn lemma_distinct_drop_last(xs: Seq<Val>)
    requires
        distinct(xs),
        xs.len() > 0,
    ensures
        distinct(xs.drop_last()),
{
    let xs1 = xs.drop_last();
    assert forall|a: int, b: int|
        #![trigger xs1[a].same(xs1[b])]
        0 <= a < b < xs1.len() implies !xs1[a].same(xs1[b]) by {
        assert(xs1[a] == xs[a] && xs1[b] == xs[b]);
        assert(!xs[a].same(xs[b]));
    }
}

/// A sequence without repeats has none after one element is taken out.
pub proof fn lemma_distinct_remove(ys: Seq<Val>, j: int)
    requires
        distinct(ys),
        0 <= j < ys.len(),
    ensures
        distinct(ys.remove(j)),
{
    let ys1 = ys.remove(j);
    assert forall|a: int, b: int|
        #![trigger ys1[a].same(ys1[b])]
        0 <= a < b < ys1.len() implies !ys1[a].same(ys1[b]) by {
        let a0 = if a < j { a } else { a + 1 };
        let b0 = if b < j { b } else { b + 1 };
        assert(ys1[a] == ys[a0] && ys1[b] == ys[b0]);
        assert(!ys[a0].same(ys[b0]));
    }
}

/// Two matching sequences without repeats still match after the last
/// element of the first and its equal in the second are taken out.
pub proof fn lemma_matching_shrinks(xs: Seq<Val>, ys: Seq<Val>, j: int)
    requires
        distinct(xs),
        distinct(ys),
        matching(xs, ys),
        xs.len() > 0,
        0 <= j < ys.len(),
        xs.last().same(ys[j]),
    ensures
        matching(xs.drop_last(), ys.remove(j)),
{
    let n = xs.len() as int;
    let x = xs[n - 1];
    let xs1 = xs.drop_last();
    let ys1 = ys.remove(j);
    law_same_symmetric(x, ys[j]);
    assert forall|i: int| 0 <= i < xs1.len() implies occurs(#[trigger] xs1[i], ys1) by {
        assert(xs1[i] == xs[i]);
        assert(occurs(xs[i], ys));
        let k = choose|k: int| 0 <= k < ys.len() && xs[i].same(#[trigger] ys[k]);
        if k == j {
            law_same_transitive(xs[i], ys[j], x);
            assert(xs[i].same(xs[n - 1]));
            assert(false);
        }
        let k1 = if k < j { k } else { k - 1 };
        assert(ys1[k1] == ys[k]);
    }
    assert forall|k1: int| 0 <= k1 < ys1.len() implies covered(xs1, #[trigger] ys1[k1]) by {
        let k = if k1 < j { k1 } else { k1 + 1 };
        assert(ys1[k1] == ys[k]);
        assert(covered(xs, ys[k]));
        let i = choose|i: int| 0 <= i < xs.len() && (#[trigger] xs[i]).same(ys[k]);
        if i == n - 1 {
            law_same_transitive(ys[j], x, ys[k]);
            if j < k {
                assert(ys[j].same(ys[k]));
            } else {
                law_same_symmetric(ys[j], ys[k]);
                assert(ys[k].same(ys[j]));
            }
            assert(false);
        }
        assert(xs1[i] == xs[i]);
    }
}

/// Hashes that agree on two sequences agree on what is left of them.
pub proof fn lemma_hashes_agree_shrinks(xs: Seq<Val>, ys: Seq<Val>, j: int)
    requires
        hashes_agree(xs, ys),
        xs.len() > 0,
        0 <= j < ys.len(),
    ensures
        hashes_agree(xs.drop_last(), ys.remove(j)),
{
    let xs1 = xs.drop_last();
    let ys1 = ys.remove(j);
    assert forall|a: int, b: int|
        #![trigger xs1[a].same(ys1[b])]
        0 <= a < xs1.len() && 0 <= b < ys1.len() && xs1[a].same(ys1[b]) implies xs1[a].digest()
        == ys1[b].digest() by {
        let b0 = if b < j { b } else { b + 1 };
        assert(ys1[b] == ys[b0] && xs1[a] == xs[a]);
        assert(xs[a].same(ys[b0]));
    }
}

/// Two sequences without repeats, of one length, in which each element of
/// one equals an element of the other, have the same xor of hashes, given
/// that equal elements have equal hashes.
pub proof fn lemma_xor_of_matching(xs: Seq<Val>, ys: Seq<Val>)
    requires
        xs.len() == ys.len(),
        distinct(xs),
        distinct(ys),
        matching(xs, ys),
        hashes_agree(xs, ys),
    ensures
        xor_all(digests(xs)) == xor_all(digests(ys)),
    decreases xs.len(),
{
    if xs.len() > 0 {
        let n = xs.len() as int;
        let x = xs[n - 1];
        assert(occurs(x, ys));
        let j = choose|j: int| 0 <= j < ys.len() && x.same(#[trigger] ys[j]);
        let xs1 = xs.drop_last();
        let ys1 = ys.remove(j);
        lemma_distinct_drop_last(xs);
        lemma_distinct_remove(ys, j);
        lemma_matching_shrinks(xs, ys, j);
        lemma_hashes_agree_shrinks(xs, ys, j);
        lemma_xor_of_matching(xs1, ys1);
        assert(digests(xs).drop_last() =~= digests(xs1));
        assert(digests(ys).remove(j) =~= digests(ys1));
        lemma_xor_remove(digests(ys), j);
        assert(xs[n - 1].same(ys[j]));
        assert(xs[n - 1].digest() == ys[j].digest());
        assert(digests(xs).last() == x.digest());
        assert(digests(ys)[j] == ys[j].digest());
    }
}

/// Equality and hashing agree: two well-formed values that are equal have
/// the same hash, at every depth of lists and sets.
pub proof fn law_equal_values_hash_equal(a: Val, b: Val)
    requires
        a.wf(),
        b.wf(),
        a.same(b),
    ensures
        a.digest() == b.digest(),
    decreases a,
{
    match (a, b) {
        (Val::List(xs), Val::List(ys)) => {
            assert forall|i: int| 0 <= i < xs.len() implies digests(xs)[i] == digests(ys)[i] by {
                assert(xs[i].same(ys[i]));
                law_equal_values_hash_equal(xs[i], ys[i]);
            }
            assert(digests(xs) =~= digests(ys));
        },
        (Val::Members(xs), Val::Members(ys)) => {
            assert forall|i: int, j: int|
                #![trigger xs[i].same(ys[j])]
                0 <= i < xs.len() && 0 <= j < ys.len() && xs[i].same(ys[j]) implies xs[i].digest()
                == ys[j].digest() by {
                law_equal_values_hash_equal(xs[i], ys[j]);
            }
            lemma_xor_of_matching(xs, ys);
        },
        _ => {},
    }
}

/// Floats are equal exactly when their bit patterns are.
pub proof fn law_float_equality_is_bitwise(x: u64, y: u64)
    ensures
        Val::Float(x).same(Val::Float(y)) == (x == y),
{
}

/// A set stays well-formed when a well-formed value is put into it as
/// [`crate::value::Value::with_inserted`] does.
pub proof fn law_insert_keeps_wf(xs: Seq<Val>, v: Val)
    requires
        Val::Members(xs).wf(),
        v.wf(),
    ensures
        Val::Members(inserted(xs, v)).wf(),
{
    if !covered(xs, v) {
        let ys = xs.push(v);
        assert forall|i: int, j: int|
            #![trigger ys[i].same(ys[j])]
            0 <= i < j < ys.len() implies !ys[i].same(ys[j]) by {
            if j < xs.len() {
                assert(!xs[i].same(xs[j]));
            } else {
                assert(ys[i] == xs[i] && ys[j] == v);
            }
        }
        assert forall|i: int| 0 <= i < ys.len() implies (#[trigger] ys[i]).wf() by {
            if i < xs.len() {
                assert(xs[i].wf());
            }
        }
    }
}

/// A list stays well-formed when a well-formed value is put at its end.
pub proof fn law_push_keeps_wf(xs: Seq<Val>, v: Val)
    requires
        Val::List(xs).wf(),
        v.wf(),
    ensures
        Val::List(xs.push(v)).wf(),
{
    let ys = xs.push(v);
    assert(Val::List(xs)->List_0 == xs);
    assert forall|i: int| 0 <= i < ys.len() implies (#[trigger] ys[i]).wf() by {
        if i < xs.len() {
            assert(ys[i] == xs[i]);
            assert(xs[i].wf());
        }
    }
}

/// An element of a set into which `a` and then `b` were put equals an
/// element of the set into which `b` and then `a` were put.
pub proof fn lemma_member_carries(xs: Seq<Val>, a: Val, b: Val, i: int)
    requires
        0 <= i < inserted(inserted(xs, a), b).len(),
    ensures
        occurs(inserted(inserted(xs, a), b)[i], inserted(inserted(xs, b), a)),
        covered(inserted(inserted(xs, b), a), inserted(inserted(xs, a), b)[i]),
{
    let m = inserted(xs, a);
    let l = inserted(m, b);
    let n = inserted(xs, b);
    let r = inserted(n, a);
    let e = l[i];
    law_same_reflexive(e);
    if i < xs.len() {
        assert(r[i] == e);
    } else if !covered(xs, a) && i == xs.len() {
        assert(e == a);
        if covered(n, a) {
            let k = choose|k: int| 0 <= k < n.len() && (#[trigger] n[k]).same(a);
            law_same_symmetric(n[k], a);
            assert(r[k] == n[k]);
        } else {
            assert(r[n.len() as int] == a);
        }
    } else {
        assert(e == b);
        assert(!covered(m, b));
        if covered(xs, b) {
            let k = choose|k: int| 0 <= k < xs.len() && (#[trigger] xs[k]).same(b);
            assert(m[k] == xs[k]);
            assert(false);
        }
        assert(n[xs.len() as int] == b);
        assert(r[xs.len() as int] == b);
    }
}

/// What a set with one more element covers.
pub proof fn lemma_covered_push(xs: Seq<Val>, v: Val, y: Val)
    ensures
        covered(xs.push(v), y) == (covered(xs, y) || v.same(y)),
{
    let ys = xs.push(v);
    if covered(xs, y) {
        let k = choose|k: int| 0 <= k < xs.len() && (#[trigger] xs[k]).same(y);
        assert(ys[k] == xs[k]);
    }
    if v.same(y) {
        assert(ys[xs.len() as int] == v);
    }
    if covered(ys, y) {
        let k = choose|k: int| 0 <= k < ys.len() && (#[trigger] ys[k]).same(y);
        if k < xs.len() {
            assert(xs[k] == ys[k]);
        }
    }
}

/// Set equality does not depend on the order of insertion: putting `a` and
/// then `b` into a set gives a set equal to the one that putting `b` and
/// then `a` into it gives.
pub proof fn law_insert_order_is_irrelevant(xs: Seq<Val>, a: Val, b: Val)
    ensures
        Val::Members(inserted(inserted(xs, a), b)).same(
            Val::Members(inserted(inserted(xs, b), a)),
        ),
{
    let l = inserted(inserted(xs, a), b);
    let r = inserted(inserted(xs, b), a);
    lemma_covered_push(xs, a, b);
    lemma_covered_push(xs, b, a);
    if a.same(b) {
        law_same_symmetric(a, b);
    }
    if b.same(a) {
        law_same_symmetric(b, a);
    }
    assert(l.len() == r.len());
    assert forall|i: int| 0 <= i < l.len() implies occurs(#[trigger] l[i], r) by {
        lemma_member_carries(xs, a, b, i);
    }
    assert forall|j: int| 0 <= j < r.len() implies covered(l, #[trigger] r[j]) by {
        lemma_member_carries(xs, b, a, j);
    }
    lemma_same_members(l, r);
}

/// List equality depends on order: a list in which two unequal elements
/// change places is no longer equal to the list it was.
pub proof fn law_list_order_matters(xs: Seq<Val>, i: int, j: int)
    requires
        0 <= i < xs.len(),
        0 <= j < xs.len(),
        !xs[i].same(xs[j]),
    ensures
        !Val::List(xs).same(Val::List(xs.update(i, xs[j]).update(j, xs[i]))),
{
    let ys = xs.update(i, xs[j]).update(j, xs[i]);
    assert(ys[i] == xs[j]);
}

} // verus!

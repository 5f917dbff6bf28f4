//! Combines multiple priority lists into one by Borda-style rank merging.

use core::cmp::Ordering;
use vstd::prelude::*;
use vstd::std_specs::cmp::OrdSpec;

verus! {

/// The rank contribution of `v` in one list: the sum of the indices at
/// which `v` occurs.
pub open spec fn score_in_list<T>(l: Seq<T>, v: T) -> int
    decreases l.len(),
{
    if l.len() == 0 {
        0
    } else {
        score_in_list(l.drop_last(), v) + if l.last() == v {
            l.len() - 1
        } else {
            0
        }
    }
}

/// The aggregate score of `v`: the sum of its index positions across every
/// list in which it appears. Absence contributes nothing.
pub open spec fn combine_score<T>(lists: Seq<Seq<T>>, v: T) -> int
    decreases lists.len(),
{
    if lists.len() == 0 {
        0
    } else {
        combine_score(lists.drop_last(), v) + score_in_list(lists.last(), v)
    }
}

/// The aggregate score as the merge computes it: clipped at `u64::MAX`
/// instead of overflowing.
pub open spec fn clipped_score<T>(lists: Seq<Seq<T>>, v: T) -> int {
    if combine_score(lists, v) > u64::MAX {
        u64::MAX as int
    } else {
        combine_score(lists, v)
    }
}

/// Whether `v` occurs in any of the lists.
pub open spec fn appears<T>(lists: Seq<Seq<T>>, v: T) -> bool {
    exists|k: int| 0 <= k < lists.len() && #[trigger] lists[k].contains(v)
}

/// The merged order: by aggregate score ascending, with ties broken by the
/// value order, so that the order never depends on how the input lists were
/// arranged.
pub open spec fn rank_before<T: Ord>(lists: Seq<Seq<T>>, a: T, b: T) -> bool {
    ||| clipped_score(lists, a) < clipped_score(lists, b)
    ||| (clipped_score(lists, a) == clipped_score(lists, b) && a.cmp_spec(&b)
        == Ordering::Less)
}

/// The value order that the merge relies on is a lawful total order:
/// comparison results are real, equality means equality, the order is
/// antisymmetric and transitive.
pub open spec fn lawful_order<T: Ord>() -> bool {
    &&& T::obeys_cmp_spec()
    &&& forall|a: T, b: T| ((#[trigger] a.cmp_spec(&b)) == Ordering::Equal <==> a == b)
    &&& forall|a: T, b: T|
        ((#[trigger] a.cmp_spec(&b)) == Ordering::Less <==> b.cmp_spec(&a)
            == Ordering::Greater)
    &&& forall|a: T, b: T, c: T|
        (#[trigger] a.cmp_spec(&b)) == Ordering::Less && (#[trigger] b.cmp_spec(&c))
            == Ordering::Less ==> a.cmp_spec(&c) == Ordering::Less
}

/// The mathematical contents of a collection of lists.
pub open spec fn list_views<T>(lists: Seq<Vec<T>>) -> Seq<Seq<T>> {
    lists.map_values(|l: Vec<T>| l@)
}

/// What the merge returns: exactly the distinct values of the input lists,
/// arranged ascending by aggregate score with ties broken by value order.
pub open spec fn combine_post<T: Ord>(lists: Seq<Seq<T>>, r: Seq<T>) -> bool {
    &&& forall|v: T| (#[trigger] r.contains(v)) <==> appears(lists, v)
    &&& forall|a: int, b: int|
        0 <= a && a < b && b < r.len() ==> rank_before(lists, #[trigger] r[a], #[trigger] r[b])
    &&& r.no_duplicates()
}

/// The built-in order of unsigned integers is lawful, so integer-valued
/// lists can always be merged.
pub proof fn lemma_lawful_order_u64()
    ensures
        lawful_order::<u64>(),
{
}

/// Rank contributions are never negative.
proof fn lemma_score_in_list_nonneg<T>(l: Seq<T>, v: T)
    ensures
        score_in_list(l, v) >= 0,
    decreases l.len(),
{
    if l.len() > 0 {
        lemma_score_in_list_nonneg(l.drop_last(), v);
    }
}

/// Aggregate scores are never negative.
proof fn lemma_combine_score_nonneg<T>(lists: Seq<Seq<T>>, v: T)
    ensures
        combine_score(lists, v) >= 0,
    decreases lists.len(),
{
    if lists.len() > 0 {
        lemma_combine_score_nonneg(lists.drop_last(), v);
        lemma_score_in_list_nonneg(lists.last(), v);
    }
}

/// Removing one list takes away exactly its contribution.
proof fn lemma_combine_score_remove<T>(lists: Seq<Seq<T>>, k: int, v: T)
    requires
        0 <= k < lists.len(),
    ensures
        combine_score(lists, v) == combine_score(lists.remove(k), v) + score_in_list(
            lists[k],
            v,
        ),
    decreases lists.len(),
{
    if k == lists.len() - 1 {
        assert(lists.remove(k) =~= lists.drop_last());
    } else {
        assert(lists.remove(k).drop_last() =~= lists.drop_last().remove(k));
        assert(lists.remove(k).last() == lists.last());
        lemma_combine_score_remove(lists.drop_last(), k, v);
    }
}

/// The aggregate score depends only on which lists are supplied, with
/// multiplicity, never on their order.
pub proof fn lemma_combine_score_permutation<T>(l1: Seq<Seq<T>>, l2: Seq<Seq<T>>, v: T)
    requires
        l1.to_multiset() == l2.to_multiset(),
    ensures
        combine_score(l1, v) == combine_score(l2, v),
    decreases l1.len(),
{
    broadcast use vstd::seq_lib::group_to_multiset_ensures;

    if l1.len() == 0 {
        assert(l2.to_multiset().len() == 0);
        assert(l2.len() == 0);
    } else {
        let x = l1.last();
        assert(l1.to_multiset().contains(x));
        assert(l2.contains(x));
        let k = choose|k: int| 0 <= k < l2.len() && l2[k] == x;
        let l2r = l2.remove(k);
        assert(l1.drop_last() =~= l1.remove(l1.len() - 1));
        assert(l1.remove(l1.len() - 1).to_multiset() == l1.to_multiset().remove(x));
        assert(l2r.to_multiset() == l2.to_multiset().remove(x));
        lemma_combine_score_permutation(l1.drop_last(), l2r, v);
        lemma_combine_score_remove(l2, k, v);
    }
}

/// Two values cannot each rank before the other.
proof fn lemma_rank_before_asymmetric<T: Ord>(lists: Seq<Seq<T>>, a: T, b: T)
    requires
        lawful_order::<T>(),
    ensures
        !(rank_before(lists, a, b) && rank_before(lists, b, a)),
{
    if rank_before(lists, a, b) && rank_before(lists, b, a) {
        assert(a.cmp_spec(&b) == Ordering::Less && b.cmp_spec(&a) == Ordering::Less);
        assert(b.cmp_spec(&a) == Ordering::Greater);
    }
}

/// Two sequences with the same values, each strictly sorted by the same
/// rank order, are the same sequence.
proof fn lemma_sorted_unique<T: Ord>(lists: Seq<Seq<T>>, r1: Seq<T>, r2: Seq<T>)
    requires
        lawful_order::<T>(),
        forall|v: T| (#[trigger] r1.contains(v)) <==> r2.contains(v),
        forall|a: int, b: int|
            0 <= a && a < b && b < r1.len() ==> rank_before(
                lists,
                #[trigger] r1[a],
                #[trigger] r1[b],
            ),
        forall|a: int, b: int|
            0 <= a && a < b && b < r2.len() ==> rank_before(
                lists,
                #[trigger] r2[a],
                #[trigger] r2[b],
            ),
        r1.no_duplicates(),
        r2.no_duplicates(),
    ensures
        r1 == r2,
    decreases r1.len(),
{
    if r1.len() == 0 {
        if r2.len() > 0 {
            assert(r2.contains(r2[0]));
            assert(r1.contains(r2[0]));
        }
        assert(r1 =~= r2);
    } else {
        assert(r1.contains(r1[0]));
        assert(r2.contains(r1[0]));
        let j = choose|j: int| 0 <= j < r2.len() && r2[j] == r1[0];
        assert(r2.len() > 0);
        if r1[0] != r2[0] {
            assert(r2.contains(r2[0]));
            assert(r1.contains(r2[0]));
            let i = choose|i: int| 0 <= i < r1.len() && r1[i] == r2[0];
            assert(i != 0);
            assert(j != 0);
            assert(rank_before(lists, r1[0], r1[i]));
            assert(rank_before(lists, r2[0], r2[j]));
            lemma_rank_before_asymmetric(lists, r1[0], r2[0]);
        }
        let t1 = r1.drop_first();
        let t2 = r2.drop_first();
        assert forall|v: T| (#[trigger] t1.contains(v)) implies t2.contains(v) by {
            let i = choose|i: int| 0 <= i < t1.len() && t1[i] == v;
            assert(r1[i + 1] == v);
            assert(r1.contains(v));
            assert(r2.contains(v));
            let j2 = choose|j2: int| 0 <= j2 < r2.len() && r2[j2] == v;
            assert(v != r1[0]);
            assert(j2 != 0);
            assert(t2[j2 - 1] == v);
            assert(t2.contains(v));
        }
        assert forall|v: T| (#[trigger] t2.contains(v)) implies t1.contains(v) by {
            let i = choose|i: int| 0 <= i < t2.len() && t2[i] == v;
            assert(r2[i + 1] == v);
            assert(r2.contains(v));
            assert(r1.contains(v));
            let j2 = choose|j2: int| 0 <= j2 < r1.len() && r1[j2] == v;
            assert(v != r2[0]);
            assert(j2 != 0);
            assert(t1[j2 - 1] == v);
            assert(t1.contains(v));
        }
        assert forall|a: int, b: int| 0 <= a && a < b && b < t1.len() implies rank_before(
            lists,
            #[trigger] t1[a],
            #[trigger] t1[b],
        ) by {
            assert(t1[a] == r1[a + 1] && t1[b] == r1[b + 1]);
        }
        assert forall|a: int, b: int| 0 <= a && a < b && b < t2.len() implies rank_before(
            lists,
            #[trigger] t2[a],
            #[trigger] t2[b],
        ) by {
            assert(t2[a] == r2[a + 1] && t2[b] == r2[b + 1]);
        }
        assert forall|a: int, b: int|
            0 <= a && a < t1.len() && 0 <= b && b < t1.len() && a != b implies t1[a] != t1[
            b
        ] by {
            assert(r1[a + 1] == t1[a] && r1[b + 1] == t1[b]);
        }
        assert forall|a: int, b: int|
            0 <= a && a < t2.len() && 0 <= b && b < t2.len() && a != b implies t2[a] != t2[
            b
        ] by {
            assert(r2[a + 1] == t2[a] && r2[b + 1] == t2[b]);
        }
        lemma_sorted_unique(lists, t1, t2);
        assert(t1 == t2);
        assert(r1.len() == r2.len());
        assert forall|i: int| 0 <= i < r1.len() implies r1[i] == r2[i] by {
            if i > 0 {
                assert(t1[i - 1] == r1[i]);
                assert(t2[i - 1] == r2[i]);
            }
        }
        assert(r1 =~= r2);
    }
}

/// Permuting the input list order never changes the output: any two results
/// of the merge over the same lists, supplied in any orders, are equal.
pub proof fn lemma_combine_order_invariant<T: Ord>(
    l1: Seq<Seq<T>>,
    l2: Seq<Seq<T>>,
    r1: Seq<T>,
    r2: Seq<T>,
)
    requires
        lawful_order::<T>(),
        l1.to_multiset() == l2.to_multiset(),
        combine_post(l1, r1),
        combine_post(l2, r2),
    ensures
        r1 == r2,
{
    broadcast use vstd::seq_lib::group_to_multiset_ensures;

    assert forall|v: T| #[trigger] appears(l1, v) implies appears(l2, v) by {
        let k = choose|k: int| 0 <= k < l1.len() && #[trigger] l1[k].contains(v);
        assert(l1.contains(l1[k]));
        assert(l1.to_multiset().contains(l1[k]));
        assert(l2.contains(l1[k]));
        let k2 = choose|k2: int| 0 <= k2 < l2.len() && l2[k2] == l1[k];
        assert(l2[k2].contains(v));
    }
    assert forall|v: T| #[trigger] appears(l2, v) implies appears(l1, v) by {
        let k = choose|k: int| 0 <= k < l2.len() && #[trigger] l2[k].contains(v);
        assert(l2.contains(l2[k]));
        assert(l2.to_multiset().contains(l2[k]));
        assert(l1.contains(l2[k]));
        let k2 = choose|k2: int| 0 <= k2 < l1.len() && l1[k2] == l2[k];
        assert(l1[k2].contains(v));
    }
    assert forall|v: T| (#[trigger] r1.contains(v)) <==> r2.contains(v) by {
        if r1.contains(v) {
            assert(appears(l1, v));
        }
        if r2.contains(v) {
            assert(appears(l2, v));
        }
    }
    assert forall|a: int, b: int| 0 <= a && a < b && b < r2.len() implies rank_before(
        l1,
        #[trigger] r2[a],
        #[trigger] r2[b],
    ) by {
        lemma_combine_score_permutation(l1, l2, r2[a]);
        lemma_combine_score_permutation(l1, l2, r2[b]);
        assert(rank_before(l2, r2[a], r2[b]));
    }
    lemma_sorted_unique(l1, r1, r2);
}

/// Whether a value occurs in a vector, decided by comparison.
#[verifier::loop_isolation(false)]
fn contains_val<T: Copy + Ord>(vals: &Vec<T>, x: T) -> (r: bool)
    requires
        lawful_order::<T>(),
    ensures
        r == vals@.contains(x),
{
    let n = vals.len();
    let mut i: usize = 0;
    while i < n
        invariant
            i <= n,
            forall|t: int| 0 <= t < i ==> vals@[t] != x,
        decreases n - i,
    {
        if matches!(vals[i].cmp(&x), Ordering::Equal) {
            return true;
        }
        i = i + 1;
    }
    false
}

/// Computes the clipped aggregate score of one value across all lists.
#[verifier::loop_isolation(false)]
fn score_exec<T: Copy + Ord>(lists: &Vec<Vec<T>>, v: T) -> (r: u64)
    requires
        lawful_order::<T>(),
    ensures
        r as int == clipped_score(list_views(lists@), v),
{
    let ghost model = list_views(lists@);
    let n = lists.len();
    let mut s: u64 = 0;
    let mut k: usize = 0;
    while k < n
        invariant
            k <= n,
            s as int == (if combine_score(model.take(k as int), v) > u64::MAX {
                u64::MAX as int
            } else {
                combine_score(model.take(k as int), v)
            }),
        decreases n - k,
    {
        let ghost outer_pre = combine_score(model.take(k as int), v);
        proof {
            lemma_combine_score_nonneg(model.take(k as int), v);
        }
        let m = lists[k].len();
        let mut i: usize = 0;
        while i < m
            invariant
                i <= m,
                s as int == (if outer_pre + score_in_list(model[k as int].take(i as int), v)
                    > u64::MAX {
                    u64::MAX as int
                } else {
                    outer_pre + score_in_list(model[k as int].take(i as int), v)
                }),
            decreases m - i,
        {
            let ghost inner_pre = score_in_list(model[k as int].take(i as int), v);
            proof {
                lemma_score_in_list_nonneg(model[k as int].take(i as int), v);
                assert(model[k as int].take(i as int + 1).drop_last() =~= model[
                    k as int
                ].take(i as int));
                assert(model[k as int].take(i as int + 1).last() == model[k as int][i as int]);
            }
            if matches!(lists[k][i].cmp(&v), Ordering::Equal) {
                let c = i as u64;
                s = if s > u64::MAX - c {
                    u64::MAX
                } else {
                    s + c
                };
            }
            i = i + 1;
        }
        proof {
            assert(model[k as int].take(model[k as int].len() as int) =~= model[k as int]);
            assert(model.take(k as int + 1).drop_last() =~= model.take(k as int));
            assert(model.take(k as int + 1).last() == model[k as int]);
        }
        k = k + 1;
    }
    proof {
        assert(model.take(model.len() as int) =~= model);
    }
    s
}

/// Combines multiple priority lists together.
///
/// This is used to combine strategies into a new one. Sometimes this is
/// better than using either strategy.
///
/// For each value, its aggregate score is the sum of its index positions
/// across every list in which it appears. The output holds every distinct
/// value, sorted ascending by aggregate score with ties broken by the value
/// order, preserving the last-is-highest-priority convention: a value
/// preferred late by many input lists ends up last, hence most preferred
/// overall. The output never depends on the order in which the input lists
/// are supplied.
#[verifier::loop_isolation(false)]
pub fn combine<T: Copy + Ord>(lists: Vec<Vec<T>>) -> (r: Vec<T>)
    requires
        lawful_order::<T>(),
    ensures
        combine_post(list_views(lists@), r@),
{
    let ghost model = list_views(lists@);
    let mut vals: Vec<T> = Vec::new();
    let n = lists.len();
    let mut k: usize = 0;
    while k < n
        invariant
            k <= n,
            vals@.no_duplicates(),
            forall|v: T| (#[trigger] vals@.contains(v)) <==> appears(model.take(k as int), v),
        decreases n - k,
    {
        let m = lists[k].len();
        let mut i: usize = 0;
        while i < m
            invariant
                i <= m,
                vals@.no_duplicates(),
                forall|v: T|
                    (#[trigger] vals@.contains(v)) <==> (appears(model.take(k as int), v)
                        || model[k as int].take(i as int).contains(v)),
            decreases m - i,
        {
            let ghost vpre = vals@;
            let x = lists[k][i];
            let was = contains_val(&vals, x);
            if !was {
                vals.push(x);
            }
            proof {
                if !was {
                    assert(vals@ == vpre.push(x));
                    assert(vals@[vpre.len() as int] == x);
                    assert forall|y: int, z: int|
                        0 <= y && y < vals@.len() && 0 <= z && z < vals@.len() && y != z
                        implies vals@[y] != vals@[z] by {
                        if y < vpre.len() && z < vpre.len() {
                        } else if y < vpre.len() {
                            assert(vals@[z] == x && vals@[y] == vpre[y]);
                            assert(!vpre.contains(x));
                        } else {
                            assert(vals@[y] == x && vals@[z] == vpre[z]);
                            assert(!vpre.contains(x));
                        }
                    }
                }
                assert forall|v: T| vpre.contains(v) implies #[trigger] vals@.contains(
                    v,
                ) by {
                    let t = choose|t: int| 0 <= t < vpre.len() && vpre[t] == v;
                    assert(vals@[t] == v);
                }
                assert(vals@.contains(x)) by {
                    if was {
                        assert(vpre.contains(x));
                    } else {
                        assert(vals@[vpre.len() as int] == x);
                    }
                }
                assert forall|v: T| (#[trigger] vals@.contains(v)) implies (appears(
                    model.take(k as int),
                    v,
                ) || model[k as int].take(i as int + 1).contains(v)) by {
                    let t = choose|t: int| 0 <= t < vals@.len() && vals@[t] == v;
                    if t < vpre.len() {
                        assert(vpre[t] == v);
                        assert(vpre.contains(v));
                        if model[k as int].take(i as int).contains(v) {
                            let u = choose|u: int|
                                0 <= u < i && model[k as int].take(i as int)[u] == v;
                            assert(model[k as int].take(i as int + 1)[u] == v);
                        }
                    } else {
                        assert(v == x);
                        assert(model[k as int].take(i as int + 1)[i as int] == x);
                    }
                }
                assert forall|v: T|
                    (appears(model.take(k as int), v) || model[k as int].take(
                        i as int + 1,
                    ).contains(v)) implies #[trigger] vals@.contains(v) by {
                    if appears(model.take(k as int), v) {
                        assert(vpre.contains(v));
                    } else {
                        let t = choose|t: int|
                            0 <= t <= i && (#[trigger] model[k as int].take(i as int + 1)[t])
                                == v;
                        if t < i {
                            assert(model[k as int].take(i as int)[t] == v);
                            assert(vpre.contains(v));
                        } else {
                            assert(v == x);
                        }
                    }
                }
            }
            i = i + 1;
        }
        proof {
            assert(model[k as int].take(model[k as int].len() as int) =~= model[k as int]);
            assert forall|v: T| (#[trigger] vals@.contains(v)) implies appears(
                model.take(k as int + 1),
                v,
            ) by {
                if appears(model.take(k as int), v) {
                    let t = choose|t: int|
                        0 <= t < k && #[trigger] model.take(k as int)[t].contains(v);
                    assert(model.take(k as int + 1)[t].contains(v));
                } else {
                    assert(model[k as int].contains(v));
                    assert(model.take(k as int + 1)[k as int].contains(v));
                }
            }
            assert forall|v: T| appears(model.take(k as int + 1), v) implies #[trigger] vals@
                .contains(v) by {
                let t = choose|t: int|
                    0 <= t < k + 1 && #[trigger] model.take(k as int + 1)[t].contains(v);
                if t < k {
                    assert(model.take(k as int)[t].contains(v));
                } else {
                    assert(model[k as int].contains(v));
                }
            }
        }
        k = k + 1;
    }
    proof {
        assert(model.take(model.len() as int) =~= model);
    }
    // Aggregate score of every distinct value.
    let len = vals.len();
    let mut scores: Vec<u64> = Vec::new();
    let mut j: usize = 0;
    while j < len
        invariant
            j <= len,
            scores@.len() == j,
            forall|t: int|
                0 <= t < j ==> (#[trigger] scores@[t]) as int == clipped_score(
                    model,
                    vals@[t],
                ),
        decreases len - j,
    {
        let s = score_exec(&lists, vals[j]);
        scores.push(s);
        j = j + 1;
    }
    // Selection sort ascending by (score, value).
    let mut a: usize = 0;
    while a < len
        invariant
            a <= len,
            vals@.len() == len,
            scores@.len() == len,
            vals@.no_duplicates(),
            forall|v: T| (#[trigger] vals@.contains(v)) <==> appears(model, v),
            forall|t: int|
                0 <= t < len ==> (#[trigger] scores@[t]) as int == clipped_score(
                    model,
                    vals@[t],
                ),
            forall|x: int, y: int|
                0 <= x && x < y && y < a ==> rank_before(
                    model,
                    #[trigger] vals@[x],
                    #[trigger] vals@[y],
                ),
            forall|x: int, y: int|
                0 <= x && x < a && a <= y && y < len ==> rank_before(
                    model,
                    #[trigger] vals@[x],
                    #[trigger] vals@[y],
                ),
        decreases len - a,
    {
        let mut m = a;
        let mut b = a + 1;
        while b < len
            invariant
                a <= m < b <= len,
                forall|t: int|
                    a <= t < b && t != m ==> rank_before(
                        model,
                        vals@[m as int],
                        #[trigger] vals@[t],
                    ),
            decreases len - b,
        {
            let less = {
                let sb = scores[b];
                let sm = scores[m];
                if sb < sm {
                    true
                } else if sb > sm {
                    false
                } else {
                    matches!(vals[b].cmp(&vals[m]), Ordering::Less)
                }
            };
            proof {
                if !less {
                    if scores@[b as int] == scores@[m as int] {
                        let vb = vals@[b as int];
                        let vm = vals@[m as int];
                        assert(vb.cmp_spec(&vm) != Ordering::Less);
                        if vb.cmp_spec(&vm) == Ordering::Equal {
                            assert(vb == vm);
                            assert(false);
                        }
                        assert(vb.cmp_spec(&vm) == Ordering::Greater);
                        assert(vm.cmp_spec(&vb) == Ordering::Less);
                    }
                    assert(rank_before(model, vals@[m as int], vals@[b as int]));
                } else {
                    assert forall|t: int|
                        a <= t < b + 1 && t != b implies rank_before(
                        model,
                        vals@[b as int],
                        #[trigger] vals@[t],
                    ) by {
                        if t != m {
                            assert(rank_before(model, vals@[m as int], vals@[t]));
                            let sm0 = clipped_score(model, vals@[m as int]);
                            let st0 = clipped_score(model, vals@[t]);
                            let sb0 = clipped_score(model, vals@[b as int]);
                            if sb0 == sm0 && sm0 == st0 {
                                assert(vals@[b as int].cmp_spec(&vals@[m as int])
                                    == Ordering::Less);
                                assert(vals@[m as int].cmp_spec(&vals@[t])
                                    == Ordering::Less);
                            }
                        }
                    }
                }
            }
            if less {
                m = b;
            }
            b = b + 1;
        }
        let ghost vpre = vals@;
        let ghost spre = scores@;
        let tv = vals[a];
        let tw = scores[a];
        let mv = vals[m];
        let mw = scores[m];
        vals.set(a, mv);
        vals.set(m, tv);
        scores.set(a, mw);
        scores.set(m, tw);
        proof {
            assert(vals@.len() == len);
            assert forall|x: int, y: int|
                0 <= x && x < len && 0 <= y && y < len && x != y implies vals@[x] != vals@[
                y
            ] by {
                assert(vpre[if x == a {
                    m as int
                } else if x == m {
                    a as int
                } else {
                    x
                }] == vals@[x]);
                assert(vpre[if y == a {
                    m as int
                } else if y == m {
                    a as int
                } else {
                    y
                }] == vals@[y]);
            }
            assert forall|v: T| (#[trigger] vals@.contains(v)) implies appears(model, v) by {
                let t = choose|t: int| 0 <= t < vals@.len() && vals@[t] == v;
                assert(vpre[if t == a {
                    m as int
                } else if t == m {
                    a as int
                } else {
                    t
                }] == v);
                assert(vpre.contains(v));
            }
            assert forall|v: T| appears(model, v) implies #[trigger] vals@.contains(v) by {
                assert(vpre.contains(v));
                let t = choose|t: int| 0 <= t < vpre.len() && vpre[t] == v;
                let t2 = if t == a {
                    m as int
                } else if t == m {
                    a as int
                } else {
                    t
                };
                assert(vals@[t2] == v);
            }
            assert forall|t: int|
                0 <= t < len implies (#[trigger] scores@[t]) as int == clipped_score(
                model,
                vals@[t],
            ) by {
                let t2 = if t == a {
                    m as int
                } else if t == m {
                    a as int
                } else {
                    t
                };
                assert(vals@[t] == vpre[t2] && scores@[t] == spre[t2]);
            }
        }
        a = a + 1;
    }
    proof {
        assert(combine_post(model, vals@)) by {
            assert forall|x: int, y: int|
                0 <= x && x < y && y < vals@.len() implies rank_before(
                model,
                #[trigger] vals@[x],
                #[trigger] vals@[y],
            ) by {}
        }
    }
    vals
}

} // verus!

use vstd::prelude::*;
use crate::connect::connected;
use crate::enumerate::{
    all_fit, double_factorial, histogram_count, hits_fn, lemma_count_pairings, misfit_fn, one_fn, pair_edge,
    remove_pair, sum_choices, sum_leaves,
};
use crate::genus::twice_genus;
use crate::perm::identity;
use crate::rotation::{RotationSystem, vertex_map_of};

verus! {

/// One for an edge map whose embedding is disconnected.
pub open spec fn disconnected_fn(vs: Seq<Seq<usize>>) -> spec_fn(Seq<usize>) -> nat {
    |x: Seq<usize>|
        if connected(vs, x) {
            0nat
        } else {
            1nat
        }
}

/// One for an edge map whose embedding is connected with a genus below `len`.
pub open spec fn recorded_fn(vs: Seq<Seq<usize>>, n: int, vm: Seq<usize>, len: int) -> spec_fn(Seq<usize>) -> nat {
    |x: Seq<usize>|
        if connected(vs, x) && twice_genus(vs, n, vm, x) >= 0 && twice_genus(vs, n, vm, x) % 2 == 0 && twice_genus(
            vs,
            n,
            vm,
            x,
        ) / 2 < len {
            1nat
        } else {
            0nat
        }
}

/// The sum of the first `len` buckets of the genus histogram of `config`.
pub open spec fn histogram_total(config: RotationSystem, len: int) -> nat
    decreases len,
{
    if len <= 0 {
        0
    } else {
        histogram_total(config, len - 1) + histogram_count(config, len - 1)
    }
}

/// Every pairing of all the arrows of `config` gives a connected embedding.
pub open spec fn every_pairing_connected(config: RotationSystem) -> bool {
    let n = config.arrows as int;
    sum_leaves(disconnected_fn(config.seqs()), identity(n as nat), identity(n as nat)) == 0
}

/// `x` is a fixed-point-free involution on `0..n`: it pairs every arrow with
/// another one, which is paired back with it.
pub open spec fn is_pairing(x: Seq<usize>, n: int) -> bool {
    &&& x.len() == n
    &&& forall|a: int| 0 <= a < n ==> #[trigger] x[a] < n && x[a] != a && x[x[a] as int] == a
}

/// One for an edge map that is not a fixed-point-free involution on `0..n`.
pub open spec fn defect_fn(n: int) -> spec_fn(Seq<usize>) -> nat {
    |x: Seq<usize>|
        if is_pairing(x, n) {
            0nat
        } else {
            1nat
        }
}

proof fn lemma_choices_additive(
    f1: spec_fn(Seq<usize>) -> nat,
    f2: spec_fn(Seq<usize>) -> nat,
    f3: spec_fn(Seq<usize>) -> nat,
    e: Seq<usize>,
    rem: Seq<usize>,
    i: int,
)
    requires
        forall|x: Seq<usize>| #[trigger] f3(x) == f1(x) + f2(x),
    ensures
        sum_choices(f3, e, rem, i) == sum_choices(f1, e, rem, i) + sum_choices(f2, e, rem, i),
    decreases rem.len(), rem.len() - i,
{
    if 1 <= i < rem.len() {
        lemma_choices_additive(f1, f2, f3, e, rem, i + 1);
        let e2 = pair_edge(e, rem[0], rem[i]);
        let r2 = remove_pair(rem, i);
        if r2.len() > 0 {
            lemma_choices_additive(f1, f2, f3, e2, r2, 1);
        }
    }
}

/// Summing over all pairings is additive in the summed function.
pub proof fn lemma_sum_additive(
    f1: spec_fn(Seq<usize>) -> nat,
    f2: spec_fn(Seq<usize>) -> nat,
    f3: spec_fn(Seq<usize>) -> nat,
    e: Seq<usize>,
    rem: Seq<usize>,
)
    requires
        forall|x: Seq<usize>| #[trigger] f3(x) == f1(x) + f2(x),
    ensures
        sum_leaves(f3, e, rem) == sum_leaves(f1, e, rem) + sum_leaves(f2, e, rem),
{
    if rem.len() > 0 {
        lemma_choices_additive(f1, f2, f3, e, rem, 1);
    }
}

proof fn lemma_total_is_recorded(config: RotationSystem, len: int)
    requires
        len >= 0,
    ensures
        ({
            let n = config.arrows as int;
            let vs = config.seqs();
            histogram_total(config, len) == sum_leaves(
                recorded_fn(vs, n, vertex_map_of(n, vs), len),
                identity(n as nat),
                identity(n as nat),
            )
        }),
    decreases len,
{
    let n = config.arrows as int;
    let vs = config.seqs();
    let vm = vertex_map_of(n, vs);
    let id = identity(n as nat);
    let rec = recorded_fn(vs, n, vm, len);
    if len == 0 {
        assert forall|x: Seq<usize>| #[trigger] rec(x) == rec(x) + rec(x) by {
        }
        lemma_sum_additive(rec, rec, rec, id, id);
    } else {
        lemma_total_is_recorded(config, len - 1);
        let prev = recorded_fn(vs, n, vm, len - 1);
        let h = hits_fn(vs, n, vm, len - 1);
        assert forall|x: Seq<usize>| #[trigger] rec(x) == prev(x) + h(x) by {
        }
        lemma_sum_additive(prev, h, rec, id, id);
    }
}

/// The histogram of a valid rotation system counts at most `(n - 1)!!`
/// embeddings over all its buckets, one per pairing of its `n` arrows; where
/// every pairing fits the histogram, it counts exactly `(n - 1)!!` just when
/// every pairing gives a connected embedding.
pub proof fn lemma_histogram_total(config: RotationSystem, len: int)
    requires
        config.valid(),
        len >= 0,
    ensures
        histogram_total(config, len) <= double_factorial(config.arrows - 1),
        all_fit(config, len) ==> (histogram_total(config, len) == double_factorial(config.arrows - 1)
            <==> every_pairing_connected(config)),
{
    let n = config.arrows as int;
    let vs = config.seqs();
    let vm = vertex_map_of(n, vs);
    let id = identity(n as nat);
    let rec = recorded_fn(vs, n, vm, len);
    let disc = disconnected_fn(vs);
    let mis = misfit_fn(vs, n, vm, len);
    let lack = |x: Seq<usize>| disc(x) + mis(x);
    lemma_total_is_recorded(config, len);
    lemma_count_pairings(id, id);
    assert forall|x: Seq<usize>| #[trigger] one_fn()(x) == rec(x) + lack(x) by {
    }
    lemma_sum_additive(rec, lack, one_fn(), id, id);
    assert forall|x: Seq<usize>| #[trigger] lack(x) == disc(x) + mis(x) by {
    }
    lemma_sum_additive(disc, mis, lack, id, id);
}

/// Arrows of `0..n` outside `rem` are already paired among themselves by `e`.
pub open spec fn paired_outside(e: Seq<usize>, rem: Seq<usize>, n: int) -> bool {
    forall|a: int|
        0 <= a < n && !rem.contains(a as usize) ==> #[trigger] e[a] < n && e[a] != a && e[e[a] as int] == a
            && !rem.contains(e[a])
}

proof fn lemma_remove_pair_contains(rem: Seq<usize>, i: int, x: usize)
    requires
        rem.no_duplicates(),
        1 <= i < rem.len(),
    ensures
        remove_pair(rem, i).contains(x) <==> rem.contains(x) && x != rem[0] && x != rem[i],
        remove_pair(rem, i).no_duplicates(),
        remove_pair(rem, i).len() == rem.len() - 2,
{
    let r2 = remove_pair(rem, i);
    let len = rem.len() as int;
    // place of each element of r2 in rem
    assert forall|k: int| 0 <= k < r2.len() implies #[trigger] r2[k] == rem[if k < i - 1 { k + 1 } else { k + 2 }] by {
    }
    if r2.contains(x) {
        let k = choose|k: int| 0 <= k < r2.len() && r2[k] == x;
        let p = if k < i - 1 { k + 1 } else { k + 2 };
        assert(rem[p] == x);
    }
    if rem.contains(x) && x != rem[0] && x != rem[i] {
        let p = choose|p: int| 0 <= p < len && rem[p] == x;
        let k = if p < i { p - 1 } else { p - 2 };
        assert(r2[k] == x);
    }
    assert forall|k1: int, k2: int| 0 <= k1 < r2.len() && 0 <= k2 < r2.len() && k1 != k2 implies r2[k1] != r2[k2] by {
        let p1 = if k1 < i - 1 { k1 + 1 } else { k1 + 2 };
        let p2 = if k2 < i - 1 { k2 + 1 } else { k2 + 2 };
        assert(r2[k1] == rem[p1] && r2[k2] == rem[p2]);
    }
}

proof fn lemma_choices_are_pairings(n: int, e: Seq<usize>, rem: Seq<usize>, i: int)
    requires
        0 <= n <= usize::MAX,
        e.len() == n,
        rem.no_duplicates(),
        forall|k: int| 0 <= k < rem.len() ==> #[trigger] rem[k] < n,
        paired_outside(e, rem, n),
    ensures
        sum_choices(defect_fn(n), e, rem, i) == 0,
    decreases rem.len(), rem.len() - i,
{
    if 1 <= i < rem.len() {
        lemma_choices_are_pairings(n, e, rem, i + 1);
        let a0 = rem[0];
        let b = rem[i];
        let e2 = pair_edge(e, a0, b);
        let r2 = remove_pair(rem, i);
        assert(a0 != b);
        assert forall|x: usize| #[trigger] r2.contains(x) <==> rem.contains(x) && x != a0 && x != b by {
            lemma_remove_pair_contains(rem, i, x);
        }
        lemma_remove_pair_contains(rem, i, 0);
        assert forall|k: int| 0 <= k < r2.len() implies #[trigger] r2[k] < n by {
            assert(r2.contains(r2[k]));
            let p = choose|p: int| 0 <= p < rem.len() && rem[p] == r2[k];
        }
        assert(rem.contains(a0));
        assert(rem.contains(b));
        assert forall|a: int| 0 <= a < n && !r2.contains(a as usize) implies #[trigger] e2[a] < n && e2[a] != a
            && e2[e2[a] as int] == a && !r2.contains(e2[a]) by {
            if a == a0 as int {
            } else if a == b as int {
            } else {
                assert(!rem.contains(a as usize));
                assert(e2[a] == e[a]);
                assert(e[a] != a0 && e[a] != b);
            }
        }
        if r2.len() > 0 {
            lemma_choices_are_pairings(n, e2, r2, 1);
        } else {
            assert forall|a: int| 0 <= a < n implies #[trigger] e2[a] < n && e2[a] != a && e2[e2[a] as int] == a by {
                assert(!r2.contains(a as usize));
            }
            assert(is_pairing(e2, n));
        }
    }
}

/// Every edge map that the search completes from the identity, pairing up all
/// arrows of `0..n`, is a fixed-point-free involution: none of them counts in
/// the sum of the defect indicator.
pub proof fn lemma_generated_pairings(n: nat)
    requires
        n <= usize::MAX,
    ensures
        sum_leaves(defect_fn(n as int), identity(n), identity(n)) == 0,
{
    let id = identity(n);
    assert(id.no_duplicates());
    assert(paired_outside(id, id, n as int)) by {
        assert forall|a: int| 0 <= a < n && !id.contains(a as usize) implies #[trigger] id[a] < n && id[a] != a
            && id[id[a] as int] == a && !id.contains(id[a]) by {
            assert(id[a] == a as usize);
        }
    }
    if n > 0 {
        lemma_choices_are_pairings(n as int, id, id, 1);
    } else {
        assert(is_pairing(id, 0));
    }
}

} // verus!

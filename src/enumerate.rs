use vstd::prelude::*;
use crate::genus::{GenusError, count, fits, has_genus};
use crate::perm::{PermutationStructure, identity, maps_into};
use crate::rotation::{ConfigError, RotationSystem, convert_vertex_map, vertex_map_of};

verus! {

/// `e` with arrows `a` and `b` paired with each other.
pub open spec fn pair_edge(e: Seq<usize>, a: usize, b: usize) -> Seq<usize> {
    e.update(a as int, b).update(b as int, a)
}

/// The arrows left once the first one and the one at `i` are paired.
pub open spec fn remove_pair(rem: Seq<usize>, i: int) -> Seq<usize> {
    rem.subrange(1, i) + rem.subrange(i + 1, rem.len() as int)
}

/// The sum of `f` over the edge maps completed from `e` when the first
/// unpaired arrow of `rem` is paired with the arrow at place `i`, `i + 1`,
/// and so on to the end of `rem`, and the arrows left are paired in every way.
pub open spec fn sum_choices(f: spec_fn(Seq<usize>) -> nat, e: Seq<usize>, rem: Seq<usize>, i: int) -> nat
    decreases rem.len(), rem.len() - i,
{
    if 1 <= i < rem.len() {
        let e2 = pair_edge(e, rem[0], rem[i]);
        let r2 = remove_pair(rem, i);
        (if r2.len() == 0 {
            f(e2)
        } else {
            sum_choices(f, e2, r2, 1)
        }) + sum_choices(f, e, rem, i + 1)
    } else {
        0
    }
}

/// The sum of `f` over every edge map completed from `e` by pairing up the
/// arrows of `rem`.
pub open spec fn sum_leaves(f: spec_fn(Seq<usize>) -> nat, e: Seq<usize>, rem: Seq<usize>) -> nat {
    if rem.len() == 0 {
        f(e)
    } else {
        sum_choices(f, e, rem, 1)
    }
}

/// One for every edge map.
pub open spec fn one_fn() -> spec_fn(Seq<usize>) -> nat {
    |x: Seq<usize>| 1nat
}

/// One for an edge map whose embedding is connected with genus `g`.
pub open spec fn hits_fn(vs: Seq<Seq<usize>>, n: int, vm: Seq<usize>, g: int) -> spec_fn(Seq<usize>) -> nat {
    |x: Seq<usize>|
        if has_genus(vs, n, vm, x, g) {
            1nat
        } else {
            0nat
        }
}

/// One for an edge map whose embedding has no bucket among `len`.
pub open spec fn misfit_fn(vs: Seq<Seq<usize>>, n: int, vm: Seq<usize>, len: int) -> spec_fn(Seq<usize>) -> nat {
    |x: Seq<usize>|
        if fits(vs, n, vm, x, len) {
            0nat
        } else {
            1nat
        }
}

/// Between places `i` and `j`, the sum of `f` is no more than that of a
/// larger `f2`, and not negative.
pub proof fn lemma_partial_le(
    f: spec_fn(Seq<usize>) -> nat,
    f2: spec_fn(Seq<usize>) -> nat,
    e: Seq<usize>,
    rem: Seq<usize>,
    i: int,
    j: int,
)
    requires
        1 <= i <= j <= rem.len(),
        forall|x: Seq<usize>| #[trigger] f(x) <= f2(x),
    ensures
        0 <= sum_choices(f, e, rem, i) - sum_choices(f, e, rem, j) <= sum_choices(f2, e, rem, i) - sum_choices(
            f2,
            e,
            rem,
            j,
        ),
    decreases rem.len(), j - i,
{
    if i < j {
        lemma_partial_le(f, f2, e, rem, i + 1, j);
        let e2 = pair_edge(e, rem[0], rem[i]);
        let r2 = remove_pair(rem, i);
        if r2.len() > 0 {
            lemma_partial_le(f, f2, e2, r2, 1, r2.len() as int);
        }
    }
}

/// `k!! = k * (k - 2) * ...`, down to 1; 1 for `k <= 1`.
pub open spec fn double_factorial(k: int) -> nat
    decreases k,
{
    if k <= 1 {
        1
    } else {
        (k * double_factorial(k - 2)) as nat
    }
}

proof fn lemma_double_factorial_pos(k: int)
    ensures
        double_factorial(k) >= 1,
    decreases k,
{
    if k > 1 {
        lemma_double_factorial_pos(k - 2);
        assert(k * double_factorial(k - 2) >= 1) by (nonlinear_arith)
            requires
                k > 1,
                double_factorial(k - 2) >= 1,
        ;
    }
}

proof fn lemma_count_choices(e: Seq<usize>, rem: Seq<usize>, i: int)
    requires
        rem.len() >= 2,
        rem.len() % 2 == 0,
        1 <= i <= rem.len(),
    ensures
        sum_choices(one_fn(), e, rem, i) == (rem.len() - i) * double_factorial(rem.len() - 3),
    decreases rem.len(), rem.len() - i,
{
    let len = rem.len() as int;
    let d = double_factorial(len - 3);
    if i < len {
        lemma_count_choices(e, rem, i + 1);
        let e2 = pair_edge(e, rem[0], rem[i]);
        let r2 = remove_pair(rem, i);
        assert(r2.len() == len - 2);
        if r2.len() > 0 {
            lemma_count_pairings(e2, r2);
        } else {
            assert(one_fn()(e2) == 1);
        }
        assert(sum_leaves(one_fn(), e2, r2) == d);
        assert(sum_choices(one_fn(), e, rem, i) == sum_leaves(one_fn(), e2, r2) + sum_choices(one_fn(), e, rem, i + 1));
        assert((len - i) * d == d + (len - i - 1) * d) by (nonlinear_arith);
    } else {
        assert((len - i) * d == 0) by (nonlinear_arith)
            requires
                len == i,
        ;
    }
}

/// The pairings of an even number `m` of arrows number `(m - 1)!!`.
pub proof fn lemma_count_pairings(e: Seq<usize>, rem: Seq<usize>)
    requires
        rem.len() % 2 == 0,
    ensures
        sum_leaves(one_fn(), e, rem) == double_factorial(rem.len() - 1),
    decreases rem.len(), rem.len() as int,
{
    if rem.len() > 0 {
        lemma_count_choices(e, rem, 1);
        let k = rem.len() - 1;
        if k == 1 {
            assert(double_factorial(-1) == 1);
            assert(double_factorial(1) == 1);
            assert(sum_choices(one_fn(), e, rem, 1) == 1 * double_factorial(-1));
        } else {
            lemma_double_factorial_pos(k - 2);
            assert(k * double_factorial(k - 2) >= 0) by (nonlinear_arith)
                requires
                    k > 1,
            ;
            assert(double_factorial(k) == k * double_factorial(k - 2));
            assert(sum_choices(one_fn(), e, rem, 1) == k * double_factorial(k - 2));
        }
        assert(sum_leaves(one_fn(), e, rem) == sum_choices(one_fn(), e, rem, 1));
    } else {
        assert(one_fn()(e) == 1);
        assert(double_factorial(-1) == 1);
    }
}

/// Pairs the first arrow of `chooser` with the one at place `i`, and returns
/// the arrows that are left.
pub fn nest2(i: usize, chooser: &Vec<usize>, edge_map: &mut PermutationStructure) -> (r: Vec<usize>)
    requires
        1 <= i < chooser@.len(),
        chooser@[0] < old(edge_map)@.len(),
        chooser@[i as int] < old(edge_map)@.len(),
    ensures
        final(edge_map)@ == pair_edge(old(edge_map)@, chooser@[0], chooser@[i as int]),
        r@ == remove_pair(chooser@, i as int),
{
    let a = chooser[0];
    let b = chooser[i];
    edge_map.out.set(a, b);
    edge_map.out.set(b, a);
    let len = chooser.len();
    let mut rest: Vec<usize> = Vec::new();
    let mut j: usize = 1;
    while j < len
        invariant
            1 <= i < len,
            len == chooser@.len(),
            1 <= j <= len,
            rest@ == if j <= i {
                chooser@.subrange(1, j as int)
            } else {
                chooser@.subrange(1, i as int) + chooser@.subrange(i + 1, j as int)
            },
        decreases len - j,
    {
        if j != i {
            rest.push(chooser[j]);
        }
        proof {
            if j < i {
                assert(rest@ =~= chooser@.subrange(1, j + 1));
            } else if j == i {
                assert(rest@ =~= chooser@.subrange(1, i as int) + chooser@.subrange(i + 1, j + 1));
            } else {
                assert(rest@ =~= chooser@.subrange(1, i as int) + chooser@.subrange(i + 1, j + 1));
            }
        }
        j = j + 1;
    }
    rest
}

/// Pairs up the arrows of `chooser` in every way, on top of the pairs already
/// in `edge_map`, and records each completed embedding in `genus`. The first
/// arrow left is paired with each other arrow in turn, so every pairing comes
/// once. `edge_map` is given back as it came.
pub fn nest(
    chooser: &Vec<usize>,
    edge_map: &mut PermutationStructure,
    vertex_map: &PermutationStructure,
    config: &RotationSystem,
    genus: &mut Vec<usize>,
) -> (r: Result<(), GenusError>)
    requires
        config.valid(),
        maps_into(old(edge_map)@, config.arrows as int),
        maps_into(vertex_map@, config.arrows as int),
        forall|i: int| 0 <= i < chooser@.len() ==> #[trigger] chooser@[i] < config.arrows,
        forall|g: int|
            0 <= g < old(genus)@.len() ==> #[trigger] old(genus)@[g] + sum_leaves(one_fn(), old(edge_map)@, chooser@)
                <= usize::MAX,
    ensures
        final(edge_map)@ == old(edge_map)@,
        final(genus)@.len() == old(genus)@.len(),
        !(r matches Err(GenusError::Config(_))),
        r is Ok <==> sum_leaves(
            misfit_fn(config.seqs(), config.arrows as int, vertex_map@, old(genus)@.len() as int),
            old(edge_map)@,
            chooser@,
        ) == 0,
        r is Ok ==> forall|g: int|
            0 <= g < old(genus)@.len() ==> #[trigger] final(genus)@[g] == old(genus)@[g] + sum_leaves(
                hits_fn(config.seqs(), config.arrows as int, vertex_map@, g),
                old(edge_map)@,
                chooser@,
            ),
    decreases chooser@.len(),
{
    let ghost vs = config.seqs();
    let ghost n = config.arrows as int;
    let ghost vm = vertex_map@;
    let ghost e0 = edge_map@;
    let ghost g0 = genus@;
    let ghost rem = chooser@;
    let ghost glen = genus@.len() as int;
    if chooser.len() == 0 {
        let r = count(genus, edge_map, vertex_map, config);
        proof {
            if r is Ok {
                assert forall|g: int| 0 <= g < glen implies #[trigger] genus@[g] == g0[g] + sum_leaves(
                    hits_fn(vs, n, vm, g),
                    e0,
                    rem,
                ) by {
                    assert(hits_fn(vs, n, vm, g)(e0) == if has_genus(vs, n, vm, e0, g) { 1nat } else { 0nat });
                }
            }
            assert(misfit_fn(vs, n, vm, glen)(e0) == if fits(vs, n, vm, e0, glen) { 0nat } else { 1nat });
        }
        return r;
    }
    let len = chooser.len();
    let mut i: usize = 1;
    while i < len
        invariant
            config.valid(),
            vs == config.seqs(),
            n == config.arrows as int,
            vm == vertex_map@,
            maps_into(vm, n),
            maps_into(e0, n),
            edge_map@ == e0,
            e0 == old(edge_map)@,
            g0 == old(genus)@,
            rem == chooser@,
            len == rem.len(),
            len > 0,
            forall|k: int| 0 <= k < rem.len() ==> #[trigger] rem[k] < n,
            glen == g0.len(),
            genus@.len() == glen,
            forall|g: int| 0 <= g < glen ==> #[trigger] g0[g] + sum_leaves(one_fn(), e0, rem) <= usize::MAX,
            1 <= i <= len,
            sum_choices(misfit_fn(vs, n, vm, glen), e0, rem, 1) == sum_choices(misfit_fn(vs, n, vm, glen), e0, rem, i as int),
            forall|g: int|
                0 <= g < glen ==> #[trigger] genus@[g] == g0[g] + sum_choices(hits_fn(vs, n, vm, g), e0, rem, 1)
                    - sum_choices(hits_fn(vs, n, vm, g), e0, rem, i as int),
        decreases len - i,
    {
        let a = chooser[0];
        let b = chooser[i];
        let va = edge_map.out[a];
        let vb = edge_map.out[b];
        let next = nest2(i, chooser, edge_map);
        let ghost e2 = edge_map@;
        let ghost gbefore = genus@;
        proof {
            assert forall|g: int| 0 <= g < glen implies #[trigger] gbefore[g] + sum_leaves(one_fn(), e2, next@)
                <= usize::MAX by {
                let h = hits_fn(vs, n, vm, g);
                lemma_partial_le(h, one_fn(), e0, rem, 1, i as int);
                lemma_partial_le(one_fn(), one_fn(), e0, rem, i + 1, len as int);
                assert(sum_choices(one_fn(), e0, rem, i as int) == sum_leaves(one_fn(), e2, next@) + sum_choices(
                    one_fn(),
                    e0,
                    rem,
                    i + 1,
                ));
            }
        }
        let res = nest(&next, edge_map, vertex_map, config, genus);
        edge_map.out.set(b, vb);
        edge_map.out.set(a, va);
        assert(edge_map@ =~= e0);
        proof {
            let mf = misfit_fn(vs, n, vm, glen);
            assert(sum_choices(mf, e0, rem, i as int) == sum_leaves(mf, e2, next@) + sum_choices(mf, e0, rem, i + 1));
        }
        if res.is_err() {
            return res;
        }
        proof {
            assert forall|g: int|
                0 <= g < glen implies #[trigger] genus@[g] == g0[g] + sum_choices(hits_fn(vs, n, vm, g), e0, rem, 1)
                    - sum_choices(hits_fn(vs, n, vm, g), e0, rem, i + 1) by {
                let h = hits_fn(vs, n, vm, g);
                assert(sum_choices(h, e0, rem, i as int) == sum_leaves(h, e2, next@) + sum_choices(h, e0, rem, i + 1));
                assert(gbefore[g] == g0[g] + sum_choices(h, e0, rem, 1) - sum_choices(h, e0, rem, i as int));
            }
        }
        i = i + 1;
    }
    Ok(())
}

/// How many pairings of all the arrows of `config` give a connected
/// embedding of genus `g`.
pub open spec fn histogram_count(config: RotationSystem, g: int) -> nat {
    let n = config.arrows as int;
    let vs = config.seqs();
    sum_leaves(hits_fn(vs, n, vertex_map_of(n, vs), g), identity(n as nat), identity(n as nat))
}

/// Every pairing of all the arrows of `config` gives an embedding that a
/// histogram of `len` buckets can record.
pub open spec fn all_fit(config: RotationSystem, len: int) -> bool {
    let n = config.arrows as int;
    let vs = config.seqs();
    sum_leaves(misfit_fn(vs, n, vertex_map_of(n, vs), len), identity(n as nat), identity(n as nat)) == 0
}

/// Counts, for each genus below `genus_bound`, the pairings of the arrows of
/// `config` whose embedding is connected and has that genus.
pub fn genus_histogram(config: &RotationSystem, genus_bound: usize) -> (r: Result<Vec<usize>, GenusError>)
    requires
        config.arrows % 2 == 0 ==> double_factorial(config.arrows - 1) <= usize::MAX,
    ensures
        r matches Err(GenusError::Config(_)) <==> !config.valid(),
        config.valid() ==> (r is Ok <==> all_fit(*config, genus_bound as int)),
        r is Ok ==> r->Ok_0@.len() == genus_bound && forall|g: int|
            0 <= g < genus_bound ==> #[trigger] r->Ok_0@[g] == histogram_count(*config, g),
{
    let vertex_map = match convert_vertex_map(config) {
        Ok(p) => p,
        Err(c) => {
            return Err(GenusError::Config(c));
        },
    };
    let n = config.arrows;
    let mut edge_map = PermutationStructure { out: Vec::new() };
    let mut chooser: Vec<usize> = Vec::new();
    let mut j: usize = 0;
    while j < n
        invariant
            j <= n,
            edge_map@ =~= identity(j as nat),
            chooser@ =~= identity(j as nat),
        decreases n - j,
    {
        edge_map.out.push(j);
        chooser.push(j);
        j = j + 1;
    }
    let mut genus: Vec<usize> = Vec::new();
    while genus.len() < genus_bound
        invariant
            genus@.len() <= genus_bound,
            forall|g: int| 0 <= g < genus@.len() ==> #[trigger] genus@[g] == 0,
        decreases genus_bound - genus@.len(),
    {
        genus.push(0);
    }
    proof {
        lemma_count_pairings(edge_map@, chooser@);
    }
    let res = nest(&chooser, &mut edge_map, &vertex_map, config, &mut genus);
    match res {
        Ok(()) => Ok(genus),
        Err(e) => Err(e),
    }
}

} // verus!

use vstd::prelude::*;

verus! {

/// A function on the arrows `0..n`, stored as the image of each arrow.
pub struct PermutationStructure {
    pub out: Vec<usize>,
}

impl View for PermutationStructure {
    type V = Seq<usize>;

    open spec fn view(&self) -> Seq<usize> {
        self.out@
    }
}

/// `p` sends every arrow of `0..n` to an arrow of `0..n`.
pub open spec fn maps_into(p: Seq<usize>, n: int) -> bool {
    &&& p.len() == n
    &&& forall|a: int| 0 <= a < n ==> #[trigger] p[a] < n
}

/// The arrow reached from `a` after `k` applications of `p`.
pub open spec fn iterate(p: Seq<usize>, a: int, k: nat) -> int
    decreases k,
{
    if k == 0 {
        a
    } else {
        p[iterate(p, a, (k - 1) as nat)] as int
    }
}

/// `a` is the smallest arrow of its cycle under `p`: no arrow below it is
/// reached within `p.len()` steps.
pub open spec fn is_cycle_leader(p: Seq<usize>, a: int) -> bool {
    forall|k: nat| k < p.len() ==> #[trigger] iterate(p, a, k) >= a
}

/// How many arrows of `0..i` lead their cycle.
pub open spec fn leaders_below(p: Seq<usize>, i: int) -> nat
    decreases i,
{
    if i <= 0 {
        0
    } else {
        leaders_below(p, i - 1) + if is_cycle_leader(p, i - 1) { 1nat } else { 0nat }
    }
}

/// The number of disjoint cycles of `p`: each cycle is counted once, at its
/// smallest arrow.
pub open spec fn cycle_count(p: Seq<usize>) -> nat {
    leaders_below(p, p.len() as int)
}

/// The face-tracing permutation: first `f`, then `g`.
pub open spec fn compose(f: Seq<usize>, g: Seq<usize>) -> Seq<usize> {
    Seq::new(f.len(), |a: int| g[f[a] as int])
}

/// The identity on `0..n`.
pub open spec fn identity(n: nat) -> Seq<usize> {
    Seq::new(n, |a: int| a as usize)
}

/// `p` is one cycle through all of `0..p.len()`: every arrow reaches every
/// other one in fewer than `p.len()` steps.
pub open spec fn is_single_cycle(p: Seq<usize>) -> bool {
    forall|a: int, b: int|
        0 <= a < p.len() && 0 <= b < p.len() ==> #[trigger] reaches(p, a, b)
}

/// `b` is reached from `a` in fewer than `p.len()` steps of `p`.
pub open spec fn reaches(p: Seq<usize>, a: int, b: int) -> bool {
    exists|k: nat| k < p.len() && #[trigger] iterate(p, a, k) == b
}

proof fn lemma_identity_fixes(n: nat, a: int, k: nat)
    requires
        0 <= a < n,
        n <= usize::MAX,
    ensures
        iterate(identity(n), a, k) == a,
    decreases k,
{
    if k > 0 {
        lemma_identity_fixes(n, a, (k - 1) as nat);
    }
}

proof fn lemma_identity_leaders(n: nat, i: int)
    requires
        0 <= i <= n,
        n <= usize::MAX,
    ensures
        leaders_below(identity(n), i) == i,
    decreases i,
{
    if i > 0 {
        lemma_identity_leaders(n, i - 1);
        assert forall|k: nat| k < n implies #[trigger] iterate(identity(n), i - 1, k) >= i - 1 by {
            lemma_identity_fixes(n, i - 1, k);
        }
    }
}

/// Every arrow is a cycle of its own under the identity, so the identity on
/// `n` arrows has `n` cycles.
pub proof fn lemma_identity_cycle_count(n: nat)
    requires
        n <= usize::MAX,
    ensures
        cycle_count(identity(n)) == n,
{
    lemma_identity_leaders(n, n as int);
}

proof fn lemma_single_cycle_leaders(p: Seq<usize>, i: int)
    requires
        is_single_cycle(p),
        1 <= i <= p.len(),
    ensures
        leaders_below(p, i) == 1,
    decreases i,
{
    if i == 1 {
        assert(leaders_below(p, 0) == 0);
        assert(is_cycle_leader(p, 0)) by {
            assert forall|k: nat| k < p.len() implies #[trigger] iterate(p, 0, k) >= 0 by {
                lemma_iterate_nonneg(p, 0, k);
            }
        }
    } else {
        lemma_single_cycle_leaders(p, i - 1);
        assert(reaches(p, i - 1, 0));
        let k = choose|k: nat| k < p.len() && #[trigger] iterate(p, i - 1, k) == 0;
        assert(!is_cycle_leader(p, i - 1));
    }
}

proof fn lemma_iterate_nonneg(p: Seq<usize>, a: int, k: nat)
    requires
        a >= 0,
    ensures
        iterate(p, a, k) >= 0,
    decreases k,
{
}

/// A permutation that is one cycle through all its arrows has exactly one
/// cycle.
pub proof fn lemma_single_cycle_count(p: Seq<usize>)
    requires
        p.len() >= 1,
        is_single_cycle(p),
    ensures
        cycle_count(p) == 1,
{
    lemma_single_cycle_leaders(p, p.len() as int);
}

proof fn lemma_iterate_in_range(p: Seq<usize>, a: int, k: nat)
    requires
        maps_into(p, p.len() as int),
        0 <= a < p.len(),
    ensures
        0 <= iterate(p, a, k) < p.len(),
    decreases k,
{
    if k > 0 {
        lemma_iterate_in_range(p, a, (k - 1) as nat);
    }
}

/// At most `i` arrows of `0..i` lead their cycle.
pub proof fn lemma_leaders_below_bound(p: Seq<usize>, i: int)
    ensures
        leaders_below(p, i) <= if i < 0 { 0 } else { i },
    decreases i,
{
    if i > 0 {
        lemma_leaders_below_bound(p, i - 1);
    }
}

/// The composition `h(a) = vertex_map(edge_map(a))`.
pub fn product_permute(edge_map: &PermutationStructure, vertex_map: &PermutationStructure) -> (r:
    PermutationStructure)
    requires
        maps_into(edge_map@, edge_map@.len() as int),
        vertex_map@.len() == edge_map@.len(),
    ensures
        r@ == compose(edge_map@, vertex_map@),
{
    let n = edge_map.out.len();
    let mut out: Vec<usize> = Vec::with_capacity(n);
    for p in 0..n
        invariant
            n == edge_map@.len(),
            maps_into(edge_map@, n as int),
            vertex_map@.len() == n,
            out@ =~= compose(edge_map@, vertex_map@).take(p as int),
    {
        out.push(vertex_map.out[edge_map.out[p]]);
        assert(out@ =~= compose(edge_map@, vertex_map@).take(p + 1));
    }
    assert(out@ =~= compose(edge_map@, vertex_map@));
    PermutationStructure { out }
}

/// Counts the disjoint cycles of `permute`. An arrow is counted when walking
/// its cycle never meets a smaller arrow, so each cycle is counted once.
pub fn face_count(permute: &PermutationStructure) -> (r: usize)
    requires
        maps_into(permute@, permute@.len() as int),
    ensures
        r == cycle_count(permute@),
{
    let n = permute.out.len();
    let ghost p = permute@;
    let mut ans: usize = 0;
    for a in 0..n
        invariant
            n == p.len(),
            p == permute@,
            maps_into(p, n as int),
            ans == leaders_below(p, a as int),
    {
        let mut leads = true;
        let mut cur: usize = a;
        let mut k: usize = 0;
        while k + 1 < n
            invariant
                n == p.len(),
                p == permute@,
                maps_into(p, n as int),
                0 <= a < n,
                k < n,
                cur == iterate(p, a as int, k as nat),
                leads <==> forall|j: nat| j <= k ==> #[trigger] iterate(p, a as int, j) >= a,
            decreases n - k,
        {
            proof {
                lemma_iterate_in_range(p, a as int, k as nat);
            }
            let ghost old_leads = leads;
            cur = permute.out[cur];
            k = k + 1;
            assert(cur == iterate(p, a as int, k as nat));
            if cur < a {
                leads = false;
            }
            assert(leads <==> forall|j: nat| j <= k ==> #[trigger] iterate(p, a as int, j) >= a) by {
                if leads {
                    assert forall|j: nat| j <= k implies #[trigger] iterate(p, a as int, j) >= a by {
                        if j < k {
                            assert(j <= k - 1);
                        }
                    }
                } else if !old_leads {
                    let j = choose|j: nat| j <= k - 1 && #[trigger] iterate(p, a as int, j) < a;
                    assert(j <= k);
                } else {
                    assert(iterate(p, a as int, k as nat) < a);
                }
            }
        }
        assert(leads <==> is_cycle_leader(p, a as int)) by {
            if leads {
                assert forall|j: nat| j < p.len() implies #[trigger] iterate(p, a as int, j) >= a by {
                    assert(j <= k);
                }
            } else {
                if n > 0 {
                    let j = choose|j: nat| j <= k && #[trigger] iterate(p, a as int, j) < a;
                    assert(j < p.len());
                }
            }
        }
        proof {
            lemma_leaders_below_bound(p, a as int);
        }
        if leads {
            ans = ans + 1;
        }
    }
    ans
}

} // verus!

use vstd::prelude::*;
use vstd::set_lib::{lemma_int_range, lemma_len_subset, set_int_range};
use crate::perm::{PermutationStructure, maps_into};
use crate::rotation::{RotationSystem, is_in_array, is_place, occurs};

verus! {

/// With every vertex `u` of `s`, `s` holds each vertex `w` that an arrow of
/// `u` is paired into by `e`.
pub open spec fn closed_under(vs: Seq<Seq<usize>>, e: Seq<usize>, s: Set<int>) -> bool {
    forall|u: int, k: int, w: int, j: int|
        s.contains(u) && is_place(vs, u, k) && is_place(vs, w, j) && #[trigger] vs[w][j] == e[#[trigger] vs[u][k] as int]
            ==> s.contains(w)
}

/// The graph of `vs` with edges `e` is connected: the only set of vertices
/// that holds vertex 0 and is closed under the edges is the set of all
/// vertices.
pub open spec fn connected(vs: Seq<Seq<usize>>, e: Seq<usize>) -> bool {
    forall|s: Set<int>|
        s.contains(0) && #[trigger] closed_under(vs, e, s) ==> forall|v: int| 0 <= v < vs.len() ==> s.contains(v)
}

/// Every vertex reached through the first `kmax` arrows of `u` is marked.
pub open spec fn neighbors_marked(vs: Seq<Seq<usize>>, e: Seq<usize>, marked: Seq<bool>, u: int, kmax: int) -> bool {
    forall|k: int, w: int, j: int|
        0 <= k < kmax && is_place(vs, u, k) && is_place(vs, w, j) && #[trigger] vs[w][j] == e[#[trigger] vs[u][k] as int]
            ==> marked[w]
}

/// Every marked vertex lies in every closed set that holds vertex 0.
pub open spec fn marked_reachable(vs: Seq<Seq<usize>>, e: Seq<usize>, marked: Seq<bool>) -> bool {
    forall|s: Set<int>, v: int|
        s.contains(0) && #[trigger] closed_under(vs, e, s) && 0 <= v < marked.len() && #[trigger] marked[v]
            ==> s.contains(v)
}

proof fn lemma_neighbors_marked_grow(
    vs: Seq<Seq<usize>>,
    e: Seq<usize>,
    m1: Seq<bool>,
    m2: Seq<bool>,
    u: int,
    kmax: int,
)
    requires
        neighbors_marked(vs, e, m1, u, kmax),
        m1.len() == m2.len() == vs.len(),
        forall|v: int| 0 <= v < m1.len() && #[trigger] m1[v] ==> m2[v],
    ensures
        neighbors_marked(vs, e, m2, u, kmax),
{
    assert forall|k: int, w: int, j: int|
        0 <= k < kmax && is_place(vs, u, k) && is_place(vs, w, j) && #[trigger] vs[w][j] == e[#[trigger] vs[u][k] as int]
            implies m2[w] by {
        assert(m1[w]);
    }
}

/// Whether the vertices of `config` are connected by the edges of `edge_map`.
/// Vertices are marked from vertex 0 outward, each marked vertex passing the
/// mark to the vertices that its arrows are paired into.
pub fn check_connected(edge_map: &PermutationStructure, config: &RotationSystem) -> (r: bool)
    requires
        config.valid(),
        maps_into(edge_map@, config.arrows as int),
    ensures
        r == connected(config.seqs(), edge_map@),
{
    let ghost vs = config.seqs();
    let ghost e = edge_map@;
    let nv = config.vertices.len();
    assert(nv >= 1) by {
        assert(occurs(vs, 0));
    }
    let mut marked: Vec<bool> = Vec::new();
    let mut i: usize = 0;
    while i < nv
        invariant
            i <= nv,
            marked@.len() == i,
            forall|v: int| 0 <= v < i ==> !#[trigger] marked@[v],
        decreases nv - i,
    {
        marked.push(false);
        i = i + 1;
    }
    marked.set(0, true);
    let mut queue: Vec<usize> = vec![0];
    let ghost mut mset: Set<int> = set![0];
    let mut head: usize = 0;
    proof {
        assert forall|s: Set<int>, v: int|
            s.contains(0) && #[trigger] closed_under(vs, e, s) && 0 <= v < marked@.len() && #[trigger] marked@[v]
                implies s.contains(v) by {
            assert(v == 0);
        }
        assert(mset =~= Set::new(|v: int| 0 <= v < nv && marked@[v]));
    }
    while head < queue.len()
        invariant
            config.valid(),
            vs == config.seqs(),
            e == edge_map@,
            maps_into(e, config.arrows as int),
            nv == vs.len(),
            nv >= 1,
            marked@.len() == nv,
            marked@[0],
            mset == Set::new(|v: int| 0 <= v < nv && marked@[v]),
            mset.finite(),
            mset.len() == queue@.len(),
            head <= queue@.len(),
            forall|i: int| 0 <= i < queue@.len() ==> #[trigger] queue@[i] < nv && marked@[queue@[i] as int],
            forall|v: int| 0 <= v < nv && #[trigger] marked@[v] ==> exists|i: int| 0 <= i < queue@.len() && queue@[i] == v,
            forall|i: int| 0 <= i < head ==> neighbors_marked(vs, e, marked@, #[trigger] queue@[i] as int, vs[queue@[i] as int].len() as int),
            marked_reachable(vs, e, marked@),
        decreases nv - head,
    {
        proof {
            lemma_int_range(0, nv as int);
            lemma_len_subset(mset, set_int_range(0, nv as int));
        }
        let u = queue[head];
        let row = &config.vertices[u];
        assert(row@ == vs[u as int]);
        let mut k: usize = 0;
        while k < row.len()
            invariant
                config.valid(),
                vs == config.seqs(),
                e == edge_map@,
                maps_into(e, config.arrows as int),
                nv == vs.len(),
                u < nv,
                row@ == vs[u as int],
                k <= row@.len(),
                marked@.len() == nv,
                marked@[0],
                marked@[u as int],
                mset == Set::new(|v: int| 0 <= v < nv && marked@[v]),
                mset.finite(),
                mset.len() == queue@.len(),
                head < queue@.len(),
                queue@[head as int] == u,
                forall|i: int| 0 <= i < queue@.len() ==> #[trigger] queue@[i] < nv && marked@[queue@[i] as int],
                forall|v: int| 0 <= v < nv && #[trigger] marked@[v] ==> exists|i: int| 0 <= i < queue@.len() && queue@[i] == v,
                forall|i: int| 0 <= i < head ==> neighbors_marked(vs, e, marked@, #[trigger] queue@[i] as int, vs[queue@[i] as int].len() as int),
                neighbors_marked(vs, e, marked@, u as int, k as int),
                marked_reachable(vs, e, marked@),
            decreases row@.len() - k,
        {
            let a = row[k];
            assert(is_place(vs, u as int, k as int));
            assert(a < config.arrows);
            let b = edge_map.out[a];
            assert(occurs(vs, b as int));
            let mut w: usize = 0;
            loop
                invariant
                    config.valid(),
                    vs == config.seqs(),
                    nv == vs.len(),
                    w < nv,
                    occurs(vs, b as int),
                    forall|x: int| 0 <= x < w ==> !(#[trigger] vs[x]).contains(b),
                ensures
                    w < nv,
                    vs[w as int].contains(b),
                decreases nv - w,
            {
                assert(config.vertices@[w as int]@ == vs[w as int]);
                if is_in_array(b, config.vertices[w].as_slice()) {
                    break;
                }
                assert(w + 1 < nv) by {
                    let (v1, k1) = choose|v1: int, k1: int| is_place(vs, v1, k1) && #[trigger] vs[v1][k1] == b;
                    if v1 <= w {
                        assert(vs[v1].contains(b));
                    }
                }
                w = w + 1;
            }
            let ghost j = choose|j: int| 0 <= j < vs[w as int].len() && vs[w as int][j] == b;
            let ghost old_marked = marked@;
            if !marked[w] {
                marked.set(w, true);
                proof {
                    assert(!mset.contains(w as int));
                    mset = mset.insert(w as int);
                    assert(mset =~= Set::new(|v: int| 0 <= v < nv && marked@[v]));
                }
                let ghost old_queue = queue@;
                queue.push(w);
                proof {
                    assert forall|v: int| 0 <= v < nv && #[trigger] marked@[v] implies exists|i: int|
                        0 <= i < queue@.len() && queue@[i] == v by {
                        if v == w {
                            assert(queue@[queue@.len() - 1] == v);
                        } else {
                            assert(old_marked[v]);
                            let i = choose|i: int| 0 <= i < old_queue.len() && old_queue[i] == v;
                            assert(queue@[i] == v);
                        }
                    }
                    assert forall|s: Set<int>, v: int|
                        s.contains(0) && #[trigger] closed_under(vs, e, s) && 0 <= v < marked@.len() && #[trigger] marked@[v]
                            implies s.contains(v) by {
                        if v == w {
                            assert(old_marked[u as int]);
                            assert(s.contains(u as int));
                            assert(vs[w as int][j] == e[vs[u as int][k as int] as int]);
                        } else {
                            assert(old_marked[v]);
                        }
                    }
                }
            }
            proof {
                assert forall|i: int| 0 <= i < head implies neighbors_marked(vs, e, marked@, #[trigger] queue@[i] as int, vs[queue@[i] as int].len() as int) by {
                    lemma_neighbors_marked_grow(vs, e, old_marked, marked@, queue@[i] as int, vs[queue@[i] as int].len() as int);
                }
                lemma_neighbors_marked_grow(vs, e, old_marked, marked@, u as int, k as int);
                assert forall|k1: int, w1: int, j1: int|
                    0 <= k1 < k + 1 && is_place(vs, u as int, k1) && is_place(vs, w1, j1) && #[trigger] vs[w1][j1] == e[#[trigger] vs[u as int][k1] as int]
                        implies marked@[w1] by {
                    if k1 == k {
                        assert(vs[w1][j1] == vs[w as int][j]);
                        assert(w1 == w as int) by {
                            assert(crate::rotation::before(w1, j1, vs.len() as int, 0));
                            assert(crate::rotation::before(w as int, j, vs.len() as int, 0));
                        }
                    }
                }
            }
            k = k + 1;
        }
        head = head + 1;
    }
    let mut all: bool = true;
    let mut v: usize = 0;
    while v < nv
        invariant
            v <= nv,
            marked@.len() == nv,
            all <==> forall|x: int| 0 <= x < v ==> #[trigger] marked@[x],
        decreases nv - v,
    {
        if !marked[v] {
            all = false;
        }
        v = v + 1;
    }
    proof {
        assert(closed_under(vs, e, mset)) by {
            assert forall|u: int, k: int, w: int, j: int|
                mset.contains(u) && is_place(vs, u, k) && is_place(vs, w, j) && #[trigger] vs[w][j] == e[#[trigger] vs[u][k] as int]
                    implies mset.contains(w) by {
                assert(marked@[u]);
                let i = choose|i: int| 0 <= i < queue@.len() && queue@[i] == u;
                assert(neighbors_marked(vs, e, marked@, queue@[i] as int, vs[queue@[i] as int].len() as int));
            }
        }
        if all {
            assert forall|s: Set<int>|
                s.contains(0) && #[trigger] closed_under(vs, e, s) implies forall|x: int| 0 <= x < vs.len() ==> s.contains(x) by {
                assert forall|x: int| 0 <= x < vs.len() implies s.contains(x) by {
                    assert(marked@[x]);
                }
            }
        } else {
            let x = choose|x: int| 0 <= x < nv && !#[trigger] marked@[x];
            assert(!mset.contains(x));
            assert(mset.contains(0));
        }
    }
    all
}

} // verus!

use vstd::prelude::*;
use crate::perm::{PermutationStructure, maps_into};

verus! {

/// The fixed structure of a graph: `arrows` half-edges, and for each vertex
/// the arrows incident to it in cyclic order.
pub struct RotationSystem {
    pub arrows: usize,
    pub vertices: Vec<Vec<usize>>,
}

/// Why a rotation system cannot be used.
#[derive(Debug, PartialEq, Eq, Structural)]
pub enum ConfigError {
    /// The arrow count is odd or zero, so arrows cannot be paired into edges.
    OddArrowCount,
    /// The vertex with this index has no arrows.
    EmptyVertex(usize),
    /// This arrow is not below the arrow count.
    ArrowOutOfRange(usize),
    /// This arrow stands at two places of the vertex sequences.
    DuplicateArrow(usize),
    /// This arrow stands in no vertex sequence.
    MissingArrow(usize),
}

impl RotationSystem {
    /// The vertex sequences as mathematical sequences.
    pub open spec fn seqs(&self) -> Seq<Seq<usize>> {
        self.vertices@.map_values(|v: Vec<usize>| v@)
    }

    /// The rotation system describes a valid partition of its arrows.
    pub open spec fn valid(&self) -> bool {
        valid_partition(self.arrows as int, self.seqs())
    }
}

/// `(v, k)` is a place in the vertex sequences.
pub open spec fn is_place(vs: Seq<Seq<usize>>, v: int, k: int) -> bool {
    0 <= v < vs.len() && 0 <= k < vs[v].len()
}

/// Arrow `x` stands somewhere in the vertex sequences.
pub open spec fn occurs(vs: Seq<Seq<usize>>, x: int) -> bool {
    exists|v: int, k: int| is_place(vs, v, k) && #[trigger] vs[v][k] == x
}

/// Place `(v1, k1)` comes before place `(v, k)` in reading order.
pub open spec fn before(v1: int, k1: int, v: int, k: int) -> bool {
    v1 < v || (v1 == v && k1 < k)
}

/// No arrow stands at two places before `(v, k)`.
pub open spec fn distinct_before(vs: Seq<Seq<usize>>, v: int, k: int) -> bool {
    forall|v1: int, k1: int, v2: int, k2: int|
        is_place(vs, v1, k1) && is_place(vs, v2, k2) && before(v1, k1, v, k) && before(v2, k2, v, k)
            && #[trigger] vs[v1][k1] == #[trigger] vs[v2][k2] ==> v1 == v2 && k1 == k2
}

/// Every arrow standing before `(v, k)` is below `n`.
pub open spec fn in_range_before(n: int, vs: Seq<Seq<usize>>, v: int, k: int) -> bool {
    forall|v1: int, k1: int| is_place(vs, v1, k1) && before(v1, k1, v, k) ==> #[trigger] vs[v1][k1] < n
}

/// The arrows `0..n` are split into the vertex sequences: `n` is even and
/// positive, every vertex has an arrow, and each arrow of `0..n` stands at
/// exactly one place, with nothing else standing anywhere.
pub open spec fn valid_partition(n: int, vs: Seq<Seq<usize>>) -> bool {
    &&& n >= 2
    &&& n % 2 == 0
    &&& forall|v: int| 0 <= v < vs.len() ==> #[trigger] vs[v].len() > 0
    &&& in_range_before(n, vs, vs.len() as int, 0)
    &&& distinct_before(vs, vs.len() as int, 0)
    &&& forall|x: int| 0 <= x < n ==> #[trigger] occurs(vs, x)
}

/// The vertex map of `vs`: each arrow goes to the next arrow of its vertex,
/// the last one back to the first.
pub open spec fn rotates(p: Seq<usize>, vs: Seq<Seq<usize>>) -> bool {
    forall|v: int, k: int|
        is_place(vs, v, k) ==> p[#[trigger] vs[v][k] as int] == vs[v][(k + 1) % (vs[v].len() as int)]
}

/// The vertex map of a valid rotation system on `n` arrows: each arrow goes
/// to the arrow after it in its vertex sequence, the last one to the first.
pub open spec fn vertex_map_of(n: int, vs: Seq<Seq<usize>>) -> Seq<usize> {
    Seq::new(
        n as nat,
        |a: int|
            {
                let (v, k) = choose|v: int, k: int| is_place(vs, v, k) && #[trigger] vs[v][k] == a;
                vs[v][(k + 1) % (vs[v].len() as int)]
            },
    )
}

/// Whether `item` stands in `array`.
pub fn is_in_array(item: usize, array: &[usize]) -> (r: bool)
    ensures
        r == array@.contains(item),
{
    let mut i: usize = 0;
    while i < array.len()
        invariant
            i <= array@.len(),
            forall|j: int| 0 <= j < i ==> array@[j] != item,
        decreases array@.len() - i,
    {
        if array[i] == item {
            assert(array@[i as int] == item);
            return true;
        }
        i = i + 1;
    }
    false
}

/// Arrow `x` stands at some place before `(v, k)`.
pub open spec fn occurs_before(vs: Seq<Seq<usize>>, x: int, v: int, k: int) -> bool {
    exists|v1: int, k1: int| is_place(vs, v1, k1) && before(v1, k1, v, k) && #[trigger] vs[v1][k1] == x
}

/// Arrow `x` stands at two different places.
pub open spec fn duplicated(vs: Seq<Seq<usize>>, x: int) -> bool {
    exists|v1: int, k1: int, v2: int, k2: int|
        is_place(vs, v1, k1) && is_place(vs, v2, k2) && (v1 != v2 || k1 != k2) && #[trigger] vs[v1][k1]
            == x && #[trigger] vs[v2][k2] == x
}

/// Builds the vertex map of `config`, after checking that its vertex
/// sequences split the arrows as they must.
pub fn convert_vertex_map(config: &RotationSystem) -> (r: Result<PermutationStructure, ConfigError>)
    ensures
        r is Ok <==> config.valid(),
        r is Ok ==> maps_into(r->Ok_0@, config.arrows as int) && rotates(r->Ok_0@, config.seqs()),
        r is Ok ==> r->Ok_0@ == vertex_map_of(config.arrows as int, config.seqs()),
        r == Err::<PermutationStructure, ConfigError>(ConfigError::OddArrowCount) <==> !(config.arrows
            >= 2 && config.arrows % 2 == 0),
        r matches Err(ConfigError::EmptyVertex(v)) ==> v < config.seqs().len() && config.seqs()[v as int].len() == 0,
        r matches Err(ConfigError::ArrowOutOfRange(x)) ==> x >= config.arrows && occurs(config.seqs(), x as int),
        r matches Err(ConfigError::DuplicateArrow(x)) ==> duplicated(config.seqs(), x as int),
        r matches Err(ConfigError::MissingArrow(x)) ==> x < config.arrows && !occurs(config.seqs(), x as int),
{
    let n = config.arrows;
    let ghost vs = config.seqs();
    if n < 2 || n % 2 != 0 {
        return Err(ConfigError::OddArrowCount);
    }
    let nv = config.vertices.len();
    let mut v: usize = 0;
    while v < nv
        invariant
            n >= 2 && n % 2 == 0,
            n == config.arrows,
            nv == vs.len(),
            vs == config.seqs(),
            v <= nv,
            forall|w: int| 0 <= w < v ==> #[trigger] vs[w].len() > 0,
        decreases nv - v,
    {
        if config.vertices[v].len() == 0 {
            assert(vs[v as int].len() == 0);
            return Err(ConfigError::EmptyVertex(v));
        }
        v = v + 1;
    }
    let mut seen: Vec<bool> = Vec::new();
    let mut out: Vec<usize> = Vec::new();
    let mut i: usize = 0;
    while i < n
        invariant
            i <= n,
            seen@.len() == i,
            out@.len() == i,
            forall|x: int| 0 <= x < i ==> !#[trigger] seen@[x],
        decreases n - i,
    {
        seen.push(false);
        out.push(0);
        i = i + 1;
    }
    v = 0;
    while v < nv
        invariant
            n >= 2 && n % 2 == 0,
            n == config.arrows,
            nv == vs.len(),
            vs == config.seqs(),
            v <= nv,
            forall|w: int| 0 <= w < nv ==> #[trigger] vs[w].len() > 0,
            seen@.len() == n,
            out@.len() == n,
            forall|x: int| 0 <= x < n ==> (#[trigger] seen@[x] <==> occurs_before(vs, x, v as int, 0)),
            distinct_before(vs, v as int, 0),
            in_range_before(n as int, vs, v as int, 0),
            forall|v1: int, k1: int|
                is_place(vs, v1, k1) && before(v1, k1, v as int, 0) ==> out@[#[trigger] vs[v1][k1] as int]
                    == vs[v1][(k1 + 1) % (vs[v1].len() as int)],
        decreases nv - v,
    {
        let row = &config.vertices[v];
        let len = row.len();
        assert(row@ == vs[v as int]);
        let mut k: usize = 0;
        while k < len
            invariant
                n >= 2 && n % 2 == 0,
                n == config.arrows,
                nv == vs.len(),
                vs == config.seqs(),
                v < nv,
                row@ == vs[v as int],
                len == row@.len(),
                len > 0,
                k <= len,
                seen@.len() == n,
                out@.len() == n,
                forall|x: int| 0 <= x < n ==> (#[trigger] seen@[x] <==> occurs_before(vs, x, v as int, k as int)),
                distinct_before(vs, v as int, k as int),
                in_range_before(n as int, vs, v as int, k as int),
                forall|v1: int, k1: int|
                    is_place(vs, v1, k1) && before(v1, k1, v as int, k as int) ==> out@[#[trigger] vs[v1][k1] as int]
                        == vs[v1][(k1 + 1) % (vs[v1].len() as int)],
            decreases len - k,
        {
            let x = row[k];
            assert(vs[v as int][k as int] == x);
            if x >= n {
                return Err(ConfigError::ArrowOutOfRange(x));
            }
            if seen[x] {
                assert(duplicated(vs, x as int)) by {
                    let (v1, k1) = choose|v1: int, k1: int|
                        is_place(vs, v1, k1) && before(v1, k1, v as int, k as int) && #[trigger] vs[v1][k1] == x;
                    assert(vs[v1][k1] == x && vs[v as int][k as int] == x);
                }
                return Err(ConfigError::DuplicateArrow(x));
            }
            let next = row[(k + 1) % len];
            let ghost old_out = out@;
            let ghost old_seen = seen@;
            seen.set(x, true);
            out.set(x, next);
            proof {
                assert forall|y: int| 0 <= y < n implies (#[trigger] seen@[y] <==> occurs_before(vs, y, v as int, k + 1)) by {
                    if y == x {
                        assert(vs[v as int][k as int] == y);
                    } else {
                        if occurs_before(vs, y, v as int, k + 1) {
                            let (v1, k1) = choose|v1: int, k1: int|
                                is_place(vs, v1, k1) && before(v1, k1, v as int, k + 1) && #[trigger] vs[v1][k1] == y;
                            assert(before(v1, k1, v as int, k as int));
                        }
                        if old_seen[y] {
                            let (v1, k1) = choose|v1: int, k1: int|
                                is_place(vs, v1, k1) && before(v1, k1, v as int, k as int) && #[trigger] vs[v1][k1] == y;
                            assert(before(v1, k1, v as int, k + 1));
                        }
                    }
                }
                assert forall|v1: int, k1: int, v2: int, k2: int|
                    is_place(vs, v1, k1) && is_place(vs, v2, k2) && before(v1, k1, v as int, k + 1) && before(v2, k2, v as int, k + 1)
                        && #[trigger] vs[v1][k1] == #[trigger] vs[v2][k2] implies v1 == v2 && k1 == k2 by {
                    if before(v1, k1, v as int, k as int) && !before(v2, k2, v as int, k as int) {
                        assert(v2 == v && k2 == k);
                        assert(occurs_before(vs, x as int, v as int, k as int));
                    }
                    if !before(v1, k1, v as int, k as int) && before(v2, k2, v as int, k as int) {
                        assert(v1 == v && k1 == k);
                        assert(occurs_before(vs, x as int, v as int, k as int));
                    }
                }
                assert forall|v1: int, k1: int|
                    is_place(vs, v1, k1) && before(v1, k1, v as int, k + 1) implies out@[#[trigger] vs[v1][k1] as int]
                        == vs[v1][(k1 + 1) % (vs[v1].len() as int)] by {
                    if before(v1, k1, v as int, k as int) {
                        assert(vs[v1][k1] != x) by {
                            assert(occurs_before(vs, vs[v1][k1] as int, v as int, k as int));
                        }
                    } else {
                        assert(v1 == v && k1 == k);
                    }
                }
            }
            k = k + 1;
        }
        proof {
            assert forall|v1: int, k1: int| is_place(vs, v1, k1) implies (before(v1, k1, v as int, len as int)
                <==> #[trigger] before(v1, k1, v + 1, 0)) by {
            }
            assert forall|x: int| 0 <= x < n implies (#[trigger] seen@[x] <==> occurs_before(vs, x, v + 1, 0)) by {
                if occurs_before(vs, x, v + 1, 0) {
                    let (v1, k1) = choose|v1: int, k1: int|
                        is_place(vs, v1, k1) && before(v1, k1, v + 1, 0) && #[trigger] vs[v1][k1] == x;
                    assert(before(v1, k1, v as int, len as int));
                }
                if occurs_before(vs, x, v as int, len as int) {
                    let (v1, k1) = choose|v1: int, k1: int|
                        is_place(vs, v1, k1) && before(v1, k1, v as int, len as int) && #[trigger] vs[v1][k1] == x;
                    assert(before(v1, k1, v + 1, 0));
                }
            }
        }
        v = v + 1;
    }
    let mut a: usize = 0;
    while a < n
        invariant
            n >= 2 && n % 2 == 0,
            n == config.arrows,
            nv == vs.len(),
            vs == config.seqs(),
            seen@.len() == n,
            forall|x: int| 0 <= x < n ==> (#[trigger] seen@[x] <==> occurs_before(vs, x, nv as int, 0)),
            a <= n,
            forall|x: int| 0 <= x < a ==> #[trigger] occurs(vs, x),
        decreases n - a,
    {
        if !seen[a] {
            assert(!occurs(vs, a as int)) by {
                if occurs(vs, a as int) {
                    let (v1, k1) = choose|v1: int, k1: int| is_place(vs, v1, k1) && #[trigger] vs[v1][k1] == a;
                    assert(occurs_before(vs, a as int, nv as int, 0));
                }
            }
            return Err(ConfigError::MissingArrow(a));
        }
        assert(occurs(vs, a as int)) by {
            let (v1, k1) = choose|v1: int, k1: int|
                is_place(vs, v1, k1) && before(v1, k1, nv as int, 0) && #[trigger] vs[v1][k1] == a;
        }
        a = a + 1;
    }
    let r = PermutationStructure { out };
    assert(r@ =~= vertex_map_of(n as int, vs)) by {
        assert forall|x: int| 0 <= x < n implies #[trigger] r@[x] == vertex_map_of(n as int, vs)[x] by {
            assert(occurs(vs, x));
            let (v1, k1) = choose|v1: int, k1: int| is_place(vs, v1, k1) && #[trigger] vs[v1][k1] == x;
        }
    }
    assert(maps_into(r@, n as int)) by {
        assert forall|x: int| 0 <= x < n implies #[trigger] r@[x] < n by {
            assert(occurs(vs, x));
            let (v1, k1) = choose|v1: int, k1: int| is_place(vs, v1, k1) && #[trigger] vs[v1][k1] == x;
            let k2 = (k1 + 1) % (vs[v1].len() as int);
            assert(is_place(vs, v1, k2));
            assert(vs[v1][k2] < n);
        }
    }
    Ok(r)
}

} // verus!

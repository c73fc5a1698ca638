use vstd::prelude::*;
use crate::connect::{check_connected, connected};
use crate::perm::{PermutationStructure, compose, cycle_count, face_count, lemma_leaders_below_bound, maps_into, product_permute};
use crate::rotation::{ConfigError, RotationSystem};

verus! {

/// Why a genus histogram cannot be produced.
#[derive(Debug, PartialEq, Eq, Structural)]
pub enum GenusError {
    /// The rotation system is malformed.
    Config(ConfigError),
    /// A connected embedding has `2 - χ` negative or odd.
    InvalidEulerCharacteristic,
    /// A connected embedding has this genus, which the histogram has no
    /// bucket for.
    GenusOutOfRange(usize),
}

/// `2 - χ` for the embedding with vertex sequences `vs`, `n` arrows, edge map
/// `e` and vertex map `vm`, where `χ = vertices - edges + faces`.
pub open spec fn twice_genus(vs: Seq<Seq<usize>>, n: int, vm: Seq<usize>, e: Seq<usize>) -> int {
    2 - (vs.len() - n / 2 + cycle_count(compose(e, vm)))
}

/// The embedding is connected and has genus `g`.
pub open spec fn has_genus(vs: Seq<Seq<usize>>, n: int, vm: Seq<usize>, e: Seq<usize>, g: int) -> bool {
    &&& connected(vs, e)
    &&& twice_genus(vs, n, vm, e) >= 0
    &&& twice_genus(vs, n, vm, e) % 2 == 0
    &&& twice_genus(vs, n, vm, e) / 2 == g
}

/// The embedding can be recorded in a histogram of `len` buckets: it is
/// disconnected, or its genus is a whole number below `len`.
pub open spec fn fits(vs: Seq<Seq<usize>>, n: int, vm: Seq<usize>, e: Seq<usize>, len: int) -> bool {
    connected(vs, e) ==> {
        &&& twice_genus(vs, n, vm, e) >= 0
        &&& twice_genus(vs, n, vm, e) % 2 == 0
        &&& twice_genus(vs, n, vm, e) / 2 < len
    }
}

/// Records the embedding given by `edge_map`: a connected one adds one to the
/// bucket of its genus, a disconnected one is passed over.
pub fn count(
    genus: &mut Vec<usize>,
    edge_map: &PermutationStructure,
    vertex_map: &PermutationStructure,
    config: &RotationSystem,
) -> (r: Result<(), GenusError>)
    requires
        config.valid(),
        maps_into(edge_map@, config.arrows as int),
        maps_into(vertex_map@, config.arrows as int),
        forall|g: int| 0 <= g < old(genus)@.len() ==> #[trigger] old(genus)@[g] < usize::MAX,
    ensures
        final(genus)@.len() == old(genus)@.len(),
        !(r matches Err(GenusError::Config(_))),
        ({
            let vs = config.seqs();
            let n = config.arrows as int;
            let t = twice_genus(vs, n, vertex_map@, edge_map@);
            &&& r is Ok <==> fits(vs, n, vertex_map@, edge_map@, old(genus)@.len() as int)
            &&& r == Err::<(), GenusError>(GenusError::InvalidEulerCharacteristic) <==> connected(vs, edge_map@)
                && (t < 0 || t % 2 != 0)
            &&& connected(vs, edge_map@) && t >= 0 && t % 2 == 0 && t / 2 >= old(genus)@.len() ==> r
                == Err::<(), GenusError>(GenusError::GenusOutOfRange((t / 2) as usize))
            &&& r is Ok ==> forall|g: int| 0 <= g < old(genus)@.len() ==> #[trigger] final(genus)@[g] == old(genus)@[g]
                + if has_genus(vs, n, vertex_map@, edge_map@, g) { 1int } else { 0int }
        }),
{
    let ghost vs = config.seqs();
    let ghost n = config.arrows as int;
    if !check_connected(edge_map, config) {
        return Ok(());
    }
    let faces = face_count(&product_permute(edge_map, vertex_map));
    proof {
        let h = compose(edge_map@, vertex_map@);
        lemma_leaders_below_bound(h, h.len() as int);
    }
    let top: usize = 2 + config.arrows / 2;
    let nv = config.vertices.len();
    if faces > top || nv > top - faces {
        return Err(GenusError::InvalidEulerCharacteristic);
    }
    let twice = top - faces - nv;
    if twice % 2 != 0 {
        return Err(GenusError::InvalidEulerCharacteristic);
    }
    let g = twice / 2;
    if g >= genus.len() {
        return Err(GenusError::GenusOutOfRange(g));
    }
    genus.set(g, genus[g] + 1);
    Ok(())
}

} // verus!

use vstd::prelude::*;
use vstd::std_specs::bits::{u64_trailing_zeros, axiom_u64_trailing_zeros};
use crate::chunk::GridCoords;
use crate::mesher::{bit_set, occupied};

verus! {

/// Whether some coordinate of `coords` names cell `(x, y)`.
pub open spec fn names_cell(coords: Seq<GridCoords>, x: int, y: int) -> bool {
    exists|i: int| 0 <= i < coords.len() && #[trigger] coords[i].x == x && coords[i].y == y
}

/// Every coordinate of `coords` lies inside one chunk.
pub open spec fn all_local(coords: Seq<GridCoords>) -> bool {
    forall|i: int| 0 <= i < coords.len() ==> 0 <= #[trigger] coords[i].x < 64 && 0 <= coords[i].y < 64
}

/// `words` is the packed form of `coords`: 64 column words whose set bits are
/// exactly the named cells.
pub open spec fn packs(coords: Seq<GridCoords>, words: Seq<u64>) -> bool {
    &&& words.len() == 64
    &&& forall|x: int, y: int| occupied(words, x, y) <==> names_cell(coords, x, y)
}

proof fn lemma_set_bit(a: u64, s: u64, y: u64)
    by (bit_vector)
    requires
        s < 64,
        y < 64,
    ensures
        ((a | (1u64 << s)) >> y) & 1u64 == 1u64 <==> ((a >> y) & 1u64 == 1u64 || y == s),
{
}

proof fn lemma_differing_bit(a: u64, b: u64, t: u64)
    by (bit_vector)
    requires
        ((a ^ b) >> t) & 1u64 == 1u64,
    ensures
        ((a >> t) & 1u64 == 1u64) != ((b >> t) & 1u64 == 1u64),
{
}

proof fn lemma_xor_zero(a: u64, b: u64)
    by (bit_vector)
    requires
        a ^ b == 0,
    ensures
        a == b,
{
}

/// Two words with the same set bits are equal.
pub proof fn lemma_word_from_bits(a: u64, b: u64)
    requires
        forall|y: int| 0 <= y < 64 ==> bit_set(a, y) == bit_set(b, y),
    ensures
        a == b,
{
    let d = a ^ b;
    axiom_u64_trailing_zeros(d);
    if d != 0 {
        let t = u64_trailing_zeros(d) as u64;
        lemma_differing_bit(a, b, t);
        assert(bit_set(a, t as int) == bit_set(b, t as int));
    } else {
        lemma_xor_zero(a, b);
    }
}

/// Packing ignores duplicates and order: two coordinate lists that name the
/// same cells pack to the same chunk.
pub proof fn lemma_pack_ignores_duplicates(
    c1: Seq<GridCoords>,
    c2: Seq<GridCoords>,
    w1: Seq<u64>,
    w2: Seq<u64>,
)
    requires
        c1.to_set() == c2.to_set(),
        packs(c1, w1),
        packs(c2, w2),
    ensures
        w1 == w2,
{
    assert forall|x: int, y: int| names_cell(c1, x, y) implies names_cell(c2, x, y) by {
        {
            let i = choose|i: int| 0 <= i < c1.len() && #[trigger] c1[i].x == x && c1[i].y == y;
            assert(c1.to_set().contains(c1[i]));
            assert(c2.contains(c1[i]));
        }
    }
    assert forall|x: int, y: int| names_cell(c2, x, y) implies names_cell(c1, x, y) by {
        {
            let i = choose|i: int| 0 <= i < c2.len() && #[trigger] c2[i].x == x && c2[i].y == y;
            assert(c2.to_set().contains(c2[i]));
            assert(c1.contains(c2[i]));
        }
    }
    assert forall|k: int| 0 <= k < 64 implies w1[k] == w2[k] by {
        assert forall|y: int| 0 <= y < 64 implies bit_set(w1[k], y) == bit_set(w2[k], y) by {
            assert(occupied(w1, k, y) == occupied(w2, k, y));
        }
        lemma_word_from_bits(w1[k], w2[k]);
    }
    assert(w1 =~= w2);
}

/// Packs chunk-local coordinates into 64 column words: bit `y` of word `x`
/// is set exactly when `(x, y)` is among `coords`.
pub fn pack_chunk(coords: &Vec<GridCoords>) -> (r: [u64; 64])
    requires
        all_local(coords@),
    ensures
        packs(coords@, r@),
{
    let mut data = [0u64; 64];
    proof {
        assert forall|x: int, y: int| !occupied(data@, x, y) by {
            if 0 <= x < 64 && 0 <= y < 64 {
                let yy = y as u64;
                assert((0u64 >> yy) & 1u64 == 0u64) by (bit_vector);
            }
        }
    }
    let mut i: usize = 0;
    while i < coords.len()
        invariant
            i <= coords.len(),
            all_local(coords@),
            data@.len() == 64,
            forall|x: int, y: int| occupied(data@, x, y) <==> names_cell(coords@.take(i as int), x, y),
        decreases coords.len() - i,
    {
        let c = coords[i];
        assert(0 <= coords@[i as int].x < 64 && 0 <= coords@[i as int].y < 64);
        let ghost before = data@;
        let x = c.x as usize;
        let y = c.y as u64;
        data[x] = data[x] | (1u64 << y);
        proof {
            let prev = coords@.take(i as int);
            let next = coords@.take(i + 1);
            assert(next[i as int] == c);
            assert forall|px: int, py: int| occupied(data@, px, py) <==> names_cell(next, px, py) by {
                if px != x {
                    if 0 <= px < 64 {
                        assert(data@[px] == before[px]);
                    }
                } else if 0 <= py < 64 {
                    assert(data@[px] == before[px] | (1u64 << y));
                    lemma_set_bit(before[px], y, py as u64);
                    if py == y {
                        assert(next[i as int].x == px && next[i as int].y == py);
                    }
                }
                if names_cell(prev, px, py) {
                    let j = choose|j: int| 0 <= j < prev.len() && #[trigger] prev[j].x == px && prev[j].y == py;
                    assert(next[j] == prev[j]);
                }
                if names_cell(next, px, py) {
                    let j = choose|j: int| 0 <= j < next.len() && #[trigger] next[j].x == px && next[j].y == py;
                    assert(next[j] == coords@[j]);
                    if j < i {
                        assert(prev[j] == next[j]);
                    }
                }
                assert(occupied(before, px, py) <==> names_cell(prev, px, py));
                assert(occupied(data@, px, py) ==> names_cell(next, px, py));
                assert(names_cell(next, px, py) ==> occupied(data@, px, py));
            }
        }
        i += 1;
    }
    proof {
        assert(coords@.take(coords.len() as int) =~= coords@);
    }
    data
}

} // verus!

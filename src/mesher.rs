use vstd::prelude::*;
use vstd::std_specs::bits::{u64_trailing_ones, u64_trailing_zeros, axiom_u64_trailing_ones, axiom_u64_trailing_zeros};
use crate::packer::lemma_word_from_bits;

verus! {

/// A rectangle of chunk-local cells: columns `[x1, x2)` and rows `[y1, y2)`.
#[derive(Clone, Copy, Debug, PartialEq, Eq, Structural)]
pub struct MeshedRect {
    pub x1: i32,
    pub y1: i32,
    pub x2: i32,
    pub y2: i32,
}

/// Whether bit `y` of word `w` is set.
pub open spec fn bit_set(w: u64, y: int) -> bool {
    0 <= y < 64 && (w >> (y as u64)) & 1u64 == 1u64
}

/// Whether cell `(x, y)` is occupied in a packed chunk (bit `y` of word `x`).
pub open spec fn occupied(words: Seq<u64>, x: int, y: int) -> bool {
    0 <= x < words.len() && bit_set(words[x], y)
}

/// Whether a rectangle covers cell `(x, y)`.
pub open spec fn rect_contains(r: MeshedRect, x: int, y: int) -> bool {
    r.x1 <= x < r.x2 && r.y1 <= y < r.y2
}

/// A rectangle of positive width and height inside one chunk.
pub open spec fn rect_in_chunk(r: MeshedRect) -> bool {
    0 <= r.x1 < r.x2 <= 64 && 0 <= r.y1 < r.y2 <= 64
}

/// Whether some rectangle of `rects` covers cell `(x, y)`.
pub open spec fn covered(rects: Seq<MeshedRect>, x: int, y: int) -> bool {
    exists|i: int| 0 <= i < rects.len() && #[trigger] rect_contains(rects[i], x, y)
}

/// No cell is covered by two rectangles of `rects`.
pub open spec fn pairwise_disjoint(rects: Seq<MeshedRect>) -> bool {
    forall|i: int, j: int, x: int, y: int|
        0 <= i < rects.len() && 0 <= j < rects.len() && i != j && #[trigger] rect_contains(rects[i], x, y)
            ==> !#[trigger] rect_contains(rects[j], x, y)
}

/// `rects` covers exactly the occupied cells of `words`, each one once, with
/// rectangles of positive size inside the chunk.
pub open spec fn exact_cover(words: Seq<u64>, rects: Seq<MeshedRect>) -> bool {
    &&& forall|i: int| 0 <= i < rects.len() ==> rect_in_chunk(#[trigger] rects[i])
    &&& forall|x: int, y: int| occupied(words, x, y) <==> covered(rects, x, y)
    &&& pairwise_disjoint(rects)
}

/// The mask of `count` set bits starting at bit `first`; a full run of 64 is
/// the all-ones word.
pub open spec fn run_mask(first: u64, count: u64) -> u64 {
    if count >= 64 {
        !0u64
    } else {
        (((1u64 << count) - 1u64) as u64) << first
    }
}

/// Lowest set bit of a column word (64 when the word is zero).
pub open spec fn run_start(w: u64) -> u64 {
    u64_trailing_zeros(w) as u64
}

/// Number of consecutive set bits from the lowest set bit upwards.
pub open spec fn run_len(w: u64) -> u64 {
    u64_trailing_ones(w >> run_start(w)) as u64
}

/// The mask of the lowest run of set bits in `w`.
pub open spec fn lowest_run(w: u64) -> u64 {
    run_mask(run_start(w), run_len(w))
}

/// How far a rectangle of `width` columns starting at column `line` grows:
/// it takes each following column whose word holds the whole mask, and stops
/// at the first that does not.
pub open spec fn extend_width(words: Seq<u64>, line: int, mask: u64, width: int) -> int
    decreases 64 - line - width,
{
    if 0 < width && line + width < 64 && words[line + width] & mask == mask {
        extend_width(words, line, mask, width + 1)
    } else {
        width
    }
}

/// `words` with the bits of `mask` cleared in columns `[lo, hi)`.
pub open spec fn clear_columns(words: Seq<u64>, lo: int, hi: int, mask: u64) -> Seq<u64> {
    Seq::new(words.len(), |k: int| if lo <= k < hi { words[k] & !mask } else { words[k] })
}

/// Width of the rectangle that the lowest run of column `line` starts.
pub open spec fn next_width(words: Seq<u64>, line: int) -> int {
    extend_width(words, line, lowest_run(words[line]), 1)
}

/// The rectangle that the greedy pass emits next from column `line`.
pub open spec fn next_rect(words: Seq<u64>, line: int) -> MeshedRect {
    let w = words[line];
    MeshedRect {
        x1: line as i32,
        y1: run_start(w) as i32,
        x2: (line + next_width(words, line)) as i32,
        y2: (run_start(w) + run_len(w)) as i32,
    }
}

/// The chunk after the cells of `next_rect(words, line)` have been claimed.
pub open spec fn after_rect(words: Seq<u64>, line: int) -> Seq<u64> {
    clear_columns(words, line, line + next_width(words, line), lowest_run(words[line]))
}

/// The rectangles that the greedy pass emits from column `line` on, with at
/// most `runs` more rectangles started in column `line` itself. Each run of a
/// column starts above the one before, so 64 is never exhausted.
pub open spec fn mesh_from(words: Seq<u64>, line: int, runs: nat) -> Seq<MeshedRect>
    decreases 64 - line, runs,
{
    if line < 0 || line >= 64 {
        seq![]
    } else if words[line] == 0 || runs == 0 {
        mesh_from(words, line + 1, 64)
    } else {
        seq![next_rect(words, line)] + mesh_from(after_rect(words, line), line, (runs - 1) as nat)
    }
}

/// The rectangles of the greedy pass over a packed chunk, in emission order.
pub open spec fn greedy_mesh(words: Seq<u64>) -> Seq<MeshedRect> {
    mesh_from(words, 0, 64)
}


/// What the greedy pass keeps true while it claims cells: every occupied cell
/// of `init` is either still set in `cur` or covered by exactly one rectangle
/// of `out`, and nothing else is covered.
pub open spec fn claim_invariant(init: Seq<u64>, cur: Seq<u64>, out: Seq<MeshedRect>) -> bool {
    &&& forall|i: int| 0 <= i < out.len() ==> rect_in_chunk(#[trigger] out[i])
    &&& forall|x: int, y: int| occupied(init, x, y) <==> (occupied(cur, x, y) || covered(out, x, y))
    &&& forall|x: int, y: int| !(occupied(cur, x, y) && covered(out, x, y))
    &&& pairwise_disjoint(out)
}

proof fn lemma_mask_bit(f: u64, c: u64, y: u64)
    by (bit_vector)
    requires
        1 <= c <= 64,
        f + c <= 64,
        y < 64,
    ensures
        ((run_mask(f, c) >> y) & 1u64 == 1u64) <==> (f <= y && y < f + c),
{
}

proof fn lemma_clear_bit(a: u64, m: u64, y: u64)
    by (bit_vector)
    ensures
        ((a & !m) >> y) & 1u64 == 1u64 <==> ((a >> y) & 1u64 == 1u64 && !((m >> y) & 1u64 == 1u64)),
{
}

proof fn lemma_held_bit(a: u64, m: u64, y: u64)
    by (bit_vector)
    requires
        a & m == m,
        (m >> y) & 1u64 == 1u64,
    ensures
        (a >> y) & 1u64 == 1u64,
{
}

proof fn lemma_run_in_word(w: u64, f: u64, c: u64)
    by (bit_vector)
    requires
        1 <= c <= 64,
        f + c <= 64,
        (!(w >> f)) << ((64 - c) as u64) == 0,
    ensures
        w & run_mask(f, c) == run_mask(f, c),
{
}

/// Facts about the lowest run of set bits of a nonzero word.
proof fn lemma_lowest_run(w: u64)
    requires
        w != 0,
    ensures
        run_start(w) < 64,
        1 <= run_len(w),
        run_start(w) + run_len(w) <= 64,
        w & lowest_run(w) == lowest_run(w),
        forall|y: int| 0 <= y < run_start(w) ==> !bit_set(w, y),
        forall|y: int| #![trigger bit_set(lowest_run(w), y)]
            0 <= y < 64 ==> (bit_set(lowest_run(w), y) <==> run_start(w) <= y < run_start(w) + run_len(w)),
        run_start(w & !lowest_run(w)) > run_start(w),
{
    axiom_u64_trailing_zeros(w);
    let f = run_start(w);
    let v = w >> f;
    axiom_u64_trailing_ones(v);
    let c = run_len(w);
    assert((v >> 0u64) == v) by (bit_vector);
    if f > 0 && c > 64 - f {
        let j = (64 - f) as u64;
        assert(f > 0 && f < 64 ==> ((w >> f) >> ((64 - f) as u64)) & 1u64 == 0u64) by (bit_vector);
        assert((v >> j) & 1u64 == 1u64);
    }
    lemma_run_in_word(w, f, c);
    let m = lowest_run(w);
    assert forall|y: int| #![trigger bit_set(m, y)] 0 <= y < 64 implies (bit_set(m, y) <==> f <= y < f + c) by {
        lemma_mask_bit(f, c, y as u64);
    }
    assert forall|y: int| 0 <= y < f implies !bit_set(w, y) by {
        let yy = y as u64;
        assert((w >> yy) & 1u64 == 0u64);
    }
    let w2 = w & !m;
    axiom_u64_trailing_zeros(w2);
    let t = run_start(w2);
    if t <= f {
        lemma_clear_bit(w, m, t);
        lemma_mask_bit(f, c, t);
        if t < f {
            assert((w >> t) & 1u64 == 0u64);
        }
    }
}

proof fn lemma_extend(words: Seq<u64>, line: int, mask: u64, width: int)
    requires
        0 <= line < 64,
        1 <= width,
        line + width <= 64,
    ensures
        width <= extend_width(words, line, mask, width) <= 64 - line,
        forall|k: int|
            line + width <= k < line + extend_width(words, line, mask, width) ==> words[k] & mask == mask,
    decreases 64 - line - width,
{
    if line + width < 64 && words[line + width] & mask == mask {
        lemma_extend(words, line, mask, width + 1);
    }
}

/// One step of the greedy pass: the next rectangle lies in the chunk, and
/// its cells are exactly the occupied cells that the step clears.
proof fn lemma_step(words: Seq<u64>, line: int)
    requires
        words.len() == 64,
        0 <= line < 64,
        words[line] != 0,
    ensures
        rect_in_chunk(next_rect(words, line)),
        after_rect(words, line).len() == 64,
        forall|x: int, y: int|
            occupied(words, x, y) <==> (occupied(after_rect(words, line), x, y) || rect_contains(
                next_rect(words, line),
                x,
                y,
            )),
        forall|x: int, y: int|
            !(occupied(after_rect(words, line), x, y) && rect_contains(next_rect(words, line), x, y)),
        forall|k: int| 0 <= k < line ==> after_rect(words, line)[k] == words[k],
        run_start(after_rect(words, line)[line]) > run_start(words[line]),
{
    let w = words[line];
    lemma_lowest_run(w);
    let m = lowest_run(w);
    let f = run_start(w);
    let c = run_len(w);
    let width = next_width(words, line);
    lemma_extend(words, line, m, 1);
    let r = next_rect(words, line);
    let after = after_rect(words, line);
    assert(r.x1 == line && r.x2 == line + width && r.y1 == f && r.y2 == f + c);
    assert forall|x: int, y: int|
        (occupied(words, x, y) <==> (occupied(after, x, y) || rect_contains(r, x, y)))
        && !(occupied(after, x, y) && rect_contains(r, x, y)) by {
        if 0 <= y < 64 && line <= x < line + width {
            let a = words[x];
            lemma_clear_bit(a, m, y as u64);
            assert(a & m == m);
            if f <= y < f + c {
                assert(bit_set(m, y));
                lemma_held_bit(a, m, y as u64);
            } else {
                assert(!bit_set(m, y));
            }
        }
    }
}

proof fn lemma_claim_step(init: Seq<u64>, cur: Seq<u64>, out: Seq<MeshedRect>, line: int)
    requires
        cur.len() == 64,
        0 <= line < 64,
        cur[line] != 0,
        claim_invariant(init, cur, out),
    ensures
        claim_invariant(init, after_rect(cur, line), out.push(next_rect(cur, line))),
{
    lemma_step(cur, line);
    let r = next_rect(cur, line);
    let after = after_rect(cur, line);
    let out2 = out.push(r);
    assert forall|x: int, y: int| covered(out2, x, y) <==> (covered(out, x, y) || rect_contains(r, x, y)) by {
        if covered(out, x, y) {
            let i = choose|i: int| 0 <= i < out.len() && #[trigger] rect_contains(out[i], x, y);
            assert(out2[i] == out[i]);
        }
        if rect_contains(r, x, y) {
            assert(out2[out.len() as int] == r);
        }
        if covered(out2, x, y) {
            let i = choose|i: int| 0 <= i < out2.len() && #[trigger] rect_contains(out2[i], x, y);
            if i < out.len() {
                assert(out2[i] == out[i]);
            }
        }
    }
    assert forall|i: int, j: int, x: int, y: int|
        0 <= i < out2.len() && 0 <= j < out2.len() && i != j && #[trigger] rect_contains(out2[i], x, y)
            implies !#[trigger] rect_contains(out2[j], x, y) by {
        if i < out.len() && j < out.len() {
            assert(out2[i] == out[i] && out2[j] == out[j]);
        } else if i < out.len() {
            assert(out2[i] == out[i]);
            assert(covered(out, x, y));
        } else if rect_contains(out2[j], x, y) {
            assert(out2[j] == out[j]);
            assert(covered(out, x, y));
        }
    }
    assert forall|i: int| 0 <= i < out2.len() implies rect_in_chunk(#[trigger] out2[i]) by {
        if i < out.len() {
            assert(out2[i] == out[i]);
        }
    }
}

/// Meshes one packed chunk greedily and appends the rectangles to `buffer`.
///
/// Columns are visited in increasing order. Within a column, the lowest run
/// of set bits is claimed, then the rectangle grows into each following
/// column whose word holds the whole run, stopping at the first that does
/// not. The pass repeats until the column is empty.
pub fn binary_greedy_meshing(data: [u64; 64], buffer: &mut Vec<MeshedRect>)
    ensures
        final(buffer)@ == old(buffer)@ + greedy_mesh(data@),
        exact_cover(data@, greedy_mesh(data@)),
{
    let ghost init = data@;
    let mut data = data;
    let ghost mut out: Seq<MeshedRect> = seq![];
    let mut line: usize = 0;
    assert(out + mesh_from(data@, 0, 64) =~= greedy_mesh(init));
    while line < 64
        invariant
            line <= 64,
            data@.len() == 64,
            buffer@ == old(buffer)@ + out,
            out + mesh_from(data@, line as int, 64) == greedy_mesh(init),
            claim_invariant(init, data@, out),
            forall|k: int| 0 <= k < line ==> data@[k] == 0,
        decreases 64 - line,
    {
        let ghost mut runs: nat = 64;
        loop
            invariant
                line < 64,
                data@.len() == 64,
                buffer@ == old(buffer)@ + out,
                out + mesh_from(data@, line as int, runs) == greedy_mesh(init),
                claim_invariant(init, data@, out),
                forall|k: int| 0 <= k < line ==> data@[k] == 0,
                data@[line as int] != 0 ==> 64 - run_start(data@[line as int]) <= runs,
            ensures
                data@.len() == 64,
                buffer@ == old(buffer)@ + out,
                out + mesh_from(data@, line + 1, 64) == greedy_mesh(init),
                claim_invariant(init, data@, out),
                forall|k: int| 0 <= k <= line ==> data@[k] == 0,
            decreases runs,
        {
            let ghost snap = data@;
            proof {
                axiom_u64_trailing_zeros(data@[line as int]);
            }
            // Lowest cell of this column that is not claimed yet.
            let first_index = data[line].trailing_zeros();
            if first_index == 64 {
                break;
            }
            proof {
                lemma_lowest_run(snap[line as int]);
                lemma_claim_step(init, snap, out, line as int);
            }
            // Length of the run of set bits that starts there.
            let count = (data[line] >> first_index).trailing_ones();
            assert(count as u64 == run_len(snap[line as int]));
            // A shift by 64 is out of range, so a full run takes the all-ones mask.
            let mask: u64 = if count == 64 {
                !0u64
            } else {
                assert(count < 64 ==> 1u64 << count >= 1) by (bit_vector);
                ((1u64 << count) - 1) << first_index
            };
            assert(mask == lowest_run(snap[line as int]));
            data[line] = data[line] & !mask;
            let mut width: usize = 1;
            proof {
                lemma_extend(snap, line as int, mask, 1);
                assert(data@ =~= clear_columns(snap, line as int, line + 1, mask));
            }
            // Grow into the following columns while each holds the whole run.
            while line + width < 64
                invariant
                    line < 64,
                    1 <= width,
                    line + width <= 64,
                    snap.len() == 64,
                    mask == lowest_run(snap[line as int]),
                    extend_width(snap, line as int, mask, width as int) == next_width(snap, line as int),
                    data@ == clear_columns(snap, line as int, line + width, mask),
                ensures
                    width == next_width(snap, line as int),
                    data@ == clear_columns(snap, line as int, line + width, mask),
                decreases 64 - line - width,
            {
                let masked_next = data[line + width] & mask;
                if masked_next != mask {
                    break;
                }
                data[line + width] = data[line + width] & !mask;
                width += 1;
                assert(data@ =~= clear_columns(snap, line as int, line + width, mask));
            }
            buffer.push(
                MeshedRect {
                    x1: line as i32,
                    y1: first_index as i32,
                    x2: (line + width) as i32,
                    y2: (first_index + count) as i32,
                },
            );
            proof {
                assert(data@ == after_rect(snap, line as int));
                out = out.push(next_rect(snap, line as int));
                assert(buffer@ =~= old(buffer)@ + out);
                runs = (runs - 1) as nat;
            }
        }
        line += 1;
    }
    proof {
        assert(out =~= greedy_mesh(init));
        assert forall|x: int, y: int| !occupied(data@, x, y) by {
            if 0 <= x < 64 {
                assert(data@[x] == 0);
                let yy = y as u64;
                assert((0u64 >> yy) & 1u64 == 0u64) by (bit_vector);
            }
        }
    }
}

/// Empty columns emit nothing: from `line` on, the pass goes straight to
/// column `stop` when the columns in between are empty.
proof fn lemma_skip_empty(words: Seq<u64>, line: int, stop: int, runs: nat)
    requires
        0 <= line < stop <= 64,
        forall|k: int| line <= k < stop ==> words[k] == 0,
    ensures
        mesh_from(words, line, runs) == mesh_from(words, stop, 64),
    decreases stop - line,
{
    if line + 1 < stop {
        lemma_skip_empty(words, line + 1, stop, 64);
    }
}

proof fn lemma_clear_self(w: u64)
    by (bit_vector)
    ensures
        w & !w == 0,
{
}

/// Two runs of the greedy pass on the same chunk append the same rectangles,
/// in the same order.
pub proof fn lemma_mesh_deterministic(
    data: Seq<u64>,
    before1: Seq<MeshedRect>,
    after1: Seq<MeshedRect>,
    before2: Seq<MeshedRect>,
    after2: Seq<MeshedRect>,
)
    requires
        after1 == before1 + greedy_mesh(data),
        after2 == before2 + greedy_mesh(data),
    ensures
        after1.subrange(before1.len() as int, after1.len() as int) == after2.subrange(
            before2.len() as int,
            after2.len() as int,
        ),
{
    assert(after1.subrange(before1.len() as int, after1.len() as int) =~= greedy_mesh(data));
    assert(after2.subrange(before2.len() as int, after2.len() as int) =~= greedy_mesh(data));
}

proof fn lemma_full_extend(words: Seq<u64>, width: int)
    requires
        1 <= width <= 64,
        forall|k: int| 0 <= k < 64 ==> words[k] == !0u64,
    ensures
        extend_width(words, 0, !0u64, width) == 64,
    decreases 64 - width,
{
    if width < 64 {
        assert(!0u64 & !0u64 == !0u64) by (bit_vector);
        lemma_full_extend(words, width + 1);
    }
}

/// A chunk whose every cell is occupied meshes to the one rectangle that
/// spans the whole chunk.
pub proof fn lemma_full_chunk(words: Seq<u64>)
    requires
        words.len() == 64,
        forall|x: int, y: int| 0 <= x < 64 && 0 <= y < 64 ==> occupied(words, x, y),
    ensures
        greedy_mesh(words) == seq![MeshedRect { x1: 0, y1: 0, x2: 64, y2: 64 }],
{
    let full = !0u64;
    assert forall|k: int| 0 <= k < 64 implies words[k] == full by {
        assert forall|y: int| 0 <= y < 64 implies bit_set(words[k], y) == bit_set(full, y) by {
            let yy = y as u64;
            assert(occupied(words, k, y));
            assert((full >> yy) & 1u64 == 1u64) by (bit_vector)
                requires
                    full == !0u64,
                    yy < 64,
            ;
        }
        lemma_word_from_bits(words[k], full);
    }
    axiom_u64_trailing_zeros(full);
    assert((!0u64 >> 0u64) & 1u64 == 1u64) by (bit_vector);
    assert(run_start(full) == 0);
    assert(!0u64 >> 0u64 == 0xffff_ffff_ffff_ffffu64) by (bit_vector);
    axiom_u64_trailing_ones(full);
    assert(run_len(full) == 64);
    assert(lowest_run(full) == full);
    lemma_full_extend(words, 1);
    assert(next_width(words, 0) == 64);
    let after = after_rect(words, 0);
    assert forall|k: int| 0 <= k < 64 implies after[k] == 0 by {
        lemma_clear_self(full);
    }
    lemma_skip_empty(after, 0, 64, 63);
    assert(mesh_from(after, 64, 64) == Seq::<MeshedRect>::empty());
    assert(greedy_mesh(words) =~= seq![next_rect(words, 0)]);
}

proof fn lemma_single_bit(y: u64, j: u64)
    by (bit_vector)
    requires
        y < 64,
        j < 64,
    ensures
        ((1u64 << y) >> j) & 1u64 == 1u64 <==> j == y,
{
}

/// A chunk with exactly one occupied cell `(x, y)` meshes to the one 1×1
/// rectangle at that cell.
pub proof fn lemma_single_cell(words: Seq<u64>, x: int, y: int)
    requires
        words.len() == 64,
        0 <= x < 64,
        0 <= y < 64,
        forall|a: int, b: int| occupied(words, a, b) <==> (a == x && b == y),
    ensures
        greedy_mesh(words) == seq![MeshedRect { x1: x as i32, y1: y as i32, x2: (x + 1) as i32, y2: (y + 1) as i32 }],
{
    let yy = y as u64;
    let w = 1u64 << yy;
    assert forall|k: int| 0 <= k < 64 implies words[k] == (if k == x { w } else { 0u64 }) by {
        let v = if k == x { w } else { 0u64 };
        assert forall|b: int| 0 <= b < 64 implies bit_set(words[k], b) == bit_set(v, b) by {
            assert(occupied(words, k, b) == (k == x && b == y));
            lemma_single_bit(yy, b as u64);
            let bb = b as u64;
            assert((0u64 >> bb) & 1u64 == 0u64) by (bit_vector);
        }
        lemma_word_from_bits(words[k], v);
    }
    // The lowest run of the one set bit.
    axiom_u64_trailing_zeros(w);
    let t = run_start(w);
    assert(w != 0) by {
        lemma_single_bit(yy, yy);
        assert((0u64 >> yy) & 1u64 == 0u64) by (bit_vector);
    }
    lemma_single_bit(yy, t);
    lemma_single_bit(yy, yy);
    assert(t == yy);
    assert(w >> yy == 1u64) by (bit_vector)
        requires
            w == 1u64 << yy,
            yy < 64,
    ;
    axiom_u64_trailing_ones(1u64);
    assert((1u64 >> 0u64) & 1u64 == 1u64 && (1u64 >> 1u64) & 1u64 == 0u64) by (bit_vector);
    assert(run_len(w) == 1);
    assert(run_mask(yy, 1) == w) by (bit_vector)
        requires
            w == 1u64 << yy,
            yy < 64,
    ;
    assert(lowest_run(w) == w);
    // The rectangle does not grow: the next column is empty.
    assert(0u64 & w != w) by (bit_vector)
        requires
            w == 1u64 << yy,
            yy < 64,
    ;
    assert(next_width(words, x) == 1);
    let after = after_rect(words, x);
    assert forall|k: int| 0 <= k < 64 implies after[k] == 0 by {
        lemma_clear_self(w);
    }
    if x > 0 {
        lemma_skip_empty(words, 0, x, 64);
    }
    assert(mesh_from(words, x, 64) == seq![next_rect(words, x)] + mesh_from(after, x, 63));
    lemma_skip_empty(after, x, 64, 63);
    assert(mesh_from(after, 64, 64) == Seq::<MeshedRect>::empty());
    assert(greedy_mesh(words) =~= seq![next_rect(words, x)]);
}

} // verus!

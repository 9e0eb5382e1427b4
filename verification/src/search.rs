//! Depth-first backtracking search: fill the first vacant cell with every
//! available piece in every orientation and horizontal alignment, recurse,
//! and undo each placement afterwards, so that every complete tiling is
//! reported and the board and piece pool come back exactly as they went in.

use vstd::prelude::*;

use crate::block::Block;
use crate::block::BlockView;
use crate::block::Orientation;
use crate::board::Board;
use crate::board::covers;
use crate::board::first_vacant_spec;
use crate::board::flat;
use crate::board::lemma_apply_revert;
use crate::board::place;

verus! {

/// Footprint cell `k` of `v`, shifted so that piece column `joff` sits under
/// the vacant cell `(si, sj)`, stays on the board and lands on a vacant
/// cell: the piece may not stick out left of column 0, and the target must
/// read vacant (out-of-grid targets read as blocked).
pub open spec fn cell_ok(m: Seq<char>, v: BlockView, si: int, sj: int, joff: int, k: int) -> bool {
    let t = v.cell(k);
    &&& sj + t.1 >= joff
    &&& si + t.0 <= 6
    &&& sj + t.1 - joff <= 6
    &&& m[flat(si + t.0, sj + t.1 - joff)] == '.'
}

/// The first `n` footprint cells all pass the feasibility check.
pub open spec fn fits_upto(m: Seq<char>, v: BlockView, si: int, sj: int, joff: int, n: int) -> bool {
    forall|k: int| 0 <= k < n ==> #[trigger] cell_ok(m, v, si, sj, joff, k)
}

/// The whole footprint passes the feasibility check: the piece can be
/// placed at offset `(si, sj - joff)` without conflict or clipping.
pub open spec fn fits(m: Seq<char>, v: BlockView, si: int, sj: int, joff: int) -> bool {
    fits_upto(m, v, si, sj, joff, v.cells.len() as int)
}

/// A fully covered board: no cell is vacant.
pub open spec fn board_full(m: Seq<char>) -> bool {
    m.len() == 49 && forall|p: int| 0 <= p < 49 ==> m[p] != '.'
}

/// Every piece of the pool is well formed.
pub open spec fn pool_wf(s: Seq<Block>) -> bool {
    forall|k: int| 0 <= k < s.len() ==> (#[trigger] s[k])@.wf()
}

/// The pools hold the same logical pieces in the same order; only the live
/// orientation state of a piece may differ.
pub open spec fn pool_match(a: Seq<Block>, b: Seq<Block>) -> bool {
    a.len() == b.len() && forall|k: int| 0 <= k < a.len() ==> (#[trigger] a[k])@.same_shape(b[k]@)
}

/// The pool `cur` is `orig` with the piece at `idx` checked out: the
/// remaining pieces keep their order and shape.
pub open spec fn pool_match_removed(cur: Seq<Block>, orig: Seq<Block>, idx: int) -> bool {
    &&& cur.len() + 1 == orig.len()
    &&& forall|k: int| 0 <= k < idx ==> (#[trigger] cur[k])@.same_shape(orig[k]@)
    &&& forall|k: int| idx <= k < cur.len() ==> (#[trigger] cur[k])@.same_shape(orig[k + 1]@)
}

/// The rotation tried at step `r` of the four-step rotation order.
pub open spec fn orient_of(r: int) -> Orientation {
    if r == 0 {
        Orientation::R0
    } else if r == 1 {
        Orientation::R90
    } else if r == 2 {
        Orientation::R180
    } else {
        Orientation::R270
    }
}

/// The piece `v` in trial state `t` of the fixed eight-state order:
/// unreflected rotations first, then the reflected ones.
pub open spec fn oriented(v: BlockView, t: int) -> BlockView {
    BlockView { flip: t >= 4, orientation: orient_of(t % 4), ..v }
}

/// The logical piece a pool entry holds, with the live trial state
/// normalized away: only the mark and base geometry matter to the search.
pub open spec fn shape_of(b: Block) -> BlockView {
    BlockView { flip: false, orientation: Orientation::R0, ..b@ }
}

/// The logical pieces a pool holds, in order.
pub open spec fn pool_shapes(s: Seq<Block>) -> Seq<BlockView> {
    s.map_values(|b: Block| shape_of(b))
}

/// The board matrices a pool of solution snapshots holds, in order.
pub open spec fn sols_views(s: Seq<Vec<char>>) -> Seq<Seq<char>> {
    s.map_values(|v: Vec<char>| v@)
}

/// The full sequence of solutions the search reports from matrix `m` with
/// pool `pool`, in discovery order: a board with no vacancy is itself the
/// one solution; otherwise every pool piece is tried at the first vacant
/// cell, in pool order.
pub open spec fn enum_solutions(m: Seq<char>, pool: Seq<BlockView>) -> Seq<Seq<char>>
    decreases pool.len() as int, 3int, 0int, 0int,
{
    match first_vacant_spec(m) {
        Option::None => seq![m],
        Option::Some(rc) => enum_pieces(m, pool, rc.0, rc.1, 0),
    }
}

/// The solutions found by trying the pool pieces from index `idx` on
/// against the vacant cell `(si, sj)`.
pub open spec fn enum_pieces(
    m: Seq<char>,
    pool: Seq<BlockView>,
    si: int,
    sj: int,
    idx: int,
) -> Seq<Seq<char>>
    decreases pool.len() as int, 2int, pool.len() - idx, 0int,
{
    if idx < 0 || idx >= pool.len() {
        Seq::empty()
    } else {
        enum_states(m, pool, si, sj, idx, 0) + enum_pieces(m, pool, si, sj, idx + 1)
    }
}

/// The solutions found by trying piece `idx` in trial states `t` on,
/// against the vacant cell `(si, sj)`.
pub open spec fn enum_states(
    m: Seq<char>,
    pool: Seq<BlockView>,
    si: int,
    sj: int,
    idx: int,
    t: int,
) -> Seq<Seq<char>>
    decreases pool.len() as int, 1int, 8 - t, 0int,
{
    if t < 0 || t >= 8 || idx < 0 || idx >= pool.len() {
        Seq::empty()
    } else {
        enum_offsets(m, pool, si, sj, idx, t, 0) + enum_states(m, pool, si, sj, idx, t + 1)
    }
}

/// The solutions found by trying piece `idx` in trial state `t` at
/// horizontal alignments `joff` on: where the feasibility check passes, the
/// piece is placed at offset `(si, sj - joff)`, the piece leaves the pool,
/// and the search continues on the placed board.
pub open spec fn enum_offsets(
    m: Seq<char>,
    pool: Seq<BlockView>,
    si: int,
    sj: int,
    idx: int,
    t: int,
    joff: int,
) -> Seq<Seq<char>>
    decreases pool.len() as int, 0int, 8 - t, oriented(pool[idx], t).eff_cols() - joff,
{
    if idx < 0 || idx >= pool.len() || joff < 0 || joff >= oriented(pool[idx], t).eff_cols() {
        Seq::empty()
    } else {
        let v = oriented(pool[idx], t);
        if fits(m, v, si, sj, joff) && sj >= joff {
            enum_solutions(place(m, v, si, sj - joff, v.mark), pool.remove(idx)) + enum_offsets(
                m,
                pool,
                si,
                sj,
                idx,
                t,
                joff + 1,
            )
        } else {
            enum_offsets(m, pool, si, sj, idx, t, joff + 1)
        }
    }
}

/// Some piece of the pool carries the mark `c`.
pub open spec fn is_pool_mark(s: Seq<Block>, c: char) -> bool {
    exists|k: int| 0 <= k < s.len() && (#[trigger] s[k])@.mark == c
}

/// `sol` is a completion of the matrix `m` by pieces of `pool`: fully
/// covered, agreeing with `m` on every cell that was not vacant in `m`, and
/// holding some pool piece's mark on every cell that was vacant — the
/// search writes only piece marks, and only into vacant cells.
pub open spec fn completes(m: Seq<char>, pool: Seq<Block>, sol: Seq<char>) -> bool {
    &&& board_full(sol)
    &&& forall|p: int|
        0 <= p < 49 ==> if #[trigger] m[p] != '.' {
            sol[p] == m[p]
        } else {
            is_pool_mark(pool, sol[p])
        }
}

/// `post` is `pre` with zero or more solutions appended, and every appended
/// snapshot is a fully covered completion of the matrix `m` by `pool`.
pub open spec fn solutions_extended(
    pre: Seq<Vec<char>>,
    post: Seq<Vec<char>>,
    m: Seq<char>,
    pool: Seq<Block>,
) -> bool {
    &&& pre.len() <= post.len()
    &&& forall|k: int| 0 <= k < pre.len() ==> (#[trigger] post[k])@ == pre[k]@
    &&& forall|k: int| pre.len() <= k < post.len() ==> completes(m, pool, (#[trigger] post[k])@)
}

/// The footprint cells of `v` are pairwise distinct.
pub open spec fn distinct_cells(v: BlockView) -> bool {
    forall|k1: int, k2: int|
        0 <= k1 < k2 < v.cells.len() ==> #[trigger] v.cells[k1] != #[trigger] v.cells[k2]
}

/// Some piece of the (spec-level) pool carries the mark `c`.
pub open spec fn is_mark_of(pool: Seq<BlockView>, c: char) -> bool {
    exists|k: int| 0 <= k < pool.len() && (#[trigger] pool[k]).mark == c
}

/// The pool is set up as the calendar puzzle's is: well-formed pieces with
/// pairwise-distinct footprint cells, and pairwise-distinct marks that are
/// never the vacancy character.
pub open spec fn pool_marks_ok(pool: Seq<BlockView>) -> bool {
    &&& forall|k: int|
        0 <= k < pool.len() ==> (#[trigger] pool[k]).wf() && pool[k].mark != '.'
            && distinct_cells(pool[k])
    &&& forall|k1: int, k2: int|
        0 <= k1 < k2 < pool.len() ==> (#[trigger] pool[k1]).mark != (#[trigger] pool[k2]).mark
}

/// How a solution's mark counts relate to the starting matrix: each pool
/// piece's mark was either left alone (piece unused) or raised by exactly
/// its cell count (piece placed once, whole), and every other non-vacancy
/// character kept its count.
pub open spec fn counts_ok(m: Seq<char>, pool: Seq<BlockView>, sol: Seq<char>) -> bool {
    &&& forall|k: int|
        0 <= k < pool.len() ==> crate::board::count_char(sol, (#[trigger] pool[k]).mark)
            == crate::board::count_char(m, pool[k].mark) || crate::board::count_char(
            sol,
            pool[k].mark,
        ) == crate::board::count_char(m, pool[k].mark) + pool[k].cells.len()
    &&& forall|c: char|
        c != '.' && !is_mark_of(pool, c) ==> #[trigger] crate::board::count_char(sol, c)
            == crate::board::count_char(m, c)
}

/// A passed feasibility check means every footprint cell lands, in bounds,
/// on a vacant cell of the matrix, both cell by cell and over the covered
/// positions.
pub proof fn lemma_fits_covers_vacant(m: Seq<char>, v: BlockView, si: int, sj: int, joff: int)
    requires
        fits(m, v, si, sj, joff),
        0 <= si,
        0 <= joff <= sj,
    ensures
        forall|k: int|
            0 <= k < v.cells.len() ==> (#[trigger] v.cell(k)).0 + si < 7 && v.cell(k).1 + (sj
                - joff) < 7 && m[flat(v.cell(k).0 + si, v.cell(k).1 + (sj - joff))] == '.',
        forall|p: int| 0 <= p < 49 && #[trigger] covers(v, si, sj - joff, p) ==> m[p] == '.',
{
    assert forall|k: int|
        0 <= k < v.cells.len() implies (#[trigger] v.cell(k)).0 + si < 7 && v.cell(k).1 + (sj
        - joff) < 7 && m[flat(v.cell(k).0 + si, v.cell(k).1 + (sj - joff))] == '.' by {
        assert(cell_ok(m, v, si, sj, joff, k));
    }
    assert forall|p: int|
        0 <= p < 49 && #[trigger] covers(v, si, sj - joff, p) implies m[p] == '.' by {
        let k1 = choose|k1: int|
            0 <= k1 < v.cells.len() && {
                let t1 = #[trigger] v.cell(k1);
                &&& t1.0 + si < 7
                &&& t1.1 + (sj - joff) < 7
                &&& flat(t1.0 + si, t1.1 + (sj - joff)) == p
            };
        assert(cell_ok(m, v, si, sj, joff, k1));
    }
}

/// Checking one piece out preserves the pool's setup.
proof fn lemma_pool_marks_ok_remove(pool: Seq<BlockView>, idx: int)
    requires
        pool_marks_ok(pool),
        0 <= idx < pool.len(),
    ensures
        pool_marks_ok(pool.remove(idx)),
{
    let pr = pool.remove(idx);
    assert forall|k: int|
        0 <= k < pr.len() implies (#[trigger] pr[k]).wf() && pr[k].mark != '.' && distinct_cells(
        pr[k],
    ) by {
        if k < idx {
            assert(pr[k] == pool[k]);
        } else {
            assert(pr[k] == pool[k + 1]);
        }
    }
    assert forall|k1: int, k2: int|
        0 <= k1 < k2 < pr.len() implies (#[trigger] pr[k1]).mark != (#[trigger] pr[k2]).mark by {
        if k1 < idx {
            assert(pr[k1] == pool[k1]);
        } else {
            assert(pr[k1] == pool[k1 + 1]);
        }
        if k2 < idx {
            assert(pr[k2] == pool[k2]);
        } else {
            assert(pr[k2] == pool[k2 + 1]);
        }
    }
}

/// Enumerates every tiling of the vacant cells of `board` by distinct pieces
/// of `blocks`, appending a snapshot of the fully covered board to
/// `solutions` for each one found.
///
/// What is appended is pinned exactly: the snapshots are
/// [`enum_solutions`]`(board, pool)`, the full enumeration in the fixed
/// trial order — so the search is exhaustive (every solution of the
/// enumeration is reported, with no early exit), and deterministic (two
/// runs from equal boards and shape-equal pools report the same solutions,
/// in the same order, in the same number).
///
/// The board comes back exactly as it went in: every placement is undone by
/// a matching erase. The pool comes back with the same pieces in the same
/// order, though a tried piece keeps whatever orientation it was last tried
/// in. Every appended solution is a completion of the input board — fully
/// covered and agreeing with it outside its vacant cells — and a board with
/// no vacancy at all yields exactly one solution, the board itself. Each
/// piece is checked out of the pool for the whole branch below its
/// placement, so no single root-to-leaf path uses a piece twice; that each
/// placed piece's mark lands exactly its cell count many times is
/// [`lemma_solution_mark_counts`].
#[verifier::loop_isolation(false)]
#[verifier::rlimit(100)]
pub fn solve_puzzle(board: &mut Board, blocks: &mut Vec<Block>, solutions: &mut Vec<Vec<char>>)
    requires
        old(board).wf(),
        pool_wf(old(blocks)@),
    ensures
        final(board).wf(),
        final(board)@ == old(board)@,
        final(board).month_spec() == old(board).month_spec(),
        final(board).day_spec() == old(board).day_spec(),
        pool_wf(final(blocks)@),
        pool_match(final(blocks)@, old(blocks)@),
        solutions_extended(old(solutions)@, final(solutions)@, old(board)@, old(blocks)@),
        sols_views(final(solutions)@) == sols_views(old(solutions)@) + enum_solutions(
            old(board)@,
            pool_shapes(old(blocks)@),
        ),
        board_full(old(board)@) ==> final(solutions)@.len() == old(solutions)@.len() + 1
            && final(solutions)@[old(solutions)@.len() as int]@ == old(board)@,
    decreases old(blocks)@.len(),
{
    let p = match board.first_vacant() {
        None => {
            // No vacancy: the whole board is covered, report this solution.
            let snap = board.snapshot();
            proof {
                assert forall|q: int| 0 <= q < 49 implies snap@[q] != '.' by {
                    let i = q / 7;
                    let j = q % 7;
                    assert(0 <= i < 7 && 0 <= j < 7);
                    assert(flat(i, j) == q);
                }
            }
            let ghost sols0 = solutions@;
            solutions.push(snap);
            proof {
                assert(first_vacant_spec(old(board)@) is None);
                assert(enum_solutions(old(board)@, pool_shapes(old(blocks)@)) =~= seq![
                    old(board)@,
                ]);
                assert(sols_views(solutions@) =~= sols_views(sols0) + seq![old(board)@]);
            }
            return;
        },
        Some(p) => p,
    };
    let start_i: usize = p.0;
    let start_j: usize = p.1;
    let ghost m0 = old(board)@;
    let ghost gsi: int = start_i as int;
    let ghost gsj: int = start_j as int;
    let ghost shapes = pool_shapes(old(blocks)@);
    let ghost sv0 = sols_views(old(solutions)@);
    proof {
        assert(shapes.len() == old(blocks)@.len());
        assert(first_vacant_spec(m0) == Option::Some((gsi, gsj)));
        assert(enum_solutions(m0, shapes) == enum_pieces(m0, shapes, gsi, gsj, 0));
    }
    let n = blocks.len();
    let mut idx: usize = 0;
    while idx < n
        invariant
            idx <= n,
            board.wf(),
            board@ == m0,
            board.month_spec() == old(board).month_spec(),
            board.day_spec() == old(board).day_spec(),
            blocks@.len() == n,
            pool_wf(blocks@),
            pool_match(blocks@, old(blocks)@),
            solutions_extended(old(solutions)@, solutions@, m0, old(blocks)@),
            sols_views(solutions@) + enum_pieces(m0, shapes, gsi, gsj, idx as int) == sv0
                + enum_pieces(m0, shapes, gsi, gsj, 0),
        decreases n - idx,
    {
        let mut block = blocks.remove(idx);
        let ghost sv_piece = sols_views(solutions@);
        let mut t: usize = 0;
        while t < 8
            invariant
                t <= 8,
                board.wf(),
                board@ == m0,
                board.month_spec() == old(board).month_spec(),
                board.day_spec() == old(board).day_spec(),
                pool_wf(blocks@),
                pool_match_removed(blocks@, old(blocks)@, idx as int),
                block@.wf(),
                block@.same_shape(old(blocks)@[idx as int]@),
                solutions_extended(old(solutions)@, solutions@, m0, old(blocks)@),
                sols_views(solutions@) + enum_states(m0, shapes, gsi, gsj, idx as int, t as int)
                    == sv_piece + enum_states(m0, shapes, gsi, gsj, idx as int, 0),
            decreases 8 - t,
        {
            // The eight trial states, reflections last, as a fixed order.
            let fl: bool = t >= 4;
            let o = match t % 4 {
                0 => Orientation::R0,
                1 => Orientation::R90,
                2 => Orientation::R180,
                _ => Orientation::R270,
            };
            block.flip(fl);
            block.rotate(&o);
            proof {
                assert(shapes[idx as int] == shape_of(old(blocks)@[idx as int]));
                assert(o == orient_of(t as int % 4));
                assert(block@ == oriented(shapes[idx as int], t as int));
            }
            let c = block.cols();
            let cnt = block.cell_count();
            let ghost sv_state = sols_views(solutions@);
            let mut j_offset: usize = 0;
            while j_offset < c
                invariant
                    j_offset <= c,
                    board.wf(),
                    board@ == m0,
                    board.month_spec() == old(board).month_spec(),
                    board.day_spec() == old(board).day_spec(),
                    pool_wf(blocks@),
                    pool_match_removed(blocks@, old(blocks)@, idx as int),
                    solutions_extended(old(solutions)@, solutions@, m0, old(blocks)@),
                    sols_views(solutions@) + enum_offsets(
                        m0,
                        shapes,
                        gsi,
                        gsj,
                        idx as int,
                        t as int,
                        j_offset as int,
                    ) == sv_state + enum_offsets(m0, shapes, gsi, gsj, idx as int, t as int, 0),
                decreases c - j_offset,
            {
                // Feasibility: every transformed cell, shifted so that piece
                // column `j_offset` sits under the vacant column, must land
                // on a vacant board cell.
                let mut ok: bool = true;
                let mut k: usize = 0;
                while k < cnt
                    invariant
                        k <= cnt,
                        ok == fits_upto(
                            m0,
                            block@,
                            start_i as int,
                            start_j as int,
                            j_offset as int,
                            k as int,
                        ),
                    decreases cnt - k,
                {
                    let rc = block.transformed_cell(k);
                    let ri: usize = rc.0;
                    let ci: usize = rc.1;
                    let mut this_ok: bool = true;
                    if ci < j_offset && start_j < j_offset - ci {
                        // The piece would stick out left of column 0.
                        this_ok = false;
                    } else if ri > 6 || start_i + ri > 6 {
                        this_ok = false;
                    } else if ci >= j_offset {
                        let d: usize = ci - j_offset;
                        if d > 6 || start_j + d > 6 {
                            this_ok = false;
                        } else {
                            this_ok = board.get_cell(start_i + ri, start_j + d) == '.';
                        }
                    } else {
                        let j2: usize = start_j - (j_offset - ci);
                        this_ok = board.get_cell(start_i + ri, j2) == '.';
                    }
                    proof {
                        assert(this_ok == cell_ok(
                            m0,
                            block@,
                            start_i as int,
                            start_j as int,
                            j_offset as int,
                            k as int,
                        ));
                    }
                    ok = ok && this_ok;
                    k = k + 1;
                }
                if ok && start_j >= j_offset {
                    let oi: usize = start_i;
                    let oj: usize = start_j - j_offset;
                    let ghost sols_pre = solutions@;
                    let ghost pool_pre = blocks@;
                    board.apply_block(&block, oi, oj);
                    solve_puzzle(board, blocks, solutions);
                    board.revert_block(&block, oi, oj);
                    proof {
                        // The checked-out pool is, shape for shape, the spec
                        // pool with entry `idx` removed.
                        assert forall|k2: int|
                            0 <= k2 < pool_pre.len() implies #[trigger] pool_shapes(pool_pre)[k2]
                            == shapes.remove(idx as int)[k2] by {
                            if k2 < idx as int {
                                assert(pool_pre[k2]@.same_shape(old(blocks)@[k2]@));
                                assert(shapes[k2] == shape_of(old(blocks)@[k2]));
                            } else {
                                assert(pool_pre[k2]@.same_shape(old(blocks)@[k2 + 1]@));
                                assert(shapes[k2 + 1] == shape_of(old(blocks)@[k2 + 1]));
                            }
                        }
                        assert(pool_shapes(pool_pre) =~= shapes.remove(idx as int));
                    }
                    proof {
                        let v = block@;
                        assert(fits(m0, v, start_i as int, start_j as int, j_offset as int));
                        assert forall|q: int|
                            0 <= q < 49 && #[trigger] covers(v, oi as int, oj as int, q) implies m0[q]
                            == '.' by {
                            let k1 = choose|k1: int|
                                0 <= k1 < v.cells.len() && {
                                    let t1 = #[trigger] v.cell(k1);
                                    &&& t1.0 + oi < 7
                                    &&& t1.1 + oj < 7
                                    &&& flat(t1.0 + oi, t1.1 + oj) == q
                                };
                            assert(cell_ok(
                                m0,
                                v,
                                start_i as int,
                                start_j as int,
                                j_offset as int,
                                k1,
                            ));
                        }
                        lemma_apply_revert(m0, v, oi as int, oj as int, v.mark);
                        // Solutions found below this placement complete the
                        // placed board, hence also the board as it stands
                        // here: the placement only filled vacant cells.
                        let mid = crate::board::place(m0, v, oi as int, oj as int, v.mark);
                        assert forall|q: int|
                            0 <= q < 49 && #[trigger] m0[q] != '.' implies mid[q] == m0[q] by {
                            if covers(v, oi as int, oj as int, q) {
                                assert(m0[q] == '.');
                            }
                        }
                        // A mark of the shrunken pool, or of the placed
                        // piece itself, is a mark of the original pool.
                        assert forall|ch: char|
                            is_pool_mark(pool_pre, ch) implies #[trigger] is_pool_mark(
                            old(blocks)@,
                            ch,
                        ) by {
                            let k2 = choose|k2: int|
                                0 <= k2 < pool_pre.len() && (#[trigger] pool_pre[k2])@.mark == ch;
                            if k2 < idx {
                                assert(old(blocks)@[k2]@.mark == ch);
                            } else {
                                assert(old(blocks)@[k2 + 1]@.mark == ch);
                            }
                        }
                        assert(old(blocks)@[idx as int]@.mark == v.mark);
                        assert(is_pool_mark(old(blocks)@, v.mark));
                        assert forall|k1: int|
                            old(solutions)@.len() <= k1 < solutions@.len() implies completes(
                            m0,
                            old(blocks)@,
                            (#[trigger] solutions@[k1])@,
                        ) by {
                            if k1 < sols_pre.len() {
                                assert(completes(m0, old(blocks)@, sols_pre[k1]@));
                                assert(solutions@[k1]@ == sols_pre[k1]@);
                            } else {
                                assert(completes(mid, pool_pre, solutions@[k1]@));
                                let sol = solutions@[k1]@;
                                assert forall|q: int|
                                    0 <= q < 49 implies (if #[trigger] m0[q] != '.' {
                                    sol[q] == m0[q]
                                } else {
                                    is_pool_mark(old(blocks)@, sol[q])
                                }) by {
                                    if m0[q] != '.' {
                                        assert(mid[q] == m0[q]);
                                        assert(sol[q] == mid[q]);
                                    } else {
                                        if mid[q] != '.' {
                                            assert(covers(v, oi as int, oj as int, q)
                                                || mid[q] == m0[q]);
                                            assert(sol[q] == mid[q]);
                                            assert(sol[q] == v.mark);
                                        } else {
                                            assert(is_pool_mark(pool_pre, sol[q]));
                                        }
                                    }
                                }
                            }
                        }
                        // This placement is exactly the head of the
                        // enumeration at this alignment.
                        let rest = enum_offsets(
                            m0,
                            shapes,
                            gsi,
                            gsj,
                            idx as int,
                            t as int,
                            j_offset as int + 1,
                        );
                        assert(v == oriented(shapes[idx as int], t as int));
                        assert(fits(m0, v, gsi, gsj, j_offset as int));
                        assert((j_offset as int) < v.eff_cols());
                        assert(enum_offsets(
                            m0,
                            shapes,
                            gsi,
                            gsj,
                            idx as int,
                            t as int,
                            j_offset as int,
                        ) == enum_solutions(mid, shapes.remove(idx as int)) + rest);
                        assert(sols_views(solutions@) == sols_views(sols_pre) + enum_solutions(
                            mid,
                            shapes.remove(idx as int),
                        ));
                        assert((sols_views(sols_pre) + enum_solutions(
                            mid,
                            shapes.remove(idx as int),
                        )) + rest =~= sols_views(sols_pre) + (enum_solutions(
                            mid,
                            shapes.remove(idx as int),
                        ) + rest));
                    }
                } else {
                    proof {
                        // Infeasible or out of reach: the enumeration skips
                        // this alignment too.
                        assert(!(fits(m0, oriented(shapes[idx as int], t as int), gsi, gsj,
                        j_offset as int) && gsj >= j_offset as int));
                        assert(enum_offsets(
                            m0,
                            shapes,
                            gsi,
                            gsj,
                            idx as int,
                            t as int,
                            j_offset as int,
                        ) == enum_offsets(
                            m0,
                            shapes,
                            gsi,
                            gsj,
                            idx as int,
                            t as int,
                            j_offset as int + 1,
                        ));
                    }
                }
                j_offset = j_offset + 1;
            }
            proof {
                // Alignments exhausted for this trial state: compose into
                // the per-state enumeration.
                assert(enum_offsets(m0, shapes, gsi, gsj, idx as int, t as int, c as int)
                    =~= Seq::<Seq<char>>::empty());
                assert(sols_views(solutions@) + enum_offsets(
                    m0,
                    shapes,
                    gsi,
                    gsj,
                    idx as int,
                    t as int,
                    c as int,
                ) =~= sols_views(solutions@));
                let offs0 = enum_offsets(m0, shapes, gsi, gsj, idx as int, t as int, 0);
                let states_next = enum_states(m0, shapes, gsi, gsj, idx as int, t as int + 1);
                assert(enum_states(m0, shapes, gsi, gsj, idx as int, t as int) == offs0
                    + states_next);
                assert((sv_state + offs0) + states_next =~= sv_state + (offs0 + states_next));
            }
            t = t + 1;
        }
        proof {
            // Trial states exhausted for this piece: compose into the
            // per-piece enumeration.
            assert(enum_states(m0, shapes, gsi, gsj, idx as int, 8) =~= Seq::<Seq<char>>::empty());
            assert(sols_views(solutions@) + enum_states(m0, shapes, gsi, gsj, idx as int, 8)
                =~= sols_views(solutions@));
            let states0 = enum_states(m0, shapes, gsi, gsj, idx as int, 0);
            let pieces_next = enum_pieces(m0, shapes, gsi, gsj, idx as int + 1);
            assert(enum_pieces(m0, shapes, gsi, gsj, idx as int) == states0 + pieces_next);
            assert((sv_piece + states0) + pieces_next =~= sv_piece + (states0 + pieces_next));
        }
        // Every position of this piece has been tried: check it back in.
        blocks.insert(idx, block);
        idx = idx + 1;
    }
    proof {
        // The scan found a vacancy, so this board was not fully covered.
        assert(m0[flat(start_i as int, start_j as int)] == '.');
        assert(!board_full(m0));
        // Pieces exhausted: the reported solutions are exactly the
        // enumeration for this board and pool.
        assert(enum_pieces(m0, shapes, gsi, gsj, n as int) =~= Seq::<Seq<char>>::empty());
        assert(sols_views(solutions@) + enum_pieces(m0, shapes, gsi, gsj, n as int)
            =~= sols_views(solutions@));
    }
}

/// A vacancy found by the scan lies on the grid.
proof fn lemma_first_vacant_from_bounds(m: Seq<char>, p: int)
    requires
        0 <= p,
    ensures
        crate::board::first_vacant_from(m, p) matches Option::Some(rc) ==> 0 <= rc.0 < 7 && 0
            <= rc.1 < 7,
    decreases 49 - p,
{
    if p < 49 && m[p] != '.' {
        lemma_first_vacant_from_bounds(m, p + 1);
    }
}

/// Alignment level of [`lemma_solution_mark_counts`]'s induction.
proof fn lemma_counts_offsets(
    m: Seq<char>,
    pool: Seq<BlockView>,
    si: int,
    sj: int,
    idx: int,
    t: int,
    joff: int,
)
    requires
        m.len() == 49,
        pool_marks_ok(pool),
        0 <= si,
        0 <= sj,
        0 <= idx < pool.len(),
        0 <= joff,
    ensures
        forall|s: int|
            0 <= s < enum_offsets(m, pool, si, sj, idx, t, joff).len() ==> counts_ok(
                m,
                pool,
                #[trigger] enum_offsets(m, pool, si, sj, idx, t, joff)[s],
            ),
    decreases pool.len() as int, 0int, 8 - t, oriented(pool[idx], t).eff_cols() - joff,
{
    let v = oriented(pool[idx], t);
    if joff < v.eff_cols() {
        lemma_counts_offsets(m, pool, si, sj, idx, t, joff + 1);
        let here = enum_offsets(m, pool, si, sj, idx, t, joff);
        let rest = enum_offsets(m, pool, si, sj, idx, t, joff + 1);
        if fits(m, v, si, sj, joff) && sj >= joff {
            let oiv = si;
            let ojv = sj - joff;
            assert(v.wf());
            assert(distinct_cells(v) && v.cells == pool[idx].cells);
            lemma_fits_covers_vacant(m, v, si, sj, joff);
            let mid = place(m, v, oiv, ojv, v.mark);
            crate::board::lemma_place_adds_marks(m, v, oiv, ojv);
            lemma_pool_marks_ok_remove(pool, idx);
            let pr = pool.remove(idx);
            // The placed piece's mark left the pool with it.
            assert(!is_mark_of(pr, v.mark)) by {
                if is_mark_of(pr, v.mark) {
                    let k2 = choose|k2: int|
                        0 <= k2 < pr.len() && (#[trigger] pr[k2]).mark == v.mark;
                    if k2 < idx {
                        assert(pr[k2] == pool[k2]);
                    } else {
                        assert(pr[k2] == pool[k2 + 1]);
                    }
                }
            }
            // Every other character's count survives the placement.
            assert forall|c: char|
                c != '.' && c != v.mark implies #[trigger] crate::board::count_char(mid, c)
                == crate::board::count_char(m, c) by {
                crate::board::lemma_place_keeps_count(m, v, oiv, ojv, v.mark, c);
            }
            lemma_counts_sols(mid, pr);
            let sub = enum_solutions(mid, pr);
            assert forall|s: int| 0 <= s < sub.len() implies counts_ok(m, pool, #[trigger] sub[s]) by {
                let sol = sub[s];
                assert(counts_ok(mid, pr, sol));
                assert forall|k: int|
                    0 <= k < pool.len() implies crate::board::count_char(
                    sol,
                    (#[trigger] pool[k]).mark,
                ) == crate::board::count_char(m, pool[k].mark) || crate::board::count_char(
                    sol,
                    pool[k].mark,
                ) == crate::board::count_char(m, pool[k].mark) + pool[k].cells.len() by {
                    if k == idx {
                        assert(crate::board::count_char(sol, v.mark)
                            == crate::board::count_char(mid, v.mark));
                    } else {
                        let kr: int = if k < idx {
                            k
                        } else {
                            k - 1
                        };
                        assert(pr[kr] == pool[k]);
                        assert(pool[k].mark != v.mark);
                        assert(crate::board::count_char(mid, pool[k].mark)
                            == crate::board::count_char(m, pool[k].mark));
                    }
                }
                assert forall|c: char|
                    c != '.' && !is_mark_of(pool, c) implies #[trigger] crate::board::count_char(
                    sol,
                    c,
                ) == crate::board::count_char(m, c) by {
                    assert(!is_mark_of(pr, c)) by {
                        if is_mark_of(pr, c) {
                            let k2 = choose|k2: int|
                                0 <= k2 < pr.len() && (#[trigger] pr[k2]).mark == c;
                            if k2 < idx {
                                assert(pr[k2] == pool[k2]);
                            } else {
                                assert(pr[k2] == pool[k2 + 1]);
                            }
                        }
                    }
                    assert(c != v.mark);
                    assert(crate::board::count_char(sol, c) == crate::board::count_char(mid, c));
                }
            }
            assert(here == sub + rest);
            assert forall|s: int| 0 <= s < here.len() implies counts_ok(m, pool, #[trigger] here[s]) by {
                if s < sub.len() {
                    assert(here[s] == sub[s]);
                } else {
                    assert(here[s] == rest[s - sub.len()]);
                }
            }
        } else {
            assert(here == rest);
        }
    }
}

/// Trial-state level of [`lemma_solution_mark_counts`]'s induction.
proof fn lemma_counts_states(
    m: Seq<char>,
    pool: Seq<BlockView>,
    si: int,
    sj: int,
    idx: int,
    t: int,
)
    requires
        m.len() == 49,
        pool_marks_ok(pool),
        0 <= si,
        0 <= sj,
        0 <= idx < pool.len(),
        0 <= t,
    ensures
        forall|s: int|
            0 <= s < enum_states(m, pool, si, sj, idx, t).len() ==> counts_ok(
                m,
                pool,
                #[trigger] enum_states(m, pool, si, sj, idx, t)[s],
            ),
    decreases pool.len() as int, 1int, 8 - t, 0int,
{
    if t < 8 {
        lemma_counts_offsets(m, pool, si, sj, idx, t, 0);
        lemma_counts_states(m, pool, si, sj, idx, t + 1);
        let a = enum_offsets(m, pool, si, sj, idx, t, 0);
        let b = enum_states(m, pool, si, sj, idx, t + 1);
        let whole = enum_states(m, pool, si, sj, idx, t);
        assert(whole == a + b);
        assert forall|s: int| 0 <= s < whole.len() implies counts_ok(m, pool, #[trigger] whole[s]) by {
            if s < a.len() {
                assert(whole[s] == a[s]);
            } else {
                assert(whole[s] == b[s - a.len()]);
            }
        }
    }
}

/// Pool level of [`lemma_solution_mark_counts`]'s induction.
proof fn lemma_counts_pieces(m: Seq<char>, pool: Seq<BlockView>, si: int, sj: int, idx: int)
    requires
        m.len() == 49,
        pool_marks_ok(pool),
        0 <= si,
        0 <= sj,
        0 <= idx,
    ensures
        forall|s: int|
            0 <= s < enum_pieces(m, pool, si, sj, idx).len() ==> counts_ok(
                m,
                pool,
                #[trigger] enum_pieces(m, pool, si, sj, idx)[s],
            ),
    decreases pool.len() as int, 2int, pool.len() - idx, 0int,
{
    if idx < pool.len() {
        lemma_counts_states(m, pool, si, sj, idx, 0);
        lemma_counts_pieces(m, pool, si, sj, idx + 1);
        let a = enum_states(m, pool, si, sj, idx, 0);
        let b = enum_pieces(m, pool, si, sj, idx + 1);
        let whole = enum_pieces(m, pool, si, sj, idx);
        assert(whole == a + b);
        assert forall|s: int| 0 <= s < whole.len() implies counts_ok(m, pool, #[trigger] whole[s]) by {
            if s < a.len() {
                assert(whole[s] == a[s]);
            } else {
                assert(whole[s] == b[s - a.len()]);
            }
        }
    }
}

/// Board level of [`lemma_solution_mark_counts`]'s induction.
proof fn lemma_counts_sols(m: Seq<char>, pool: Seq<BlockView>)
    requires
        m.len() == 49,
        pool_marks_ok(pool),
    ensures
        forall|s: int|
            0 <= s < enum_solutions(m, pool).len() ==> counts_ok(
                m,
                pool,
                #[trigger] enum_solutions(m, pool)[s],
            ),
    decreases pool.len() as int, 3int, 0int, 0int,
{
    match first_vacant_spec(m) {
        Option::None => {
            assert(enum_solutions(m, pool) =~= seq![m]);
            assert(counts_ok(m, pool, m));
        },
        Option::Some(rc) => {
            lemma_first_vacant_from_bounds(m, 0);
            lemma_counts_pieces(m, pool, rc.0, rc.1, 0);
            assert(enum_solutions(m, pool) == enum_pieces(m, pool, rc.0, rc.1, 0));
        },
    }
}

/// No double-use across a whole reported solution: when the pool's pieces
/// carry pairwise-distinct non-vacancy marks that appear nowhere on the
/// starting matrix, and each piece's footprint cells are distinct, then in
/// every solution the search reports, each piece's mark appears either not
/// at all (the piece went unused) or exactly its cell count many times (the
/// piece was placed once, whole, with no overlap and no clipping).
pub proof fn lemma_solution_mark_counts(m: Seq<char>, pool: Seq<BlockView>)
    requires
        m.len() == 49,
        pool_marks_ok(pool),
        forall|k: int|
            0 <= k < pool.len() ==> crate::board::count_char(m, (#[trigger] pool[k]).mark) == 0,
    ensures
        forall|s: int, k: int|
            0 <= s < enum_solutions(m, pool).len() && 0 <= k < pool.len()
                ==> crate::board::count_char(
                #[trigger] enum_solutions(m, pool)[s],
                (#[trigger] pool[k]).mark,
            ) == 0 || crate::board::count_char(enum_solutions(m, pool)[s], pool[k].mark)
                == pool[k].cells.len(),
{
    lemma_counts_sols(m, pool);
    assert forall|s: int, k: int|
        0 <= s < enum_solutions(m, pool).len() && 0 <= k < pool.len()
            implies crate::board::count_char(
        #[trigger] enum_solutions(m, pool)[s],
        (#[trigger] pool[k]).mark,
    ) == 0 || crate::board::count_char(enum_solutions(m, pool)[s], pool[k].mark)
        == pool[k].cells.len() by {
        assert(counts_ok(m, pool, enum_solutions(m, pool)[s]));
    }
}

} // verus!

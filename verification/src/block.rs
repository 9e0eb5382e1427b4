//! Polyomino pieces: a fixed base footprint inside a bounding box, plus a
//! live orientation (rotation and reflection) that is applied lazily when the
//! occupied cells are enumerated.

use vstd::prelude::*;

verus! {

/// The four quarter-turn rotations a piece can be placed in.
#[derive(Debug, Clone, Copy)]
pub enum Orientation {
    R0,
    R90,
    R180,
    R270,
}

/// The mathematical value of a [`Block`]: its mark, canonical bounding box,
/// live orientation state, and canonical cell list.
pub ghost struct BlockView {
    pub mark: char,
    pub num_rows: usize,
    pub num_cols: usize,
    pub orientation: Orientation,
    pub flip: bool,
    pub cells: Seq<(usize, usize)>,
}

/// Where the canonical cell `(r, c)` of an `nr x nc` box lands under the
/// given reflection-then-rotation. Reflection mirrors the rows first; the
/// rotation formulas always pivot on the canonical box dimensions.
pub open spec fn transform_cell(
    fl: bool,
    o: Orientation,
    nr: int,
    nc: int,
    r: int,
    c: int,
) -> (int, int) {
    if fl {
        match o {
            Orientation::R0 => (nr - r - 1, c),
            Orientation::R90 => (c, r),
            Orientation::R180 => (r, nc - c - 1),
            Orientation::R270 => (nc - c - 1, nr - r - 1),
        }
    } else {
        match o {
            Orientation::R0 => (r, c),
            Orientation::R90 => (nc - c - 1, r),
            Orientation::R180 => (nr - r - 1, nc - c - 1),
            Orientation::R270 => (c, nr - r - 1),
        }
    }
}

impl BlockView {
    /// Every canonical cell lies inside the declared bounding box.
    pub open spec fn wf(self) -> bool {
        forall|k: int|
            0 <= k < self.cells.len() ==> (#[trigger] self.cells[k]).0 < self.num_rows
                && self.cells[k].1 < self.num_cols
    }

    /// The `k`-th occupied cell after the live transform is applied.
    pub open spec fn cell(self, k: int) -> (int, int) {
        transform_cell(
            self.flip,
            self.orientation,
            self.num_rows as int,
            self.num_cols as int,
            self.cells[k].0 as int,
            self.cells[k].1 as int,
        )
    }

    /// Row extent of the effective bounding box: swapped under quarter turns.
    pub open spec fn eff_rows(self) -> int {
        match self.orientation {
            Orientation::R0 | Orientation::R180 => self.num_rows as int,
            Orientation::R90 | Orientation::R270 => self.num_cols as int,
        }
    }

    /// Column extent of the effective bounding box.
    pub open spec fn eff_cols(self) -> int {
        match self.orientation {
            Orientation::R0 | Orientation::R180 => self.num_cols as int,
            Orientation::R90 | Orientation::R270 => self.num_rows as int,
        }
    }

    /// The base geometry and mark agree; the live orientation state may
    /// differ. Two views related this way are the same logical piece.
    pub open spec fn same_shape(self, other: BlockView) -> bool {
        &&& self.mark == other.mark
        &&& self.num_rows == other.num_rows
        &&& self.num_cols == other.num_cols
        &&& self.cells == other.cells
    }
}

/// Orientation closure: whatever the live orientation and reflection, every
/// transformed cell of a well-formed piece lies within
/// `[0, eff_rows()) x [0, eff_cols())`, the effective extents for that state.
pub proof fn lemma_orientation_closure(v: BlockView, k: int)
    requires
        v.wf(),
        0 <= k < v.cells.len(),
    ensures
        0 <= v.cell(k).0 < v.eff_rows(),
        0 <= v.cell(k).1 < v.eff_cols(),
{
}

/// Distinct canonical cells stay distinct under every transform: each of the
/// eight mappings is injective on the bounding box.
pub proof fn lemma_transform_injective(v: BlockView, k1: int, k2: int)
    requires
        v.wf(),
        0 <= k1 < v.cells.len(),
        0 <= k2 < v.cells.len(),
        v.cells[k1] != v.cells[k2],
    ensures
        v.cell(k1) != v.cell(k2),
{
}

/// Transform involution, reflection half: mirroring twice with the rotation
/// held at `R0` returns every canonical cell to itself.
pub proof fn lemma_flip_involution(nr: int, nc: int, r: int, c: int)
    requires
        0 <= r < nr,
        0 <= c < nc,
    ensures
        ({
            let t = transform_cell(true, Orientation::R0, nr, nc, r, c);
            transform_cell(true, Orientation::R0, nr, nc, t.0, t.1) == (r, c)
        }),
{
}

/// Transform involution, rotation half: one step of the quarter-turn map
/// composed with itself yields exactly the `R180` and `R270` table entries,
/// and four steps return every canonical cell to itself. The box dimensions
/// swap at each step.
pub proof fn lemma_rotation_cycle(nr: int, nc: int, r: int, c: int)
    requires
        0 <= r < nr,
        0 <= c < nc,
    ensures
        ({
            let t1 = transform_cell(false, Orientation::R90, nr, nc, r, c);
            let t2 = transform_cell(false, Orientation::R90, nc, nr, t1.0, t1.1);
            let t3 = transform_cell(false, Orientation::R90, nr, nc, t2.0, t2.1);
            let t4 = transform_cell(false, Orientation::R90, nc, nr, t3.0, t3.1);
            &&& t2 == transform_cell(false, Orientation::R180, nr, nc, r, c)
            &&& t3 == transform_cell(false, Orientation::R270, nr, nc, r, c)
            &&& t4 == (r, c)
        }),
{
}

/// Whether some footprint cell of `v` lands on `(i, j)` of the effective
/// bounding box under the live transform.
pub open spec fn occupied(v: BlockView, i: int, j: int) -> bool {
    exists|k: int| 0 <= k < v.cells.len() && #[trigger] v.cell(k) == (i, j)
}

/// What the diagnostic rendering shows at cell `(i, j)`: the piece's mark
/// where the footprint lies, a space elsewhere.
pub open spec fn cell_char(v: BlockView, i: int, j: int) -> char {
    if occupied(v, i, j) {
        v.mark
    } else {
        ' '
    }
}

/// The first `n` columns of row `i` of the rendering, after the newline
/// that opens the row; every cell is followed by two spaces.
pub open spec fn row_prefix(v: BlockView, i: int, n: int) -> Seq<char>
    decreases n,
{
    if n <= 0 {
        seq!['\n']
    } else {
        row_prefix(v, i, n - 1) + seq![cell_char(v, i, n - 1), ' ', ' ']
    }
}

/// The first `n` rows of the rendering of `v`.
pub open spec fn rows_prefix(v: BlockView, n: int) -> Seq<char>
    decreases n,
{
    if n <= 0 {
        Seq::empty()
    } else {
        rows_prefix(v, n - 1) + row_prefix(v, n - 1, v.eff_cols())
    }
}

/// A puzzle piece: an immutable canonical footprint and a mutable trial
/// orientation. The footprint is conceptually a set; its order is kept only
/// so enumeration is deterministic.
#[derive(Debug)]
pub struct Block {
    pub mark: char,
    num_rows: usize,
    num_cols: usize,
    orientation: Orientation,
    flip: bool,
    indices: Vec<(usize, usize)>,
}

impl View for Block {
    type V = BlockView;

    closed spec fn view(&self) -> BlockView {
        BlockView {
            mark: self.mark,
            num_rows: self.num_rows,
            num_cols: self.num_cols,
            orientation: self.orientation,
            flip: self.flip,
            cells: self.indices@,
        }
    }
}

impl Block {
    /// Builds a piece from its mark, bounding box, and canonical cells. The
    /// caller must supply cells inside the declared box.
    pub fn new(mark: char, num_rows: usize, num_cols: usize, indices: Vec<(usize, usize)>) -> (b:
        Block)
        requires
            forall|k: int|
                0 <= k < indices@.len() ==> (#[trigger] indices@[k]).0 < num_rows
                    && indices@[k].1 < num_cols,
        ensures
            b@ == (BlockView {
                mark,
                num_rows,
                num_cols,
                orientation: Orientation::R0,
                flip: false,
                cells: indices@,
            }),
            b@.wf(),
    {
        Block { mark, num_rows, num_cols, orientation: Orientation::R0, flip: false, indices }
    }

    /// Sets the live rotation; all other state is untouched.
    pub fn rotate(&mut self, t: &Orientation)
        ensures
            final(self)@ == (BlockView { orientation: *t, ..old(self)@ }),
    {
        self.orientation = *t;
    }

    /// Sets the live reflection; all other state is untouched.
    pub fn flip(&mut self, f: bool)
        ensures
            final(self)@ == (BlockView { flip: f, ..old(self)@ }),
    {
        self.flip = f;
    }

    /// Effective row extent for the current orientation.
    pub fn rows(&self) -> (r: usize)
        ensures
            r as int == self@.eff_rows(),
    {
        match self.orientation {
            Orientation::R0 | Orientation::R180 => self.num_rows,
            Orientation::R90 | Orientation::R270 => self.num_cols,
        }
    }

    /// Effective column extent for the current orientation.
    pub fn cols(&self) -> (r: usize)
        ensures
            r as int == self@.eff_cols(),
    {
        match self.orientation {
            Orientation::R0 | Orientation::R180 => self.num_cols,
            Orientation::R90 | Orientation::R270 => self.num_rows,
        }
    }

    /// The display symbol identifying this piece.
    pub fn get_mark(&self) -> (c: char)
        ensures
            c == self@.mark,
    {
        self.mark
    }

    /// How many cells the footprint has.
    pub fn cell_count(&self) -> (n: usize)
        ensures
            n == self@.cells.len(),
    {
        self.indices.len()
    }

    /// The `k`-th occupied cell under the current orientation, always inside
    /// the effective bounding box.
    pub fn transformed_cell(&self, k: usize) -> (rc: (usize, usize))
        requires
            self@.wf(),
            k < self@.cells.len(),
        ensures
            (rc.0 as int, rc.1 as int) == self@.cell(k as int),
            (rc.0 as int) < self@.eff_rows(),
            (rc.1 as int) < self@.eff_cols(),
    {
        let xy = self.indices[k];
        if self.flip {
            match self.orientation {
                Orientation::R0 => (self.num_rows - xy.0 - 1, xy.1),
                Orientation::R90 => (xy.1, xy.0),
                Orientation::R180 => (xy.0, self.num_cols - xy.1 - 1),
                Orientation::R270 => (self.num_cols - xy.1 - 1, self.num_rows - xy.0 - 1),
            }
        } else {
            match self.orientation {
                Orientation::R0 => (xy.0, xy.1),
                Orientation::R90 => (self.num_cols - xy.1 - 1, xy.0),
                Orientation::R180 => (self.num_rows - xy.0 - 1, self.num_cols - xy.1 - 1),
                Orientation::R270 => (xy.1, self.num_rows - xy.0 - 1),
            }
        }
    }

    /// Diagnostic rendering of the effective bounding box: each row opens
    /// with a newline, and each cell is the piece's mark or a space,
    /// followed by two spaces.
    pub fn render(&self) -> (out: Vec<char>)
        requires
            self@.wf(),
        ensures
            out@ == rows_prefix(self@, self@.eff_rows()),
    {
        let r = self.rows();
        let c = self.cols();
        let cnt = self.cell_count();
        let mut out: Vec<char> = Vec::new();
        let mut i: usize = 0;
        while i < r
            invariant
                self@.wf(),
                i <= r,
                r as int == self@.eff_rows(),
                c as int == self@.eff_cols(),
                cnt == self@.cells.len(),
                out@ == rows_prefix(self@, i as int),
            decreases r - i,
        {
            out.push('\n');
            let mut j: usize = 0;
            proof {
                assert(out@ =~= rows_prefix(self@, i as int) + row_prefix(self@, i as int, 0));
            }
            while j < c
                invariant
                    self@.wf(),
                    i < r,
                    j <= c,
                    r as int == self@.eff_rows(),
                    c as int == self@.eff_cols(),
                    cnt == self@.cells.len(),
                    out@ == rows_prefix(self@, i as int) + row_prefix(self@, i as int, j as int),
                decreases c - j,
            {
                let mut occ: bool = false;
                let mut k: usize = 0;
                while k < cnt
                    invariant
                        self@.wf(),
                        k <= cnt,
                        cnt == self@.cells.len(),
                        occ == exists|k1: int|
                            0 <= k1 < k && #[trigger] self@.cell(k1) == (i as int, j as int),
                    decreases cnt - k,
                {
                    let rc = self.transformed_cell(k);
                    if rc.0 == i && rc.1 == j {
                        occ = true;
                    }
                    k = k + 1;
                }
                let ch: char = if occ {
                    self.mark
                } else {
                    ' '
                };
                out.push(ch);
                out.push(' ');
                out.push(' ');
                proof {
                    assert(ch == cell_char(self@, i as int, j as int));
                    assert(out@ =~= rows_prefix(self@, i as int) + row_prefix(
                        self@,
                        i as int,
                        j as int + 1,
                    ));
                }
                j = j + 1;
            }
            proof {
                assert(out@ =~= rows_prefix(self@, i as int + 1));
            }
            i = i + 1;
        }
        out
    }

    /// A restartable enumerator over the transformed cells.
    pub fn iter(&self) -> (it: BlockIterator)
        ensures
            it.block_view() == self@,
            it.index_spec() == 0,
    {
        BlockIterator { block: self, index: 0 }
    }
}

/// Enumerates the transformed cells of a borrowed [`Block`], recomputing each
/// coordinate from the live orientation on demand.
pub struct BlockIterator<'a> {
    block: &'a Block,
    index: usize,
}

impl<'a> BlockIterator<'a> {
    /// The piece being enumerated.
    pub closed spec fn block_view(&self) -> BlockView {
        self.block@
    }

    /// How many cells have been handed out so far.
    pub closed spec fn index_spec(&self) -> int {
        self.index as int
    }

    /// Hands out the next transformed cell, or `None` once every footprint
    /// cell has been produced.
    pub fn next(&mut self) -> (r: Option<(usize, usize)>)
        requires
            old(self).block_view().wf(),
        ensures
            final(self).block_view() == old(self).block_view(),
            ({
                let v = old(self).block_view();
                let k = old(self).index_spec();
                if k < v.cells.len() {
                    &&& final(self).index_spec() == k + 1
                    &&& r matches Some(rc) && (rc.0 as int, rc.1 as int) == v.cell(k)
                } else {
                    &&& final(self).index_spec() == k
                    &&& r is None
                }
            }),
    {
        if self.index < self.block.cell_count() {
            let rc = self.block.transformed_cell(self.index);
            self.index = self.index + 1;
            Some(rc)
        } else {
            None
        }
    }
}

} // verus!

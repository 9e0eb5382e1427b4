//! The 7x7 puzzle board: six permanently blocked cells, one month marker,
//! one day marker, and vacant cells that pieces are written into and erased
//! from during the search.

use vstd::prelude::*;

use crate::block::Block;
use crate::block::BlockView;

verus! {

/// Row-major position of cell `(i, j)` in the flattened matrix.
pub open spec fn flat(i: int, j: int) -> int {
    7 * i + j
}

/// The six cells that the calendar layout blocks permanently: two in the
/// top-right corner and four in the bottom-right corner.
pub open spec fn blocked_cell(i: int, j: int) -> bool {
    ||| (i == 0 && j == 6)
    ||| (i == 1 && j == 6)
    ||| (i == 6 && 3 <= j <= 6)
}

/// The cell that carries the month marker.
pub open spec fn month_cell(month: int) -> (int, int) {
    ((month - 1) / 6, (month - 1) % 6)
}

/// The cell that carries the day marker.
pub open spec fn day_cell(day: int) -> (int, int) {
    (2 + (day - 1) / 7, (day - 1) % 7)
}

/// What a freshly constructed board holds at cell `(i, j)`: the day marker
/// wins over the month marker, which wins over the blocked layout; every
/// other cell starts vacant.
pub open spec fn init_cell(month: int, day: int, i: int, j: int) -> char {
    if (i, j) == day_cell(day) {
        'D'
    } else if (i, j) == month_cell(month) {
        'M'
    } else if blocked_cell(i, j) {
        'x'
    } else {
        '.'
    }
}

/// The first vacant cell at flattened position `p` or later, in row-major
/// order, as `(row, col)`.
pub open spec fn first_vacant_from(m: Seq<char>, p: int) -> Option<(int, int)>
    decreases 49 - p,
{
    if p < 0 || p >= 49 {
        Option::None
    } else if m[p] == '.' {
        Option::Some((p / 7, p % 7))
    } else {
        first_vacant_from(m, p + 1)
    }
}

/// The first vacant cell of the whole matrix, in row-major order.
pub open spec fn first_vacant_spec(m: Seq<char>) -> Option<(int, int)> {
    first_vacant_from(m, 0)
}

/// Skipping over non-vacant positions does not change where the scan ends.
pub proof fn lemma_first_vacant_skip(m: Seq<char>, p: int, q: int)
    requires
        0 <= p <= q <= 49,
        forall|r: int| p <= r < q ==> m[r] != '.',
    ensures
        first_vacant_from(m, p) == first_vacant_from(m, q),
    decreases q - p,
{
    if p < q {
        lemma_first_vacant_skip(m, p + 1, q);
    }
}

/// What a bounds-checked read returns: positions past row or column 6 read
/// as blocked.
pub open spec fn cell_or_blocked(m: Seq<char>, i: int, j: int) -> char {
    if i > 6 || j > 6 {
        'x'
    } else {
        m[flat(i, j)]
    }
}

/// Whether one of the first `n` footprint cells of `v`, offset by
/// `(oi, oj)`, lands on flattened board position `p`. Cells whose offset
/// coordinates fall outside the 7x7 grid cover nothing.
pub open spec fn covers_upto(v: BlockView, oi: int, oj: int, p: int, n: int) -> bool {
    exists|k: int|
        0 <= k < n && {
            let t = #[trigger] v.cell(k);
            &&& t.0 + oi < 7
            &&& t.1 + oj < 7
            &&& flat(t.0 + oi, t.1 + oj) == p
        }
}

/// Whether any footprint cell of `v`, offset by `(oi, oj)`, lands on
/// flattened board position `p`.
pub open spec fn covers(v: BlockView, oi: int, oj: int, p: int) -> bool {
    covers_upto(v, oi, oj, p, v.cells.len() as int)
}

/// The matrix after writing `c` into every position the first `n` footprint
/// cells of `v` cover at offset `(oi, oj)`.
pub open spec fn place_upto(
    m: Seq<char>,
    v: BlockView,
    oi: int,
    oj: int,
    c: char,
    n: int,
) -> Seq<char> {
    Seq::new(49, |p: int| if covers_upto(v, oi, oj, p, n) { c } else { m[p] })
}

/// The matrix after writing `c` into every position the footprint of `v`
/// covers at offset `(oi, oj)`; out-of-grid cells are silently skipped.
pub open spec fn place(m: Seq<char>, v: BlockView, oi: int, oj: int, c: char) -> Seq<char> {
    place_upto(m, v, oi, oj, c, v.cells.len() as int)
}

/// One footprint cell at a time, placing is a plain point update: writing
/// cell `k` on top of the first `k` writes updates its target position, or
/// changes nothing when the cell falls outside the grid.
pub proof fn lemma_place_step(m: Seq<char>, v: BlockView, oi: int, oj: int, c: char, k: int)
    requires
        m.len() == 49,
        v.wf(),
        0 <= oi,
        0 <= oj,
        0 <= k < v.cells.len(),
    ensures
        v.cell(k).0 + oi < 7 && v.cell(k).1 + oj < 7 ==> place_upto(m, v, oi, oj, c, k + 1)
            == place_upto(m, v, oi, oj, c, k).update(flat(v.cell(k).0 + oi, v.cell(k).1 + oj), c),
        !(v.cell(k).0 + oi < 7 && v.cell(k).1 + oj < 7) ==> place_upto(m, v, oi, oj, c, k + 1)
            == place_upto(m, v, oi, oj, c, k),
{
    crate::block::lemma_orientation_closure(v, k);
    let t = v.cell(k);
    if t.0 + oi < 7 && t.1 + oj < 7 {
        let p0 = flat(t.0 + oi, t.1 + oj);
        assert(0 <= p0 < 49);
        assert forall|p: int|
            0 <= p < 49 implies covers_upto(v, oi, oj, p, k + 1) == (covers_upto(v, oi, oj, p, k)
            || p == p0) by {
            if covers_upto(v, oi, oj, p, k) {
                let k1 = choose|k1: int|
                    0 <= k1 < k && {
                        let t1 = #[trigger] v.cell(k1);
                        &&& t1.0 + oi < 7
                        &&& t1.1 + oj < 7
                        &&& flat(t1.0 + oi, t1.1 + oj) == p
                    };
                assert(0 <= k1 < k + 1);
            }
            if p == p0 {
                assert(covers_upto(v, oi, oj, p, k + 1));
            }
        }
        assert(place_upto(m, v, oi, oj, c, k + 1) =~= place_upto(m, v, oi, oj, c, k).update(
            p0,
            c,
        ));
    } else {
        assert forall|p: int|
            0 <= p < 49 implies covers_upto(v, oi, oj, p, k + 1) == covers_upto(
            v,
            oi,
            oj,
            p,
            k,
        ) by {
            if covers_upto(v, oi, oj, p, k + 1) {
                let k1 = choose|k1: int|
                    0 <= k1 < k + 1 && {
                        let t1 = #[trigger] v.cell(k1);
                        &&& t1.0 + oi < 7
                        &&& t1.1 + oj < 7
                        &&& flat(t1.0 + oi, t1.1 + oj) == p
                    };
                assert(k1 != k);
                assert(0 <= k1 < k);
            }
        }
        assert(place_upto(m, v, oi, oj, c, k + 1) =~= place_upto(m, v, oi, oj, c, k));
    }
}

/// Apply/revert idempotence: erasing a footprint right after writing it
/// restores the matrix exactly, provided every position the footprint covers
/// (out-of-grid cells are clipped from both writes) was vacant beforehand.
pub proof fn lemma_apply_revert(m: Seq<char>, v: BlockView, oi: int, oj: int, c: char)
    requires
        m.len() == 49,
        forall|p: int| 0 <= p < 49 && #[trigger] covers(v, oi, oj, p) ==> m[p] == '.',
    ensures
        place(place(m, v, oi, oj, c), v, oi, oj, '.') == m,
{
    assert forall|p: int|
        0 <= p < 49 implies place(place(m, v, oi, oj, c), v, oi, oj, '.')[p] == m[p] by {
        if covers(v, oi, oj, p) {
            assert(m[p] == '.');
        }
    }
    assert(place(place(m, v, oi, oj, c), v, oi, oj, '.') =~= m);
}

/// How many times `c` occurs in the matrix.
pub open spec fn count_char(s: Seq<char>, c: char) -> nat
    decreases s.len(),
{
    if s.len() == 0 {
        0
    } else {
        count_char(s.drop_last(), c) + if s.last() == c {
            1nat
        } else {
            0nat
        }
    }
}

/// A character with no occurrences occurs at no position.
pub proof fn lemma_count_zero(s: Seq<char>, c: char)
    requires
        count_char(s, c) == 0,
    ensures
        forall|p: int| 0 <= p < s.len() ==> s[p] != c,
    decreases s.len(),
{
    if s.len() > 0 {
        lemma_count_zero(s.drop_last(), c);
        assert forall|p: int| 0 <= p < s.len() implies s[p] != c by {
            if p < s.len() - 1 {
                assert(s.drop_last()[p] == s[p]);
            }
        }
    }
}

/// Updating one position adjusts the count of `c` by what leaves and what
/// arrives at that position.
pub proof fn lemma_count_update(s: Seq<char>, p: int, v: char, c: char)
    requires
        0 <= p < s.len(),
    ensures
        count_char(s.update(p, v), c) == count_char(s, c) + (if v == c {
            1int
        } else {
            0int
        }) - (if s[p] == c {
            1int
        } else {
            0int
        }),
    decreases s.len(),
{
    if p == s.len() - 1 {
        assert(s.update(p, v).drop_last() =~= s.drop_last());
        assert(s.update(p, v).last() == v);
    } else {
        assert(s.update(p, v).drop_last() =~= s.drop_last().update(p, v));
        lemma_count_update(s.drop_last(), p, v, c);
        assert(s.update(p, v).last() == s.last());
    }
}

/// Induction step behind [`lemma_no_double_use`]: writing the first `n`
/// footprint cells adds exactly `n` marks, as long as no target cell
/// already holds the mark.
proof fn lemma_count_place_upto(m: Seq<char>, v: BlockView, oi: int, oj: int, n: int)
    requires
        m.len() == 49,
        v.wf(),
        0 <= oi,
        0 <= oj,
        0 <= n <= v.cells.len(),
        forall|k: int|
            0 <= k < v.cells.len() ==> (#[trigger] v.cell(k)).0 + oi < 7 && v.cell(k).1 + oj < 7
                && m[flat(v.cell(k).0 + oi, v.cell(k).1 + oj)] != v.mark,
        forall|k1: int, k2: int|
            0 <= k1 < k2 < v.cells.len() ==> #[trigger] v.cells[k1] != #[trigger] v.cells[k2],
    ensures
        count_char(place_upto(m, v, oi, oj, v.mark, n), v.mark) == count_char(m, v.mark) + n,
    decreases n,
{
    if n == 0 {
        assert(place_upto(m, v, oi, oj, v.mark, 0) =~= m);
    } else {
        lemma_count_place_upto(m, v, oi, oj, n - 1);
        crate::block::lemma_orientation_closure(v, n - 1);
        let t = v.cell(n - 1);
        let p0 = flat(t.0 + oi, t.1 + oj);
        assert(0 <= p0 < 49);
        lemma_place_step(m, v, oi, oj, v.mark, n - 1);
        let before = place_upto(m, v, oi, oj, v.mark, n - 1);
        if covers_upto(v, oi, oj, p0, n - 1) {
            let k = choose|k: int|
                0 <= k < n - 1 && {
                    let t1 = #[trigger] v.cell(k);
                    &&& t1.0 + oi < 7
                    &&& t1.1 + oj < 7
                    &&& flat(t1.0 + oi, t1.1 + oj) == p0
                };
            crate::block::lemma_orientation_closure(v, k);
            assert(v.cell(k) == t);
            if v.cells[k] != v.cells[n - 1] {
                crate::block::lemma_transform_injective(v, k, n - 1);
            }
            assert(false);
        }
        assert(before[p0] == m[p0]);
        lemma_count_update(before, p0, v.mark, v.mark);
    }
}

/// No double-use within one placement: stamping a piece whose footprint
/// cells are pairwise distinct and land fully on the grid writes its mark
/// exactly once per footprint cell, so the mark appears on the board exactly
/// its cell count many times when it appeared nowhere before.
pub proof fn lemma_no_double_use(m: Seq<char>, v: BlockView, oi: int, oj: int)
    requires
        m.len() == 49,
        v.wf(),
        0 <= oi,
        0 <= oj,
        count_char(m, v.mark) == 0,
        forall|k: int|
            0 <= k < v.cells.len() ==> (#[trigger] v.cell(k)).0 + oi < 7 && v.cell(k).1 + oj < 7,
        forall|k1: int, k2: int|
            0 <= k1 < k2 < v.cells.len() ==> #[trigger] v.cells[k1] != #[trigger] v.cells[k2],
    ensures
        count_char(place(m, v, oi, oj, v.mark), v.mark) == v.cells.len(),
{
    lemma_count_zero(m, v.mark);
    assert forall|k: int| 0 <= k < v.cells.len() implies m[flat(
        (#[trigger] v.cell(k)).0 + oi,
        v.cell(k).1 + oj,
    )] != v.mark by {
        crate::block::lemma_orientation_closure(v, k);
    }
    lemma_count_place_upto(m, v, oi, oj, v.cells.len() as int);
}

/// Stamping a piece whose distinct footprint cells all land on vacant grid
/// cells raises its mark's count by exactly its cell count.
pub proof fn lemma_place_adds_marks(m: Seq<char>, v: BlockView, oi: int, oj: int)
    requires
        m.len() == 49,
        v.wf(),
        v.mark != '.',
        0 <= oi,
        0 <= oj,
        forall|k: int|
            0 <= k < v.cells.len() ==> (#[trigger] v.cell(k)).0 + oi < 7 && v.cell(k).1 + oj < 7
                && m[flat(v.cell(k).0 + oi, v.cell(k).1 + oj)] == '.',
        forall|k1: int, k2: int|
            0 <= k1 < k2 < v.cells.len() ==> #[trigger] v.cells[k1] != #[trigger] v.cells[k2],
    ensures
        count_char(place(m, v, oi, oj, v.mark), v.mark) == count_char(m, v.mark)
            + v.cells.len(),
{
    lemma_count_place_upto(m, v, oi, oj, v.cells.len() as int);
}

/// Two matrices that agree, position for position, on where `c` sits have
/// the same count of `c`.
pub proof fn lemma_count_agree(s: Seq<char>, t: Seq<char>, c: char)
    requires
        s.len() == t.len(),
        forall|p: int| 0 <= p < s.len() ==> ((s[p] == c) <==> (#[trigger] t[p] == c)),
    ensures
        count_char(s, c) == count_char(t, c),
    decreases s.len(),
{
    if s.len() > 0 {
        assert forall|p: int|
            0 <= p < s.len() - 1 implies ((s.drop_last()[p] == c) <==> (#[trigger] t.drop_last()[p]
            == c)) by {
            assert(s.drop_last()[p] == s[p]);
            assert(t.drop_last()[p] == t[p]);
        }
        lemma_count_agree(s.drop_last(), t.drop_last(), c);
    }
}

/// Stamping a piece onto vacant cells leaves the count of every other
/// non-vacant character unchanged.
pub proof fn lemma_place_keeps_count(
    m: Seq<char>,
    v: BlockView,
    oi: int,
    oj: int,
    w: char,
    c: char,
)
    requires
        m.len() == 49,
        c != w,
        c != '.',
        forall|p: int| 0 <= p < 49 && #[trigger] covers(v, oi, oj, p) ==> m[p] == '.',
    ensures
        count_char(place(m, v, oi, oj, w), c) == count_char(m, c),
{
    let t = place(m, v, oi, oj, w);
    assert forall|p: int| 0 <= p < 49 implies ((t[p] == c) <==> (#[trigger] m[p] == c)) by {
        if covers(v, oi, oj, p) {
            assert(m[p] == '.');
            assert(t[p] == w);
        }
    }
    lemma_count_agree(t, m, c);
}

/// In a rendering `s`, row `i` of the grid opens with a newline at its
/// expected position (each rendered row takes 22 characters).
pub open spec fn row_break_at(s: Seq<char>, i: int) -> bool {
    s[22 * i] == '\n'
}

/// In a rendering `s`, cell `(i, j)` of the matrix `m` appears at its
/// expected position, followed by two spaces.
pub open spec fn cell_rendered_at(s: Seq<char>, m: Seq<char>, i: int, j: int) -> bool {
    &&& s[22 * i + 3 * j + 1] == m[flat(i, j)]
    &&& s[22 * i + 3 * j + 2] == ' '
    &&& s[22 * i + 3 * j + 3] == ' '
}

/// The puzzle board. One instance lives through the entire search and is
/// mutated in place; backtracking restores it with matching erases.
pub struct Board {
    month: usize,
    day: usize,
    matrix: Vec<char>,
}

impl View for Board {
    type V = Seq<char>;

    closed spec fn view(&self) -> Seq<char> {
        self.matrix@
    }
}

impl Board {
    /// The month this board was built for.
    pub closed spec fn month_spec(&self) -> usize {
        self.month
    }

    /// The day this board was built for.
    pub closed spec fn day_spec(&self) -> usize {
        self.day
    }

    /// The matrix holds exactly the 49 cells of the 7x7 grid.
    pub open spec fn wf(&self) -> bool {
        self@.len() == 49
    }

    /// Builds the board for a date: all cells vacant except the six blocked
    /// layout cells, the month marker, and the day marker.
    pub fn new(month: usize, day: usize) -> (b: Board)
        requires
            1 <= month <= 12,
            1 <= day <= 31,
        ensures
            b.wf(),
            b.month_spec() == month,
            b.day_spec() == day,
            forall|i: int, j: int|
                0 <= i < 7 && 0 <= j < 7 ==> b@[#[trigger] flat(i, j)] == init_cell(
                    month as int,
                    day as int,
                    i,
                    j,
                ),
    {
        let mut matrix: Vec<char> = vec!['.'; 49];
        matrix.set(6, 'x');
        matrix.set(13, 'x');
        matrix.set(45, 'x');
        matrix.set(46, 'x');
        matrix.set(47, 'x');
        matrix.set(48, 'x');
        let m_pos: usize = (month - 1) / 6 * 7 + (month - 1) % 6;
        let d_pos: usize = (2 + (day - 1) / 7) * 7 + (day - 1) % 7;
        matrix.set(m_pos, 'M');
        matrix.set(d_pos, 'D');
        let b = Board { month, day, matrix };
        proof {
            assert forall|i: int, j: int|
                0 <= i < 7 && 0 <= j < 7 implies b@[#[trigger] flat(i, j)] == init_cell(
                month as int,
                day as int,
                i,
                j,
            ) by {
                assert(0 <= flat(i, j) < 49);
            }
        }
        b
    }

    /// First vacant cell in row-major order, if the board has one: every
    /// cell strictly before the returned one is not vacant, and a `None`
    /// answer means no cell at all is vacant.
    pub fn first_vacant(&self) -> (r: Option<(usize, usize)>)
        requires
            self.wf(),
        ensures
            match r {
                Some(rc) => {
                    &&& rc.0 < 7
                    &&& rc.1 < 7
                    &&& self@[flat(rc.0 as int, rc.1 as int)] == '.'
                    &&& forall|i: int, j: int|
                        0 <= i < 7 && 0 <= j < 7 && (i < rc.0 as int || (i == rc.0 as int && j
                            < rc.1 as int)) ==> self@[#[trigger] flat(i, j)] != '.'
                    &&& first_vacant_spec(self@) == Option::Some((rc.0 as int, rc.1 as int))
                },
                None => {
                    &&& forall|i: int, j: int|
                        0 <= i < 7 && 0 <= j < 7 ==> self@[#[trigger] flat(i, j)] != '.'
                    &&& first_vacant_spec(self@) is None
                },
            },
    {
        let mut i: usize = 0;
        while i < 7
            invariant
                self.wf(),
                i <= 7,
                forall|i1: int, j1: int|
                    0 <= i1 < i && 0 <= j1 < 7 ==> self@[#[trigger] flat(i1, j1)] != '.',
            decreases 7 - i,
        {
            let mut j: usize = 0;
            while j < 7
                invariant
                    self.wf(),
                    i < 7,
                    j <= 7,
                    forall|i1: int, j1: int|
                        0 <= i1 < i && 0 <= j1 < 7 ==> self@[#[trigger] flat(i1, j1)] != '.',
                    forall|j1: int|
                        0 <= j1 < j ==> self@[#[trigger] flat(i as int, j1)] != '.',
                decreases 7 - j,
            {
                if self.matrix[i * 7 + j] == '.' {
                    proof {
                        assert forall|p: int|
                            0 <= p < flat(i as int, j as int) implies self@[p] != '.' by {
                            let a = p / 7;
                            let b = p % 7;
                            assert(p == 7 * a + b);
                            assert(0 <= b < 7);
                            assert(0 <= a < 7);
                            if a < i as int {
                                assert(self@[flat(a, b)] != '.');
                            } else {
                                assert(a == i as int && b < j as int);
                                assert(self@[flat(a, b)] != '.');
                            }
                        }
                        lemma_first_vacant_skip(self@, 0, flat(i as int, j as int));
                        assert((7 * (i as int) + j as int) / 7 == i as int);
                        assert((7 * (i as int) + j as int) % 7 == j as int);
                    }
                    return Some((i, j));
                }
                j = j + 1;
            }
            i = i + 1;
        }
        proof {
            assert forall|p: int| 0 <= p < 49 implies self@[p] != '.' by {
                let a = p / 7;
                let b = p % 7;
                assert(p == 7 * a + b);
                assert(0 <= b < 7);
                assert(0 <= a < 7);
                assert(self@[flat(a, b)] != '.');
            }
            lemma_first_vacant_skip(self@, 0, 49);
        }
        None
    }

    /// Bounds-aware read: out-of-grid positions read as blocked.
    pub fn get_cell(&self, i: usize, j: usize) -> (c: char)
        requires
            self.wf(),
        ensures
            c == cell_or_blocked(self@, i as int, j as int),
    {
        if i > 6 || j > 6 {
            'x'
        } else {
            self.matrix[i * 7 + j]
        }
    }

    /// Writes `c` into every position the footprint of `b` covers at offset
    /// `(i, j)`, skipping cells whose offset coordinates leave the grid.
    fn write_cells(&mut self, b: &Block, i: usize, j: usize, c: char)
        requires
            old(self).wf(),
            b@.wf(),
        ensures
            final(self).wf(),
            final(self).month_spec() == old(self).month_spec(),
            final(self).day_spec() == old(self).day_spec(),
            final(self)@ == place(old(self)@, b@, i as int, j as int, c),
    {
        let cnt = b.cell_count();
        let mut k: usize = 0;
        proof {
            assert(place_upto(old(self)@, b@, i as int, j as int, c, 0) =~= old(self)@);
        }
        while k < cnt
            invariant
                old(self).wf(),
                self.wf(),
                b@.wf(),
                self.month_spec() == old(self).month_spec(),
                self.day_spec() == old(self).day_spec(),
                k <= cnt,
                cnt == b@.cells.len(),
                self@ == place_upto(old(self)@, b@, i as int, j as int, c, k as int),
            decreases cnt - k,
        {
            let (ri, ci) = b.transformed_cell(k);
            proof {
                lemma_place_step(old(self)@, b@, i as int, j as int, c, k as int);
            }
            if i < 7 && j < 7 && ri < 7 - i && ci < 7 - j {
                self.matrix.set((ri + i) * 7 + (ci + j), c);
            }
            k = k + 1;
        }
    }

    /// Stamps the piece's mark onto the board at the given offset; cells
    /// hanging off the grid are silently clipped.
    pub fn apply_block(&mut self, b: &Block, i: usize, j: usize)
        requires
            old(self).wf(),
            b@.wf(),
        ensures
            final(self).wf(),
            final(self).month_spec() == old(self).month_spec(),
            final(self).day_spec() == old(self).day_spec(),
            final(self)@ == place(old(self)@, b@, i as int, j as int, b@.mark),
    {
        let c = b.get_mark();
        self.write_cells(b, i, j, c);
    }

    /// Erases the same footprint the matching apply wrote, restoring those
    /// positions to vacant; cells hanging off the grid are silently clipped.
    pub fn revert_block(&mut self, b: &Block, i: usize, j: usize)
        requires
            old(self).wf(),
            b@.wf(),
        ensures
            final(self).wf(),
            final(self).month_spec() == old(self).month_spec(),
            final(self).day_spec() == old(self).day_spec(),
            final(self)@ == place(old(self)@, b@, i as int, j as int, '.'),
    {
        self.write_cells(b, i, j, '.');
    }

    /// Textual rendering of the grid: each of the seven rows opens with a
    /// newline, and each cell character is followed by two spaces.
    pub fn render(&self) -> (out: Vec<char>)
        requires
            self.wf(),
        ensures
            out@.len() == 154,
            forall|i: int| 0 <= i < 7 ==> #[trigger] row_break_at(out@, i),
            forall|i: int, j: int|
                0 <= i < 7 && 0 <= j < 7 ==> #[trigger] cell_rendered_at(out@, self@, i, j),
    {
        let mut out: Vec<char> = Vec::new();
        let mut i: usize = 0;
        while i < 7
            invariant
                self.wf(),
                i <= 7,
                out@.len() == 22 * i,
                forall|i1: int| 0 <= i1 < i ==> #[trigger] row_break_at(out@, i1),
                forall|i1: int, j1: int|
                    0 <= i1 < i && 0 <= j1 < 7 ==> #[trigger] cell_rendered_at(out@, self@, i1, j1),
            decreases 7 - i,
        {
            let ghost pre_row = out@;
            out.push('\n');
            proof {
                assert forall|i1: int| 0 <= i1 <= i implies #[trigger] row_break_at(out@, i1) by {
                    if i1 < i {
                        assert(row_break_at(pre_row, i1));
                        assert(out@[22 * i1] == pre_row[22 * i1]);
                    } else {
                        assert(out@[22 * i] == '\n');
                    }
                }
                assert forall|i1: int, j1: int|
                    0 <= i1 < i && 0 <= j1 < 7 implies #[trigger] cell_rendered_at(
                    out@,
                    self@,
                    i1,
                    j1,
                ) by {
                    assert(cell_rendered_at(pre_row, self@, i1, j1));
                    assert(out@[22 * i1 + 3 * j1 + 1] == pre_row[22 * i1 + 3 * j1 + 1]);
                    assert(out@[22 * i1 + 3 * j1 + 2] == pre_row[22 * i1 + 3 * j1 + 2]);
                    assert(out@[22 * i1 + 3 * j1 + 3] == pre_row[22 * i1 + 3 * j1 + 3]);
                }
            }
            let mut j: usize = 0;
            while j < 7
                invariant
                    self.wf(),
                    i < 7,
                    j <= 7,
                    out@.len() == 22 * i + 3 * j + 1,
                    forall|i1: int| 0 <= i1 <= i ==> #[trigger] row_break_at(out@, i1),
                    forall|i1: int, j1: int|
                        0 <= i1 < 7 && 0 <= j1 < 7 && (i1 < i || (i1 == i && j1 < j))
                            ==> #[trigger] cell_rendered_at(out@, self@, i1, j1),
                decreases 7 - j,
            {
                let ghost pre_cell = out@;
                out.push(self.matrix[i * 7 + j]);
                out.push(' ');
                out.push(' ');
                proof {
                    assert forall|i1: int| 0 <= i1 <= i implies #[trigger] row_break_at(
                        out@,
                        i1,
                    ) by {
                        assert(row_break_at(pre_cell, i1));
                        assert(out@[22 * i1] == pre_cell[22 * i1]);
                    }
                    assert forall|i1: int, j1: int|
                        0 <= i1 < 7 && 0 <= j1 < 7 && (i1 < i || (i1 == i && j1 < j + 1))
                            implies #[trigger] cell_rendered_at(out@, self@, i1, j1) by {
                        if i1 < i || j1 < j {
                            assert(cell_rendered_at(pre_cell, self@, i1, j1));
                            assert(out@[22 * i1 + 3 * j1 + 1] == pre_cell[22 * i1 + 3 * j1 + 1]);
                            assert(out@[22 * i1 + 3 * j1 + 2] == pre_cell[22 * i1 + 3 * j1 + 2]);
                            assert(out@[22 * i1 + 3 * j1 + 3] == pre_cell[22 * i1 + 3 * j1 + 3]);
                        } else {
                            assert(out@[22 * i + 3 * j + 1] == self@[flat(i as int, j as int)]);
                            assert(out@[22 * i + 3 * j + 2] == ' ');
                            assert(out@[22 * i + 3 * j + 3] == ' ');
                        }
                    }
                }
                j = j + 1;
            }
            i = i + 1;
        }
        out
    }

    /// A copy of the 49 cells in row-major order.
    pub fn snapshot(&self) -> (v: Vec<char>)
        requires
            self.wf(),
        ensures
            v@ == self@,
    {
        let mut v: Vec<char> = Vec::new();
        let mut k: usize = 0;
        while k < 49
            invariant
                self.wf(),
                k <= 49,
                v@ =~= self@.subrange(0, k as int),
            decreases 49 - k,
        {
            v.push(self.matrix[k]);
            k = k + 1;
        }
        proof {
            assert(v@ =~= self@);
        }
        v
    }
}

} // verus!

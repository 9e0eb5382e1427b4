use puzzleday::Block;
use puzzleday::Board;
use puzzleday::Orientation;
use puzzleday::solve_puzzle;

fn to_string(v: Vec<char>) -> String {
    let mut s = String::new();
    for c in v {
        s.push(c);
    }
    s
}

fn collect_cells(b: &Block) -> Vec<(usize, usize)> {
    let mut out = Vec::new();
    let mut it = b.iter();
    while let Some(rc) = it.next() {
        out.push(rc);
    }
    out
}

/// The standard 'G'-shaped sample piece, rendered in all eight states.
#[test]
fn create_block() {
    let mut b1 = Block::new('G', 4, 2, vec![(0, 0), (1, 0), (2, 0), (2, 1), (3, 1)]);
    println!("R0: {}", to_string(b1.render()));
    b1.rotate(&Orientation::R90);
    println!("R90: {}", to_string(b1.render()));
    b1.rotate(&Orientation::R180);
    println!("R180: {}", to_string(b1.render()));
    b1.rotate(&Orientation::R270);
    println!("R270: {}", to_string(b1.render()));

    b1.flip(true);
    b1.rotate(&Orientation::R0);
    println!("F-R0: {}", to_string(b1.render()));
    b1.rotate(&Orientation::R90);
    println!("F-R90: {}", to_string(b1.render()));
    b1.rotate(&Orientation::R180);
    println!("F-R180: {}", to_string(b1.render()));
    b1.rotate(&Orientation::R270);
    println!("F-R270: {}", to_string(b1.render()));
}

#[test]
fn create_board() {
    let bd = Board::new(6, 28);
    println!("Board status: {}", to_string(bd.render()));
}

/// The fresh board for June 28: month marker at (0,5), day marker at (5,6),
/// the six fixed blocked cells, everything else vacant.
#[test]
fn board_layout_june_28() {
    let bd = Board::new(6, 28);
    assert_eq!(bd.get_cell(0, 5), 'M');
    assert_eq!(bd.get_cell(5, 6), 'D');
    for &(i, j) in &[(0, 6), (1, 6), (6, 3), (6, 4), (6, 5), (6, 6)] {
        assert_eq!(bd.get_cell(i, j), 'x');
    }
    let snap = bd.snapshot();
    let vacant = snap.iter().filter(|&&c| c == '.').count();
    assert_eq!(vacant, 41);
    // Out-of-range reads are blocked.
    assert_eq!(bd.get_cell(7, 0), 'x');
    assert_eq!(bd.get_cell(0, 7), 'x');
    assert_eq!(bd.get_cell(100, 100), 'x');
}

/// Orientation closure: in each of the eight states, every transformed cell
/// lies within the effective extents reported by rows() and cols().
#[test]
fn orientation_closure_all_states() {
    let mut b = Block::new('G', 4, 2, vec![(0, 0), (1, 0), (2, 0), (2, 1), (3, 1)]);
    let orients = [Orientation::R0, Orientation::R90, Orientation::R180, Orientation::R270];
    for &f in &[false, true] {
        for o in &orients {
            b.flip(f);
            b.rotate(o);
            let cells = collect_cells(&b);
            assert_eq!(cells.len(), 5);
            for (r, c) in cells {
                assert!(r < b.rows());
                assert!(c < b.cols());
            }
        }
    }
}

/// Transform involution: reflecting twice with the rotation held at R0
/// returns the canonical cells, and stepping through R90, R180, R270 and
/// back to R0 does too.
#[test]
fn transform_involution() {
    let mut b = Block::new('G', 4, 2, vec![(0, 0), (1, 0), (2, 0), (2, 1), (3, 1)]);
    let canonical = collect_cells(&b);
    assert_eq!(canonical, vec![(0, 0), (1, 0), (2, 0), (2, 1), (3, 1)]);

    b.flip(true);
    b.flip(false);
    assert_eq!(collect_cells(&b), canonical);

    b.rotate(&Orientation::R90);
    b.rotate(&Orientation::R180);
    b.rotate(&Orientation::R270);
    b.rotate(&Orientation::R0);
    assert_eq!(collect_cells(&b), canonical);

    // One quarter turn of the 4x2 'G' piece lands in a 2x4 box.
    b.rotate(&Orientation::R90);
    assert_eq!(b.rows(), 2);
    assert_eq!(b.cols(), 4);
    assert_eq!(collect_cells(&b), vec![(1, 0), (1, 1), (1, 2), (0, 2), (0, 3)]);
}

/// Apply/revert idempotence on a fully on-grid placement.
#[test]
fn apply_revert_restores_board() {
    let mut bd = Board::new(6, 28);
    let before = bd.snapshot();
    let b = Block::new('Q', 2, 2, vec![(0, 0), (0, 1), (1, 0), (1, 1)]);
    bd.apply_block(&b, 2, 0);
    assert_eq!(bd.get_cell(2, 0), 'Q');
    assert_eq!(bd.get_cell(2, 1), 'Q');
    assert_eq!(bd.get_cell(3, 0), 'Q');
    assert_eq!(bd.get_cell(3, 1), 'Q');
    bd.revert_block(&b, 2, 0);
    assert_eq!(bd.snapshot(), before);
}

/// Edge clipping: a placement hanging off the bottom edge writes (and then
/// erases) only the cells that fit, and the apply/revert pair still leaves
/// the board unchanged.
#[test]
fn edge_clipping_apply_revert() {
    let mut bd = Board::new(6, 28);
    let before = bd.snapshot();
    let b = Block::new('Q', 2, 2, vec![(0, 0), (0, 1), (1, 0), (1, 1)]);
    // Rows 6 and 7: row 7 is off the board and silently skipped.
    bd.apply_block(&b, 6, 0);
    assert_eq!(bd.get_cell(6, 0), 'Q');
    assert_eq!(bd.get_cell(6, 1), 'Q');
    bd.revert_block(&b, 6, 0);
    assert_eq!(bd.snapshot(), before);
}

/// Vacancy scan: the fresh June 28 board has its first vacancy at (0,0); a
/// fully stamped board has none; a board with exactly one vacant cell
/// reports that cell.
#[test]
fn first_vacant_cases() {
    let bd = Board::new(6, 28);
    assert_eq!(bd.first_vacant(), Some((0, 0)));

    // Stamp every cell of the grid.
    let mut all = Vec::new();
    for i in 0..7 {
        for j in 0..7 {
            all.push((i, j));
        }
    }
    let full = Block::new('F', 7, 7, all.clone());
    let mut covered = Board::new(6, 28);
    covered.apply_block(&full, 0, 0);
    assert_eq!(covered.first_vacant(), None);

    // Stamp every cell except (3,3).
    let mut almost = all;
    almost.retain(|&rc| rc != (3, 3));
    let filler = Block::new('F', 7, 7, almost);
    let mut one_left = Board::new(6, 28);
    one_left.apply_block(&filler, 0, 0);
    assert_eq!(one_left.first_vacant(), Some((3, 3)));
}

/// Boundary scenario: a single-cell piece against a board with exactly one
/// vacant cell places at offset 0 in the R0 state and yields one
/// full-coverage solution; the board and pool come back as they went in.
#[test]
fn single_cell_boundary() {
    let mut all = Vec::new();
    for i in 0..7 {
        for j in 0..7 {
            if (i, j) != (3, 3) {
                all.push((i, j));
            }
        }
    }
    let filler = Block::new('F', 7, 7, all);
    let mut bd = Board::new(6, 28);
    bd.apply_block(&filler, 0, 0);
    assert_eq!(bd.first_vacant(), Some((3, 3)));
    let before = bd.snapshot();

    let mut pool = vec![Block::new('S', 1, 1, vec![(0, 0)])];
    let mut solutions: Vec<Vec<char>> = Vec::new();
    solve_puzzle(&mut bd, &mut pool, &mut solutions);

    // The single-cell piece fits the hole in all eight orientations, so the
    // same tiling is reported once per orientation.
    assert_eq!(solutions.len(), 8);
    for sol in &solutions {
        assert_eq!(sol.len(), 49);
        assert_eq!(sol[3 * 7 + 3], 'S');
        assert_eq!(sol.iter().filter(|&&c| c == 'S').count(), 1);
        assert_eq!(sol.iter().filter(|&&c| c == '.').count(), 0);
    }
    assert_eq!(bd.snapshot(), before);
    assert_eq!(pool.len(), 1);
}

fn canonical_pieces() -> Vec<Block> {
    vec![
        Block::new('1', 4, 2, vec![(0, 0), (1, 0), (2, 0), (2, 1), (3, 1)]),
        Block::new('2', 4, 2, vec![(0, 0), (0, 1), (1, 1), (2, 1), (3, 1)]),
        Block::new('3', 4, 2, vec![(0, 0), (1, 0), (2, 0), (3, 0), (1, 1)]),
        Block::new('4', 3, 3, vec![(0, 2), (1, 0), (1, 1), (1, 2), (2, 0)]),
        Block::new('5', 3, 3, vec![(0, 0), (0, 1), (0, 2), (1, 0), (2, 0)]),
        Block::new('6', 3, 2, vec![(0, 0), (1, 0), (2, 0), (0, 1), (1, 1), (2, 1)]),
        Block::new('7', 3, 2, vec![(0, 0), (1, 0), (2, 0), (0, 1), (1, 1)]),
        Block::new('8', 3, 2, vec![(0, 0), (1, 0), (2, 0), (0, 1), (2, 1)]),
    ]
}

/// End-to-end: the full search for June 28 terminates, finds at least one
/// tiling, reports the same count on a repeated run, and returns the board
/// and pool intact. Within each solution every piece mark appears exactly
/// its cell count many times.
#[test]
fn end_to_end_june_28() {
    let mut bd = Board::new(6, 28);
    let before = bd.snapshot();
    let mut pool = canonical_pieces();
    let mut solutions: Vec<Vec<char>> = Vec::new();
    solve_puzzle(&mut bd, &mut pool, &mut solutions);
    let first_count = solutions.len();
    assert!(first_count > 0);
    assert_eq!(bd.snapshot(), before);
    assert_eq!(pool.len(), 8);

    let cell_counts = [5, 5, 5, 5, 5, 6, 5, 5];
    for sol in &solutions {
        assert_eq!(sol.iter().filter(|&&c| c == '.').count(), 0);
        for (p, &expected) in cell_counts.iter().enumerate() {
            let mark = char::from_digit(p as u32 + 1, 10).unwrap();
            assert_eq!(sol.iter().filter(|&&c| c == mark).count(), expected);
        }
    }

    let mut bd2 = Board::new(6, 28);
    let mut pool2 = canonical_pieces();
    let mut solutions2: Vec<Vec<char>> = Vec::new();
    solve_puzzle(&mut bd2, &mut pool2, &mut solutions2);
    assert_eq!(solutions2.len(), first_count);
    assert_eq!(solutions2, solutions);
}

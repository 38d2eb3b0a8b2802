use flood_it::board::{symbol, symbols, Board, BoardError, COLOURS, MARKER};
use flood_it::covered::Covered;
use flood_it::flood::{expand_coverage, fill2, push_adjacents_raw};
use flood_it::marking::push_adjacents;
use flood_it::moves::{TinyVec, MAX_MOVES};
use flood_it::search::{step, walk};
use std::collections::HashSet;

fn board(width: usize, height: usize, cells: &[u8]) -> Board {
    Board::new(width, height, cells.to_vec()).expect("valid board")
}

/// Plays `moves` from the origin and returns the covered mask.
fn play(b: &Board, moves: &[u8]) -> Covered {
    let mut mask = Covered::new(b.len());
    for &c in moves {
        mask = expand_coverage(b, &mask, c);
    }
    mask
}

fn covered_cells(mask: &Covered, n: usize) -> Vec<bool> {
    (0..n).map(|p| mask.get_raw(p)).collect()
}

/// The fewest moves, counting the origin's own colour, that cover the board.
fn brute_force_optimum(b: &Board, cap: usize) -> Option<usize> {
    let n = b.len();
    let start = b.get_raw(0);
    let mut frontier = vec![play(b, &[start])];
    let mut seen: HashSet<Vec<bool>> = HashSet::new();
    for len in 1..=cap {
        if frontier.iter().any(|m| m.count() == n) {
            return Some(len);
        }
        let mut next = Vec::new();
        for m in &frontier {
            for c in 0..COLOURS {
                let grown = expand_coverage(b, m, c);
                if seen.insert(covered_cells(&grown, n)) {
                    next.push(grown);
                }
            }
        }
        frontier = next;
    }
    None
}

#[test]
fn two_by_two_two_rows() {
    let b = board(2, 2, &[0, 0, 1, 1]);
    let reports = walk(&b);
    assert_eq!(reports.len(), 1);
    assert_eq!(reports[0].moves, vec![0, 1]);
    assert_eq!(reports[0].pending, 0);
}

#[test]
fn single_colour_board() {
    let b = board(3, 3, &[2; 9]);
    let reports = walk(&b);
    assert_eq!(reports.len(), 1);
    assert_eq!(reports[0].moves, vec![2]);
    assert_eq!(reports[0].pending, 0);
}

#[test]
fn all_distinct_colours() {
    let b = board(3, 2, &[0, 1, 2, 3, 4, 5]);
    let first = walk(&b);
    let second = walk(&b);
    assert_eq!(first.len(), 1);
    assert_eq!(first[0].moves.len(), 6);
    assert_eq!(first[0].moves[0], 0);
    assert_eq!(play(&b, &first[0].moves).count(), 6);
    assert_eq!(first[0].moves, second[0].moves);
    assert_eq!(first[0].pending, second[0].pending);
}

#[test]
fn optimal_on_small_boards() {
    let boards: [[u8; 9]; 5] = [
        [0, 1, 2, 1, 2, 0, 2, 0, 1],
        [0, 0, 1, 2, 1, 1, 2, 2, 0],
        [1, 2, 1, 2, 1, 2, 1, 2, 1],
        [2, 2, 2, 0, 1, 0, 1, 1, 1],
        [0, 1, 0, 0, 2, 0, 0, 1, 0],
    ];
    for cells in boards.iter() {
        let b = board(3, 3, cells);
        let reports = walk(&b);
        let best = reports.last().expect("a solution").moves.len();
        assert_eq!(Some(best), brute_force_optimum(&b, 9));
    }
}

#[test]
fn reports_strictly_improve_and_cover() {
    let cells: [u8; 16] = [0, 1, 2, 3, 3, 0, 1, 2, 2, 3, 0, 1, 1, 2, 3, 0];
    let b = board(4, 4, &cells);
    let reports = walk(&b);
    assert!(!reports.is_empty());
    for pair in reports.windows(2) {
        assert!(pair[1].moves.len() < pair[0].moves.len());
    }
    for r in &reports {
        assert_eq!(r.moves[0], 0);
        assert_eq!(play(&b, &r.moves).count(), 16);
    }
    assert_eq!(Some(reports.last().unwrap().moves.len()), brute_force_optimum(&b, 10));
}

#[test]
fn non_productive_expansion_is_identical() {
    let b = board(3, 3, &[0, 0, 1, 0, 2, 1, 3, 3, 1]);
    let root = play(&b, &[0]);
    assert_eq!(root.count(), 3);
    // Colour 1 touches the region at cell 2; colour 4 appears nowhere.
    let same = expand_coverage(&b, &root, 4);
    assert_eq!(covered_cells(&same, 9), covered_cells(&root, 9));
    let again = expand_coverage(&b, &root, 0);
    assert_eq!(covered_cells(&again, 9), covered_cells(&root, 9));
    let grown = expand_coverage(&b, &root, 1);
    assert_eq!(grown.count(), 6);
}

#[test]
fn coverage_never_shrinks() {
    let b = board(3, 3, &[0, 1, 2, 1, 2, 0, 2, 0, 1]);
    let mut mask = Covered::new(9);
    let mut before = covered_cells(&mask, 9);
    for &c in &[0u8, 1, 2, 0, 1, 2] {
        fill2(&b, &mut mask, c);
        let after = covered_cells(&mask, 9);
        for p in 0..9 {
            assert!(!before[p] || after[p]);
        }
        before = after;
    }
    assert_eq!(mask.count(), 9);
}

#[test]
fn remaining_colours_bounds_moves() {
    let b = board(3, 3, &[0, 1, 2, 1, 2, 0, 2, 0, 1]);
    let root = play(&b, &[0]);
    assert_eq!(b.remaining_colours(&root), 3);
    let optimum = brute_force_optimum(&b, 9).unwrap();
    assert!(b.remaining_colours(&root) <= optimum - 1);
    let full = play(&b, &[0, 1, 2, 0, 1, 2]);
    assert_eq!(full.count(), 9);
    assert_eq!(b.remaining_colours(&full), 0);
}

#[test]
fn remaining_colours_counts_distinct_uncovered() {
    let b = board(3, 2, &[4, 4, 1, 1, 5, 1]);
    let root = play(&b, &[4]);
    assert_eq!(root.count(), 2);
    assert_eq!(b.remaining_colours(&root), 2);
}

#[test]
fn step_lists_growing_colours_in_order() {
    let b = board(3, 3, &[0, 1, 2, 3, 1, 2, 3, 3, 3]);
    let root = play(&b, &[0]);
    let succ = step(&b, &root, 0);
    let colours: Vec<u8> = succ.iter().map(|s| s.colour).collect();
    assert_eq!(colours, vec![1, 3]);
    assert_eq!(succ[0].score, 3);
    assert_eq!(succ[1].score, 5);
    assert_eq!(succ[1].covered.count(), 5);
}

#[test]
fn step_skips_last_colour() {
    let b = board(2, 2, &[0, 1, 1, 2]);
    let root = play(&b, &[0]);
    let after = expand_coverage(&b, &root, 1);
    let succ = step(&b, &after, 1);
    assert_eq!(succ.len(), 1);
    assert_eq!(succ[0].colour, 2);
    assert_eq!(succ[0].score, 4);
}

#[test]
fn board_rejects_empty() {
    assert!(matches!(Board::new(0, 3, vec![]), Err(BoardError::Empty)));
    assert!(matches!(Board::new(3, 0, vec![]), Err(BoardError::Empty)));
}

#[test]
fn board_rejects_wrong_cell_count() {
    assert!(matches!(Board::new(2, 2, vec![0, 1, 2]), Err(BoardError::WrongCellCount)));
    assert!(matches!(Board::new(usize::MAX, 2, vec![0]), Err(BoardError::WrongCellCount)));
}

#[test]
fn board_rejects_colour_out_of_range() {
    assert!(matches!(Board::new(2, 1, vec![0, 6]), Err(BoardError::ColourOutOfRange)));
}

#[test]
fn board_reads_cells() {
    let b = board(3, 2, &[0, 1, 2, 3, 4, 5]);
    assert_eq!(b.get(2, 1), 5);
    assert_eq!(b.get(0, 1), 3);
    assert_eq!(b.get_raw(2), 2);
    assert_eq!(b.width(), 3);
    assert_eq!(b.height(), 2);
    assert_eq!(b.len(), 6);
}

#[test]
fn random_board_is_valid() {
    for _ in 0..20 {
        let b = Board::random(12, 12);
        assert_eq!(b.len(), 144);
        for p in 0..144 {
            assert!(b.get_raw(p) < COLOURS);
        }
        assert!(b.get(1, 0) == b.get(0, 0) || b.get(0, 1) == b.get(0, 0));
    }
}

#[test]
fn covered_bits_across_blocks() {
    let mut mask = Covered::new(200);
    assert_eq!(mask.count(), 1);
    assert!(mask.get_raw(0));
    mask.set_raw(63);
    mask.set_raw(64);
    mask.set(12, 5, 10);
    assert!(mask.get_raw(63));
    assert!(mask.get_raw(64));
    assert!(mask.get(12, 5, 10));
    assert!(mask.get_raw(125));
    assert!(!mask.get_raw(62));
    assert!(!mask.get_raw(199));
    assert_eq!(mask.count(), 4);
}

#[test]
fn tiny_vec_keeps_order() {
    let mut v = TinyVec::new();
    assert_eq!(v.len(), 0);
    for c in 0..MAX_MOVES {
        v.push((c % 6) as u8);
    }
    assert_eq!(v.len(), MAX_MOVES);
    assert_eq!(v.get(7), 1);
    let copy = v.copy();
    assert_eq!(copy.to_vec(), v.to_vec());
}

#[test]
fn glyphs() {
    assert_eq!(symbol(0), '-');
    assert_eq!(symbol(1), '#');
    assert_eq!(symbol(2), 'N');
    assert_eq!(symbol(3), 'o');
    assert_eq!(symbol(4), 'T');
    assert_eq!(symbol(5), 'v');
    assert_eq!(symbol(MARKER), ' ');
    let s: String = symbols(&vec![0, 5, 2]).into_iter().collect();
    assert_eq!(s, "-vN");
}

#[test]
fn reference_board_expansions() {
    let cells: [u8; 144] = [
        0, 0, 1, 1, 1, 0, 2, 5, 0, 2, 2, 4, 1, 5, 1, 1, 4, 1, 1, 5, 5, 5, 5, 5, 5, 3, 3, 1, 0,
        3, 0, 1, 4, 5, 1, 0, 2, 1, 1, 0, 2, 2, 5, 0, 0, 4, 4, 4, 1, 0, 3, 5, 4, 4, 1, 3, 0, 4,
        2, 1, 5, 0, 1, 2, 3, 2, 3, 2, 2, 3, 2, 3, 5, 2, 4, 0, 4, 4, 2, 1, 4, 0, 4, 1, 5, 5, 0,
        4, 3, 5, 5, 0, 5, 5, 2, 0, 0, 2, 4, 5, 0, 5, 5, 4, 4, 3, 3, 5, 0, 5, 4, 0, 4, 3, 4, 2,
        3, 0, 4, 2, 2, 5, 5, 1, 4, 2, 4, 1, 0, 1, 0, 4, 2, 1, 1, 2, 0, 1, 4, 5, 1, 0, 4, 2,
    ];
    let b = board(12, 12, &cells);
    let ex = play(&b, &[b.get(0, 0)]);
    assert_eq!(ex.count(), 2);
    let ex2 = expand_coverage(&b, &ex, 1);
    assert_eq!(ex2.count(), 9);
    let ex3 = expand_coverage(&b, &ex2, 0);
    assert!(ex3.count() >= ex2.count());
    let ex4 = expand_coverage(&b, &ex3, 1);
    assert!(ex4.count() >= ex3.count());
    assert!(b.remaining_colours(&ex4) <= 6);
}

#[test]
fn mark_and_repaint_region() {
    let b = board(3, 3, &[0, 0, 1, 0, 2, 1, 3, 3, 1]);
    let marked = b.clone().mark();
    assert_eq!(marked.marked_score(), 3);
    for p in [0usize, 1, 3] {
        assert_eq!(marked.get_raw(p), MARKER);
    }
    for p in [2usize, 4, 5, 6, 7, 8] {
        assert_eq!(marked.get_raw(p), b.get_raw(p));
    }
    let repainted = marked.marked_replace(1);
    let cells: Vec<u8> = (0..9).map(|p| repainted.get_raw(p)).collect();
    assert_eq!(cells, vec![1, 1, 1, 1, 2, 1, 3, 3, 1]);
    assert_eq!(repainted.marked_score(), 0);
    let next = repainted.mark();
    assert_eq!(next.marked_score(), 6);
    assert_eq!(expand_coverage(&b, &play(&b, &[0]), 1).count(), 6);
}

#[test]
fn mark_isolated_origin() {
    let b = board(2, 2, &[0, 1, 1, 2]);
    let marked = b.mark();
    assert_eq!(marked.marked_score(), 1);
    assert_eq!(marked.get_raw(0), MARKER);
    assert_eq!(marked.get_raw(3), 2);
}

#[test]
fn mark_whole_board() {
    let b = board(4, 3, &[5; 12]);
    let marked = b.mark();
    assert_eq!(marked.marked_score(), 12);
}

#[test]
fn neighbours_in_order_raw() {
    let b = board(12, 12, &[0; 144]);
    let mut onto: Vec<usize> = Vec::new();
    push_adjacents_raw(&b, &mut onto, 0);
    assert_eq!(onto, vec![1, 12]);
    let mut onto: Vec<usize> = vec![99];
    push_adjacents_raw(&b, &mut onto, 13);
    assert_eq!(onto, vec![99, 12, 1, 14, 25]);
    let mut onto: Vec<usize> = Vec::new();
    push_adjacents_raw(&b, &mut onto, 143);
    assert_eq!(onto, vec![142, 131]);
}

#[test]
fn neighbours_in_order_xy() {
    let b = board(12, 12, &[0; 144]);
    let mut onto: Vec<(usize, usize)> = Vec::new();
    push_adjacents(&b, &mut onto, 0, 0);
    assert_eq!(onto, vec![(1, 0), (0, 1)]);
    let mut onto: Vec<(usize, usize)> = Vec::new();
    push_adjacents(&b, &mut onto, 1, 1);
    assert_eq!(onto, vec![(0, 1), (1, 0), (2, 1), (1, 2)]);
    let mut onto: Vec<(usize, usize)> = Vec::new();
    push_adjacents(&b, &mut onto, 11, 11);
    assert_eq!(onto, vec![(10, 11), (11, 10)]);
}

#[test]
fn board_from_draws_copies_origin() {
    let draws: Vec<u8> = vec![3, 1, 2, 4, 5, 0];
    let down = Board::from_draws(3, 2, draws.clone(), true);
    let cells: Vec<u8> = (0..6).map(|p| down.get_raw(p)).collect();
    assert_eq!(cells, vec![3, 1, 2, 3, 5, 0]);
    let right = Board::from_draws(3, 2, draws, false);
    let cells: Vec<u8> = (0..6).map(|p| right.get_raw(p)).collect();
    assert_eq!(cells, vec![3, 3, 2, 4, 5, 0]);
}

#[test]
fn half_and_half_large_board() {
    let mut cells = vec![0u8; 72];
    cells.extend(vec![1u8; 72]);
    let b = board(12, 12, &cells);
    let reports = walk(&b);
    assert_eq!(reports.len(), 1);
    assert_eq!(reports[0].moves, vec![0, 1]);
    assert_eq!(reports[0].pending, 0);
}

#[test]
fn reported_moves_are_productive() {
    let cells: [u8; 16] = [0, 1, 2, 3, 3, 0, 1, 2, 2, 3, 0, 1, 1, 2, 3, 0];
    let b = board(4, 4, &cells);
    for r in walk(&b) {
        for i in 1..r.moves.len() {
            assert!(r.moves[i] < COLOURS);
            assert_ne!(r.moves[i], r.moves[i - 1]);
            assert!(play(&b, &r.moves[..i + 1]).count() > play(&b, &r.moves[..i]).count());
        }
    }
}

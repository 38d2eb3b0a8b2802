//! Recolouring the origin's region on the board itself: the region is first
//! marked, then painted over with the colour played.
use vstd::prelude::*;
use vstd::set_lib::*;
use vstd::arithmetic::div_mod::lemma_fundamental_div_mod_converse;

use crate::board::{Board, BoardModel, Colour, MARKER, lemma_cell_in_grid};
use crate::covered::{prefix_of, lemma_prefix_step};
use crate::flood::{closed, expansion, touches, if_on};

verus! {

/// The origin's region: the cells reached from the origin along cells of
/// the origin's colour, the origin included.
pub open spec fn region(b: BoardModel) -> Set<int> {
    expansion(b, set![0int], b.cells[0] as int)
}

/// The cells that hold `MARKER`.
pub open spec fn marked_cells(b: BoardModel) -> Set<int> {
    Set::new(|p: int| 0 <= p < b.len() && b.cells[p] == MARKER)
}

/// The index of the cell at column `t.0` and row `t.1`.
pub open spec fn at(b: BoardModel, t: (usize, usize)) -> int {
    t.0 + b.width * t.1
}

/// Where the neighbours of the cell at column `x` and row `y` lie.
proof fn lemma_xy(w: int, h: int, x: int, y: int)
    requires
        0 <= x < w,
        0 <= y < h,
    ensures
        0 <= x + w * y < w * h,
        (x + w * y) % w == x,
        ((x + w * y + 1) % w == 0) <==> (x + 1 == w),
        x + w * (y + 1) == x + w * y + w,
        (x + w * y + w < w * h) <==> (y + 1 < h),
        (x + w * y >= w) <==> (y > 0),
        y > 0 ==> x + w * (y - 1) == x + w * y - w,
{
    let p = x + w * y;
    lemma_cell_in_grid(w, h, x, y);
    lemma_fundamental_div_mod_converse(p, w, y, x);
    if x + 1 == w {
        assert(p + 1 == (y + 1) * w + 0) by (nonlinear_arith)
            requires
                p == x + w * y,
                x + 1 == w,
        ;
        lemma_fundamental_div_mod_converse(p + 1, w, y + 1, 0);
    } else {
        assert(p + 1 == y * w + (x + 1)) by (nonlinear_arith)
            requires
                p == x + w * y,
        ;
        lemma_fundamental_div_mod_converse(p + 1, w, y, x + 1);
    }
    assert(x + w * (y + 1) == p + w) by (nonlinear_arith)
        requires
            p == x + w * y,
    ;
    assert((p + w < w * h) <==> (y + 1 < h)) by (nonlinear_arith)
        requires
            p == x + w * y,
            0 <= x < w,
            0 <= y,
    ;
    assert((p >= w) <==> (y > 0)) by (nonlinear_arith)
        requires
            p == x + w * y,
            0 <= x < w,
            0 <= y,
    ;
    assert(y > 0 ==> x + w * (y - 1) == p - w) by (nonlinear_arith)
        requires
            p == x + w * y,
    ;
}

/// The neighbours of the cell at column `x` and row `y`, each once, in the
/// order left, up, right, down, leaving out those off the grid.
pub open spec fn neighbours(b: BoardModel, x: int, y: int) -> Seq<(usize, usize)> {
    if_on(x > 0, seq![((x - 1) as usize, y as usize)]) + if_on(y > 0, seq![(x as usize, (y - 1) as usize)])
        + if_on(x < b.width - 1, seq![((x + 1) as usize, y as usize)]) + if_on(
        y < b.height - 1,
        seq![(x as usize, (y + 1) as usize)],
    )
}

/// Appends the neighbours of the cell at column `x` and row `y` to `onto`:
/// left, up, right, down, each once and only where it lies on the grid.
#[verifier::rlimit(50)]
pub fn push_adjacents(board: &Board, onto: &mut Vec<(usize, usize)>, x: usize, y: usize)
    requires
        board@.shaped(),
        x < board@.width,
        y < board@.height,
    ensures
        final(onto)@ == old(onto)@ + neighbours(board@, x as int, y as int),
        final(onto)@.len() >= old(onto)@.len(),
        forall|i: int| 0 <= i < old(onto)@.len() ==> final(onto)@[i] == old(onto)@[i],
        forall|i: int|
            old(onto)@.len() <= i < final(onto)@.len() ==> (#[trigger] final(onto)@[i]).0 < board@.width
                && final(onto)@[i].1 < board@.height && board@.adjacent(
                x + board@.width * y,
                at(board@, final(onto)@[i]),
            ),
        forall|q: int|
            #[trigger] board@.adjacent(x + board@.width * y, q) ==> exists|i: int|
                old(onto)@.len() <= i < final(onto)@.len() && at(board@, final(onto)@[i]) == q,
{
    let ghost b = board@;
    let ghost p = x + b.width * y;
    let ghost start = onto@.len();
    let ghost onto_start = onto@;
    let width = board.width();
    let height = board.height();
    proof {
        lemma_xy(b.width as int, b.height as int, x as int, y as int);
    }
    if x > 0 {
        onto.push((x - 1, y));
    }
    let ghost s1 = onto@;
    if y > 0 {
        onto.push((x, y - 1));
    }
    let ghost s2 = onto@;
    if x < width - 1 {
        onto.push((x + 1, y));
    }
    let ghost s3 = onto@;
    if y < height - 1 {
        onto.push((x, y + 1));
    }
    proof {
        let xi = x as int;
        let yi = y as int;
        let a = if_on(xi > 0, seq![((xi - 1) as usize, y)]);
        let u = if_on(yi > 0, seq![(x, (yi - 1) as usize)]);
        let rt = if_on(xi < b.width - 1, seq![((xi + 1) as usize, y)]);
        assert(onto@ == onto_start + neighbours(b, xi, yi)) by {
            assert(s1 =~= onto_start + a);
            assert(s2 =~= onto_start + a + u);
            assert(s3 =~= onto_start + a + u + rt);
            assert(onto@ =~= onto_start + neighbours(b, xi, yi));
        }
        assert forall|i: int| start <= i < onto@.len() implies (#[trigger] onto@[i]).0 < b.width
            && onto@[i].1 < b.height && b.adjacent(p, at(b, onto@[i])) by {
            if y > 0 {
                assert(x + b.width * (y - 1) == p - b.width);
            }
        }
        assert forall|q: int| #[trigger] b.adjacent(p, q) implies exists|i: int|
            start <= i < onto@.len() && at(b, onto@[i]) == q by {
            if q == p - b.width {
                assert(at(b, onto@[s2.len() - 1]) == q);
            } else if q == p + b.width {
                assert(at(b, onto@[onto@.len() - 1]) == q);
            } else if q == p - 1 {
                assert(at(b, onto@[s1.len() - 1]) == q);
            } else {
                assert(at(b, onto@[s3.len() - 1]) == q);
            }
        }
    }
}

/// Some entry of `todo` stands for the cell `q`.
pub open spec fn in_todo(b: BoardModel, todo: Seq<(usize, usize)>, q: int) -> bool {
    exists|i: int| 0 <= i < todo.len() && at(b, todo[i]) == q
}

impl Board {
    /// The board with the origin's region marked: each cell of
    /// `region(self@)` holds `MARKER`, every other cell its own colour.
    pub fn mark(self) -> (r: Board)
        requires
            self.wf(),
        ensures
            r@.width == self@.width,
            r@.height == self@.height,
            r@.cells.len() == self@.cells.len(),
            forall|p: int|
                0 <= p < self@.len() ==> #[trigger] r@.cells[p] == if region(self@).contains(p) {
                    MARKER
                } else {
                    self@.cells[p]
                },
            marked_cells(r@) == region(self@),
    {
        let ghost b = self@;
        let mut board = self;
        proof {
            lemma_cell_in_grid(b.width as int, b.height as int, 0, 0);
        }
        let src = board.get_raw(0);
        let ghost n = b.len();
        let ghost c = src as int;
        let ghost mut marked: Set<int> = Set::empty();
        let mut todo: Vec<(usize, usize)> = Vec::new();
        proof {
            lemma_int_range(0, n);
        }
        todo.push((0, 0));
        assert(at(b, todo@[0]) == 0);
        while todo.len() > 0
            invariant
                b.wf(),
                c == b.cells[0],
                src == b.cells[0],
                n == b.len(),
                board@.width == b.width,
                board@.height == b.height,
                board@.cells.len() == n,
                forall|p: int|
                    0 <= p < n ==> #[trigger] board@.cells[p] == if marked.contains(p) {
                        MARKER
                    } else {
                        b.cells[p]
                    },
                marked.subset_of(b.all_cells()),
                marked.finite(),
                set_int_range(0, n).finite(),
                forall|i: int|
                    0 <= i < todo@.len() ==> (#[trigger] todo@[i]).0 < b.width && todo@[i].1 < b.height
                        && (at(b, todo@[i]) == 0 || touches(b, marked, at(b, todo@[i]))),
                forall|p: int, q: int|
                    marked.contains(p) && #[trigger] b.adjacent(p, q) && b.cells[q] == c
                        ==> marked.contains(q) || in_todo(b, todo@, q),
                marked.contains(0) || in_todo(b, todo@, 0),
                forall|s: Set<int>|
                    #[trigger] closed(b, s, c) && set![0int].subset_of(s) ==> marked.subset_of(s),
            decreases n - marked.len(), todo@.len(),
        {
            let ghost todo0 = todo@;
            let (x, y) = todo.pop().unwrap();
            let ghost p = x + b.width * y;
            proof {
                lemma_xy(b.width as int, b.height as int, x as int, y as int);
                lemma_len_subset(marked, set_int_range(0, n));
                assert(at(b, todo0[todo0.len() - 1]) == p);
                assert forall|q: int| in_todo(b, todo0, q) && q != p implies in_todo(b, todo@, q) by {
                    let i = choose|i: int| 0 <= i < todo0.len() && at(b, todo0[i]) == q;
                    assert(todo@[i] == todo0[i]);
                }
                assert forall|i: int| 0 <= i < todo@.len() implies (#[trigger] todo@[i]).0 < b.width
                    && todo@[i].1 < b.height && (at(b, todo@[i]) == 0 || touches(b, marked, at(b, todo@[i]))) by {
                    assert(todo@[i] == todo0[i]);
                }
            }
            if board.get(x, y) != src {
                proof {
                    assert(marked.contains(p) || b.cells[p] != c);
                    assert forall|pp: int, q: int|
                        marked.contains(pp) && #[trigger] b.adjacent(pp, q) && b.cells[q] == c implies
                        marked.contains(q) || in_todo(b, todo@, q) by {
                        if !marked.contains(q) && q != p {
                            assert(in_todo(b, todo0, q));
                        }
                    }
                }
                continue;
            }
            let ghost todo1 = todo@;
            let ghost bm = board@;
            push_adjacents(&board, &mut todo, x, y);
            board.set(x, y, MARKER);
            proof {
                assert forall|q: int| #[trigger] b.adjacent(p, q) implies exists|i: int|
                    todo1.len() <= i < todo@.len() && at(b, todo@[i]) == q by {
                    assert(bm.adjacent(p, q));
                }
                assert forall|i: int| todo1.len() <= i < todo@.len() implies b.adjacent(p, at(b, #[trigger] todo@[i])) by {
                    assert(bm.adjacent(p, at(bm, todo@[i])));
                }
                let old_marked = marked;
                assert(!old_marked.contains(p));
                assert(b.cells[p] == c);
                marked = marked.insert(p);
                assert forall|s: Set<int>| #[trigger] closed(b, s, c) && set![0int].subset_of(s) implies marked.subset_of(s) by {
                    if p != 0 {
                        let from = choose|pp: int| old_marked.contains(pp) && #[trigger] b.adjacent(pp, p);
                        assert(s.contains(from));
                        assert(s.contains(p));
                    } else {
                        assert(set![0int].contains(0));
                    }
                }
                assert forall|i: int| 0 <= i < todo@.len() implies (#[trigger] todo@[i]).0 < b.width
                    && todo@[i].1 < b.height && (at(b, todo@[i]) == 0 || touches(b, marked, at(b, todo@[i]))) by {
                    if i < todo1.len() {
                        assert(todo@[i] == todo1[i]);
                        if at(b, todo1[i]) != 0 {
                            let via = choose|pp: int| old_marked.contains(pp) && #[trigger] b.adjacent(pp, at(b, todo1[i]));
                            assert(marked.contains(via));
                        }
                    } else {
                        assert(b.adjacent(p, at(b, todo@[i])));
                        assert(marked.contains(p));
                    }
                }
                assert forall|q: int| in_todo(b, todo1, q) implies in_todo(b, todo@, q) by {
                    let i = choose|i: int| 0 <= i < todo1.len() && at(b, todo1[i]) == q;
                    assert(todo@[i] == todo1[i]);
                }
                assert forall|pp: int, q: int|
                    marked.contains(pp) && #[trigger] b.adjacent(pp, q) && b.cells[q] == c implies
                    marked.contains(q) || in_todo(b, todo@, q) by {
                    if pp == p {
                        let i = choose|i: int| todo1.len() <= i < todo@.len() && at(b, todo@[i]) == q;
                    } else if !marked.contains(q) {
                        assert(in_todo(b, todo0, q));
                    }
                }
                assert(marked.contains(0) || in_todo(b, todo@, 0)) by {
                    if !marked.contains(0) {
                        assert(in_todo(b, todo0, 0));
                    }
                }
                assert(marked.len() == old_marked.len() + 1);
                assert(marked.subset_of(set_int_range(0, n)));
                lemma_int_range(0, n);
                lemma_len_subset(marked, set_int_range(0, n));
            }
        }
        proof {
            let e = region(b);
            assert(marked.contains(0));
            assert(closed(b, marked, c));
            assert forall|p: int| marked.contains(p) implies e.contains(p) by {
                assert forall|s: Set<int>| #[trigger] closed(b, s, c) && set![0int].subset_of(s) implies s.contains(p) by {
                }
            }
            assert forall|p: int| e.contains(p) implies marked.contains(p) by {
                assert(set![0int].subset_of(marked));
                assert(closed(b, marked, c) && set![0int].subset_of(marked));
            }
            assert(marked =~= e);
            assert(marked_cells(board@) =~= e);
        }
        board
    }

    /// The board with every marked cell painted `target`.
    pub fn marked_replace(self, target: Colour) -> (r: Board)
        ensures
            r@.width == self@.width,
            r@.height == self@.height,
            r@.cells.len() == self@.cells.len(),
            forall|p: int|
                0 <= p < self@.len() ==> #[trigger] r@.cells[p] == if self@.cells[p] == MARKER {
                    target
                } else {
                    self@.cells[p]
                },
    {
        let ghost b = self@;
        let mut board = self;
        let n = board.len();
        let mut pos: usize = 0;
        while pos < n
            invariant
                n == b.len(),
                pos <= n,
                board@.width == b.width,
                board@.height == b.height,
                board@.cells.len() == n,
                forall|p: int|
                    0 <= p < n ==> #[trigger] board@.cells[p] == if p < pos && b.cells[p] == MARKER {
                        target
                    } else {
                        b.cells[p]
                    },
            decreases n - pos,
        {
            if board.get_raw(pos) == MARKER {
                board.set_raw(pos, target);
            }
            pos = pos + 1;
        }
        board
    }

    /// The number of marked cells.
    pub fn marked_score(&self) -> (r: usize)
        ensures
            r == marked_cells(self@).len(),
    {
        let ghost m = marked_cells(self@);
        let n = self.len();
        let mut count: usize = 0;
        let mut pos: usize = 0;
        assert(prefix_of(m, 0) =~= Set::empty());
        while pos < n
            invariant
                m == marked_cells(self@),
                n == self@.len(),
                pos <= n,
                count == prefix_of(m, pos as int).len(),
                count <= pos,
            decreases n - pos,
        {
            proof {
                lemma_prefix_step(m, pos as int);
            }
            if self.get_raw(pos) == MARKER {
                count = count + 1;
            }
            pos = pos + 1;
        }
        assert(prefix_of(m, n as int) =~= m);
        count
    }
}

} // verus!

//! Region expansion: growing a coverage mask through the cells of one colour.
use vstd::prelude::*;
use vstd::arithmetic::div_mod::{
    lemma_fundamental_div_mod, lemma_fundamental_div_mod_converse, lemma_mod_pos_bound,
};

use crate::board::{Board, BoardModel, Colour};
use crate::covered::Covered;

verus! {

/// No cell of colour `c` next to a cell of `s` lies outside `s`.
pub open spec fn closed(b: BoardModel, s: Set<int>, c: int) -> bool {
    forall|p: int, q: int|
        s.contains(p) && #[trigger] b.adjacent(p, q) && b.cells[q] == c ==> s.contains(q)
}

/// The mask `m` flooded with colour `c`: the least set that holds `m` and is
/// closed under stepping to a neighbouring cell of colour `c`, that is, `m`
/// together with every cell reached from it along a path of cells of colour `c`.
pub open spec fn expansion(b: BoardModel, m: Set<int>, c: int) -> Set<int> {
    Set::new(
        |p: int|
            forall|s: Set<int>| #[trigger] closed(b, s, c) && m.subset_of(s) ==> s.contains(p),
    )
}

/// Cell `q` shares an edge with a cell of `s`.
pub open spec fn touches(b: BoardModel, s: Set<int>, q: int) -> bool {
    exists|p: int| s.contains(p) && #[trigger] b.adjacent(p, q)
}

/// The cell after `pos` starts a new row exactly when `pos` ends one, and
/// lies on the grid when `pos` does not end its row.
proof fn lemma_next_col(pos: int, w: int, h: int)
    requires
        0 <= pos < w * h,
        w >= 1,
    ensures
        ((pos + 1) % w == 0) <==> (pos % w == w - 1),
        pos % w != w - 1 ==> pos + 1 < w * h,
        pos == 0 ==> pos % w == 0,
{
    lemma_fundamental_div_mod(pos, w);
    lemma_mod_pos_bound(pos, w);
    lemma_fundamental_div_mod_converse(0, w, 0, 0);
    let q = pos / w;
    let r = pos % w;
    assert(r != w - 1 ==> pos + 1 < w * h) by (nonlinear_arith)
        requires
            pos == w * q + r,
            0 <= r < w,
            pos < w * h,
    ;
    if r == w - 1 {
        assert(pos + 1 == (q + 1) * w + 0) by (nonlinear_arith)
            requires
                pos == w * q + r,
                r == w - 1,
        ;
        lemma_fundamental_div_mod_converse(pos + 1, w, q + 1, 0);
    } else {
        assert(pos + 1 == q * w + (r + 1)) by (nonlinear_arith)
            requires
                pos == w * q + r,
        ;
        lemma_fundamental_div_mod_converse(pos + 1, w, q, r + 1);
    }
}

/// `s` if `cond` holds, else nothing.
pub open spec fn if_on<T>(cond: bool, s: Seq<T>) -> Seq<T> {
    if cond {
        s
    } else {
        Seq::empty()
    }
}

/// The neighbours of the cell at `pos`, each once, in the order left, up,
/// right, down, leaving out those off the grid.
pub open spec fn neighbours_raw(b: BoardModel, pos: int) -> Seq<usize> {
    let w = b.width as int;
    if_on(pos % w > 0, seq![(pos - 1) as usize]) + if_on(pos >= w, seq![(pos - w) as usize]) + if_on(
        pos % w < w - 1,
        seq![(pos + 1) as usize],
    ) + if_on(pos + w < b.len(), seq![(pos + w) as usize])
}

/// Appends the neighbours of the cell at `pos` to `onto`: left, up, right,
/// down, each once and only where it lies on the grid.
pub fn push_adjacents_raw(board: &Board, onto: &mut Vec<usize>, pos: usize)
    requires
        board.wf(),
        pos < board@.len(),
    ensures
        final(onto)@ == old(onto)@ + neighbours_raw(board@, pos as int),
        final(onto)@.len() >= old(onto)@.len(),
        forall|i: int| 0 <= i < old(onto)@.len() ==> final(onto)@[i] == old(onto)@[i],
        forall|i: int|
            old(onto)@.len() <= i < final(onto)@.len() ==> board@.adjacent(
                pos as int,
                #[trigger] final(onto)@[i] as int,
            ),
        forall|q: int| #[trigger] board@.adjacent(pos as int, q) ==> final(onto)@.contains(q as usize),
{
    let ghost start = onto@;
    let width = board.width();
    let size = board.len();
    let x = pos % width;
    proof {
        lemma_next_col(pos as int, width as int, board@.height as int);
    }
    if x > 0 {
        onto.push(pos - 1);
    }
    let ghost s1 = onto@;
    if pos >= width {
        onto.push(pos - width);
    }
    let ghost s2 = onto@;
    if x + 1 < width {
        onto.push(pos + 1);
    }
    let ghost s3 = onto@;
    if width < size - pos {
        onto.push(pos + width);
    }
    proof {
        let w = width as int;
        let p = pos as int;
        assert(s1 =~= start + if_on(p % w > 0, seq![(p - 1) as usize]));
        assert(s2 =~= start + if_on(p % w > 0, seq![(p - 1) as usize]) + if_on(p >= w, seq![(p - w) as usize]));
        assert(s3 =~= start + if_on(p % w > 0, seq![(p - 1) as usize]) + if_on(p >= w, seq![(p - w) as usize])
            + if_on(p % w < w - 1, seq![(p + 1) as usize]));
        assert(onto@ =~= start + neighbours_raw(board@, p));
        assert forall|q: int| #[trigger] board@.adjacent(pos as int, q) implies onto@.contains(
            q as usize,
        ) by {
            if q == pos - width {
                assert(s2[s2.len() - 1] == q);
                assert(onto@[s2.len() - 1] == q);
            } else if q == pos + width {
                assert(onto@[onto@.len() - 1] == q);
            } else if q == pos - 1 {
                assert(s1[s1.len() - 1] == q);
                assert(onto@[s1.len() - 1] == q);
            } else {
                assert(s3[s3.len() - 1] == q);
                assert(onto@[s3.len() - 1] == q);
            }
        }
    }
}

/// Whether the cell at `pos` shares an edge with a covered cell.
fn touches_covered(board: &Board, coverage: &Covered, pos: usize) -> (r: bool)
    requires
        board.wf(),
        coverage.wf(),
        coverage.size() == board@.len(),
        pos < board@.len(),
    ensures
        r == touches(board@, coverage@, pos as int),
{
    let width = board.width();
    let size = board.len();
    let x = pos % width;
    proof {
        lemma_next_col(pos as int, width as int, board@.height as int);
    }
    let r = (x > 0 && coverage.get_raw(pos - 1)) || (x + 1 < width && coverage.get_raw(pos + 1)) || (
    pos >= width && coverage.get_raw(pos - width)) || (width < size - pos && coverage.get_raw(
        pos + width,
    ));
    proof {
        let b = board@;
        let q = pos as int;
        if r {
            if x > 0 && coverage@.contains(q - 1) {
                assert(b.adjacent(q - 1, q));
            } else if x + 1 < width && coverage@.contains(q + 1) {
                assert(b.adjacent(q + 1, q));
            } else if q >= width && coverage@.contains(q - width) {
                assert(b.adjacent(q - width, q));
            } else {
                assert(b.adjacent(q + width, q));
            }
        }
    }
    r
}

/// Floods `coverage` with `colour`: afterwards it is its expansion through
/// the cells of that colour. A colour that adds no cell leaves every storage
/// bit as it was.
pub fn fill2(board: &Board, coverage: &mut Covered, colour: Colour)
    requires
        board.wf(),
        old(coverage).wf(),
        old(coverage).size() == board@.len(),
    ensures
        final(coverage).wf(),
        final(coverage).size() == old(coverage).size(),
        final(coverage)@ == expansion(board@, old(coverage)@, colour as int),
        final(coverage)@ == old(coverage)@ ==> final(coverage).blocks() == old(coverage).blocks(),
{
    let ghost b = board@;
    let ghost m = coverage@;
    let ghost orig = *coverage;
    let ghost c = colour as int;
    let size = board.len();
    let mut todo: Vec<usize> = Vec::new();
    let mut pos: usize = 0;
    while pos < size
        invariant
            b == board@,
            c == colour as int,
            b.wf(),
            size == b.len(),
            coverage.wf(),
            coverage.size() == size,
            *coverage == orig,
            m == coverage@,
            pos <= size,
            forall|i: int|
                0 <= i < todo@.len() ==> #[trigger] todo@[i] < size && touches(
                    b,
                    m,
                    todo@[i] as int,
                ),
            forall|q: int|
                0 <= q < pos && !m.contains(q) && b.cells[q] == c && #[trigger] touches(b, m, q)
                    ==> todo@.contains(q as usize),
        decreases size - pos,
    {
        let ghost todo0 = todo@;
        let add = !coverage.get_raw(pos) && board.get_raw(pos) == colour && touches_covered(
            board,
            coverage,
            pos,
        );
        if add {
            todo.push(pos);
            assert(todo@[todo@.len() - 1] == pos);
        }
        proof {
            assert forall|q: int|
                0 <= q < pos + 1 && !m.contains(q) && b.cells[q] == c && #[trigger] touches(b, m, q)
                    implies todo@.contains(q as usize) by {
                if q < pos {
                    assert(todo0.contains(q as usize));
                    let i = choose|i: int| 0 <= i < todo0.len() && todo0[i] == q as usize;
                    assert(todo@[i] == q as usize);
                } else {
                    assert(todo@[todo@.len() - 1] == pos);
                }
            }
        }
        pos = pos + 1;
    }
    proof {
        assert forall|p: int, q: int|
            coverage@.contains(p) && #[trigger] b.adjacent(p, q) && b.cells[q] == c implies
            coverage@.contains(q) || todo@.contains(q as usize) by {
            if !coverage@.contains(q) {
                assert(touches(b, m, q));
            }
        }
        coverage.lemma_bounded();
    }
    while todo.len() > 0
        invariant
            b == board@,
            c == colour as int,
            b.wf(),
            size == b.len(),
            coverage.wf(),
            coverage.size() == size,
            m.subset_of(coverage@),
            coverage@.finite(),
            forall|i: int|
                0 <= i < todo@.len() ==> #[trigger] todo@[i] < size && touches(
                    b,
                    coverage@,
                    todo@[i] as int,
                ),
            forall|p: int, q: int|
                coverage@.contains(p) && #[trigger] b.adjacent(p, q) && b.cells[q] == c
                    ==> coverage@.contains(q) || todo@.contains(q as usize),
            forall|s: Set<int>| #[trigger] closed(b, s, c) && m.subset_of(s) ==> coverage@.subset_of(s),
            coverage@ == m ==> coverage.blocks() == orig.blocks(),
        decreases size - coverage@.len(), todo@.len(),
    {
        let ghost before = coverage@;
        let ghost todo0 = todo@;
        let pos = todo.pop().unwrap();
        proof {
            coverage.lemma_bounded();
            assert forall|q: usize| todo0.contains(q) && q != pos implies todo@.contains(q) by {
                let i = choose|i: int| 0 <= i < todo0.len() && todo0[i] == q;
                assert(todo@[i] == q);
            }
            assert forall|i: int| 0 <= i < todo@.len() implies #[trigger] todo@[i] < size && touches(
                b,
                coverage@,
                todo@[i] as int,
            ) by {
                assert(todo@[i] == todo0[i]);
            }
        }
        if coverage.get_raw(pos) || board.get_raw(pos) != colour {
            proof {
                assert forall|p: int, q: int|
                    coverage@.contains(p) && #[trigger] b.adjacent(p, q) && b.cells[q] == c implies
                    coverage@.contains(q) || todo@.contains(q as usize) by {
                    if !coverage@.contains(q) && q != pos as int {
                        assert(todo0.contains(q as usize));
                    }
                }
            }
            continue;
        }
        assert(touches(b, before, pos as int)) by {
            assert(todo0[todo0.len() - 1] == pos);
        }
        coverage.set_raw(pos);
        let ghost todo1 = todo@;
        push_adjacents_raw(board, &mut todo, pos);
        proof {
            let from = choose|p: int| before.contains(p) && #[trigger] b.adjacent(p, pos as int);
            assert forall|s: Set<int>| #[trigger] closed(b, s, c) && m.subset_of(s) implies coverage@.subset_of(s) by {
                assert(s.contains(from));
                assert(b.adjacent(from, pos as int));
                assert(b.cells[pos as int] == c);
                assert(s.contains(pos as int));
            }
            assert forall|i: int| 0 <= i < todo@.len() implies #[trigger] todo@[i] < size && touches(
                b,
                coverage@,
                todo@[i] as int,
            ) by {
                if i < todo1.len() {
                    assert(todo@[i] == todo1[i]);
                    let via = choose|p: int| before.contains(p) && #[trigger] b.adjacent(p, todo1[i] as int);
                    assert(coverage@.contains(via));
                } else {
                    assert(b.adjacent(pos as int, todo@[i] as int));
                    assert(coverage@.contains(pos as int));
                }
            }
            assert forall|q: usize| todo1.contains(q) implies todo@.contains(q) by {
                let i = choose|i: int| 0 <= i < todo1.len() && todo1[i] == q;
                assert(todo@[i] == q);
            }
            assert(!before.contains(pos as int));
            assert(coverage@ != m) by {
                assert(!m.contains(pos as int));
            }
            lemma_insert_len(before, pos as int);
            coverage.lemma_bounded();
        }
    }
    proof {
        let f = coverage@;
        let e = expansion(b, m, c);
        assert(closed(b, f, c));
        assert forall|p: int| f.contains(p) implies e.contains(p) by {
            assert forall|s: Set<int>| #[trigger] closed(b, s, c) && m.subset_of(s) implies s.contains(p) by {
            }
        }
        assert forall|p: int| e.contains(p) implies f.contains(p) by {
            assert(closed(b, f, c) && m.subset_of(f));
        }
        assert(f =~= e);
    }
}

proof fn lemma_insert_len(s: Set<int>, x: int)
    requires
        s.finite(),
        !s.contains(x),
    ensures
        s.insert(x).len() == s.len() + 1,
{
}

/// A copy of `coverage` flooded with `colour`; `coverage` itself is left as it is.
pub fn expand_coverage(board: &Board, coverage: &Covered, colour: Colour) -> (r: Covered)
    requires
        board.wf(),
        coverage.wf(),
        coverage.size() == board@.len(),
    ensures
        r.wf(),
        r.size() == coverage.size(),
        r@ == expansion(board@, coverage@, colour as int),
        r@ == coverage@ ==> r.blocks() == coverage.blocks(),
{
    let mut new = coverage.copy();
    fill2(board, &mut new, colour);
    new
}

} // verus!

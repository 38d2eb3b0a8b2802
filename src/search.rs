//! The search engine: best-first branch and bound over move lists.
use vstd::prelude::*;
use vstd::arithmetic::power::{pow, lemma_pow_positive};
use vstd::set_lib::*;

use crate::board::{Board, BoardModel, Colour, COLOURS};
use crate::covered::Covered;
use crate::flood::{closed, expand_coverage, expansion};
use crate::laws::{lemma_bound_admissible, lemma_expansion_idempotent};
use crate::moves::{TinyVec, MAX_MOVES};

verus! {

/// The priority of a search state: the number of cells it covers.
pub type Score = usize;

/// The mask that covers the origin cell alone.
pub open spec fn origin() -> Set<int> {
    set![0int]
}

/// The cells covered once `moves` are played, in order, from the mask `m`.
pub open spec fn play(b: BoardModel, m: Set<int>, moves: Seq<Colour>) -> Set<int>
    decreases moves.len(),
{
    if moves.len() == 0 {
        m
    } else {
        expansion(b, play(b, m, moves.drop_last()), moves.last() as int)
    }
}

/// `moves` opens with the origin's own colour and, played from the origin,
/// covers the whole board.
pub open spec fn is_solution(b: BoardModel, moves: Seq<Colour>) -> bool {
    &&& moves.len() >= 1
    &&& moves[0] == b.cells[0]
    &&& play(b, origin(), moves) == b.all_cells()
}

/// The move at `i` covers cells that the moves before it left uncovered.
pub open spec fn grows(b: BoardModel, moves: Seq<Colour>, i: int) -> bool {
    play(b, origin(), moves.take(i + 1)) != play(b, origin(), moves.take(i))
}

/// Every move of `moves` is a colour below `COLOURS`, and each after the
/// first differs from the move before it and grows the covered cells.
pub open spec fn productive(b: BoardModel, moves: Seq<Colour>) -> bool {
    &&& forall|i: int| 0 <= i < moves.len() ==> #[trigger] moves[i] < COLOURS
    &&& forall|i: int| 1 <= i < moves.len() ==> #[trigger] moves[i] != moves[i - 1]
    &&& forall|i: int| 1 <= i < moves.len() ==> #[trigger] grows(b, moves, i)
}

/// A productive move list stays productive when a move is added that
/// differs from its last and grows what it covers.
pub proof fn lemma_productive_push(b: BoardModel, moves: Seq<Colour>, c: Colour)
    requires
        moves.len() >= 1,
        productive(b, moves),
        c < COLOURS,
        c != moves.last(),
        expansion(b, play(b, origin(), moves), c as int) != play(b, origin(), moves),
    ensures
        productive(b, moves.push(c)),
{
    let m2 = moves.push(c);
    assert(m2.drop_last() =~= moves);
    assert forall|i: int| 0 <= i < m2.len() implies #[trigger] m2[i] < COLOURS by {
        if i < moves.len() {
            assert(m2[i] == moves[i]);
        }
    }
    assert forall|i: int| 1 <= i < m2.len() implies #[trigger] m2[i] != m2[i - 1] by {
        if i < moves.len() {
            assert(m2[i] == moves[i] && m2[i - 1] == moves[i - 1]);
        } else {
            assert(m2[i] == c && m2[i - 1] == moves.last());
        }
    }
    assert forall|i: int| 1 <= i < m2.len() implies #[trigger] grows(b, m2, i) by {
        if i < moves.len() {
            assert(m2.take(i + 1) =~= moves.take(i + 1));
            assert(m2.take(i) =~= moves.take(i));
            assert(grows(b, moves, i));
        } else {
            assert(m2.take(i + 1) =~= m2);
            assert(m2.take(i) =~= moves);
            assert(play(b, origin(), m2) == expansion(b, play(b, origin(), moves), c as int));
        }
    }
}

/// A mask that grows from a parent mask by one move.
pub struct Successor {
    /// The number of cells covered.
    pub score: Score,
    /// The colour played.
    pub colour: Colour,
    /// The cells covered after the move.
    pub covered: Covered,
}

/// `s` is the productive move `s.colour` from the mask `m`, which was
/// reached by playing `last`.
pub open spec fn successor_of(b: BoardModel, m: Set<int>, last: Colour, s: Successor) -> bool {
    &&& s.colour < COLOURS
    &&& s.colour != last
    &&& s.covered.wf()
    &&& s.covered.size() == b.len()
    &&& s.covered@ == expansion(b, m, s.colour as int)
    &&& s.covered@ != m
    &&& s.score == s.covered@.len()
}

/// A subset of a finite set with as many members is the set itself.
pub proof fn lemma_subset_same_len(a: Set<int>, s: Set<int>)
    requires
        s.finite(),
        a.subset_of(s),
        a.len() == s.len(),
    ensures
        a == s,
{
    lemma_len_subset(a, s);
    if exists|x: int| s.contains(x) && !a.contains(x) {
        let x = choose|x: int| s.contains(x) && !a.contains(x);
        lemma_len_subset(a.insert(x), s);
    }
    assert(a =~= s);
}

/// Every colour other than `last` that grows `covered`, in increasing order,
/// with the mask it leads to.
pub fn step(board: &Board, covered: &Covered, last: Colour) -> (r: Vec<Successor>)
    requires
        board.wf(),
        covered.wf(),
        covered.size() == board@.len(),
        last < COLOURS,
    ensures
        r@.len() < COLOURS,
        forall|i: int| 0 <= i < r@.len() ==> successor_of(board@, covered@, last, #[trigger] r@[i]),
        forall|i: int, j: int| 0 <= i < j < r@.len() ==> r@[i].colour < r@[j].colour,
        forall|k: Colour|
            k < COLOURS && k != last && #[trigger] expansion(board@, covered@, k as int)
                != covered@ ==> exists|i: int| 0 <= i < r@.len() && r@[i].colour == k,
{
    let ghost b = board@;
    let ghost m = covered@;
    let init_score = covered.count();
    let mut r: Vec<Successor> = Vec::new();
    let mut colour: Colour = 0;
    while colour < COLOURS
        invariant
            b == board@,
            m == covered@,
            b.wf(),
            covered.wf(),
            covered.size() == b.len(),
            last < COLOURS,
            init_score == m.len(),
            colour <= COLOURS,
            r@.len() <= colour,
            last < colour ==> r@.len() < colour,
            forall|i: int| 0 <= i < r@.len() ==> successor_of(b, m, last, #[trigger] r@[i]),
            forall|i: int| 0 <= i < r@.len() ==> #[trigger] r@[i].colour < colour,
            forall|i: int, j: int| 0 <= i < j < r@.len() ==> r@[i].colour < r@[j].colour,
            forall|k: Colour|
                k < colour && k != last && #[trigger] expansion(b, m, k as int) != m ==> exists|
                    i: int,
                | 0 <= i < r@.len() && r@[i].colour == k,
        decreases COLOURS - colour,
    {
        if colour != last {
            let cand = expand_coverage(board, covered, colour);
            let new_score = cand.count();
            proof {
                cand.lemma_bounded();
                if new_score == init_score {
                    lemma_subset_same_len(m, cand@);
                }
            }
            let ghost r0 = r@;
            proof {
                lemma_len_subset(m, cand@);
            }
            if new_score > init_score {
                r.push(Successor { score: new_score, colour, covered: cand });
                assert(r@[r@.len() - 1].colour == colour);
            }
            proof {
                assert forall|k: Colour|
                    k < colour + 1 && k != last && #[trigger] expansion(b, m, k as int) != m implies exists|
                        i: int,
                    | 0 <= i < r@.len() && r@[i].colour == k by {
                    if k < colour {
                        let i = choose|i: int| 0 <= i < r0.len() && r0[i].colour == k;
                        assert(r@[i] == r0[i]);
                    } else {
                        assert(r@[r@.len() - 1].colour == colour);
                    }
                }
            }
        }
        colour = colour + 1;
    }
    r
}

/// A complete move list found by the search, with the number of states still
/// waiting in the queue when it was found.
pub struct Solution {
    pub moves: Vec<Colour>,
    pub pending: usize,
}

/// A partial solution waiting in the queue.
struct State {
    score: Score,
    moves: TinyVec,
    covered: Covered,
}

/// `s` holds a move list that opens with the origin's colour, the mask it
/// covers, and that mask's size, and the board is not yet covered.
spec fn state_ok(b: BoardModel, s: State) -> bool {
    &&& s.covered.wf()
    &&& s.covered.size() == b.len()
    &&& s.moves.wf()
    &&& s.moves@.len() >= 1
    &&& s.moves@[0] == b.cells[0]
    &&& s.moves@.last() < COLOURS
    &&& productive(b, s.moves@)
    &&& s.covered@ == play(b, origin(), s.moves@)
    &&& s.score == s.covered@.len()
    &&& s.covered@ != b.all_cells()
    &&& expansion(b, s.covered@, s.moves@.last() as int) == s.covered@
}

/// Some continuation of the mask of `s`, reached with `len` moves, finishes
/// the board within `t` moves in all.
spec fn succ_reaches(b: BoardModel, s: Successor, len: int, t: int) -> bool {
    exists|rest: Seq<Colour>|
        len + rest.len() <= t && #[trigger] play(b, s.covered@, rest) == b.all_cells()
}

/// Some continuation of the state `s` finishes the board within `t` moves in all.
spec fn reaches(b: BoardModel, s: State, t: int) -> bool {
    exists|rest: Seq<Colour>|
        s.moves@.len() + rest.len() <= t && #[trigger] play(b, s.covered@, rest) == b.all_cells()
}

/// Every solution shorter than `best` continues one of the queued states.
spec fn all_reached(b: BoardModel, todo: Seq<State>, best: int) -> bool {
    forall|cs: Seq<Colour>|
        #[trigger] is_solution(b, cs) && cs.len() < best ==> exists|i: int|
            0 <= i < todo.len() && #[trigger] reaches(b, todo[i], cs.len() as int)
}

/// Playing `a` and then `c` covers what playing `c` from the mask that `a`
/// reached covers.
pub proof fn lemma_play_append(b: BoardModel, m: Set<int>, a: Seq<Colour>, c: Seq<Colour>)
    ensures
        play(b, m, a + c) == play(b, play(b, m, a), c),
    decreases c.len(),
{
    if c.len() == 0 {
        assert(a + c =~= a);
    } else {
        lemma_play_append(b, m, a, c.drop_last());
        assert((a + c).drop_last() =~= a + c.drop_last());
        assert((a + c).last() == c.last());
    }
}

/// A move list that finishes the board from an incomplete mask has a first
/// productive move, after which fewer moves finish it.
proof fn lemma_first_productive(b: BoardModel, m: Set<int>, rest: Seq<Colour>) -> (r: (
    Colour,
    Seq<Colour>,
))
    requires
        play(b, m, rest) == b.all_cells(),
        m != b.all_cells(),
    ensures
        expansion(b, m, r.0 as int) != m,
        r.1.len() < rest.len(),
        play(b, expansion(b, m, r.0 as int), r.1) == b.all_cells(),
    decreases rest.len(),
{
    if rest.len() == 0 {
        assert(false);
        (0, rest)
    } else {
        let c = rest[0];
        let tail = rest.drop_first();
        assert(rest =~= seq![c] + tail);
        lemma_play_append(b, m, seq![c], tail);
        assert(seq![c].drop_last() =~= Seq::<Colour>::empty());
        assert(play(b, m, Seq::<Colour>::empty()) == m);
        assert(play(b, m, seq![c]) == expansion(b, m, c as int));
        if expansion(b, m, c as int) != m {
            (c, tail)
        } else {
            lemma_first_productive(b, m, tail)
        }
    }
}

/// The share of the remaining search that a state stands for: each move
/// still allowed may branch into fewer than `COLOURS` children.
spec fn weight(s: State) -> nat {
    pow(COLOURS as int, (MAX_MOVES + 1 - s.moves@.len()) as nat) as nat
}

spec fn total_weight(q: Seq<State>) -> nat
    decreases q.len(),
{
    if q.len() == 0 {
        0
    } else {
        total_weight(q.drop_last()) + weight(q.last())
    }
}

proof fn lemma_total_push(q: Seq<State>, x: State)
    ensures
        total_weight(q.push(x)) == total_weight(q) + weight(x),
{
    assert(q.push(x).drop_last() =~= q);
}

proof fn lemma_total_remove(q: Seq<State>, i: int)
    requires
        0 <= i < q.len(),
    ensures
        total_weight(q) == total_weight(q.remove(i)) + weight(q[i]),
    decreases q.len(),
{
    if i == q.len() - 1 {
        assert(q.remove(i) =~= q.drop_last());
    } else {
        lemma_total_remove(q.drop_last(), i);
        assert(q.remove(i).drop_last() =~= q.drop_last().remove(i));
        assert(q.remove(i).last() == q.last());
    }
}

/// The index of a state of highest score.
fn best_index(todo: &Vec<State>) -> (r: usize)
    requires
        todo@.len() > 0,
    ensures
        r < todo@.len(),
        forall|j: int| 0 <= j < todo@.len() ==> todo@[j].score <= todo@[r as int].score,
{
    let mut best: usize = 0;
    let mut j: usize = 1;
    while j < todo.len()
        invariant
            todo@.len() > 0,
            best < j <= todo@.len(),
            forall|k: int| 0 <= k < j ==> todo@[k].score <= todo@[best as int].score,
        decreases todo@.len() - j,
    {
        if todo[j].score > todo[best].score {
            best = j;
        }
        j = j + 1;
    }
    best
}

/// A board where some cell lies outside `m` still holds at least one colour
/// outside it, and never more than `COLOURS`.
proof fn lemma_colours_left_bounds(b: BoardModel, m: Set<int>)
    requires
        b.wf(),
    ensures
        b.colours_left(m).finite(),
        b.remaining_colours(m) <= COLOURS,
        !b.all_cells().subset_of(m) ==> b.remaining_colours(m) >= 1,
{
    lemma_int_range(0, COLOURS as int);
    lemma_len_subset(b.colours_left(m), set_int_range(0, COLOURS as int));
    if !b.all_cells().subset_of(m) {
        let p = choose|p: int| b.all_cells().contains(p) && !m.contains(p);
        let k = b.cells[p] as int;
        assert(b.colour_left(m, k));
        assert(b.colours_left(m).contains(k));
    }
}

/// Searches `board` for short solutions, best-first by coverage, and returns
/// every improving solution in the order found: each is a solution of at
/// most `MAX_MOVES` moves, strictly shorter than all found before it, and the
/// last is as short as any solution of at most `MAX_MOVES` moves. No report
/// means that no such solution exists.
pub fn walk(board: &Board) -> (r: Vec<Solution>)
    requires
        board.wf(),
    ensures
        forall|i: int|
            0 <= i < r@.len() ==> is_solution(board@, (#[trigger] r@[i]).moves@) && r@[i].moves@.len()
                <= MAX_MOVES && productive(board@, r@[i].moves@),
        forall|i: int, j: int| 0 <= i < j < r@.len() ==> r@[j].moves@.len() < r@[i].moves@.len(),
        forall|cs: Seq<Colour>|
            #[trigger] is_solution(board@, cs) && cs.len() <= MAX_MOVES ==> r@.len() > 0
                && r@.last().moves@.len() <= cs.len(),
        play(board@, origin(), seq![board@.cells[0]]) == board@.all_cells() ==> r@.len() == 1
            && r@[0].moves@ == seq![board@.cells[0]] && r@[0].pending == 0,
{
    let ghost b = board@;
    let n = board.len();
    proof {
        crate::board::lemma_cell_in_grid(b.width as int, b.height as int, 0, 0);
    }
    let start = board.get_raw(0);
    let root = expand_coverage(board, &Covered::new(n), start);
    let mut moves = TinyVec::new();
    moves.push(start);
    let mut reports: Vec<Solution> = Vec::new();
    let root_score = root.count();
    proof {
        assert(moves@.drop_last() =~= Seq::<Colour>::empty());
        assert(play(b, origin(), Seq::<Colour>::empty()) == origin());
        assert(root@ == play(b, origin(), moves@));
        root.lemma_bounded();
        lemma_int_range(0, n as int);
        lemma_expansion_idempotent(b, origin(), start as int);
    }
    proof {
        assert(moves@ == seq![b.cells[0]]);
        assert(productive(b, moves@));
    }
    if root_score == n {
        proof {
            lemma_subset_same_len(root@, b.all_cells());
        }
        reports.push(Solution { moves: moves.to_vec(), pending: 0 });
        return reports;
    }
    proof {
        if root@ == b.all_cells() {
            lemma_subset_same_len(root@, b.all_cells());
        }
    }
    let mut best: usize = MAX_MOVES + 1;
    let mut todo: Vec<State> = Vec::new();
    todo.push(State { score: root_score, moves, covered: root });
    proof {
        assert forall|cs: Seq<Colour>| #[trigger] is_solution(b, cs) && cs.len() < best implies exists|
            i: int,
        | 0 <= i < todo@.len() && #[trigger] reaches(b, todo@[i], cs.len() as int) by {
            let tail = cs.drop_first();
            assert(cs =~= seq![start] + tail);
            lemma_play_append(b, origin(), seq![start], tail);
            assert(play(b, todo@[0].covered@, tail) == b.all_cells());
            assert(reaches(b, todo@[0], cs.len() as int));
        }
    }
    while todo.len() > 0
        invariant
            b == board@,
            b.wf(),
            n == b.len(),
            best <= MAX_MOVES + 1,
            forall|i: int| 0 <= i < todo@.len() ==> state_ok(b, #[trigger] todo@[i]),
            forall|i: int|
                0 <= i < reports@.len() ==> is_solution(b, (#[trigger] reports@[i]).moves@)
                    && reports@[i].moves@.len() <= MAX_MOVES && productive(b, reports@[i].moves@),
            forall|i: int, j: int|
                0 <= i < j < reports@.len() ==> reports@[j].moves@.len() < reports@[i].moves@.len(),
            reports@.len() > 0 ==> reports@.last().moves@.len() == best,
            reports@.len() == 0 ==> best == MAX_MOVES + 1,
            all_reached(b, todo@, best as int),
            play(b, origin(), seq![b.cells[0]]) != b.all_cells(),
        decreases total_weight(todo@),
    {
        let idx = best_index(&todo);
        let ghost before = todo@;
        let s = todo.remove(idx);
        proof {
            lemma_total_remove(before, idx as int);
            assert(state_ok(b, before[idx as int]));
            assert forall|i: int| 0 <= i < todo@.len() implies state_ok(b, #[trigger] todo@[i]) by {
                if i < idx {
                    assert(todo@[i] == before[i]);
                } else {
                    assert(todo@[i] == before[i + 1]);
                }
            }
        }
        let ghost after = todo@;
        let len = s.moves.len();
        let rc = board.remaining_colours(&s.covered);
        proof {
            s.covered.lemma_bounded();
            lemma_colours_left_bounds(b, s.covered@);
            if b.all_cells().subset_of(s.covered@) {
                assert(s.covered@ =~= b.all_cells());
            }
            lemma_pow_positive(COLOURS as int, (MAX_MOVES + 1 - len) as nat);
        }
        // Each solution that was to continue `s` either continues another
        // queued state or is no shorter than `best`.
        let ghost owed = |cs: Seq<Colour>|
            is_solution(b, cs) && cs.len() < best && !(exists|i: int|
                0 <= i < todo@.len() && #[trigger] reaches(b, todo@[i], cs.len() as int));
        proof {
            assert forall|cs: Seq<Colour>| #[trigger] owed(cs) implies reaches(b, s, cs.len() as int) by {
                let i = choose|i: int|
                    0 <= i < before.len() && #[trigger] reaches(b, before[i], cs.len() as int);
                if i < idx {
                    assert(todo@[i] == before[i]);
                } else if i > idx {
                    assert(todo@[i - 1] == before[i]);
                }
            }
        }
        if len + rc >= best {
            proof {
                assert forall|cs: Seq<Colour>| #[trigger] is_solution(b, cs) && cs.len() < best implies exists|
                    i: int,
                | 0 <= i < todo@.len() && #[trigger] reaches(b, todo@[i], cs.len() as int) by {
                    if owed(cs) {
                        let rest = choose|rest: Seq<Colour>|
                            s.moves@.len() + rest.len() <= cs.len() && #[trigger] play(
                                b,
                                s.covered@,
                                rest,
                            ) == b.all_cells();
                        lemma_bound_admissible(b, s.covered@, rest);
                    }
                }
            }
            continue;
        }
        let last = s.moves.get(len - 1);
        let succ = step(board, &s.covered, last);
        let ghost p = pow(COLOURS as int, (MAX_MOVES - len) as nat);
        proof {
            lemma_pow_positive(COLOURS as int, (MAX_MOVES - len) as nat);
            let e = (MAX_MOVES - len) as nat;
            vstd::arithmetic::power::lemma_pow_adds(COLOURS as int, e, 1);
            vstd::arithmetic::power::lemma_pow1(COLOURS as int);
            assert((MAX_MOVES + 1 - len) as nat == (e + 1) as nat);
            assert(weight(s) == COLOURS * p);
        }
        proof {
            assert forall|cs: Seq<Colour>| #[trigger] is_solution(b, cs) && cs.len() < best implies (
            exists|j: int| 0 <= j < todo@.len() && #[trigger] reaches(b, todo@[j], cs.len() as int))
                || (exists|k: int|
                0 <= k < succ@.len() && #[trigger] succ_reaches(b, succ@[k], len + 1, cs.len() as int)) by {
                if owed(cs) {
                    let m = s.covered@;
                    let rest = choose|rest: Seq<Colour>|
                        s.moves@.len() + rest.len() <= cs.len() && #[trigger] play(b, m, rest)
                            == b.all_cells();
                    let (c, rest2) = lemma_first_productive(b, m, rest);
                    let e = expansion(b, m, c as int);
                    crate::laws::lemma_expansion_basics(b, m, c as int);
                    assert(!(e =~= m));
                    let q = choose|q: int| e.contains(q) && !m.contains(q);
                    crate::laws::lemma_expansion_new_cells(b, m, c as int, q);
                    assert(e.contains(q) && !m.contains(q));
                    assert(0 <= q < b.len()) by {
                        assert(closed(b, b.all_cells(), c as int));
                        s.covered.lemma_bounded();
                        assert(m.subset_of(b.all_cells()));
                    }
                    assert(c < COLOURS);
                    let j = choose|j: int| 0 <= j < succ@.len() && succ@[j].colour == c;
                    assert(play(b, succ@[j].covered@, rest2) == b.all_cells());
                    assert(succ_reaches(b, succ@[j], len + 1, cs.len() as int));
                }
            }
        }
        let mut done = false;
        let mut i: usize = 0;
        while i < succ.len() && !done
            invariant
                b == board@,
                b.wf(),
                n == b.len(),
                best <= MAX_MOVES + 1,
                state_ok(b, s),
                len == s.moves@.len(),
                last == s.moves@.last(),
                p > 0,
                !done ==> len + 1 < best,
                done ==> best == len + 1,
                i <= succ@.len(),
                succ@.len() < COLOURS,
                forall|k: int| 0 <= k < succ@.len() ==> successor_of(b, s.covered@, last, #[trigger] succ@[k]),
                forall|k: int, j: int| 0 <= k < j < succ@.len() ==> succ@[k].colour < succ@[j].colour,
                forall|k: Colour|
                    k < COLOURS && k != last && #[trigger] expansion(b, s.covered@, k as int)
                        != s.covered@ ==> exists|j: int| 0 <= j < succ@.len() && succ@[j].colour == k,
                forall|k: int| 0 <= k < todo@.len() ==> state_ok(b, #[trigger] todo@[k]),
                total_weight(todo@) <= total_weight(after) + i * p,
                p == pow(COLOURS as int, (MAX_MOVES - len) as nat),
                forall|k: int|
                    0 <= k < reports@.len() ==> is_solution(b, (#[trigger] reports@[k]).moves@)
                        && reports@[k].moves@.len() <= MAX_MOVES && productive(b, reports@[k].moves@),
                forall|k: int, j: int|
                    0 <= k < j < reports@.len() ==> reports@[j].moves@.len() < reports@[k].moves@.len(),
                reports@.len() > 0 ==> reports@.last().moves@.len() == best,
                reports@.len() == 0 ==> best == MAX_MOVES + 1,
                forall|cs: Seq<Colour>|
                    #[trigger] is_solution(b, cs) && cs.len() < best ==> (exists|j: int|
                        0 <= j < todo@.len() && #[trigger] reaches(b, todo@[j], cs.len() as int)) || (
                    exists|k: int|
                        i <= k < succ@.len() && #[trigger] succ_reaches(
                            b,
                            succ@[k],
                            len + 1,
                            cs.len() as int,
                        )),
            decreases succ@.len() - i,
        {
            let colour = succ[i].colour;
            let score = succ[i].score;
            let mut solution = s.moves.copy();
            solution.push(colour);
            proof {
                assert(solution@.drop_last() =~= s.moves@);
                lemma_productive_push(b, s.moves@, colour);
                assert(succ@[i as int].covered@ == play(b, origin(), solution@));
                succ@[i as int].covered.lemma_bounded();
                lemma_int_range(0, n as int);
                assert((i + 1) * p == i * p + p) by (nonlinear_arith);
            }
            let ghost todo0 = todo@;
            if score == n {
                proof {
                    lemma_subset_same_len(succ@[i as int].covered@, b.all_cells());
                }
                best = solution.len();
                reports.push(Solution { moves: solution.to_vec(), pending: todo.len() });
                done = true;
            } else {
                let child = State { score, moves: solution, covered: succ[i].covered.copy() };
                proof {
                    assert(weight(child) == p);
                    lemma_total_push(todo@, child);
                    lemma_expansion_idempotent(b, s.covered@, colour as int);
                }
                todo.push(child);
                proof {
                    assert(todo@[todo@.len() - 1] == child);
                }
            }
            proof {
                assert forall|cs: Seq<Colour>| #[trigger] is_solution(b, cs) && cs.len() < best implies (
                exists|j: int|
                    0 <= j < todo@.len() && #[trigger] reaches(b, todo@[j], cs.len() as int)) || (
                exists|k: int|
                    i + 1 <= k < succ@.len() && #[trigger] succ_reaches(
                        b,
                        succ@[k],
                        len + 1,
                        cs.len() as int,
                    )) by {
                    if exists|j: int|
                        0 <= j < todo0.len() && #[trigger] reaches(b, todo0[j], cs.len() as int) {
                        let j = choose|j: int|
                            0 <= j < todo0.len() && #[trigger] reaches(b, todo0[j], cs.len() as int);
                        assert(todo@[j] == todo0[j]);
                    } else {
                        let k = choose|k: int|
                            i <= k < succ@.len() && #[trigger] succ_reaches(
                                b,
                                succ@[k],
                                len + 1,
                                cs.len() as int,
                            );
                        if k == i {
                            if !done {
                                let rest = choose|rest: Seq<Colour>|
                                    len + 1 + rest.len() <= cs.len() && #[trigger] play(
                                        b,
                                        succ@[k].covered@,
                                        rest,
                                    ) == b.all_cells();
                                assert(play(b, todo@[todo@.len() - 1].covered@, rest) == b.all_cells());
                                assert(reaches(b, todo@[todo@.len() - 1], cs.len() as int));
                            }
                        }
                    }
                }
            }
            i = i + 1;
        }
        proof {
            assert(i * p <= 5 * p) by (nonlinear_arith)
                requires
                    i <= 5,
                    p > 0,
            ;
            assert forall|cs: Seq<Colour>| #[trigger] is_solution(b, cs) && cs.len() < best implies exists|
                j: int,
            | 0 <= j < todo@.len() && #[trigger] reaches(b, todo@[j], cs.len() as int) by {
                if exists|k: int|
                    i <= k < succ@.len() && #[trigger] succ_reaches(b, succ@[k], len + 1, cs.len() as int) {
                    let k = choose|k: int|
                        i <= k < succ@.len() && #[trigger] succ_reaches(
                            b,
                            succ@[k],
                            len + 1,
                            cs.len() as int,
                        );
                    let rest = choose|rest: Seq<Colour>|
                        len + 1 + rest.len() <= cs.len() && #[trigger] play(b, succ@[k].covered@, rest)
                            == b.all_cells();
                }
            }
        }
    }
    reports
}

} // verus!

//! The board: a grid of colours, fixed once it is built.
use vstd::prelude::*;
use vstd::set_lib::*;

use crate::covered::{prefix_of, lemma_prefix_step, Covered};
use rand::Rng;

verus! {

pub type Colour = u8;

/// The number of colours; a board's cells hold colours below it.
pub const COLOURS: Colour = 6;

/// The colour value that stands for no colour at all.
pub const MARKER: Colour = 255;

/// A board as mathematics sees it: its dimensions and its cells, row by row.
pub struct BoardModel {
    pub width: nat,
    pub height: nat,
    pub cells: Seq<Colour>,
}

impl BoardModel {
    /// The number of cells.
    pub open spec fn len(self) -> int {
        self.cells.len() as int
    }

    /// The cells fill a grid of at least one cell, row by row.
    pub open spec fn shaped(self) -> bool {
        &&& self.width >= 1
        &&& self.height >= 1
        &&& self.cells.len() == self.width * self.height
        &&& self.cells.len() <= usize::MAX
    }

    pub open spec fn wf(self) -> bool {
        &&& self.shaped()
        &&& forall|p: int| 0 <= p < self.cells.len() ==> #[trigger] self.cells[p] < COLOURS
    }

    /// The cells `p` and `q` share an edge.
    pub open spec fn adjacent(self, p: int, q: int) -> bool {
        &&& 0 <= p < self.len()
        &&& 0 <= q < self.len()
        &&& {
            ||| (q == p + 1 && q % (self.width as int) != 0)
            ||| (p == q + 1 && p % (self.width as int) != 0)
            ||| q == p + self.width
            ||| p == q + self.width
        }
    }

    /// Every cell of the board.
    pub open spec fn all_cells(self) -> Set<int> {
        set_int_range(0, self.len())
    }

    /// Colour `k` is still held by a cell outside `m`.
    pub open spec fn colour_left(self, m: Set<int>, k: int) -> bool {
        exists|p: int| 0 <= p < self.len() && !m.contains(p) && self.cells[p] == k
    }

    /// The colours held by cells outside `m`.
    pub open spec fn colours_left(self, m: Set<int>) -> Set<int> {
        Set::new(|k: int| 0 <= k < COLOURS && self.colour_left(m, k))
    }

    /// How many distinct colours cells outside `m` still hold.
    pub open spec fn remaining_colours(self, m: Set<int>) -> nat {
        self.colours_left(m).len()
    }
}

/// Why a board could not be built.
#[derive(Clone, Copy, Debug, PartialEq, Eq, Structural)]
pub enum BoardError {
    /// The width or the height is zero.
    Empty,
    /// The number of cells is not width times height.
    WrongCellCount,
    /// A cell holds a colour of `COLOURS` or above.
    ColourOutOfRange,
}

/// The index of the cell in column `x` and row `y` of a grid `width` cells wide.
pub fn coord(width: usize, x: usize, y: usize) -> (r: usize)
    requires
        x + width * y <= usize::MAX,
    ensures
        r == x + width * y,
{
    x + width * y
}

#[derive(Clone, Debug)]
pub struct Board {
    width: usize,
    height: usize,
    cells: Vec<Colour>,
}

impl View for Board {
    type V = BoardModel;

    closed spec fn view(&self) -> BoardModel {
        BoardModel { width: self.width as nat, height: self.height as nat, cells: self.cells@ }
    }
}

/// The cells of `cells` all hold a colour below `COLOURS`.
pub open spec fn all_coloured(cells: Seq<Colour>) -> bool {
    forall|p: int| 0 <= p < cells.len() ==> #[trigger] cells[p] < COLOURS
}

impl Board {
    pub open spec fn wf(&self) -> bool {
        self@.wf()
    }

    /// Builds a board `width` cells wide and `height` cells high from its
    /// cells, row by row.
    pub fn new(width: usize, height: usize, cells: Vec<Colour>) -> (r: Result<Board, BoardError>)
        ensures
            (width == 0 || height == 0) <==> r == Err::<Board, BoardError>(BoardError::Empty),
            (width > 0 && height > 0 && cells@.len() != width * height) <==> r == Err::<
                Board,
                BoardError,
            >(BoardError::WrongCellCount),
            (width > 0 && height > 0 && cells@.len() == width * height && !all_coloured(cells@))
                <==> r == Err::<Board, BoardError>(BoardError::ColourOutOfRange),
            r is Ok ==> r->Ok_0.wf() && r->Ok_0@ == (BoardModel {
                width: width as nat,
                height: height as nat,
                cells: cells@,
            }),
    {
        if width == 0 || height == 0 {
            return Err(BoardError::Empty);
        }
        let len = cells.len();
        match width.checked_mul(height) {
            None => {
                return Err(BoardError::WrongCellCount);
            },
            Some(n) => {
                if len != n {
                    return Err(BoardError::WrongCellCount);
                }
            },
        }
        let mut i: usize = 0;
        while i < cells.len()
            invariant
                i <= cells@.len(),
                width > 0,
                height > 0,
                cells@.len() == width * height,
                forall|p: int| 0 <= p < i ==> #[trigger] cells@[p] < COLOURS,
            decreases cells@.len() - i,
        {
            if cells[i] >= COLOURS {
                assert(!(cells@[i as int] < COLOURS));
                return Err(BoardError::ColourOutOfRange);
            }
            i = i + 1;
        }
        Ok(Board { width, height, cells })
    }

    pub fn width(&self) -> (r: usize)
        ensures
            r == self@.width,
    {
        self.width
    }

    pub fn height(&self) -> (r: usize)
        ensures
            r == self@.height,
    {
        self.height
    }

    /// The number of cells.
    pub fn len(&self) -> (r: usize)
        ensures
            r == self@.len(),
    {
        self.cells.len()
    }

    /// The colour of the cell at `pos`.
    pub fn get_raw(&self, pos: usize) -> (r: Colour)
        requires
            pos < self@.len(),
        ensures
            r == self@.cells[pos as int],
    {
        self.cells[pos]
    }

    /// The colour of the cell in column `x` and row `y`.
    pub fn get(&self, x: usize, y: usize) -> (r: Colour)
        requires
            self@.shaped(),
            x < self@.width,
            y < self@.height,
        ensures
            r == self@.cells[x + self@.width * y],
    {
        proof {
            lemma_cell_in_grid(self.width as int, self.height as int, x as int, y as int);
        }
        self.cells[coord(self.width, x, y)]
    }

    /// Paints the cell in column `x` and row `y`.
    pub(crate) fn set(&mut self, x: usize, y: usize, val: Colour)
        requires
            old(self)@.shaped(),
            x < old(self)@.width,
            y < old(self)@.height,
        ensures
            final(self)@ == (BoardModel {
                cells: old(self)@.cells.update(x + old(self)@.width * y, val),
                ..old(self)@
            }),
    {
        proof {
            lemma_cell_in_grid(self.width as int, self.height as int, x as int, y as int);
        }
        let pos = coord(self.width, x, y);
        self.cells.set(pos, val);
    }

    /// Paints the cell at `pos`.
    pub(crate) fn set_raw(&mut self, pos: usize, val: Colour)
        requires
            pos < old(self)@.len(),
        ensures
            final(self)@ == (BoardModel { cells: old(self)@.cells.update(pos as int, val), ..old(self)@ }),
    {
        self.cells.set(pos, val);
    }

    /// How many distinct colours the cells outside `covered` still hold: a
    /// lower bound on the moves needed to cover the board.
    pub fn remaining_colours(&self, covered: &Covered) -> (r: usize)
        requires
            self.wf(),
            covered.wf(),
            covered.size() == self@.len(),
        ensures
            r == self@.remaining_colours(covered@),
    {
        let ghost b = self@;
        let ghost m = covered@;
        let mut seen: Vec<bool> = Vec::new();
        let mut k: u8 = 0;
        while k < COLOURS
            invariant
                k <= COLOURS,
                seen@.len() == k,
                forall|j: int| 0 <= j < k ==> !seen@[j],
            decreases COLOURS - k,
        {
            seen.push(false);
            k = k + 1;
        }
        let mut pos: usize = 0;
        while pos < self.cells.len()
            invariant
                b == self@,
                m == covered@,
                b.wf(),
                covered.wf(),
                covered.size() == b.len(),
                pos <= b.len(),
                seen@.len() == COLOURS,
                forall|j: int|
                    0 <= j < COLOURS ==> (#[trigger] seen@[j] <==> exists|p: int|
                        0 <= p < pos && !m.contains(p) && b.cells[p] == j),
            decreases b.len() - pos,
        {
            let c = self.cells[pos];
            if !covered.get_raw(pos) {
                seen.set(c as usize, true);
            }
            assert forall|j: int| 0 <= j < COLOURS implies (#[trigger] seen@[j] <==> exists|p: int|
                0 <= p < pos + 1 && !m.contains(p) && b.cells[p] == j) by {
                if seen@[j] && !(exists|p: int| 0 <= p < pos && !m.contains(p) && b.cells[p] == j) {
                    assert(0 <= pos < pos + 1 && !m.contains(pos as int) && b.cells[pos as int] == j);
                }
            }
            pos = pos + 1;
        }
        let ghost present = Set::new(|j: int| 0 <= j < COLOURS && seen@[j]);
        assert(present =~= b.colours_left(m));
        let mut n: usize = 0;
        let mut j: usize = 0;
        assert(prefix_of(present, 0) =~= Set::empty());
        while j < seen.len()
            invariant
                seen@.len() == COLOURS,
                j <= COLOURS,
                n == prefix_of(present, j as int).len(),
                n <= j,
                present == Set::new(|j: int| 0 <= j < COLOURS && seen@[j]),
            decreases COLOURS - j,
        {
            proof {
                lemma_prefix_step(present, j as int);
            }
            if seen[j] {
                n = n + 1;
            }
            j = j + 1;
        }
        assert(prefix_of(present, COLOURS as int) =~= present);
        n
    }
}

/// The glyph that draws a colour.
pub open spec fn glyph(colour: Colour) -> char {
    if colour == 0 {
        '-'
    } else if colour == 1 {
        '#'
    } else if colour == 2 {
        'N'
    } else if colour == 3 {
        'o'
    } else if colour == 4 {
        'T'
    } else if colour == 5 {
        'v'
    } else {
        ' '
    }
}

/// The glyph that draws `colour`; `MARKER` is drawn blank.
pub fn symbol(colour: Colour) -> (r: char)
    requires
        colour < COLOURS || colour == MARKER,
    ensures
        r == glyph(colour),
{
    match colour {
        0 => '-',
        1 => '#',
        2 => 'N',
        3 => 'o',
        4 => 'T',
        5 => 'v',
        _ => ' ',
    }
}

/// The glyphs of `colours`, in order.
pub fn symbols(colours: &Vec<Colour>) -> (r: Vec<char>)
    requires
        forall|i: int| 0 <= i < colours@.len() ==> #[trigger] colours@[i] < COLOURS,
    ensures
        r@ == colours@.map_values(|c: Colour| glyph(c)),
{
    let mut r: Vec<char> = Vec::new();
    let mut i: usize = 0;
    while i < colours.len()
        invariant
            i <= colours@.len(),
            forall|j: int| 0 <= j < colours@.len() ==> #[trigger] colours@[j] < COLOURS,
            r@ == colours@.take(i as int).map_values(|c: Colour| glyph(c)),
        decreases colours@.len() - i,
    {
        r.push(symbol(colours[i]));
        proof {
            assert(colours@.take(i + 1) =~= colours@.take(i as int).push(colours@[i as int]));
        }
        i = i + 1;
        assert(r@ =~= colours@.take(i as int).map_values(|c: Colour| glyph(c)));
    }
    assert(colours@.take(i as int) =~= colours@);
    r
}

/// Relies on rand's `Rng::gen_range(low, high)` on the thread's generator: a
/// value drawn from `low..high`. It panics when `low >= high`, which
/// `requires` rules out.
#[verifier::external_body]
fn random_below(bound: Colour) -> (r: Colour)
    requires
        bound > 0,
    ensures
        r < bound,
{
    rand::thread_rng().gen_range(0, bound)
}

/// Relies on rand's `random::<bool>()`: a coin toss, of which nothing is
/// promised.
#[verifier::external_body]
fn random_coin() -> bool {
    rand::random::<bool>()
}

impl Board {
    /// A board of random colours in which the origin shares its colour with
    /// its right or its lower neighbour, so that the first move always grows
    /// the covered region.
    pub fn random(width: usize, height: usize) -> (r: Board)
        requires
            width >= 2,
            height >= 2,
            width * height <= usize::MAX,
        ensures
            r.wf(),
            r@.width == width,
            r@.height == height,
            r@.cells[1] == r@.cells[0] || r@.cells[width as int] == r@.cells[0],
    {
        let n = width * height;
        let mut draws: Vec<Colour> = Vec::new();
        let mut i: usize = 0;
        while i < n
            invariant
                i <= n,
                draws@.len() == i,
                forall|p: int| 0 <= p < i ==> #[trigger] draws@[p] < COLOURS,
            decreases n - i,
        {
            draws.push(random_below(COLOURS));
            i = i + 1;
        }
        let coin = random_coin();
        Board::from_draws(width, height, draws, coin)
    }

    /// The board of the colours `draws`, row by row, except that the
    /// origin's colour is copied to its lower neighbour when `coin` is set
    /// and to its right neighbour otherwise.
    pub fn from_draws(width: usize, height: usize, draws: Vec<Colour>, coin: bool) -> (r: Board)
        requires
            width >= 2,
            height >= 2,
            width * height <= usize::MAX,
            draws@.len() == width * height,
            all_coloured(draws@),
        ensures
            r.wf(),
            r@.width == width,
            r@.height == height,
            r@.cells == draws@.update(if coin { width as int } else { 1int }, draws@[0]),
            r@.cells[1] == r@.cells[0] || r@.cells[width as int] == r@.cells[0],
    {
        let mut board = Board { width, height, cells: draws };
        proof {
            lemma_cell_in_grid(width as int, height as int, 1, 1);
        }
        let start = board.get(0, 0);
        if coin {
            board.set(0, 1, start);
        } else {
            board.set(1, 0, start);
        }
        assert(forall|p: int| 0 <= p < board@.len() ==> #[trigger] board@.cells[p] < COLOURS);
        board
    }
}

/// A cell of a `width` by `height` grid has an index below `width * height`.
pub proof fn lemma_cell_in_grid(width: int, height: int, x: int, y: int)
    requires
        0 <= x < width,
        0 <= y < height,
    ensures
        0 <= x + width * y < width * height,
{
    assert(width * y + width <= width * height) by (nonlinear_arith)
        requires
            0 <= y < height,
            width > 0,
    ;
    assert(0 <= width * y) by (nonlinear_arith)
        requires
            0 <= y,
            width > 0,
    ;
}

} // verus!

//! The coverage mask: one bit per cell, packed into 64-bit blocks.
use vstd::prelude::*;
use vstd::set_lib::*;

verus! {

/// Bits held by one storage block.
pub const BLOCK_BITS: usize = 64;

/// Whether bit `i` of `w` is set.
pub open spec fn bit(w: u64, i: u64) -> bool {
    (w >> i) & 1u64 == 1u64
}

proof fn lemma_bit_set(w: u64, b: u64, c: u64)
    requires
        b < 64,
        c < 64,
    ensures
        bit(w | (1u64 << b), c) == (c == b || bit(w, c)),
{
    assert(((w | (1u64 << b)) >> c) & 1u64 == 1u64 <==> (c == b || (w >> c) & 1u64 == 1u64))
        by (bit_vector)
        requires
            b < 64,
            c < 64,
    ;
}

proof fn lemma_bit_set_again(w: u64, b: u64)
    requires
        b < 64,
        bit(w, b),
    ensures
        w | (1u64 << b) == w,
{
    assert((w >> b) & 1u64 == 1u64 ==> w | (1u64 << b) == w) by (bit_vector)
        requires
            b < 64,
    ;
}

/// A set of cells of a board with `size` cells, as a bitset.
#[derive(Clone, Debug)]
pub struct Covered {
    inner: Vec<u64>,
    size: usize,
}

impl View for Covered {
    type V = Set<int>;

    closed spec fn view(&self) -> Set<int> {
        Set::new(
            |p: int|
                0 <= p < self.size && bit(self.inner@[p / 64], (p % 64) as u64),
        )
    }
}

impl Covered {
    /// The number of cells of the board that the mask belongs to.
    pub closed spec fn size(&self) -> nat {
        self.size as nat
    }

    /// The storage blocks, bit for bit.
    pub closed spec fn blocks(&self) -> Seq<u64> {
        self.inner@
    }

    pub closed spec fn wf(&self) -> bool {
        &&& self.size >= 1
        &&& self.inner@.len() == self.size / 64 + 1
    }

    /// The covered cells lie on the board, so there are finitely many.
    pub proof fn lemma_bounded(&self)
        ensures
            self@.subset_of(set_int_range(0, self.size() as int)),
            self@.finite(),
            self@.len() <= self.size(),
    {
        lemma_int_range(0, self.size() as int);
        lemma_len_subset(self@, set_int_range(0, self.size() as int));
    }

    /// The mask of a board with `size` cells that covers the origin alone.
    pub fn new(size: usize) -> (r: Covered)
        requires
            size >= 1,
        ensures
            r.wf(),
            r.size() == size,
            r@ == set![0int],
    {
        let blocks = size / BLOCK_BITS + 1;
        let mut inner: Vec<u64> = Vec::new();
        let mut i: usize = 0;
        while i < blocks
            invariant
                i <= blocks,
                inner@.len() == i,
                forall|j: int| 0 <= j < i ==> inner@[j] == 0u64,
            decreases blocks - i,
        {
            inner.push(0u64);
            i = i + 1;
        }
        let mut covered = Covered { inner, size };
        assert forall|p: int| 0 <= p < size implies !(#[trigger] covered@.contains(p)) by {
            let w: u64 = 0;
            assert(covered.inner@[p / 64] == w);
            let c = (p % 64) as u64;
            assert((0u64 >> c) & 1u64 != 1u64) by (bit_vector);
        }
        assert(covered@ =~= Set::empty());
        covered.set_raw(0);
        covered
    }

    /// An identical mask, bit for bit, that can be extended on its own.
    pub fn copy(&self) -> (r: Covered)
        ensures
            r.size() == self.size(),
            r.blocks() == self.blocks(),
            r@ == self@,
            self.wf() ==> r.wf(),
    {
        Covered { inner: self.inner.clone(), size: self.size }
    }

    /// Whether the cell at `pos` is covered.
    pub fn get_raw(&self, pos: usize) -> (r: bool)
        requires
            self.wf(),
            pos < self.size(),
        ensures
            r == self@.contains(pos as int),
            r == bit(self.blocks()[(pos / BLOCK_BITS) as int], (pos % BLOCK_BITS) as u64),
    {
        let block = pos / BLOCK_BITS;
        let bit = (pos % BLOCK_BITS) as u64;
        (self.inner[block] >> bit) & 1u64 == 1u64
    }

    /// Whether the cell in column `x` and row `y` of a board `width` cells wide is covered.
    pub fn get(&self, width: usize, x: usize, y: usize) -> (r: bool)
        requires
            self.wf(),
            x < width,
            x + width * y < self.size(),
        ensures
            r == self@.contains(x + width * y),
    {
        self.get_raw(crate::board::coord(width, x, y))
    }

    /// Covers the cell at `pos`.
    pub fn set_raw(&mut self, pos: usize)
        requires
            old(self).wf(),
            pos < old(self).size(),
        ensures
            final(self).wf(),
            final(self).size() == old(self).size(),
            final(self)@ == old(self)@.insert(pos as int),
            final(self).blocks() == old(self).blocks().update(
                (pos / BLOCK_BITS) as int,
                old(self).blocks()[(pos / BLOCK_BITS) as int] | (1u64 << (pos % BLOCK_BITS) as u64),
            ),
            old(self)@.contains(pos as int) ==> final(self).blocks() == old(self).blocks(),
    {
        let block = pos / BLOCK_BITS;
        let b = (pos % BLOCK_BITS) as u64;
        let ghost before = *self;
        let w = self.inner[block];
        self.inner.set(block, w | (1u64 << b));
        assert forall|p: int| 0 <= p < self.size implies #[trigger] self@.contains(p) == (p == pos
            || before@.contains(p)) by {
            if p / 64 == block as int {
                lemma_bit_set(w, b, (p % 64) as u64);
            }
        }
        assert(self@ =~= before@.insert(pos as int));
        proof {
            if before@.contains(pos as int) {
                lemma_bit_set_again(w, b);
                assert(self.inner@ =~= before.inner@);
            }
        }
    }

    /// Covers the cell in column `x` and row `y` of a board `width` cells wide.
    pub fn set(&mut self, width: usize, x: usize, y: usize)
        requires
            old(self).wf(),
            x < width,
            x + width * y < old(self).size(),
        ensures
            final(self).wf(),
            final(self).size() == old(self).size(),
            final(self)@ == old(self)@.insert(x + width * y),
    {
        self.set_raw(crate::board::coord(width, x, y));
    }

    /// The number of covered cells.
    pub fn count(&self) -> (r: usize)
        requires
            self.wf(),
        ensures
            r == self@.len(),
    {
        let mut n: usize = 0;
        let mut pos: usize = 0;
        proof {
            self.lemma_bounded();
            assert(prefix_of(self@, 0) =~= Set::empty());
        }
        while pos < self.size
            invariant
                self.wf(),
                pos <= self.size,
                n == prefix_of(self@, pos as int).len(),
                prefix_of(self@, pos as int).finite(),
            decreases self.size - pos,
        {
            proof {
                lemma_prefix_step(self@, pos as int);
                lemma_int_range(0, pos as int);
                lemma_len_subset(prefix_of(self@, pos as int), set_int_range(0, pos as int));
            }
            if self.get_raw(pos) {
                n = n + 1;
            }
            pos = pos + 1;
        }
        assert(prefix_of(self@, pos as int) =~= self@);
        n
    }
}

/// The members of `s` below `i`.
pub open spec fn prefix_of(s: Set<int>, i: int) -> Set<int> {
    Set::new(|p: int| 0 <= p < i && s.contains(p))
}

pub proof fn lemma_prefix_step(s: Set<int>, i: int)
    requires
        0 <= i,
    ensures
        prefix_of(s, i).finite(),
        prefix_of(s, i + 1) == if s.contains(i) {
            prefix_of(s, i).insert(i)
        } else {
            prefix_of(s, i)
        },
        prefix_of(s, i + 1).len() == prefix_of(s, i).len() + if s.contains(i) {
            1int
        } else {
            0int
        },
{
    lemma_int_range(0, i);
    lemma_len_subset(prefix_of(s, i), set_int_range(0, i));
    if s.contains(i) {
        assert(prefix_of(s, i + 1) =~= prefix_of(s, i).insert(i));
    } else {
        assert(prefix_of(s, i + 1) =~= prefix_of(s, i));
    }
}

} // verus!

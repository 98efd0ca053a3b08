//! Dense per-tile scratch grids: a generic value grid and a word-packed
//! boolean occupancy grid, both rebuilt from scratch every simulation tick.

use vstd::prelude::*;
use crate::game_object::TilePosition;

verus! {

/// Largest accepted grid side length; larger requests fail like an arena
/// allocation failure would.
pub const MAX_GRID_DIM: usize = 32767;

/// A dense width x height grid of plain values, used as per-tick scratch
/// memory by the path finder.
pub struct Grid<T> {
    values: Vec<T>,
    width: usize,
    height: usize,
}

impl<T: Copy> Grid<T> {
    pub closed spec fn spec_width(self) -> int {
        self.width as int
    }

    pub closed spec fn spec_height(self) -> int {
        self.height as int
    }

    pub closed spec fn wf(self) -> bool {
        &&& self.width <= MAX_GRID_DIM
        &&& self.height <= MAX_GRID_DIM
        &&& self.values.len() == self.width * self.height
    }

    /// A well-formed grid's dimensions never exceed the supported maximum.
    pub proof fn lemma_dims(&self)
        requires
            self.wf(),
        ensures
            0 <= self.spec_width() <= MAX_GRID_DIM as int,
            0 <= self.spec_height() <= MAX_GRID_DIM as int,
    {
    }

    /// The value stored at cell (x, y).
    pub closed spec fn spec_get(self, x: int, y: int) -> T {
        self.values[y * self.spec_width() + x]
    }

    pub open spec fn spec_in_bounds(self, pos: TilePosition) -> bool {
        0 <= (pos.x as int) && (pos.x as int) < self.spec_width() && 0 <= (pos.y as int) && (pos.y as int) < self.spec_height()
    }

    /// A grid with every cell set to `fill`; `None` when the dimensions
    /// exceed what the scratch space supports.
    pub fn new_filled(width: usize, height: usize, fill: T) -> (r: Option<Grid<T>>)
        ensures
            width <= MAX_GRID_DIM && height <= MAX_GRID_DIM <==> r is Some,
            r matches Some(g) ==> {
                &&& g.wf()
                &&& g.spec_width() == width
                &&& g.spec_height() == height
                &&& forall|x: int, y: int|
                    0 <= x < width && 0 <= y < height ==> g.spec_get(x, y) == fill
            },
    {
        if width > MAX_GRID_DIM || height > MAX_GRID_DIM {
            return None;
        }
        assert(width * height <= MAX_GRID_DIM * MAX_GRID_DIM) by (nonlinear_arith)
            requires
                width <= MAX_GRID_DIM,
                height <= MAX_GRID_DIM,
        ;
        let cells: usize = width * height;
        let mut values: Vec<T> = Vec::new();
        let mut i: usize = 0;
        while i < cells
            invariant
                i <= cells,
                values.len() == i,
                forall|j: int| 0 <= j < i ==> values[j] == fill,
            decreases cells - i,
        {
            values.push(fill);
            i = i + 1;
        }
        let g = Grid { values, width, height };
        assert forall|x: int, y: int| 0 <= x < width && 0 <= y < height implies g.spec_get(x, y)
            == fill by {
            lemma_grid_index_in_range(x, y, width as int, height as int);
        }
        Some(g)
    }

    pub fn width(&self) -> (r: usize)
        ensures
            r == self.spec_width(),
    {
        self.width
    }

    pub fn height(&self) -> (r: usize)
        ensures
            r == self.spec_height(),
    {
        self.height
    }

    pub fn size(&self) -> (r: (usize, usize))
        ensures
            r.0 == self.spec_width(),
            r.1 == self.spec_height(),
    {
        (self.width, self.height)
    }

    pub fn in_bounds(&self, pos: TilePosition) -> (r: bool)
        ensures
            r == self.spec_in_bounds(pos),
    {
        pos.x >= 0 && pos.y >= 0 && (pos.x as usize) < self.width && (pos.y as usize) < self.height
    }

    pub fn get(&self, pos: TilePosition) -> (r: T)
        requires
            self.wf(),
            self.spec_in_bounds(pos),
        ensures
            r == self.spec_get(pos.x as int, pos.y as int),
    {
        proof {
            lemma_grid_index_in_range(
                pos.x as int,
                pos.y as int,
                self.spec_width(),
                self.spec_height(),
            );
        }
        let idx: usize = (pos.y as usize) * self.width + (pos.x as usize);
        self.values[idx]
    }

    pub fn set(&mut self, pos: TilePosition, value: T)
        requires
            old(self).wf(),
            old(self).spec_in_bounds(pos),
        ensures
            final(self).wf(),
            final(self).spec_width() == old(self).spec_width(),
            final(self).spec_height() == old(self).spec_height(),
            final(self).spec_get(pos.x as int, pos.y as int) == value,
            forall|x: int, y: int|
                0 <= x < final(self).spec_width() && 0 <= y < final(self).spec_height() && !(x == pos.x as int
                    && y == pos.y as int) ==> final(self).spec_get(x, y) == old(self).spec_get(x, y),
    {
        proof {
            lemma_grid_index_in_range(
                pos.x as int,
                pos.y as int,
                self.spec_width(),
                self.spec_height(),
            );
        }
        let idx: usize = (pos.y as usize) * self.width + (pos.x as usize);
        self.values[idx] = value;
        assert forall|x: int, y: int|
            0 <= x < self.spec_width() && 0 <= y < self.spec_height() && !(x == pos.x as int && y
                == pos.y as int) implies self.spec_get(x, y) == old(self).spec_get(x, y) by {
            lemma_grid_index_in_range(x, y, self.spec_width(), self.spec_height());
            lemma_grid_index_injective(
                x,
                y,
                pos.x as int,
                pos.y as int,
                self.spec_width(),
                self.spec_height(),
            );
        }
    }
}

/// Row-major cell indices stay within a width x height grid.
pub(crate) proof fn lemma_grid_index_in_range(x: int, y: int, width: int, height: int)
    by (nonlinear_arith)
    requires
        0 <= x < width,
        0 <= y < height,
    ensures
        0 <= y * width + x < width * height,
{
}

/// Distinct cells have distinct row-major indices.
pub(crate) proof fn lemma_grid_index_injective(x1: int, y1: int, x2: int, y2: int, width: int, height: int)
    by (nonlinear_arith)
    requires
        0 <= x1 < width,
        0 <= y1 < height,
        0 <= x2 < width,
        0 <= y2 < height,
        !(x1 == x2 && y1 == y2),
    ensures
        y1 * width + x1 != y2 * width + x2,
{
}

/// A dense 2D bitset, one bit per tile, packed into 64-bit words with a
/// per-row stride of `ceil(width / 64)` words.
pub struct BitGrid {
    words: Vec<u64>,
    width: usize,
    height: usize,
    stride: usize,
}

impl BitGrid {
    pub closed spec fn spec_width(self) -> int {
        self.width as int
    }

    pub closed spec fn spec_height(self) -> int {
        self.height as int
    }

    pub closed spec fn spec_stride(self) -> int {
        self.stride as int
    }

    pub closed spec fn wf(self) -> bool {
        &&& self.width <= MAX_GRID_DIM
        &&& self.height <= MAX_GRID_DIM
        &&& self.stride == (self.width + 63) / 64
        &&& self.words.len() == self.stride * self.height
    }

    /// A well-formed grid's dimensions never exceed the supported maximum.
    pub proof fn lemma_dims(&self)
        requires
            self.wf(),
        ensures
            0 <= self.spec_width() <= MAX_GRID_DIM as int,
            0 <= self.spec_height() <= MAX_GRID_DIM as int,
    {
    }

    /// The bit stored at cell (x, y).
    pub closed spec fn spec_get(self, x: int, y: int) -> bool {
        (self.words[y * self.spec_stride() + x / 64] >> ((x % 64) as u64)) & 1 == 1
    }

    pub open spec fn spec_in_bounds(self, pos: TilePosition) -> bool {
        0 <= (pos.x as int) && (pos.x as int) < self.spec_width() && 0 <= (pos.y as int) && (pos.y as int) < self.spec_height()
    }

    /// An all-false bit grid; `None` when the dimensions exceed what the
    /// scratch space supports.
    pub fn new(width: usize, height: usize) -> (r: Option<BitGrid>)
        ensures
            width <= MAX_GRID_DIM && height <= MAX_GRID_DIM <==> r is Some,
            r matches Some(g) ==> {
                &&& g.wf()
                &&& g.spec_width() == width
                &&& g.spec_height() == height
                &&& forall|x: int, y: int|
                    0 <= x < width && 0 <= y < height ==> !g.spec_get(x, y)
            },
    {
        if width > MAX_GRID_DIM || height > MAX_GRID_DIM {
            return None;
        }
        let stride: usize = (width + 63) / 64;
        assert(stride * height <= 513 * MAX_GRID_DIM) by (nonlinear_arith)
            requires
                stride == (width + 63) / 64,
                width <= MAX_GRID_DIM,
                height <= MAX_GRID_DIM,
                MAX_GRID_DIM == 32767,
        ;
        let word_count: usize = stride * height;
        let mut words: Vec<u64> = Vec::new();
        let mut i: usize = 0;
        while i < word_count
            invariant
                i <= word_count,
                words.len() == i,
                forall|j: int| 0 <= j < i ==> words[j] == 0u64,
            decreases word_count - i,
        {
            words.push(0u64);
            i = i + 1;
        }
        let g = BitGrid { words, width, height, stride };
        assert forall|x: int, y: int| 0 <= x < width && 0 <= y < height implies !g.spec_get(x, y)
            by {
            lemma_bit_index_in_range(x, y, g.spec_width(), g.spec_height(), g.spec_stride());
            let w: u64 = 0u64;
            let k: u64 = (x % 64) as u64;
            assert((w >> k) & 1 == 0) by (bit_vector)
                requires
                    w == 0u64,
            ;
        }
        Some(g)
    }

    pub fn width(&self) -> (r: usize)
        ensures
            r == self.spec_width(),
    {
        self.width
    }

    pub fn height(&self) -> (r: usize)
        ensures
            r == self.spec_height(),
    {
        self.height
    }

    pub fn size(&self) -> (r: (usize, usize))
        ensures
            r.0 == self.spec_width(),
            r.1 == self.spec_height(),
    {
        (self.width, self.height)
    }

    pub fn in_bounds(&self, pos: TilePosition) -> (r: bool)
        ensures
            r == self.spec_in_bounds(pos),
    {
        pos.x >= 0 && pos.y >= 0 && (pos.x as usize) < self.width && (pos.y as usize) < self.height
    }

    /// Reads one bit. Out-of-range positions are a programming error, ruled
    /// out by the precondition.
    pub fn get(&self, pos: TilePosition) -> (r: bool)
        requires
            self.wf(),
            self.spec_in_bounds(pos),
        ensures
            r == self.spec_get(pos.x as int, pos.y as int),
    {
        proof {
            lemma_bit_index_in_range(
                pos.x as int,
                pos.y as int,
                self.spec_width(),
                self.spec_height(),
                self.spec_stride(),
            );
        }
        let x: usize = pos.x as usize;
        let word_idx: usize = (pos.y as usize) * self.stride + x / 64;
        let bit_offset: u64 = (x % 64) as u64;
        let word: u64 = self.words[word_idx];
        (word >> bit_offset) & 1 == 1
    }

    /// Writes one bit, leaving every other cell unchanged.
    pub fn set(&mut self, pos: TilePosition, new_value: bool)
        requires
            old(self).wf(),
            old(self).spec_in_bounds(pos),
        ensures
            final(self).wf(),
            final(self).spec_width() == old(self).spec_width(),
            final(self).spec_height() == old(self).spec_height(),
            final(self).spec_get(pos.x as int, pos.y as int) == new_value,
            forall|x: int, y: int|
                0 <= x < final(self).spec_width() && 0 <= y < final(self).spec_height() && !(x == pos.x as int
                    && y == pos.y as int) ==> final(self).spec_get(x, y) == old(self).spec_get(x, y),
    {
        proof {
            lemma_bit_index_in_range(
                pos.x as int,
                pos.y as int,
                self.spec_width(),
                self.spec_height(),
                self.spec_stride(),
            );
        }
        let x: usize = pos.x as usize;
        let word_idx: usize = (pos.y as usize) * self.stride + x / 64;
        let bit_offset: u64 = (x % 64) as u64;
        let word: u64 = self.words[word_idx];
        let updated: u64 = if new_value {
            word | (1u64 << bit_offset)
        } else {
            word & !(1u64 << bit_offset)
        };
        self.words[word_idx] = updated;
        proof {
            lemma_bit_update(word, bit_offset, new_value, updated);
            assert forall|x2: int, y2: int|
                0 <= x2 < self.spec_width() && 0 <= y2 < self.spec_height() && !(x2 == pos.x as int
                    && y2 == pos.y as int) implies self.spec_get(x2, y2) == old(self).spec_get(
                x2,
                y2,
            ) by {
                lemma_bit_index_in_range(
                    x2,
                    y2,
                    self.spec_width(),
                    self.spec_height(),
                    self.spec_stride(),
                );
                lemma_bit_index_distinct(
                    x2,
                    y2,
                    pos.x as int,
                    pos.y as int,
                    self.spec_width(),
                    self.spec_height(),
                    self.spec_stride(),
                );
                if y2 * self.spec_stride() + x2 / 64 == (pos.y as int) * self.spec_stride() + (
                pos.x as int) / 64 {
                    let j: u64 = (x2 % 64) as u64;
                    assert((updated >> j) & 1 == (word >> j) & 1) by (bit_vector)
                        requires
                            j < 64,
                            bit_offset < 64,
                            j != bit_offset,
                            updated == word | (1u64 << bit_offset) || updated == word & !(1u64
                                << bit_offset),
                    ;
                }
            }
        }
    }
}

/// The word index of an in-bounds cell is within the word vector.
proof fn lemma_bit_index_in_range(x: int, y: int, width: int, height: int, stride: int)
    by (nonlinear_arith)
    requires
        0 <= x < width,
        0 <= y < height,
        stride == (width + 63) / 64,
    ensures
        0 <= y * stride + x / 64 < stride * height,
        0 <= x % 64 < 64,
        x / 64 < stride,
{
}

/// Two distinct in-bounds cells either live in distinct words or at distinct
/// bit offsets within the same word.
proof fn lemma_bit_index_distinct(
    x1: int,
    y1: int,
    x2: int,
    y2: int,
    width: int,
    height: int,
    stride: int,
)
    by (nonlinear_arith)
    requires
        0 <= x1 < width,
        0 <= y1 < height,
        0 <= x2 < width,
        0 <= y2 < height,
        stride == (width + 63) / 64,
        !(x1 == x2 && y1 == y2),
    ensures
        y1 * stride + x1 / 64 != y2 * stride + x2 / 64 || x1 % 64 != x2 % 64,
{
}

/// Setting or clearing one bit of a word flips exactly that bit.
proof fn lemma_bit_update(word: u64, bit_offset: u64, new_value: bool, updated: u64)
    requires
        bit_offset < 64,
        updated == if new_value {
            word | (1u64 << bit_offset)
        } else {
            word & !(1u64 << bit_offset)
        },
    ensures
        ((updated >> bit_offset) & 1 == 1) == new_value,
{
    if new_value {
        assert(((word | (1u64 << bit_offset)) >> bit_offset) & 1 == 1) by (bit_vector)
            requires
                bit_offset < 64,
        ;
    } else {
        assert(((word & !(1u64 << bit_offset)) >> bit_offset) & 1 == 0) by (bit_vector)
            requires
                bit_offset < 64,
        ;
    }
}

} // verus!

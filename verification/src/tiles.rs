//! How an image is cut into tiles, one for each task of the worker pool.
//!
//! Each side of the image is split into as many equal blocks as the largest
//! power of two that divides it, so the blocks fit without a remainder and
//! every pixel belongs to exactly one tile.

use vstd::prelude::*;
use vstd::arithmetic::div_mod::{
    lemma_fundamental_div_mod,
    lemma_fundamental_div_mod_converse,
};
use vstd::arithmetic::mul::{lemma_mul_is_distributive_add_other_way, lemma_mul_inequality};
use crate::bits::{highest_power_of_2, largest_pow2_divisor};

verus! {

/// A rectangle of pixels: the columns `left..right` of the rows
/// `bottom..top`, rows counted from the bottom of the picture.
#[derive(Clone, Copy, Debug, PartialEq, Eq, Structural)]
pub struct Tile {
    pub left: u32,
    pub right: u32,
    pub bottom: u32,
    pub top: u32,
}

impl Tile {
    /// The sides are in order; a tile may be empty.
    pub open spec fn wf(self) -> bool {
        self.left <= self.right && self.bottom <= self.top
    }

    /// Whether the pixel in column `x` of row `y` lies in the tile.
    pub open spec fn contains(self, x: int, y: int) -> bool {
        self.left <= x < self.right && self.bottom <= y < self.top
    }

    /// The number of pixels in the tile.
    pub open spec fn area(self) -> nat {
        ((self.right - self.left) * (self.top - self.bottom)) as nat
    }

    /// The place of the pixel `(x, y)` among the pixels of the tile, taken
    /// column by column and each column from the bottom up.
    pub open spec fn offset(self, x: int, y: int) -> int {
        (x - self.left) * (self.top - self.bottom) + (y - self.bottom)
    }

    /// The number of pixels in the tile.
    pub fn pixel_count(&self) -> (count: u64)
        requires
            self.wf(),
        ensures
            count == self.area(),
    {
        let width = self.right - self.left;
        let height = self.top - self.bottom;
        assert(0 <= width * height <= u64::MAX) by (nonlinear_arith)
            requires
                0 <= width <= u32::MAX,
                0 <= height <= u32::MAX,
        ;
        width as u64 * height as u64
    }

    /// The pixel that stands at the place `k` among the pixels of the tile,
    /// taken column by column and each column from the bottom up: the one
    /// pixel of the tile whose `offset` is `k`.
    pub fn pixel_at(&self, k: u64) -> (p: (u32, u32))
        requires
            self.wf(),
            k < self.area(),
        ensures
            self.contains(p.0 as int, p.1 as int),
            self.offset(p.0 as int, p.1 as int) == k,
    {
        let width: u32 = self.right - self.left;
        let height: u32 = self.top - self.bottom;
        assert(height > 0 && width > 0) by (nonlinear_arith)
            requires
                0 <= k < width * height,
                width >= 0,
                height >= 0,
        ;
        let column: u64 = k / (height as u64);
        let row: u64 = k % (height as u64);
        proof {
            lemma_fundamental_div_mod(k as int, height as int);
            assert(height * column == column * height) by (nonlinear_arith);
            if column >= width {
                lemma_mul_inequality(width as int, column as int, height as int);
            }
        }
        (self.left + column as u32, self.bottom + row as u32)
    }
}

/// Every pixel of a tile has a place among its pixels.
pub proof fn lemma_offset_in_range(tile: Tile, x: int, y: int)
    requires
        tile.contains(x, y),
    ensures
        0 <= tile.offset(x, y) < tile.area(),
{
    let height = tile.top - tile.bottom;
    let width = tile.right - tile.left;
    let column = x - tile.left;
    assert(0 <= column * height && column * height + height <= width * height)
        by (nonlinear_arith)
        requires
            0 <= column < width,
            0 < height,
    ;
}

/// Two pixels of a tile do not share a place.
pub proof fn lemma_offset_unique(tile: Tile, x1: int, y1: int, x2: int, y2: int)
    requires
        tile.contains(x1, y1),
        tile.contains(x2, y2),
        tile.offset(x1, y1) == tile.offset(x2, y2),
    ensures
        x1 == x2,
        y1 == y2,
{
    let height = tile.top - tile.bottom;
    lemma_fundamental_div_mod_converse(
        tile.offset(x1, y1),
        height,
        x1 - tile.left,
        y1 - tile.bottom,
    );
    lemma_fundamental_div_mod_converse(
        tile.offset(x2, y2),
        height,
        x2 - tile.left,
        y2 - tile.bottom,
    );
}

/// A grid of equal blocks laid over an image.
pub struct GridView {
    pub width: nat,
    pub height: nat,
    pub block_width: nat,
    pub block_height: nat,
}

impl GridView {
    /// The blocks are not empty, they fill each side of the image without a
    /// remainder, and the image is no larger than a `u32` can say.
    pub open spec fn wf(self) -> bool {
        &&& self.block_width > 0
        &&& self.block_height > 0
        &&& self.width % self.block_width == 0
        &&& self.height % self.block_height == 0
        &&& self.width <= u32::MAX
        &&& self.height <= u32::MAX
    }

    /// The grid that the renderer lays over an image of the given size.
    pub open spec fn of_image(width: nat, height: nat) -> GridView {
        GridView {
            width,
            height,
            block_width: width / largest_pow2_divisor(width),
            block_height: height / largest_pow2_divisor(height),
        }
    }

    pub open spec fn columns(self) -> nat {
        self.width / self.block_width
    }

    pub open spec fn rows(self) -> nat {
        self.height / self.block_height
    }

    /// The tile in the given column and row of the grid.
    pub open spec fn tile(self, column: nat, row: nat) -> Tile {
        Tile {
            left: (column * self.block_width) as u32,
            right: ((column + 1) * self.block_width) as u32,
            bottom: (row * self.block_height) as u32,
            top: ((row + 1) * self.block_height) as u32,
        }
    }

    /// All tiles, column by column, each column from the bottom up.
    pub open spec fn tiles(self) -> Seq<Tile> {
        Seq::new(
            self.columns() * self.rows(),
            |i: int| self.tile((i / self.rows() as int) as nat, (i % self.rows() as int) as nat),
        )
    }

    /// Whether the pixel in column `x` of row `y` belongs to the image.
    pub open spec fn in_image(self, x: int, y: int) -> bool {
        0 <= x < self.width && 0 <= y < self.height
    }

    /// The place in `tiles()` of the tile that holds the pixel `(x, y)`.
    pub open spec fn index_of(self, x: int, y: int) -> int {
        (x / self.block_width as int) * self.rows() + y / self.block_height as int
    }
}

/// A side of `n` pixels cut into blocks of `block` pixels: there are `n / block`
/// blocks, the block `k` ends where the block `k + 1` begins, and the last
/// one ends at `n`.
proof fn lemma_blocks_fill_side(n: nat, block: nat, k: nat)
    requires
        block > 0,
        n % block == 0,
        k < n / block,
    ensures
        k * block < (k + 1) * block <= n,
        (k + 1) * block == k * block + block,
{
    let count = n / block;
    lemma_fundamental_div_mod(n as int, block as int);
    lemma_mul_is_distributive_add_other_way(block as int, k as int, 1);
    lemma_mul_inequality(k as int + 1, count as int, block as int);
    assert(block * count == count * block) by (nonlinear_arith);
}

/// The only block of a side that holds the position `x` is the block
/// `x / block`.
proof fn lemma_block_of_position(block: nat, k: nat, x: nat)
    requires
        block > 0,
    ensures
        k * block <= x < (k + 1) * block <==> k == x / block,
{
    lemma_fundamental_div_mod(x as int, block as int);
    lemma_mul_is_distributive_add_other_way(block as int, k as int, 1);
    if k * block <= x < (k + 1) * block {
        lemma_fundamental_div_mod_converse(x as int, block as int, k as int, x - k * block);
    } else if k == x / block {
        assert(block * k == k * block) by (nonlinear_arith);
    }
}

/// The grid of tiles over one image.
pub struct TileGrid {
    width: u32,
    height: u32,
    block_width: u32,
    block_height: u32,
}

impl View for TileGrid {
    type V = GridView;

    closed spec fn view(&self) -> GridView {
        GridView {
            width: self.width as nat,
            height: self.height as nat,
            block_width: self.block_width as nat,
            block_height: self.block_height as nat,
        }
    }
}

impl TileGrid {
    #[verifier::type_invariant]
    spec fn inv(self) -> bool {
        self@.wf() && self.width > 0 && self.height > 0
    }

    /// Lays the grid over an image of `width` by `height` pixels: each side
    /// is cut into as many blocks as the largest power of two dividing it.
    pub fn new(width: u32, height: u32) -> (grid: TileGrid)
        requires
            width > 0,
            height > 0,
        ensures
            grid@ == GridView::of_image(width as nat, height as nat),
            grid@.wf(),
            grid@.columns() == largest_pow2_divisor(width as nat),
            grid@.rows() == largest_pow2_divisor(height as nat),
    {
        let columns = highest_power_of_2(width);
        let rows = highest_power_of_2(height);
        let block_width = width / columns;
        let block_height = height / rows;
        proof {
            lemma_fundamental_div_mod(width as int, columns as int);
            lemma_fundamental_div_mod(height as int, rows as int);
            lemma_fundamental_div_mod_converse(
                width as int,
                block_width as int,
                columns as int,
                0,
            );
            lemma_fundamental_div_mod_converse(
                height as int,
                block_height as int,
                rows as int,
                0,
            );
        }
        TileGrid { width, height, block_width, block_height }
    }

    /// The number of pixels in a row of the image; there is at least one.
    pub fn width(&self) -> (width: u32)
        ensures
            width == self@.width,
            width > 0,
    {
        proof {
            use_type_invariant(self);
        }
        self.width
    }

    /// The number of rows of the image; there is at least one.
    pub fn height(&self) -> (height: u32)
        ensures
            height == self@.height,
            height > 0,
    {
        proof {
            use_type_invariant(self);
        }
        self.height
    }

    /// The number of pixels in a row of a tile.
    pub fn block_width(&self) -> (block_width: u32)
        ensures
            block_width == self@.block_width,
    {
        self.block_width
    }

    /// The number of rows of a tile.
    pub fn block_height(&self) -> (block_height: u32)
        ensures
            block_height == self@.block_height,
    {
        self.block_height
    }

    /// The number of tiles side by side.
    pub fn columns(&self) -> (columns: u32)
        ensures
            self@.wf(),
            columns == self@.columns(),
    {
        proof {
            use_type_invariant(self);
        }
        self.width / self.block_width
    }

    /// The number of tiles above one another.
    pub fn rows(&self) -> (rows: u32)
        ensures
            self@.wf(),
            rows == self@.rows(),
    {
        proof {
            use_type_invariant(self);
        }
        self.height / self.block_height
    }

    /// The tile in the given column and row of the grid.
    pub fn tile(&self, column: u32, row: u32) -> (tile: Tile)
        requires
            column < self@.columns(),
            row < self@.rows(),
        ensures
            tile == self@.tile(column as nat, row as nat),
            tile.left == column * self@.block_width,
            tile.right == tile.left + self@.block_width,
            tile.right <= self@.width,
            tile.bottom == row * self@.block_height,
            tile.top == tile.bottom + self@.block_height,
            tile.top <= self@.height,
    {
        proof {
            use_type_invariant(self);
            lemma_blocks_fill_side(self@.width, self@.block_width, column as nat);
            lemma_blocks_fill_side(self@.height, self@.block_height, row as nat);
        }
        let left = column * self.block_width;
        let bottom = row * self.block_height;
        Tile {
            left,
            right: left + self.block_width,
            bottom,
            top: bottom + self.block_height,
        }
    }

    /// All tiles of the grid, column by column, each column from the bottom
    /// up.
    pub fn tiles(&self) -> (tiles: Vec<Tile>)
        ensures
            self@.wf(),
            tiles@ == self@.tiles(),
    {
        let columns = self.columns();
        let rows = self.rows();
        let mut tiles: Vec<Tile> = Vec::new();
        let mut column: u32 = 0;
        while column < columns
            invariant
                column <= columns,
                columns == self@.columns(),
                rows == self@.rows(),
                tiles@.len() == column * rows,
                forall|i: int|
                    0 <= i < tiles@.len() ==> tiles@[i] == self@.tile(
                        (i / rows as int) as nat,
                        (i % rows as int) as nat,
                    ),
            decreases columns - column,
        {
            let mut row: u32 = 0;
            while row < rows
                invariant
                    row <= rows,
                    column < columns,
                    columns == self@.columns(),
                    rows == self@.rows(),
                    tiles@.len() == column * rows + row,
                    forall|i: int|
                        0 <= i < tiles@.len() ==> tiles@[i] == self@.tile(
                            (i / rows as int) as nat,
                            (i % rows as int) as nat,
                        ),
                decreases rows - row,
            {
                proof {
                    lemma_fundamental_div_mod_converse(
                        column * rows + row,
                        rows as int,
                        column as int,
                        row as int,
                    );
                }
                tiles.push(self.tile(column, row));
                row += 1;
            }
            proof {
                lemma_mul_is_distributive_add_other_way(rows as int, column as int, 1);
            }
            column += 1;
        }
        assert(tiles@ =~= self@.tiles());
        tiles
    }

    /// The number of tiles.
    pub fn tile_count(&self) -> (count: u64)
        ensures
            count == self@.columns() * self@.rows(),
            count == self@.tiles().len(),
    {
        let columns = self.columns();
        let rows = self.rows();
        assert(columns * rows <= u64::MAX) by (nonlinear_arith)
            requires
                columns <= u32::MAX,
                rows <= u32::MAX,
        ;
        columns as u64 * rows as u64
    }

    /// The number of pixels of the image.
    pub fn pixel_count(&self) -> (count: u64)
        ensures
            count == self@.width * self@.height,
    {
        assert(self.width * self.height <= u64::MAX) by (nonlinear_arith)
            requires
                self.width <= u32::MAX,
                self.height <= u32::MAX,
        ;
        self.width as u64 * self.height as u64
    }
}

/// The tiles of a grid lie inside the image, and each pixel of the image
/// lies in exactly one of them: in the tile at `index_of(x, y)` and in no
/// other.
pub proof fn lemma_tiles_partition_image(grid: GridView)
    requires
        grid.wf(),
    ensures
        forall|x: int, y: int| #[trigger]
            grid.in_image(x, y) ==> 0 <= grid.index_of(x, y) < grid.tiles().len()
                && grid.tiles()[grid.index_of(x, y)].contains(x, y),
        forall|i: int, x: int, y: int|
            0 <= i < grid.tiles().len() && #[trigger] grid.tiles()[i].contains(x, y)
                ==> grid.in_image(x, y) && i == grid.index_of(x, y),
{
    let rows = grid.rows();
    let columns = grid.columns();
    assert forall|x: int, y: int| #[trigger] grid.in_image(x, y) implies 0 <= grid.index_of(x, y)
        < grid.tiles().len() && grid.tiles()[grid.index_of(x, y)].contains(x, y) by {
        lemma_position_in_grid(grid, x as nat, y as nat);
    }
    assert forall|i: int, x: int, y: int|
        0 <= i < grid.tiles().len() && #[trigger] grid.tiles()[i].contains(
            x,
            y,
        ) implies grid.in_image(x, y) && i == grid.index_of(x, y) by {
        lemma_index_in_grid(grid, i);
        let column = (i / rows as int) as nat;
        let row = (i % rows as int) as nat;
        lemma_blocks_fill_side(grid.width, grid.block_width, column);
        lemma_blocks_fill_side(grid.height, grid.block_height, row);
        lemma_block_of_position(grid.block_width, column, x as nat);
        lemma_block_of_position(grid.block_height, row, y as nat);
        lemma_fundamental_div_mod(i, rows as int);
        assert(rows * column == column * rows) by (nonlinear_arith);
    }
}

/// Every tile of a grid has its sides in order, lies inside the image and
/// has as many pixels as a block; all tiles together have as many pixels as
/// the image.
pub proof fn lemma_tiles_shape(grid: GridView)
    requires
        grid.wf(),
    ensures
        forall|i: int|
            0 <= i < grid.tiles().len() ==> (#[trigger] grid.tiles()[i]).wf() && grid.tiles()[i].right
                <= grid.width && grid.tiles()[i].top <= grid.height && grid.tiles()[i].area()
                == grid.block_width * grid.block_height,
        grid.tiles().len() * (grid.block_width * grid.block_height) == grid.width * grid.height,
{
    assert forall|i: int| 0 <= i < grid.tiles().len() implies (#[trigger] grid.tiles()[i]).wf()
        && grid.tiles()[i].right <= grid.width && grid.tiles()[i].top <= grid.height
        && grid.tiles()[i].area() == grid.block_width * grid.block_height by {
        lemma_index_in_grid(grid, i);
        let column = (i / grid.rows() as int) as nat;
        let row = (i % grid.rows() as int) as nat;
        lemma_blocks_fill_side(grid.width, grid.block_width, column);
        lemma_blocks_fill_side(grid.height, grid.block_height, row);
    }
    let columns = grid.columns();
    let rows = grid.rows();
    lemma_fundamental_div_mod(grid.width as int, grid.block_width as int);
    lemma_fundamental_div_mod(grid.height as int, grid.block_height as int);
    assert((columns * rows) * (grid.block_width * grid.block_height) == (grid.block_width
        * columns) * (grid.block_height * rows)) by (nonlinear_arith);
}

/// A place in `tiles()` stands for a column and a row of the grid.
proof fn lemma_index_in_grid(grid: GridView, i: int)
    requires
        grid.wf(),
        0 <= i < grid.columns() * grid.rows(),
    ensures
        grid.rows() > 0,
        0 <= i / (grid.rows() as int) < grid.columns(),
        0 <= i % (grid.rows() as int) < grid.rows(),
{
    let rows = grid.rows() as int;
    let columns = grid.columns() as int;
    assert(rows > 0) by (nonlinear_arith)
        requires
            0 <= i < columns * rows,
            rows >= 0,
            columns >= 0,
    ;
    lemma_fundamental_div_mod(i, rows);
    let q = i / rows;
    if q >= columns {
        lemma_mul_inequality(columns, q, rows);
        assert(rows * q == q * rows) by (nonlinear_arith);
    }
    if q < 0 {
        assert(rows * q <= -rows) by (nonlinear_arith)
            requires
                q <= -1,
                rows > 0,
        ;
    }
}

/// The tile at `index_of(x, y)` holds the pixel `(x, y)` of the image.
proof fn lemma_position_in_grid(grid: GridView, x: nat, y: nat)
    requires
        grid.wf(),
        grid.in_image(x as int, y as int),
    ensures
        0 <= grid.index_of(x as int, y as int) < grid.tiles().len(),
        grid.tiles()[grid.index_of(x as int, y as int)].contains(x as int, y as int),
{
    let rows = grid.rows();
    let columns = grid.columns();
    let column = x / grid.block_width;
    let row = y / grid.block_height;
    lemma_side_position(grid.width, grid.block_width, x);
    lemma_side_position(grid.height, grid.block_height, y);
    let i = grid.index_of(x as int, y as int);
    assert(i == column * rows + row);
    assert(0 <= i < columns * rows) by (nonlinear_arith)
        requires
            i == column * rows + row,
            column < columns,
            row < rows,
    ;
    lemma_fundamental_div_mod_converse(i, rows as int, column as int, row as int);
    lemma_blocks_fill_side(grid.width, grid.block_width, column);
    lemma_blocks_fill_side(grid.height, grid.block_height, row);
    lemma_block_of_position(grid.block_width, column, x);
    lemma_block_of_position(grid.block_height, row, y);
}

/// A position on a side of `n` pixels falls into one of its `n / block`
/// blocks.
proof fn lemma_side_position(n: nat, block: nat, x: nat)
    requires
        block > 0,
        n % block == 0,
        x < n,
    ensures
        x / block < n / block,
{
    lemma_fundamental_div_mod(n as int, block as int);
    lemma_fundamental_div_mod(x as int, block as int);
    let count = n / block;
    let k = x / block;
    if k >= count {
        lemma_mul_inequality(count as int, k as int, block as int);
        assert(block * k == k * block) by (nonlinear_arith);
        assert(block * count == count * block) by (nonlinear_arith);
    }
}

} // verus!

//! The 8-bit RGB framebuffer that the render workers write into.
//!
//! The pixels live in a buffer of the `image` crate. The renderer counts rows
//! from the bottom of the picture and the buffer from the top, so
//! [`Image::set_pixel`] turns the row over on the way in.

use vstd::prelude::*;
use crate::pixel_buffer::{
    buffer_bytes,
    buffer_get_pixel,
    buffer_height,
    buffer_new,
    buffer_pixels,
    buffer_put_pixel,
    buffer_size,
    buffer_width,
    byte_offset,
    in_bounds,
    PixelBuffer,
};
use crate::tiles::{
    lemma_offset_in_range,
    lemma_offset_unique,
    lemma_tiles_partition_image,
    lemma_tiles_shape,
    GridView,
    Tile,
    TileGrid,
};

verus! {

/// What an [`Image`] holds: its size and a colour for each pixel, the row 0
/// being the top one.
pub struct ImageView {
    pub width: u32,
    pub height: u32,
    pub pixels: Map<(int, int), (u8, u8, u8)>,
}

impl ImageView {
    /// There is a pixel for every coordinate inside the image and for no other.
    pub open spec fn wf(self) -> bool {
        self.pixels.dom() =~= in_bounds(self.width, self.height)
    }

    /// The all-black image of the given size.
    pub open spec fn blank(width: u32, height: u32) -> ImageView {
        ImageView {
            width,
            height,
            pixels: Map::new(
                |p: (int, int)| in_bounds(width, height).contains(p),
                |p: (int, int)| (0u8, 0u8, 0u8),
            ),
        }
    }

    /// The row of the buffer that holds the renderer's row `y`, which is
    /// counted from the bottom.
    pub open spec fn flip(self, y: int) -> int {
        self.height - 1 - y
    }

    /// The image after the renderer's pixel `(x, y)` was set to `rgb`.
    pub open spec fn set(self, x: int, y: int, rgb: (u8, u8, u8)) -> ImageView {
        ImageView { pixels: self.pixels.insert((x, self.flip(y)), rgb), ..self }
    }

    /// The image after the pixels of `tile` were set to `colors`, which
    /// holds them column by column, each column from the bottom up.
    pub open spec fn with_tile(self, tile: Tile, colors: Seq<(u8, u8, u8)>) -> ImageView {
        ImageView {
            pixels: Map::new(
                |p: (int, int)|
                    self.pixels.dom().contains(p) || tile.contains(p.0, self.flip(p.1)),
                |p: (int, int)|
                    if tile.contains(p.0, self.flip(p.1)) {
                        colors[tile.offset(p.0, self.flip(p.1))]
                    } else {
                        self.pixels[p]
                    },
            ),
            ..self
        }
    }

    /// The picture put together from the tiles of a grid, where `tiles[i]`
    /// holds the colours of the grid's tile `i`, column by column and each
    /// column from the bottom up.
    pub open spec fn assembled(grid: GridView, tiles: Seq<Seq<(u8, u8, u8)>>) -> ImageView {
        let blank = ImageView::blank(grid.width as u32, grid.height as u32);
        ImageView {
            pixels: Map::new(
                |p: (int, int)| in_bounds(blank.width, blank.height).contains(p),
                |p: (int, int)|
                    {
                        let x = p.0;
                        let y = blank.flip(p.1);
                        let i = grid.index_of(x, y);
                        tiles[i][grid.tiles()[i].offset(x, y)]
                    },
            ),
            ..blank
        }
    }

    /// Whether the place `p` of the buffer holds one of the first `count`
    /// pixels of `tile`.
    spec fn begun(self, tile: Tile, count: int, p: (int, int)) -> bool {
        tile.contains(p.0, self.flip(p.1)) && tile.offset(p.0, self.flip(p.1)) < count
    }

    /// The image after the first `count` pixels of `tile` were set to the
    /// first `count` of `colors`.
    spec fn with_tile_begun(self, tile: Tile, colors: Seq<(u8, u8, u8)>, count: int) -> ImageView {
        ImageView {
            pixels: Map::new(
                |p: (int, int)| self.pixels.dom().contains(p) || self.begun(tile, count, p),
                |p: (int, int)|
                    if self.begun(tile, count, p) {
                        colors[tile.offset(p.0, self.flip(p.1))]
                    } else {
                        self.pixels[p]
                    },
            ),
            ..self
        }
    }

    /// The picture put together from the first `count` tiles of a grid, black
    /// where the other tiles lie.
    spec fn assembled_so_far(
        grid: GridView,
        tiles: Seq<Seq<(u8, u8, u8)>>,
        count: int,
    ) -> ImageView {
        let blank = ImageView::blank(grid.width as u32, grid.height as u32);
        ImageView {
            pixels: Map::new(
                |p: (int, int)| in_bounds(blank.width, blank.height).contains(p),
                |p: (int, int)|
                    {
                        let x = p.0;
                        let y = blank.flip(p.1);
                        let i = grid.index_of(x, y);
                        if i < count {
                            tiles[i][grid.tiles()[i].offset(x, y)]
                        } else {
                            (0u8, 0u8, 0u8)
                        }
                    },
            ),
            ..blank
        }
    }
}

/// Once every pixel of a tile is set, the tile is written.
proof fn lemma_tile_finished(view: ImageView, tile: Tile, colors: Seq<(u8, u8, u8)>)
    requires
        colors.len() == tile.area(),
    ensures
        view.with_tile_begun(tile, colors, colors.len() as int) == view.with_tile(tile, colors),
{
    let one = view.with_tile_begun(tile, colors, colors.len() as int);
    let other = view.with_tile(tile, colors);
    assert forall|p: (int, int)|
        tile.contains(p.0, view.flip(p.1)) implies #[trigger] view.begun(
        tile,
        colors.len() as int,
        p,
    ) by {
        lemma_offset_in_range(tile, p.0, view.flip(p.1));
    }
    assert(one.pixels =~= other.pixels);
}

/// Before any pixel of a tile is set, the image is as it was.
proof fn lemma_tile_not_begun(view: ImageView, tile: Tile, colors: Seq<(u8, u8, u8)>)
    ensures
        view.with_tile_begun(tile, colors, 0) == view,
{
    assert forall|p: (int, int)| !#[trigger] view.begun(tile, 0, p) by {
        if tile.contains(p.0, view.flip(p.1)) {
            lemma_offset_in_range(tile, p.0, view.flip(p.1));
        }
    }
    assert(view.with_tile_begun(tile, colors, 0).pixels =~= view.pixels);
}

/// Writing the next tile of a grid carries the picture from its first `count`
/// tiles to its first `count + 1`: the tile lies where the picture is still
/// black, and no other tile is touched.
proof fn lemma_assembly_continued(grid: GridView, tiles: Seq<Seq<(u8, u8, u8)>>, count: int)
    requires
        grid.wf(),
        0 <= count < grid.tiles().len(),
    ensures
        ImageView::assembled_so_far(grid, tiles, count).with_tile(grid.tiles()[count], tiles[count])
            == ImageView::assembled_so_far(grid, tiles, count + 1),
{
    lemma_tiles_partition_image(grid);
    let tile = grid.tiles()[count];
    let before = ImageView::assembled_so_far(grid, tiles, count);
    let one = before.with_tile(tile, tiles[count]);
    let other = ImageView::assembled_so_far(grid, tiles, count + 1);
    assert forall|p: (int, int)| #[trigger]
        one.pixels.dom().contains(p) == other.pixels.dom().contains(p) by {
        if tile.contains(p.0, before.flip(p.1)) {
            assert(grid.tiles()[count].contains(p.0, before.flip(p.1)));
        }
    }
    assert forall|p: (int, int)| #[trigger]
        one.pixels.dom().contains(p) implies one.pixels[p] == other.pixels[p] by {
        let x = p.0;
        let y = before.flip(p.1);
        if tile.contains(x, y) {
            assert(grid.tiles()[count].contains(x, y));
        } else {
            assert(grid.in_image(x, y));
        }
    }
    assert(one.pixels =~= other.pixels);
}

/// Once every tile of a grid is written, the picture is put together.
proof fn lemma_assembly_finished(grid: GridView, tiles: Seq<Seq<(u8, u8, u8)>>)
    requires
        grid.wf(),
        tiles.len() == grid.tiles().len(),
    ensures
        ImageView::assembled_so_far(grid, tiles, tiles.len() as int) == ImageView::assembled(
            grid,
            tiles,
        ),
{
    lemma_tiles_partition_image(grid);
    let one = ImageView::assembled_so_far(grid, tiles, tiles.len() as int);
    let other = ImageView::assembled(grid, tiles);
    assert forall|p: (int, int)| #[trigger]
        one.pixels.dom().contains(p) implies one.pixels[p] == other.pixels[p] by {
        assert(grid.in_image(p.0, one.flip(p.1)));
    }
    assert(one.pixels =~= other.pixels);
}

/// Setting the next pixel of a tile carries the image from its first `count`
/// pixels to its first `count + 1`.
proof fn lemma_tile_continued(
    view: ImageView,
    tile: Tile,
    colors: Seq<(u8, u8, u8)>,
    x: int,
    y: int,
)
    requires
        tile.contains(x, y),
        0 <= tile.offset(x, y) < colors.len(),
    ensures
        view.with_tile_begun(tile, colors, tile.offset(x, y)).set(
            x,
            y,
            colors[tile.offset(x, y)],
        ) == view.with_tile_begun(tile, colors, tile.offset(x, y) + 1),
{
    let count = tile.offset(x, y);
    let one = view.with_tile_begun(tile, colors, count).set(x, y, colors[count]);
    let other = view.with_tile_begun(tile, colors, count + 1);
    assert forall|p: (int, int)| #[trigger]
        one.pixels.dom().contains(p) == other.pixels.dom().contains(p) by {
        if view.begun(tile, count + 1, p) && !view.begun(tile, count, p) {
            lemma_offset_unique(tile, p.0, view.flip(p.1), x, y);
        }
    }
    assert forall|p: (int, int)| #[trigger]
        one.pixels.dom().contains(p) implies one.pixels[p] == other.pixels[p] by {
        if view.begun(tile, count + 1, p) && !view.begun(tile, count, p) {
            lemma_offset_unique(tile, p.0, view.flip(p.1), x, y);
        }
    }
    assert(one.pixels =~= other.pixels);
}

/// A framebuffer of 8-bit RGB pixels with a fixed size.
pub struct Image {
    buffer: PixelBuffer,
}

impl View for Image {
    type V = ImageView;

    closed spec fn view(&self) -> ImageView {
        ImageView {
            width: buffer_size(self.buffer).0,
            height: buffer_size(self.buffer).1,
            pixels: buffer_pixels(self.buffer),
        }
    }
}

impl Image {
    /// Makes a black image of the given size. Three bytes a pixel must fit
    /// in a buffer, and so must three bytes for each pixel of a row even when
    /// there is no row.
    pub fn new(width: u32, height: u32) -> (image: Image)
        requires
            3 * width <= usize::MAX,
            3 * (width * height) <= isize::MAX,
        ensures
            image@ == ImageView::blank(width, height),
            image@.wf(),
    {
        Image { buffer: buffer_new(width, height) }
    }

    pub fn width(&self) -> (width: u32)
        ensures
            width == self@.width,
    {
        buffer_width(&self.buffer)
    }

    pub fn height(&self) -> (height: u32)
        ensures
            height == self@.height,
    {
        buffer_height(&self.buffer)
    }

    /// Stores `rgb` as the colour of the pixel in column `x` of the row `y`
    /// counted from the bottom of the picture. No other pixel changes.
    pub fn set_pixel(&mut self, x: u32, y: u32, rgb: (u8, u8, u8))
        requires
            x < old(self)@.width,
            y < old(self)@.height,
        ensures
            final(self)@ == old(self)@.set(x as int, y as int, rgb),
            old(self)@.wf() ==> final(self)@.wf(),
    {
        let row = (self.height() - 1) - y;
        buffer_put_pixel(&mut self.buffer, x, row, rgb);
        proof {
            if old(self)@.wf() {
                assert(final(self)@.pixels.dom() =~= old(self)@.pixels.dom());
            }
        }
    }

    /// Stores `colors` as the pixels of `tile`: they stand column by column,
    /// each column from the bottom up. No pixel outside the tile changes.
    pub fn write_tile(&mut self, tile: &Tile, colors: &[(u8, u8, u8)])
        requires
            tile.wf(),
            tile.right <= old(self)@.width,
            tile.top <= old(self)@.height,
            colors@.len() == tile.area(),
        ensures
            final(self)@ == old(self)@.with_tile(*tile, colors@),
            old(self)@.wf() ==> final(self)@.wf(),
    {
        let ghost before = self@;
        let mut next: usize = 0;
        let mut x = tile.left;
        proof {
            lemma_tile_not_begun(before, *tile, colors@);
        }
        while x < tile.right
            invariant
                tile.wf(),
                tile.right <= before.width,
                tile.top <= before.height,
                colors@.len() == tile.area(),
                tile.left <= x <= tile.right,
                next == tile.offset(x as int, tile.bottom as int),
                self@ == before.with_tile_begun(*tile, colors@, next as int),
                before.wf() ==> self@.wf(),
            decreases tile.right - x,
        {
            let mut y = tile.bottom;
            while y < tile.top
                invariant
                    tile.wf(),
                    tile.right <= before.width,
                    tile.top <= before.height,
                    colors@.len() == tile.area(),
                    tile.left <= x < tile.right,
                    tile.bottom <= y <= tile.top,
                    next == tile.offset(x as int, y as int),
                    self@ == before.with_tile_begun(*tile, colors@, next as int),
                    before.wf() ==> self@.wf(),
                decreases tile.top - y,
            {
                proof {
                    lemma_offset_in_range(*tile, x as int, y as int);
                    lemma_tile_continued(before, *tile, colors@, x as int, y as int);
                }
                self.set_pixel(x, y, colors[next]);
                next += 1;
                y += 1;
            }
            assert(tile.offset(x as int, tile.top as int) == tile.offset(
                x + 1,
                tile.bottom as int,
            )) by (nonlinear_arith);
            x += 1;
        }
        proof {
            let height = tile.top - tile.bottom;
            let width = tile.right - tile.left;
            assert(next == colors@.len()) by (nonlinear_arith)
                requires
                    next == width * height + (tile.bottom - tile.bottom),
                    colors@.len() == width * height,
            ;
            lemma_tile_finished(before, *tile, colors@);
        }
    }

    /// Puts a picture together from the tiles of `grid`: `tiles[i]` holds
    /// the colours of the grid's tile `i`, column by column and each column
    /// from the bottom up. There is no picture when the tiles do not fit the
    /// grid, or when the picture would be larger than a buffer can be.
    pub fn from_tiles(grid: &TileGrid, tiles: &Vec<Vec<(u8, u8, u8)>>) -> (image: Option<Image>)
        ensures
            image.is_some() <==> tiles_fit(grid@, tiles.deep_view()) && 3 * (grid@.width
                * grid@.height) <= isize::MAX,
            image matches Some(image) ==> image@ == ImageView::assembled(
                grid@,
                tiles.deep_view(),
            ) && image@.wf(),
    {
        let ghost colors = tiles.deep_view();
        let width = grid.width();
        let height = grid.height();
        if grid.pixel_count() > (isize::MAX as u64) / 3 {
            return None;
        }
        if tiles.len() as u64 != grid.tile_count() {
            return None;
        }
        let grid_tiles = grid.tiles();
        proof {
            lemma_tiles_shape(grid@);
        }
        let mut i: usize = 0;
        while i < tiles.len()
            invariant
                i <= tiles.len(),
                colors == tiles.deep_view(),
                grid_tiles@ == grid@.tiles(),
                tiles.len() == grid_tiles.len(),
                forall|j: int| 0 <= j < grid@.tiles().len() ==> (#[trigger] grid@.tiles()[j]).wf(),
                forall|j: int| 0 <= j < i ==> (#[trigger] colors[j]).len() == grid@.tiles()[j].area(),
            decreases tiles.len() - i,
        {
            assert(colors[i as int] =~= tiles@[i as int]@);
            if tiles[i].len() as u64 != grid_tiles[i].pixel_count() {
                return None;
            }
            i += 1;
        }
        assert(3 * width <= 3 * (width * height)) by (nonlinear_arith)
            requires
                width > 0,
                height > 0,
        ;
        let mut image = Image::new(width, height);
        assert(image@.pixels =~= ImageView::assembled_so_far(grid@, colors, 0).pixels);
        proof {
            lemma_assembly_finished(grid@, colors);
        }
        let mut i: usize = 0;
        while i < tiles.len()
            invariant
                i <= tiles.len(),
                grid@.wf(),
                colors == tiles.deep_view(),
                grid_tiles@ == grid@.tiles(),
                tiles.len() == grid_tiles.len(),
                tiles_fit(grid@, colors),
                image@ == ImageView::assembled_so_far(grid@, colors, i as int),
            decreases tiles.len() - i,
        {
            proof {
                lemma_tiles_shape(grid@);
                lemma_assembly_continued(grid@, colors, i as int);
                assert(colors[i as int] =~= tiles@[i as int]@);
            }
            image.write_tile(&grid_tiles[i], tiles[i].as_slice());
            i += 1;
        }
        Some(image)
    }

    /// The colour stored in column `x` of row `y`, rows counted from the top.
    pub fn get_pixel(&self, x: u32, y: u32) -> (rgb: (u8, u8, u8))
        requires
            x < self@.width,
            y < self@.height,
        ensures
            rgb == self@.pixels[(x as int, y as int)],
    {
        buffer_get_pixel(&self.buffer, x, y)
    }

    /// The pixels as bytes, the top row first, each row from left to right,
    /// red, green and blue of a pixel in turn.
    pub fn to_bytes(&self) -> (bytes: Vec<u8>)
        ensures
            bytes@.len() == 3 * (self@.width * self@.height),
            forall|x: int, y: int|
                0 <= x < self@.width && 0 <= y < self@.height ==> {
                    let at = byte_offset(self@.width, x, y);
                    (bytes@[at], bytes@[at + 1], bytes@[at + 2]) == #[trigger] self@.pixels[(x, y)]
                },
    {
        buffer_bytes(&self.buffer)
    }
}

/// Whether `tiles` holds, for each tile of the grid, as many colours as the
/// tile has pixels.
pub open spec fn tiles_fit(grid: GridView, tiles: Seq<Seq<(u8, u8, u8)>>) -> bool {
    &&& tiles.len() == grid.tiles().len()
    &&& forall|i: int| 0 <= i < tiles.len() ==> (#[trigger] tiles[i]).len() == grid.tiles()[i].area()
}

/// A row of the image is turned over into a row of the image, and turning it
/// over twice gives it back.
pub proof fn lemma_flip_twice(view: ImageView, y: int)
    requires
        0 <= y < view.height,
    ensures
        0 <= view.flip(y) < view.height,
        view.flip(view.flip(y)) == y,
{
}

/// A pixel that was set is found in the same column of the row turned over,
/// and everywhere else the image is as it was.
pub proof fn lemma_set_then_get(view: ImageView, x: int, y: int, rgb: (u8, u8, u8))
    ensures
        view.set(x, y, rgb).width == view.width,
        view.set(x, y, rgb).height == view.height,
        view.set(x, y, rgb).pixels[(x, view.flip(y))] == rgb,
        forall|column: int, row: int|
            (column, row) != (x, view.flip(y)) ==> #[trigger] view.set(x, y, rgb).pixels[(
                column,
                row,
            )] == view.pixels[(column, row)],
{
}

/// Two different pixels can be set in either order: the image is the same.
pub proof fn lemma_sets_commute(
    view: ImageView,
    x1: int,
    y1: int,
    rgb1: (u8, u8, u8),
    x2: int,
    y2: int,
    rgb2: (u8, u8, u8),
)
    requires
        (x1, y1) != (x2, y2),
    ensures
        view.set(x1, y1, rgb1).set(x2, y2, rgb2) == view.set(x2, y2, rgb2).set(x1, y1, rgb1),
{
    let one = view.set(x1, y1, rgb1).set(x2, y2, rgb2);
    let other = view.set(x2, y2, rgb2).set(x1, y1, rgb1);
    assert(one.pixels =~= other.pixels);
}

/// Two different tiles of a grid can be written in either order: the image
/// is the same.
pub proof fn lemma_tile_writes_commute(
    grid: GridView,
    view: ImageView,
    i: int,
    colors_i: Seq<(u8, u8, u8)>,
    j: int,
    colors_j: Seq<(u8, u8, u8)>,
)
    requires
        grid.wf(),
        0 <= i < grid.tiles().len(),
        0 <= j < grid.tiles().len(),
        i != j,
    ensures
        view.with_tile(grid.tiles()[i], colors_i).with_tile(grid.tiles()[j], colors_j)
            == view.with_tile(grid.tiles()[j], colors_j).with_tile(grid.tiles()[i], colors_i),
{
    lemma_tiles_partition_image(grid);
    let one = view.with_tile(grid.tiles()[i], colors_i).with_tile(grid.tiles()[j], colors_j);
    let other = view.with_tile(grid.tiles()[j], colors_j).with_tile(grid.tiles()[i], colors_i);
    assert forall|p: (int, int)|
        !(grid.tiles()[i].contains(p.0, view.flip(p.1)) && #[trigger] grid.tiles()[j].contains(
            p.0,
            view.flip(p.1),
        )) by {
    }
    assert(one.pixels =~= other.pixels);
}

/// When each tile of a grid is rendered into an image of the grid's size,
/// every place of the image is written for exactly one pixel of exactly one
/// tile: no two tiles write to the same place, and none is left out.
pub proof fn lemma_each_place_has_one_writer(grid: GridView, view: ImageView, column: int, row: int)
    requires
        grid.wf(),
        grid.width == view.width,
        grid.height == view.height,
        0 <= column < view.width,
        0 <= row < view.height,
    ensures
        ({
            let x = column;
            let y = view.flip(row);
            let i = grid.index_of(x, y);
            &&& 0 <= i < grid.tiles().len()
            &&& grid.tiles()[i].contains(x, y)
            &&& view.flip(y) == row
            &&& forall|j: int, x2: int, y2: int|
                0 <= j < grid.tiles().len() && #[trigger] grid.tiles()[j].contains(x2, y2) && (
                    x2,
                    view.flip(y2),
                ) == (column, row) ==> j == i && x2 == x && y2 == y
        }),
{
    lemma_tiles_partition_image(grid);
    let x = column;
    let y = view.flip(row);
    assert(grid.in_image(x, y));
}

} // verus!

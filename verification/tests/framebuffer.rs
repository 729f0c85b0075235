use raytracer::framebuffer::Image;
use raytracer::tiles::{Tile, TileGrid};

#[test]
fn test_image_new() {
    let image = Image::new(100, 100);
    assert_eq!(image.width(), 100);
    assert_eq!(image.height(), 100);
}

#[test]
fn new_image_keeps_width_and_height_apart() {
    let image = Image::new(7, 3);
    assert_eq!(image.width(), 7);
    assert_eq!(image.height(), 3);
}

#[test]
fn new_image_is_black() {
    let image = Image::new(4, 3);
    for y in 0..3 {
        for x in 0..4 {
            assert_eq!(image.get_pixel(x, y), (0, 0, 0));
        }
    }
}

#[test]
fn test_image_set_pixel() {
    let mut image = Image::new(100, 100);
    image.set_pixel(50, 50, (255, 0, 0));
    assert_eq!(image.get_pixel(50, 49), (255, 0, 0));
    assert_eq!(image.get_pixel(50, 50), (0, 0, 0));
}

#[test]
fn set_pixel_reaches_the_corners() {
    let mut image = Image::new(4, 3);
    image.set_pixel(0, 0, (1, 2, 3));
    image.set_pixel(3, 2, (4, 5, 6));
    assert_eq!(image.get_pixel(0, 2), (1, 2, 3));
    assert_eq!(image.get_pixel(3, 0), (4, 5, 6));
}

#[test]
fn set_pixel_leaves_the_other_pixels() {
    let mut image = Image::new(5, 4);
    image.set_pixel(1, 1, (10, 20, 30));
    image.set_pixel(2, 3, (40, 50, 60));
    for y in 0..4 {
        for x in 0..5 {
            let expected = if (x, y) == (1, 2) {
                (10, 20, 30)
            } else if (x, y) == (2, 0) {
                (40, 50, 60)
            } else {
                (0, 0, 0)
            };
            assert_eq!(image.get_pixel(x, y), expected);
        }
    }
    assert_eq!(image.width(), 5);
    assert_eq!(image.height(), 4);
}

#[test]
fn set_pixel_overwrites() {
    let mut image = Image::new(2, 2);
    image.set_pixel(1, 0, (9, 9, 9));
    image.set_pixel(1, 0, (1, 2, 3));
    assert_eq!(image.get_pixel(1, 1), (1, 2, 3));
}

#[test]
fn setting_two_pixels_in_either_order_gives_the_same_image() {
    let mut one = Image::new(3, 3);
    one.set_pixel(0, 1, (1, 1, 1));
    one.set_pixel(2, 2, (2, 2, 2));
    let mut other = Image::new(3, 3);
    other.set_pixel(2, 2, (2, 2, 2));
    other.set_pixel(0, 1, (1, 1, 1));
    assert_eq!(one.to_bytes(), other.to_bytes());
}

#[test]
fn row_turned_over_twice_is_the_same_row() {
    let height = 6u32;
    for y in 0..height {
        let mut image = Image::new(1, height);
        image.set_pixel(0, y, (7, 7, 7));
        let row = height - 1 - y;
        assert_eq!(image.get_pixel(0, row), (7, 7, 7));
        assert_eq!(height - 1 - row, y);
    }
}

#[test]
fn to_bytes_goes_row_by_row_from_the_top() {
    let mut image = Image::new(2, 2);
    image.set_pixel(0, 1, (1, 2, 3));
    image.set_pixel(1, 1, (4, 5, 6));
    image.set_pixel(0, 0, (7, 8, 9));
    image.set_pixel(1, 0, (10, 11, 12));
    assert_eq!(image.to_bytes(), vec![1, 2, 3, 4, 5, 6, 7, 8, 9, 10, 11, 12]);
}

#[test]
fn to_bytes_of_a_new_image_is_all_zero() {
    let image = Image::new(3, 2);
    assert_eq!(image.to_bytes(), vec![0u8; 18]);
}

#[test]
fn image_without_pixels() {
    let image = Image::new(0, 5);
    assert_eq!(image.width(), 0);
    assert_eq!(image.height(), 5);
    assert_eq!(image.to_bytes(), Vec::<u8>::new());
}

#[test]
fn to_bytes_matches_an_image_buffer_of_the_same_pixels() {
    let mut image = Image::new(3, 2);
    let mut buffer = image::RgbImage::new(3, 2);
    image.set_pixel(2, 0, (200, 100, 50));
    buffer.put_pixel(2, 1, image::Rgb([200, 100, 50]));
    assert_eq!(&image.to_bytes(), buffer.as_raw());
    let rebuilt = image::RgbImage::from_raw(3, 2, image.to_bytes()).unwrap();
    assert_eq!(rebuilt.get_pixel(2, 1).0, [200, 100, 50]);
}

#[test]
fn write_tile_takes_the_colours_column_by_column_from_the_bottom() {
    let mut image = Image::new(4, 3);
    let tile = Tile { left: 1, right: 3, bottom: 0, top: 3 };
    let colors = vec![(1, 0, 0), (2, 0, 0), (3, 0, 0), (4, 0, 0), (5, 0, 0), (6, 0, 0)];
    image.write_tile(&tile, &colors);
    assert_eq!(image.get_pixel(1, 2), (1, 0, 0));
    assert_eq!(image.get_pixel(1, 1), (2, 0, 0));
    assert_eq!(image.get_pixel(1, 0), (3, 0, 0));
    assert_eq!(image.get_pixel(2, 2), (4, 0, 0));
    assert_eq!(image.get_pixel(2, 1), (5, 0, 0));
    assert_eq!(image.get_pixel(2, 0), (6, 0, 0));
}

#[test]
fn write_tile_leaves_the_pixels_outside_the_tile() {
    let mut image = Image::new(4, 4);
    for x in 0..4 {
        for y in 0..4 {
            image.set_pixel(x, y, (9, 9, 9));
        }
    }
    let tile = Tile { left: 2, right: 4, bottom: 1, top: 3 };
    image.write_tile(&tile, &[(1, 1, 1), (2, 2, 2), (3, 3, 3), (4, 4, 4)]);
    for x in 0..4u32 {
        for y in 0..4u32 {
            let expected = match (x, y) {
                (2, 1) => (1, 1, 1),
                (2, 2) => (2, 2, 2),
                (3, 1) => (3, 3, 3),
                (3, 2) => (4, 4, 4),
                _ => (9, 9, 9),
            };
            assert_eq!(image.get_pixel(x, 3 - y), expected);
        }
    }
}

#[test]
fn write_tile_is_set_pixel_for_each_pixel_in_turn() {
    let tile = Tile { left: 1, right: 4, bottom: 2, top: 4 };
    let colors: Vec<(u8, u8, u8)> = (0..6u8).map(|k| (k, 2 * k, 3 * k)).collect();
    let mut whole = Image::new(5, 5);
    whole.write_tile(&tile, &colors);
    let mut single = Image::new(5, 5);
    let mut next = 0;
    for x in tile.left..tile.right {
        for y in tile.bottom..tile.top {
            single.set_pixel(x, y, colors[next]);
            next += 1;
        }
    }
    assert_eq!(whole.to_bytes(), single.to_bytes());
}

#[test]
fn write_tile_without_pixels_changes_nothing() {
    let mut image = Image::new(3, 3);
    image.set_pixel(1, 1, (5, 5, 5));
    let before = image.to_bytes();
    image.write_tile(&Tile { left: 2, right: 2, bottom: 0, top: 3 }, &[]);
    image.write_tile(&Tile { left: 0, right: 3, bottom: 1, top: 1 }, &[]);
    assert_eq!(image.to_bytes(), before);
}

fn colour_of(x: u32, y: u32) -> (u8, u8, u8) {
    (x as u8, y as u8, (x * 16 + y) as u8)
}

fn rendered(grid: &TileGrid) -> Vec<Vec<(u8, u8, u8)>> {
    grid.tiles()
        .iter()
        .map(|tile| {
            let mut colors = Vec::new();
            for x in tile.left..tile.right {
                for y in tile.bottom..tile.top {
                    colors.push(colour_of(x, y));
                }
            }
            colors
        })
        .collect()
}

#[test]
fn from_tiles_puts_every_pixel_in_its_place() {
    for (width, height) in [(12u32, 6u32), (8, 6), (7, 5), (1, 1), (16, 2)] {
        let grid = TileGrid::new(width, height);
        let image = Image::from_tiles(&grid, &rendered(&grid)).unwrap();
        assert_eq!(image.width(), width);
        assert_eq!(image.height(), height);
        for x in 0..width {
            for y in 0..height {
                assert_eq!(image.get_pixel(x, height - 1 - y), colour_of(x, y));
            }
        }
    }
}

#[test]
fn from_tiles_of_one_tile() {
    let grid = TileGrid::new(3, 1);
    let image = Image::from_tiles(&grid, &vec![vec![(1, 1, 1), (2, 2, 2), (3, 3, 3)]]).unwrap();
    assert_eq!(image.to_bytes(), vec![1, 1, 1, 2, 2, 2, 3, 3, 3]);
}

#[test]
fn from_tiles_wants_a_buffer_for_each_tile() {
    let grid = TileGrid::new(4, 2);
    let mut tiles = rendered(&grid);
    tiles.pop();
    assert!(Image::from_tiles(&grid, &tiles).is_none());
    let mut tiles = rendered(&grid);
    tiles.push(vec![(0, 0, 0)]);
    assert!(Image::from_tiles(&grid, &tiles).is_none());
    assert!(Image::from_tiles(&grid, &Vec::new()).is_none());
}

#[test]
fn from_tiles_wants_a_colour_for_each_pixel() {
    let grid = TileGrid::new(6, 6);
    let mut tiles = rendered(&grid);
    tiles[2].pop();
    assert!(Image::from_tiles(&grid, &tiles).is_none());
    let mut tiles = rendered(&grid);
    tiles[3].push((0, 0, 0));
    assert!(Image::from_tiles(&grid, &tiles).is_none());
}

#[test]
fn from_tiles_turns_down_a_picture_too_large_for_a_buffer() {
    let grid = TileGrid::new(u32::MAX, u32::MAX);
    assert!(Image::from_tiles(&grid, &vec![Vec::new()]).is_none());
}

#[test]
fn image_agrees_with_an_image_buffer_pixel_by_pixel() {
    let (width, height) = (5u32, 4u32);
    let mut image = Image::new(width, height);
    let mut buffer = image::RgbImage::new(width, height);
    for x in 0..width {
        for y in 0..height {
            let rgb = (x as u8 + 1, y as u8 + 1, (x * height + y) as u8);
            image.set_pixel(x, y, rgb);
            buffer.put_pixel(x, height - 1 - y, image::Rgb([rgb.0, rgb.1, rgb.2]));
        }
    }
    assert_eq!(image.width(), buffer.width());
    assert_eq!(image.height(), buffer.height());
    for x in 0..width {
        for row in 0..height {
            let (r, g, b) = image.get_pixel(x, row);
            assert_eq!([r, g, b], buffer.get_pixel(x, row).0);
        }
    }
    assert_eq!(&image.to_bytes(), buffer.as_raw());
}

#[test]
fn to_bytes_has_three_bytes_for_each_pixel() {
    for (width, height) in [(0u32, 0u32), (1, 1), (3, 7), (16, 9)] {
        let image = Image::new(width, height);
        assert_eq!(image.to_bytes().len() as u32, 3 * width * height);
    }
}

#[test]
fn tiles_written_in_either_order_give_the_same_image() {
    let grid = TileGrid::new(12, 6);
    let tiles = grid.tiles();
    let colors = rendered(&grid);
    let mut forward = Image::new(12, 6);
    for i in 0..tiles.len() {
        forward.write_tile(&tiles[i], &colors[i]);
    }
    let mut backward = Image::new(12, 6);
    for i in (0..tiles.len()).rev() {
        backward.write_tile(&tiles[i], &colors[i]);
    }
    assert_eq!(forward.to_bytes(), backward.to_bytes());
    let whole = Image::from_tiles(&grid, &colors).unwrap();
    assert_eq!(forward.to_bytes(), whole.to_bytes());
}

#[test]
fn write_tile_reads_the_colours_in_the_order_of_pixel_at() {
    let tile = Tile { left: 2, right: 5, bottom: 1, top: 5 };
    let colors: Vec<(u8, u8, u8)> = (0..tile.pixel_count())
        .map(|k| {
            let (x, y) = tile.pixel_at(k);
            colour_of(x, y)
        })
        .collect();
    let mut image = Image::new(6, 5);
    image.write_tile(&tile, &colors);
    for x in 0..6u32 {
        for y in 0..5u32 {
            let inside = (2..5).contains(&x) && (1..5).contains(&y);
            let expected = if inside { colour_of(x, y) } else { (0, 0, 0) };
            assert_eq!(image.get_pixel(x, 4 - y), expected);
        }
    }
}

#[test]
fn from_tiles_reads_the_colours_in_the_order_of_pixel_at() {
    let grid = TileGrid::new(12, 6);
    let tiles: Vec<Vec<(u8, u8, u8)>> = grid
        .tiles()
        .iter()
        .map(|tile| {
            (0..tile.pixel_count())
                .map(|k| {
                    let (x, y) = tile.pixel_at(k);
                    colour_of(x, y)
                })
                .collect()
        })
        .collect();
    assert_eq!(tiles, rendered(&grid));
    let image = Image::from_tiles(&grid, &tiles).unwrap();
    for x in 0..12u32 {
        for y in 0..6u32 {
            assert_eq!(image.get_pixel(x, 5 - y), colour_of(x, y));
        }
    }
}

#[test]
fn image_without_rows() {
    let image = Image::new(5, 0);
    assert_eq!(image.width(), 5);
    assert_eq!(image.height(), 0);
    assert_eq!(image.to_bytes(), Vec::<u8>::new());
}

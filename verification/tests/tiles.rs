use engine::io::PngTile;
use engine::parallelization::{glue_canvases, separate_lines};
use engine::threads::{determine_work, determine_work_with_cores, estimate_cores, join_canvases};
use engine::types::{Dimensions, TileCorner};

fn heights(bands: &[(Dimensions, TileCorner)]) -> Vec<usize> {
    bands.iter().map(|(d, _)| d.1).collect()
}

fn offsets(bands: &[(Dimensions, TileCorner)]) -> Vec<usize> {
    bands.iter().map(|(_, c)| c.1).collect()
}

/// A tile for a band in which every byte of a row holds the row's number.
fn numbered(dims: Dimensions, corner: TileCorner) -> PngTile {
    let mut tile = PngTile::with_offset(dims, corner);
    for y in corner.1..corner.1 + dims.1 {
        for x in corner.0..corner.0 + dims.0 {
            tile.set(x, y, [y as u8, y as u8, y as u8]);
        }
    }
    tile
}

#[test]
fn ten_rows_for_three_workers() {
    let bands = determine_work_with_cores(Dimensions(7, 10), 3);
    assert_eq!(heights(&bands), vec![4, 3, 3]);
    assert_eq!(offsets(&bands), vec![0, 4, 7]);
    for (d, c) in bands.iter() {
        assert_eq!(d.0, 7);
        assert_eq!(c.0, 0);
    }
}

#[test]
fn rows_divide_evenly() {
    let bands = determine_work_with_cores(Dimensions(2, 12), 4);
    assert_eq!(heights(&bands), vec![3, 3, 3, 3]);
    assert_eq!(offsets(&bands), vec![0, 3, 6, 9]);
}

#[test]
fn more_workers_than_rows() {
    let bands = determine_work_with_cores(Dimensions(5, 2), 4);
    assert_eq!(heights(&bands), vec![1, 1, 0, 0]);
    assert_eq!(offsets(&bands), vec![0, 1, 2, 2]);
}

#[test]
fn bands_cover_every_row_once() {
    for height in 0..40usize {
        for cores in 1..9usize {
            let bands = determine_work_with_cores(Dimensions(3, height), cores);
            assert_eq!(bands.len(), cores);
            let mut next = 0;
            for (d, c) in bands.iter() {
                assert_eq!(c.1, next);
                next += d.1;
            }
            assert_eq!(next, height);
            let tallest = heights(&bands).into_iter().max().unwrap();
            let shortest = heights(&bands).into_iter().min().unwrap();
            assert!(tallest - shortest <= 1);
        }
    }
}

#[test]
fn cores_default_to_one() {
    assert_eq!(estimate_cores(None), 1);
    assert_eq!(estimate_cores(Some(0)), 1);
    assert_eq!(estimate_cores(Some(6)), 6);
}

#[test]
fn work_follows_the_estimate() {
    let bands = determine_work(Dimensions(4, 10), Some(3));
    assert_eq!(heights(&bands), vec![4, 3, 3]);
    let single = determine_work(Dimensions(4, 10), None);
    assert_eq!(heights(&single), vec![10]);
    assert_eq!(offsets(&single), vec![0]);
}

#[test]
fn lines_in_steps() {
    let bands = separate_lines(Dimensions(6, 10), 4);
    assert_eq!(heights(&bands), vec![4, 4, 2]);
    assert_eq!(offsets(&bands), vec![0, 4, 8]);
    let exact = separate_lines(Dimensions(6, 8), 4);
    assert_eq!(heights(&exact), vec![4, 4]);
    assert_eq!(offsets(&exact), vec![0, 4]);
    let whole = separate_lines(Dimensions(6, 8), 8);
    assert_eq!(heights(&whole), vec![8]);
    let none = separate_lines(Dimensions(6, 0), 3);
    assert!(none.is_empty());
}

#[test]
fn new_tile_is_black() {
    let tile = PngTile::new(Dimensions(2, 3));
    assert_eq!(tile.buffer().len(), 18);
    assert!(tile.buffer().iter().all(|b| *b == 0));
    assert_eq!(tile.upper_left(), TileCorner(0, 0));
    assert_eq!(tile.dimensions(), Dimensions(2, 3));
}

#[test]
fn index_counts_from_the_corner() {
    let tile = PngTile::with_offset(Dimensions(4, 3), TileCorner(2, 5));
    assert_eq!(tile.index(2, 5), 0);
    assert_eq!(tile.index(3, 5), 3);
    assert_eq!(tile.index(2, 6), 12);
    assert_eq!(tile.index(5, 7), (3 + 4 * 2) * 3);
}

#[test]
fn set_writes_one_pixel() {
    let mut tile = PngTile::with_offset(Dimensions(2, 2), TileCorner(0, 3));
    tile.set(1, 4, [7, 8, 9]);
    let expected: Vec<u8> = vec![0, 0, 0, 0, 0, 0, 0, 0, 0, 7, 8, 9];
    assert_eq!(tile.buffer(), &expected);
}

#[test]
fn join_puts_self_on_top() {
    let mut top = PngTile::with_offset(Dimensions(1, 1), TileCorner(0, 4));
    top.set(0, 4, [1, 2, 3]);
    let mut bottom = PngTile::with_offset(Dimensions(1, 2), TileCorner(0, 5));
    bottom.set(0, 6, [4, 5, 6]);
    let joined = top.join_vertical(bottom);
    assert_eq!(joined.dimensions(), Dimensions(1, 3));
    assert_eq!(joined.upper_left(), TileCorner(0, 4));
    let expected: Vec<u8> = vec![1, 2, 3, 0, 0, 0, 4, 5, 6];
    assert_eq!(joined.buffer(), &expected);
}

#[test]
fn join_takes_the_lesser_corner() {
    let top = PngTile::with_offset(Dimensions(1, 1), TileCorner(3, 9));
    let bottom = PngTile::with_offset(Dimensions(1, 1), TileCorner(5, 2));
    let joined = top.join_vertical(bottom);
    assert_eq!(joined.upper_left(), TileCorner(3, 2));
}

#[test]
fn bands_reassemble_in_row_order() {
    let image = Dimensions(2, 10);
    let bands = determine_work_with_cores(image, 3);
    let mut canvases: Vec<(usize, PngTile)> = Vec::new();
    // the workers finish in another order than they were started
    for id in [2usize, 0, 1] {
        let (dims, corner) = bands[id];
        canvases.push((id, numbered(dims, corner)));
    }
    let glued = glue_canvases(canvases);
    assert_eq!(glued.dimensions(), image);
    assert_eq!(glued.upper_left(), TileCorner(0, 0));
    let mut expected: Vec<u8> = Vec::new();
    for y in 0..10u8 {
        for _ in 0..2 * 3 {
            expected.push(y);
        }
    }
    assert_eq!(glued.buffer(), &expected);
}

#[test]
fn gluing_does_not_depend_on_arrival() {
    let image = Dimensions(3, 11);
    let bands = determine_work_with_cores(image, 4);
    let orders: [[usize; 4]; 3] = [[0, 1, 2, 3], [3, 2, 1, 0], [1, 3, 0, 2]];
    let mut results: Vec<Vec<u8>> = Vec::new();
    for order in orders.iter() {
        let mut canvases: Vec<(usize, PngTile)> = Vec::new();
        for id in order.iter() {
            let (dims, corner) = bands[*id];
            canvases.push((*id, numbered(dims, corner)));
        }
        results.push(join_canvases(canvases).buffer().clone());
    }
    assert_eq!(results[0], results[1]);
    assert_eq!(results[0], results[2]);
    assert_eq!(results[0].len(), 3 * 11 * 3);
}

#[test]
fn gluing_one_canvas_returns_it() {
    let canvases = vec![(5usize, numbered(Dimensions(2, 2), TileCorner(0, 1)))];
    let glued = glue_canvases(canvases);
    assert_eq!(glued.dimensions(), Dimensions(2, 2));
    assert_eq!(glued.upper_left(), TileCorner(0, 1));
    let expected: Vec<u8> = vec![1, 1, 1, 1, 1, 1, 2, 2, 2, 2, 2, 2];
    assert_eq!(glued.buffer(), &expected);
}

#[test]
fn tiles_are_ordered_by_their_rows_not_their_numbers() {
    let upper = numbered(Dimensions(1, 4), TileCorner(0, 0));
    let lower = numbered(Dimensions(1, 2), TileCorner(0, 4));
    // the upper band carries the greater number and comes back last
    let glued = glue_canvases(vec![(0, lower), (1, upper)]);
    assert_eq!(glued.dimensions(), Dimensions(1, 6));
    assert_eq!(glued.upper_left(), TileCorner(0, 0));
    let expected: Vec<u8> = vec![0, 0, 0, 1, 1, 1, 2, 2, 2, 3, 3, 3, 4, 4, 4, 5, 5, 5];
    assert_eq!(glued.buffer(), &expected);
}

#[test]
fn tiles_at_the_same_row_keep_their_order() {
    let mut first = PngTile::new(Dimensions(1, 1));
    first.set(0, 0, [1, 1, 1]);
    let mut second = PngTile::with_offset(Dimensions(1, 1), TileCorner(0, 3));
    second.set(0, 3, [2, 2, 2]);
    let mut third = PngTile::new(Dimensions(1, 1));
    third.set(0, 0, [3, 3, 3]);
    let glued = glue_canvases(vec![(4, first), (1, second), (0, third)]);
    let expected: Vec<u8> = vec![1, 1, 1, 3, 3, 3, 2, 2, 2];
    assert_eq!(glued.buffer(), &expected);
}

#[test]
fn pixels_below_the_corner_height_are_written_while_the_buffer_holds_them() {
    // one column wider than the tile: the bytes run on into the next row
    let mut tile = PngTile::with_offset(Dimensions(2, 2), TileCorner(1, 1));
    tile.set(3, 1, [5, 6, 7]);
    assert_eq!(tile.index(3, 1), 6);
    let expected: Vec<u8> = vec![0, 0, 0, 0, 0, 0, 5, 6, 7, 0, 0, 0];
    assert_eq!(tile.buffer(), &expected);
}

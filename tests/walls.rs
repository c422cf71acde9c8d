use platformer::walls::{merge_plates, merge_wall_rects, row_occupancy, row_plates, wall_plates};
use platformer::walls::{GridCoords, Plate, Rect};

fn tiles(cells: &[(i32, i32)]) -> Vec<GridCoords> {
    cells.iter().map(|&(x, y)| GridCoords { x, y }).collect()
}

fn rect(left: i32, right: i32, top: i32, bottom: i32) -> Rect {
    Rect { left, right, top, bottom }
}

fn plate(left: i32, right: i32) -> Plate {
    Plate { left, right }
}

/// Asserts that the rectangles cover each wall tile exactly once and nothing else.
fn assert_exact_cover(width: i32, height: i32, walls: &[GridCoords], rects: &[Rect]) {
    for y in 0..height {
        for x in 0..width {
            let is_wall = walls.iter().any(|w| w.x == x && w.y == y);
            let covering = rects
                .iter()
                .filter(|r| r.left <= x && x <= r.right && r.bottom <= y && y <= r.top)
                .count();
            assert_eq!(covering, if is_wall { 1 } else { 0 }, "tile ({}, {})", x, y);
        }
    }
    for r in rects {
        assert!(0 <= r.left && r.left <= r.right && r.right < width);
        assert!(0 <= r.bottom && r.bottom <= r.top && r.top < height);
    }
}

#[test]
fn two_full_rows_of_three() {
    let walls = tiles(&[(0, 0), (1, 0), (2, 0), (0, 1), (1, 1), (2, 1)]);
    let rects = merge_wall_rects(3, 2, &walls);
    assert_eq!(rects, vec![rect(0, 2, 1, 0)]);
}

#[test]
fn single_full_row_is_one_rect() {
    let walls = tiles(&[(0, 2), (1, 2), (2, 2), (3, 2), (4, 2)]);
    let rects = merge_wall_rects(5, 4, &walls);
    assert_eq!(rects, vec![rect(0, 4, 2, 2)]);
}

#[test]
fn full_row_on_the_top_edge() {
    let walls = tiles(&[(0, 3), (1, 3), (2, 3)]);
    let rects = merge_wall_rects(3, 4, &walls);
    assert_eq!(rects, vec![rect(0, 2, 3, 3)]);
}

#[test]
fn stacked_full_rows_merge() {
    let walls = tiles(&[(0, 1), (1, 1), (2, 1), (3, 1), (0, 2), (1, 2), (2, 2), (3, 2)]);
    let rects = merge_wall_rects(4, 5, &walls);
    assert_eq!(rects, vec![rect(0, 3, 2, 1)]);
}

#[test]
fn empty_level_has_no_rects() {
    let rects = merge_wall_rects(6, 4, &Vec::new());
    assert!(rects.is_empty());
}

#[test]
fn zero_sized_level_has_no_rects() {
    assert!(merge_wall_rects(0, 0, &Vec::new()).is_empty());
    assert!(merge_wall_rects(0, 3, &tiles(&[(0, 0)])).is_empty());
}

#[test]
fn checkerboard_gives_one_rect_per_tile() {
    let mut cells = Vec::new();
    for y in 0..4 {
        for x in 0..5 {
            if (x + y) % 2 == 0 {
                cells.push((x, y));
            }
        }
    }
    let walls = tiles(&cells);
    let rects = merge_wall_rects(5, 4, &walls);
    assert_eq!(rects.len(), cells.len());
    for r in &rects {
        assert_eq!(r.left, r.right);
        assert_eq!(r.top, r.bottom);
        assert!(cells.contains(&(r.left, r.bottom)));
    }
    assert_exact_cover(5, 4, &walls, &rects);
}

#[test]
fn rects_come_ordered_by_top_then_left() {
    // two columns of different heights and a lone tile
    let walls = tiles(&[(0, 0), (0, 1), (0, 2), (2, 0), (2, 1), (4, 2)]);
    let rects = merge_wall_rects(5, 3, &walls);
    assert_eq!(rects, vec![rect(2, 2, 1, 0), rect(0, 0, 2, 0), rect(4, 4, 2, 2)]);
}

#[test]
fn different_plates_do_not_merge() {
    // a wide plate above a narrower one: greedy merging keeps them apart
    let walls = tiles(&[(1, 0), (2, 0), (0, 1), (1, 1), (2, 1), (3, 1)]);
    let rects = merge_wall_rects(4, 2, &walls);
    assert_eq!(rects, vec![rect(1, 2, 0, 0), rect(0, 3, 1, 1)]);
}

#[test]
fn stack_interrupted_by_a_gap_row() {
    let walls = tiles(&[(0, 0), (1, 0), (0, 2), (1, 2)]);
    let rects = merge_wall_rects(2, 3, &walls);
    assert_eq!(rects, vec![rect(0, 1, 0, 0), rect(0, 1, 2, 2)]);
}

#[test]
fn walls_outside_the_level_are_ignored() {
    let walls = tiles(&[(0, 0), (5, 0), (-1, 0), (0, 7), (1, -2)]);
    let rects = merge_wall_rects(2, 2, &walls);
    assert_eq!(rects, vec![rect(0, 0, 0, 0)]);
}

#[test]
fn repeated_tiles_count_once() {
    let walls = tiles(&[(1, 1), (1, 1), (2, 1)]);
    let rects = merge_wall_rects(4, 3, &walls);
    assert_eq!(rects, vec![rect(1, 2, 1, 1)]);
}

#[test]
fn irregular_level_is_covered_exactly() {
    let picture = [
        "##..###.#",
        "##..###..",
        ".#######.",
        "....#....",
        "#########",
    ];
    let height = picture.len() as i32;
    let width = picture[0].len() as i32;
    let mut cells = Vec::new();
    for (row, line) in picture.iter().enumerate() {
        for (x, c) in line.chars().enumerate() {
            if c == '#' {
                cells.push((x as i32, height - 1 - row as i32));
            }
        }
    }
    let walls = tiles(&cells);
    let rects = merge_wall_rects(width, height, &walls);
    assert_exact_cover(width, height, &walls, &rects);
    for pair in rects.windows(2) {
        let (a, b) = (pair[0], pair[1]);
        assert!(a.top < b.top || (a.top == b.top && a.left < b.left));
    }
}

#[test]
fn occupancy_of_one_row() {
    let walls = tiles(&[(0, 1), (2, 1), (3, 0), (9, 1)]);
    assert_eq!(row_occupancy(4, 1, &walls), vec![true, false, true, false]);
    assert_eq!(row_occupancy(4, 0, &walls), vec![false, false, false, true]);
    assert!(row_occupancy(0, 1, &walls).is_empty());
}

#[test]
fn plates_of_a_row() {
    let row = vec![true, true, false, true, false, false, true];
    assert_eq!(row_plates(&row), vec![plate(0, 1), plate(3, 3), plate(6, 6)]);
    assert_eq!(row_plates(&vec![true; 4]), vec![plate(0, 3)]);
    assert!(row_plates(&vec![false; 3]).is_empty());
    assert!(row_plates(&Vec::new()).is_empty());
}

#[test]
fn plates_of_every_row() {
    let walls = tiles(&[(0, 0), (1, 0), (1, 2)]);
    let stack = wall_plates(3, 3, &walls);
    assert_eq!(stack, vec![vec![plate(0, 1)], vec![], vec![plate(1, 1)]]);
}

#[test]
fn merging_plate_rows() {
    let stack = vec![
        vec![plate(0, 1), plate(4, 5)],
        vec![plate(0, 1), plate(3, 5)],
        vec![plate(0, 1)],
    ];
    let rects = merge_plates(&stack);
    assert_eq!(
        rects,
        vec![rect(4, 5, 0, 0), rect(3, 5, 1, 1), rect(0, 1, 2, 0)]
    );
    assert!(merge_plates(&Vec::new()).is_empty());
}

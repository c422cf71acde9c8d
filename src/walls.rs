//! Merging the wall tiles of a level into few axis-aligned rectangles, so that
//! one collider per rectangle replaces one collider per tile.
//!
//! The merge is greedy: every row is first cut into maximal horizontal runs
//! of wall tiles ("plates"), then identical plates of consecutive rows are
//! stacked into rectangles.
use vstd::prelude::*;

verus! {

/// A tile position on the level grid.
#[derive(Clone, Copy, PartialEq, Eq, Structural, Debug, Hash)]
pub struct GridCoords {
    pub x: i32,
    pub y: i32,
}

/// A wall one tile tall, covering the columns `left..=right` of a row.
#[derive(Clone, Copy, PartialEq, Eq, Structural, Debug, Hash)]
pub struct Plate {
    pub left: i32,
    pub right: i32,
}

/// A wall rectangle covering the columns `left..=right` and the rows
/// `bottom..=top` (all bounds inclusive).
#[derive(Clone, Copy, PartialEq, Eq, Structural, Debug, Hash)]
pub struct Rect {
    pub left: i32,
    pub right: i32,
    pub top: i32,
    pub bottom: i32,
}

// ---------------------------------------------------------------------------
// Tiles and rows
// ---------------------------------------------------------------------------

/// Whether the list of wall tiles holds the tile `(x, y)`.
pub open spec fn wall_at(walls: Seq<GridCoords>, x: int, y: int) -> bool {
    exists|i: int| 0 <= i < walls.len() && #[trigger] walls[i].x == x && walls[i].y == y
}

/// Row `y` of a level `width` tiles wide: for each column, whether it is a wall.
pub open spec fn row_of(walls: Seq<GridCoords>, width: int, y: int) -> Seq<bool> {
    Seq::new(width as nat, |x: int| wall_at(walls, x, y))
}

/// The plate `p` is a maximal run of wall tiles in `row`.
pub open spec fn is_run(row: Seq<bool>, p: Plate) -> bool {
    &&& 0 <= p.left <= p.right < row.len()
    &&& forall|x: int| p.left <= x <= p.right ==> #[trigger] row[x]
    &&& (p.left == 0 || !row[p.left - 1])
    &&& (p.right == row.len() - 1 || !row[p.right + 1])
}

/// The plates are ordered from left to right, and each lies strictly
/// left of the next, with at least one column between them.
pub open spec fn plates_sorted(plates: Seq<Plate>) -> bool {
    &&& forall|i: int| 0 <= i < plates.len() ==> #[trigger] plates[i].left <= plates[i].right
    &&& forall|i: int, j: int|
        0 <= i < j < plates.len() ==> #[trigger] plates[i].right + 1 < #[trigger] plates[j].left
}

/// `plates`, in order from left to right, are exactly the maximal runs of wall
/// tiles of `row`.
pub open spec fn plates_of_row(row: Seq<bool>, plates: Seq<Plate>) -> bool {
    &&& plates_sorted(plates)
    &&& forall|i: int|
        0 <= i < plates.len() ==> is_run(row, #[trigger] plates[i])
    &&& forall|x: int|
        0 <= x < row.len() && #[trigger] row[x] ==> exists|i: int|
            0 <= i < plates.len() && #[trigger] plates[i].left <= x <= plates[i].right
}

/// For each column of row `y` of a level `width` tiles wide, whether a tile of
/// `walls` stands there. Tiles of other rows or outside the level are ignored.
pub fn row_occupancy(width: i32, y: i32, walls: &Vec<GridCoords>) -> (row: Vec<bool>)
    requires
        0 <= width,
    ensures
        row@ == row_of(walls@, width as int, y as int),
{
    let mut row: Vec<bool> = Vec::new();
    let mut x: i32 = 0;
    while x < width
        invariant
            0 <= x <= width,
            row@.len() == x,
            forall|c: int| 0 <= c < x ==> !#[trigger] row@[c],
        decreases width - x,
    {
        row.push(false);
        x = x + 1;
    }
    let mut k: usize = 0;
    while k < walls.len()
        invariant
            0 <= k <= walls@.len(),
            row@.len() == width,
            forall|c: int|
                0 <= c < width ==> #[trigger] row@[c] == exists|i: int|
                    0 <= i < k && #[trigger] walls@[i].x == c && walls@[i].y == y,
        decreases walls@.len() - k,
    {
        let w = walls[k];
        if w.y == y && 0 <= w.x && w.x < width {
            row.set(w.x as usize, true);
        }
        assert forall|c: int| 0 <= c < width implies #[trigger] row@[c] == exists|i: int|
            0 <= i < k + 1 && #[trigger] walls@[i].x == c && walls@[i].y == y by {
            if walls@[k as int].x == c && walls@[k as int].y == y {
                assert(0 <= k < k + 1 && walls@[k as int].x == c);
            }
        }
        k = k + 1;
    }
    assert(row@ =~= row_of(walls@, width as int, y as int));
    row
}

/// Cuts a row of wall flags into its maximal runs of walls, from left to right.
pub fn row_plates(row: &Vec<bool>) -> (plates: Vec<Plate>)
    requires
        row@.len() < i32::MAX,
    ensures
        plates_of_row(row@, plates@),
{
    let n: usize = row.len();
    let mut plates: Vec<Plate> = Vec::new();
    let mut start: Option<i32> = None;
    let mut x: usize = 0;
    // one column past the right edge closes a run that touches it
    while x <= n
        invariant
            n == row@.len() < i32::MAX,
            0 <= x <= n + 1,
            plates_sorted(plates@),
            forall|i: int|
                0 <= i < plates@.len() ==> is_run(row@, #[trigger] plates@[i]),
            forall|i: int| 0 <= i < plates@.len() ==> #[trigger] plates@[i].right + 2 <= x,
            match start {
                Some(s) => {
                    &&& 0 <= s < x <= n
                    &&& forall|t: int| s <= t < x ==> #[trigger] row@[t]
                    &&& (s == 0 || !row@[s - 1])
                    &&& forall|i: int| 0 <= i < plates@.len() ==> #[trigger] plates@[i].right + 1 < s
                },
                None => x == 0 || x > n || !row@[x - 1],
            },
            forall|t: int|
                0 <= t < x && t < n && #[trigger] row@[t] ==> (exists|i: int|
                    0 <= i < plates@.len() && #[trigger] plates@[i].left <= t <= plates@[i].right)
                    || (match start {
                    Some(s) => s <= t,
                    None => false,
                }),
        decreases n + 1 - x,
    {
        let occupied = x < n && row[x];
        match start {
            Some(s) => {
                if !occupied {
                    assert(x == n || !row@[x as int]);
                    let p = Plate { left: s, right: (x - 1) as i32 };
                    proof {
                        assert forall|t: int|
                            0 <= t < x + 1 && t < n && #[trigger] row@[t] implies (exists|i: int|
                                0 <= i < plates@.len() + 1 && #[trigger] plates@.push(p)[i].left
                                    <= t <= plates@.push(p)[i].right) by {
                            assert(t < x);
                            if s <= t {
                                let k = plates@.len() as int;
                                assert(plates@.push(p)[k] == p);
                                assert(0 <= k < plates@.len() + 1 && plates@.push(p)[k].left <= t
                                    <= plates@.push(p)[k].right);
                            } else {
                                let i = choose|i: int|
                                    0 <= i < plates@.len() && #[trigger] plates@[i].left <= t
                                        <= plates@[i].right;
                                assert(plates@.push(p)[i] == plates@[i]);
                                assert(0 <= i < plates@.len() + 1 && plates@.push(p)[i].left <= t
                                    <= plates@.push(p)[i].right);
                            }
                        }
                    }
                    plates.push(p);
                    start = None;
                }
            },
            None => {
                if occupied {
                    start = Some(x as i32);
                }
            },
        }
        x = x + 1;
    }
    plates
}

// ---------------------------------------------------------------------------
// Stacking plates into rectangles
// ---------------------------------------------------------------------------

/// The plates of each row, as mathematical sequences.
pub open spec fn plate_rows(stack: Seq<Vec<Plate>>) -> Seq<Seq<Plate>> {
    stack.map_values(|v: Vec<Plate>| v@)
}

/// The columns `left..=right` of a rectangle, as a plate.
pub open spec fn plate_of(r: Rect) -> Plate {
    Plate { left: r.left, right: r.right }
}

/// Row `y` of `rows` exists and holds the plate `p`.
pub open spec fn has_plate(rows: Seq<Seq<Plate>>, y: int, p: Plate) -> bool {
    0 <= y < rows.len() && rows[y].contains(p)
}

/// Every row of `r` holds the plate of `r`, and the row below it does not:
/// a stack of identical plates that cannot grow downwards.
pub open spec fn is_open_stack(rows: Seq<Seq<Plate>>, r: Rect) -> bool {
    &&& r.bottom <= r.top
    &&& forall|y: int| r.bottom <= y <= r.top ==> #[trigger] has_plate(rows, y, plate_of(r))
    &&& !has_plate(rows, r.bottom - 1, plate_of(r))
}

/// `r` is a maximal stack of identical plates on consecutive rows.
pub open spec fn is_stack(rows: Seq<Seq<Plate>>, r: Rect) -> bool {
    &&& is_open_stack(rows, r)
    &&& !has_plate(rows, r.top + 1, plate_of(r))
}

/// `r` has the plate `p` on its row `y`.
pub open spec fn covers_plate(r: Rect, y: int, p: Plate) -> bool {
    r.left == p.left && r.right == p.right && r.bottom <= y <= r.top
}

/// One of `rects[lo..]` has the plate `p` on its row `y`.
pub open spec fn plate_covered(rects: Seq<Rect>, lo: int, y: int, p: Plate) -> bool {
    exists|m: int| lo <= m < rects.len() && #[trigger] covers_plate(rects[m], y, p)
}

/// The rectangles are ordered by top row, and within one top row from left to
/// right; no rectangle appears twice.
pub open spec fn rects_ordered(rects: Seq<Rect>) -> bool {
    forall|i: int, j: int|
        0 <= i < j < rects.len() ==> #[trigger] rects[i].top < #[trigger] rects[j].top || (
        rects[i].top == rects[j].top && rects[i].left < rects[j].left)
}

/// `rects`, in order, are exactly the maximal stacks of identical plates of
/// `rows`: each is one, and every plate of every row lies in one of them.
pub open spec fn stacks_of(rows: Seq<Seq<Plate>>, rects: Seq<Rect>) -> bool {
    &&& forall|i: int| 0 <= i < rects.len() ==> is_stack(rows, #[trigger] rects[i])
    &&& forall|y: int, k: int|
        0 <= y < rows.len() && 0 <= k < rows[y].len() ==> plate_covered(
            rects,
            0,
            y,
            #[trigger] rows[y][k],
        )
    &&& rects_ordered(rects)
}

/// Stacks the plates of consecutive rows (row 0 first) into rectangles:
/// identical plates on consecutive rows become one rectangle.
pub fn merge_plates(stack: &Vec<Vec<Plate>>) -> (rects: Vec<Rect>)
    requires
        stack@.len() < i32::MAX,
        forall|y: int| 0 <= y < stack@.len() ==> plates_sorted(#[trigger] stack@[y]@),
    ensures
        stacks_of(plate_rows(stack@), rects@),
{
    let ghost rows = plate_rows(stack@);
    let n: usize = stack.len();
    let mut out: Vec<Rect> = Vec::new();
    // the rectangles that reach the previous row, one per plate of that row
    let mut open: Vec<Rect> = Vec::new();
    let mut y: usize = 0;
    while y < n
        invariant
            n == stack@.len() == rows.len() < i32::MAX,
            rows == plate_rows(stack@),
            0 <= y <= n,
            forall|r: int| 0 <= r < n ==> plates_sorted(#[trigger] rows[r]),
            y == 0 ==> open@.len() == 0,
            y > 0 ==> open@.len() == rows[y - 1].len(),
            forall|k: int|
                0 <= k < open@.len() ==> {
                    &&& plate_of(#[trigger] open@[k]) == rows[y - 1][k]
                    &&& open@[k].top == y - 1
                    &&& is_open_stack(rows, open@[k])
                },
            forall|m: int|
                0 <= m < out@.len() ==> is_stack(rows, #[trigger] out@[m]) && out@[m].top < y - 1,
            rects_ordered(out@),
            forall|t: int, k: int|
                0 <= t < y && 0 <= k < rows[t].len() ==> plate_covered(out@, 0, t, #[trigger] rows[t][k])
                    || plate_covered(open@, 0, t, rows[t][k]),
        decreases n - y,
    {
        let row = &stack[y];
        assert(row@ == rows[y as int]);
        let mut cur: Vec<Rect> = Vec::new();
        let mut i: usize = 0;
        let mut j: usize = 0;
        while i < row.len()
            invariant
                n == stack@.len() == rows.len() < i32::MAX,
                rows == plate_rows(stack@),
                0 <= y < n,
                row@ == rows[y as int],
                forall|r: int| 0 <= r < n ==> plates_sorted(#[trigger] rows[r]),
                y == 0 ==> open@.len() == 0,
                y > 0 ==> open@.len() == rows[y - 1].len(),
                forall|k: int|
                    0 <= k < open@.len() ==> {
                        &&& plate_of(#[trigger] open@[k]) == rows[y - 1][k]
                        &&& open@[k].top == y - 1
                        &&& is_open_stack(rows, open@[k])
                    },
                0 <= i <= row@.len(),
                0 <= j <= open@.len(),
                cur@.len() == i,
                forall|k: int|
                    0 <= k < i ==> {
                        &&& plate_of(#[trigger] cur@[k]) == rows[y as int][k]
                        &&& cur@[k].top == y
                        &&& is_open_stack(rows, cur@[k])
                    },
                forall|k: int| 0 <= k < j && i < row@.len() ==> #[trigger] open@[k].left < row@[i as int].left,
                forall|k: int| 0 <= k < i && j < open@.len() ==> #[trigger] row@[k].left < open@[j as int].left,
                forall|m: int|
                    0 <= m < out@.len() ==> is_stack(rows, #[trigger] out@[m]) && (out@[m].top < y - 1 || (
                    out@[m].top == y - 1 && (j < open@.len() ==> out@[m].left < open@[j as int].left))),
                rects_ordered(out@),
                forall|t: int, k: int|
                    0 <= t < y && 0 <= k < rows[t].len() ==> plate_covered(out@, 0, t, #[trigger] rows[t][k])
                        || plate_covered(open@, j as int, t, rows[t][k])
                        || plate_covered(cur@, 0, t, rows[t][k]),
            decreases row@.len() - i,
        {
            let p = row[i];
            while j < open.len() && open[j].left < p.left
                invariant
                    // the invariant of the enclosing loop, for this plate
                    n == stack@.len() == rows.len() < i32::MAX,
                    rows == plate_rows(stack@),
                    0 <= y < n,
                    row@ == rows[y as int],
                    forall|r: int| 0 <= r < n ==> plates_sorted(#[trigger] rows[r]),
                    y == 0 ==> open@.len() == 0,
                    y > 0 ==> open@.len() == rows[y - 1].len(),
                    forall|k: int|
                        0 <= k < open@.len() ==> {
                            &&& plate_of(#[trigger] open@[k]) == rows[y - 1][k]
                            &&& open@[k].top == y - 1
                            &&& is_open_stack(rows, open@[k])
                        },
                    0 <= i < row@.len(),
                    p == row@[i as int],
                    0 <= j <= open@.len(),
                    cur@.len() == i,
                    forall|k: int|
                        0 <= k < i ==> {
                            &&& plate_of(#[trigger] cur@[k]) == rows[y as int][k]
                            &&& cur@[k].top == y
                            &&& is_open_stack(rows, cur@[k])
                        },
                    forall|k: int| 0 <= k < j ==> #[trigger] open@[k].left < p.left,
                    forall|k: int| 0 <= k < i && j < open@.len() ==> #[trigger] row@[k].left < open@[j as int].left,
                    forall|m: int|
                        0 <= m < out@.len() ==> is_stack(rows, #[trigger] out@[m]) && (out@[m].top < y - 1 || (
                        out@[m].top == y - 1 && (j < open@.len() ==> out@[m].left < open@[j as int].left))),
                    rects_ordered(out@),
                    forall|t: int, k: int|
                        0 <= t < y && 0 <= k < rows[t].len() ==> plate_covered(out@, 0, t, #[trigger] rows[t][k])
                            || plate_covered(open@, j as int, t, rows[t][k])
                            || plate_covered(cur@, 0, t, rows[t][k]),
                decreases open@.len() - j,
            {
                let r = open[j];
                let ghost out0 = out@;
                proof {
                    lemma_not_in_row_left_of(rows[y as int], i as int, plate_of(r));
                    assert forall|k: int| 0 <= k < rows[y as int].len() implies #[trigger] rows[y as int][k]
                        != plate_of(r) by {
                        if k < i {
                            assert(row@[k].left < open@[j as int].left);
                        }
                    }
                    lemma_open_next(rows, y as int, open@, j as int);
                }
                out.push(r);
                j = j + 1;
                proof {
                    assert forall|t: int, k: int|
                        0 <= t < y && 0 <= k < rows[t].len() implies plate_covered(
                            out@,
                            0,
                            t,
                            #[trigger] rows[t][k],
                        ) || plate_covered(open@, j as int, t, rows[t][k]) || plate_covered(cur@, 0, t, rows[t][k]) by {
                        lemma_cover_close(out0, open@, j - 1, t, rows[t][k]);
                    }
                }
            }
            proof {
                lemma_sorted_lefts_from(row@, i as int);
            }
            if j < open.len() && open[j].left == p.left && open[j].right == p.right {
                let r = open[j];
                let grown = Rect { top: y as i32, ..r };
                let ghost cur0 = cur@;
                proof {
                    lemma_open_next(rows, y as int, open@, j as int);
                    assert(rows[y as int][i as int] == plate_of(grown));
                    assert forall|t: int| grown.bottom <= t <= grown.top implies #[trigger] has_plate(
                        rows,
                        t,
                        plate_of(grown),
                    ) by {
                        if t < y {
                            assert(has_plate(rows, t, plate_of(r)));
                        }
                    }
                }
                cur.push(grown);
                j = j + 1;
                proof {
                    assert forall|t: int, k: int|
                        0 <= t < y && 0 <= k < rows[t].len() implies plate_covered(
                            out@,
                            0,
                            t,
                            #[trigger] rows[t][k],
                        ) || plate_covered(open@, j as int, t, rows[t][k]) || plate_covered(cur@, 0, t, rows[t][k]) by {
                        lemma_cover_grow(open@, j - 1, cur0, grown, t, rows[t][k]);
                    }
                }
            } else {
                let ghost j0 = j;
                if j < open.len() && open[j].left == p.left {
                    let r = open[j];
                    let ghost out0 = out@;
                    proof {
                        assert forall|k: int| 0 <= k < rows[y as int].len() implies #[trigger] rows[
                            y as int][k] != plate_of(r) by {
                            if k < i {
                                assert(row@[k].left < open@[j as int].left);
                            }
                        }
                        lemma_open_next(rows, y as int, open@, j as int);
                    }
                    out.push(r);
                    j = j + 1;
                    proof {
                        assert forall|t: int, k: int|
                            0 <= t < y && 0 <= k < rows[t].len() implies plate_covered(
                                out@,
                                0,
                                t,
                                #[trigger] rows[t][k],
                            ) || plate_covered(open@, j as int, t, rows[t][k]) || plate_covered(cur@, 0, t, rows[t][k]) by {
                            lemma_cover_close(out0, open@, j - 1, t, rows[t][k]);
                        }
                    }
                }
                let fresh = Rect { left: p.left, right: p.right, top: y as i32, bottom: y as i32 };
                let ghost cur0 = cur@;
                proof {
                    assert(rows[y as int][i as int] == plate_of(fresh));
                    assert(has_plate(rows, y as int, plate_of(fresh)));
                    if y > 0 {
                        assert forall|k: int| 0 <= k < rows[y - 1].len() implies #[trigger] rows[y - 1][k]
                            != plate_of(fresh) by {
                            assert(plate_of(open@[k]) == rows[y - 1][k]);
                            if k >= j0 && j0 < open@.len() {
                                lemma_open_next(rows, y as int, open@, j0 as int);
                                lemma_sorted_lefts_from(rows[y - 1], j0 as int);
                            }
                        }
                    }
                }
                cur.push(fresh);
                proof {
                    assert forall|t: int, k: int|
                        0 <= t < y && 0 <= k < rows[t].len() implies plate_covered(
                            out@,
                            0,
                            t,
                            #[trigger] rows[t][k],
                        ) || plate_covered(open@, j as int, t, rows[t][k]) || plate_covered(cur@, 0, t, rows[t][k]) by {
                        lemma_cover_push(cur0, fresh, t, rows[t][k]);
                    }
                }
            }
            i = i + 1;
        }
        while j < open.len()
            invariant
                n == stack@.len() == rows.len() < i32::MAX,
                rows == plate_rows(stack@),
                0 <= y < n,
                row@ == rows[y as int],
                forall|r: int| 0 <= r < n ==> plates_sorted(#[trigger] rows[r]),
                y == 0 ==> open@.len() == 0,
                y > 0 ==> open@.len() == rows[y - 1].len(),
                forall|k: int|
                    0 <= k < open@.len() ==> {
                        &&& plate_of(#[trigger] open@[k]) == rows[y - 1][k]
                        &&& open@[k].top == y - 1
                        &&& is_open_stack(rows, open@[k])
                    },
                0 <= j <= open@.len(),
                cur@.len() == row@.len(),
                forall|k: int|
                    0 <= k < row@.len() ==> {
                        &&& plate_of(#[trigger] cur@[k]) == rows[y as int][k]
                        &&& cur@[k].top == y
                        &&& is_open_stack(rows, cur@[k])
                    },
                forall|k: int| 0 <= k < row@.len() && j < open@.len() ==> #[trigger] row@[k].left < open@[j as int].left,
                forall|m: int|
                    0 <= m < out@.len() ==> is_stack(rows, #[trigger] out@[m]) && (out@[m].top < y - 1 || (
                    out@[m].top == y - 1 && (j < open@.len() ==> out@[m].left < open@[j as int].left))),
                rects_ordered(out@),
                forall|t: int, k: int|
                    0 <= t < y && 0 <= k < rows[t].len() ==> plate_covered(out@, 0, t, #[trigger] rows[t][k])
                        || plate_covered(open@, j as int, t, rows[t][k])
                        || plate_covered(cur@, 0, t, rows[t][k]),
            decreases open@.len() - j,
        {
            let r = open[j];
            let ghost out0 = out@;
            proof {
                assert forall|k: int| 0 <= k < rows[y as int].len() implies #[trigger] rows[y as int][k]
                    != plate_of(r) by {
                    assert(row@[k].left < open@[j as int].left);
                }
                lemma_open_next(rows, y as int, open@, j as int);
            }
            out.push(r);
            j = j + 1;
            proof {
                assert forall|t: int, k: int|
                    0 <= t < y && 0 <= k < rows[t].len() implies plate_covered(
                        out@,
                        0,
                        t,
                        #[trigger] rows[t][k],
                    ) || plate_covered(open@, j as int, t, rows[t][k]) || plate_covered(cur@, 0, t, rows[t][k]) by {
                    lemma_cover_close(out0, open@, j - 1, t, rows[t][k]);
                }
            }
        }
        proof {
            assert forall|t: int, k: int|
                0 <= t < y + 1 && 0 <= k < rows[t].len() implies plate_covered(
                    out@,
                    0,
                    t,
                    #[trigger] rows[t][k],
                ) || plate_covered(cur@, 0, t, rows[t][k]) by {
                if t == y {
                    assert(covers_plate(cur@[k], t, rows[t][k]));
                } else {
                    assert(!plate_covered(open@, j as int, t, rows[t][k]));
                }
            }
        }
        open = cur;
        y = y + 1;
    }
    let mut j: usize = 0;
    while j < open.len()
        invariant
            n == stack@.len() == rows.len() < i32::MAX,
            rows == plate_rows(stack@),
            n == 0 ==> open@.len() == 0,
            forall|k: int|
                0 <= k < open@.len() ==> {
                    &&& open@[k].top == n - 1
                    &&& is_open_stack(rows, #[trigger] open@[k])
                },
            forall|k: int, l: int| 0 <= k < l < open@.len() ==> #[trigger] open@[k].left < #[trigger] open@[l].left,
            0 <= j <= open@.len(),
            forall|m: int|
                0 <= m < out@.len() ==> is_stack(rows, #[trigger] out@[m]) && (out@[m].top < n - 1 || (
                out@[m].top == n - 1 && (j < open@.len() ==> out@[m].left < open@[j as int].left))),
            rects_ordered(out@),
            forall|t: int, k: int|
                0 <= t < n && 0 <= k < rows[t].len() ==> plate_covered(out@, 0, t, #[trigger] rows[t][k])
                    || plate_covered(open@, j as int, t, rows[t][k]),
        decreases open@.len() - j,
    {
        let r = open[j];
        let ghost out0 = out@;
        out.push(r);
        j = j + 1;
        proof {
            assert forall|t: int, k: int|
                0 <= t < n && 0 <= k < rows[t].len() implies plate_covered(
                    out@,
                    0,
                    t,
                    #[trigger] rows[t][k],
                ) || plate_covered(open@, j as int, t, rows[t][k]) by {
                lemma_cover_close(out0, open@, j - 1, t, rows[t][k]);
            }
        }
    }
    out
}

/// The rectangle after `open[j]` starts right of it.
proof fn lemma_open_next(rows: Seq<Seq<Plate>>, y: int, open: Seq<Rect>, j: int)
    requires
        0 < y <= rows.len(),
        plates_sorted(rows[y - 1]),
        open.len() == rows[y - 1].len(),
        forall|k: int| 0 <= k < open.len() ==> plate_of(#[trigger] open[k]) == rows[y - 1][k],
        0 <= j < open.len(),
    ensures
        j + 1 < open.len() ==> open[j].left < open[j + 1].left,
{
    if j + 1 < open.len() {
        assert(plate_of(open[j]) == rows[y - 1][j]);
        assert(plate_of(open[j + 1]) == rows[y - 1][j + 1]);
        assert(rows[y - 1][j].left <= rows[y - 1][j].right);
        assert(rows[y - 1][j].right + 1 < rows[y - 1][j + 1].left);
    }
}

/// In a sorted row, every plate after index `i` starts right of the plate at `i`.
proof fn lemma_sorted_lefts_from(row: Seq<Plate>, i: int)
    requires
        plates_sorted(row),
        0 <= i < row.len(),
    ensures
        forall|k: int| i < k < row.len() ==> row[i].left < #[trigger] row[k].left,
{
    assert forall|k: int| i < k < row.len() implies row[i].left < #[trigger] row[k].left by {
        assert(row[i].right + 1 < row[k].left);
    }
}

/// Moving `open[j]` to the end of `done` keeps every covered plate covered.
proof fn lemma_cover_close(done: Seq<Rect>, open: Seq<Rect>, j: int, t: int, p: Plate)
    requires
        0 <= j < open.len(),
    ensures
        plate_covered(done, 0, t, p) || plate_covered(open, j, t, p) ==> plate_covered(
            done.push(open[j]),
            0,
            t,
            p,
        ) || plate_covered(open, j + 1, t, p),
{
    if plate_covered(done, 0, t, p) {
        lemma_cover_push(done, open[j], t, p);
    } else if plate_covered(open, j, t, p) {
        let m = choose|m: int| j <= m < open.len() && #[trigger] covers_plate(open[m], t, p);
        if m == j {
            assert(done.push(open[j])[done.len() as int] == open[j]);
        } else {
            assert(covers_plate(open[m], t, p));
        }
    }
}

/// Replacing `open[j]` by `grown`, the same stack grown upwards, keeps every
/// covered plate covered.
proof fn lemma_cover_grow(open: Seq<Rect>, j: int, cur: Seq<Rect>, grown: Rect, t: int, p: Plate)
    requires
        0 <= j < open.len(),
        grown.left == open[j].left,
        grown.right == open[j].right,
        grown.bottom == open[j].bottom,
        grown.top >= open[j].top,
    ensures
        plate_covered(open, j, t, p) || plate_covered(cur, 0, t, p) ==> plate_covered(open, j + 1, t, p)
            || plate_covered(cur.push(grown), 0, t, p),
{
    if plate_covered(cur, 0, t, p) {
        lemma_cover_push(cur, grown, t, p);
    } else if plate_covered(open, j, t, p) {
        let m = choose|m: int| j <= m < open.len() && #[trigger] covers_plate(open[m], t, p);
        if m == j {
            assert(cur.push(grown)[cur.len() as int] == grown);
            assert(covers_plate(cur.push(grown)[cur.len() as int], t, p));
        } else {
            assert(covers_plate(open[m], t, p));
        }
    }
}

/// Adding a rectangle keeps every covered plate covered.
proof fn lemma_cover_push(rects: Seq<Rect>, r: Rect, t: int, p: Plate)
    ensures
        plate_covered(rects, 0, t, p) ==> plate_covered(rects.push(r), 0, t, p),
{
    if plate_covered(rects, 0, t, p) {
        let m = choose|m: int| 0 <= m < rects.len() && #[trigger] covers_plate(rects[m], t, p);
        assert(rects.push(r)[m] == rects[m]);
        assert(covers_plate(rects.push(r)[m], t, p));
    }
}

/// In a sorted row, no plate at or after index `i` starts left of the plate
/// at `i`.
proof fn lemma_not_in_row_left_of(row: Seq<Plate>, i: int, q: Plate)
    requires
        plates_sorted(row),
        0 <= i < row.len(),
        q.left < row[i].left,
    ensures
        forall|k: int| i <= k < row.len() ==> #[trigger] row[k] != q,
{
    assert forall|k: int| i <= k < row.len() implies #[trigger] row[k] != q by {
        if k > i {
            assert(row[i].right + 1 < row[k].left);
        }
    }
}

// ---------------------------------------------------------------------------
// Whole levels
// ---------------------------------------------------------------------------

/// `p` is a maximal run of wall tiles on row `y` of a level `width` by `height`.
pub open spec fn is_plate(walls: Seq<GridCoords>, width: int, height: int, y: int, p: Plate) -> bool {
    0 <= y < height && is_run(row_of(walls, width, y), p)
}

/// `r` is a maximal stack of one plate of the level on consecutive rows.
pub open spec fn is_wall_stack(walls: Seq<GridCoords>, width: int, height: int, r: Rect) -> bool {
    &&& r.bottom <= r.top
    &&& forall|y: int|
        r.bottom <= y <= r.top ==> #[trigger] is_plate(walls, width, height, y, plate_of(r))
    &&& !is_plate(walls, width, height, r.bottom - 1, plate_of(r))
    &&& !is_plate(walls, width, height, r.top + 1, plate_of(r))
}

/// `rects` is the merge of the level's walls: exactly the maximal stacks of
/// identical plates, ordered by top row and then from left to right.
pub open spec fn wall_rects(walls: Seq<GridCoords>, width: int, height: int, rects: Seq<Rect>) -> bool {
    &&& forall|i: int| 0 <= i < rects.len() ==> is_wall_stack(walls, width, height, #[trigger] rects[i])
    &&& forall|y: int, p: Plate|
        #[trigger] is_plate(walls, width, height, y, p) ==> plate_covered(rects, 0, y, p)
    &&& rects_ordered(rects)
}

/// The rectangle `r` covers the tile `(x, y)`.
pub open spec fn covers_tile(r: Rect, x: int, y: int) -> bool {
    r.left <= x <= r.right && r.bottom <= y <= r.top
}

/// The maximal runs of wall tiles of every row of a level, bottom row first.
pub fn wall_plates(width: i32, height: i32, walls: &Vec<GridCoords>) -> (stack: Vec<Vec<Plate>>)
    requires
        0 <= width < i32::MAX,
        0 <= height,
    ensures
        stack@.len() == height,
        forall|y: int|
            0 <= y < height ==> plates_of_row(row_of(walls@, width as int, y), #[trigger] stack@[y]@),
{
    let mut stack: Vec<Vec<Plate>> = Vec::new();
    let mut y: i32 = 0;
    while y < height
        invariant
            0 <= width < i32::MAX,
            0 <= y <= height,
            stack@.len() == y,
            forall|r: int|
                0 <= r < y ==> plates_of_row(row_of(walls@, width as int, r), #[trigger] stack@[r]@),
        decreases height - y,
    {
        let row = row_occupancy(width, y, walls);
        let plates = row_plates(&row);
        stack.push(plates);
        y = y + 1;
    }
    stack
}

/// Merges the wall tiles of a level `width` by `height` tiles into
/// rectangles: maximal runs of walls in each row, stacked where identical runs
/// lie on consecutive rows. Tiles outside the level are ignored.
pub fn merge_wall_rects(width: i32, height: i32, walls: &Vec<GridCoords>) -> (rects: Vec<Rect>)
    requires
        0 <= width < i32::MAX,
        0 <= height < i32::MAX,
    ensures
        wall_rects(walls@, width as int, height as int, rects@),
        // the rectangles cover exactly the wall tiles of the level
        forall|x: int, y: int|
            (exists|i: int| 0 <= i < rects@.len() && #[trigger] covers_tile(rects@[i], x, y)) <==> (0
                <= x < width && 0 <= y < height && wall_at(walls@, x, y)),
        // no tile is covered twice
        forall|i: int, j: int, x: int, y: int|
            0 <= i < rects@.len() && 0 <= j < rects@.len() && i != j ==> !(#[trigger] covers_tile(
                rects@[i],
                x,
                y,
            ) && #[trigger] covers_tile(rects@[j], x, y)),
{
    let stack = wall_plates(width, height, walls);
    proof {
        assert forall|y: int| 0 <= y < stack@.len() implies plates_sorted(#[trigger] stack@[y]@) by {
            assert(plates_of_row(row_of(walls@, width as int, y), stack@[y]@));
        }
    }
    let rects = merge_plates(&stack);
    proof {
        let rows = plate_rows(stack@);
        assert forall|y: int, p: Plate| #[trigger] has_plate(rows, y, p) == is_plate(
            walls@,
            width as int,
            height as int,
            y,
            p,
        ) by {
            if 0 <= y < height {
                assert(rows[y] == stack@[y]@);
                lemma_plate_iff_run(row_of(walls@, width as int, y), rows[y], p);
            }
        }
        lemma_stacks_are_wall_stacks(rows, walls@, width as int, height as int, rects@);
        assert forall|x: int, y: int|
            (0 <= x < width && 0 <= y < height && wall_at(walls@, x, y)) implies exists|i: int|
            0 <= i < rects@.len() && #[trigger] covers_tile(rects@[i], x, y) by {
            let row = row_of(walls@, width as int, y);
            assert(row[x]);
            assert(rows[y] == stack@[y]@);
            let k = choose|k: int| 0 <= k < rows[y].len() && #[trigger] rows[y][k].left <= x <= rows[y][k].right;
            assert(plate_covered(rects@, 0, y, rows[y][k]));
            let i = choose|i: int| 0 <= i < rects@.len() && #[trigger] covers_plate(rects@[i], y, rows[y][k]);
            assert(covers_tile(rects@[i], x, y));
        }
        lemma_covered_tiles_are_walls(walls@, width as int, height as int, rects@);
        lemma_disjoint(walls@, width as int, height as int, rects@);
    }
    rects
}

/// Two maximal runs of one row that share a column are the same run.
pub proof fn lemma_runs_equal(row: Seq<bool>, p: Plate, q: Plate, x: int)
    requires
        is_run(row, p),
        is_run(row, q),
        p.left <= x <= p.right,
        q.left <= x <= q.right,
    ensures
        p == q,
{
    if p.left < q.left {
        assert(row[q.left - 1]);
    }
    if q.left < p.left {
        assert(row[p.left - 1]);
    }
    if p.right < q.right {
        assert(row[p.right + 1]);
    }
    if q.right < p.right {
        assert(row[q.right + 1]);
    }
}

/// The plates of a row hold a plate exactly when it is a maximal run.
proof fn lemma_plate_iff_run(row: Seq<bool>, plates: Seq<Plate>, p: Plate)
    requires
        plates_of_row(row, plates),
    ensures
        plates.contains(p) <==> is_run(row, p),
{
    if is_run(row, p) {
        assert(row[p.left as int]);
        let i = choose|i: int| 0 <= i < plates.len() && #[trigger] plates[i].left <= p.left <= plates[i].right;
        lemma_runs_equal(row, plates[i], p, p.left as int);
        assert(plates[i] == p);
    }
    if plates.contains(p) {
        let i = choose|i: int| 0 <= i < plates.len() && plates[i] == p;
        assert(is_run(row, plates[i]));
    }
}

/// Where the rows hold exactly the maximal runs of the level, their maximal
/// stacks are those of the level.
proof fn lemma_stacks_are_wall_stacks(
    rows: Seq<Seq<Plate>>,
    walls: Seq<GridCoords>,
    width: int,
    height: int,
    rects: Seq<Rect>,
)
    requires
        rows.len() == height,
        forall|y: int, p: Plate| #[trigger] has_plate(rows, y, p) == is_plate(walls, width, height, y, p),
        stacks_of(rows, rects),
    ensures
        wall_rects(walls, width, height, rects),
{
    assert forall|i: int| 0 <= i < rects.len() implies is_wall_stack(walls, width, height, #[trigger] rects[i]) by {
        let r = rects[i];
        assert(is_stack(rows, r));
        assert(has_plate(rows, r.bottom - 1, plate_of(r)) == is_plate(walls, width, height, r.bottom - 1, plate_of(r)));
        assert(has_plate(rows, r.top + 1, plate_of(r)) == is_plate(walls, width, height, r.top + 1, plate_of(r)));
        assert forall|y: int| r.bottom <= y <= r.top implies #[trigger] is_plate(walls, width, height, y, plate_of(r)) by {
            assert(has_plate(rows, y, plate_of(r)));
        }
    }
    assert forall|y: int, p: Plate| #[trigger] is_plate(walls, width, height, y, p) implies plate_covered(rects, 0, y, p) by {
        assert(has_plate(rows, y, p));
        let k = choose|k: int| 0 <= k < rows[y].len() && rows[y][k] == p;
        assert(plate_covered(rects, 0, y, rows[y][k]));
    }
}

/// Every tile that a merged rectangle covers is a wall tile of the level.
proof fn lemma_covered_tiles_are_walls(walls: Seq<GridCoords>, width: int, height: int, rects: Seq<Rect>)
    requires
        0 <= width,
        wall_rects(walls, width, height, rects),
    ensures
        forall|i: int, x: int, y: int|
            0 <= i < rects.len() && #[trigger] covers_tile(rects[i], x, y) ==> 0 <= x < width && 0 <= y
                < height && wall_at(walls, x, y),
{
    assert forall|i: int, x: int, y: int|
        0 <= i < rects.len() && #[trigger] covers_tile(rects[i], x, y) implies 0 <= x < width && 0 <= y
            < height && wall_at(walls, x, y) by {
        assert(is_wall_stack(walls, width, height, rects[i]));
        let row = row_of(walls, width, y);
        assert(is_plate(walls, width, height, y, plate_of(rects[i])));
        assert(is_run(row, plate_of(rects[i])));
        assert(0 <= x < row.len());
        assert(row[x]);
        assert(row.len() == width);
    }
}

/// No two merged rectangles share a tile.
proof fn lemma_disjoint(walls: Seq<GridCoords>, width: int, height: int, rects: Seq<Rect>)
    requires
        wall_rects(walls, width, height, rects),
    ensures
        forall|i: int, j: int, x: int, y: int|
            0 <= i < rects.len() && 0 <= j < rects.len() && i != j ==> !(#[trigger] covers_tile(
                rects[i],
                x,
                y,
            ) && #[trigger] covers_tile(rects[j], x, y)),
{
    assert forall|i: int, j: int, x: int, y: int|
        0 <= i < rects.len() && 0 <= j < rects.len() && i != j implies !(#[trigger] covers_tile(
            rects[i],
            x,
            y,
        ) && #[trigger] covers_tile(rects[j], x, y)) by {
        if covers_tile(rects[i], x, y) && covers_tile(rects[j], x, y) {
            let a = rects[i];
            let b = rects[j];
            assert(is_wall_stack(walls, width, height, a));
            assert(is_wall_stack(walls, width, height, b));
            assert(is_plate(walls, width, height, y, plate_of(a)));
            assert(is_plate(walls, width, height, y, plate_of(b)));
            lemma_runs_equal(row_of(walls, width, y), plate_of(a), plate_of(b), x);
            lemma_stacks_equal(walls, width, height, a, b, y);
            if i < j {
                assert(a.top < b.top || (a.top == b.top && a.left < b.left));
            } else {
                assert(b.top < a.top || (b.top == a.top && b.left < a.left));
            }
        }
    }
}

/// Two maximal stacks of one plate that share a row are the same rectangle.
proof fn lemma_stacks_equal(walls: Seq<GridCoords>, width: int, height: int, a: Rect, b: Rect, y: int)
    requires
        is_wall_stack(walls, width, height, a),
        is_wall_stack(walls, width, height, b),
        plate_of(a) == plate_of(b),
        a.bottom <= y <= a.top,
        b.bottom <= y <= b.top,
    ensures
        a == b,
{
    if a.bottom < b.bottom {
        assert(is_plate(walls, width, height, b.bottom - 1, plate_of(a)));
    }
    if b.bottom < a.bottom {
        assert(is_plate(walls, width, height, a.bottom - 1, plate_of(b)));
    }
    if a.top < b.top {
        assert(is_plate(walls, width, height, a.top + 1, plate_of(b)));
    }
    if b.top < a.top {
        assert(is_plate(walls, width, height, b.top + 1, plate_of(a)));
    }
}

/// The merge of a level is determined by the level: two lists of rectangles
/// that are both its merge are the same list.
pub proof fn lemma_wall_rects_unique(
    walls: Seq<GridCoords>,
    width: int,
    height: int,
    a: Seq<Rect>,
    b: Seq<Rect>,
)
    requires
        wall_rects(walls, width, height, a),
        wall_rects(walls, width, height, b),
    ensures
        a == b,
{
    lemma_stacks_within(walls, width, height, a, b);
    lemma_stacks_within(walls, width, height, b, a);
    lemma_ordered_same_elements(a, b);
}

/// Every rectangle of one merge of a level is a rectangle of any other.
proof fn lemma_stacks_within(walls: Seq<GridCoords>, width: int, height: int, a: Seq<Rect>, b: Seq<Rect>)
    requires
        wall_rects(walls, width, height, a),
        wall_rects(walls, width, height, b),
    ensures
        forall|i: int| 0 <= i < a.len() ==> holds_rect(b, #[trigger] a[i]),
{
    assert forall|i: int| 0 <= i < a.len() implies holds_rect(b, #[trigger] a[i]) by {
        let r = a[i];
        assert(is_wall_stack(walls, width, height, r));
        assert(is_plate(walls, width, height, r.bottom as int, plate_of(r)));
        assert(plate_covered(b, 0, r.bottom as int, plate_of(r)));
        let j = choose|j: int| 0 <= j < b.len() && #[trigger] covers_plate(b[j], r.bottom as int, plate_of(r));
        assert(is_wall_stack(walls, width, height, b[j]));
        lemma_stacks_equal(walls, width, height, r, b[j], r.bottom as int);
        assert(0 <= j < b.len() && b[j] == r);
    }
}

/// `r` is one of `rects`.
pub open spec fn holds_rect(rects: Seq<Rect>, r: Rect) -> bool {
    exists|j: int| 0 <= j < rects.len() && rects[j] == r
}

/// `r` comes strictly before `s` in the order of merged rectangles.
pub open spec fn rect_before(r: Rect, s: Rect) -> bool {
    r.top < s.top || (r.top == s.top && r.left < s.left)
}

/// An ordered list stays ordered without its first rectangle, which comes
/// before all the others.
proof fn lemma_ordered_tail(a: Seq<Rect>)
    requires
        rects_ordered(a),
        a.len() > 0,
    ensures
        rects_ordered(a.subrange(1, a.len() as int)),
        forall|i: int| 1 <= i < a.len() ==> rect_before(a[0], #[trigger] a[i]),
{
    let a1 = a.subrange(1, a.len() as int);
    assert forall|x: int, y: int| 0 <= x < y < a1.len() implies #[trigger] a1[x].top < #[trigger] a1[y].top || (
        a1[x].top == a1[y].top && a1[x].left < a1[y].left) by {
        assert(a1[x] == a[x + 1] && a1[y] == a[y + 1]);
    }
    assert forall|i: int| 1 <= i < a.len() implies rect_before(a[0], #[trigger] a[i]) by {
        assert(a[0].top < a[i].top || (a[0].top == a[i].top && a[0].left < a[i].left));
    }
}

/// Where `b` holds every rectangle of `a` and `b[0] == a[0]`, the rest of `b`
/// holds every rectangle of the rest of `a`.
proof fn lemma_tail_holds(a: Seq<Rect>, b: Seq<Rect>)
    requires
        a.len() > 0,
        b.len() > 0,
        a[0] == b[0],
        forall|i: int| 1 <= i < a.len() ==> rect_before(a[0], #[trigger] a[i]),
        forall|i: int| 0 <= i < a.len() ==> holds_rect(b, #[trigger] a[i]),
    ensures
        forall|i: int|
            0 <= i < a.len() - 1 ==> holds_rect(b.subrange(1, b.len() as int), #[trigger] a.subrange(1, a.len() as int)[i]),
{
    let a1 = a.subrange(1, a.len() as int);
    let b1 = b.subrange(1, b.len() as int);
    assert forall|i: int| 0 <= i < a1.len() implies holds_rect(b1, #[trigger] a1[i]) by {
        assert(a1[i] == a[i + 1]);
        assert(holds_rect(b, a[i + 1]));
        let j = choose|j: int| 0 <= j < b.len() && b[j] == a[i + 1];
        assert(rect_before(a[0], a[i + 1]));
        assert(j != 0);
        assert(b1[j - 1] == b[j]);
    }
}

/// Two ordered lists of rectangles that hold the same rectangles are equal.
proof fn lemma_ordered_same_elements(a: Seq<Rect>, b: Seq<Rect>)
    requires
        rects_ordered(a),
        rects_ordered(b),
        forall|i: int| 0 <= i < a.len() ==> holds_rect(b, #[trigger] a[i]),
        forall|j: int| 0 <= j < b.len() ==> holds_rect(a, #[trigger] b[j]),
    ensures
        a == b,
    decreases a.len() + b.len(),
{
    if a.len() == 0 {
        if b.len() > 0 {
            assert(holds_rect(a, b[0]));
        }
        assert(a =~= b);
    } else if b.len() == 0 {
        assert(holds_rect(b, a[0]));
    } else {
        lemma_ordered_tail(a);
        lemma_ordered_tail(b);
        assert(holds_rect(b, a[0]));
        assert(holds_rect(a, b[0]));
        let j = choose|j: int| 0 <= j < b.len() && b[j] == a[0];
        let k = choose|k: int| 0 <= k < a.len() && a[k] == b[0];
        if j > 0 {
            // b[0] comes before a[0] in b, yet not before it in a
            assert(rect_before(b[0], b[j]));
            if k > 0 {
                assert(rect_before(a[0], a[k]));
            }
        }
        assert(a[0] == b[0]);
        lemma_tail_holds(a, b);
        lemma_tail_holds(b, a);
        let a1 = a.subrange(1, a.len() as int);
        let b1 = b.subrange(1, b.len() as int);
        lemma_ordered_same_elements(a1, b1);
        assert forall|i: int| 0 <= i < a.len() implies a[i] == b[i] by {
            if i > 0 {
                assert(a1[i - 1] == b1[i - 1]);
            }
        }
        assert(a =~= b);
    }
}

// ---------------------------------------------------------------------------
// Consequences for particular levels
// ---------------------------------------------------------------------------

/// The unit rectangle on the tile `(x, y)`.
pub open spec fn unit_rect(x: int, y: int) -> Rect {
    Rect { left: x as i32, right: x as i32, top: y as i32, bottom: y as i32 }
}

/// Rectangles that are ordered and all equal to `r` are `r` alone.
proof fn lemma_only(rects: Seq<Rect>, r: Rect)
    requires
        rects_ordered(rects),
        rects.len() > 0,
        forall|i: int| 0 <= i < rects.len() ==> #[trigger] rects[i] == r,
    ensures
        rects == seq![r],
{
    if rects.len() > 1 {
        assert(rects[0] == r && rects[1] == r);
        assert(rects[0].top < rects[1].top || rects[0].left < rects[1].left);
    }
    assert(rects[0] == r);
    assert(rects =~= seq![r]);
}

/// A level whose walls are exactly one full row merges into one rectangle
/// spanning that row.
pub proof fn lemma_full_row_is_one_rect(
    walls: Seq<GridCoords>,
    width: int,
    height: int,
    y: int,
    rects: Seq<Rect>,
)
    requires
        0 < width < i32::MAX,
        0 <= y < height < i32::MAX,
        forall|x: int, v: int|
            0 <= x < width && 0 <= v < height ==> (#[trigger] wall_at(walls, x, v) <==> v == y),
        wall_rects(walls, width, height, rects),
    ensures
        rects == seq![Rect { left: 0, right: (width - 1) as i32, top: y as i32, bottom: y as i32 }],
{
    let whole = Plate { left: 0, right: (width - 1) as i32 };
    let r0 = Rect { left: 0, right: (width - 1) as i32, top: y as i32, bottom: y as i32 };
    assert(is_plate(walls, width, height, y, whole)) by {
        assert forall|x: int| whole.left <= x <= whole.right implies #[trigger] row_of(walls, width, y)[x] by {
            assert(wall_at(walls, x, y));
        }
    }
    assert(plate_covered(rects, 0, y, whole));
    assert forall|i: int| 0 <= i < rects.len() implies #[trigger] rects[i] == r0 by {
        let r = rects[i];
        assert(is_wall_stack(walls, width, height, r));
        lemma_lone_row_plate(walls, width, height, y, r.bottom as int, plate_of(r));
        lemma_lone_row_plate(walls, width, height, y, r.top as int, plate_of(r));
    }
    lemma_only(rects, r0);
}

/// In a level whose walls are exactly row `y`, the only maximal run is the
/// whole of row `y`.
proof fn lemma_lone_row_plate(walls: Seq<GridCoords>, width: int, height: int, y: int, v: int, p: Plate)
    requires
        0 < width,
        forall|x: int, v: int|
            0 <= x < width && 0 <= v < height ==> (#[trigger] wall_at(walls, x, v) <==> v == y),
        is_plate(walls, width, height, v, p),
    ensures
        v == y,
        p.left == 0,
        p.right == width - 1,
{
    let row = row_of(walls, width, v);
    assert(row[p.left as int]);
    assert(wall_at(walls, p.left as int, v));
    if p.left > 0 {
        assert(wall_at(walls, p.left - 1, v));
    }
    if p.right < width - 1 {
        assert(wall_at(walls, p.right + 1, v));
    }
}

/// A level whose walls are exactly two consecutive full rows merges into one
/// rectangle spanning both.
pub proof fn lemma_two_full_rows_are_one_rect(
    walls: Seq<GridCoords>,
    width: int,
    height: int,
    y: int,
    rects: Seq<Rect>,
)
    requires
        0 < width < i32::MAX,
        0 <= y && y + 1 < height < i32::MAX,
        forall|x: int, v: int|
            0 <= x < width && 0 <= v < height ==> (#[trigger] wall_at(walls, x, v) <==> (v == y || v == y
                + 1)),
        wall_rects(walls, width, height, rects),
    ensures
        rects == seq![Rect { left: 0, right: (width - 1) as i32, top: (y + 1) as i32, bottom: y as i32 }],
{
    let whole = Plate { left: 0, right: (width - 1) as i32 };
    let r0 = Rect { left: 0, right: (width - 1) as i32, top: (y + 1) as i32, bottom: y as i32 };
    assert forall|v: int| v == y || v == y + 1 implies #[trigger] is_plate(walls, width, height, v, whole) by {
        assert forall|x: int| whole.left <= x <= whole.right implies #[trigger] row_of(walls, width, v)[x] by {
            assert(wall_at(walls, x, v));
        }
    }
    assert(is_plate(walls, width, height, y, whole));
    assert(plate_covered(rects, 0, y, whole));
    assert forall|i: int| 0 <= i < rects.len() implies #[trigger] rects[i] == r0 by {
        let r = rects[i];
        assert(is_wall_stack(walls, width, height, r));
        lemma_two_rows_plate(walls, width, height, y, r.bottom as int, plate_of(r));
        lemma_two_rows_plate(walls, width, height, y, r.top as int, plate_of(r));
        assert(is_plate(walls, width, height, y + 1, whole));
        assert(is_plate(walls, width, height, y, whole));
    }
    lemma_only(rects, r0);
}

/// In a level whose walls are exactly rows `y` and `y + 1`, the only maximal
/// runs are those two whole rows.
proof fn lemma_two_rows_plate(walls: Seq<GridCoords>, width: int, height: int, y: int, v: int, p: Plate)
    requires
        0 < width,
        forall|x: int, v: int|
            0 <= x < width && 0 <= v < height ==> (#[trigger] wall_at(walls, x, v) <==> (v == y || v == y
                + 1)),
        is_plate(walls, width, height, v, p),
    ensures
        v == y || v == y + 1,
        p.left == 0,
        p.right == width - 1,
{
    let row = row_of(walls, width, v);
    assert(row[p.left as int]);
    assert(wall_at(walls, p.left as int, v));
    if p.left > 0 {
        assert(wall_at(walls, p.left - 1, v));
    }
    if p.right < width - 1 {
        assert(wall_at(walls, p.right + 1, v));
    }
}

/// A level without wall tiles merges into no rectangle.
pub proof fn lemma_no_walls_no_rects(walls: Seq<GridCoords>, width: int, height: int, rects: Seq<Rect>)
    requires
        0 <= width,
        forall|x: int, y: int| 0 <= x < width && 0 <= y < height ==> !#[trigger] wall_at(walls, x, y),
        wall_rects(walls, width, height, rects),
    ensures
        rects.len() == 0,
{
    if rects.len() > 0 {
        let r = rects[0];
        assert(is_wall_stack(walls, width, height, r));
        assert(is_plate(walls, width, height, r.bottom as int, plate_of(r)));
        assert(row_of(walls, width, r.bottom as int)[r.left as int]);
        assert(wall_at(walls, r.left as int, r.bottom as int));
    }
}

/// In a level where no two wall tiles share an edge, every rectangle is a
/// single tile, and every wall tile is such a rectangle.
pub proof fn lemma_scattered_walls_stay_single(
    walls: Seq<GridCoords>,
    width: int,
    height: int,
    rects: Seq<Rect>,
)
    requires
        0 <= width < i32::MAX,
        0 <= height < i32::MAX,
        forall|x: int, y: int|
            0 <= x && x + 1 < width && 0 <= y < height ==> !(#[trigger] wall_at(walls, x, y) && wall_at(
                walls,
                x + 1,
                y,
            )),
        forall|x: int, y: int|
            0 <= x < width && 0 <= y && y + 1 < height ==> !(#[trigger] wall_at(walls, x, y) && wall_at(
                walls,
                x,
                y + 1,
            )),
        wall_rects(walls, width, height, rects),
    ensures
        forall|i: int| 0 <= i < rects.len() ==> #[trigger] rects[i] == unit_rect(rects[i].left as int, rects[i].bottom as int),
        forall|x: int, y: int|
            0 <= x < width && 0 <= y < height && #[trigger] wall_at(walls, x, y) ==> exists|i: int|
                0 <= i < rects.len() && rects[i] == unit_rect(x, y),
{
    assert forall|i: int| 0 <= i < rects.len() implies #[trigger] rects[i] == unit_rect(rects[i].left as int, rects[i].bottom as int) by {
        lemma_scattered_stack(walls, width, height, rects[i]);
    }
    assert forall|x: int, y: int|
        0 <= x < width && 0 <= y < height && #[trigger] wall_at(walls, x, y) implies exists|i: int|
            0 <= i < rects.len() && rects[i] == unit_rect(x, y) by {
        let p = Plate { left: x as i32, right: x as i32 };
        let row = row_of(walls, width, y);
        if x > 0 {
            assert(!wall_at(walls, x - 1, y));
        }
        if x + 1 < width {
            assert(!wall_at(walls, x + 1, y));
        }
        assert(is_run(row, p));
        assert(is_plate(walls, width, height, y, p));
        let i = choose|i: int| 0 <= i < rects.len() && #[trigger] covers_plate(rects[i], y, p);
        lemma_scattered_stack(walls, width, height, rects[i]);
        assert(rects[i] == unit_rect(x, y));
    }
}

/// Where no two wall tiles share an edge, a maximal stack is a single tile.
proof fn lemma_scattered_stack(walls: Seq<GridCoords>, width: int, height: int, r: Rect)
    requires
        0 <= width,
        forall|x: int, y: int|
            0 <= x && x + 1 < width && 0 <= y < height ==> !(#[trigger] wall_at(walls, x, y) && wall_at(
                walls,
                x + 1,
                y,
            )),
        forall|x: int, y: int|
            0 <= x < width && 0 <= y && y + 1 < height ==> !(#[trigger] wall_at(walls, x, y) && wall_at(
                walls,
                x,
                y + 1,
            )),
        is_wall_stack(walls, width, height, r),
    ensures
        r == unit_rect(r.left as int, r.bottom as int),
{
    let p = plate_of(r);
    assert(is_plate(walls, width, height, r.bottom as int, p));
    let row = row_of(walls, width, r.bottom as int);
    assert(row[r.left as int]);
    assert(wall_at(walls, r.left as int, r.bottom as int));
    if r.left < r.right {
        assert(row[r.left + 1]);
        assert(wall_at(walls, r.left + 1, r.bottom as int));
    }
    if r.bottom < r.top {
        assert(is_plate(walls, width, height, r.bottom + 1, p));
        assert(row_of(walls, width, r.bottom + 1)[r.left as int]);
        assert(wall_at(walls, r.left as int, r.bottom + 1));
    }
}

} // verus!

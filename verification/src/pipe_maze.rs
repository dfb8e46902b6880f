//! The pipe maze: from the text of a maze to the length of its loop and the
//! number of cells that the loop encloses.

use vstd::prelude::*;
use crate::enclosure::{count_enclosed, enclosed};
use crate::grid::{Grid, GridError, GridView, Position, rectangular};
use crate::text::{decimal, decimal_string, lines_of};
use crate::tile::{MazeError, Tile};
use crate::tracer::find_path;
use crate::walk::trace;

verus! {

/// Every character of `cells` stands for a tile.
pub open spec fn all_tiles(cells: Seq<Seq<char>>) -> bool {
    forall|r: int, c: int|
        0 <= r < cells.len() && 0 <= c < cells[r].len() ==> Tile::of_char(
            #[trigger] cells[r][c],
        ) is Some
}

/// The tiles that the characters of `cells` stand for, cell by cell.
pub open spec fn tiles_of(cells: Seq<Seq<char>>) -> Seq<Seq<Tile>> {
    Seq::new(
        cells.len(),
        |r: int| Seq::new(cells[r].len(), |c: int| Tile::of_char(cells[r][c])->0),
    )
}

/// The maze that `text` describes: one row for each line, one tile for each
/// character. Lines of unequal length are reported before unknown characters.
pub open spec fn maze_of(text: Seq<char>) -> Result<GridView<Tile>, MazeError> {
    let cells = lines_of(text);
    if !rectangular(cells) {
        Err(MazeError::MalformedGrid)
    } else if !all_tiles(cells) {
        Err(MazeError::UnknownTile)
    } else {
        Ok(GridView { cells: tiles_of(cells) })
    }
}

/// The number of moves from the start of the maze in `text` to the point of
/// its loop that is farthest from the start.
pub open spec fn farthest(text: Seq<char>) -> Result<nat, MazeError> {
    match maze_of(text) {
        Ok(maze) => match trace(maze) {
            Ok((steps, path)) => Ok(steps),
            Err(e) => Err(e),
        },
        Err(e) => Err(e),
    }
}

/// The number of cells of the maze in `text` that its loop encloses.
pub open spec fn enclosed_cells(text: Seq<char>) -> Result<nat, MazeError> {
    match maze_of(text) {
        Ok(maze) => match trace(maze) {
            Ok((steps, path)) => Ok(enclosed(path, maze.rows(), maze.cols()).len()),
            Err(e) => Err(e),
        },
        Err(e) => Err(e),
    }
}

/// Reads the tiles of a grid of characters. Fails with `UnknownTile` when a
/// character stands for no tile.
pub fn parse_tiles(chars: &Grid<char>) -> (r: Result<Grid<Tile>, MazeError>)
    requires
        chars@.wf(),
    ensures
        match r {
            Ok(g) => all_tiles(chars@.cells) && g@.cells == tiles_of(chars@.cells) && g@.wf(),
            Err(e) => e == MazeError::UnknownTile && !all_tiles(chars@.cells),
        },
{
    let (rows, cols) = chars.shape();
    let ghost cells = chars@.cells;
    let mut out: Vec<Vec<Tile>> = Vec::new();
    let mut r: usize = 0;
    while r < rows
        invariant
            chars@.wf(),
            cells == chars@.cells,
            rows == chars@.rows(),
            cols == chars@.cols(),
            r <= rows,
            out@.len() == r,
            forall|i: int, c: int|
                0 <= i < r && 0 <= c < cols ==> Tile::of_char(#[trigger] cells[i][c]) is Some,
            forall|i: int| 0 <= i < r ==> (#[trigger] out@[i])@ == tiles_of(cells)[i],
        decreases rows - r,
    {
        let mut row: Vec<Tile> = Vec::new();
        let mut c: usize = 0;
        while c < cols
            invariant
                chars@.wf(),
                cells == chars@.cells,
                rows == chars@.rows(),
                cols == chars@.cols(),
                r < rows,
                c <= cols,
                row@.len() == c,
                forall|j: int| 0 <= j < c ==> Tile::of_char(#[trigger] cells[r as int][j]) is Some,
                forall|j: int|
                    0 <= j < c ==> #[trigger] row@[j] == Tile::of_char(cells[r as int][j])->0,
            decreases cols - c,
        {
            let ch = match chars.get(&(r, c)) {
                Some(ch) => ch,
                None => {
                    return Err(MazeError::UnknownTile);
                },
            };
            match Tile::from_char(ch) {
                Some(tile) => {
                    row.push(tile);
                },
                None => {
                    proof {
                        assert(Tile::of_char(cells[r as int][c as int]) is None);
                    }
                    return Err(MazeError::UnknownTile);
                },
            }
            c += 1;
        }
        proof {
            assert(row@ =~= tiles_of(cells)[r as int]);
        }
        out.push(row);
        r += 1;
    }
    proof {
        assert(crate::grid::rows_of(out@) =~= tiles_of(cells));
        assert(rectangular(tiles_of(cells)));
    }
    match Grid::from_rows(out) {
        Ok(g) => Ok(g),
        Err(e) => Err(MazeError::UnknownTile),
    }
}

/// Reads a maze from text: one row for each line, one tile for each character.
/// Fails with `MalformedGrid` when two lines differ in length, and otherwise
/// with `UnknownTile` when a character stands for no tile.
pub fn parse_maze(text: &str) -> (r: Result<Grid<Tile>, MazeError>)
    ensures
        match r {
            Ok(g) => {
                &&& maze_of(text@) == Ok::<GridView<Tile>, MazeError>(g@)
                &&& g@.wf()
                &&& g@.rows() * g@.cols() <= usize::MAX
            },
            Err(e) => maze_of(text@) == Err::<GridView<Tile>, MazeError>(e),
        },
{
    match Grid::from_str(text) {
        Ok(chars) => {
            let r = parse_tiles(&chars);
            proof {
                if r is Ok {
                    let maze = r->Ok_0@;
                    let cells = chars@.cells;
                    if cells.len() > 0 {
                        assert(maze.cells[0].len() == cells[0].len());
                    }
                    assert(maze.rows() == chars@.rows());
                    assert(maze.cols() == chars@.cols());
                }
            }
            r
        },
        Err(e) => Err(MazeError::MalformedGrid),
    }
}

/// The number of moves from the start to the farthest point of the loop, in
/// decimal: half the length of the loop.
pub fn part_1(s: &str) -> (r: Result<String, MazeError>)
    ensures
        match r {
            Ok(answer) => farthest(s@) matches Ok(n) && answer@ == decimal(n),
            Err(e) => farthest(s@) == Err::<nat, MazeError>(e),
        },
{
    let grid = match parse_maze(s) {
        Ok(g) => g,
        Err(e) => {
            return Err(e);
        },
    };
    match find_path(&grid) {
        Ok((steps, path)) => Ok(decimal_string(steps)),
        Err(e) => Err(e),
    }
}

/// The number of cells that the loop encloses, in decimal.
pub fn part_2(s: &str) -> (r: Result<String, MazeError>)
    ensures
        match r {
            Ok(answer) => enclosed_cells(s@) matches Ok(n) && answer@ == decimal(n),
            Err(e) => enclosed_cells(s@) == Err::<nat, MazeError>(e),
        },
{
    let grid = match parse_maze(s) {
        Ok(g) => g,
        Err(e) => {
            return Err(e);
        },
    };
    match find_path(&grid) {
        Ok((steps, path)) => {
            let shape = grid.shape();
            Ok(decimal_string(count_enclosed(&path, shape)))
        },
        Err(e) => Err(e),
    }
}

} // verus!

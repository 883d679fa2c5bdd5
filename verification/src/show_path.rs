//! Overlaying a traversal's path onto the textual form of its office.

use vstd::prelude::*;
use vstd::string::StringExecFns;
use crate::direction::Direction;
use crate::navigation::{state_in_bounds, Location, Path};
use crate::office::{cell_char, grid_wf, grid_width, Office};

verus! {

/// Whether some state of the path stands on the given cell.
pub open spec fn path_visits(path: Seq<(Location, Direction)>, row: int, col: int) -> bool {
    exists|i: int|
        0 <= i < path.len() && (#[trigger] path[i]).0.row == row && path[i].0.col == col
}

/// The marker of one cell once the path is overlaid: a visited cell shows
/// `-`, every other cell keeps its occupancy marker.
pub open spec fn marked_cell(
    g: Seq<Seq<bool>>,
    path: Seq<(Location, Direction)>,
    row: int,
    col: int,
) -> char {
    if path_visits(path, row, col) {
        '-'
    } else {
        cell_char(g, row, col)
    }
}

/// One row of the overlaid rendering.
pub open spec fn marked_row(g: Seq<Seq<bool>>, path: Seq<(Location, Direction)>, row: int) -> Seq<
    char,
> {
    Seq::new(g[row].len(), |col: int| marked_cell(g, path, row, col))
}

/// The rows from `row` on, joined by line breaks, with no break after the
/// last row.
pub open spec fn marked_rows_from(
    g: Seq<Seq<bool>>,
    path: Seq<(Location, Direction)>,
    row: int,
) -> Seq<char>
    decreases g.len() - row,
{
    if row < 0 || row >= g.len() {
        Seq::empty()
    } else if row == g.len() - 1 {
        marked_row(g, path, row)
    } else {
        marked_row(g, path, row) + seq!['\n'] + marked_rows_from(g, path, row + 1)
    }
}

/// The whole overlaid rendering: every visited cell marked, every other
/// cell unchanged, one line per row.
pub open spec fn rendered_with_path(g: Seq<Seq<bool>>, path: Seq<(Location, Direction)>) -> Seq<
    char,
> {
    marked_rows_from(g, path, 0)
}

fn location_on_path(path: &Path, row: usize, col: usize) -> (r: bool)
    ensures
        r == path_visits(path@, row as int, col as int),
{
    let n = path.len();
    let mut i: usize = 0;
    while i < n
        invariant
            i <= n,
            n == path@.len(),
            forall|j: int|
                0 <= j < i ==> !((#[trigger] path@[j]).0.row == row && path@[j].0.col == col),
        decreases n - i,
    {
        let (loc, _dir) = path[i];
        if loc.row == row && loc.col == col {
            proof {
                assert(path@[i as int].0.row == row && path@[i as int].0.col == col);
            }
            return true;
        }
        i = i + 1;
    }
    false
}

/// Renders the office with the path overlaid: every visited cell is
/// marked `-`, all other cells keep their occupancy marker, rows are
/// joined by line breaks. The path must lie inside the office.
pub fn show_path(office: &Office, path: &Path) -> (r: String)
    requires
        grid_wf(office@),
        forall|i: int| 0 <= i < path@.len() ==> state_in_bounds(office@, #[trigger] path@[i]),
    ensures
        r@ == rendered_with_path(office@, path@),
{
    let height = office.height();
    let width = office.width();
    let mut out = String::new();
    let mut row: usize = 0;
    while row < height
        invariant
            row <= height,
            height == office@.len(),
            width == grid_width(office@),
            grid_wf(office@),
            rendered_with_path(office@, path@) == out@ + marked_rows_from(
                office@,
                path@,
                row as int,
            ),
        decreases height - row,
    {
        proof {
            assert(office@[row as int].len() == grid_width(office@));
        }
        let ghost row_base = out@;
        let mut col: usize = 0;
        while col < width
            invariant
                col <= width,
                row < height,
                height == office@.len(),
                width == grid_width(office@),
                grid_wf(office@),
                office@[row as int].len() == width,
                out@ == row_base + marked_row(office@, path@, row as int).subrange(0, col as int),
            decreases width - col,
        {
            if location_on_path(path, row, col) {
                out.append("-");
            } else if office.desk_is_occupied(row, col) {
                out.append("x");
            } else {
                out.append("0");
            }
            proof {
                reveal_strlit("-");
                reveal_strlit("x");
                reveal_strlit("0");
                assert(marked_row(office@, path@, row as int).subrange(0, col + 1) =~= marked_row(
                    office@,
                    path@,
                    row as int,
                ).subrange(0, col as int).push(marked_cell(office@, path@, row as int, col as int)));
                assert(out@ =~= row_base + marked_row(office@, path@, row as int).subrange(
                    0,
                    col + 1,
                ));
            }
            col = col + 1;
        }
        proof {
            assert(marked_row(office@, path@, row as int).subrange(0, width as int) =~= marked_row(
                office@,
                path@,
                row as int,
            ));
        }
        if row + 1 < height {
            out.append("\n");
            proof {
                reveal_strlit("\n");
                assert(out@ =~= row_base + marked_row(office@, path@, row as int) + seq!['\n']);
                assert(rendered_with_path(office@, path@) =~= out@ + marked_rows_from(
                    office@,
                    path@,
                    row as int + 1,
                ));
            }
        } else {
            proof {
                assert(out@ =~= row_base + marked_row(office@, path@, row as int));
                assert(marked_rows_from(office@, path@, row as int + 1) =~= Seq::<char>::empty());
                assert(rendered_with_path(office@, path@) =~= out@ + marked_rows_from(
                    office@,
                    path@,
                    row as int + 1,
                ));
            }
        }
        row = row + 1;
    }
    proof {
        assert(rendered_with_path(office@, path@) =~= out@);
    }
    out
}

} // verus!

//! The traversal engine: a wall-hugging walk over an office grid that
//! either escapes through row 0 or detects that it is caught in a cycle.

use vstd::prelude::*;
use vstd::seq_lib::*;
use vstd::set_lib::{lemma_int_range, lemma_len_subset, set_int_range};
use crate::direction::Direction;
use crate::direction::lemma_turns_are_rotations;
use crate::office::{all_free, all_occupied, grid_height, grid_wf, grid_width, Office};

verus! {

/// A grid coordinate: row 0 is the exit edge, row `height - 1` the entry
/// edge.
#[derive(Copy, Clone, PartialEq, Eq, Structural, Debug)]
pub struct Location {
    pub row: usize,
    pub col: usize,
}

/// The trace of one traversal: the visited `(Location, Direction)` states
/// in visitation order.
pub type Path = Vec<(Location, Direction)>;

/// The row reached by one step from `loc` in direction `dir`; unbounded,
/// so a step off the grid is visible as `-1` or `height`.
pub open spec fn stepped_row(loc: Location, dir: Direction) -> int {
    match dir {
        Direction::Up => loc.row - 1,
        Direction::Down => loc.row + 1,
        Direction::Right => loc.row as int,
        Direction::Left => loc.row as int,
    }
}

/// The column reached by one step from `loc` in direction `dir`.
pub open spec fn stepped_col(loc: Location, dir: Direction) -> int {
    match dir {
        Direction::Up => loc.col as int,
        Direction::Down => loc.col as int,
        Direction::Right => loc.col + 1,
        Direction::Left => loc.col - 1,
    }
}

/// A forward attempt: the state reached by stepping from `loc` in
/// direction `dir`, or `None` if that cell is outside the grid or
/// occupied.
pub open spec fn forward_target(g: Seq<Seq<bool>>, loc: Location, dir: Direction) -> Option<
    (Location, Direction),
> {
    let r = stepped_row(loc, dir);
    let c = stepped_col(loc, dir);
    if 0 <= r < g.len() && 0 <= c < grid_width(g) && !g[r][c] {
        Some((Location { row: r as usize, col: c as usize }, dir))
    } else {
        None
    }
}

/// The wall-hugging transition: try a left turn, then straight on, then a
/// right turn, then a full reversal; if every attempt is blocked, stay
/// put.
pub open spec fn next_state(g: Seq<Seq<bool>>, s: (Location, Direction)) -> (Location, Direction) {
    match forward_target(g, s.0, s.1.spec_turn_left()) {
        Some(t) => t,
        None => match forward_target(g, s.0, s.1) {
            Some(t) => t,
            None => match forward_target(g, s.0, s.1.spec_turn_right()) {
                Some(t) => t,
                None => match forward_target(g, s.0, s.1.spec_reverse()) {
                    Some(t) => t,
                    None => s,
                },
            },
        },
    }
}

pub open spec fn state_in_bounds(g: Seq<Seq<bool>>, s: (Location, Direction)) -> bool {
    s.0.row < g.len() && s.0.col < grid_width(g)
}

/// Where every traversal begins: the entry row, the chosen column,
/// heading left.
pub open spec fn start_state(g: Seq<Seq<bool>>, start_column: usize) -> (Location, Direction) {
    (Location { row: (g.len() - 1) as usize, col: start_column }, Direction::Left)
}

/// What a returned path is: it starts at the start state, each entry is
/// followed by its wall-hugging successor, no entry sits on the exit row,
/// every entry lies inside the grid, and no state occurs twice.
pub open spec fn is_trace(
    g: Seq<Seq<bool>>,
    s0: (Location, Direction),
    path: Seq<(Location, Direction)>,
) -> bool {
    &&& (path.len() > 0 ==> path[0] == s0)
    &&& (forall|i: int|
        0 <= i < path.len() - 1 ==> path[i + 1] == next_state(g, #[trigger] path[i]))
    &&& (forall|i: int| 0 <= i < path.len() ==> (#[trigger] path[i]).0.row != 0)
    &&& (forall|i: int| 0 <= i < path.len() ==> state_in_bounds(g, #[trigger] path[i]))
    &&& path.no_duplicates()
}

/// The state the walk stands in after the recorded path: the start state
/// while nothing is recorded, else the successor of the last entry.
pub open spec fn state_after(
    g: Seq<Seq<bool>>,
    s0: (Location, Direction),
    path: Seq<(Location, Direction)>,
) -> (Location, Direction) {
    if path.len() == 0 {
        s0
    } else {
        next_state(g, path.last())
    }
}

/// A successful escape: a trace whose continuation stands on the exit
/// row. The exiting state itself is not part of the path.
pub open spec fn escape_succeeds(
    g: Seq<Seq<bool>>,
    start_column: usize,
    path: Seq<(Location, Direction)>,
) -> bool {
    let s0 = start_state(g, start_column);
    &&& is_trace(g, s0, path)
    &&& state_after(g, s0, path).0.row == 0
}

/// A detected cycle: a trace whose continuation repeats an earlier state.
/// The repeated state is not appended a second time.
pub open spec fn escape_fails(
    g: Seq<Seq<bool>>,
    start_column: usize,
    path: Seq<(Location, Direction)>,
) -> bool {
    let s0 = start_state(g, start_column);
    &&& is_trace(g, s0, path)
    &&& path.len() > 0
    &&& path.contains(state_after(g, s0, path))
}

/// The path carried by either outcome of a traversal.
pub open spec fn result_path(r: Result<Path, Path>) -> Seq<(Location, Direction)> {
    match r {
        Ok(p) => p@,
        Err(p) => p@,
    }
}

/// A traversal strategy: one operation, attempting escape from a grid and
/// a start column. The real walker is [`WallHuggingNavigator`]; tests may
/// substitute a scripted stand-in. Whatever the strategy, every state of
/// the returned path lies inside the office.
pub trait Navigator {
    fn try_to_escape(&mut self, office: &Office, start_column: usize) -> (r: Result<Path, Path>)
        requires
            grid_wf(office@),
            start_column < grid_width(office@),
        ensures
            forall|i: int|
                0 <= i < result_path(r).len() ==> state_in_bounds(
                    office@,
                    #[trigger] result_path(r)[i],
                ),
    ;
}

/// The deterministic wall-hugging walker.
pub struct WallHuggingNavigator {}

impl Navigator for WallHuggingNavigator {
    fn try_to_escape(&mut self, office: &Office, start_column: usize) -> (r: Result<Path, Path>) {
        try_to_escape(office, start_column)
    }
}

fn try_to_move_forward(location: &Location, direction: Direction, office: &Office) -> (r: Option<
    (Location, Direction),
>)
    requires
        grid_wf(office@),
        location.row < office@.len(),
        location.col < grid_width(office@),
    ensures
        r == forward_target(office@, *location, direction),
{
    let height = office.desk_rows.len();
    let width = office.width();
    let (next_row, next_col): (usize, usize) = match direction {
        Direction::Up => {
            if location.row == 0 {
                return None;
            }
            (location.row - 1, location.col)
        },
        Direction::Down => {
            if location.row + 1 >= height {
                return None;
            }
            (location.row + 1, location.col)
        },
        Direction::Left => {
            if location.col == 0 {
                return None;
            }
            (location.row, location.col - 1)
        },
        Direction::Right => {
            if location.col + 1 >= width {
                return None;
            }
            (location.row, location.col + 1)
        },
    };
    proof {
        assert(office@[next_row as int].len() == grid_width(office@));
    }
    if office.desk_is_occupied(next_row, next_col) {
        None
    } else {
        Some((Location { row: next_row, col: next_col }, direction))
    }
}

fn try_to_move_left(location: &Location, direction: Direction, office: &Office) -> (r: Option<
    (Location, Direction),
>)
    requires
        grid_wf(office@),
        location.row < office@.len(),
        location.col < grid_width(office@),
    ensures
        r == forward_target(office@, *location, direction.spec_turn_left()),
{
    try_to_move_forward(location, direction.turn_left(), office)
}

fn try_to_move_right(location: &Location, direction: Direction, office: &Office) -> (r: Option<
    (Location, Direction),
>)
    requires
        grid_wf(office@),
        location.row < office@.len(),
        location.col < grid_width(office@),
    ensures
        r == forward_target(office@, *location, direction.spec_turn_right()),
{
    try_to_move_forward(location, direction.turn_right(), office)
}

fn try_to_move_backward(location: &Location, direction: Direction, office: &Office) -> (r: Option<
    (Location, Direction),
>)
    requires
        grid_wf(office@),
        location.row < office@.len(),
        location.col < grid_width(office@),
    ensures
        r == forward_target(office@, *location, direction.spec_reverse()),
{
    proof {
        lemma_turns_are_rotations(direction);
    }
    try_to_move_forward(location, direction.turn_left().turn_left(), office)
}

fn get_next_location_and_direction(
    current_location: &Location,
    current_direction: Direction,
    office: &Office,
) -> (r: (Location, Direction))
    requires
        grid_wf(office@),
        current_location.row < office@.len(),
        current_location.col < grid_width(office@),
    ensures
        r == next_state(office@, (*current_location, current_direction)),
        state_in_bounds(office@, r),
{
    match try_to_move_left(current_location, current_direction, office) {
        Some(t) => t,
        None => match try_to_move_forward(current_location, current_direction, office) {
            Some(t) => t,
            None => match try_to_move_right(current_location, current_direction, office) {
                Some(t) => t,
                None => match try_to_move_backward(current_location, current_direction, office) {
                    Some(t) => t,
                    None => (*current_location, current_direction),
                },
            },
        },
    }
}

fn path_contains(path: &Path, location: Location, direction: Direction) -> (r: bool)
    ensures
        r == path@.contains((location, direction)),
{
    let n = path.len();
    let mut idx: usize = 0;
    while idx < n
        invariant
            idx <= n,
            n == path@.len(),
            forall|j: int| 0 <= j < idx ==> path@[j] != (location, direction),
        decreases n - idx,
    {
        let (loc, dir) = path[idx];
        if loc == location && dir == direction {
            proof {
                assert(path@[idx as int] == (location, direction));
            }
            return true;
        }
        idx = idx + 1;
    }
    proof {
        assert(!path@.contains((location, direction)));
    }
    false
}

/// The position of a state in an enumeration of all states that a trace
/// can hold: row at least 1, inside a `w`-wide grid, one slot for each of
/// the four headings.
pub open spec fn dir_index(d: Direction) -> int {
    match d {
        Direction::Up => 0,
        Direction::Right => 1,
        Direction::Down => 2,
        Direction::Left => 3,
    }
}

pub open spec fn state_index(s: (Location, Direction), w: int) -> int {
    ((s.0.row - 1) * w + s.0.col) * 4 + dir_index(s.1)
}

proof fn lemma_state_index_range(s: (Location, Direction), w: int, h: int)
    requires
        w >= 1,
        h >= 1,
        1 <= s.0.row < h,
        0 <= s.0.col < w,
    ensures
        0 <= state_index(s, w) < 4 * (h - 1) * w,
{
    assert(0 <= dir_index(s.1) < 4);
    assert(0 <= ((s.0.row - 1) * w + s.0.col) * 4 + dir_index(s.1) < 4 * (h - 1) * w)
        by (nonlinear_arith)
        requires
            w >= 1,
            h >= 1,
            1 <= s.0.row < h,
            0 <= s.0.col < w,
            0 <= dir_index(s.1) < 4,
    ;
}

proof fn lemma_state_index_injective(s1: (Location, Direction), s2: (Location, Direction), w: int)
    requires
        w >= 1,
        1 <= s1.0.row,
        0 <= s1.0.col < w,
        1 <= s2.0.row,
        0 <= s2.0.col < w,
        state_index(s1, w) == state_index(s2, w),
    ensures
        s1 == s2,
{
    let a1 = (s1.0.row - 1) * w + s1.0.col;
    let a2 = (s2.0.row - 1) * w + s2.0.col;
    assert(0 <= dir_index(s1.1) < 4);
    assert(0 <= dir_index(s2.1) < 4);
    assert(a1 == a2 && dir_index(s1.1) == dir_index(s2.1)) by (nonlinear_arith)
        requires
            a1 * 4 + dir_index(s1.1) == a2 * 4 + dir_index(s2.1),
            0 <= dir_index(s1.1) < 4,
            0 <= dir_index(s2.1) < 4,
    ;
    assert(s1.0.row == s2.0.row && s1.0.col == s2.0.col) by (nonlinear_arith)
        requires
            (s1.0.row - 1) * w + s1.0.col == (s2.0.row - 1) * w + s2.0.col,
            w >= 1,
            1 <= s1.0.row,
            0 <= s1.0.col < w,
            1 <= s2.0.row,
            0 <= s2.0.col < w,
    ;
    assert(s1.1 == s2.1);
    assert(s1.0 == s2.0);
}

/// A trace visits each of the `4 * (height - 1) * width` distinct states
/// at most once, so its length is bounded.
proof fn lemma_trace_length_bound(g: Seq<Seq<bool>>, path: Seq<(Location, Direction)>)
    requires
        grid_wf(g),
        path.no_duplicates(),
        forall|i: int| 0 <= i < path.len() ==> (#[trigger] path[i]).0.row != 0,
        forall|i: int| 0 <= i < path.len() ==> state_in_bounds(g, #[trigger] path[i]),
    ensures
        path.len() <= 4 * (grid_height(g) - 1) * grid_width(g),
{
    let w = grid_width(g);
    let h = grid_height(g);
    let n = 4 * (h - 1) * w;
    let f = |s: (Location, Direction)| state_index(s, w);
    let ids = path.map_values(f);
    assert(ids.len() == path.len());
    assert forall|i: int, j: int|
        (0 <= i < ids.len() && 0 <= j < ids.len() && i != j) implies ids[i] != ids[j] by {
        assert(path[i].0.row != 0 && state_in_bounds(g, path[i]));
        assert(path[j].0.row != 0 && state_in_bounds(g, path[j]));
        if ids[i] == ids[j] {
            lemma_state_index_injective(path[i], path[j], w);
        }
    }
    assert(ids.no_duplicates());
    ids.unique_seq_to_set();
    assert forall|x: int| ids.to_set().contains(x) implies set_int_range(0, n).contains(x) by {
        let i = choose|i: int| 0 <= i < ids.len() && ids[i] == x;
        assert(path[i].0.row != 0 && state_in_bounds(g, path[i]));
        lemma_state_index_range(path[i], w, h);
    }
    assert(ids.to_set().subset_of(set_int_range(0, n)));
    lemma_int_range(0, n);
    lemma_len_subset(ids.to_set(), set_int_range(0, n));
}

/// Appending the pending state to a trace keeps it a trace, provided the
/// state is new, off the exit row and inside the grid.
proof fn lemma_trace_push(
    g: Seq<Seq<bool>>,
    s0: (Location, Direction),
    path: Seq<(Location, Direction)>,
    cur: (Location, Direction),
)
    requires
        is_trace(g, s0, path),
        cur == state_after(g, s0, path),
        cur.0.row != 0,
        state_in_bounds(g, cur),
        !path.contains(cur),
    ensures
        is_trace(g, s0, path.push(cur)),
        state_after(g, s0, path.push(cur)) == next_state(g, cur),
{
    let p = path.push(cur);
    assert(p[path.len() as int] == cur);
    assert(forall|i: int| 0 <= i < path.len() ==> p[i] == path[i]);
    assert forall|i: int| 0 <= i < p.len() - 1 implies p[i + 1] == next_state(g, #[trigger] p[i]) by {
        if i < path.len() - 1 {
            assert(path[i + 1] == next_state(g, path[i]));
        } else {
            assert(p[i] == path.last());
            assert(p[i + 1] == cur);
        }
    }
    assert forall|i: int, j: int|
        (0 <= i < p.len() && 0 <= j < p.len() && i != j) implies p[i] != p[j] by {
        if i < path.len() && j < path.len() {
            assert(path[i] != path[j]);
        } else if j == path.len() {
            assert(p[j] == cur);
            assert(!path.contains(cur));
            assert(path[i] != cur);
        } else {
            assert(p[i] == cur);
            assert(!path.contains(cur));
            assert(path[j] != cur);
        }
    }
    assert(p.last() == cur);
}

/// On an unobstructed grid the walk is always on one of two stretches:
/// marching left along the entry row, or climbing column 0; either way
/// `row + col` strictly falls, so no state can ever repeat.
spec fn free_track(g: Seq<Seq<bool>>, start_column: usize, s: (Location, Direction)) -> bool {
    ||| (s.0.row == g.len() - 1 && s.1 == Direction::Left && s.0.col <= start_column)
    ||| (s.0.col == 0 && s.1 == Direction::Up && s.0.row <= g.len() - 1)
}

spec fn free_rank(s: (Location, Direction)) -> int {
    s.0.row + s.0.col
}

proof fn lemma_free_step(g: Seq<Seq<bool>>, start_column: usize, s: (Location, Direction))
    requires
        grid_wf(g),
        all_free(g),
        start_column < grid_width(g),
        free_track(g, start_column, s),
        state_in_bounds(g, s),
        s.0.row != 0,
    ensures
        free_track(g, start_column, next_state(g, s)),
        state_in_bounds(g, next_state(g, s)),
        free_rank(next_state(g, s)) < free_rank(s),
{
    let loc = s.0;
    let w = grid_width(g);
    let h = g.len() as int;
    assert(forall|r: int| 0 <= r < h ==> (#[trigger] g[r]).len() == w);
    if s.1 == Direction::Left {
        assert(loc.row == h - 1);
        assert(forward_target(g, loc, Direction::Down) is None);
        if loc.col > 0 {
            assert(!g[loc.row as int][loc.col - 1]);
            assert(next_state(g, s) == (Location { row: loc.row, col: (loc.col - 1) as usize },
                Direction::Left));
        } else {
            assert(forward_target(g, loc, Direction::Left) is None);
            assert(!g[loc.row - 1][0]);
            assert(next_state(g, s) == (Location { row: (loc.row - 1) as usize, col: 0usize },
                Direction::Up));
        }
    } else {
        assert(s.1 == Direction::Up);
        assert(loc.col == 0);
        assert(forward_target(g, loc, Direction::Left) is None);
        assert(!g[loc.row - 1][0]);
        assert(next_state(g, s) == (Location { row: (loc.row - 1) as usize, col: 0usize },
            Direction::Up));
    }
}

/// On a fully occupied grid every forward attempt is blocked, so the walk
/// stays where it is.
proof fn lemma_full_step(g: Seq<Seq<bool>>, s: (Location, Direction))
    requires
        grid_wf(g),
        all_occupied(g),
        state_in_bounds(g, s),
    ensures
        next_state(g, s) == s,
{
    assert forall|d: Direction| (#[trigger] forward_target(g, s.0, d)) is None by {
        let r = stepped_row(s.0, d);
        let c = stepped_col(s.0, d);
        if 0 <= r < g.len() && 0 <= c < grid_width(g) {
            assert(g[r].len() == grid_width(g));
            assert(g[r][c]);
        }
    }
}

/// Walks the office from the given start column, hugging the left wall,
/// until it either escapes through row 0 (`Ok`) or finds itself about to
/// repeat an earlier state (`Err`). Either way the returned path is the
/// exact trace of the walk; on an unobstructed office the walk always
/// escapes, and on a fully occupied office of height at least 2 it never
/// does.
pub fn try_to_escape(office: &Office, start_column: usize) -> (r: Result<Path, Path>)
    requires
        grid_wf(office@),
        start_column < grid_width(office@),
    ensures
        match r {
            Ok(path) => escape_succeeds(office@, start_column, path@),
            Err(path) => escape_fails(office@, start_column, path@),
        },
        result_path(r).len() <= 4 * grid_height(office@) * grid_width(office@),
        all_free(office@) ==> r is Ok,
        all_occupied(office@) && grid_height(office@) >= 2 ==> r is Err,
{
    let ghost g = office@;
    let ghost s0 = start_state(g, start_column);
    let height = office.desk_rows.len();
    let mut current_location = Location { row: height - 1, col: start_column };
    let mut current_direction = Direction::Left;
    let mut path_so_far: Path = Vec::new();
    proof {
        assert((current_location, current_direction) == s0);
    }
    loop
        invariant
            grid_wf(g),
            g == office@,
            g.len() <= usize::MAX,
            start_column < grid_width(g),
            s0 == start_state(g, start_column),
            is_trace(g, s0, path_so_far@),
            state_after(g, s0, path_so_far@) == (current_location, current_direction),
            state_in_bounds(g, (current_location, current_direction)),
            path_so_far@.len() <= 4 * (grid_height(g) - 1) * grid_width(g),
            all_free(g) ==> free_track(g, start_column, (current_location, current_direction)) && (
            forall|i: int|
                0 <= i < path_so_far@.len() ==> free_rank(#[trigger] path_so_far@[i]) > free_rank(
                    (current_location, current_direction),
                )),
            all_occupied(g) && grid_height(g) >= 2 ==> (current_location, current_direction) == s0
                && path_so_far@.len() <= 1 && (path_so_far@.len() == 1 ==> path_so_far@[0] == s0),
        decreases 4 * (grid_height(g) - 1) * grid_width(g) + 1 - path_so_far@.len(),
    {
        if current_location.row == 0 {
            proof {
                assert(4 * (grid_height(g) - 1) * grid_width(g) <= 4 * grid_height(g)
                    * grid_width(g)) by (nonlinear_arith)
                    requires
                        grid_height(g) >= 1,
                        grid_width(g) >= 1,
                ;
            }
            return Ok(path_so_far);
        }
        if path_contains(&path_so_far, current_location, current_direction) {
            proof {
                if all_free(g) {
                    let j = choose|j: int|
                        0 <= j < path_so_far@.len() && path_so_far@[j] == (
                        current_location,
                        current_direction,
                        );
                    assert(free_rank(path_so_far@[j]) > free_rank(
                        (current_location, current_direction),
                    ));
                }
                assert(4 * (grid_height(g) - 1) * grid_width(g) <= 4 * grid_height(g)
                    * grid_width(g)) by (nonlinear_arith)
                    requires
                        grid_height(g) >= 1,
                        grid_width(g) >= 1,
                ;
            }
            return Err(path_so_far);
        }
        let ghost prev = path_so_far@;
        let ghost cur = (current_location, current_direction);
        proof {
            lemma_trace_push(g, s0, prev, cur);
            lemma_trace_length_bound(g, prev.push(cur));
        }
        path_so_far.push((current_location, current_direction));
        let (next_location, next_direction) = get_next_location_and_direction(
            &current_location,
            current_direction,
            office,
        );
        proof {
            if all_free(g) {
                lemma_free_step(g, start_column, cur);
            }
            if all_occupied(g) && grid_height(g) >= 2 {
                lemma_full_step(g, cur);
            }
        }
        current_location = next_location;
        current_direction = next_direction;
    }
}

} // verus!

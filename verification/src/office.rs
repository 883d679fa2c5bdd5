//! The Office: a rectangular grid of occupied and free desks, built with
//! an exact occupancy count whose positions are drawn at random.

use vstd::prelude::*;
use vstd::arithmetic::div_mod::{lemma_div_is_ordered, lemma_div_multiples_vanish};
use vstd::arithmetic::mul::lemma_mul_inequality;
use vstd::string::{StringExecFns, StrSliceExecFns};

verus! {

/// A single grid cell: an occupied desk blocks the agent, a free one
/// lets it pass.
#[derive(Copy, Clone, PartialEq, Eq, Structural, Debug)]
pub struct Desk {
    pub is_occupied: bool,
}

/// A rectangular matrix of desks, stored row by row. Row 0 is the exit
/// edge, row `height - 1` the entry edge.
pub struct Office {
    pub desk_rows: Vec<Vec<Desk>>,
}

/// The mathematical model of a row sequence: `true` marks an occupied desk.
pub open spec fn office_view(rows: Seq<Vec<Desk>>) -> Seq<Seq<bool>> {
    rows.map_values(|row: Vec<Desk>| row@.map_values(|d: Desk| d.is_occupied))
}

impl View for Office {
    type V = Seq<Seq<bool>>;

    open spec fn view(&self) -> Seq<Seq<bool>> {
        office_view(self.desk_rows@)
    }
}

/// A usable grid: at least one row, and every row of the same positive width.
pub open spec fn grid_wf(g: Seq<Seq<bool>>) -> bool {
    &&& g.len() >= 1
    &&& g[0].len() >= 1
    &&& forall|r: int| 0 <= r < g.len() ==> (#[trigger] g[r]).len() == g[0].len()
}

pub open spec fn grid_height(g: Seq<Seq<bool>>) -> int {
    g.len() as int
}

pub open spec fn grid_width(g: Seq<Seq<bool>>) -> int {
    g[0].len() as int
}

/// How many cells of one row are occupied.
pub open spec fn row_occupied_count(row: Seq<bool>) -> int
    decreases row.len(),
{
    if row.len() == 0 {
        0
    } else {
        row_occupied_count(row.drop_last()) + (if row.last() {
            1int
        } else {
            0int
        })
    }
}

/// How many cells of the whole grid are occupied.
pub open spec fn grid_occupied_count(g: Seq<Seq<bool>>) -> int
    decreases g.len(),
{
    if g.len() == 0 {
        0
    } else {
        grid_occupied_count(g.drop_last()) + row_occupied_count(g.last())
    }
}

pub open spec fn all_free(g: Seq<Seq<bool>>) -> bool {
    forall|r: int, c: int| 0 <= r < g.len() && 0 <= c < g[r].len() ==> !(#[trigger] g[r][c])
}

pub open spec fn all_occupied(g: Seq<Seq<bool>>) -> bool {
    forall|r: int, c: int| 0 <= r < g.len() && 0 <= c < g[r].len() ==> (#[trigger] g[r][c])
}

/// An obstacle density `num / den` in `[0, 1]`, kept as an exact fraction
/// so that the occupancy target `floor(width * height * num / den)` is a
/// plain integer computation.
#[derive(Copy, Clone, PartialEq, Eq, Structural, Debug)]
pub struct Density {
    pub num: u32,
    pub den: u32,
}

impl Density {
    /// A valid density is a fraction in `[0, 1]`.
    pub open spec fn wf(self) -> bool {
        self.den >= 1 && self.num <= self.den
    }

    /// Exactly this many desks of a `cells`-desk grid are occupied.
    pub open spec fn occupied_target(self, cells: int) -> int {
        cells * self.num as int / self.den as int
    }
}

/// At the endpoints the occupancy target is exact: a zero density leaves
/// every desk free and a density of one occupies them all.
pub proof fn lemma_density_extremes(p: Density, cells: int)
    requires
        p.wf(),
        cells >= 0,
    ensures
        p.num == 0 ==> p.occupied_target(cells) == 0,
        p.num == p.den ==> p.occupied_target(cells) == cells,
{
    if p.num == 0 {
        assert(cells * 0 == 0) by (nonlinear_arith);
    }
    if p.num == p.den {
        lemma_div_multiples_vanish(cells, p.den as int);
        assert(cells * p.den as int == p.den as int * cells) by (nonlinear_arith);
    }
}

pub proof fn lemma_row_count_bounds(row: Seq<bool>)
    ensures
        0 <= row_occupied_count(row) <= row.len(),
    decreases row.len(),
{
    if row.len() > 0 {
        lemma_row_count_bounds(row.drop_last());
    }
}

pub proof fn lemma_grid_count_bounds(g: Seq<Seq<bool>>, w: int)
    requires
        forall|r: int| 0 <= r < g.len() ==> (#[trigger] g[r]).len() == w,
    ensures
        0 <= grid_occupied_count(g) <= g.len() * w,
    decreases g.len(),
{
    if g.len() > 0 {
        assert(forall|r: int|
            0 <= r < g.drop_last().len() ==> (#[trigger] g.drop_last()[r]).len() == w);
        lemma_grid_count_bounds(g.drop_last(), w);
        lemma_row_count_bounds(g.last());
        assert(g.len() * w == (g.len() - 1) * w + w) by (nonlinear_arith);
    } else {
        assert(g.len() * w == 0) by (nonlinear_arith)
            requires
                g.len() == 0,
        ;
    }
}

proof fn lemma_row_count_zero(row: Seq<bool>)
    requires
        row_occupied_count(row) == 0,
    ensures
        forall|c: int| 0 <= c < row.len() ==> !row[c],
    decreases row.len(),
{
    if row.len() > 0 {
        lemma_row_count_bounds(row.drop_last());
        lemma_row_count_zero(row.drop_last());
        assert forall|c: int| 0 <= c < row.len() implies !row[c] by {
            if c < row.len() - 1 {
                assert(row.drop_last()[c] == row[c]);
            } else {
                assert(row[c] == row.last());
            }
        }
    }
}

proof fn lemma_row_count_full(row: Seq<bool>)
    requires
        row_occupied_count(row) == row.len(),
    ensures
        forall|c: int| 0 <= c < row.len() ==> row[c],
    decreases row.len(),
{
    if row.len() > 0 {
        lemma_row_count_bounds(row.drop_last());
        lemma_row_count_full(row.drop_last());
        assert forall|c: int| 0 <= c < row.len() implies row[c] by {
            if c < row.len() - 1 {
                assert(row.drop_last()[c] == row[c]);
            } else {
                assert(row[c] == row.last());
            }
        }
    }
}

/// A grid with no occupied desk at all is free everywhere.
pub proof fn lemma_zero_count_all_free(g: Seq<Seq<bool>>)
    requires
        grid_occupied_count(g) == 0,
    ensures
        all_free(g),
    decreases g.len(),
{
    if g.len() > 0 {
        let init = g.drop_last();
        assert(forall|r: int| 0 <= r < init.len() ==> (#[trigger] init[r]).len() == init[r].len());
        lemma_row_count_bounds(g.last());
        assert forall|r: int| 0 <= r < init.len() implies
            0 <= row_occupied_count(#[trigger] init[r]) by {
            lemma_row_count_bounds(init[r]);
        }
        lemma_grid_count_nonneg(init);
        lemma_zero_count_all_free(init);
        lemma_row_count_zero(g.last());
        assert forall|r: int, c: int|
            0 <= r < g.len() && 0 <= c < g[r].len() implies !(#[trigger] g[r][c]) by {
            if r < g.len() - 1 {
                assert(init[r] == g[r]);
            } else {
                assert(g[r] == g.last());
            }
        }
    }
}

proof fn lemma_grid_count_nonneg(g: Seq<Seq<bool>>)
    ensures
        grid_occupied_count(g) >= 0,
    decreases g.len(),
{
    if g.len() > 0 {
        lemma_grid_count_nonneg(g.drop_last());
        lemma_row_count_bounds(g.last());
    }
}

/// A grid whose occupied count equals its cell count is occupied everywhere.
pub proof fn lemma_full_count_all_occupied(g: Seq<Seq<bool>>, w: int)
    requires
        forall|r: int| 0 <= r < g.len() ==> (#[trigger] g[r]).len() == w,
        grid_occupied_count(g) == g.len() * w,
    ensures
        all_occupied(g),
    decreases g.len(),
{
    if g.len() > 0 {
        let init = g.drop_last();
        assert(forall|r: int| 0 <= r < init.len() ==> (#[trigger] init[r]).len() == w);
        lemma_grid_count_bounds(init, w);
        lemma_row_count_bounds(g.last());
        assert(g.len() * w == (g.len() - 1) * w + w) by (nonlinear_arith);
        assert(row_occupied_count(g.last()) == w);
        assert(grid_occupied_count(init) == init.len() * w);
        lemma_full_count_all_occupied(init, w);
        lemma_row_count_full(g.last());
        assert forall|r: int, c: int|
            0 <= r < g.len() && 0 <= c < g[r].len() implies (#[trigger] g[r][c]) by {
            if r < g.len() - 1 {
                assert(init[r] == g[r]);
            } else {
                assert(g[r] == g.last());
            }
        }
    } else {
        assert(g.len() * w == 0) by (nonlinear_arith)
            requires
                g.len() == 0,
        ;
    }
}

/// Occupancy count of a flat run of desks.
pub open spec fn desks_occupied_count(s: Seq<Desk>) -> int
    decreases s.len(),
{
    if s.len() == 0 {
        0
    } else {
        desks_occupied_count(s.drop_last()) + (if s.last().is_occupied {
            1int
        } else {
            0int
        })
    }
}

proof fn lemma_desks_count_push(s: Seq<Desk>, d: Desk)
    ensures
        desks_occupied_count(s.push(d)) == desks_occupied_count(s) + (if d.is_occupied {
            1int
        } else {
            0int
        }),
{
    assert(s.push(d).drop_last() =~= s);
    assert(s.push(d).last() == d);
}

proof fn lemma_desks_count_update(s: Seq<Desk>, i: int, d: Desk)
    requires
        0 <= i < s.len(),
    ensures
        desks_occupied_count(s.update(i, d)) == desks_occupied_count(s) - (if s[i].is_occupied {
            1int
        } else {
            0int
        }) + (if d.is_occupied {
            1int
        } else {
            0int
        }),
    decreases s.len(),
{
    let t = s.update(i, d);
    if i == s.len() - 1 {
        assert(t.drop_last() =~= s.drop_last());
        assert(t.last() == d);
    } else {
        assert(t.drop_last() =~= s.drop_last().update(i, d));
        assert(t.last() == s.last());
        lemma_desks_count_update(s.drop_last(), i, d);
    }
}

proof fn lemma_desks_count_concat(a: Seq<Desk>, b: Seq<Desk>)
    ensures
        desks_occupied_count(a + b) == desks_occupied_count(a) + desks_occupied_count(b),
    decreases b.len(),
{
    if b.len() == 0 {
        assert(a + b =~= a);
    } else {
        assert((a + b).drop_last() =~= a + b.drop_last());
        assert((a + b).last() == b.last());
        lemma_desks_count_concat(a, b.drop_last());
    }
}

proof fn lemma_row_count_of_desks(s: Seq<Desk>)
    ensures
        row_occupied_count(s.map_values(|d: Desk| d.is_occupied)) == desks_occupied_count(s),
    decreases s.len(),
{
    let m = s.map_values(|d: Desk| d.is_occupied);
    if s.len() > 0 {
        assert(m.drop_last() =~= s.drop_last().map_values(|d: Desk| d.is_occupied));
        assert(m.last() == s.last().is_occupied);
        lemma_row_count_of_desks(s.drop_last());
    }
}

proof fn lemma_grid_count_push(rows: Seq<Vec<Desk>>, row: Vec<Desk>)
    ensures
        grid_occupied_count(office_view(rows.push(row))) == grid_occupied_count(office_view(rows))
            + desks_occupied_count(row@),
{
    let v = office_view(rows.push(row));
    assert(v.drop_last() =~= office_view(rows));
    assert(v.last() == row@.map_values(|d: Desk| d.is_occupied));
    lemma_row_count_of_desks(row@);
}

/// The exact occupancy target `floor(cells * num / den)`, computed without
/// overflow; it never exceeds the cell count.
fn occupied_target_exec(cells: usize, p: Density) -> (k: usize)
    requires
        p.wf(),
    ensures
        k == p.occupied_target(cells as int),
        k <= cells,
{
    proof {
        assert(cells as int * p.num as int <= 0xffff_ffff_ffff_ffff * 0xffff_ffff)
            by (nonlinear_arith)
            requires
                cells as int <= 0xffff_ffff_ffff_ffff,
                0 <= p.num as int <= 0xffff_ffff,
        ;
    }
    let k128: u128 = (cells as u128) * (p.num as u128) / (p.den as u128);
    proof {
        lemma_mul_inequality(p.num as int, p.den as int, cells as int);
        lemma_div_is_ordered(cells as int * p.num as int, cells as int * p.den as int, p.den as int);
        lemma_div_multiples_vanish(cells as int, p.den as int);
        assert(cells as int * p.num as int == p.num as int * cells as int) by (nonlinear_arith);
        assert(cells as int * p.den as int == p.den as int * cells as int) by (nonlinear_arith);
    }
    k128 as usize
}

impl Office {
    /// Builds a `height x width` office in which exactly
    /// `floor(width * height * num / den)` desks are occupied, their
    /// positions drawn at random: the desks are laid out in a run with the
    /// occupied ones first, the run is shuffled by random swaps, and the
    /// result is cut into rows. Every draw of the generator only picks
    /// which desks are occupied, never how many.
    pub fn new(width: usize, height: usize, p: Density, rng: &mut rand::rngs::ThreadRng) -> (office:
        Office)
        requires
            width >= 1,
            height >= 1,
            width * height <= usize::MAX,
            p.wf(),
        ensures
            office@.len() == height,
            forall|r: int| 0 <= r < height ==> (#[trigger] office@[r]).len() == width,
            grid_wf(office@),
            grid_occupied_count(office@) == p.occupied_target(width as int * height as int),
    {
        let cells: usize = width * height;
        let k: usize = occupied_target_exec(cells, p);

        let mut flat: Vec<Desk> = Vec::new();
        let mut i: usize = 0;
        while i < k
            invariant
                i <= k,
                flat@.len() == i,
                desks_occupied_count(flat@) == i,
            decreases k - i,
        {
            proof {
                lemma_desks_count_push(flat@, Desk { is_occupied: true });
            }
            flat.push(Desk { is_occupied: true });
            i = i + 1;
        }
        while i < cells
            invariant
                k <= i <= cells,
                flat@.len() == i,
                desks_occupied_count(flat@) == k,
            decreases cells - i,
        {
            proof {
                lemma_desks_count_push(flat@, Desk { is_occupied: false });
            }
            flat.push(Desk { is_occupied: false });
            i = i + 1;
        }

        let mut remaining: usize = cells;
        while remaining > 1
            invariant
                remaining <= cells,
                flat@.len() == cells,
                desks_occupied_count(flat@) == k,
            decreases remaining,
        {
            let j = crate::rng::rand_index(rng, remaining);
            let a = flat[remaining - 1];
            let b = flat[j];
            let ghost before = flat@;
            flat[remaining - 1] = b;
            flat[j] = a;
            proof {
                lemma_desks_count_update(before, remaining - 1, b);
                lemma_desks_count_update(before.update(remaining - 1, b), j as int, a);
            }
            remaining = remaining - 1;
        }

        let mut desk_rows: Vec<Vec<Desk>> = Vec::new();
        let mut r: usize = 0;
        while r < height
            invariant
                r <= height,
                flat@.len() == cells,
                cells == width * height,
                width >= 1,
                desks_occupied_count(flat@) == k,
                desk_rows@.len() == r,
                forall|t: int|
                    0 <= t < r ==> (#[trigger] office_view(desk_rows@)[t]).len() == width,
                grid_occupied_count(office_view(desk_rows@)) == desks_occupied_count(
                    flat@.subrange(0, r as int * width as int),
                ),
            decreases height - r,
        {
            proof {
                assert(r as int * width as int + width <= cells && r as int * width as int >= 0)
                    by (nonlinear_arith)
                    requires
                        r < height,
                        cells == width * height,
                        width >= 1,
                ;
            }
            let base: usize = r * width;
            let mut row: Vec<Desk> = Vec::new();
            let mut c: usize = 0;
            while c < width
                invariant
                    c <= width,
                    base == r as int * width as int,
                    base + width <= cells,
                    flat@.len() == cells,
                    row@ =~= flat@.subrange(base as int, base as int + c),
                decreases width - c,
            {
                let d = flat[base + c];
                row.push(d);
                proof {
                    assert(row@ =~= flat@.subrange(base as int, base as int + c + 1));
                }
                c = c + 1;
            }
            let ghost prev_rows = desk_rows@;
            desk_rows.push(row);
            proof {
                lemma_grid_count_push(prev_rows, row);
                lemma_desks_count_concat(
                    flat@.subrange(0, base as int),
                    flat@.subrange(base as int, base as int + width),
                );
                assert(flat@.subrange(0, base as int + width) =~= flat@.subrange(0, base as int)
                    + flat@.subrange(base as int, base as int + width));
                assert((r + 1) as int * width as int == base as int + width) by (nonlinear_arith)
                    requires
                        base == r as int * width as int,
                ;
                assert(office_view(desk_rows@) =~= office_view(prev_rows).push(
                    row@.map_values(|d: Desk| d.is_occupied),
                ));
            }
            r = r + 1;
        }
        proof {
            assert(flat@.subrange(0, height as int * width as int) =~= flat@);
            assert(height as int * width as int == cells) by (nonlinear_arith)
                requires
                    cells == width * height,
            ;
        }
        Office { desk_rows }
    }

    /// The number of rows.
    pub fn height(&self) -> (h: usize)
        ensures
            h == self@.len(),
    {
        self.desk_rows.len()
    }

    /// The common length of the rows.
    pub fn width(&self) -> (w: usize)
        requires
            self@.len() >= 1,
        ensures
            w == grid_width(self@),
    {
        self.desk_rows[0].len()
    }

    /// Bounds-checked occupancy lookup; callers must have validated the
    /// coordinates.
    pub fn desk_is_occupied(&self, row: usize, col: usize) -> (r: bool)
        requires
            row < self@.len(),
            col < self@[row as int].len(),
        ensures
            r == self@[row as int][col as int],
    {
        self.desk_rows[row][col].is_occupied
    }

    /// The textual form of the office: one line per row, each desk shown
    /// by its marker, every line closed by a line break.
    pub fn render(&self) -> (r: String)
        ensures
            r@ == rendered_office(self@),
    {
        let height = self.desk_rows.len();
        let mut out = String::new();
        let mut row: usize = 0;
        while row < height
            invariant
                row <= height,
                height == self@.len(),
                rendered_office(self@) == out@ + rendered_rows_from(self@, row as int),
            decreases height - row,
        {
            let width = self.desk_rows[row].len();
            proof {
                assert(self@[row as int].len() == self.desk_rows@[row as int]@.len());
            }
            let ghost row_base = out@;
            let mut col: usize = 0;
            while col < width
                invariant
                    col <= width,
                    row < height,
                    height == self@.len(),
                    width == self@[row as int].len(),
                    out@ == row_base + row_chars(self@, row as int).subrange(0, col as int),
                decreases width - col,
            {
                if self.desk_is_occupied(row, col) {
                    out.append("x");
                } else {
                    out.append("0");
                }
                proof {
                    reveal_strlit("x");
                    reveal_strlit("0");
                    assert(row_chars(self@, row as int).subrange(0, col + 1) =~= row_chars(
                        self@,
                        row as int,
                    ).subrange(0, col as int).push(cell_char(self@, row as int, col as int)));
                    assert(out@ =~= row_base + row_chars(self@, row as int).subrange(0, col + 1));
                }
                col = col + 1;
            }
            out.append("\n");
            proof {
                reveal_strlit("\n");
                assert(row_chars(self@, row as int).subrange(0, width as int) =~= row_chars(
                    self@,
                    row as int,
                ));
                assert(out@ =~= row_base + row_chars(self@, row as int) + seq!['\n']);
                assert(rendered_rows_from(self@, row as int) == row_chars(self@, row as int)
                    + seq!['\n'] + rendered_rows_from(self@, row as int + 1));
                assert(rendered_office(self@) =~= out@ + rendered_rows_from(self@, row as int + 1));
            }
            row = row + 1;
        }
        proof {
            assert(rendered_office(self@) =~= out@);
        }
        out
    }
}

impl Desk {
    /// The one-character marker of this desk: `x` when occupied, `0` when
    /// free.
    pub fn marker(&self) -> (c: char)
        ensures
            c == (if self.is_occupied {
                'x'
            } else {
                '0'
            }),
    {
        if self.is_occupied {
            'x'
        } else {
            '0'
        }
    }
}

/// A character that separates two rows of an office text: any character
/// with the Unicode `White_Space` property, the set that
/// `str::split_whitespace` splits on.
pub open spec fn is_row_sep(c: char) -> bool {
    ||| c == '\u{09}'
    ||| c == '\u{0A}'
    ||| c == '\u{0B}'
    ||| c == '\u{0C}'
    ||| c == '\u{0D}'
    ||| c == ' '
    ||| c == '\u{85}'
    ||| c == '\u{A0}'
    ||| c == '\u{1680}'
    ||| ('\u{2000}' <= c && c <= '\u{200A}')
    ||| c == '\u{2028}'
    ||| c == '\u{2029}'
    ||| c == '\u{202F}'
    ||| c == '\u{205F}'
    ||| c == '\u{3000}'
}

/// A well-formed office text: nothing but free desks (`0`), occupied
/// desks (`x`) and row separators.
pub open spec fn desk_text_wf(s: Seq<char>) -> bool {
    forall|i: int| 0 <= i < s.len() ==> (s[i] == '0' || s[i] == 'x' || is_row_sep(#[trigger] s[i]))
}

/// The occupancy flags of a run of desks.
pub open spec fn desk_bools(s: Seq<Desk>) -> Seq<bool> {
    s.map_values(|d: Desk| d.is_occupied)
}

/// Reads an office text one character at a time: `cur` is the row built
/// so far, desk characters extend it, and a separator closes it unless it
/// is empty, so runs of separators never yield empty rows.
pub open spec fn parse_cont(cur: Seq<bool>, s: Seq<char>) -> Seq<Seq<bool>>
    decreases s.len(),
{
    if s.len() == 0 {
        if cur.len() == 0 {
            Seq::empty()
        } else {
            seq![cur]
        }
    } else if is_row_sep(s[0]) {
        if cur.len() == 0 {
            parse_cont(Seq::empty(), s.drop_first())
        } else {
            seq![cur] + parse_cont(Seq::empty(), s.drop_first())
        }
    } else {
        parse_cont(cur.push(s[0] == 'x'), s.drop_first())
    }
}

/// The grid described by an office text: its rows in order, `x` read as
/// occupied and `0` as free.
pub open spec fn parsed_rows(s: Seq<char>) -> Seq<Seq<bool>> {
    parse_cont(Seq::empty(), s)
}

/// Builds the office that the given text describes: rows of `0` (free)
/// and `x` (occupied) separated by line breaks or other whitespace.
pub fn office_from_string(input: String) -> (office: Office)
    requires
        desk_text_wf(input@),
    ensures
        office@ == parsed_rows(input@),
{
    let s = input.as_str();
    let len = s.unicode_len();
    let mut desk_rows: Vec<Vec<Desk>> = Vec::new();
    let mut cur: Vec<Desk> = Vec::new();
    let mut i: usize = 0;
    proof {
        assert(desk_bools(cur@) =~= Seq::<bool>::empty());
        assert(input@.skip(0) =~= input@);
        assert(office_view(desk_rows@) =~= Seq::<Seq<bool>>::empty());
        assert(office_view(desk_rows@) + parse_cont(desk_bools(cur@), input@.skip(0)) =~= parse_cont(
            Seq::empty(),
            input@,
        ));
    }
    while i < len
        invariant
            i <= len,
            len == input@.len(),
            s@ == input@,
            desk_text_wf(input@),
            parsed_rows(input@) == office_view(desk_rows@) + parse_cont(
                desk_bools(cur@),
                input@.skip(i as int),
            ),
        decreases len - i,
    {
        let c = s.get_char(i);
        let ghost rest = input@.skip(i as int);
        proof {
            assert(rest[0] == input@[i as int]);
            assert(rest.drop_first() =~= input@.skip(i as int + 1));
        }
        if c == '0' || c == 'x' {
            let ghost cur_bools = desk_bools(cur@);
            cur.push(Desk { is_occupied: c == 'x' });
            proof {
                assert(desk_bools(cur@) =~= cur_bools.push(c == 'x'));
            }
        } else {
            proof {
                assert(is_row_sep(c));
            }
            if cur.len() > 0 {
                let ghost prev_rows = desk_rows@;
                let ghost cur_bools = desk_bools(cur@);
                desk_rows.push(cur);
                cur = Vec::new();
                proof {
                    assert(office_view(desk_rows@) =~= office_view(prev_rows).push(cur_bools));
                    assert(desk_bools(cur@) =~= Seq::<bool>::empty());
                    assert(office_view(prev_rows) + (seq![cur_bools] + parse_cont(
                        Seq::empty(),
                        rest.drop_first(),
                    )) =~= office_view(desk_rows@) + parse_cont(Seq::empty(), rest.drop_first()));
                }
            } else {
                proof {
                    assert(desk_bools(cur@) =~= Seq::<bool>::empty());
                }
            }
        }
        i = i + 1;
    }
    proof {
        assert(input@.skip(len as int) =~= Seq::<char>::empty());
    }
    if cur.len() > 0 {
        let ghost prev_rows = desk_rows@;
        let ghost cur_bools = desk_bools(cur@);
        desk_rows.push(cur);
        proof {
            assert(office_view(desk_rows@) =~= office_view(prev_rows).push(cur_bools));
            assert(office_view(prev_rows) + seq![cur_bools] =~= office_view(desk_rows@));
        }
    } else {
        proof {
            assert(desk_bools(cur@) =~= Seq::<bool>::empty());
            assert(office_view(desk_rows@) + Seq::<Seq<bool>>::empty() =~= office_view(
                desk_rows@,
            ));
        }
    }
    Office { desk_rows }
}

/// The marker of one cell of the grid.
pub open spec fn cell_char(g: Seq<Seq<bool>>, row: int, col: int) -> char {
    if g[row][col] {
        'x'
    } else {
        '0'
    }
}

/// The markers of one whole row.
pub open spec fn row_chars(g: Seq<Seq<bool>>, row: int) -> Seq<char> {
    Seq::new(g[row].len(), |col: int| cell_char(g, row, col))
}

/// The rows from `row` on, each closed by a line break.
pub open spec fn rendered_rows_from(g: Seq<Seq<bool>>, row: int) -> Seq<char>
    decreases g.len() - row,
{
    if row < 0 || row >= g.len() {
        Seq::empty()
    } else {
        row_chars(g, row) + seq!['\n'] + rendered_rows_from(g, row + 1)
    }
}

/// The whole textual form of a grid, top row first.
pub open spec fn rendered_office(g: Seq<Seq<bool>>) -> Seq<char> {
    rendered_rows_from(g, 0)
}

} // verus!

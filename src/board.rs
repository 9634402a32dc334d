//! The board: a row-major grid of optional tile values, the passes that
//! resolve a move on it, and the random placement of new tiles.
use vstd::prelude::*;
use crate::grid::{
    Direction,
    line_count,
    line_len,
    line_cell,
    line_id,
    line_pos,
    line_of,
    pass_line,
    pass_grid,
    collapsed_grid,
    slid_grid,
    lemma_line_cell,
    lemma_cell_on_line,
    lemma_pass_keeps_values,
    lemma_full_after_move_means_unchanged,
};
use crate::line::{
    is_full,
    is_tile_value,
    is_pow2,
    holds_tile_values,
    doubling_fits,
    collapse_values,
    merge_values,
    lemma_collapse_shape,
    lemma_merge_len,
};
use crate::random::{pick_one, shuffle};

verus! {

/// Why a board could not be made or a tile could not be placed.
#[derive(Clone, Copy, Debug, PartialEq, Eq, Structural)]
pub enum BoardError {
    /// A side is zero long, or the board has fewer than the two cells that
    /// the starting tiles need.
    InvalidDimensions,
    /// A tile was to be spawned on a board with no empty cell.
    NoEmptyCellForSpawn,
}

/// A grid of cells in row-major order (`column + row * width`), each empty or
/// holding a tile value. The dimensions are not stored: every operation that
/// needs them takes them, and requires that they match the number of cells.
pub struct Board {
    cells: Vec<Option<usize>>,
}

impl View for Board {
    type V = Seq<Option<usize>>;

    closed spec fn view(&self) -> Seq<Option<usize>> {
        self.cells@
    }
}

/// A board of `n` cells holding `vi` at `i`, `vj` at `j`, and nothing else.
pub open spec fn start_grid(n: nat, i: int, vi: usize, j: int, vj: usize) -> Seq<Option<usize>> {
    Seq::new(
        n,
        |c: int|
            if c == i {
                Some(vi)
            } else if c == j {
                Some(vj)
            } else {
                None
            },
    )
}

/// `b` is a fresh board of `height * width` cells: two distinct cells hold a
/// 2 or a 4 and the others are empty.
pub open spec fn is_fresh_board(b: Seq<Option<usize>>, height: int, width: int) -> bool {
    exists|i: int, vi: usize, j: int, vj: usize|
        0 <= i < height * width && 0 <= j < height * width && i != j && is_spawn_value(vi)
            && is_spawn_value(vj) && b == #[trigger] start_grid((height * width) as nat, i, vi, j, vj)
}

/// A value that a new tile may get.
pub open spec fn is_spawn_value(v: usize) -> bool {
    v == 2 || v == 4
}

proof fn lemma_spawn_values_are_tile_values()
    ensures
        is_tile_value(2),
        is_tile_value(4),
{
    assert(is_pow2(1));
    assert(is_pow2(2));
    assert(is_pow2(4));
}

/// A value for a new tile: 2 with probability 9/10, 4 with probability 1/10.
fn spawn_value() -> (r: usize)
    ensures
        is_spawn_value(r),
        is_tile_value(r),
{
    proof {
        lemma_spawn_values_are_tile_values();
    }
    let weights: Vec<usize> = vec![2, 2, 2, 2, 2, 2, 2, 2, 2, 4];
    let picked = pick_one(weights.as_slice());
    match picked {
        Some(v) => {
            proof {
                let k = choose|k: int| 0 <= k < weights@.len() && weights@[k] == v;
                assert(weights@[k] == 2 || weights@[k] == 4);
            }
            v
        },
        None => 2,
    }
}

/// Whether `v` is a tile value.
pub fn is_tile_value_exec(v: usize) -> (r: bool)
    ensures
        r == is_tile_value(v),
{
    if v < 2 {
        return false;
    }
    let mut x = v;
    while x > 1 && x % 2 == 0
        invariant
            x >= 1,
            is_pow2(x as nat) == is_pow2(v as nat),
        decreases x,
    {
        x = x / 2;
    }
    x == 1
}

/// `s` is `g` with the first `k` lines of direction `d` passed over and the
/// others as they were.
spec fn lines_done(
    s: Seq<Option<usize>>,
    g: Seq<Option<usize>>,
    d: Direction,
    h: int,
    w: int,
    merge: bool,
    k: int,
) -> bool {
    &&& s.len() == g.len()
    &&& forall|i: int|
        0 <= i < g.len() ==> #[trigger] s[i] == if line_id(d, h, w, i) < k {
            pass_line(merge, line_of(g, d, h, w, line_id(d, h, w, i)))[line_pos(d, h, w, i)]
        } else {
            g[i]
        }
}

impl Board {
    /// The cells, row by row.
    pub fn cells(&self) -> (r: &Vec<Option<usize>>)
        ensures
            r@ == self@,
    {
        &self.cells
    }

    /// Every occupied cell holds a tile value.
    pub open spec fn wf(&self) -> bool {
        holds_tile_values(self@)
    }

    /// A board with the given cells, if each occupied one holds a tile value.
    pub fn from_cells(cells: Vec<Option<usize>>) -> (r: Option<Board>)
        ensures
            r is Some <==> holds_tile_values(cells@),
            r matches Some(b) ==> b@ == cells@,
    {
        let mut i: usize = 0;
        while i < cells.len()
            invariant
                i <= cells@.len(),
                forall|j: int| 0 <= j < i && #[trigger] cells@[j] is Some ==> is_tile_value(cells@[j]->0),
            decreases cells@.len() - i,
        {
            if let Some(v) = cells[i] {
                if !is_tile_value_exec(v) {
                    return None;
                }
            }
            i = i + 1;
        }
        Some(Board { cells })
    }

    /// Whether every tile can be doubled within `usize`, which a move needs.
    pub fn tiles_can_double(&self) -> (r: bool)
        ensures
            r == doubling_fits(self@),
    {
        let mut i: usize = 0;
        while i < self.cells.len()
            invariant
                i <= self@.len(),
                forall|j: int| 0 <= j < i && #[trigger] self@[j] is Some ==> self@[j]->0 * 2 <= usize::MAX,
            decreases self@.len() - i,
        {
            if let Some(v) = self.cells[i] {
                if v > usize::MAX / 2 {
                    return false;
                }
            }
            i = i + 1;
        }
        true
    }

    /// A board of `height * width` cells with tile `first_value` at `first`,
    /// tile `second_value` at `second`, and every other cell empty.
    pub fn with_start_tiles(
        height: usize,
        width: usize,
        first: usize,
        first_value: usize,
        second: usize,
        second_value: usize,
    ) -> (r: Board)
        requires
            height * width <= usize::MAX,
            first < height * width,
            second < height * width,
            first != second,
            is_tile_value(first_value),
            is_tile_value(second_value),
        ensures
            r@ == start_grid(
                (height * width) as nat,
                first as int,
                first_value,
                second as int,
                second_value,
            ),
            r.wf(),
    {
        let n = height * width;
        let mut cells: Vec<Option<usize>> = Vec::new();
        let mut i: usize = 0;
        while i < n
            invariant
                i <= n,
                cells@ == start_grid(i as nat, first as int, first_value, second as int, second_value),
            decreases n - i,
        {
            if i == first {
                cells.push(Some(first_value));
            } else if i == second {
                cells.push(Some(second_value));
            } else {
                cells.push(None);
            }
            proof {
                assert(cells@ =~= start_grid(
                    (i + 1) as nat,
                    first as int,
                    first_value,
                    second as int,
                    second_value,
                ));
            }
            i = i + 1;
        }
        Board { cells }
    }

    /// A new board of `height` rows and `width` columns, empty but for two
    /// distinct cells, picked uniformly at random, that each get a 2 (nine
    /// times in ten) or a 4.
    pub fn new(height: usize, width: usize) -> (r: Result<Board, BoardError>)
        requires
            height * width <= usize::MAX,
        ensures
            r is Err <==> (height < 1 || width < 1 || height * width < 2),
            r matches Err(e) ==> e == BoardError::InvalidDimensions,
            r matches Ok(b) ==> b.wf() && is_fresh_board(b@, height as int, width as int),
    {
        if height < 1 || width < 1 || height * width < 2 {
            return Err(BoardError::InvalidDimensions);
        }
        let n = height * width;
        let mut ids: Vec<usize> = Vec::new();
        let mut i: usize = 0;
        while i < n
            invariant
                i <= n,
                ids@ == Seq::new(i as nat, |c: int| c as usize),
            decreases n - i,
        {
            ids.push(i);
            proof {
                assert(ids@ =~= Seq::new((i + 1) as nat, |c: int| c as usize));
            }
            i = i + 1;
        }
        let ghost before = ids@;
        proof {
            assert(before.no_duplicates());
            before.lemma_multiset_has_no_duplicates();
        }
        shuffle(&mut ids);
        proof {
            before.to_multiset_ensures();
            ids@.to_multiset_ensures();
            assert forall|x: usize| ids@.to_multiset().contains(x) implies ids@.to_multiset().count(x)
                == 1 by {
                assert(before.to_multiset().contains(x));
            }
            ids@.lemma_multiset_has_no_duplicates_conv();
            assert(ids@.len() == n);
            assert(ids@.contains(ids@[0]));
            assert(ids@.contains(ids@[1]));
            assert(before.to_multiset().count(ids@[0]) > 0);
            assert(before.to_multiset().count(ids@[1]) > 0);
            assert(before.contains(ids@[0]));
            assert(before.contains(ids@[1]));
            assert(ids@[0] < n);
            assert(ids@[1] < n);
            assert(ids@[0] != ids@[1]);
        }
        let first = ids[0];
        let second = ids[1];
        let first_value = spawn_value();
        let second_value = spawn_value();
        let b = Board::with_start_tiles(height, width, first, first_value, second, second_value);
        proof {
            assert(b@ == start_grid(n as nat, first as int, first_value, second as int, second_value));
        }
        Ok(b)
    }

    /// The index of the `p`-th cell of line `k` in direction `d`.
    fn cell_of(d: Direction, height: usize, width: usize, k: usize, p: usize) -> (r: usize)
        requires
            !(d is Other),
            height * width <= usize::MAX,
            k < line_count(d, height as int, width as int),
            p < line_len(d, height as int, width as int),
        ensures
            r == line_cell(d, height as int, width as int, k as int, p as int),
    {
        proof {
            lemma_line_cell(d, height as int, width as int, k as int, p as int);
        }
        match d {
            Direction::Left => p + k * width,
            Direction::Right => (width - 1 - p) + k * width,
            Direction::Up => k + p * width,
            Direction::Down => k + (height - 1 - p) * width,
            Direction::Other => 0,
        }
    }

    /// The values of line `k` in direction `d`, anchor first.
    fn read_line(&self, d: Direction, height: usize, width: usize, k: usize) -> (r: Vec<
        Option<usize>,
    >)
        requires
            !(d is Other),
            self@.len() == height * width,
            k < line_count(d, height as int, width as int),
        ensures
            r@ == line_of(self@, d, height as int, width as int, k as int),
    {
        let n = self.cells.len();
        let len = match d {
            Direction::Left | Direction::Right => width,
            _ => height,
        };
        let mut r: Vec<Option<usize>> = Vec::new();
        let mut p: usize = 0;
        while p < len
            invariant
                !(d is Other),
                self@.len() == height * width,
                n == height * width,
                k < line_count(d, height as int, width as int),
                len == line_len(d, height as int, width as int),
                p <= len,
                r@.len() == p,
                forall|q: int| 0 <= q < p ==> #[trigger] r@[q] == self@[line_cell(d, height as int, width as int, k as int, q)],
            decreases len - p,
        {
            let c = Board::cell_of(d, height, width, k, p);
            proof {
                lemma_line_cell(d, height as int, width as int, k as int, p as int);
            }
            r.push(self.cells[c]);
            p = p + 1;
        }
        proof {
            assert(r@ =~= line_of(self@, d, height as int, width as int, k as int));
        }
        r
    }

    /// Writes `vals` over line `k` in direction `d`, anchor first.
    fn write_line(&mut self, d: Direction, height: usize, width: usize, k: usize, vals: &Vec<Option<usize>>)
        requires
            !(d is Other),
            old(self)@.len() == height * width,
            k < line_count(d, height as int, width as int),
            vals@.len() == line_len(d, height as int, width as int),
        ensures
            final(self)@.len() == old(self)@.len(),
            forall|i: int|
                0 <= i < old(self)@.len() ==> #[trigger] final(self)@[i] == if line_id(
                    d,
                    height as int,
                    width as int,
                    i,
                ) == k {
                    vals@[line_pos(d, height as int, width as int, i)]
                } else {
                    old(self)@[i]
                },
    {
        let ghost g = self@;
        let ghost h = height as int;
        let ghost w = width as int;
        let n = self.cells.len();
        let len = vals.len();
        let mut p: usize = 0;
        proof {
            assert forall|i: int| 0 <= i < g.len() implies #[trigger] self@[i] == if line_id(d, h, w, i)
                == k && line_pos(d, h, w, i) < 0 {
                vals@[line_pos(d, h, w, i)]
            } else {
                g[i]
            } by {
                lemma_cell_on_line(d, h, w, i);
            }
        }
        while p < len
            invariant
                !(d is Other),
                g.len() == height * width,
                n == height * width,
                k < line_count(d, h, w),
                h == height,
                w == width,
                len == vals@.len(),
                len == line_len(d, h, w),
                p <= len,
                self@.len() == g.len(),
                forall|i: int|
                    0 <= i < g.len() ==> #[trigger] self@[i] == if line_id(d, h, w, i) == k && line_pos(
                        d,
                        h,
                        w,
                        i,
                    ) < p {
                        vals@[line_pos(d, h, w, i)]
                    } else {
                        g[i]
                    },
            decreases len - p,
        {
            let c = Board::cell_of(d, height, width, k, p);
            proof {
                lemma_line_cell(d, h, w, k as int, p as int);
            }
            self.cells.set(c, vals[p]);
            proof {
                assert forall|i: int| 0 <= i < g.len() implies #[trigger] self@[i] == if line_id(
                    d,
                    h,
                    w,
                    i,
                ) == k && line_pos(d, h, w, i) < p + 1 {
                    vals@[line_pos(d, h, w, i)]
                } else {
                    g[i]
                } by {
                    lemma_cell_on_line(d, h, w, i);
                }
            }
            p = p + 1;
        }
        proof {
            assert forall|i: int| 0 <= i < g.len() implies #[trigger] self@[i] == if line_id(d, h, w, i)
                == k {
                vals@[line_pos(d, h, w, i)]
            } else {
                g[i]
            } by {
                lemma_cell_on_line(d, h, w, i);
            }
        }
    }

    /// One pass (a merge pass if `merge`, else a collapse) on every line of direction `d`.
    fn pass_all(&mut self, d: Direction, height: usize, width: usize, merge: bool)
        requires
            !(d is Other),
            old(self)@.len() == height * width,
            merge ==> doubling_fits(old(self)@),
        ensures
            final(self)@ == pass_grid(old(self)@, d, height as int, width as int, merge),
    {
        let ghost g = self@;
        let ghost h = height as int;
        let ghost w = width as int;
        let count = match d {
            Direction::Left | Direction::Right => height,
            _ => width,
        };
        let mut k: usize = 0;
        while k < count
            invariant
                !(d is Other),
                g.len() == height * width,
                h == height,
                w == width,
                count == line_count(d, h, w),
                merge ==> doubling_fits(g),
                k <= count,
                lines_done(self@, g, d, h, w, merge, k as int),
            decreases count - k,
        {
            let line = self.read_line(d, height, width, k);
            proof {
                assert forall|p: int| 0 <= p < line_len(d, h, w) implies #[trigger] line@[p] == line_of(
                    g,
                    d,
                    h,
                    w,
                    k as int,
                )[p] by {
                    lemma_line_cell(d, h, w, k as int, p);
                }
                assert(line@ =~= line_of(g, d, h, w, k as int));
                if merge {
                    assert forall|p: int| 0 <= p < line@.len() && #[trigger] line@[p] is Some implies line@[p]->0
                        * 2 <= usize::MAX by {
                        lemma_line_cell(d, h, w, k as int, p);
                    }
                }
                lemma_collapse_shape(line@);
                lemma_merge_len(line@);
            }
            let updated = if merge {
                merge_values(&line)
            } else {
                collapse_values(&line)
            };
            self.write_line(d, height, width, k, &updated);
            proof {
                assert forall|i: int| 0 <= i < g.len() implies #[trigger] self@[i] == if line_id(
                    d,
                    h,
                    w,
                    i,
                ) < k + 1 {
                    pass_line(merge, line_of(g, d, h, w, line_id(d, h, w, i)))[line_pos(d, h, w, i)]
                } else {
                    g[i]
                } by {}
            }
            k = k + 1;
        }
        proof {
            assert forall|i: int| 0 <= i < g.len() implies self@[i] == pass_grid(
                g,
                d,
                h,
                w,
                merge,
            )[i] by {
                lemma_cell_on_line(d, h, w, i);
            }
            assert(self@ =~= pass_grid(g, d, h, w, merge));
        }
    }

    /// Every line of direction `d` collapsed toward its anchor edge.
    fn collapse_toward(&mut self, d: Direction, height: usize, width: usize)
        requires
            !(d is Other),
            old(self)@.len() == height * width,
        ensures
            final(self)@ == collapsed_grid(old(self)@, d, height as int, width as int),
            old(self).wf() ==> final(self).wf(),
            doubling_fits(old(self)@) ==> doubling_fits(final(self)@),
    {
        proof {
            lemma_pass_keeps_values(self@, d, height as int, width as int, false);
        }
        self.pass_all(d, height, width, false);
    }

    /// Slides every row's tiles to its low-column end, closing the gaps.
    pub fn collapse_left(&mut self, height: usize, width: usize)
        requires
            old(self)@.len() == height * width,
        ensures
            final(self)@ == collapsed_grid(old(self)@, Direction::Left, height as int, width as int),
            old(self).wf() ==> final(self).wf(),
    {
        self.collapse_toward(Direction::Left, height, width);
    }

    /// Slides every row's tiles to its high-column end, closing the gaps.
    pub fn collapse_right(&mut self, height: usize, width: usize)
        requires
            old(self)@.len() == height * width,
        ensures
            final(self)@ == collapsed_grid(old(self)@, Direction::Right, height as int, width as int),
            old(self).wf() ==> final(self).wf(),
    {
        self.collapse_toward(Direction::Right, height, width);
    }

    /// Slides every column's tiles to its low-row end, closing the gaps.
    pub fn collapse_up(&mut self, height: usize, width: usize)
        requires
            old(self)@.len() == height * width,
        ensures
            final(self)@ == collapsed_grid(old(self)@, Direction::Up, height as int, width as int),
            old(self).wf() ==> final(self).wf(),
    {
        self.collapse_toward(Direction::Up, height, width);
    }

    /// Slides every column's tiles to its high-row end, closing the gaps.
    pub fn collapse_down(&mut self, height: usize, width: usize)
        requires
            old(self)@.len() == height * width,
        ensures
            final(self)@ == collapsed_grid(old(self)@, Direction::Down, height as int, width as int),
            old(self).wf() ==> final(self).wf(),
    {
        self.collapse_toward(Direction::Down, height, width);
    }

    /// A copy of the cells.
    fn snapshot(&self) -> (r: Vec<Option<usize>>)
        ensures
            r@ == self@,
    {
        let mut r: Vec<Option<usize>> = Vec::new();
        let mut i: usize = 0;
        while i < self.cells.len()
            invariant
                i <= self@.len(),
                r@ == self@.take(i as int),
            decreases self@.len() - i,
        {
            r.push(self.cells[i]);
            proof {
                assert(r@ =~= self@.take(i + 1));
            }
            i = i + 1;
        }
        proof {
            assert(self@.take(i as int) =~= self@);
        }
        r
    }

    /// Whether the cells are the same as `other`.
    fn same_cells(&self, other: &Vec<Option<usize>>) -> (r: bool)
        ensures
            r == (self@ == other@),
    {
        if self.cells.len() != other.len() {
            return false;
        }
        let mut i: usize = 0;
        while i < other.len()
            invariant
                i <= other@.len(),
                self@.len() == other@.len(),
                forall|j: int| 0 <= j < i ==> self@[j] == other@[j],
            decreases other@.len() - i,
        {
            if self.cells[i] != other[i] {
                return false;
            }
            i = i + 1;
        }
        proof {
            assert(self@ =~= other@);
        }
        true
    }

    /// Resolves a move in `direction` without spawning: collapse every line,
    /// merge every line once, collapse every line again. Returns whether the
    /// board changed.
    pub fn slide(&mut self, direction: Direction, height: usize, width: usize) -> (changed: bool)
        requires
            old(self)@.len() == height * width,
            doubling_fits(old(self)@),
        ensures
            final(self)@ == slid_grid(old(self)@, direction, height as int, width as int),
            changed == (final(self)@ != old(self)@),
            old(self).wf() ==> final(self).wf(),
    {
        if direction == Direction::Other {
            return false;
        }
        let before = self.snapshot();
        self.collapse_toward(direction, height, width);
        proof {
            lemma_pass_keeps_values(self@, direction, height as int, width as int, true);
        }
        self.pass_all(direction, height, width, true);
        self.collapse_toward(direction, height, width);
        !self.same_cells(&before)
    }

    /// The indices of the empty cells, in increasing order.
    fn empty_indices(&self) -> (r: Vec<usize>)
        ensures
            forall|k: int| 0 <= k < r@.len() ==> r@[k] < self@.len() && self@[r@[k] as int] is None,
            forall|x: int| 0 <= x < self@.len() && self@[x] is None ==> r@.contains(x as usize),
    {
        let mut r: Vec<usize> = Vec::new();
        let mut i: usize = 0;
        while i < self.cells.len()
            invariant
                i <= self@.len(),
                forall|k: int| 0 <= k < r@.len() ==> r@[k] < i && self@[r@[k] as int] is None,
                forall|x: int| 0 <= x < i && self@[x] is None ==> r@.contains(x as usize),
            decreases self@.len() - i,
        {
            if self.cells[i].is_none() {
                let ghost prev = r@;
                r.push(i);
                proof {
                    assert forall|x: int| 0 <= x < i + 1 && self@[x] is None implies r@.contains(
                        x as usize,
                    ) by {
                        if x < i {
                            let k = choose|k: int| 0 <= k < prev.len() && prev[k] == x as usize;
                            assert(r@[k] == x as usize);
                        } else {
                            assert(r@[prev.len() as int] == x as usize);
                        }
                    }
                }
            }
            i = i + 1;
        }
        r
    }

    /// Puts a new tile (2 nine times in ten, else 4) in an empty cell picked
    /// uniformly at random; fails, changing nothing, if no cell is empty.
    pub fn spawn_tile(&mut self) -> (r: Result<(), BoardError>)
        ensures
            r is Err <==> is_full(old(self)@),
            r matches Err(e) ==> e == BoardError::NoEmptyCellForSpawn && final(self)@ == old(self)@,
            r is Ok ==> exists|i: int|
                0 <= i < old(self)@.len() && old(self)@[i] is None && (#[trigger] final(self)@[i] matches Some(
                    v,
                ) && is_spawn_value(v)) && final(self)@ == old(self)@.update(i, final(self)@[i]),
            old(self).wf() ==> final(self).wf(),
    {
        let empties = self.empty_indices();
        let picked = pick_one(empties.as_slice());
        match picked {
            None => {
                proof {
                    assert forall|x: int| 0 <= x < self@.len() implies #[trigger] self@[x] is Some by {
                        if self@[x] is None {
                            assert(empties@.contains(x as usize));
                        }
                    }
                }
                Err(BoardError::NoEmptyCellForSpawn)
            },
            Some(i) => {
                proof {
                    let k = choose|k: int| 0 <= k < empties@.len() && empties@[k] == i;
                    assert(!is_full(self@)) by {
                        assert(self@[i as int] is None);
                    }
                }
                let v = spawn_value();
                self.cells.set(i, Some(v));
                proof {
                    assert(self@[i as int] == Some(v));
                }
                Ok(())
            },
        }
    }

    /// Resolves a move in `direction` (collapse, merge, collapse on every
    /// line), then, if the board changed, spawns one tile in a cell left
    /// empty by the move.
    pub fn move_tile_content(&mut self, direction: Direction, height: usize, width: usize)
        requires
            old(self)@.len() == height * width,
            doubling_fits(old(self)@),
        ensures
            slid_grid(old(self)@, direction, height as int, width as int) == old(self)@
                ==> final(self)@ == old(self)@,
            slid_grid(old(self)@, direction, height as int, width as int) != old(self)@
                ==> exists|i: int|
                0 <= i < old(self)@.len() && slid_grid(
                    old(self)@,
                    direction,
                    height as int,
                    width as int,
                )[i] is None && (#[trigger] final(self)@[i] matches Some(v) && is_spawn_value(v))
                    && final(self)@ == slid_grid(
                    old(self)@,
                    direction,
                    height as int,
                    width as int,
                ).update(i, final(self)@[i]),
            old(self).wf() ==> final(self).wf(),
    {
        let ghost g = self@;
        let changed = self.slide(direction, height, width);
        if changed {
            proof {
                if is_full(self@) {
                    lemma_full_after_move_means_unchanged(g, direction, height as int, width as int);
                }
            }
            let r = self.spawn_tile();
            proof {
                assert(r is Ok);
            }
        }
    }

}

} // verus!

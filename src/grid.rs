//! Geometry of the board: flattened indices, the four move directions, and
//! which cells make up each line that a move resolves.
use vstd::prelude::*;
use vstd::arithmetic::div_mod::{
    lemma_fundamental_div_mod,
    lemma_fundamental_div_mod_converse,
    lemma_mod_bound,
    lemma_multiply_divide_lt,
    lemma_div_pos_is_pos,
};
use vstd::arithmetic::mul::lemma_mul_inequality;
use crate::line::{
    collapse_line,
    merge_line,
    slide_line,
    present,
    is_full,
    is_packed,
    holds_tile_values,
    doubling_fits,
    lemma_collapse_shape,
    lemma_collapse_keeps_values,
    lemma_collapse_packed,
    lemma_merge_keeps_values,
    lemma_merge_len,
    lemma_slide_full,
};

verus! {

/// A move direction, named by the edge that tiles slide toward. `Other`
/// stands for any input that is not a move; it changes nothing.
#[derive(Clone, Copy, Debug, PartialEq, Eq, Structural)]
pub enum Direction {
    Left,
    Right,
    Up,
    Down,
    Other,
}

/// The flattened index of the cell in row `i` and column `j` of a grid `width` cells wide.
pub open spec fn cell_index(i: int, j: int, width: int) -> int {
    j + i * width
}

/// Flattened index of the cell at row `i`, column `j`.
pub fn pair_to_index(i: usize, j: usize, width: usize) -> (r: usize)
    requires
        j + i * width <= usize::MAX,
    ensures
        r == cell_index(i as int, j as int, width as int),
{
    j + i * width
}

/// How many lines a move in `d` resolves: the rows for a horizontal move, the
/// columns for a vertical one.
pub open spec fn line_count(d: Direction, h: int, w: int) -> int {
    match d {
        Direction::Left | Direction::Right => h,
        Direction::Up | Direction::Down => w,
        Direction::Other => 0,
    }
}

/// How many cells each of those lines has.
pub open spec fn line_len(d: Direction, h: int, w: int) -> int {
    match d {
        Direction::Left | Direction::Right => w,
        Direction::Up | Direction::Down => h,
        Direction::Other => 0,
    }
}

/// The flattened index of the `p`-th cell of line `k`, counted from the edge
/// that `d` pushes toward.
pub open spec fn line_cell(d: Direction, h: int, w: int, k: int, p: int) -> int {
    match d {
        Direction::Left => cell_index(k, p, w),
        Direction::Right => cell_index(k, w - 1 - p, w),
        Direction::Up => cell_index(p, k, w),
        Direction::Down => cell_index(h - 1 - p, k, w),
        Direction::Other => 0,
    }
}

/// The line of direction `d` that holds cell `i`.
pub open spec fn line_id(d: Direction, h: int, w: int, i: int) -> int {
    match d {
        Direction::Left | Direction::Right => i / w,
        Direction::Up | Direction::Down => i % w,
        Direction::Other => 0,
    }
}

/// The position of cell `i` within its line, counted from the anchor edge.
pub open spec fn line_pos(d: Direction, h: int, w: int, i: int) -> int {
    match d {
        Direction::Left => i % w,
        Direction::Right => w - 1 - i % w,
        Direction::Up => i / w,
        Direction::Down => h - 1 - i / w,
        Direction::Other => 0,
    }
}

/// The values of line `k` of `g`, anchor first.
pub open spec fn line_of(g: Seq<Option<usize>>, d: Direction, h: int, w: int, k: int) -> Seq<
    Option<usize>,
> {
    Seq::new(line_len(d, h, w) as nat, |p: int| g[line_cell(d, h, w, k, p)])
}

/// One pass on a line: a merge pass if `merge`, else a collapse.
pub open spec fn pass_line(merge: bool, s: Seq<Option<usize>>) -> Seq<Option<usize>> {
    if merge {
        merge_line(s)
    } else {
        collapse_line(s)
    }
}

/// The grid after one pass on every line of direction `d`; `Other` leaves it as it is.
pub open spec fn pass_grid(g: Seq<Option<usize>>, d: Direction, h: int, w: int, merge: bool) -> Seq<
    Option<usize>,
> {
    if d is Other {
        g
    } else {
        Seq::new(
            g.len(),
            |i: int| pass_line(merge, line_of(g, d, h, w, line_id(d, h, w, i)))[line_pos(d, h, w, i)],
        )
    }
}

/// The grid with every line of direction `d` collapsed toward its anchor.
pub open spec fn collapsed_grid(g: Seq<Option<usize>>, d: Direction, h: int, w: int) -> Seq<
    Option<usize>,
> {
    pass_grid(g, d, h, w, false)
}

/// The grid after one merge pass on every line of direction `d`.
pub open spec fn merged_grid(g: Seq<Option<usize>>, d: Direction, h: int, w: int) -> Seq<
    Option<usize>,
> {
    pass_grid(g, d, h, w, true)
}

/// The grid after a move in `d`, before any tile is spawned: collapse every
/// line, merge every line, collapse every line again.
pub open spec fn slid_grid(g: Seq<Option<usize>>, d: Direction, h: int, w: int) -> Seq<
    Option<usize>,
> {
    collapsed_grid(merged_grid(collapsed_grid(g, d, h, w), d, h, w), d, h, w)
}

proof fn lemma_join(q: int, r: int, w: int, h: int)
    requires
        0 <= q < h,
        0 <= r < w,
    ensures
        0 <= r + q * w < h * w,
        (r + q * w) / w == q,
        (r + q * w) % w == r,
{
    lemma_mul_inequality(q + 1, h, w);
    assert((q + 1) * w == q * w + w) by (nonlinear_arith);
    assert(q * w >= 0) by (nonlinear_arith)
        requires
            q >= 0,
            w > 0,
    ;
    lemma_fundamental_div_mod_converse(r + q * w, w, q, r);
}

proof fn lemma_split(i: int, w: int, h: int)
    requires
        0 <= i < h * w,
        h >= 0,
        w >= 0,
    ensures
        w > 0,
        0 <= i / w < h,
        0 <= i % w < w,
        i == i % w + (i / w) * w,
{
    if w == 0 {
        assert(h * w == 0) by (nonlinear_arith)
            requires
                w == 0,
        ;
    }
    lemma_fundamental_div_mod(i, w);
    lemma_mod_bound(i, w);
    lemma_div_pos_is_pos(i, w);
    assert(i < w * h) by (nonlinear_arith)
        requires
            i < h * w,
    ;
    lemma_multiply_divide_lt(i, w, h);
    assert(w * (i / w) == (i / w) * w) by (nonlinear_arith);
}

/// The `p`-th cell of line `k` lies on the grid, and maps back to line `k`, position `p`.
pub proof fn lemma_line_cell(d: Direction, h: int, w: int, k: int, p: int)
    requires
        !(d is Other),
        0 <= k < line_count(d, h, w),
        0 <= p < line_len(d, h, w),
    ensures
        0 <= line_cell(d, h, w, k, p) < h * w,
        line_id(d, h, w, line_cell(d, h, w, k, p)) == k,
        line_pos(d, h, w, line_cell(d, h, w, k, p)) == p,
{
    match d {
        Direction::Left => lemma_join(k, p, w, h),
        Direction::Right => lemma_join(k, w - 1 - p, w, h),
        Direction::Up => lemma_join(p, k, w, h),
        Direction::Down => lemma_join(h - 1 - p, k, w, h),
        Direction::Other => {},
    }
}

/// Every cell of the grid is the `line_pos`-th cell of line `line_id`.
pub proof fn lemma_cell_on_line(d: Direction, h: int, w: int, i: int)
    requires
        !(d is Other),
        h >= 0,
        w >= 0,
        0 <= i < h * w,
    ensures
        0 <= line_id(d, h, w, i) < line_count(d, h, w),
        0 <= line_pos(d, h, w, i) < line_len(d, h, w),
        line_cell(d, h, w, line_id(d, h, w, i), line_pos(d, h, w, i)) == i,
{
    lemma_split(i, w, h);
}

/// Line `k` of a grid after a pass is that pass applied to line `k`.
pub proof fn lemma_line_of_pass(g: Seq<Option<usize>>, d: Direction, h: int, w: int, merge: bool, k: int)
    requires
        !(d is Other),
        h >= 0,
        w >= 0,
        g.len() == h * w,
        0 <= k < line_count(d, h, w),
        pass_line(merge, line_of(g, d, h, w, k)).len() == line_len(d, h, w),
    ensures
        line_of(pass_grid(g, d, h, w, merge), d, h, w, k) == pass_line(merge, line_of(g, d, h, w, k)),
{
    let after = pass_grid(g, d, h, w, merge);
    assert forall|p: int| 0 <= p < line_len(d, h, w) implies #[trigger] line_of(after, d, h, w, k)[p]
        == pass_line(merge, line_of(g, d, h, w, k))[p] by {
        lemma_line_cell(d, h, w, k, p);
    }
    assert(line_of(after, d, h, w, k) =~= pass_line(merge, line_of(g, d, h, w, k)));
}

/// Two grids whose lines of one direction all agree are equal.
pub proof fn lemma_lines_determine_grid(
    a: Seq<Option<usize>>,
    b: Seq<Option<usize>>,
    d: Direction,
    h: int,
    w: int,
)
    requires
        !(d is Other),
        h >= 0,
        w >= 0,
        a.len() == h * w,
        b.len() == h * w,
        forall|k: int| 0 <= k < line_count(d, h, w) ==> #[trigger] line_of(a, d, h, w, k) == line_of(b, d, h, w, k),
    ensures
        a == b,
{
    assert forall|i: int| 0 <= i < a.len() implies a[i] == b[i] by {
        lemma_cell_on_line(d, h, w, i);
        let k = line_id(d, h, w, i);
        let p = line_pos(d, h, w, i);
        assert(line_of(a, d, h, w, k)[p] == line_of(b, d, h, w, k)[p]);
    }
    assert(a =~= b);
}

/// A line of `g` inherits what holds of every occupied cell of `g`.
proof fn lemma_line_values(g: Seq<Option<usize>>, d: Direction, h: int, w: int, k: int)
    requires
        !(d is Other),
        h >= 0,
        w >= 0,
        g.len() == h * w,
        0 <= k < line_count(d, h, w),
    ensures
        holds_tile_values(g) ==> holds_tile_values(line_of(g, d, h, w, k)),
        doubling_fits(g) ==> doubling_fits(line_of(g, d, h, w, k)),
        is_full(g) ==> is_full(line_of(g, d, h, w, k)),
{
    let l = line_of(g, d, h, w, k);
    assert forall|q: int| 0 <= q < l.len() implies #[trigger] l[q] == g[line_cell(d, h, w, k, q)]
        && 0 <= line_cell(d, h, w, k, q) < g.len() by {
        lemma_line_cell(d, h, w, k, q);
    }
}

/// The lengths of the lines after each pass.
proof fn lemma_pass_line_len(merge: bool, s: Seq<Option<usize>>)
    ensures
        pass_line(merge, s).len() == s.len(),
{
    lemma_collapse_shape(s);
    lemma_merge_len(s);
}

/// A pass keeps every occupied cell a tile value; a collapse also keeps every
/// tile small enough to double.
pub proof fn lemma_pass_keeps_values(g: Seq<Option<usize>>, d: Direction, h: int, w: int, merge: bool)
    requires
        h >= 0,
        w >= 0,
        g.len() == h * w,
        merge ==> doubling_fits(g),
    ensures
        pass_grid(g, d, h, w, merge).len() == g.len(),
        holds_tile_values(g) ==> holds_tile_values(pass_grid(g, d, h, w, merge)),
        !merge && doubling_fits(g) ==> doubling_fits(pass_grid(g, d, h, w, merge)),
{
    if !(d is Other) {
        let r = pass_grid(g, d, h, w, merge);
        assert forall|i: int| 0 <= i < r.len() && #[trigger] r[i] is Some implies (holds_tile_values(g)
            ==> is_tile_value_of(r[i])) && (!merge && doubling_fits(g) ==> r[i]->0 * 2
            <= usize::MAX) by {
            lemma_cell_on_line(d, h, w, i);
            let k = line_id(d, h, w, i);
            let l = line_of(g, d, h, w, k);
            lemma_line_values(g, d, h, w, k);
            lemma_collapse_keeps_values(l);
            lemma_collapse_shape(l);
            lemma_merge_len(l);
            if merge && holds_tile_values(g) {
                lemma_merge_keeps_values(l);
            }
        }
    }
}

spec fn is_tile_value_of(c: Option<usize>) -> bool {
    crate::line::is_tile_value(c->0)
}

/// Line `k` of the grid after a move is the move applied to line `k`.
pub proof fn lemma_line_of_slid(g: Seq<Option<usize>>, d: Direction, h: int, w: int, k: int)
    requires
        !(d is Other),
        h >= 0,
        w >= 0,
        g.len() == h * w,
        0 <= k < line_count(d, h, w),
    ensures
        line_of(slid_grid(g, d, h, w), d, h, w, k) == slide_line(line_of(g, d, h, w, k)),
{
    let c1 = collapsed_grid(g, d, h, w);
    let m = merged_grid(c1, d, h, w);
    lemma_pass_line_len(false, line_of(g, d, h, w, k));
    lemma_line_of_pass(g, d, h, w, false, k);
    lemma_pass_line_len(true, line_of(c1, d, h, w, k));
    lemma_line_of_pass(c1, d, h, w, true, k);
    lemma_pass_line_len(false, line_of(m, d, h, w, k));
    lemma_line_of_pass(m, d, h, w, false, k);
}

/// A move after which no cell is empty changed nothing; so after a move that
/// changed the board, some cell is empty.
pub proof fn lemma_full_after_move_means_unchanged(g: Seq<Option<usize>>, d: Direction, h: int, w: int)
    requires
        h >= 0,
        w >= 0,
        g.len() == h * w,
        is_full(slid_grid(g, d, h, w)),
    ensures
        slid_grid(g, d, h, w) == g,
{
    if !(d is Other) {
        let s = slid_grid(g, d, h, w);
        assert forall|k: int| 0 <= k < line_count(d, h, w) implies #[trigger] line_of(s, d, h, w, k)
            == line_of(g, d, h, w, k) by {
            lemma_line_of_slid(g, d, h, w, k);
            lemma_line_values(s, d, h, w, k);
            lemma_slide_full(line_of(g, d, h, w, k));
        }
        lemma_lines_determine_grid(s, g, d, h, w);
    }
}

/// Collapsing keeps, in every line of the direction, the occupied cells'
/// values and their order, and moves them up against the anchor edge with
/// no gap before or between them.
pub proof fn lemma_collapse_keeps_tiles(g: Seq<Option<usize>>, d: Direction, h: int, w: int)
    requires
        h >= 0,
        w >= 0,
        g.len() == h * w,
    ensures
        collapsed_grid(g, d, h, w).len() == g.len(),
        forall|k: int|
            0 <= k < line_count(d, h, w) ==> present(
                #[trigger] line_of(collapsed_grid(g, d, h, w), d, h, w, k),
            ) == present(line_of(g, d, h, w, k)) && is_packed(
                line_of(collapsed_grid(g, d, h, w), d, h, w, k),
            ),
{
    assert forall|k: int| 0 <= k < line_count(d, h, w) implies present(
        #[trigger] line_of(collapsed_grid(g, d, h, w), d, h, w, k),
    ) == present(line_of(g, d, h, w, k)) && is_packed(
        line_of(collapsed_grid(g, d, h, w), d, h, w, k),
    ) by {
        let l = line_of(g, d, h, w, k);
        lemma_pass_line_len(false, l);
        lemma_line_of_pass(g, d, h, w, false, k);
        lemma_collapse_shape(l);
    }
}

/// Collapsing a board that was just collapsed in the same direction changes nothing.
pub proof fn lemma_collapse_idempotent(g: Seq<Option<usize>>, d: Direction, h: int, w: int)
    requires
        h >= 0,
        w >= 0,
        g.len() == h * w,
    ensures
        collapsed_grid(collapsed_grid(g, d, h, w), d, h, w) == collapsed_grid(g, d, h, w),
{
    if !(d is Other) {
        let c = collapsed_grid(g, d, h, w);
        let cc = collapsed_grid(c, d, h, w);
        assert forall|k: int| 0 <= k < line_count(d, h, w) implies #[trigger] line_of(cc, d, h, w, k)
            == line_of(c, d, h, w, k) by {
            let l = line_of(g, d, h, w, k);
            lemma_pass_line_len(false, l);
            lemma_line_of_pass(g, d, h, w, false, k);
            lemma_collapse_shape(l);
            lemma_pass_line_len(false, line_of(c, d, h, w, k));
            lemma_line_of_pass(c, d, h, w, false, k);
            lemma_collapse_packed(line_of(c, d, h, w, k));
        }
        lemma_lines_determine_grid(cc, c, d, h, w);
    }
}

/// A move keeps every occupied cell a tile value: a power of two no smaller than 2.
pub proof fn lemma_move_keeps_tile_values(g: Seq<Option<usize>>, d: Direction, h: int, w: int)
    requires
        h >= 0,
        w >= 0,
        g.len() == h * w,
        holds_tile_values(g),
        doubling_fits(g),
    ensures
        holds_tile_values(slid_grid(g, d, h, w)),
{
    let c1 = collapsed_grid(g, d, h, w);
    lemma_pass_keeps_values(g, d, h, w, false);
    let m = merged_grid(c1, d, h, w);
    lemma_pass_keeps_values(c1, d, h, w, true);
    lemma_pass_keeps_values(m, d, h, w, false);
}

} // verus!

//! One line of the board (a row or a column read from the edge that a move
//! pushes toward): the collapse and merge passes, as spec functions and as
//! executable code proved against them.
use vstd::prelude::*;

verus! {

/// `v` is a power of two (1, 2, 4, ...).
pub open spec fn is_pow2(v: nat) -> bool
    decreases v,
{
    if v <= 1 {
        v == 1
    } else {
        v % 2 == 0 && is_pow2(v / 2)
    }
}

/// A value that a tile may hold: a power of two no smaller than 2.
pub open spec fn is_tile_value(v: usize) -> bool {
    v >= 2 && is_pow2(v as nat)
}

/// Every occupied cell of `s` holds a tile value.
pub open spec fn holds_tile_values(s: Seq<Option<usize>>) -> bool {
    forall|i: int| 0 <= i < s.len() && #[trigger] s[i] is Some ==> is_tile_value(s[i]->0)
}

/// Every occupied cell of `s` can be doubled without leaving `usize`.
pub open spec fn doubling_fits(s: Seq<Option<usize>>) -> bool {
    forall|i: int| 0 <= i < s.len() && #[trigger] s[i] is Some ==> s[i]->0 * 2 <= usize::MAX
}

/// No cell of `s` is empty.
pub open spec fn is_full(s: Seq<Option<usize>>) -> bool {
    forall|i: int| 0 <= i < s.len() ==> #[trigger] s[i] is Some
}

/// All occupied cells of `s` come before all empty ones.
pub open spec fn is_packed(s: Seq<Option<usize>>) -> bool {
    forall|i: int, j: int| 0 <= i < j < s.len() && #[trigger] s[i] is None ==> #[trigger] s[j] is None
}

/// The occupied cells of `s`, in their order.
pub open spec fn present(s: Seq<Option<usize>>) -> Seq<Option<usize>>
    decreases s.len(),
{
    if s.len() == 0 {
        s
    } else if s.last() is Some {
        present(s.drop_last()).push(s.last())
    } else {
        present(s.drop_last())
    }
}

/// `n` empty cells.
pub open spec fn empty_cells(n: nat) -> Seq<Option<usize>> {
    Seq::new(n, |i: int| None)
}

/// The line with its gaps removed: the occupied cells in their order from the
/// anchor, then empty cells up to the original length.
pub open spec fn collapse_line(s: Seq<Option<usize>>) -> Seq<Option<usize>> {
    present(s) + empty_cells((s.len() - present(s).len()) as nat)
}

/// One merge pass from the anchor: the first cell of an equal, occupied pair
/// takes the doubled value and the second becomes empty; the scan then goes on
/// after the pair, so no cell takes part in two merges.
pub open spec fn merge_line(s: Seq<Option<usize>>) -> Seq<Option<usize>>
    decreases s.len(),
{
    if s.len() < 2 {
        s
    } else if s[0] is Some && s[0] == s[1] {
        seq![Some((s[0]->0 * 2) as usize), None] + merge_line(s.subrange(2, s.len() as int))
    } else {
        seq![s[0]] + merge_line(s.drop_first())
    }
}

/// What a move does to one line: collapse, merge, collapse.
pub open spec fn slide_line(s: Seq<Option<usize>>) -> Seq<Option<usize>> {
    collapse_line(merge_line(collapse_line(s)))
}

/// Appending a cell appends it to the occupied cells if it is occupied.
pub proof fn lemma_present_push(s: Seq<Option<usize>>, x: Option<usize>)
    ensures
        present(s.push(x)) == if x is Some {
            present(s).push(x)
        } else {
            present(s)
        },
{
    assert(s.push(x).drop_last() =~= s);
}

/// The occupied cells are no more than the cells, all occupied, all taken from
/// `s`; and as many as the cells only when `s` is full.
pub proof fn lemma_present_facts(s: Seq<Option<usize>>)
    ensures
        present(s).len() <= s.len(),
        forall|i: int| 0 <= i < present(s).len() ==> #[trigger] present(s)[i] is Some,
        forall|i: int| 0 <= i < present(s).len() ==> s.contains(#[trigger] present(s)[i]),
        present(s).len() == s.len() ==> is_full(s) && present(s) == s,
    decreases s.len(),
{
    if s.len() > 0 {
        let t = s.drop_last();
        lemma_present_facts(t);
        assert forall|i: int| 0 <= i < present(s).len() implies s.contains(
            #[trigger] present(s)[i],
        ) by {
            if i < present(t).len() {
                assert(t.contains(present(t)[i]));
                let j = choose|j: int| 0 <= j < t.len() && t[j] == present(t)[i];
                assert(s[j] == present(s)[i]);
            } else {
                assert(s[s.len() - 1] == present(s)[i]);
            }
        }
        if present(s).len() == s.len() {
            assert(s.last() is Some);
            assert(present(t).len() == t.len());
            assert(s =~= t.push(s.last()));
            assert forall|i: int| 0 <= i < s.len() implies #[trigger] s[i] is Some by {
                if i < t.len() {
                    assert(t[i] is Some);
                }
            }
        }
    }
}

/// The occupied cells of a concatenation.
pub proof fn lemma_present_append(a: Seq<Option<usize>>, b: Seq<Option<usize>>)
    ensures
        present(a + b) == present(a) + present(b),
    decreases b.len(),
{
    if b.len() == 0 {
        assert(a + b =~= a);
        assert(present(a) + present(b) =~= present(a));
    } else {
        let c = b.drop_last();
        lemma_present_append(a, c);
        assert((a + b).drop_last() =~= a + c);
        assert((a + b).last() == b.last());
        if b.last() is Some {
            assert(present(a) + present(c).push(b.last()) =~= (present(a) + present(c)).push(
                b.last(),
            ));
        }
    }
}

/// Empty cells have no occupied cells.
pub proof fn lemma_present_of_empty_cells(n: nat)
    ensures
        present(empty_cells(n)) == Seq::<Option<usize>>::empty(),
    decreases n,
{
    if n > 0 {
        lemma_present_of_empty_cells((n - 1) as nat);
        assert(empty_cells(n).drop_last() =~= empty_cells((n - 1) as nat));
    }
}

/// The shape of a collapsed line, cell by cell.
pub proof fn lemma_collapse_shape(s: Seq<Option<usize>>)
    ensures
        collapse_line(s).len() == s.len(),
        present(collapse_line(s)) == present(s),
        is_packed(collapse_line(s)),
        forall|i: int|
            0 <= i < s.len() ==> (#[trigger] collapse_line(s)[i] is Some <==> i < present(
                s,
            ).len()),
        forall|i: int|
            0 <= i < s.len() && #[trigger] collapse_line(s)[i] is Some ==> s.contains(
                collapse_line(s)[i],
            ),
{
    lemma_present_facts(s);
    let p = present(s);
    let e = empty_cells((s.len() - p.len()) as nat);
    let c = collapse_line(s);
    lemma_present_append(p, e);
    lemma_present_of_empty_cells((s.len() - p.len()) as nat);
    lemma_present_facts(p);
    assert(is_full(p));
    lemma_present_full(p);
    assert(present(c) =~= p);
    assert forall|i: int| 0 <= i < s.len() implies (#[trigger] c[i] is Some <==> i < p.len()) by {
        if i < p.len() {
            assert(c[i] == p[i]);
        } else {
            assert(c[i] == e[i - p.len()]);
        }
    }
    assert forall|i: int, j: int| 0 <= i < j < c.len() && #[trigger] c[i] is None implies #[trigger] c[j]
        is None by {
        assert(!(i < p.len()));
    }
    assert forall|i: int| 0 <= i < s.len() && #[trigger] c[i] is Some implies s.contains(c[i]) by {
        assert(c[i] == p[i]);
    }
}

/// A packed line is its own collapse.
pub proof fn lemma_collapse_packed(s: Seq<Option<usize>>)
    requires
        is_packed(s),
    ensures
        collapse_line(s) == s,
{
    lemma_collapse_shape(s);
    lemma_present_facts(s);
    // the first empty cell, if any, marks where the occupied prefix ends
    let m: int = if is_full(s) {
        s.len() as int
    } else {
        choose|m: int| 0 <= m < s.len() && s[m] is None && forall|j: int| 0 <= j < m ==> #[trigger] s[j] is Some
    };
    if !is_full(s) {
        lemma_first_gap(s);
    }
    assert(forall|j: int| 0 <= j < m ==> #[trigger] s[j] is Some);
    assert(forall|j: int| m <= j < s.len() ==> #[trigger] s[j] is None);
    let pre = s.subrange(0, m);
    let post = s.subrange(m, s.len() as int);
    assert(s =~= pre + post);
    lemma_present_append(pre, post);
    assert(is_full(pre));
    lemma_present_facts(pre);
    lemma_present_full(pre);
    assert(post =~= empty_cells((s.len() - m) as nat));
    lemma_present_of_empty_cells((s.len() - m) as nat);
    assert(present(s) =~= pre);
    assert(collapse_line(s) =~= s);
}

proof fn lemma_present_full(s: Seq<Option<usize>>)
    requires
        is_full(s),
    ensures
        present(s) == s,
    decreases s.len(),
{
    if s.len() > 0 {
        lemma_present_full(s.drop_last());
        assert(s.drop_last().push(s.last()) =~= s);
    }
}

proof fn lemma_first_gap(s: Seq<Option<usize>>)
    requires
        !is_full(s),
    ensures
        exists|m: int| 0 <= m < s.len() && s[m] is None && forall|j: int| 0 <= j < m ==> #[trigger] s[j] is Some,
    decreases s.len(),
{
    let t = s.drop_last();
    if s.last() is None && is_full(t) {
        let m = s.len() - 1;
        assert forall|j: int| 0 <= j < m implies #[trigger] s[j] is Some by {
            assert(t[j] is Some);
        }
    } else {
        assert(!is_full(t)) by {
            if is_full(t) {
                assert forall|i: int| 0 <= i < s.len() implies #[trigger] s[i] is Some by {
                    if i < t.len() {
                        assert(t[i] is Some);
                    }
                }
            }
        }
        lemma_first_gap(t);
        let m = choose|m: int|
            0 <= m < t.len() && t[m] is None && forall|j: int| 0 <= j < m ==> #[trigger] t[j] is Some;
        assert(s[m] is None);
        assert forall|j: int| 0 <= j < m implies #[trigger] s[j] is Some by {
            assert(t[j] is Some);
        }
    }
}

/// Collapse only moves values, so tile values stay tile values and tiles that
/// could be doubled still can.
pub proof fn lemma_collapse_keeps_values(s: Seq<Option<usize>>)
    ensures
        holds_tile_values(s) ==> holds_tile_values(collapse_line(s)),
        doubling_fits(s) ==> doubling_fits(collapse_line(s)),
{
    lemma_collapse_shape(s);
    let c = collapse_line(s);
    assert forall|i: int| 0 <= i < c.len() && #[trigger] c[i] is Some implies exists|j: int|
        0 <= j < s.len() && s[j] == c[i] by {
        assert(s.contains(c[i]));
    }
}

proof fn lemma_double_pow2(v: nat)
    requires
        is_pow2(v),
    ensures
        is_pow2(v * 2),
{
    assert((v * 2) / 2 == v);
}

/// Merge doubles tile values only, so they stay tile values.
pub proof fn lemma_merge_keeps_values(s: Seq<Option<usize>>)
    requires
        holds_tile_values(s),
        doubling_fits(s),
    ensures
        merge_line(s).len() == s.len(),
        holds_tile_values(merge_line(s)),
    decreases s.len(),
{
    if s.len() >= 2 {
        if s[0] is Some && s[0] == s[1] {
            let t = s.subrange(2, s.len() as int);
            assert forall|i: int| 0 <= i < t.len() && #[trigger] t[i] is Some implies is_tile_value(
                t[i]->0,
            ) && t[i]->0 * 2 <= usize::MAX by {
                assert(s[i + 2] == t[i]);
            }
            lemma_merge_keeps_values(t);
            let v = s[0]->0;
            lemma_double_pow2(v as nat);
            let m = merge_line(s);
            assert forall|i: int| 0 <= i < m.len() && #[trigger] m[i] is Some implies is_tile_value(
                m[i]->0,
            ) by {
                if i >= 2 {
                    assert(m[i] == merge_line(t)[i - 2]);
                }
            }
        } else {
            let t = s.drop_first();
            assert forall|i: int| 0 <= i < t.len() && #[trigger] t[i] is Some implies is_tile_value(
                t[i]->0,
            ) && t[i]->0 * 2 <= usize::MAX by {
                assert(s[i + 1] == t[i]);
            }
            lemma_merge_keeps_values(t);
            let m = merge_line(s);
            assert forall|i: int| 0 <= i < m.len() && #[trigger] m[i] is Some implies is_tile_value(
                m[i]->0,
            ) by {
                if i >= 1 {
                    assert(m[i] == merge_line(t)[i - 1]);
                }
            }
        }
    }
}

/// A merge pass keeps the length of the line.
pub proof fn lemma_merge_len(s: Seq<Option<usize>>)
    ensures
        merge_line(s).len() == s.len(),
    decreases s.len(),
{
    if s.len() >= 2 {
        if s[0] is Some && s[0] == s[1] {
            lemma_merge_len(s.subrange(2, s.len() as int));
        } else {
            lemma_merge_len(s.drop_first());
        }
    }
}

/// A merge pass that leaves no cell empty changed nothing.
pub proof fn lemma_merge_full(s: Seq<Option<usize>>)
    requires
        is_full(merge_line(s)),
    ensures
        merge_line(s) == s,
    decreases s.len(),
{
    if s.len() >= 2 {
        if s[0] is Some && s[0] == s[1] {
            assert(merge_line(s)[1] is None);
        } else {
            let t = s.drop_first();
            let m = merge_line(s);
            assert forall|i: int| 0 <= i < merge_line(t).len() implies #[trigger] merge_line(t)[i] is Some by {
                assert(m[i + 1] == merge_line(t)[i]);
            }
            lemma_merge_full(t);
            assert(m =~= s);
        }
    }
}

/// A move that leaves a line with no empty cell did not change it.
pub proof fn lemma_slide_full(s: Seq<Option<usize>>)
    requires
        is_full(slide_line(s)),
    ensures
        slide_line(s) == s,
{
    let c1 = collapse_line(s);
    let m = merge_line(c1);
    let c2 = collapse_line(m);
    lemma_collapse_shape(m);
    lemma_present_facts(m);
    assert forall|i: int| 0 <= i < m.len() implies #[trigger] m[i] is Some by {
        assert(c2[i] is Some);
    }
    assert(present(m).len() == m.len()) by {
        if present(m).len() < m.len() {
            assert(c2[m.len() - 1] is Some);
        }
    }
    assert(c2 =~= m);
    lemma_merge_full(c1);
    lemma_collapse_shape(s);
    lemma_present_facts(s);
    assert(present(s).len() == s.len()) by {
        if present(s).len() < s.len() {
            assert(c1[s.len() - 1] is Some);
        }
    }
    assert(c1 =~= s);
}

/// The line with its gaps removed.
pub fn collapse_values(line: &Vec<Option<usize>>) -> (r: Vec<Option<usize>>)
    ensures
        r@ == collapse_line(line@),
{
    let n = line.len();
    let mut out: Vec<Option<usize>> = Vec::new();
    let mut i: usize = 0;
    while i < n
        invariant
            n == line@.len(),
            i <= n,
            out@ == present(line@.take(i as int)),
        decreases n - i,
    {
        proof {
            assert(line@.take(i + 1) =~= line@.take(i as int).push(line@[i as int]));
            lemma_present_push(line@.take(i as int), line@[i as int]);
        }
        if line[i].is_some() {
            out.push(line[i]);
        }
        i = i + 1;
    }
    proof {
        assert(line@.take(n as int) =~= line@);
        lemma_present_facts(line@);
    }
    let kept = out.len();
    while out.len() < n
        invariant
            n == line@.len(),
            kept == present(line@).len(),
            kept <= out.len() <= n,
            out@ == present(line@) + empty_cells((out.len() - kept) as nat),
        decreases n - out.len(),
    {
        out.push(None);
        proof {
            assert(out@ =~= present(line@) + empty_cells((out.len() - kept) as nat));
        }
    }
    out
}

/// One merge pass over the line, from its first cell.
pub fn merge_values(line: &Vec<Option<usize>>) -> (r: Vec<Option<usize>>)
    requires
        doubling_fits(line@),
    ensures
        r@ == merge_line(line@),
{
    let n = line.len();
    let mut out: Vec<Option<usize>> = Vec::new();
    let mut i: usize = 0;
    proof {
        assert(line@.subrange(0, n as int) =~= line@);
    }
    while i < n
        invariant
            n == line@.len(),
            i <= n,
            doubling_fits(line@),
            out@ + merge_line(line@.subrange(i as int, n as int)) == merge_line(line@),
        decreases n - i,
    {
        let ghost rest = line@.subrange(i as int, n as int);
        if i + 1 < n && line[i].is_some() && line[i] == line[i + 1] {
            let v = line[i].unwrap();
            proof {
                assert(line@[i as int] is Some);
                assert(rest.subrange(2, rest.len() as int) =~= line@.subrange(i + 2, n as int));
                assert(out@ + seq![Some((v * 2) as usize), None] + merge_line(
                    line@.subrange(i + 2, n as int),
                ) =~= out@ + merge_line(rest));
            }
            out.push(Some(v * 2));
            out.push(None);
            i = i + 2;
        } else {
            proof {
                if rest.len() >= 2 {
                    assert(rest.drop_first() =~= line@.subrange(i + 1, n as int));
                    assert(out@ + seq![line@[i as int]] + merge_line(line@.subrange(i + 1, n as int))
                        =~= out@ + merge_line(rest));
                } else {
                    assert(line@.subrange(i + 1, n as int) =~= Seq::<Option<usize>>::empty());
                    assert(out@ + seq![line@[i as int]] + merge_line(line@.subrange(i + 1, n as int))
                        =~= out@ + merge_line(rest));
                }
            }
            out.push(line[i]);
            i = i + 1;
        }
    }
    proof {
        assert(out@ + merge_line(line@.subrange(n as int, n as int)) =~= out@);
    }
    out
}

} // verus!

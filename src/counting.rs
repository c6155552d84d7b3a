use vstd::prelude::*;

use crate::field::Field;

verus! {

pub open spec fn one_if(b: bool) -> int {
    if b { 1 } else { 0 }
}

pub open spec fn mine_pred() -> spec_fn(Field) -> bool {
    |f: Field| f.spec_mine()
}

pub open spec fn visited_pred() -> spec_fn(Field) -> bool {
    |f: Field| f.spec_visited()
}

pub open spec fn hidden_pred() -> spec_fn(Field) -> bool {
    |f: Field| !f.spec_visited()
}

/// Number of cells of one row that satisfy `p`.
pub open spec fn count_row(r: Seq<Field>, p: spec_fn(Field) -> bool) -> nat
    decreases r.len(),
{
    if r.len() == 0 {
        0
    } else {
        count_row(r.drop_last(), p) + one_if(p(r.last())) as nat
    }
}

/// Number of cells of a whole grid that satisfy `p`.
pub open spec fn count_cells(rows: Seq<Seq<Field>>, p: spec_fn(Field) -> bool) -> nat
    decreases rows.len(),
{
    if rows.len() == 0 {
        0
    } else {
        count_cells(rows.drop_last(), p) + count_row(rows.last(), p)
    }
}

/// Every row of `rows` has `w` cells.
pub open spec fn uniform(rows: Seq<Seq<Field>>, w: int) -> bool {
    forall|i: int| 0 <= i < rows.len() ==> (#[trigger] rows[i]).len() == w
}

pub proof fn lemma_row_update(r: Seq<Field>, c: int, f: Field, p: spec_fn(Field) -> bool)
    requires
        0 <= c < r.len(),
    ensures
        count_row(r.update(c, f), p) == count_row(r, p) - one_if(p(r[c])) + one_if(p(f)),
    decreases r.len(),
{
    if c == r.len() - 1 {
        assert(r.update(c, f).drop_last() =~= r.drop_last());
    } else {
        lemma_row_update(r.drop_last(), c, f, p);
        assert(r.update(c, f).drop_last() =~= r.drop_last().update(c, f));
    }
}

/// Replacing one cell changes the count by what the old and new cell contribute.
pub proof fn lemma_cells_update(
    rows: Seq<Seq<Field>>,
    y: int,
    x: int,
    f: Field,
    p: spec_fn(Field) -> bool,
)
    requires
        0 <= y < rows.len(),
        0 <= x < rows[y].len(),
    ensures
        count_cells(rows.update(y, rows[y].update(x, f)), p) == count_cells(rows, p) - one_if(
            p(rows[y][x]),
        ) + one_if(p(f)),
    decreases rows.len(),
{
    let nr = rows.update(y, rows[y].update(x, f));
    if y == rows.len() - 1 {
        assert(nr.drop_last() =~= rows.drop_last());
        lemma_row_update(rows[y], x, f, p);
    } else {
        lemma_cells_update(rows.drop_last(), y, x, f, p);
        assert(nr.drop_last() =~= rows.drop_last().update(y, rows[y].update(x, f)));
    }
}

pub proof fn lemma_row_bound(r: Seq<Field>, p: spec_fn(Field) -> bool)
    ensures
        count_row(r, p) <= r.len(),
    decreases r.len(),
{
    if r.len() > 0 {
        lemma_row_bound(r.drop_last(), p);
    }
}

/// A grid of rows of `w` cells has at most `rows.len() * w` cells that satisfy `p`.
pub proof fn lemma_cells_bound(rows: Seq<Seq<Field>>, w: int, p: spec_fn(Field) -> bool)
    requires
        w >= 0,
        uniform(rows, w),
    ensures
        count_cells(rows, p) <= rows.len() * w,
    decreases rows.len(),
{
    if rows.len() > 0 {
        let n = rows.len() as int;
        lemma_cells_bound(rows.drop_last(), w, p);
        lemma_row_bound(rows.last(), p);
        assert((n - 1) * w + w == n * w) by (nonlinear_arith);
    }
}

/// A grid with no cell that satisfies `p` counts zero.
pub proof fn lemma_cells_none(rows: Seq<Seq<Field>>, p: spec_fn(Field) -> bool)
    requires
        forall|i: int, j: int|
            0 <= i < rows.len() && 0 <= j < rows[i].len() ==> !p(#[trigger] rows[i][j]),
    ensures
        count_cells(rows, p) == 0,
    decreases rows.len(),
{
    if rows.len() > 0 {
        let i = rows.len() - 1;
        assert forall|j: int| 0 <= j < rows[i].len() implies !p(#[trigger] rows[i][j]) by {}
        lemma_row_none(rows[i], p);
        lemma_cells_none(rows.drop_last(), p);
    }
}

pub proof fn lemma_row_none(r: Seq<Field>, p: spec_fn(Field) -> bool)
    requires
        forall|j: int| 0 <= j < r.len() ==> !p(#[trigger] r[j]),
    ensures
        count_row(r, p) == 0,
    decreases r.len(),
{
    if r.len() > 0 {
        lemma_row_none(r.drop_last(), p);
    }
}

/// A grid that counts zero has no cell that satisfies `p`.
pub proof fn lemma_cells_zero(rows: Seq<Seq<Field>>, p: spec_fn(Field) -> bool)
    requires
        count_cells(rows, p) == 0,
    ensures
        forall|i: int, j: int|
            0 <= i < rows.len() && 0 <= j < rows[i].len() ==> !p(#[trigger] rows[i][j]),
    decreases rows.len(),
{
    if rows.len() > 0 {
        lemma_cells_zero(rows.drop_last(), p);
        lemma_row_zero(rows.last(), p);
        assert forall|i: int, j: int|
            0 <= i < rows.len() && 0 <= j < rows[i].len() implies !p(#[trigger] rows[i][j]) by {
            if i < rows.len() - 1 {
                assert(rows[i] == rows.drop_last()[i]);
            }
        }
    }
}

pub proof fn lemma_row_zero(r: Seq<Field>, p: spec_fn(Field) -> bool)
    requires
        count_row(r, p) == 0,
    ensures
        forall|j: int| 0 <= j < r.len() ==> !p(#[trigger] r[j]),
    decreases r.len(),
{
    if r.len() > 0 {
        lemma_row_zero(r.drop_last(), p);
        assert forall|j: int| 0 <= j < r.len() implies !p(#[trigger] r[j]) by {
            if j < r.len() - 1 {
                assert(r[j] == r.drop_last()[j]);
            }
        }
    }
}

} // verus!

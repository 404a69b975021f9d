//! The replay model of the playing field.
//!
//! A grid is a sequence of equally long rows; a change event writes one cell;
//! replaying a stream of events folds them over a grid in order. The engine
//! maintains the reproducibility invariant that replaying its whole event
//! history over an all-empty grid rebuilds the current field, and a snapshot
//! (every non-empty cell, in row-major order) restores the field the same way.

use vstd::prelude::*;
use crate::model::Field;
use crate::protocol::{change_at, FieldChangeMessage};

verus! {

/// A well-shaped grid: a rectangle of at least 2 x 2 cells, so that the wall
/// ring fits, with all rows equally long.
pub open spec fn grid_dims_wf(g: Seq<Seq<Field>>) -> bool {
    &&& g.len() >= 2
    &&& g[0].len() >= 2
    &&& forall|r: int| 0 <= r < g.len() ==> (#[trigger] g[r]).len() == g[0].len()
}

/// The number of rows of a grid.
pub open spec fn grid_rows(g: Seq<Seq<Field>>) -> int {
    g.len() as int
}

/// The number of columns of a grid.
pub open spec fn grid_cols(g: Seq<Seq<Field>>) -> int {
    g[0].len() as int
}

/// Whether (r, c) lies on the grid.
pub open spec fn in_grid(g: Seq<Seq<Field>>, r: int, c: int) -> bool {
    0 <= r < grid_rows(g) && 0 <= c < grid_cols(g)
}

/// Whether (r, c) lies on the outermost ring of the grid.
pub open spec fn on_border(g: Seq<Seq<Field>>, r: int, c: int) -> bool {
    r == 0 || r == grid_rows(g) - 1 || c == 0 || c == grid_cols(g) - 1
}

/// The grid with the cell at (r, c) overwritten; a write outside the
/// rectangle changes nothing, so replay is total.
pub open spec fn grid_set(g: Seq<Seq<Field>>, r: int, c: int, f: Field) -> Seq<Seq<Field>> {
    if 0 <= r < g.len() && 0 <= c < g[r].len() {
        g.update(r, g[r].update(c, f))
    } else {
        g
    }
}

/// One change event applied to a grid.
pub open spec fn apply_change(g: Seq<Seq<Field>>, ch: FieldChangeMessage) -> Seq<Seq<Field>> {
    grid_set(g, ch.coordinate.row as int, ch.coordinate.col as int, ch.field)
}

/// A stream of change events applied in order.
pub open spec fn apply_changes(
    g: Seq<Seq<Field>>,
    chs: Seq<FieldChangeMessage>,
) -> Seq<Seq<Field>>
    decreases chs.len(),
{
    if chs.len() == 0 {
        g
    } else {
        apply_change(apply_changes(g, chs.drop_last()), chs.last())
    }
}

/// The all-empty rows x cols grid that replay starts from.
pub open spec fn empty_grid(rows: int, cols: int) -> Seq<Seq<Field>> {
    Seq::new(rows as nat, |r: int| Seq::new(cols as nat, |c: int| Field::Empty))
}

/// Appending one event to a stream applies it last.
pub proof fn lemma_apply_changes_push(
    g: Seq<Seq<Field>>,
    chs: Seq<FieldChangeMessage>,
    ch: FieldChangeMessage,
)
    ensures
        apply_changes(g, chs.push(ch)) == apply_change(apply_changes(g, chs), ch),
{
    assert(chs.push(ch).drop_last() =~= chs);
    assert(chs.push(ch).last() == ch);
}

/// Replaying a concatenation replays the two halves in turn.
pub proof fn lemma_apply_changes_concat(
    g: Seq<Seq<Field>>,
    a: Seq<FieldChangeMessage>,
    b: Seq<FieldChangeMessage>,
)
    ensures
        apply_changes(g, a + b) == apply_changes(apply_changes(g, a), b),
    decreases b.len(),
{
    if b.len() == 0 {
        assert(a + b =~= a);
    } else {
        lemma_apply_changes_concat(g, a, b.drop_last());
        assert((a + b).drop_last() =~= a + b.drop_last());
        assert((a + b).last() == b.last());
    }
}

/// Replay never changes the shape of the grid.
pub proof fn lemma_apply_changes_dims(g: Seq<Seq<Field>>, chs: Seq<FieldChangeMessage>)
    ensures
        apply_changes(g, chs).len() == g.len(),
        forall|r: int|
            0 <= r < g.len() ==> (#[trigger] apply_changes(g, chs)[r]).len() == g[r].len(),
    decreases chs.len(),
{
    if chs.len() > 0 {
        lemma_apply_changes_dims(g, chs.drop_last());
    }
}

/// The snapshot events for the first `n` cells of row `r`: one event per
/// non-empty cell, left to right.
pub open spec fn snapshot_row(g: Seq<Seq<Field>>, r: int, n: int) -> Seq<FieldChangeMessage>
    decreases n,
{
    if n <= 0 {
        Seq::empty()
    } else {
        snapshot_row(g, r, n - 1) + if g[r][n - 1] != Field::Empty {
            seq![change_at((r) as usize, (n - 1) as usize, g[r][n - 1])]
        } else {
            Seq::empty()
        }
    }
}

/// The snapshot events for the first `m` rows, row-major.
pub open spec fn snapshot_prefix(g: Seq<Seq<Field>>, m: int) -> Seq<FieldChangeMessage>
    decreases m,
{
    if m <= 0 {
        Seq::empty()
    } else {
        snapshot_prefix(g, m - 1) + snapshot_row(g, m - 1, grid_cols(g))
    }
}

/// The full snapshot of a grid: every non-empty cell as a change event, in
/// row-major order.
pub open spec fn snapshot_changes(g: Seq<Seq<Field>>) -> Seq<FieldChangeMessage> {
    snapshot_prefix(g, grid_rows(g))
}

/// Replaying the snapshot events of one row over a base grid whose row is
/// still empty on that stretch copies the row's cells from `g`.
proof fn lemma_snapshot_row_restore(
    g: Seq<Seq<Field>>,
    base: Seq<Seq<Field>>,
    r: int,
    n: int,
)
    requires
        grid_dims_wf(g),
        grid_rows(g) <= usize::MAX,
        grid_cols(g) <= usize::MAX,
        base.len() == g.len(),
        forall|i: int| 0 <= i < base.len() ==> (#[trigger] base[i]).len() == grid_cols(g),
        0 <= r < grid_rows(g),
        0 <= n <= grid_cols(g),
        forall|j: int| 0 <= j < n ==> #[trigger] base[r][j] == Field::Empty,
    ensures
        apply_changes(base, snapshot_row(g, r, n)) =~~= base.update(
            r,
            Seq::new(grid_cols(g) as nat, |j: int| if j < n { g[r][j] } else { base[r][j] }),
        ),
    decreases n,
{
    let target = base.update(
        r,
        Seq::new(grid_cols(g) as nat, |j: int| if j < n { g[r][j] } else { base[r][j] }),
    );
    if n == 0 {
        assert(apply_changes(base, snapshot_row(g, r, 0)) == base);
        assert(target =~~= base);
    } else {
        lemma_snapshot_row_restore(g, base, r, n - 1);
        let prev = apply_changes(base, snapshot_row(g, r, n - 1));
        let target_prev = base.update(
            r,
            Seq::new(grid_cols(g) as nat, |j: int| if j < n - 1 { g[r][j] } else { base[r][j] }),
        );
        assert(prev == target_prev);
        let tailevs = if g[r][n - 1] != Field::Empty {
            seq![change_at(r as usize, (n - 1) as usize, g[r][n - 1])]
        } else {
            Seq::<FieldChangeMessage>::empty()
        };
        lemma_apply_changes_concat(base, snapshot_row(g, r, n - 1), tailevs);
        assert(apply_changes(base, snapshot_row(g, r, n)) == apply_changes(prev, tailevs));
        if g[r][n - 1] != Field::Empty {
            let ch = change_at(r as usize, (n - 1) as usize, g[r][n - 1]);
            assert(tailevs =~= Seq::<FieldChangeMessage>::empty().push(ch));
            lemma_apply_changes_push(prev, Seq::<FieldChangeMessage>::empty(), ch);
            assert(apply_changes(prev, Seq::<FieldChangeMessage>::empty()) == prev);
            assert(apply_changes(prev, tailevs) == apply_change(prev, ch));
            assert(ch.coordinate.row == r && ch.coordinate.col == n - 1);
            assert(apply_change(prev, ch) == prev.update(r, prev[r].update(n - 1, g[r][n - 1])));
            assert(prev.update(r, prev[r].update(n - 1, g[r][n - 1])) =~~= target);
        } else {
            assert(apply_changes(prev, tailevs) == prev);
            assert(base[r][n - 1] == Field::Empty);
            assert(prev =~~= target);
        }
    }
}

/// The grid holding the first `m` rows of `g` and empty rows below them.
spec fn rows_restored(g: Seq<Seq<Field>>, m: int) -> Seq<Seq<Field>> {
    Seq::new(
        grid_rows(g) as nat,
        |r: int|
            if r < m {
                g[r]
            } else {
                Seq::new(grid_cols(g) as nat, |c: int| Field::Empty)
            },
    )
}

/// Replaying the snapshot of the first `m` rows over the empty grid restores
/// exactly those rows.
proof fn lemma_snapshot_prefix_restore(g: Seq<Seq<Field>>, m: int)
    requires
        grid_dims_wf(g),
        grid_rows(g) <= usize::MAX,
        grid_cols(g) <= usize::MAX,
        0 <= m <= grid_rows(g),
    ensures
        apply_changes(empty_grid(grid_rows(g), grid_cols(g)), snapshot_prefix(g, m))
            =~~= rows_restored(g, m),
    decreases m,
{
    let e = empty_grid(grid_rows(g), grid_cols(g));
    if m == 0 {
        assert(rows_restored(g, 0) =~~= e);
    } else {
        lemma_snapshot_prefix_restore(g, m - 1);
        lemma_apply_changes_concat(e, snapshot_prefix(g, m - 1), snapshot_row(g, m - 1, grid_cols(g)));
        let prev = apply_changes(e, snapshot_prefix(g, m - 1));
        assert(prev =~~= rows_restored(g, m - 1));
        lemma_snapshot_row_restore(g, rows_restored(g, m - 1), m - 1, grid_cols(g));
        assert(apply_changes(rows_restored(g, m - 1), snapshot_row(g, m - 1, grid_cols(g)))
            =~~= rows_restored(g, m - 1).update(
            m - 1,
            Seq::new(
                grid_cols(g) as nat,
                |j: int| if j < grid_cols(g) { g[m - 1][j] } else { rows_restored(g, m - 1)[m - 1][j] },
            ),
        ));
        assert(rows_restored(g, m - 1).update(
            m - 1,
            Seq::new(
                grid_cols(g) as nat,
                |j: int| if j < grid_cols(g) { g[m - 1][j] } else { rows_restored(g, m - 1)[m - 1][j] },
            ),
        ) =~~= rows_restored(g, m));
    }
}

/// Replaying a grid's full snapshot over the all-empty grid restores the grid.
pub proof fn lemma_snapshot_restores(g: Seq<Seq<Field>>)
    requires
        grid_dims_wf(g),
        grid_rows(g) <= usize::MAX,
        grid_cols(g) <= usize::MAX,
    ensures
        apply_changes(empty_grid(grid_rows(g), grid_cols(g)), snapshot_changes(g)) =~~= g,
{
    lemma_snapshot_prefix_restore(g, grid_rows(g));
    assert(rows_restored(g, grid_rows(g)) =~~= g);
}

/// Snapshot consistency: bootstrapping from a snapshot and then replaying any
/// later events gives the same grid as replaying those events over the state
/// the snapshot was taken from. A subscriber that starts from a snapshot and
/// applies every subsequent event therefore mirrors the true field, whatever
/// the events are.
pub proof fn lemma_snapshot_consistency(g: Seq<Seq<Field>>, evs: Seq<FieldChangeMessage>)
    requires
        grid_dims_wf(g),
        grid_rows(g) <= usize::MAX,
        grid_cols(g) <= usize::MAX,
    ensures
        apply_changes(
            apply_changes(empty_grid(grid_rows(g), grid_cols(g)), snapshot_changes(g)),
            evs,
        ) == apply_changes(g, evs),
{
    lemma_snapshot_restores(g);
    assert(apply_changes(empty_grid(grid_rows(g), grid_cols(g)), snapshot_changes(g)) =~~= g);
}

} // verus!

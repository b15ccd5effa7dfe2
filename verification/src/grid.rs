//! The mathematical model of the board: a grid is a sequence of rows, top
//! row first, each a sequence of cells that are empty or hold the kind of
//! the piece that covers them.

use crate::piece::Shape;
use vstd::prelude::*;

verus! {

/// A grid of `height` rows, each `width` cells wide.
pub open spec fn is_grid(g: Seq<Seq<Option<Shape>>>, width: nat, height: nat) -> bool {
    &&& g.len() == height
    &&& forall|r: int| 0 <= r < g.len() ==> (#[trigger] g[r]).len() == width
}

/// A row of `width` empty cells.
pub open spec fn blank_row(width: nat) -> Seq<Option<Shape>> {
    Seq::new(width, |c: int| None)
}

/// The grid of `height` empty rows.
pub open spec fn blank(width: nat, height: nat) -> Seq<Seq<Option<Shape>>> {
    Seq::new(height, |r: int| blank_row(width))
}

/// Every cell of the row holds a piece.
pub open spec fn is_full(row: Seq<Option<Shape>>) -> bool {
    forall|c: int| 0 <= c < row.len() ==> (#[trigger] row[c]) is Some
}

/// The grid after row `y` was taken out: the rows above it have moved down
/// by one and an empty row has come in at the top.
pub open spec fn without_row(g: Seq<Seq<Option<Shape>>>, width: nat, y: int) -> Seq<
    Seq<Option<Shape>>,
> {
    seq![blank_row(width)] + g.remove(y)
}

/// The rows that are not full, in their order.
pub open spec fn kept_rows(g: Seq<Seq<Option<Shape>>>) -> Seq<Seq<Option<Shape>>> {
    g.filter(|row: Seq<Option<Shape>>| !is_full(row))
}

/// The grid after all full rows were taken out: the rows that are not full
/// stand at the bottom in their order, under as many empty rows as there
/// were full ones.
pub open spec fn cleared(g: Seq<Seq<Option<Shape>>>, width: nat) -> Seq<Seq<Option<Shape>>> {
    blank(width, (g.len() - kept_rows(g).len()) as nat) + kept_rows(g)
}

/// Clearing keeps the number of rows.
pub proof fn lemma_cleared_len(g: Seq<Seq<Option<Shape>>>, width: nat)
    ensures
        kept_rows(g).len() <= g.len(),
        cleared(g, width).len() == g.len(),
{
    g.lemma_filter_len(|row: Seq<Option<Shape>>| !is_full(row));
}

/// Clearing the rows down to a row that is not full: that row is kept.
pub proof fn lemma_cleared_keeps(g: Seq<Seq<Option<Shape>>>, width: nat, y: int)
    requires
        0 <= y < g.len(),
        !is_full(g[y]),
    ensures
        cleared(g.take(y + 1), width) == cleared(g.take(y), width).push(g[y]),
{
    let upto = g.take(y + 1);
    assert(upto =~= g.take(y).push(g[y]));
    g.take(y).lemma_filter_push(g[y], |row: Seq<Option<Shape>>| !is_full(row));
    lemma_cleared_len(g.take(y), width);
    assert(kept_rows(upto) == kept_rows(g.take(y)).push(g[y]));
    assert(cleared(upto, width) =~= cleared(g.take(y), width).push(g[y]));
}

/// Clearing the rows down to a full row: that row goes and an empty row
/// comes in at the top.
pub proof fn lemma_cleared_drops(g: Seq<Seq<Option<Shape>>>, width: nat, y: int)
    requires
        0 <= y < g.len(),
        is_full(g[y]),
    ensures
        cleared(g.take(y + 1), width) == seq![blank_row(width)] + cleared(g.take(y), width),
{
    let upto = g.take(y + 1);
    assert(upto =~= g.take(y).push(g[y]));
    g.take(y).lemma_filter_push(g[y], |row: Seq<Option<Shape>>| !is_full(row));
    lemma_cleared_len(g.take(y), width);
    assert(kept_rows(upto) == kept_rows(g.take(y)));
    assert(cleared(upto, width) =~= seq![blank_row(width)] + cleared(g.take(y), width));
}

/// Clearing keeps the size of the grid, and on a grid with at least one
/// column it leaves no full row.
pub proof fn lemma_cleared_is_grid(g: Seq<Seq<Option<Shape>>>, width: nat, height: nat)
    requires
        is_grid(g, width, height),
    ensures
        is_grid(cleared(g, width), width, height),
        width > 0 ==> forall|r: int| 0 <= r < height ==> !is_full(#[trigger] cleared(g, width)[r]),
{
    let keeps = |row: Seq<Option<Shape>>| !is_full(row);
    let kept = kept_rows(g);
    let done = cleared(g, width);
    lemma_cleared_len(g, width);
    let full = g.len() - kept.len();
    assert forall|r: int| 0 <= r < done.len() implies (#[trigger] done[r]).len() == width && (width
        > 0 ==> !is_full(done[r])) by {
        if r < full {
            assert(done[r] == blank_row(width));
            if width > 0 {
                assert(blank_row(width)[0] is None);
            }
        } else {
            assert(done[r] == kept[r - full]);
            g.lemma_filter_pred(keeps, r - full);
            assert(kept.contains(kept[r - full]));
            g.lemma_filter_contains_rev(keeps, kept[r - full]);
        }
    }
}

/// Where no row is full, every row is kept.
proof fn lemma_kept_all(g: Seq<Seq<Option<Shape>>>)
    requires
        forall|r: int| 0 <= r < g.len() ==> !is_full(#[trigger] g[r]),
    ensures
        kept_rows(g) == g,
    decreases g.len(),
{
    let keeps = |row: Seq<Option<Shape>>| !is_full(row);
    if g.len() == 0 {
        g.lemma_filter_len(keeps);
        assert(kept_rows(g) =~= g);
    } else {
        let above = g.drop_last();
        assert forall|r: int| 0 <= r < above.len() implies !is_full(#[trigger] above[r]) by {
            assert(above[r] == g[r]);
        }
        lemma_kept_all(above);
        assert(above.push(g.last()) =~= g);
        above.lemma_filter_push(g.last(), keeps);
        assert(keeps(g.last())) by {
            assert(g.last() == g[g.len() - 1]);
        }
    }
}

/// Clearing changes nothing on a grid without a full row.
pub proof fn lemma_cleared_without_full_rows(g: Seq<Seq<Option<Shape>>>, width: nat)
    requires
        forall|r: int| 0 <= r < g.len() ==> !is_full(#[trigger] g[r]),
    ensures
        cleared(g, width) == g,
{
    lemma_kept_all(g);
    assert(blank(width, 0) + g =~= g);
}

/// Taking out a full row first does not change what clearing gives: the
/// full rows can be taken out one by one, in any order, until none is left.
pub proof fn lemma_cleared_after_without_row(g: Seq<Seq<Option<Shape>>>, width: nat, y: int)
    requires
        0 <= y < g.len(),
        is_full(g[y]),
    ensures
        cleared(without_row(g, width, y), width) == cleared(g, width),
{
    let keeps = |row: Seq<Option<Shape>>| !is_full(row);
    let above = g.take(y);
    let below = g.skip(y + 1);
    let top = seq![blank_row(width)];
    assert(g =~= above.push(g[y]) + below);
    assert(g.remove(y) =~= above + below);
    above.lemma_filter_push(g[y], keeps);
    Seq::filter_distributes_over_add(above.push(g[y]), below, keeps);
    Seq::filter_distributes_over_add(above, below, keeps);
    assert(kept_rows(g.remove(y)) == kept_rows(g));
    Seq::filter_distributes_over_add(top, g.remove(y), keeps);
    assert(top =~= Seq::<Seq<Option<Shape>>>::empty().push(blank_row(width)));
    Seq::<Seq<Option<Shape>>>::empty().lemma_filter_push(blank_row(width), keeps);
    Seq::<Seq<Option<Shape>>>::empty().lemma_filter_len(keeps);
    above.lemma_filter_len(keeps);
    below.lemma_filter_len(keeps);
    if width > 0 {
        assert(blank_row(width)[0] is None);
        assert(kept_rows(top) =~= top);
    } else {
        assert(kept_rows(top) =~= Seq::<Seq<Option<Shape>>>::empty());
    }
    assert(cleared(without_row(g, width, y), width) =~= cleared(g, width));
}

/// The number of cells of a row that hold a piece.
pub open spec fn held_in_row(row: Seq<Option<Shape>>) -> nat {
    row.filter(|cell: Option<Shape>| cell is Some).len()
}

/// The number of cells of a grid that hold a piece.
pub open spec fn held(g: Seq<Seq<Option<Shape>>>) -> nat
    decreases g.len(),
{
    if g.len() == 0 {
        0
    } else {
        held(g.drop_last()) + held_in_row(g.last())
    }
}

/// In a full row every cell holds a piece.
proof fn lemma_held_in_full_row(row: Seq<Option<Shape>>)
    requires
        is_full(row),
    ensures
        held_in_row(row) == row.len(),
    decreases row.len(),
{
    let holds = |cell: Option<Shape>| cell is Some;
    if row.len() == 0 {
        row.lemma_filter_len(holds);
    } else {
        let front = row.drop_last();
        assert forall|c: int| 0 <= c < front.len() implies (#[trigger] front[c]) is Some by {
            assert(front[c] == row[c]);
        }
        lemma_held_in_full_row(front);
        assert(front.push(row.last()) =~= row);
        front.lemma_filter_push(row.last(), holds);
        assert(row.last() == row[row.len() - 1]);
    }
}

/// In an empty row no cell holds a piece.
proof fn lemma_held_in_blank_row(width: nat)
    ensures
        held_in_row(blank_row(width)) == 0,
    decreases width,
{
    let holds = |cell: Option<Shape>| cell is Some;
    if width == 0 {
        blank_row(0).lemma_filter_len(holds);
    } else {
        let front = blank_row((width - 1) as nat);
        lemma_held_in_blank_row((width - 1) as nat);
        assert(front.push(None) =~= blank_row(width));
        front.lemma_filter_push(None, holds);
    }
}

/// The cells that a grid holds are those of its rows, one row after the
/// other.
proof fn lemma_held_push(g: Seq<Seq<Option<Shape>>>, row: Seq<Option<Shape>>)
    ensures
        held(g.push(row)) == held(g) + held_in_row(row),
{
    assert(g.push(row).drop_last() =~= g);
}

/// Two grids one above the other hold the cells of both.
proof fn lemma_held_add(a: Seq<Seq<Option<Shape>>>, b: Seq<Seq<Option<Shape>>>)
    ensures
        held(a + b) == held(a) + held(b),
    decreases b.len(),
{
    if b.len() == 0 {
        assert(a + b =~= a);
    } else {
        lemma_held_add(a, b.drop_last());
        assert((a + b.drop_last()).push(b.last()) =~= a + b);
        lemma_held_push(a + b.drop_last(), b.last());
    }
}

/// An empty grid holds no piece.
proof fn lemma_held_blank(width: nat, height: nat)
    ensures
        held(blank(width, height)) == 0,
    decreases height,
{
    if height > 0 {
        lemma_held_blank(width, (height - 1) as nat);
        lemma_held_in_blank_row(width);
        assert(blank(width, (height - 1) as nat).push(blank_row(width)) =~= blank(width, height));
        lemma_held_push(blank(width, (height - 1) as nat), blank_row(width));
    }
}

/// The rows that are kept hold all cells but those of the full rows.
proof fn lemma_held_kept(g: Seq<Seq<Option<Shape>>>, width: nat)
    requires
        is_grid(g, width, g.len()),
    ensures
        kept_rows(g).len() <= g.len(),
        held(kept_rows(g)) + width * (g.len() - kept_rows(g).len()) == held(g),
    decreases g.len(),
{
    let keeps = |row: Seq<Option<Shape>>| !is_full(row);
    g.lemma_filter_len(keeps);
    if g.len() == 0 {
        assert(kept_rows(g) =~= g);
    } else {
        let above = g.drop_last();
        let last = g.last();
        assert forall|r: int| 0 <= r < above.len() implies (#[trigger] above[r]).len()
            == width by {
            assert(above[r] == g[r]);
        }
        lemma_held_kept(above, width);
        assert(above.push(last) =~= g);
        above.lemma_filter_push(last, keeps);
        assert(last == g[g.len() - 1]);
        let full = above.len() - kept_rows(above).len();
        if is_full(last) {
            lemma_held_in_full_row(last);
            assert(kept_rows(g) == kept_rows(above));
            assert(width * (full + 1) == width * full + width) by (nonlinear_arith);
        } else {
            assert(kept_rows(g) == kept_rows(above).push(last));
            lemma_held_push(kept_rows(above), last);
        }
    }
}

/// Clearing takes away the cells of the full rows and no others: what the
/// rows that are not full hold is there before and after.
pub proof fn lemma_cleared_keeps_cells(g: Seq<Seq<Option<Shape>>>, width: nat)
    requires
        is_grid(g, width, g.len()),
    ensures
        kept_rows(g).len() <= g.len(),
        held(cleared(g, width)) == held(kept_rows(g)),
        held(cleared(g, width)) + width * (g.len() - kept_rows(g).len()) == held(g),
{
    lemma_held_kept(g, width);
    let full = (g.len() - kept_rows(g).len()) as nat;
    lemma_held_blank(width, full);
    lemma_held_add(blank(width, full), kept_rows(g));
}

/// Cell (`mr`, `mc`) of the matrix `m` is one that the piece occupies.
pub open spec fn filled(m: Seq<Seq<u8>>, mr: int, mc: int) -> bool {
    &&& 0 <= mr < m.len()
    &&& 0 <= mc < m[mr].len()
    &&& m[mr][mc] == 1
}

/// The matrix `m` is no larger than a board of the given size.
pub open spec fn fits(m: Seq<Seq<u8>>, width: nat, height: nat) -> bool {
    &&& m.len() <= height
    &&& m[0].len() <= width
}

/// The column at which a piece `m_width` cells wide is placed when column
/// `x` is asked for: `x` itself, or the last column at which the whole piece
/// still lies on the board.
pub open spec fn clamped(x: int, width: int, m_width: int) -> int {
    if x > width - m_width {
        width - m_width
    } else {
        x
    }
}

/// With its top-left corner at column `col` of row `row`, every filled cell
/// of `m` lies on an empty cell of the grid.
pub open spec fn free_at(g: Seq<Seq<Option<Shape>>>, m: Seq<Seq<u8>>, col: int, row: int) -> bool {
    forall|mr: int, mc: int| #[trigger]
        filled(m, mr, mc) ==> {
            &&& 0 <= row + mr < g.len()
            &&& 0 <= col + mc < g[row + mr].len()
            &&& g[row + mr][col + mc] is None
        }
}

/// A piece that falls down column `col` from the top comes to rest with its
/// top row at `row`: it overlaps nothing at any row from 0 to `row`, and at
/// `row` it stands on the floor or on an occupied cell.
pub open spec fn rests_at(g: Seq<Seq<Option<Shape>>>, m: Seq<Seq<u8>>, col: int, row: int) -> bool {
    &&& 0 <= row <= g.len() - m.len()
    &&& forall|y: int| 0 <= y <= row ==> #[trigger] free_at(g, m, col, y)
    &&& (row == g.len() - m.len() || !free_at(g, m, col, row + 1))
}

/// The row at which a piece comes to rest, where there is one.
pub open spec fn resting_row(g: Seq<Seq<Option<Shape>>>, m: Seq<Seq<u8>>, col: int) -> int {
    choose|row: int| rests_at(g, m, col, row)
}

/// The grid after a piece of kind `piece` was written with its top-left
/// corner at column `col` of row `row`: the cells under its filled cells hold
/// `piece`, all others are as before.
pub open spec fn stamped(
    g: Seq<Seq<Option<Shape>>>,
    m: Seq<Seq<u8>>,
    col: int,
    row: int,
    piece: Shape,
) -> Seq<Seq<Option<Shape>>> {
    Seq::new(
        g.len(),
        |r: int|
            Seq::new(
                g[r].len(),
                |c: int|
                    if filled(m, r - row, c - col) {
                        Some(piece)
                    } else {
                        g[r][c]
                    },
            ),
    )
}

/// A piece with matrix `m` that is asked for at column `x` can be placed: it
/// is no larger than the board and, at the column it is moved to, overlaps
/// nothing at the top row.
pub open spec fn can_land(g: Seq<Seq<Option<Shape>>>, m: Seq<Seq<u8>>, width: nat, x: int) -> bool {
    &&& fits(m, width, g.len())
    &&& free_at(g, m, clamped(x, width as int, m[0].len() as int), 0)
}

/// The grid after a piece of kind `piece` with matrix `m`, asked for at
/// column `x`, fell to its resting row and was written there.
pub open spec fn landed(
    g: Seq<Seq<Option<Shape>>>,
    m: Seq<Seq<u8>>,
    width: nat,
    x: int,
    piece: Shape,
) -> Seq<Seq<Option<Shape>>> {
    let col = clamped(x, width as int, m[0].len() as int);
    stamped(g, m, col, resting_row(g, m, col), piece)
}

/// A falling piece has at most one resting row: the fall is determined by
/// the grid, the matrix and the column.
pub proof fn lemma_resting_row_unique(
    g: Seq<Seq<Option<Shape>>>,
    m: Seq<Seq<u8>>,
    col: int,
    a: int,
    b: int,
)
    requires
        rests_at(g, m, col, a),
        rests_at(g, m, col, b),
    ensures
        a == b,
        resting_row(g, m, col) == a,
{
    if a < b {
        assert(free_at(g, m, col, a + 1));
    }
    if b < a {
        assert(free_at(g, m, col, b + 1));
    }
    let chosen = resting_row(g, m, col);
    if chosen < a {
        assert(free_at(g, m, col, chosen + 1));
    }
    if a < chosen {
        assert(free_at(g, m, col, a + 1));
    }
}

/// A piece that is free at every row down to `y` comes to rest at `y` or
/// further down.
proof fn lemma_falls_from(g: Seq<Seq<Option<Shape>>>, m: Seq<Seq<u8>>, col: int, y: int)
    requires
        0 <= y <= g.len() - m.len(),
        forall|k: int| 0 <= k <= y ==> #[trigger] free_at(g, m, col, k),
    ensures
        exists|row: int| y <= row && rests_at(g, m, col, row),
    decreases g.len() - m.len() - y,
{
    if y == g.len() - m.len() || !free_at(g, m, col, y + 1) {
        assert(rests_at(g, m, col, y));
    } else {
        lemma_falls_from(g, m, col, y + 1);
    }
}

/// A piece has a resting row exactly if it is no taller than the grid and
/// overlaps nothing at the top row.
pub proof fn lemma_resting_row_exists(g: Seq<Seq<Option<Shape>>>, m: Seq<Seq<u8>>, col: int)
    ensures
        (m.len() <= g.len() && free_at(g, m, col, 0)) <==> rests_at(
            g,
            m,
            col,
            resting_row(g, m, col),
        ),
        (m.len() <= g.len() && free_at(g, m, col, 0)) <==> exists|row: int|
            rests_at(g, m, col, row),
{
    if m.len() <= g.len() && free_at(g, m, col, 0) {
        lemma_falls_from(g, m, col, 0);
    }
    if exists|row: int| rests_at(g, m, col, row) {
        let row = choose|row: int| rests_at(g, m, col, row);
        assert(free_at(g, m, col, 0));
    }
}

} // verus!

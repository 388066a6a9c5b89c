use crate::cell::Cell;
use vstd::prelude::*;

verus! {

/// One row of the grid as text: for each cell its glyph and a space.
pub open spec fn row_text(row: Seq<Cell>) -> Seq<char>
    decreases row.len(),
{
    if row.len() == 0 {
        Seq::empty()
    } else {
        row_text(row.drop_last()) + seq![row.last().glyph(), ' ']
    }
}

/// The grid as text, row by row, each row followed by a line feed.
pub open spec fn grid_text(rows: Seq<Seq<Cell>>) -> Seq<char>
    decreases rows.len(),
{
    if rows.len() == 0 {
        Seq::empty()
    } else {
        grid_text(rows.drop_last()) + row_text(rows.last()) + seq!['\n']
    }
}

/// A row of `n` cells takes `2 * n` characters: the glyph of cell `j` at
/// `2 * j`, a space after it.
pub proof fn lemma_row_text(row: Seq<Cell>)
    ensures
        row_text(row).len() == 2 * row.len(),
        forall|j: int|
            0 <= j < row.len() ==> row_text(row)[2 * j] == (#[trigger] row[j]).glyph() && row_text(
                row,
            )[2 * j + 1] == ' ',
    decreases row.len(),
{
    if row.len() > 0 {
        lemma_row_text(row.drop_last());
        assert forall|j: int| 0 <= j < row.len() implies row_text(row)[2 * j] == (
        #[trigger] row[j]).glyph() && row_text(row)[2 * j + 1] == ' ' by {
            if j < row.len() - 1 {
                assert(row.drop_last()[j] == row[j]);
            }
        }
    }
}

/// A grid of `n` rows of `cols` cells takes `n * (2 * cols + 1)`
/// characters: row `i` starts at `i * (2 * cols + 1)`, holds the glyph of
/// its cell `j` at `2 * j` from there with a space after it, and ends in a
/// line feed.
pub proof fn lemma_grid_text(rows: Seq<Seq<Cell>>, cols: int)
    requires
        forall|i: int| 0 <= i < rows.len() ==> (#[trigger] rows[i]).len() == cols,
    ensures
        grid_text(rows).len() == rows.len() * (2 * cols + 1),
        forall|i: int, j: int|
            0 <= i < rows.len() && 0 <= j < cols ==> grid_text(rows)[i * (2 * cols + 1) + 2 * j]
                == (#[trigger] rows[i][j]).glyph() && grid_text(rows)[i * (2 * cols + 1) + 2 * j
                + 1] == ' ',
        forall|i: int|
            0 <= i < rows.len() ==> grid_text(rows)[i * (2 * cols + 1) + (#[trigger] rows[i]).len()
                * 2] == '\n',
    decreases rows.len(),
{
    let width = 2 * cols + 1;
    if rows.len() > 0 {
        let above = rows.drop_last();
        let n = above.len() as int;
        assert forall|i: int| 0 <= i < above.len() implies (#[trigger] above[i]).len() == cols by {
            assert(above[i] == rows[i]);
        }
        lemma_grid_text(above, cols);
        lemma_row_text(rows.last());
        assert(rows[n].len() == cols);
        assert((n + 1) * width == n * width + width) by (nonlinear_arith);
        assert(grid_text(rows).len() == rows.len() * width);
        assert forall|i: int, j: int| 0 <= i < rows.len() && 0 <= j < cols implies grid_text(
            rows,
        )[i * width + 2 * j] == (#[trigger] rows[i][j]).glyph() && grid_text(rows)[i * width + 2
            * j + 1] == ' ' by {
            assert(i * width + width <= (n + 1) * width && 0 <= i * width) by (nonlinear_arith)
                requires
                    0 <= i <= n,
                    width >= 0,
            ;
            if i < n {
                assert(i * width + width <= n * width) by (nonlinear_arith)
                    requires
                        0 <= i < n,
                        width >= 0,
                ;
                assert(above[i] == rows[i]);
                assert(above[i][j] == rows[i][j]);
            } else {
                assert(rows.last()[j] == rows[i][j]);
            }
        }
        assert forall|i: int| 0 <= i < rows.len() implies grid_text(rows)[i * width + (
        #[trigger] rows[i]).len() * 2] == '\n' by {
            assert(i * width + width <= (n + 1) * width && 0 <= i * width) by (nonlinear_arith)
                requires
                    0 <= i <= n,
                    width >= 0,
            ;
            assert(rows[i].len() == cols);
            if i < n {
                assert(i * width + width <= n * width) by (nonlinear_arith)
                    requires
                        0 <= i < n,
                        width >= 0,
                ;
                assert(above[i] == rows[i]);
                assert(above[i].len() == cols);
            }
        }
    } else {
        assert(rows.len() * width == 0) by (nonlinear_arith)
            requires
                rows.len() == 0,
        ;
    }
}

/// Appends `ch` to `text` with `String::push`.
///
/// Believed, not proved: the text afterwards is the text before with `ch`
/// at its end.
#[verifier::external_body]
pub(crate) fn push_char(text: &mut String, ch: char)
    ensures
        final(text)@ == old(text)@.push(ch),
{
    text.push(ch);
}

} // verus!

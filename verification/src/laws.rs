//! Laws of the grid, the step rule, and the text format, proved once for
//! every grid rather than checked on examples.

use vstd::prelude::*;
use crate::manager::{
    all_dead_grid, cell_of_char, char_of_cell, grid_of_text, interior_flat, is_cell_char, lemma_div_mod_bounds,
    lemma_flat_index_bounds, lemma_render_row_base, lemma_row_col, render_spec, run_spec,
    step_spec, text_wf, CellState,
};

verus! {

/// A freshly constructed grid is all dead, and its serialization is `h`
/// rows of `w` dots joined by newlines: dots at every cell position and a
/// newline after every row but the last.
pub proof fn lemma_new_grid_text(w: int, h: int)
    requires
        3 <= w,
        3 <= h,
    ensures
        ({
            let t = render_spec(all_dead_grid(w, h), w, h);
            &&& t.len() == h * (w + 1) - 1
            &&& forall|x: int, y: int|
                0 <= x < w && 0 <= y < h ==> #[trigger] t[y * (w + 1) + x] == '.'
            &&& forall|y: int| 0 <= y < h - 1 ==> #[trigger] t[y * (w + 1) + w] == '\n'
        }),
{
    let t = render_spec(all_dead_grid(w, h), w, h);
    assert(t.len() == h * (w + 1) - 1) by {
        assert(h * (w + 1) - 1 >= 1) by (nonlinear_arith)
            requires
                1 <= w && 1 <= h,
        ;
    }
    assert forall|x: int, y: int| 0 <= x < w && 0 <= y < h implies #[trigger] t[y * (w + 1) + x]
        == '.' by {
        lemma_render_row_base(w, h, y);
        lemma_row_col(w + 1, x, y);
        lemma_flat_index_bounds(w, h, x, y);
    }
    assert forall|y: int| 0 <= y < h - 1 implies #[trigger] t[y * (w + 1) + w] == '\n' by {
        assert(y * (w + 1) + w < h * (w + 1) - 1) by (nonlinear_arith)
            requires
                0 <= y < h - 1 && 1 <= w,
        ;
        lemma_row_col(w + 1, w, y);
    }
}

/// Round trip: serializing any well-formed grid yields a well-formed map
/// body, and parsing that body gives back the grid cell for cell.
pub proof fn lemma_text_round_trip(s: Seq<CellState>, w: int, h: int)
    requires
        1 <= w,
        1 <= h,
        s.len() == w * h,
    ensures
        text_wf(render_spec(s, w, h), w, h),
        grid_of_text(render_spec(s, w, h), w, h) == s,
{
    let t = render_spec(s, w, h);
    assert(t.len() == h * (w + 1) - 1) by {
        assert(h * (w + 1) - 1 >= 1) by (nonlinear_arith)
            requires
                1 <= w && 1 <= h,
        ;
    }
    assert forall|y: int| 0 <= y < h - 1 implies #[trigger] t[y * (w + 1) + w] == '\n' by {
        assert(y * (w + 1) + w < h * (w + 1) - 1) by (nonlinear_arith)
            requires
                0 <= y < h - 1 && 1 <= w,
        ;
        lemma_row_col(w + 1, w, y);
    }
    assert forall|x: int, y: int| 0 <= x < w && 0 <= y < h implies is_cell_char(
        #[trigger] t[y * (w + 1) + x],
    ) by {
        lemma_render_row_base(w, h, y);
        lemma_row_col(w + 1, x, y);
        lemma_flat_index_bounds(w, h, x, y);
    }
    assert(text_wf(t, w, h));
    let g = grid_of_text(t, w, h);
    assert forall|i: int| 0 <= i < w * h implies g[i] == s[i] by {
        assert(w * h == h * w) by (nonlinear_arith);
        lemma_div_mod_bounds(i, w, h);
        let x = i % w;
        let y = i / w;
        lemma_render_row_base(w, h, y);
        lemma_row_col(w + 1, x, y);
        lemma_flat_index_bounds(w, h, x, y);
        assert(t[y * (w + 1) + x] == char_of_cell(s[y * w + x]));
    }
    assert(g =~= s);
}

/// Border cells are never altered by a step: for any cell on the outermost
/// ring, the next generation carries its state over unchanged.
pub proof fn lemma_step_preserves_border(s: Seq<CellState>, w: int, h: int, x: int, y: int)
    requires
        3 <= w,
        3 <= h,
        s.len() == w * h,
        0 <= x < w,
        0 <= y < h,
        x == 0 || y == 0 || x == w - 1 || y == h - 1,
    ensures
        step_spec(s, w, h)[y * w + x] == s[y * w + x],
{
    lemma_flat_index_bounds(w, h, x, y);
    lemma_row_col(w, x, y);
    assert(!interior_flat(w, h, y * w + x));
}

/// Running zero steps changes nothing.
pub proof fn lemma_run_zero(s: Seq<CellState>, w: int, h: int)
    ensures
        run_spec(s, w, h, 0) == s,
{
}

} // verus!

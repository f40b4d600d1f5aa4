use vstd::prelude::*;
use crate::kanban::KanbanView;
use crate::pane_manager::{PaneView, trunc_div, initial_panes, divider_columns};
use crate::layout::{
    Glyph, is_highlighted, pane_column, title_column, frame_cells, vertical_cells, border_cells,
    status_text, status_column, prompt_text, byte_len,
};
use crate::input::PromptKind;

verus! {

/// Flattening `m` pieces of `w` cells each gives `m * w` cells, piece `a` at
/// `a * w .. a * w + w`.
proof fn lemma_flatten_uniform(f: spec_fn(int) -> Seq<(i32, i32, Glyph)>, m: nat, w: nat)
    requires
        forall|a: int| 0 <= a < m ==> #[trigger] f(a).len() == w,
    ensures
        Seq::new(m, f).flatten().len() == m * w,
        forall|a: int, x: int|
            0 <= a < m && 0 <= x < w ==> #[trigger] Seq::new(m, f).flatten()[a * w + x] == f(a)[x],
    decreases m,
{
    if m > 0 {
        let m1 = (m - 1) as nat;
        lemma_flatten_uniform(f, m1, w);
        assert(Seq::new(m, f) =~= Seq::new(m1, f).push(f(m1 as int)));
        Seq::new(m1, f).lemma_flatten_push(f(m1 as int));
        let prev = Seq::new(m1, f).flatten();
        let all = Seq::new(m, f).flatten();
        assert(all == prev + f(m1 as int));
        assert(m1 * w + w == m * w) by (nonlinear_arith)
            requires
                m1 + 1 == m,
        ;
        assert forall|a: int, x: int| 0 <= a < m && 0 <= x < w implies #[trigger] all[a * w + x]
            == f(a)[x] by {
            if a < m1 {
                assert(a * w + x < m1 * w) by (nonlinear_arith)
                    requires
                        0 <= a < m1,
                        0 <= x < w,
                ;
                assert(0 <= a * w) by (nonlinear_arith)
                    requires
                        0 <= a,
                ;
            } else {
                assert(a * w == m1 * w);
            }
        }
    }
}

/// The frame: every divider column gets its line down the rows above the status line
/// (`max(row_count - 1, 0)` of them), divider by divider; then every column from 0 to
/// `col_count` gets its bottom border character on the divider row and its top border
/// character on row 1, a tee and a cross where a divider stands and plain lines
/// elsewhere. Nothing else is drawn.
pub proof fn lemma_frame(p: PaneView)
    ensures
        ({
            let rows: int = if p.row_count - 1 > 0 { p.row_count - 1 } else { 0 };
            let cols: int = if p.col_count > 0 { p.col_count } else { 0 };
            let d = p.dividers.len() as int;
            &&& frame_cells(p) == vertical_cells(p) + border_cells(p)
            &&& vertical_cells(p).len() == d * rows
            &&& border_cells(p).len() == 2 * cols
            &&& forall|a: int, x: int|
                0 <= a < d && 0 <= x < rows ==> #[trigger] vertical_cells(p)[a * rows + x] == (
                    x as i32,
                    p.dividers[a],
                    Glyph::VLine,
                )
            &&& forall|i: int|
                0 <= i < cols ==> #[trigger] border_cells(p)[2 * i] == (
                    p.bottom_divider as i32,
                    i as i32,
                    if p.dividers.contains(i as i32) {
                        Glyph::BTee
                    } else {
                        Glyph::HLine
                    },
                ) && border_cells(p)[2 * i + 1] == (
                    1i32,
                    i as i32,
                    if p.dividers.contains(i as i32) {
                        Glyph::Plus
                    } else {
                        Glyph::HLine
                    },
                )
        }),
{
    let rows: int = if p.row_count - 1 > 0 { p.row_count - 1 } else { 0 };
    let cols: int = if p.col_count > 0 { p.col_count } else { 0 };
    let lines = |a: int| crate::layout::divider_line(p, a);
    let pairs = |i: int| crate::layout::border_pair(p, i);
    lemma_flatten_uniform(lines, p.dividers.len(), rows as nat);
    lemma_flatten_uniform(pairs, cols as nat, 2);
    assert(vertical_cells(p) == Seq::new(p.dividers.len(), lines).flatten());
    assert(border_cells(p) == Seq::new(cols as nat, pairs).flatten());
    assert forall|i: int| 0 <= i < cols implies #[trigger] border_cells(p)[2 * i] == (
        p.bottom_divider as i32,
        i as i32,
        if p.dividers.contains(i as i32) {
            Glyph::BTee
        } else {
            Glyph::HLine
        },
    ) && border_cells(p)[2 * i + 1] == (
        1i32,
        i as i32,
        if p.dividers.contains(i as i32) {
            Glyph::Plus
        } else {
            Glyph::HLine
        },
    ) by {
        assert(border_cells(p)[i * 2 + 0] == pairs(i)[0]);
        assert(border_cells(p)[i * 2 + 1] == pairs(i)[1]);
    }
}

/// Exactly the selected card is highlighted: card `num` of pane `pos` is highlighted
/// if and only if `pos` is the selected pane and `num` the selected card.
pub proof fn lemma_highlight(p: PaneView, pos: int, num: int)
    requires
        0 <= num,
    ensures
        is_highlighted(p, pos, num) <==> (pos == p.selected_pane && num == p.selected_item),
{
}

/// The cards of the first pane start in column 1; those of any later pane start two
/// columns right of the divider before it, pulled left by one column per pane before it.
pub proof fn lemma_pane_columns(p: PaneView, pos: int)
    requires
        1 <= pos <= p.dividers.len(),
    ensures
        pane_column(p, 0) == 1,
        pane_column(p, pos) == p.dividers[pos - 1] + 2 - pos,
{
}

/// The title of the first pane is centred in it; each later title, for titles of
/// the same length, stands one pane width further right, less one column.
pub proof fn lemma_titles(size: int, t: int, pos: int)
    requires
        1 <= pos,
    ensures
        title_column(0, size, t) == trunc_div(size, 2) - trunc_div(t, 2),
        title_column(1, size, t) - title_column(0, size, t) == size,
        title_column(pos + 1, size, t) - title_column(pos, size, t) == size - 1,
{
    assert((pos + 1) * size == pos * size + size) by (nonlinear_arith);
}

/// A fresh screen selects the first card, puts the bottom border two rows above the
/// last row, keeps the terminal size, and draws one divider fewer than there are lists.
pub proof fn lemma_fresh_screen(rows: int, cols: int, k: KanbanView)
    ensures
        initial_panes(rows, cols, k).selected_item == 0,
        initial_panes(rows, cols, k).bottom_divider == rows - 2,
        initial_panes(rows, cols, k).row_count == rows,
        initial_panes(rows, cols, k).col_count == cols,
        initial_panes(rows, cols, k).dividers.len() == (if k.lists.len() == 0 {
            0
        } else {
            k.lists.len() - 1
        }),
        0 <= initial_panes(rows, cols, k).selected_pane,
        k.lists.len() > 0 ==> initial_panes(rows, cols, k).selected_pane < k.lists.len(),
        (forall|j: int| 0 <= j < k.lists.len() ==> !#[trigger] crate::pane_manager::pane_filled(k, j))
            ==> initial_panes(rows, cols, k).selected_pane == 0,
{
    let p = crate::pane_manager::first_filled_pane(k);
    if exists|q: int| crate::pane_manager::is_first_filled(k, q) {
        assert(crate::pane_manager::is_first_filled(k, p));
    }
    assert(divider_columns(cols, k.lists.len()).len() == (if k.lists.len() == 0 {
        0
    } else {
        k.lists.len() - 1
    }));
}

/// The status line reads `Last Deleted: ` and the card, and is centred on the screen:
/// it starts half its width in bytes left of the middle column.
pub proof fn lemma_status_line(cols: int, card: Seq<char>)
    ensures
        status_text(card) == "Last Deleted: "@ + card,
        status_text(card).subrange(14, status_text(card).len() as int) == card,
        status_column(cols, status_text(card)) == trunc_div(cols, 2) - ((byte_len(
            status_text(card),
        ) / 2) as i32) as int,
{
    reveal_strlit("Last Deleted: ");
    assert(status_text(card).subrange(14, status_text(card).len() as int) =~= card);
}

/// The prompts read ` New item: ` and ` New list: `.
pub proof fn lemma_prompt_labels()
    ensures
        prompt_text(PromptKind::NewItem) == " New item: "@,
        prompt_text(PromptKind::NewList) == " New list: "@,
        prompt_text(PromptKind::NewItem) != prompt_text(PromptKind::NewList),
{
    reveal_strlit(" New item: ");
    reveal_strlit(" New list: ");
    assert(prompt_text(PromptKind::NewItem)[5] != prompt_text(PromptKind::NewList)[5]);
}

/// The dividers are equally spaced, whatever the sign of the width: there is one
/// fewer than the lists, the first stands one pane width in, and divider `i` stands
/// `i + 1` times as far.
pub proof fn lemma_dividers_spacing(cols: int, n: nat)
    requires
        n >= 1,
        i32::MIN <= cols <= i32::MAX,
    ensures
        divider_columns(cols, n).len() == n - 1,
        n >= 2 ==> divider_columns(cols, n)[0] == trunc_div(cols, n as int),
        forall|i: int|
            0 <= i < n - 1 ==> #[trigger] divider_columns(cols, n)[i] == (i + 1) * divider_columns(
                cols,
                n,
            )[0],
{
    let d = divider_columns(cols, n);
    assert forall|i: int| 0 <= i < n - 1 implies #[trigger] d[i] == (i + 1) * d[0] by {
        crate::pane_manager::lemma_divider_bound(cols, n as int, i);
        crate::pane_manager::lemma_divider_bound(cols, n as int, 0);
        let w = trunc_div(cols, n as int);
        assert(w * (i + 1) == (i + 1) * w) by (nonlinear_arith);
    }
}

} // verus!

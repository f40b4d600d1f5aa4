use vstd::prelude::*;
use crate::kanban::{Kanban, KanbanView, lemma_entry_index};
use crate::pane_manager::{PaneManager, PaneView, trunc_div};
use crate::input::PromptKind;

verus! {

/// A text to draw at a row and column, highlighted or not.
pub struct Placement {
    pub row: i32,
    pub col: i32,
    pub text: String,
    pub highlighted: bool,
}

impl View for Placement {
    type V = (int, int, Seq<char>, bool);

    open spec fn view(&self) -> (int, int, Seq<char>, bool) {
        (self.row as int, self.col as int, self.text@, self.highlighted)
    }
}

/// A box-drawing character of the frame.
#[derive(Clone, Copy, Debug, PartialEq, Eq, Structural)]
pub enum Glyph {
    VLine,
    HLine,
    BTee,
    Plus,
}

pub open spec fn in_i32(x: int) -> bool {
    i32::MIN <= x <= i32::MAX
}

/// The length in bytes of the UTF-8 encoding of `s`, as `str::len` counts it.
pub open spec fn byte_len(s: Seq<char>) -> int {
    (vstd::utf8::encode_utf8(s).len() as usize) as int
}

/// A byte length as the screen code reads it: cast to `i32`.
pub open spec fn len_i32(s: Seq<char>) -> int {
    (byte_len(s) as i32) as int
}

/// The column of the title of pane `pos`, centred in its pane of width `size`; each
/// pane after the first is pulled one column further left than the one before,
/// to make up for the dividers drawn between them.
pub open spec fn title_column(pos: int, size: int, title: int) -> int {
    if pos == 0 {
        trunc_div(size, 2) - trunc_div(title, 2)
    } else {
        pos * size + trunc_div(size, 2) - trunc_div(title, 2) - (pos - 1)
    }
}

/// Every step of `title_column` fits an `i32`.
pub open spec fn title_fits(pos: int, size: int, title: int) -> bool {
    if pos == 0 {
        in_i32(trunc_div(size, 2) - trunc_div(title, 2))
    } else {
        &&& in_i32(pos * size)
        &&& in_i32(pos * size + trunc_div(size, 2))
        &&& in_i32(pos * size + trunc_div(size, 2) - trunc_div(title, 2))
        &&& in_i32(pos * size + trunc_div(size, 2) - trunc_div(title, 2) - (pos - 1))
    }
}

/// The status line's text.
pub open spec fn status_text(last_deleted: Seq<char>) -> Seq<char> {
    "Last Deleted: "@ + last_deleted
}

/// The column of the status line: centred on the screen.
pub open spec fn status_column(cols: int, text: Seq<char>) -> int {
    trunc_div(cols, 2) - ((byte_len(text) / 2) as i32) as int
}

/// The width of a pane when `n` panes share the screen.
pub open spec fn pane_width(p: PaneView, k: KanbanView) -> int {
    trunc_div(p.col_count, k.lists.len() as int)
}

/// Drawing the titles needs at least one pane and `i32` room for every position.
pub open spec fn titles_drawable(p: PaneView, k: KanbanView) -> bool {
    &&& 0 < k.lists.len() <= i32::MAX
    &&& p.row_count > i32::MIN
    &&& forall|pos: int|
        0 <= pos < k.lists.len() ==> #[trigger] title_fits(
            pos,
            pane_width(p, k),
            len_i32(k.lists[pos]),
        )
    &&& in_i32(status_column(p.col_count, status_text(k.last_deleted)))
}

/// The leftmost text column of pane `pos`: just right of the divider before it,
/// pulled left by one column per pane before it.
pub open spec fn pane_column(p: PaneView, pos: int) -> int {
    if pos == 0 {
        1
    } else {
        p.dividers[pos - 1] + 2 - pos
    }
}

/// Whether card `num` of pane `pos` is the selected one.
pub open spec fn is_highlighted(p: PaneView, pos: int, num: int) -> bool {
    p.selected_item >= 0 && num == p.selected_item && p.selected_pane == pos
}

/// Drawing the cards needs every pane to resolve, a divider before each pane but the
/// first, and `i32` room for every position.
pub open spec fn cards_drawable(p: PaneView, k: KanbanView) -> bool {
    &&& k.well_formed()
    &&& k.lists.len() <= i32::MAX
    &&& k.lists.len() <= p.dividers.len() + 1
    &&& forall|pos: int|
        1 <= pos < k.lists.len() ==> in_i32(#[trigger] p.dividers[pos - 1] + 2) && in_i32(
            p.dividers[pos - 1] + 2 - pos,
        )
    &&& forall|pos: int|
        0 <= pos < k.lists.len() ==> #[trigger] k.pane_items(pos).len() <= i32::MAX - 1
}

/// The rows a divider is drawn down: those above the status line.
pub open spec fn row_span(p: PaneView) -> nat {
    if p.row_count - 1 > 0 {
        (p.row_count - 1) as nat
    } else {
        0
    }
}

/// The columns of the borders.
pub open spec fn col_span(p: PaneView) -> nat {
    if p.col_count > 0 {
        p.col_count as nat
    } else {
        0
    }
}

/// Divider `a` drawn down the rows above the status line.
pub open spec fn divider_line(p: PaneView, a: int) -> Seq<(i32, i32, Glyph)> {
    Seq::new(row_span(p), |x: int| (x as i32, p.dividers[a], Glyph::VLine))
}

/// The bottom and then the top border character of column `i`: a tee and a cross
/// where a divider stands, plain lines elsewhere.
pub open spec fn border_pair(p: PaneView, i: int) -> Seq<(i32, i32, Glyph)> {
    let on = p.dividers.contains(i as i32);
    seq![
        (p.bottom_divider as i32, i as i32, if on { Glyph::BTee } else { Glyph::HLine }),
        (1i32, i as i32, if on { Glyph::Plus } else { Glyph::HLine }),
    ]
}

/// The dividers, each drawn down the rows above the status line.
pub open spec fn vertical_cells(p: PaneView) -> Seq<(i32, i32, Glyph)> {
    Seq::new(p.dividers.len(), |a: int| divider_line(p, a)).flatten()
}

/// The borders, column by column.
pub open spec fn border_cells(p: PaneView) -> Seq<(i32, i32, Glyph)> {
    Seq::new(col_span(p), |i: int| border_pair(p, i)).flatten()
}

/// The frame in drawing order: the dividers, then the borders column by column.
pub open spec fn frame_cells(p: PaneView) -> Seq<(i32, i32, Glyph)> {
    vertical_cells(p) + border_cells(p)
}

/// The prompt's label.
pub open spec fn prompt_text(kind: PromptKind) -> Seq<char> {
    match kind {
        PromptKind::NewItem => " New item: "@,
        PromptKind::NewList => " New list: "@,
    }
}

/// The text of the status line for the last deleted card.
fn status_line(kanban: &Kanban) -> (s: String)
    ensures
        s@ == status_text(kanban@.last_deleted),
{
    let mut s = String::from_str("Last Deleted: ");
    s.append(kanban.last_deleted.name.as_str());
    s
}

/// The length in bytes of `s`, cast to `i32`.
fn byte_len_i32(s: &String) -> (r: i32)
    ensures
        r == len_i32(s@),
{
    s.as_str().len() as i32
}

/// The label of a prompt.
pub fn prompt_label(kind: PromptKind) -> (s: String)
    ensures
        s@ == prompt_text(kind),
{
    match kind {
        PromptKind::NewItem => String::from_str(" New item: "),
        PromptKind::NewList => String::from_str(" New list: "),
    }
}

impl PaneManager {
    /// Where the titles go: one per pane on the top row, then the status line with
    /// the last deleted card, centred on the bottom row.
    pub fn title_placements(&self, kanban: &Kanban) -> (v: Vec<Placement>)
        requires
            titles_drawable(self@, kanban@),
        ensures
            v@.len() == kanban@.lists.len() + 1,
            forall|pos: int|
                0 <= pos < kanban@.lists.len() ==> #[trigger] v@[pos]@ == (
                    0int,
                    title_column(pos, pane_width(self@, kanban@), len_i32(kanban@.lists[pos])),
                    kanban@.lists[pos],
                    false,
                ),
            v@[kanban@.lists.len() as int]@ == (
                self.row_count - 1,
                status_column(self.col_count as int, status_text(kanban@.last_deleted)),
                status_text(kanban@.last_deleted),
                false,
            ),
    {
        let n = kanban.lists.len();
        let size = self.col_count / (n as i32);
        assert(size == pane_width(self@, kanban@));
        let mut v: Vec<Placement> = Vec::new();
        let mut pos: usize = 0;
        while pos < n
            invariant
                n == kanban.lists.len(),
                titles_drawable(self@, kanban@),
                size == pane_width(self@, kanban@),
                pos <= n,
                v@.len() == pos,
                forall|q: int|
                    0 <= q < pos ==> #[trigger] v@[q]@ == (
                        0int,
                        title_column(q, size as int, len_i32(kanban@.lists[q])),
                        kanban@.lists[q],
                        false,
                    ),
            decreases n - pos,
        {
            let title = kanban.lists[pos].clone();
            let t = byte_len_i32(&title);
            assert(title_fits(pos as int, size as int, len_i32(kanban@.lists[pos as int])));
            let col: i32 = if pos == 0 {
                size / 2 - t / 2
            } else {
                (pos as i32) * size + size / 2 - t / 2 - (pos as i32 - 1)
            };
            v.push(Placement { row: 0, col, text: title, highlighted: false });
            pos = pos + 1;
        }
        let label = status_line(kanban);
        let col = self.col_count / 2 - (label.as_str().len() / 2) as i32;
        let row = self.row_count - 1;
        v.push(Placement { row, col, text: label, highlighted: false });
        v
    }

    /// Where the cards go: pane by pane, card `num` on row `num + 2` at the pane's
    /// column, the selected card highlighted.
    pub fn item_placements(&self, kanban: &Kanban) -> (v: Vec<Vec<Placement>>)
        requires
            cards_drawable(self@, kanban@),
        ensures
            v@.len() == kanban@.lists.len(),
            forall|pos: int|
                0 <= pos < kanban@.lists.len() ==> #[trigger] v@[pos]@.len() == kanban@.pane_items(
                    pos,
                ).len(),
            forall|pos: int, num: int|
                0 <= pos < kanban@.lists.len() && 0 <= num < kanban@.pane_items(pos).len()
                    ==> #[trigger] v@[pos]@[num]@ == (
                    num + 2,
                    pane_column(self@, pos),
                    kanban@.pane_items(pos)[num],
                    is_highlighted(self@, pos, num),
                ),
            forall|pos: int, num: int|
                0 <= pos < kanban@.lists.len() && 0 <= num < kanban@.pane_items(pos).len()
                    ==> (#[trigger] v@[pos]@[num]).highlighted == (pos == self.selected_pane
                    && num == self.selected_item),
    {
        let n = kanban.lists.len();
        let mut v: Vec<Vec<Placement>> = Vec::new();
        let mut pos: usize = 0;
        while pos < n
            invariant
                n == kanban.lists.len(),
                cards_drawable(self@, kanban@),
                pos <= n,
                v@.len() == pos,
                forall|q: int|
                    0 <= q < pos ==> #[trigger] v@[q]@.len() == kanban@.pane_items(q).len(),
                forall|q: int, num: int|
                    0 <= q < pos && 0 <= num < kanban@.pane_items(q).len() ==> #[trigger] v@[q]@[num]@
                        == (
                        num + 2,
                        pane_column(self@, q),
                        kanban@.pane_items(q)[num],
                        is_highlighted(self@, q, num),
                    ),
            decreases n - pos,
        {
            assert(kanban@.pane_resolved(pos as int));
            let kidx = match kanban.find_list(&kanban.lists[pos]) {
                Some(kidx) => kidx,
                None => {
                    assert(kanban@.lists[pos as int] == kanban.lists@[pos as int]@);
                    assert(false);
                    0
                },
            };
            proof {
                lemma_entry_index(kanban@, kidx as int);
            }
            let current_col: i32 = if pos == 0 {
                1
            } else {
                assert(in_i32(self@.dividers[pos - 1] + 2));
                self.vertical_dividers[pos - 1] + 2
            };
            assert(in_i32(current_col - pos));
            let col = current_col - pos as i32;
            assert(col == pane_column(self@, pos as int));
            let len = kanban.list_items[kidx].items.len();
            assert(kanban@.pane_items(pos as int).len() <= i32::MAX - 1);
            assert(kanban@.pane_items(pos as int) == kanban.list_items@[kidx as int].item_names());
            assert(len <= i32::MAX - 1);
            let mut row: Vec<Placement> = Vec::new();
            let mut num: usize = 0;
            while num < len
                invariant
                    n == kanban.lists.len(),
                    n <= i32::MAX,
                    pos < n,
                    kidx < kanban.list_items.len(),
                    kanban@.pane_items(pos as int) == kanban.list_items@[kidx as int].item_names(),
                    kidx == kanban@.entry_index(kanban@.lists[pos as int]),
                    len == kanban.list_items@[kidx as int].items.len(),
                    len <= i32::MAX - 1,
                    col == pane_column(self@, pos as int),
                    num <= len,
                    row@.len() == num,
                    forall|m: int|
                        0 <= m < num ==> #[trigger] row@[m]@ == (
                            m + 2,
                            pane_column(self@, pos as int),
                            kanban@.pane_items(pos as int)[m],
                            is_highlighted(self@, pos as int, m),
                        ),
                decreases len - num,
            {
                let text = kanban.list_items[kidx].items[num].name.clone();
                assert(text@ == kanban@.pane_items(pos as int)[num as int]);
                let highlighted = self.selected_item >= 0 && num == self.selected_item as usize
                    && self.selected_pane == pos as i32;
                row.push(Placement { row: num as i32 + 2, col, text, highlighted });
                num = num + 1;
            }
            v.push(row);
            pos = pos + 1;
        }
        assert forall|q: int, num: int|
            0 <= q < kanban@.lists.len() && 0 <= num < kanban@.pane_items(q).len() implies (
            #[trigger] v@[q]@[num]).highlighted == (q == self.selected_pane && num
                == self.selected_item) by {
            assert(v@[q]@[num]@.3 == is_highlighted(self@, q, num));
        }
        v
    }

    /// The frame, cell by cell in drawing order: first each divider drawn down the
    /// rows above the status line, then, column by column, the bottom and top border
    /// characters; and where the border cells start. The cursor goes to the start of
    /// the bottom border (`bottom_divider`, 0) before the borders are drawn.
    pub fn frame_placements(&self) -> (r: (Vec<(i32, i32, Glyph)>, usize))
        requires
            self.row_count > i32::MIN,
        ensures
            r.0@ == frame_cells(self@),
            r.1 == vertical_cells(self@).len(),
    {
        let ghost p = self@;
        let ghost lines = |j: int| divider_line(p, j);
        let ghost pairs = |i: int| border_pair(p, i);
        let mut v: Vec<(i32, i32, Glyph)> = Vec::new();
        let nd = self.vertical_dividers.len();
        let rows = self.row_count - 1;
        let mut a: usize = 0;
        while a < nd
            invariant
                p == self@,
                lines == (|j: int| divider_line(p, j)),
                nd == self.vertical_dividers.len(),
                rows == self.row_count - 1,
                a <= nd,
                v@ == Seq::new(a as nat, lines).flatten(),
            decreases nd - a,
        {
            let col = self.vertical_dividers[a];
            let ghost before = v@;
            let mut x: i32 = 0;
            while x < rows
                invariant
                    p == self@,
                    rows == self.row_count - 1,
                    a < nd,
                    nd == self.vertical_dividers.len(),
                    col == p.dividers[a as int],
                    0 <= x,
                    rows >= 0 ==> x <= rows,
                    rows < 0 ==> x == 0,
                    v@ == before + divider_line(p, a as int).take(x as int),
                decreases rows - x,
            {
                v.push((x, col, Glyph::VLine));
                proof {
                    assert(divider_line(p, a as int).take(x + 1) =~= divider_line(p, a as int).take(
                        x as int,
                    ).push((x, col, Glyph::VLine)));
                }
                x = x + 1;
            }
            proof {
                assert(divider_line(p, a as int).take(x as int) =~= divider_line(p, a as int));
                assert(Seq::new((a + 1) as nat, lines) =~= Seq::new(a as nat, lines).push(
                    lines(a as int),
                ));
                Seq::new(a as nat, lines).lemma_flatten_push(lines(a as int));
            }
            a = a + 1;
        }
        let ghost verticals = v@;
        assert(verticals == Seq::new(p.dividers.len(), lines).flatten());
        let borders_at = v.len();
        let cols = self.col_count;
        let mut i: i32 = 0;
        while i < cols
            invariant
                p == self@,
                pairs == (|i: int| border_pair(p, i)),
                cols == self.col_count,
                0 <= i,
                cols >= 0 ==> i <= cols,
                cols < 0 ==> i == 0,
                v@ == verticals + Seq::new(i as nat, pairs).flatten(),
            decreases cols - i,
        {
            let (bottom, top) = self.border_glyphs(i);
            v.push((self.bottom_divider, i, bottom));
            v.push((1, i, top));
            proof {
                assert(pairs(i as int) =~= seq![(self.bottom_divider, i, bottom), (1i32, i, top)]);
                assert(Seq::new((i + 1) as nat, pairs) =~= Seq::new(i as nat, pairs).push(
                    pairs(i as int),
                ));
                Seq::new(i as nat, pairs).lemma_flatten_push(pairs(i as int));
            }
            i = i + 1;
        }
        assert(Seq::new(col_span(p), pairs) =~= Seq::new(i as nat, pairs));
        (v, borders_at)
    }

    /// The frame characters at column `col`: on the bottom and top borders, a tee
    /// and a cross where a divider meets them, plain lines elsewhere.
    fn border_glyphs(&self, col: i32) -> (g: (Glyph, Glyph))
        ensures
            g == (if self@.dividers.contains(col) {
                (Glyph::BTee, Glyph::Plus)
            } else {
                (Glyph::HLine, Glyph::HLine)
            }),
    {
        let n = self.vertical_dividers.len();
        let mut i: usize = 0;
        while i < n
            invariant
                n == self.vertical_dividers.len(),
                i <= n,
                forall|j: int| 0 <= j < i ==> #[trigger] self@.dividers[j] != col,
            decreases n - i,
        {
            if self.vertical_dividers[i] == col {
                assert(self@.dividers[i as int] == col);
                return (Glyph::BTee, Glyph::Plus);
            }
            i = i + 1;
        }
        (Glyph::HLine, Glyph::HLine)
    }

    /// The prompt line while a name is typed: the label and the text typed so far, at
    /// the start of the bottom row.
    pub fn prompt_placement(&self, kind: PromptKind, text: &String) -> (pl: Placement)
        requires
            self.row_count > i32::MIN,
        ensures
            pl@ == (self.row_count - 1, 0int, prompt_text(kind) + text@, false),
    {
        let mut line = prompt_label(kind);
        line.append(text.as_str());
        Placement { row: self.row_count - 1, col: 0, text: line, highlighted: false }
    }

    /// Where the cursor stands while a prompt is typed: on the bottom row, just after
    /// the label and the text typed so far.
    pub fn prompt_cursor(&self, label: &String, text: &String) -> (rc: (i32, i32))
        requires
            self.row_count > i32::MIN,
            byte_len(label@) + byte_len(text@) <= usize::MAX,
        ensures
            rc == (
                (self.row_count - 1) as i32,
                ((byte_len(text@) + byte_len(label@)) as i32),
            ),
    {
        let sum = text.as_str().len() + label.as_str().len();
        (self.row_count - 1, sum as i32)
    }
}

/// Whether `x` fits an `i32`.
fn fits_i32(x: i64) -> (b: bool)
    ensures
        b == in_i32(x as int),
{
    -2147483648 <= x && x <= 2147483647
}

impl PaneManager {
    /// Whether `title_placements` may be called: there is a pane, and every position
    /// fits an `i32`.
    pub fn can_place_titles(&self, kanban: &Kanban) -> (b: bool)
        ensures
            b == titles_drawable(self@, kanban@),
    {
        let n = kanban.lists.len();
        if n == 0 || n > 2147483647 || self.row_count == i32::MIN {
            return false;
        }
        let size = self.col_count / (n as i32);
        assert(size == pane_width(self@, kanban@));
        let half = (size / 2) as i64;
        let mut pos: usize = 0;
        while pos < n
            invariant
                n == kanban.lists.len(),
                0 < n <= i32::MAX,
                size == pane_width(self@, kanban@),
                half == trunc_div(size as int, 2),
                pos <= n,
                forall|q: int|
                    0 <= q < pos ==> #[trigger] title_fits(
                        q,
                        pane_width(self@, kanban@),
                        len_i32(kanban@.lists[q]),
                    ),
            decreases n - pos,
        {
            let tl = byte_len_i32(&kanban.lists[pos]);
            let t = (tl / 2) as i64;
            assert(t == trunc_div(len_i32(kanban@.lists[pos as int]), 2));
            if pos == 0 {
                if !fits_i32(half - t) {
                    assert(!title_fits(pos as int, pane_width(self@, kanban@), len_i32(kanban@.lists[pos as int])));
                    return false;
                }
            } else {
                assert(-2147483648 * 2147483648 <= pos * size <= 2147483648 * 2147483648) by (nonlinear_arith)
                    requires
                        0 <= pos <= 2147483647,
                        -2147483648 <= size <= 2147483647,
                ;
                let base = (pos as i64) * (size as i64);
                let p = pos as i64;
                if !fits_i32(base) || !fits_i32(base + half) || !fits_i32(base + half - t)
                    || !fits_i32(base + half - t - (p - 1)) {
                    assert(!title_fits(pos as int, pane_width(self@, kanban@), len_i32(kanban@.lists[pos as int])));
                    return false;
                }
            }
            pos = pos + 1;
        }
        let label = status_line(kanban);
        let col = (self.col_count / 2) as i64 - ((label.as_str().len() / 2) as i32) as i64;
        fits_i32(col)
    }

    /// Whether `item_placements` may be called: the board is well formed, there is a
    /// divider before each pane but the first, and every position fits an `i32`.
    pub fn can_place_cards(&self, kanban: &Kanban) -> (b: bool)
        ensures
            b == cards_drawable(self@, kanban@),
    {
        if !kanban.is_well_formed() {
            return false;
        }
        let n = kanban.lists.len();
        if n > 2147483647 || (n > 0 && n - 1 > self.vertical_dividers.len()) {
            return false;
        }
        let mut pos: usize = 0;
        while pos < n
            invariant
                n == kanban.lists.len(),
                n <= i32::MAX,
                n <= self@.dividers.len() + 1,
                kanban@.well_formed(),
                pos <= n,
                forall|q: int|
                    1 <= q < pos ==> in_i32(#[trigger] self@.dividers[q - 1] + 2) && in_i32(
                        self@.dividers[q - 1] + 2 - q,
                    ),
                forall|q: int| 0 <= q < pos ==> #[trigger] kanban@.pane_items(q).len() <= i32::MAX - 1,
            decreases n - pos,
        {
            if pos >= 1 {
                let d = self.vertical_dividers[pos - 1] as i64;
                if !fits_i32(d + 2) || !fits_i32(d + 2 - pos as i64) {
                    return false;
                }
            }
            assert(kanban@.pane_resolved(pos as int));
            let kidx = match kanban.find_list(&kanban.lists[pos]) {
                Some(kidx) => kidx,
                None => {
                    assert(kanban@.lists[pos as int] == kanban.lists@[pos as int]@);
                    assert(false);
                    0
                },
            };
            proof {
                lemma_entry_index(kanban@, kidx as int);
            }
            assert(kanban@.pane_items(pos as int) == kanban.list_items@[kidx as int].item_names());
            if kanban.list_items[kidx].items.len() >= 2147483647 {
                return false;
            }
            pos = pos + 1;
        }
        true
    }
}

} // verus!

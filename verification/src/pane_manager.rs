use vstd::prelude::*;
use crate::kanban::{Kanban, KanbanView};

verus! {

/// The screen state: where the dividers between panes stand, which pane and which
/// card are selected, and the size of the terminal.
pub struct PaneManager {
    pub vertical_dividers: Vec<i32>,
    pub selected_pane: i32,
    pub selected_item: i32,
    pub bottom_divider: i32,
    pub row_count: i32,
    pub col_count: i32,
}

/// The mathematical model of the screen state.
pub struct PaneView {
    pub dividers: Seq<i32>,
    pub selected_pane: int,
    pub selected_item: int,
    pub bottom_divider: int,
    pub row_count: int,
    pub col_count: int,
}

impl View for PaneManager {
    type V = PaneView;

    open spec fn view(&self) -> PaneView {
        PaneView {
            dividers: self.vertical_dividers@,
            selected_pane: self.selected_pane as int,
            selected_item: self.selected_item as int,
            bottom_divider: self.bottom_divider as int,
            row_count: self.row_count as int,
            col_count: self.col_count as int,
        }
    }
}

impl PaneView {
    /// The same screen with pane `pane` and card `item` selected.
    pub open spec fn select(self, pane: int, item: int) -> PaneView {
        PaneView {
            dividers: self.dividers,
            selected_pane: pane,
            selected_item: item,
            bottom_divider: self.bottom_divider,
            row_count: self.row_count,
            col_count: self.col_count,
        }
    }

    /// The same screen with dividers for `n` equal panes.
    pub open spec fn with_dividers_for(self, n: nat) -> PaneView {
        PaneView {
            dividers: divider_columns(self.col_count, n),
            selected_pane: self.selected_pane,
            selected_item: self.selected_item,
            bottom_divider: self.bottom_divider,
            row_count: self.row_count,
            col_count: self.col_count,
        }
    }
}

/// Integer division rounding toward zero, as `/` on machine integers does.
pub open spec fn trunc_div(a: int, b: int) -> int {
    if a >= 0 {
        a / b
    } else {
        -((-a) / b)
    }
}

/// The columns of the dividers between `n` equal panes across `cols` columns:
/// one after each pane but the last, at multiples of the pane width.
pub open spec fn divider_columns(cols: int, n: nat) -> Seq<i32> {
    Seq::new(
        if n == 0 { 0 } else { (n - 1) as nat },
        |i: int| (trunc_div(cols, n as int) * (i + 1)) as i32,
    )
}

/// A pane holding at least one card.
pub open spec fn pane_filled(k: KanbanView, pane: int) -> bool {
    k.pane_resolved(pane) && k.pane_items(pane).len() > 0
}

/// `pane` is the first pane that holds a card.
pub open spec fn is_first_filled(k: KanbanView, pane: int) -> bool {
    &&& 0 <= pane < k.lists.len()
    &&& pane_filled(k, pane)
    &&& forall|j: int| 0 <= j < pane ==> !#[trigger] pane_filled(k, j)
}

/// The pane selected on a fresh screen: the first that holds a card, else the first.
pub open spec fn first_filled_pane(k: KanbanView) -> int {
    if exists|p: int| is_first_filled(k, p) {
        choose|p: int| is_first_filled(k, p)
    } else {
        0
    }
}

/// The screen as it is set up for board `k` on a terminal of `rows` by `cols`.
pub open spec fn initial_panes(rows: int, cols: int, k: KanbanView) -> PaneView {
    PaneView {
        dividers: divider_columns(cols, k.lists.len()),
        selected_pane: first_filled_pane(k),
        selected_item: 0,
        bottom_divider: rows - 2,
        row_count: rows,
        col_count: cols,
    }
}

/// The panes before `pane` all resolve and hold no card.
pub open spec fn panes_empty_before(k: KanbanView, pane: int) -> bool {
    forall|j: int| 0 <= j < pane ==> #[trigger] k.pane_resolved(j) && k.pane_items(j).len() == 0
}

/// Setting up a screen reads the panes from the first up to the first that holds a
/// card; each of those must resolve to an entry of the table.
pub open spec fn scan_resolves(k: KanbanView) -> bool {
    forall|i: int|
        0 <= i < k.lists.len() && panes_empty_before(k, i) ==> #[trigger] k.pane_resolved(i)
}

proof fn lemma_first_unique(k: KanbanView, p: int, q: int)
    requires
        is_first_filled(k, p),
        is_first_filled(k, q),
    ensures
        p == q,
{
    if p < q {
        assert(pane_filled(k, p));
    } else if q < p {
        assert(pane_filled(k, q));
    }
}

/// Each divider column fits an `i32`: it is at most `cols` in size.
pub proof fn lemma_divider_bound(cols: int, n: int, i: int)
    requires
        n >= 2,
        0 <= i < n - 1,
        i32::MIN <= cols <= i32::MAX,
    ensures
        i32::MIN <= trunc_div(cols, n) * (i + 1) <= i32::MAX,
        i32::MIN <= trunc_div(cols, n),
{
    if cols >= 0 {
        let q = cols / n;
        assert(0 <= q * n <= cols) by (nonlinear_arith)
            requires
                q == cols / n,
                n >= 2,
                cols >= 0,
        ;
        assert(0 <= q * (i + 1) <= q * n) by (nonlinear_arith)
            requires
                0 <= q,
                0 <= i + 1 <= n,
        ;
    } else {
        let q = (-cols) / n;
        assert(0 <= q * n <= -cols) by (nonlinear_arith)
            requires
                q == (-cols) / n,
                n >= 2,
                -cols > 0,
        ;
        assert(0 <= q * (i + 1) <= q * n) by (nonlinear_arith)
            requires
                0 <= q,
                0 <= i + 1 <= n,
        ;
        assert(-q * (i + 1) == -(q * (i + 1))) by (nonlinear_arith);
    }
}

/// The dividers for `n` equal panes across `cols` columns, as laid out on screen.
fn compute_dividers(cols: i32, n: usize) -> (v: Vec<i32>)
    requires
        n <= i32::MAX,
    ensures
        v@ == divider_columns(cols as int, n as nat),
{
    let mut v: Vec<i32> = Vec::new();
    let count: i32 = n as i32 - 1;
    let mut i: i32 = 0;
    while i < count
        invariant
            n <= i32::MAX,
            count == n - 1,
            0 <= i,
            count >= 0 ==> i <= count,
            count < 0 ==> i == 0,
            v@.len() == i,
            forall|j: int| 0 <= j < i ==> #[trigger] v@[j] == divider_columns(cols as int, n as nat)[j],
        decreases count - i,
    {
        proof {
            lemma_divider_bound(cols as int, n as int, i as int);
        }
        let width = cols / (n as i32);
        assert(width == trunc_div(cols as int, n as int));
        let col = width * (i + 1);
        v.push(col);
        i = i + 1;
    }
    assert(v@ =~= divider_columns(cols as int, n as nat));
    v
}

impl PaneManager {
    /// Sets up the screen for `kanban` on a terminal of `row_count` rows and
    /// `col_count` columns: the first pane holding a card is selected (else the first
    /// pane), its first card is selected, and the dividers split the width into
    /// equal panes.
    pub fn new(row_count: i32, col_count: i32, kanban: &Kanban) -> (pm: PaneManager)
        requires
            row_count >= i32::MIN + 2,
            kanban@.lists.len() <= i32::MAX,
            kanban@.keys_distinct(),
            scan_resolves(kanban@),
        ensures
            pm@ == initial_panes(row_count as int, col_count as int, kanban@),
    {
        let ghost k = kanban@;
        let n = kanban.lists.len();
        let mut selected: i32 = 0;
        let mut pos: usize = 0;
        let mut found = false;
        while pos < n && !found
            invariant
                k == kanban@,
                n == kanban.lists.len(),
                n <= i32::MAX,
                k.keys_distinct(),
                scan_resolves(k),
                pos <= n,
                !found ==> selected == 0,
                !found ==> panes_empty_before(k, pos as int),
                found ==> is_first_filled(k, selected as int),
            decreases n - pos + (if found { 0int } else { 1int }),
        {
            assert(k.pane_resolved(pos as int));
            let e = kanban.find_list(&kanban.lists[pos]);
            let kidx = match e {
                Some(kidx) => kidx,
                None => {
                    assert(k.lists[pos as int] == kanban.lists@[pos as int]@);
                    assert(false);
                    0
                },
            };
            proof {
                crate::kanban::lemma_entry_index(k, kidx as int);
            }
            if kanban.list_items[kidx].items.len() > 0 {
                selected = pos as i32;
                found = true;
                assert forall|j: int| 0 <= j < pos implies !#[trigger] pane_filled(k, j) by {}
                assert(is_first_filled(k, selected as int));
            } else {
                pos = pos + 1;
            }
        }
        proof {
            if found {
                assert(exists|p: int| is_first_filled(k, p));
                lemma_first_unique(k, selected as int, first_filled_pane(k));
            } else {
                assert(pos == n);
                if exists|p: int| is_first_filled(k, p) {
                    let p = choose|p: int| is_first_filled(k, p);
                    assert(k.pane_resolved(p) && k.pane_items(p).len() == 0);
                }
            }
        }
        let pm = PaneManager {
            vertical_dividers: compute_dividers(col_count, n),
            selected_pane: selected,
            selected_item: 0,
            bottom_divider: row_count - 2,
            row_count,
            col_count,
        };
        pm
    }

    /// Recomputes the dividers for the current number of lists; nothing else changes.
    pub fn recompute_dividers(&mut self, kanban: &mut Kanban)
        requires
            old(kanban)@.lists.len() <= i32::MAX,
        ensures
            final(self)@ == old(self)@.with_dividers_for(old(kanban)@.lists.len()),
            *final(kanban) == *old(kanban),
    {
        let v = compute_dividers(self.col_count, kanban.lists.len());
        self.vertical_dividers = v;
    }
}

} // verus!

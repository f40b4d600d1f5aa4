use vstd::prelude::*;
use vstd::multiset::Multiset;
use crate::kanban::{KanbanView, swap_adjacent, lemma_entry_index, lemma_set_items};
use crate::pane_manager::{
    PaneView, divider_columns, initial_panes, trunc_div, lemma_divider_bound, pane_filled,
    is_first_filled, first_filled_pane,
};
use crate::input::{Key, PromptKind, Reaction, canonical, step, step_defined, finish, finish_defined};

verus! {

/// The name of pane `pane` is shown by no other pane.
pub open spec fn pane_name_unique(k: KanbanView, pane: int) -> bool {
    forall|j: int| 0 <= j < k.lists.len() && j != pane ==> #[trigger] k.lists[j] != k.lists[pane]
}

/// The selection points at a card of a pane that exists.
pub open spec fn selection_valid(p: PaneView, k: KanbanView) -> bool {
    &&& k.pane_resolved(p.selected_pane)
    &&& 0 <= p.selected_item < k.pane_items(p.selected_pane).len()
}

/// The keys that only move the selection: the arrows and `h`, `j`, `k`, `l`.
pub open spec fn is_navigation(key: Key) -> bool {
    match canonical(key) {
        Key::Left | Key::Right | Key::Up | Key::Down => true,
        _ => false,
    }
}

/// The keys that move the selection or the selected card.
pub open spec fn is_move(key: Key) -> bool {
    ||| is_navigation(key)
    ||| key == Key::Char('w')
    ||| key == Key::Char('s')
    ||| key == Key::Char('a')
    ||| key == Key::Char('d')
}

/// Well-formedness survives filing new cards under a name that has an entry.
proof fn lemma_set_items_well_formed(k: KanbanView, name: Seq<char>, items: Seq<Seq<char>>)
    requires
        k.well_formed(),
        k.has_entry(name),
    ensures
        k.set_items(name, items).well_formed(),
{
    lemma_set_items(k, name, items);
    let w = k.set_items(name, items);
    assert forall|i: int| 0 <= i < w.lists.len() implies #[trigger] w.pane_resolved(i) by {
        assert(k.pane_resolved(i));
    }
}

/// Removing a pane whose name no other pane shows keeps the board well formed.
proof fn lemma_remove_pane_well_formed(k: KanbanView, pane: int)
    requires
        k.well_formed(),
        0 <= pane < k.lists.len(),
        pane_name_unique(k, pane),
    ensures
        k.remove_pane(pane).well_formed(),
{
    let name = k.lists[pane];
    assert(k.pane_resolved(pane));
    let r = k.entry_index(name);
    assert(k.entries[r].0 == name);
    let w = k.remove_pane(pane);
    assert forall|a: int, b: int|
        0 <= a < w.entries.len() && 0 <= b < w.entries.len() && a != b implies #[trigger] w.entries[a].0
            != #[trigger] w.entries[b].0 by {
        let a0 = if a < r { a } else { a + 1 };
        let b0 = if b < r { b } else { b + 1 };
        assert(w.entries[a] == k.entries[a0]);
        assert(w.entries[b] == k.entries[b0]);
        assert(k.entries[a0].0 != k.entries[b0].0);
    }
    assert forall|i: int| 0 <= i < w.lists.len() implies #[trigger] w.pane_resolved(i) by {
        let i0 = if i < pane { i } else { i + 1 };
        assert(w.lists[i] == k.lists[i0]);
        assert(k.pane_resolved(i0));
        let x = k.lists[i0];
        assert(x != name);
        let j = k.entry_index(x);
        assert(k.entries[j].0 == x);
        assert(j != r);
        let j1 = if j < r { j } else { j - 1 };
        assert(w.entries[j1] == k.entries[j]);
        assert(w.entries[j1].0 == x);
    }
}

/// Adding a list keeps the board well formed.
proof fn lemma_add_list_well_formed(k: KanbanView, name: Seq<char>)
    requires
        k.well_formed(),
    ensures
        k.add_list(name).well_formed(),
        k.add_list(name).has_entry(name),
        k.add_list(name).items_of(name) == Seq::<Seq<char>>::empty(),
{
    let w = k.add_list(name);
    if k.has_entry(name) {
        let r = k.entry_index(name);
        assert(k.entries[r].0 == name);
        assert(w.entries[r].0 == name);
        assert forall|a: int, b: int|
            0 <= a < w.entries.len() && 0 <= b < w.entries.len() && a != b implies #[trigger] w.entries[a].0
                != #[trigger] w.entries[b].0 by {
            assert(w.entries[a].0 == k.entries[a].0);
            assert(w.entries[b].0 == k.entries[b].0);
        }
        assert forall|i: int| 0 <= i < w.lists.len() implies #[trigger] w.pane_resolved(i) by {
            if i < k.lists.len() {
                assert(k.pane_resolved(i));
                let j = k.entry_index(k.lists[i]);
                assert(k.entries[j].0 == k.lists[i]);
                assert(w.entries[j].0 == k.lists[i]);
            } else {
                assert(w.lists[i] == name);
            }
        }
        lemma_entry_index(w, r);
    } else {
        let r = k.entries.len() as int;
        assert(w.entries[r].0 == name);
        assert forall|a: int, b: int|
            0 <= a < w.entries.len() && 0 <= b < w.entries.len() && a != b implies #[trigger] w.entries[a].0
                != #[trigger] w.entries[b].0 by {
            if a < r && b < r {
                assert(w.entries[a].0 == k.entries[a].0);
                assert(w.entries[b].0 == k.entries[b].0);
            } else if a < r {
                assert(w.entries[a].0 == k.entries[a].0);
            } else {
                assert(w.entries[b].0 == k.entries[b].0);
            }
        }
        assert forall|i: int| 0 <= i < w.lists.len() implies #[trigger] w.pane_resolved(i) by {
            if i < k.lists.len() {
                assert(k.pane_resolved(i));
                let j = k.entry_index(k.lists[i]);
                assert(k.entries[j].0 == k.lists[i]);
                assert(w.entries[j].0 == k.lists[i]);
            } else {
                assert(w.lists[i] == name);
            }
        }
        lemma_entry_index(w, r);
    }
}

/// Every key keeps a well-formed board well formed, except `X` on a list whose name
/// another pane also shows: then that pane is left without its entry.
pub proof fn lemma_step_keeps_well_formed(p: PaneView, k: KanbanView, key: Key)
    requires
        k.well_formed(),
        step_defined(p, k, key),
        key == Key::Char('X') && k.lists.len() > 1 ==> pane_name_unique(k, p.selected_pane),
    ensures
        step(p, k, key).1.well_formed(),
{
    let sp = p.selected_pane;
    let si = p.selected_item;
    let n = k.lists.len() as int;
    match canonical(key) {
        Key::Char(c) => {
            assert(key == Key::Char(c));
            if c == 'x' {
                if k.pane_items(sp).len() > 0 {
                    lemma_set_items_well_formed(k, k.lists[sp], k.pane_items(sp).remove(si));
                    let w = k.set_items(k.lists[sp], k.pane_items(sp).remove(si));
                    let w2 = w.with_last_deleted(k.pane_items(sp)[si]);
                    assert forall|i: int| 0 <= i < w2.lists.len() implies #[trigger] w2.pane_resolved(i) by {
                        assert(w.pane_resolved(i));
                        let j = w.entry_index(w.lists[i]);
                        assert(w.entries[j].0 == w.lists[i]);
                        assert(w2.entries[j].0 == w2.lists[i]);
                    }
                }
                assert(step(p, k, key).1.well_formed());
            } else if c == 'X' {
                if n > 1 {
                    lemma_remove_pane_well_formed(k, sp);
                }
                assert(step(p, k, key).1.well_formed());
            } else if c == 'w' {
                if si > 0 {
                    lemma_set_items_well_formed(k, k.lists[sp], swap_adjacent(k.pane_items(sp), si - 1));
                }
                assert(step(p, k, key).1.well_formed());
            } else if c == 's' {
                if si < k.pane_items(sp).len() - 1 {
                    lemma_set_items_well_formed(k, k.lists[sp], swap_adjacent(k.pane_items(sp), si));
                }
                assert(step(p, k, key).1.well_formed());
            } else if (c == 'a' && sp != 0) || (c == 'd' && sp != n - 1) {
                let dest = if c == 'a' { sp - 1 } else { sp + 1 };
                let k1 = k.set_items(k.lists[sp], k.pane_items(sp).remove(si));
                lemma_set_items(k, k.lists[sp], k.pane_items(sp).remove(si));
                lemma_set_items_well_formed(k, k.lists[sp], k.pane_items(sp).remove(si));
                assert(k.pane_resolved(dest));
                assert(k1.has_entry(k.lists[dest]));
                lemma_set_items_well_formed(k1, k.lists[dest], k1.pane_items(dest).push(k.pane_items(sp)[si]));
                assert(step(p, k, key).1.well_formed());
            } else {
                assert(step(p, k, key).1 == k);
            }
            assert(step(p, k, key).1.well_formed());
        },
        _ => {
            assert(step(p, k, key).1 == k);
        },
    }
}

/// Finishing a prompt keeps a well-formed board well formed.
pub proof fn lemma_finish_keeps_well_formed(p: PaneView, k: KanbanView, kind: PromptKind, text: Seq<char>)
    requires
        k.well_formed(),
        finish_defined(k, kind),
    ensures
        finish(p, k, kind, text).1.well_formed(),
{
    match kind {
        PromptKind::NewItem => {
            lemma_set_items_well_formed(k, k.lists[0], k.pane_items(0).push(text));
        },
        PromptKind::NewList => {
            lemma_add_list_well_formed(k, text);
        },
    }
}

/// A card moved up and then down again (or down and then up) is back where it was,
/// with the same selection: `w` and `s` undo each other.
pub proof fn lemma_raise_lower_undo(p: PaneView, k: KanbanView)
    requires
        k.keys_distinct(),
        k.pane_resolved(p.selected_pane),
        0 <= p.selected_item < k.pane_items(p.selected_pane).len(),
    ensures
        p.selected_item > 0 ==> {
            let (p1, k1, _) = step(p, k, Key::Char('w'));
            step_defined(p1, k1, Key::Char('s')) && step(p1, k1, Key::Char('s')).0 == p && step(
                p1,
                k1,
                Key::Char('s'),
            ).1 == k
        },
        p.selected_item < k.pane_items(p.selected_pane).len() - 1 ==> {
            let (p1, k1, _) = step(p, k, Key::Char('s'));
            step_defined(p1, k1, Key::Char('w')) && step(p1, k1, Key::Char('w')).0 == p && step(
                p1,
                k1,
                Key::Char('w'),
            ).1 == k
        },
{
    let sp = p.selected_pane;
    let si = p.selected_item;
    let name = k.lists[sp];
    let items = k.pane_items(sp);
    let idx = k.entry_index(name);
    assert(k.entries[idx].0 == name);
    if si > 0 {
        let sw = swap_adjacent(items, si - 1);
        let k1 = k.set_items(name, sw);
        lemma_set_items(k, name, sw);
        assert(k1.pane_resolved(sp));
        assert(swap_adjacent(sw, si - 1) =~= items);
        lemma_set_items(k1, name, items);
        assert(k1.set_items(name, items).entries =~= k.entries);
    }
    if si < items.len() - 1 {
        let sw = swap_adjacent(items, si);
        let k1 = k.set_items(name, sw);
        lemma_set_items(k, name, sw);
        assert(k1.pane_resolved(sp));
        assert(swap_adjacent(sw, si) =~= items);
        lemma_set_items(k1, name, items);
        assert(k1.set_items(name, items).entries =~= k.entries);
    }
}

/// The arrows and `h`, `j`, `k`, `l` leave the board as it is.
pub proof fn lemma_navigation_keeps_board(p: PaneView, k: KanbanView, key: Key)
    requires
        is_navigation(key),
    ensures
        step(p, k, key).1 == k,
        step(p, k, key).2 == Reaction::Save,
        step(p, k, key).0.dividers == p.dividers,
{
}

/// All the cards filed in a table, counted with multiplicity.
pub open spec fn cards_of(es: Seq<(Seq<char>, Seq<Seq<char>>)>) -> Multiset<Seq<char>>
    decreases es.len(),
{
    if es.len() == 0 {
        Multiset::empty()
    } else {
        cards_of(es.drop_last()).add(es.last().1.to_multiset())
    }
}

/// All the cards of the board, counted with multiplicity.
pub open spec fn board_cards(k: KanbanView) -> Multiset<Seq<char>> {
    cards_of(k.entries)
}

/// Replacing the cards of one entry replaces them in the count.
proof fn lemma_cards_update(
    es: Seq<(Seq<char>, Seq<Seq<char>>)>,
    i: int,
    entry: (Seq<char>, Seq<Seq<char>>),
)
    requires
        0 <= i < es.len(),
    ensures
        cards_of(es.update(i, entry)).add(es[i].1.to_multiset()) =~= cards_of(es).add(
            entry.1.to_multiset(),
        ),
    decreases es.len(),
{
    broadcast use vstd::multiset::group_multiset_axioms;

    let u = es.update(i, entry);
    let lhs = cards_of(u).add(es[i].1.to_multiset());
    let rhs = cards_of(es).add(entry.1.to_multiset());
    if i == es.len() - 1 {
        assert(u.drop_last() =~= es.drop_last());
        assert(cards_of(u) == cards_of(es.drop_last()).add(entry.1.to_multiset()));
        assert(cards_of(es) == cards_of(es.drop_last()).add(es[i].1.to_multiset()));
        assert forall|x: Seq<char>| #[trigger] lhs.count(x) == rhs.count(x) by {}
    } else {
        assert(u.drop_last() =~= es.drop_last().update(i, entry));
        lemma_cards_update(es.drop_last(), i, entry);
        assert(u.last() == es.last());
        assert(cards_of(u) == cards_of(u.drop_last()).add(es.last().1.to_multiset()));
        assert(cards_of(es) == cards_of(es.drop_last()).add(es.last().1.to_multiset()));
        let d1 = cards_of(es.drop_last().update(i, entry));
        let d0 = cards_of(es.drop_last());
        assert forall|x: Seq<char>| #[trigger] lhs.count(x) == rhs.count(x) by {
            assert(d1.add(es[i].1.to_multiset()).count(x) == d0.add(entry.1.to_multiset()).count(x));
        }
    }
}

/// Exchanging two neighbouring cards keeps the cards.
proof fn lemma_swap_same_cards(s: Seq<Seq<char>>, i: int)
    requires
        0 <= i < s.len() - 1,
    ensures
        swap_adjacent(s, i).to_multiset() =~= s.to_multiset(),
{
    broadcast use vstd::multiset::group_multiset_axioms;
    broadcast use vstd::seq_lib::to_multiset_update;
    broadcast use vstd::seq_lib::to_multiset_contains;

    let t = s.update(i, s[i + 1]);
    assert(t[i + 1] == s[i + 1]);
    assert(s.contains(s[i]));
    assert(t.contains(s[i + 1]));
}

/// Filing `items` under a name in place of cards with the same count keeps the
/// board's cards.
proof fn lemma_same_cards_keeps_board(k: KanbanView, name: Seq<char>, items: Seq<Seq<char>>)
    requires
        k.keys_distinct(),
        k.has_entry(name),
        items.to_multiset() =~= k.items_of(name).to_multiset(),
    ensures
        board_cards(k.set_items(name, items)) =~= board_cards(k),
{
    broadcast use vstd::multiset::group_multiset_axioms;

    let idx = k.entry_index(name);
    assert(k.entries[idx].0 == name);
    lemma_cards_update(k.entries, idx, (name, items));
    let a = board_cards(k.set_items(name, items));
    let b = board_cards(k);
    let m = items.to_multiset();
    assert(forall|x: Seq<char>| #[trigger] a.count(x) == a.add(m).count(x) - m.count(x));
}

/// Moving a card (`w`, `s`, `a`, `d`) or the selection keeps every card on the board.
pub proof fn lemma_moves_keep_cards(p: PaneView, k: KanbanView, key: Key)
    requires
        k.keys_distinct(),
        step_defined(p, k, key),
        is_move(key),
    ensures
        board_cards(step(p, k, key).1) =~= board_cards(k),
{
    broadcast use vstd::multiset::group_multiset_axioms;

    let sp = p.selected_pane;
    let si = p.selected_item;
    let n = k.lists.len() as int;
    if is_navigation(key) {
        lemma_navigation_keeps_board(p, k, key);
    } else if key == Key::Char('w') {
        if si > 0 {
            lemma_swap_same_cards(k.pane_items(sp), si - 1);
            lemma_same_cards_keeps_board(k, k.lists[sp], swap_adjacent(k.pane_items(sp), si - 1));
        }
    } else if key == Key::Char('s') {
        if si < k.pane_items(sp).len() - 1 {
            lemma_swap_same_cards(k.pane_items(sp), si);
            lemma_same_cards_keeps_board(k, k.lists[sp], swap_adjacent(k.pane_items(sp), si));
        }
    } else {
        let c = if key == Key::Char('a') { 'a' } else { 'd' };
        assert(key == Key::Char(c));
        if (c == 'a' && sp != 0) || (c == 'd' && sp != n - 1) {
            let dest = if c == 'a' { sp - 1 } else { sp + 1 };
            let name = k.lists[sp];
            let items = k.pane_items(sp);
            let card = items[si];
            let idx = k.entry_index(name);
            assert(k.entries[idx].0 == name);
            let k1 = k.set_items(name, items.remove(si));
            lemma_set_items(k, name, items.remove(si));
            lemma_cards_update(k.entries, idx, (name, items.remove(si)));
            vstd::seq_lib::to_multiset_remove(items, si);
            vstd::seq_lib::to_multiset_contains(items, card);
            assert(items.contains(card));
            let dname = k.lists[dest];
            assert(k.pane_resolved(dest));
            assert(k1.has_entry(dname));
            let t = k1.items_of(dname);
            let didx = k1.entry_index(dname);
            assert(k1.entries[didx].0 == dname);
            lemma_cards_update(k1.entries, didx, (dname, t.push(card)));
            vstd::seq_lib::to_multiset_build(t, card);
            let k2 = k1.set_items(dname, t.push(card));
            assert(step(p, k, key).1 == k2);
            let c0 = board_cards(k);
            let c1 = board_cards(k1);
            let c2 = board_cards(k2);
            assert forall|x: Seq<char>| #[trigger] c2.count(x) == c0.count(x) by {
                assert(c1.add(items.to_multiset()).count(x) == c0.add(items.remove(si).to_multiset()).count(x));
                assert(c2.add(t.to_multiset()).count(x) == c1.add(t.push(card).to_multiset()).count(x));
            }
        }
    }
}

/// Deleting a card (`x`) takes exactly that card off the board and keeps it as the
/// last deleted one.
pub proof fn lemma_delete_keeps_last(p: PaneView, k: KanbanView)
    requires
        k.keys_distinct(),
        step_defined(p, k, Key::Char('x')),
        k.pane_items(p.selected_pane).len() > 0,
    ensures
        board_cards(step(p, k, Key::Char('x')).1).insert(step(p, k, Key::Char('x')).1.last_deleted)
            =~= board_cards(k),
        step(p, k, Key::Char('x')).1.last_deleted == k.pane_items(p.selected_pane)[p.selected_item],
{
    broadcast use vstd::multiset::group_multiset_axioms;

    let sp = p.selected_pane;
    let si = p.selected_item;
    let name = k.lists[sp];
    let items = k.pane_items(sp);
    let card = items[si];
    let idx = k.entry_index(name);
    assert(k.entries[idx].0 == name);
    lemma_cards_update(k.entries, idx, (name, items.remove(si)));
    vstd::seq_lib::to_multiset_remove(items, si);
    vstd::seq_lib::to_multiset_contains(items, card);
    assert(items.contains(card));
    let k1 = k.set_items(name, items.remove(si));
    let c0 = board_cards(k);
    let c1 = board_cards(k1);
    assert(board_cards(step(p, k, Key::Char('x')).1) == c1);
    assert forall|x: Seq<char>| #[trigger] c1.insert(card).count(x) == c0.count(x) by {
        assert(c1.add(items.to_multiset()).count(x) == c0.add(items.remove(si).to_multiset()).count(x));
    }
}

/// With a valid selection on a well-formed board, every key can be handled and a
/// prompt can be finished: nothing the screen reads is missing.
pub proof fn lemma_valid_selection_defined(p: PaneView, k: KanbanView, key: Key, kind: PromptKind)
    requires
        k.well_formed(),
        selection_valid(p, k),
    ensures
        step_defined(p, k, key),
        finish_defined(k, kind),
{
    let sp = p.selected_pane;
    let n = k.lists.len() as int;
    assert(k.pane_resolved(0));
    if sp > 0 {
        assert(k.pane_resolved(sp - 1));
    }
    if sp < n - 1 {
        assert(k.pane_resolved(sp + 1));
    }
}

/// Moving the selection or the selected card keeps a valid selection valid.
pub proof fn lemma_moves_keep_selection_valid(p: PaneView, k: KanbanView, key: Key)
    requires
        k.well_formed(),
        selection_valid(p, k),
        is_move(key),
    ensures
        selection_valid(step(p, k, key).0, step(p, k, key).1),
        step(p, k, key).1.well_formed(),
{
    let sp = p.selected_pane;
    let si = p.selected_item;
    let n = k.lists.len() as int;
    lemma_valid_selection_defined(p, k, key, PromptKind::NewItem);
    lemma_step_keeps_well_formed(p, k, key);
    let name = k.lists[sp];
    let items = k.pane_items(sp);
    if is_navigation(key) {
        if sp > 0 {
            assert(k.pane_resolved(sp - 1));
        }
        if sp < n - 1 {
            assert(k.pane_resolved(sp + 1));
        }
    } else if key == Key::Char('w') {
        if si > 0 {
            lemma_set_items(k, name, swap_adjacent(items, si - 1));
        }
    } else if key == Key::Char('s') {
        if si < items.len() - 1 {
            lemma_set_items(k, name, swap_adjacent(items, si));
        }
    } else {
        let c = if key == Key::Char('a') { 'a' } else { 'd' };
        assert(key == Key::Char(c));
        if (c == 'a' && sp != 0) || (c == 'd' && sp != n - 1) {
            let dest = if c == 'a' { sp - 1 } else { sp + 1 };
            let k1 = k.set_items(name, items.remove(si));
            lemma_set_items(k, name, items.remove(si));
            let dname = k.lists[dest];
            assert(k.pane_resolved(dest));
            assert(k1.has_entry(dname));
            let landed = k1.items_of(dname).push(items[si]);
            lemma_set_items(k1, dname, landed);
            let k2 = k1.set_items(dname, landed);
            assert(step(p, k, key).1 == k2);
            assert(k2.pane_items(dest) == landed);
            assert(k2.pane_resolved(dest));
        }
    }
}

/// A new list becomes the last pane and starts empty, every other pane keeps its
/// cards unless it shows the same name, and the dividers are those a fresh screen
/// would draw for the new number of lists.
pub proof fn lemma_new_list(p: PaneView, k: KanbanView, text: Seq<char>)
    requires
        k.well_formed(),
    ensures
        ({
            let (p1, k1) = finish(p, k, PromptKind::NewList, text);
            &&& k1.lists == k.lists.push(text)
            &&& k1.pane_items(k.lists.len() as int) == Seq::<Seq<char>>::empty()
            &&& forall|i: int|
                0 <= i < k.lists.len() && k.lists[i] != text ==> #[trigger] k1.pane_items(i)
                    == k.pane_items(i)
            &&& p1.dividers == initial_panes(p.row_count, p.col_count, k1).dividers
            &&& p1.selected_pane == p.selected_pane
            &&& p1.selected_item == p.selected_item
        }),
{
    lemma_add_list_well_formed(k, text);
    let k1 = k.add_list(text);
    assert forall|i: int|
        0 <= i < k.lists.len() && k.lists[i] != text implies #[trigger] k1.pane_items(i)
            == k.pane_items(i) by {
        assert(k.pane_resolved(i));
        let x = k.lists[i];
        let j = k.entry_index(x);
        assert(k.entries[j].0 == x);
        assert(k1.entries[j] == k.entries[j]);
        lemma_entry_index(k1, j);
    }
}

/// A new card becomes the last card of the first pane; panes showing other names
/// keep their cards.
pub proof fn lemma_new_item(p: PaneView, k: KanbanView, text: Seq<char>)
    requires
        k.well_formed(),
        k.lists.len() > 0,
    ensures
        ({
            let (p1, k1) = finish(p, k, PromptKind::NewItem, text);
            &&& p1 == p
            &&& k1.lists == k.lists
            &&& k1.pane_items(0) == k.pane_items(0).push(text)
            &&& forall|i: int|
                0 <= i < k.lists.len() && k.lists[i] != k.lists[0] ==> #[trigger] k1.pane_items(i)
                    == k.pane_items(i)
        }),
{
    assert(k.pane_resolved(0));
    lemma_set_items(k, k.lists[0], k.pane_items(0).push(text));
    assert forall|i: int|
        0 <= i < k.lists.len() && k.lists[i] != k.lists[0] implies #[trigger] finish(
            p,
            k,
            PromptKind::NewItem,
            text,
        ).1.pane_items(i) == k.pane_items(i) by {
        assert(k.pane_resolved(i));
    }
}

/// The dividers split a non-negative width into equal panes: divider `i` stands
/// `i + 1` pane widths in, inside the screen, and they increase from left to right
/// when every pane is at least one column wide.
pub proof fn lemma_dividers_even(cols: int, n: nat)
    requires
        0 <= cols <= i32::MAX,
        n >= 1,
    ensures
        divider_columns(cols, n).len() == n - 1,
        forall|i: int|
            0 <= i < n - 1 ==> #[trigger] divider_columns(cols, n)[i] == (cols / (n as int)) * (i
                + 1) && 0 <= divider_columns(cols, n)[i] <= cols,
        cols >= n ==> forall|i: int, j: int|
            0 <= i < j < n - 1 ==> #[trigger] divider_columns(cols, n)[i]
                < #[trigger] divider_columns(cols, n)[j],
{
    let d = divider_columns(cols, n);
    let w = cols / (n as int);
    assert forall|i: int| 0 <= i < n - 1 implies #[trigger] d[i] == w * (i + 1) && 0 <= d[i]
        <= cols by {
        lemma_divider_bound(cols, n as int, i);
        assert(trunc_div(cols, n as int) == w);
        assert(0 <= w * (i + 1) <= cols) by (nonlinear_arith)
            requires
                w == cols / (n as int),
                n >= 1,
                0 <= cols,
                0 <= i < n - 1,
        ;
    }
    if cols >= n {
        assert forall|i: int, j: int| 0 <= i < j < n - 1 implies #[trigger] d[i] < #[trigger] d[j] by {
            assert(w >= 1) by (nonlinear_arith)
                requires
                    w == cols / (n as int),
                    n >= 1,
                    cols >= n,
            ;
            assert(w * (i + 1) < w * (j + 1)) by (nonlinear_arith)
                requires
                    w >= 1,
                    i < j,
            ;
        }
    }
}

/// Removing an entry removes its cards from the count.
proof fn lemma_cards_remove(es: Seq<(Seq<char>, Seq<Seq<char>>)>, r: int)
    requires
        0 <= r < es.len(),
    ensures
        cards_of(es.remove(r)).add(es[r].1.to_multiset()) =~= cards_of(es),
    decreases es.len(),
{
    broadcast use vstd::multiset::group_multiset_axioms;

    let u = es.remove(r);
    if r == es.len() - 1 {
        assert(u =~= es.drop_last());
    } else {
        assert(u.drop_last() =~= es.drop_last().remove(r));
        lemma_cards_remove(es.drop_last(), r);
        assert(u.last() == es.last());
        assert(cards_of(u) == cards_of(u.drop_last()).add(es.last().1.to_multiset()));
        let d1 = cards_of(es.drop_last().remove(r));
        let d0 = cards_of(es.drop_last());
        let lhs = cards_of(u).add(es[r].1.to_multiset());
        assert forall|x: Seq<char>| #[trigger] lhs.count(x) == cards_of(es).count(x) by {
            assert(d1.add(es[r].1.to_multiset()).count(x) == d0.count(x));
        }
    }
}

/// Deleting a list (`X`) drops its pane and exactly its cards; the panes after it
/// move one place left and keep their cards, and so do the panes before it.
pub proof fn lemma_delete_list(p: PaneView, k: KanbanView)
    requires
        k.well_formed(),
        k.lists.len() > 1,
        0 <= p.selected_pane < k.lists.len(),
        pane_name_unique(k, p.selected_pane),
    ensures
        ({
            let sp = p.selected_pane;
            let k1 = step(p, k, Key::Char('X')).1;
            &&& k1.lists == k.lists.remove(sp)
            &&& board_cards(k1).add(k.pane_items(sp).to_multiset()) =~= board_cards(k)
            &&& forall|i: int|
                0 <= i < k1.lists.len() ==> #[trigger] k1.pane_items(i) == k.pane_items(
                    if i < sp {
                        i
                    } else {
                        i + 1
                    },
                )
        }),
{
    let sp = p.selected_pane;
    let name = k.lists[sp];
    assert(k.pane_resolved(sp));
    let r = k.entry_index(name);
    assert(k.entries[r].0 == name);
    let k1 = k.remove_pane(sp);
    assert(step(p, k, Key::Char('X')).1 == k1);
    lemma_cards_remove(k.entries, r);
    lemma_remove_pane_well_formed(k, sp);
    assert forall|i: int| 0 <= i < k1.lists.len() implies #[trigger] k1.pane_items(i)
        == k.pane_items(if i < sp { i } else { i + 1 }) by {
        let i0 = if i < sp { i } else { i + 1 };
        assert(k1.lists[i] == k.lists[i0]);
        assert(k.pane_resolved(i0));
        let x = k.lists[i0];
        let j = k.entry_index(x);
        assert(k.entries[j].0 == x);
        assert(j != r);
        let j1 = if j < r { j } else { j - 1 };
        assert(k1.entries[j1] == k.entries[j]);
        lemma_entry_index(k1, j1);
    }
}

/// A board with a filled pane has a first filled pane.
proof fn lemma_first_filled_exists(k: KanbanView, i: int)
    requires
        0 <= i < k.lists.len(),
        pane_filled(k, i),
    ensures
        exists|q: int| is_first_filled(k, q),
    decreases i,
{
    if exists|j: int| 0 <= j < i && #[trigger] pane_filled(k, j) {
        let j = choose|j: int| 0 <= j < i && #[trigger] pane_filled(k, j);
        lemma_first_filled_exists(k, j);
    } else {
        assert(is_first_filled(k, i));
    }
}

/// A fresh screen on a board that holds a card selects a card: the first card of
/// the first pane that holds one.
pub proof fn lemma_fresh_screen_selects_card(rows: int, cols: int, k: KanbanView, i: int)
    requires
        0 <= i < k.lists.len(),
        pane_filled(k, i),
    ensures
        selection_valid(initial_panes(rows, cols, k), k),
        is_first_filled(k, initial_panes(rows, cols, k).selected_pane),
{
    lemma_first_filled_exists(k, i);
    let p = first_filled_pane(k);
    assert(is_first_filled(k, p));
}

/// The state the screen is driven from: at least one list, list names distinct,
/// the table filed under exactly the list names, the selected pane one that exists,
/// and a divider before every pane but the first. (Drawing also needs its positions
/// to fit an `i32`: `titles_drawable`, `cards_drawable`.)
pub open spec fn screen_invariant(p: PaneView, k: KanbanView) -> bool {
    &&& k.lists.len() > 0
    &&& forall|i: int, j: int|
        0 <= i < k.lists.len() && 0 <= j < k.lists.len() && i != j ==> #[trigger] k.lists[i]
            != #[trigger] k.lists[j]
    &&& k.keys_distinct()
    &&& forall|name: Seq<char>| #[trigger] k.has_entry(name) <==> k.lists.contains(name)
    &&& 0 <= p.selected_pane < k.lists.len()
    &&& p.dividers.len() + 1 >= k.lists.len()
}

/// The screen invariant makes the board well formed.
proof fn lemma_screen_invariant_well_formed(p: PaneView, k: KanbanView)
    requires
        screen_invariant(p, k),
    ensures
        k.well_formed(),
{
    assert forall|i: int| 0 <= i < k.lists.len() implies #[trigger] k.pane_resolved(i) by {
        assert(k.lists.contains(k.lists[i]));
        assert(k.has_entry(k.lists[i]));
    }
}

/// Filing other cards under a listed name keeps the screen invariant.
proof fn lemma_set_items_screen(p: PaneView, k: KanbanView, name: Seq<char>, items: Seq<Seq<char>>, q: PaneView)
    requires
        screen_invariant(p, k),
        k.has_entry(name),
        q.dividers == p.dividers,
        0 <= q.selected_pane < k.lists.len(),
    ensures
        screen_invariant(q, k.set_items(name, items)),
{
    lemma_set_items(k, name, items);
    let w = k.set_items(name, items);
    assert forall|x: Seq<char>| #[trigger] w.has_entry(x) <==> w.lists.contains(x) by {
        assert(k.has_entry(x) <==> k.lists.contains(x));
    }
}

/// One key keeps the screen invariant, so the next key finds the screen in it again.
pub proof fn lemma_step_keeps_screen_invariant(p: PaneView, k: KanbanView, key: Key)
    requires
        screen_invariant(p, k),
        step_defined(p, k, key),
    ensures
        screen_invariant(step(p, k, key).0, step(p, k, key).1),
{
    lemma_screen_invariant_well_formed(p, k);
    let sp = p.selected_pane;
    let si = p.selected_item;
    let n = k.lists.len() as int;
    let (p1, k1, _) = step(p, k, key);
    match canonical(key) {
        Key::Char(c) => {
            assert(key == Key::Char(c));
            if c == 'x' {
                if k.pane_items(sp).len() > 0 {
                    let w = k.set_items(k.lists[sp], k.pane_items(sp).remove(si));
                    lemma_set_items_screen(p, k, k.lists[sp], k.pane_items(sp).remove(si), p);
                    assert(k1 == w.with_last_deleted(k.pane_items(sp)[si]));
                    assert forall|x: Seq<char>| #[trigger] k1.has_entry(x) <==> k1.lists.contains(x) by {
                        assert(w.has_entry(x) <==> w.lists.contains(x));
                        if w.has_entry(x) {
                            let j = choose|j: int| 0 <= j < w.entries.len() && #[trigger] w.entries[j].0 == x;
                            assert(k1.entries[j].0 == x);
                        }
                        if k1.has_entry(x) {
                            let j = choose|j: int| 0 <= j < k1.entries.len() && #[trigger] k1.entries[j].0 == x;
                            assert(w.entries[j].0 == x);
                        }
                    }
                }
            } else if c == 'X' {
                if n > 1 {
                    let name = k.lists[sp];
                    assert(k.pane_resolved(sp));
                    assert(pane_name_unique(k, sp));
                    lemma_remove_pane_well_formed(k, sp);
                    let r = k.entry_index(name);
                    assert(k.entries[r].0 == name);
                    assert(k1 == k.remove_pane(sp));
                    assert forall|i: int, j: int|
                        0 <= i < k1.lists.len() && 0 <= j < k1.lists.len() && i != j implies #[trigger] k1.lists[i]
                            != #[trigger] k1.lists[j] by {
                        let i0 = if i < sp { i } else { i + 1 };
                        let j0 = if j < sp { j } else { j + 1 };
                        assert(k1.lists[i] == k.lists[i0]);
                        assert(k1.lists[j] == k.lists[j0]);
                    }
                    assert forall|x: Seq<char>| #[trigger] k1.has_entry(x) <==> k1.lists.contains(x) by {
                        if k1.has_entry(x) {
                            let j = choose|j: int| 0 <= j < k1.entries.len() && #[trigger] k1.entries[j].0 == x;
                            let j0 = if j < r { j } else { j + 1 };
                            assert(k.entries[j0] == k1.entries[j]);
                            assert(k.has_entry(x));
                            assert(k.lists.contains(x));
                            let i0 = choose|i0: int| 0 <= i0 < k.lists.len() && k.lists[i0] == x;
                            assert(j0 != r);
                            assert(x != name);
                            assert(i0 != sp);
                            let i = if i0 < sp { i0 } else { i0 - 1 };
                            assert(k1.lists[i] == x);
                        }
                        if k1.lists.contains(x) {
                            let i = choose|i: int| 0 <= i < k1.lists.len() && k1.lists[i] == x;
                            let i0 = if i < sp { i } else { i + 1 };
                            assert(k.lists[i0] == x);
                            assert(k1.pane_resolved(i));
                        }
                    }
                }
            } else if c == 'w' {
                if si > 0 {
                    lemma_set_items_screen(p, k, k.lists[sp], swap_adjacent(k.pane_items(sp), si - 1), p1);
                }
            } else if c == 's' {
                if si < k.pane_items(sp).len() - 1 {
                    lemma_set_items_screen(p, k, k.lists[sp], swap_adjacent(k.pane_items(sp), si), p1);
                }
            } else if (c == 'a' && sp != 0) || (c == 'd' && sp != n - 1) {
                let dest = if c == 'a' { sp - 1 } else { sp + 1 };
                let ka = k.set_items(k.lists[sp], k.pane_items(sp).remove(si));
                lemma_set_items_screen(p, k, k.lists[sp], k.pane_items(sp).remove(si), p);
                lemma_set_items(k, k.lists[sp], k.pane_items(sp).remove(si));
                assert(k.pane_resolved(dest));
                assert(ka.has_entry(k.lists[dest]));
                lemma_set_items_screen(p, ka, k.lists[dest], ka.pane_items(dest).push(k.pane_items(sp)[si]), p1);
            }
        },
        _ => {
            if sp > 0 {
                assert(k.pane_resolved(sp - 1));
            }
        },
    }
}

/// Finishing a prompt keeps the screen invariant, given that a new list's name is
/// not already shown (a repeated name would show two panes filed under one entry).
pub proof fn lemma_finish_keeps_screen_invariant(
    p: PaneView,
    k: KanbanView,
    kind: PromptKind,
    text: Seq<char>,
)
    requires
        screen_invariant(p, k),
        kind == PromptKind::NewList ==> !k.lists.contains(text),
    ensures
        screen_invariant(finish(p, k, kind, text).0, finish(p, k, kind, text).1),
{
    lemma_screen_invariant_well_formed(p, k);
    match kind {
        PromptKind::NewItem => {
            assert(k.pane_resolved(0));
            lemma_set_items_screen(p, k, k.lists[0], k.pane_items(0).push(text), p);
        },
        PromptKind::NewList => {
            lemma_add_list_well_formed(k, text);
            let k1 = k.add_list(text);
            assert(!k.has_entry(text));
            assert forall|i: int, j: int|
                0 <= i < k1.lists.len() && 0 <= j < k1.lists.len() && i != j implies #[trigger] k1.lists[i]
                    != #[trigger] k1.lists[j] by {
                if i < k.lists.len() && j < k.lists.len() {
                } else if i < k.lists.len() {
                    assert(k.lists.contains(k1.lists[i]));
                } else {
                    assert(k.lists.contains(k1.lists[j]));
                }
            }
            assert forall|x: Seq<char>| #[trigger] k1.has_entry(x) <==> k1.lists.contains(x) by {
                if k1.has_entry(x) {
                    let j = choose|j: int| 0 <= j < k1.entries.len() && #[trigger] k1.entries[j].0 == x;
                    if j < k.entries.len() {
                        assert(k.entries[j].0 == x);
                        assert(k.has_entry(x));
                        assert(k.lists.contains(x));
                        let i = choose|i: int| 0 <= i < k.lists.len() && k.lists[i] == x;
                        assert(k1.lists[i] == x);
                    } else {
                        assert(k1.lists[k.lists.len() as int] == x);
                    }
                }
                if k1.lists.contains(x) {
                    let i = choose|i: int| 0 <= i < k1.lists.len() && k1.lists[i] == x;
                    if i < k.lists.len() {
                        assert(k.lists.contains(x));
                        assert(k.has_entry(x));
                        let j = choose|j: int| 0 <= j < k.entries.len() && #[trigger] k.entries[j].0 == x;
                        assert(k1.entries[j].0 == x);
                    }
                }
            }
        },
    }
}

/// Recomputing the dividers a second time changes nothing, and the dividers
/// recomputed for a board are those a fresh screen on that board draws.
pub proof fn lemma_recompute_dividers(p: PaneView, k: KanbanView)
    ensures
        p.with_dividers_for(k.lists.len()).with_dividers_for(k.lists.len()) == p.with_dividers_for(
            k.lists.len(),
        ),
        p.with_dividers_for(k.lists.len()).dividers == initial_panes(
            p.row_count,
            p.col_count,
            k,
        ).dividers,
{
}

} // verus!

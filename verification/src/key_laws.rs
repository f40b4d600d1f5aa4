use vstd::prelude::*;
use crate::kanban::{KanbanView, lemma_set_items};
use crate::pane_manager::PaneView;
use crate::input::{Key, PromptKind, Reaction, step, prompt_next};
use crate::browser::browse;
use crate::laws::selection_valid;

verus! {

/// The screen moved to pane `pane` and card `item`, all else as in `p`.
pub open spec fn moved_to(p: PaneView, q: PaneView, pane: int, item: int) -> bool {
    &&& q.selected_pane == pane
    &&& q.selected_item == item
    &&& q.dividers == p.dividers
    &&& q.bottom_divider == p.bottom_divider
    &&& q.row_count == p.row_count
    &&& q.col_count == p.col_count
}

/// `h`, `j`, `k` and `l` do on the board screen exactly what left, down, up and right do.
pub proof fn lemma_letters_are_arrows(p: PaneView, k: KanbanView)
    ensures
        step(p, k, Key::Char('h')) == step(p, k, Key::Left),
        step(p, k, Key::Char('j')) == step(p, k, Key::Down),
        step(p, k, Key::Char('k')) == step(p, k, Key::Up),
        step(p, k, Key::Char('l')) == step(p, k, Key::Right),
{
}

/// The arrows on the board screen: left and right select the first card of the
/// neighbouring pane when it holds a card; down and up select the card below or above
/// in the same pane when there is one; otherwise the selection stays. The board is
/// never changed and the board is saved.
pub proof fn lemma_arrows(p: PaneView, k: KanbanView)
    ensures
        ({
            let sp = p.selected_pane;
            let si = p.selected_item;
            let (q, k1, r) = step(p, k, Key::Left);
            &&& k1 == k && r == Reaction::Save
            &&& if sp > 0 && k.pane_items(sp - 1).len() > 0 {
                moved_to(p, q, sp - 1, 0)
            } else {
                q == p
            }
        }),
        ({
            let sp = p.selected_pane;
            let (q, k1, r) = step(p, k, Key::Right);
            &&& k1 == k && r == Reaction::Save
            &&& if sp + 1 < k.lists.len() && k.pane_items(sp + 1).len() > 0 {
                moved_to(p, q, sp + 1, 0)
            } else {
                q == p
            }
        }),
        ({
            let sp = p.selected_pane;
            let si = p.selected_item;
            let (q, k1, r) = step(p, k, Key::Down);
            &&& k1 == k && r == Reaction::Save
            &&& if si + 1 < k.pane_items(sp).len() {
                moved_to(p, q, sp, si + 1)
            } else {
                q == p
            }
        }),
        ({
            let sp = p.selected_pane;
            let si = p.selected_item;
            let (q, k1, r) = step(p, k, Key::Up);
            &&& k1 == k && r == Reaction::Save
            &&& if si > 0 {
                moved_to(p, q, sp, si - 1)
            } else {
                q == p
            }
        }),
{
}

/// Only three keys leave the board unsaved, and they change nothing: `x` on an empty
/// list, `a` in the first pane, `d` in the last. `i` asks for a card's name, `I` and
/// `+` for a list's, and they change nothing either.
pub proof fn lemma_reactions(p: PaneView, k: KanbanView, key: Key)
    ensures
        ({
            let sp = p.selected_pane;
            let n = k.lists.len() as int;
            let skipped = (key == Key::Char('x') && k.pane_items(sp).len() == 0) || (key
                == Key::Char('a') && sp == 0) || (key == Key::Char('d') && sp == n - 1);
            &&& (step(p, k, key).2 == Reaction::Skip) == skipped
            &&& skipped ==> step(p, k, key).0 == p && step(p, k, key).1 == k
        }),
        (step(p, k, key).2 == Reaction::Prompt(PromptKind::NewItem)) == (key == Key::Char('i')),
        (step(p, k, key).2 == Reaction::Prompt(PromptKind::NewList)) == (key == Key::Char('I')
            || key == Key::Char('+')),
        key == Key::Char('i') || key == Key::Char('I') || key == Key::Char('+') ==> step(p, k, key).0
            == p && step(p, k, key).1 == k,
{
}

/// A character that is not a command changes nothing, and the board is saved.
pub proof fn lemma_other_characters(p: PaneView, k: KanbanView, c: char)
    requires
        c != 'h' && c != 'j' && c != 'k' && c != 'l',
        c != 'x' && c != 'X' && c != 'w' && c != 's' && c != 'a' && c != 'd',
        c != 'i' && c != 'I' && c != '+',
    ensures
        step(p, k, Key::Char(c)) == (p, k, Reaction::Save),
{
}

/// At a prompt every character but a newline is appended to the text and the prompt
/// stays open; a newline ends it and leaves the text as it is; other keys are ignored.
pub proof fn lemma_prompt_typing(text: Seq<char>, key: Key)
    ensures
        match key {
            Key::Char(c) => if c == '\n' {
                prompt_next(text, key) == (text, true)
            } else {
                prompt_next(text, key).0 == text.push(c) && !prompt_next(text, key).1
            },
            _ => prompt_next(text, key) == (text, false),
        },
        prompt_next(text, key).1 <==> key == Key::Char('\n'),
        prompt_next(text, key).0.len() <= text.len() + 1,
        prompt_next(text, key).0.subrange(0, text.len() as int) == text,
{
    assert(prompt_next(text, key).0.subrange(0, text.len() as int) =~= text);
}

/// The list view: `q` quits; `h`, `j`, `k`, `l` act as left, down, up, right; left
/// and right move the selected list by one within the lists; down and up move the
/// selected card by one within the selected list; nothing else quits or moves.
pub proof fn lemma_browse(s: (int, int), k: KanbanView, key: Key)
    ensures
        browse(s, k, Key::Char('q')) == (s, true),
        browse(s, k, Key::Char('h')) == browse(s, k, Key::Left),
        browse(s, k, Key::Char('j')) == browse(s, k, Key::Down),
        browse(s, k, Key::Char('k')) == browse(s, k, Key::Up),
        browse(s, k, Key::Char('l')) == browse(s, k, Key::Right),
        browse(s, k, Key::Left) == (if s.1 > 0 {
            ((s.0, s.1 - 1), false)
        } else {
            (s, false)
        }),
        browse(s, k, Key::Right) == (if s.1 + 1 < k.lists.len() {
            ((s.0, s.1 + 1), false)
        } else {
            (s, false)
        }),
        browse(s, k, Key::Up) == (if s.0 > 0 {
            ((s.0 - 1, s.1), false)
        } else {
            (s, false)
        }),
        browse(s, k, Key::Down) == (if s.0 + 1 < k.pane_items(s.1).len() {
            ((s.0 + 1, s.1), false)
        } else {
            (s, false)
        }),
        browse(s, k, key).1 <==> key == Key::Char('q'),
        browse(s, k, Key::Other) == (s, false),
{
}

/// Deleting a card (`x`) takes out the selected card and closes the gap: the cards
/// before it stay, the cards after it move up by one, and the selection stays.
pub proof fn lemma_delete_position(p: PaneView, k: KanbanView)
    requires
        k.well_formed(),
        selection_valid(p, k),
    ensures
        ({
            let sp = p.selected_pane;
            let si = p.selected_item;
            let items = k.pane_items(sp);
            let (q, k1, r) = step(p, k, Key::Char('x'));
            &&& r == Reaction::Save
            &&& q == p
            &&& k1.lists == k.lists
            &&& k1.last_deleted == items[si]
            &&& k1.pane_items(sp).len() == items.len() - 1
            &&& forall|j: int| 0 <= j < si ==> #[trigger] k1.pane_items(sp)[j] == items[j]
            &&& forall|j: int| si <= j < items.len() - 1 ==> #[trigger] k1.pane_items(sp)[j]
                == items[j + 1]
        }),
{
    let sp = p.selected_pane;
    let si = p.selected_item;
    let items = k.pane_items(sp);
    lemma_set_items(k, k.lists[sp], items.remove(si));
    let w = k.set_items(k.lists[sp], items.remove(si));
    let k1 = w.with_last_deleted(items[si]);
    assert(k1.pane_items(sp) == w.pane_items(sp));
}

/// Moving a card up (`w`) or down (`s`) exchanges it with its neighbour, and the
/// selection follows the card.
pub proof fn lemma_raise_lower_follow(p: PaneView, k: KanbanView)
    requires
        k.well_formed(),
        selection_valid(p, k),
    ensures
        ({
            let sp = p.selected_pane;
            let si = p.selected_item;
            let items = k.pane_items(sp);
            let (q, k1, _) = step(p, k, Key::Char('w'));
            si > 0 ==> {
                &&& moved_to(p, q, sp, si - 1)
                &&& k1.pane_items(sp).len() == items.len()
                &&& k1.pane_items(sp)[si - 1] == items[si]
                &&& k1.pane_items(sp)[si] == items[si - 1]
                &&& forall|j: int|
                    0 <= j < items.len() && j != si && j != si - 1 ==> #[trigger] k1.pane_items(
                        sp,
                    )[j] == items[j]
            }
        }),
        ({
            let sp = p.selected_pane;
            let si = p.selected_item;
            let items = k.pane_items(sp);
            let (q, k1, _) = step(p, k, Key::Char('s'));
            si + 1 < items.len() ==> {
                &&& moved_to(p, q, sp, si + 1)
                &&& k1.pane_items(sp).len() == items.len()
                &&& k1.pane_items(sp)[si + 1] == items[si]
                &&& k1.pane_items(sp)[si] == items[si + 1]
                &&& forall|j: int|
                    0 <= j < items.len() && j != si && j != si + 1 ==> #[trigger] k1.pane_items(
                        sp,
                    )[j] == items[j]
            }
        }),
{
    let sp = p.selected_pane;
    let si = p.selected_item;
    let items = k.pane_items(sp);
    if si > 0 {
        lemma_set_items(k, k.lists[sp], crate::kanban::swap_adjacent(items, si - 1));
    }
    if si + 1 < items.len() {
        lemma_set_items(k, k.lists[sp], crate::kanban::swap_adjacent(items, si));
    }
}

/// Moving a card to the left (`a`) or right (`d`) appends it to the neighbouring pane,
/// which becomes the selected pane with the moved card selected.
pub proof fn lemma_shift_follows(p: PaneView, k: KanbanView, left: bool)
    requires
        k.well_formed(),
        selection_valid(p, k),
        left ==> p.selected_pane > 0,
        !left ==> p.selected_pane + 1 < k.lists.len(),
    ensures
        ({
            let sp = p.selected_pane;
            let si = p.selected_item;
            let dest = if left { sp - 1 } else { sp + 1 };
            let card = k.pane_items(sp)[si];
            let (q, k1, r) = step(p, k, Key::Char(if left { 'a' } else { 'd' }));
            &&& r == Reaction::Save
            &&& k1.lists == k.lists
            &&& moved_to(p, q, dest, k1.pane_items(dest).len() - 1)
            &&& k1.pane_items(dest).last() == card
            &&& k.lists[dest] != k.lists[sp] ==> k1.pane_items(dest).len() == k.pane_items(dest).len()
                + 1 && k1.pane_items(sp).len() == k.pane_items(sp).len() - 1
        }),
{
    let sp = p.selected_pane;
    let si = p.selected_item;
    let dest = if left { sp - 1 } else { sp + 1 };
    let name = k.lists[sp];
    let items = k.pane_items(sp);
    let k1 = k.set_items(name, items.remove(si));
    lemma_set_items(k, name, items.remove(si));
    let dname = k.lists[dest];
    assert(k.pane_resolved(dest));
    assert(k1.has_entry(dname));
    let landed = k1.items_of(dname).push(items[si]);
    lemma_set_items(k1, dname, landed);
    let k2 = k1.set_items(dname, landed);
    assert(step(p, k, Key::Char(if left { 'a' } else { 'd' })).1 == k2);
    assert(k2.pane_items(dest) == landed);
    if dname != name {
        assert(k2.pane_items(sp) == k1.pane_items(sp));
    }
}

/// Deleting a list (`X`) when there is more than one selects the pane on its left
/// (a selection at the first pane stays) and keeps the selected card's position; with a
/// single list nothing changes.
pub proof fn lemma_delete_list_selection(p: PaneView, k: KanbanView)
    ensures
        ({
            let sp = p.selected_pane;
            let (q, k1, r) = step(p, k, Key::Char('X'));
            &&& r == Reaction::Save
            &&& if k.lists.len() > 1 {
                &&& moved_to(p, q, if sp > 0 { sp - 1 } else { sp }, p.selected_item)
                &&& k1.lists == k.lists.remove(sp)
            } else {
                q == p && k1 == k
            }
        }),
{
}

} // verus!

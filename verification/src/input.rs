use vstd::prelude::*;
use crate::kanban::{
    Item, ItemList, Kanban, KanbanView, swap_adjacent, lemma_entry_index, lemma_with_entry_items,
};
use crate::pane_manager::{PaneManager, PaneView};

verus! {

/// A key as the screen reads it.
#[derive(Clone, Copy, Debug, PartialEq, Eq, Structural)]
pub enum Key {
    Left,
    Right,
    Up,
    Down,
    Char(char),
    Other,
}

/// What a prompt asks for.
#[derive(Clone, Copy, Debug, PartialEq, Eq, Structural)]
pub enum PromptKind {
    NewItem,
    NewList,
}

/// What the screen does after a key: save the board, leave the file alone, or ask
/// for a name and then finish with `finish_prompt`.
#[derive(Clone, Copy, Debug, PartialEq, Eq, Structural)]
pub enum Reaction {
    Save,
    Skip,
    Prompt(PromptKind),
}

/// `h`, `j`, `k` and `l` act as the arrow keys.
pub open spec fn canonical(key: Key) -> Key {
    match key {
        Key::Char(c) => if c == 'h' {
            Key::Left
        } else if c == 'j' {
            Key::Down
        } else if c == 'k' {
            Key::Up
        } else if c == 'l' {
            Key::Right
        } else {
            key
        },
        _ => key,
    }
}

/// Takes the selected card out of its pane and appends it to pane `dest`, which
/// becomes the selection with its last card selected.
pub open spec fn move_card(p: PaneView, k: KanbanView, dest: int) -> (
    PaneView,
    KanbanView,
    Reaction,
) {
    let sp = p.selected_pane;
    let si = p.selected_item;
    let card = k.pane_items(sp)[si];
    let k1 = k.set_items(k.lists[sp], k.pane_items(sp).remove(si));
    let landed = k1.pane_items(dest).push(card);
    (p.select(dest, landed.len() - 1), k1.set_items(k.lists[dest], landed), Reaction::Save)
}

/// What a character key does.
pub open spec fn char_step(p: PaneView, k: KanbanView, c: char) -> (
    PaneView,
    KanbanView,
    Reaction,
) {
    let sp = p.selected_pane;
    let si = p.selected_item;
    let n = k.lists.len() as int;
    let items = k.pane_items(sp);
    if c == 'x' {
        if items.len() == 0 {
            (p, k, Reaction::Skip)
        } else {
            (
                p,
                k.set_items(k.lists[sp], items.remove(si)).with_last_deleted(items[si]),
                Reaction::Save,
            )
        }
    } else if c == 'X' {
        if n > 1 {
            (p.select(if sp > 0 { sp - 1 } else { sp }, si), k.remove_pane(sp), Reaction::Save)
        } else {
            (p, k, Reaction::Save)
        }
    } else if c == 'w' {
        if si > 0 {
            (p.select(sp, si - 1), k.set_items(k.lists[sp], swap_adjacent(items, si - 1)), Reaction::Save)
        } else {
            (p, k, Reaction::Save)
        }
    } else if c == 's' {
        if si < items.len() - 1 {
            (p.select(sp, si + 1), k.set_items(k.lists[sp], swap_adjacent(items, si)), Reaction::Save)
        } else {
            (p, k, Reaction::Save)
        }
    } else if c == 'a' {
        if sp == 0 {
            (p, k, Reaction::Skip)
        } else {
            move_card(p, k, sp - 1)
        }
    } else if c == 'd' {
        if sp == n - 1 {
            (p, k, Reaction::Skip)
        } else {
            move_card(p, k, sp + 1)
        }
    } else if c == 'i' {
        (p, k, Reaction::Prompt(PromptKind::NewItem))
    } else if c == '+' || c == 'I' {
        (p, k, Reaction::Prompt(PromptKind::NewList))
    } else {
        (p, k, Reaction::Save)
    }
}

/// The screen and the board after `key`, and what follows it.
pub open spec fn step(p: PaneView, k: KanbanView, key: Key) -> (PaneView, KanbanView, Reaction) {
    let sp = p.selected_pane;
    let si = p.selected_item;
    let n = k.lists.len() as int;
    match canonical(key) {
        Key::Left => if sp > 0 && k.pane_items(sp - 1).len() > 0 {
            (p.select(sp - 1, 0), k, Reaction::Save)
        } else {
            (p, k, Reaction::Save)
        },
        Key::Right => if sp < n - 1 && k.pane_items(sp + 1).len() > 0 {
            (p.select(sp + 1, 0), k, Reaction::Save)
        } else {
            (p, k, Reaction::Save)
        },
        Key::Down => if si < k.pane_items(sp).len() - 1 {
            (p.select(sp, si + 1), k, Reaction::Save)
        } else {
            (p, k, Reaction::Save)
        },
        Key::Up => if si > 0 {
            (p.select(sp, si - 1), k, Reaction::Save)
        } else {
            (p, k, Reaction::Save)
        },
        Key::Char(c) => char_step(p, k, c),
        Key::Other => (p, k, Reaction::Save),
    }
}

/// The keys on which the screen reads only panes that exist and resolve, and cards
/// that exist.
pub open spec fn step_defined(p: PaneView, k: KanbanView, key: Key) -> bool {
    let sp = p.selected_pane;
    let si = p.selected_item;
    let n = k.lists.len() as int;
    match canonical(key) {
        Key::Left => sp > 0 ==> k.pane_resolved(sp - 1),
        Key::Right => sp < n - 1 ==> k.pane_resolved(sp + 1),
        Key::Down => k.pane_resolved(sp) && k.pane_items(sp).len() >= 1,
        Key::Up => true,
        Key::Char(c) => if c == 'x' {
            k.pane_resolved(sp) && (k.pane_items(sp).len() > 0 ==> 0 <= si < k.pane_items(
                sp,
            ).len())
        } else if c == 'X' {
            n > 1 ==> 0 <= sp < n
        } else if c == 'w' {
            si > 0 ==> k.pane_resolved(sp) && si < k.pane_items(sp).len()
        } else if c == 's' {
            k.pane_resolved(sp) && (si < k.pane_items(sp).len() - 1 ==> si >= 0)
        } else if c == 'a' {
            sp != 0 ==> k.pane_resolved(sp) && k.pane_resolved(sp - 1) && 0 <= si < k.pane_items(
                sp,
            ).len()
        } else if c == 'd' {
            sp != n - 1 ==> k.pane_resolved(sp) && k.pane_resolved(sp + 1) && 0 <= si
                < k.pane_items(sp).len()
        } else {
            true
        },
        Key::Other => true,
    }
}

/// The screen and the board once the name asked for has been typed.
pub open spec fn finish(p: PaneView, k: KanbanView, kind: PromptKind, text: Seq<char>) -> (
    PaneView,
    KanbanView,
) {
    match kind {
        PromptKind::NewItem => (p, k.set_items(k.lists[0], k.pane_items(0).push(text))),
        PromptKind::NewList => (p.with_dividers_for(k.lists.len() + 1), k.add_list(text)),
    }
}

/// A new card goes to the first pane, which must exist and resolve.
pub open spec fn finish_defined(k: KanbanView, kind: PromptKind) -> bool {
    match kind {
        PromptKind::NewItem => k.pane_resolved(0),
        PromptKind::NewList => true,
    }
}

/// The counts that `key` casts to `i32` fit it: the number of lists (right, `d`),
/// the length of the selected list (down, `s`), and the length of the list a card
/// lands in (`a`, `d`).
pub open spec fn counts_fit(p: PaneView, k: KanbanView, key: Key) -> bool {
    let sp = p.selected_pane;
    let n = k.lists.len() as int;
    match canonical(key) {
        Key::Right => n <= i32::MAX,
        Key::Down => k.pane_items(sp).len() - 1 <= i32::MAX,
        Key::Char(c) => if c == 's' {
            k.pane_items(sp).len() <= i32::MAX
        } else if c == 'a' {
            sp != 0 ==> move_card(p, k, sp - 1).0.selected_item < i32::MAX
        } else if c == 'd' {
            &&& n <= i32::MAX
            &&& sp != n - 1 ==> move_card(p, k, sp + 1).0.selected_item < i32::MAX
        } else {
            true
        },
        _ => true,
    }
}

/// A new list is counted in `i32` when the dividers are recomputed.
pub open spec fn finish_counts_fit(k: KanbanView, kind: PromptKind) -> bool {
    kind == PromptKind::NewList ==> k.lists.len() + 1 <= i32::MAX
}

/// The text typed at a prompt after `key`, and whether the prompt is done.
pub open spec fn prompt_next(text: Seq<char>, key: Key) -> (Seq<char>, bool) {
    match key {
        Key::Char(c) => if c == '\n' {
            (text, true)
        } else {
            (text.push(c), false)
        },
        _ => (text, false),
    }
}

/// The entry of pane `pane`.
fn entry_of_pane(kanban: &Kanban, pane: usize) -> (kidx: usize)
    requires
        kanban@.keys_distinct(),
        kanban@.pane_resolved(pane as int),
    ensures
        kidx < kanban@.entries.len(),
        kanban@.entries[kidx as int].0 == kanban@.lists[pane as int],
        kidx == kanban@.entry_index(kanban@.lists[pane as int]),
{
    match kanban.find_list(&kanban.lists[pane]) {
        Some(kidx) => {
            proof {
                lemma_entry_index(kanban@, kidx as int);
            }
            kidx
        },
        None => {
            assert(kanban@.lists[pane as int] == kanban.lists@[pane as int]@);
            assert(false);
            0
        },
    }
}

/// The number of cards of pane `pane`, if it exists and resolves.
fn pane_len(kanban: &Kanban, pane: i32) -> (r: Option<usize>)
    requires
        kanban@.keys_distinct(),
    ensures
        match r {
            Some(len) => kanban@.pane_resolved(pane as int) && len == kanban@.pane_items(
                pane as int,
            ).len(),
            None => !kanban@.pane_resolved(pane as int),
        },
{
    if pane < 0 || pane as usize >= kanban.lists.len() {
        return None;
    }
    match kanban.find_list(&kanban.lists[pane as usize]) {
        Some(kidx) => {
            proof {
                lemma_entry_index(kanban@, kidx as int);
            }
            Some(kanban.list_items[kidx].items.len())
        },
        None => {
            assert(kanban@.lists[pane as int] == kanban.lists@[pane as int]@);
            None
        },
    }
}

/// One keystroke at a prompt: a newline ends it, any other character is appended,
/// and other keys are ignored. Returns whether the prompt is done.
pub fn prompt_step(text: &mut String, key: Key) -> (done: bool)
    ensures
        (final(text)@, done) == prompt_next(old(text)@, key),
        done == (key == Key::Char('\n')),
        !done ==> final(text)@ == match key {
            Key::Char(c) => old(text)@.push(c),
            _ => old(text)@,
        },
        done ==> final(text)@ == old(text)@,
{
    match key {
        Key::Char(c) => {
            if c == '\n' {
                true
            } else {
                push_char(text, c);
                false
            }
        },
        _ => false,
    }
}

/// `String::push`: appends one character.
#[verifier::external_body]
fn push_char(s: &mut String, c: char)
    ensures
        final(s)@ == old(s)@.push(c),
{
    s.push(c)
}

/// Whether `finish_prompt` may be called with `kind`: a new card needs a first pane
/// that resolves, a new list an `i32` count; the table's keys must be distinct.
pub fn can_finish(kanban: &Kanban, kind: PromptKind) -> (b: bool)
    ensures
        b == (finish_defined(kanban@, kind) && kanban@.keys_distinct() && finish_counts_fit(
            kanban@,
            kind,
        )),
{
    if !kanban.has_distinct_keys() {
        return false;
    }
    match kind {
        PromptKind::NewItem => pane_len(kanban, 0).is_some(),
        PromptKind::NewList => kanban.lists.len() < 2147483647,
    }
}

/// Whether the list the selected card lands in when it moves to pane `to` keeps an
/// `i32` length: the card leaves its list first, so the two are one list when they
/// share a name.
fn landing_fits(kanban: &Kanban, p: &PaneManager, to: usize) -> (b: bool)
    requires
        kanban@.keys_distinct(),
        kanban@.pane_resolved(p.selected_pane as int),
        kanban@.pane_resolved(to as int),
        0 <= p.selected_item < kanban@.pane_items(p.selected_pane as int).len(),
    ensures
        b == (move_card(p@, kanban@, to as int).0.selected_item < i32::MAX),
{
    let ghost k = kanban@;
    let ghost sp = p.selected_pane as int;
    let ghost si = p.selected_item as int;
    let kcur = entry_of_pane(kanban, p.selected_pane as usize);
    let kto = entry_of_pane(kanban, to);
    proof {
        crate::kanban::lemma_set_items(k, k.lists[sp], k.pane_items(sp).remove(si));
    }
    if kcur == kto {
        kanban.list_items[kto].items.len() <= 2147483647
    } else {
        assert(k.lists[to as int] != k.lists[sp]);
        kanban.list_items[kto].items.len() < 2147483647
    }
}

impl PaneManager {
    /// Whether `handle_key` may be called: the key reads only panes and cards that
    /// exist, the table's keys are distinct and the counts the key casts fit.
    pub fn can_handle(&self, kanban: &Kanban, key: Key) -> (b: bool)
        ensures
            b == (step_defined(self@, kanban@, key) && kanban@.keys_distinct() && counts_fit(
                self@,
                kanban@,
                key,
            )),
    {
        if !kanban.has_distinct_keys() {
            return false;
        }
        let key = canonical_key(key);
        let c = match key {
            Key::Char(c) => c,
            _ => ' ',
        };
        if kanban.lists.len() > 2147483647 {
            // every key that reads the number of lists casts it
            return match key {
                Key::Right => false,
                Key::Char(_) => if c == 'd' {
                    false
                } else {
                    self.can_handle_small(kanban, key)
                },
                _ => self.can_handle_small(kanban, key),
            };
        }
        self.can_handle_small(kanban, key)
    }

    /// `can_handle` once the keys are known distinct, for a canonical key; the number
    /// of lists is only read where it fits an `i32`.
    fn can_handle_small(&self, kanban: &Kanban, key: Key) -> (b: bool)
        requires
            kanban@.keys_distinct(),
            key == canonical(key),
            kanban@.lists.len() > i32::MAX ==> key != Key::Right && key != Key::Char('d'),
        ensures
            b == (step_defined(self@, kanban@, key) && counts_fit(self@, kanban@, key)),
    {
        let sp = self.selected_pane;
        let si = self.selected_item;
        let big = kanban.lists.len() > 2147483647;
        let n: i32 = if big { 0 } else { kanban.lists.len() as i32 };
        match key {
            Key::Left => sp <= 0 || pane_len(kanban, sp - 1).is_some(),
            Key::Right => sp >= n - 1 || pane_len(kanban, sp + 1).is_some(),
            Key::Down => match pane_len(kanban, sp) {
                Some(len) => len >= 1 && len - 1 <= 2147483647,
                None => false,
            },
            Key::Up => true,
            Key::Char(c) => {
                if c == 'x' {
                    match pane_len(kanban, sp) {
                        Some(len) => len == 0 || (0 <= si && (si as usize) < len),
                        None => false,
                    }
                } else if c == 'X' {
                    if big {
                        0 <= sp
                    } else {
                        n <= 1 || (0 <= sp && sp < n)
                    }
                } else if c == 'w' {
                    si <= 0 || match pane_len(kanban, sp) {
                        Some(len) => (si as usize) < len,
                        None => false,
                    }
                } else if c == 's' {
                    match pane_len(kanban, sp) {
                        Some(len) => len <= 2147483647 && (si >= (len as i32) - 1 || si >= 0),
                        None => false,
                    }
                } else if c == 'a' || c == 'd' {
                    if c == 'a' && sp == 0 || c == 'd' && sp == n - 1 {
                        true
                    } else if sp < 0 || (sp as usize) >= kanban.lists.len() {
                        false
                    } else {
                        let other: i32 = if c == 'a' { sp - 1 } else { sp + 1 };
                        match (pane_len(kanban, sp), pane_len(kanban, other)) {
                            (Some(len), Some(_)) => {
                                0 <= si && (si as usize) < len && landing_fits(
                                    kanban,
                                    self,
                                    other as usize,
                                )
                            },
                            _ => false,
                        }
                    }
                } else {
                    true
                }
            },
            Key::Other => true,
        }
    }

    /// Applies `key` to the screen and the board: the arrows (or `h`, `j`, `k`, `l`)
    /// move the selection, `x` deletes the selected card, `X` the selected list, `w`
    /// and `s` move the card up and down, `a` and `d` move it to the neighbouring
    /// pane, and `i`, `I`, `+` ask for the name of a new card or list.
    pub fn handle_key(&mut self, kanban: &mut Kanban, key: Key) -> (r: Reaction)
        requires
            step_defined(old(self)@, old(kanban)@, key),
            old(kanban)@.keys_distinct(),
            counts_fit(old(self)@, old(kanban)@, key),
        ensures
            final(self)@ == step(old(self)@, old(kanban)@, key).0,
            final(kanban)@ == step(old(self)@, old(kanban)@, key).1,
            r == step(old(self)@, old(kanban)@, key).2,
    {
        let key = canonical_key(key);
        match key {
            Key::Left => {
                self.select_left(kanban);
                Reaction::Save
            },
            Key::Right => {
                self.select_right(kanban);
                Reaction::Save
            },
            Key::Down => {
                self.select_down(kanban);
                Reaction::Save
            },
            Key::Up => {
                if self.selected_item > 0 {
                    self.selected_item -= 1;
                }
                Reaction::Save
            },
            Key::Char(c) => {
                if c == 'x' {
                    self.delete_item(kanban)
                } else if c == 'X' {
                    self.delete_list(kanban);
                    Reaction::Save
                } else if c == 'w' {
                    self.raise_item(kanban);
                    Reaction::Save
                } else if c == 's' {
                    self.lower_item(kanban);
                    Reaction::Save
                } else if c == 'a' || c == 'd' {
                    self.shift_item(kanban, c == 'a')
                } else if c == 'i' {
                    Reaction::Prompt(PromptKind::NewItem)
                } else if c == '+' || c == 'I' {
                    Reaction::Prompt(PromptKind::NewList)
                } else {
                    Reaction::Save
                }
            },
            Key::Other => Reaction::Save,
        }
    }

    fn select_left(&mut self, kanban: &Kanban)
        requires
            step_defined(old(self)@, kanban@, Key::Left),
            kanban@.keys_distinct(),
        ensures
            final(self)@ == step(old(self)@, kanban@, Key::Left).0,
    {
        if self.selected_pane > 0 {
            let np = self.selected_pane - 1;
            let kidx = entry_of_pane(kanban, np as usize);
            if kanban.list_items[kidx].items.len() > 0 {
                self.selected_pane = np;
                self.selected_item = 0;
            }
        }
    }

    fn select_right(&mut self, kanban: &Kanban)
        requires
            step_defined(old(self)@, kanban@, Key::Right),
            kanban@.keys_distinct(),
            kanban@.lists.len() <= i32::MAX,
        ensures
            final(self)@ == step(old(self)@, kanban@, Key::Right).0,
    {
        if self.selected_pane < kanban.lists.len() as i32 - 1 {
            let np = self.selected_pane + 1;
            let kidx = entry_of_pane(kanban, np as usize);
            if kanban.list_items[kidx].items.len() > 0 {
                self.selected_pane = np;
                self.selected_item = 0;
            }
        }
    }

    fn select_down(&mut self, kanban: &Kanban)
        requires
            step_defined(old(self)@, kanban@, Key::Down),
            kanban@.keys_distinct(),
            counts_fit(old(self)@, kanban@, Key::Down),
        ensures
            final(self)@ == step(old(self)@, kanban@, Key::Down).0,
    {
        let kidx = entry_of_pane(kanban, self.selected_pane as usize);
        let len = kanban.list_items[kidx].items.len();
        assert(kanban@.entries[kidx as int].1.len() - 1 <= i32::MAX);
        if self.selected_item < (len - 1) as i32 {
            self.selected_item += 1;
        }
    }

    fn delete_item(&mut self, kanban: &mut Kanban) -> (r: Reaction)
        requires
            step_defined(old(self)@, old(kanban)@, Key::Char('x')),
            old(kanban)@.keys_distinct(),
        ensures
            final(self)@ == old(self)@,
            final(kanban)@ == step(old(self)@, old(kanban)@, Key::Char('x')).1,
            r == step(old(self)@, old(kanban)@, Key::Char('x')).2,
    {
        let kidx = entry_of_pane(kanban, self.selected_pane as usize);
        if kanban.list_items[kidx].items.len() == 0 {
            return Reaction::Skip;
        }
        let card = kanban.take_item(kidx, self.selected_item as usize);
        kanban.last_deleted = card;
        Reaction::Save
    }

    fn delete_list(&mut self, kanban: &mut Kanban)
        requires
            step_defined(old(self)@, old(kanban)@, Key::Char('X')),
            old(kanban)@.keys_distinct(),
        ensures
            final(self)@ == step(old(self)@, old(kanban)@, Key::Char('X')).0,
            final(kanban)@ == step(old(self)@, old(kanban)@, Key::Char('X')).1,
    {
        if kanban.lists.len() > 1 {
            let sp = self.selected_pane as usize;
            let ghost old_k = kanban@;
            match kanban.find_list(&kanban.lists[sp]) {
                Some(kidx) => {
                    proof {
                        lemma_entry_index(old_k, kidx as int);
                    }
                    let _dropped = kanban.list_items.remove(kidx);
                    proof {
                        assert(kanban@.entries =~= old_k.entries.remove(kidx as int));
                    }
                },
                None => {
                    assert(old_k.lists[sp as int] == kanban.lists@[sp as int]@);
                },
            }
            let _name = kanban.lists.remove(sp);
            proof {
                assert(kanban@.lists =~= old_k.lists.remove(sp as int));
            }
            if self.selected_pane > 0 {
                self.selected_pane -= 1;
            }
        }
    }

    fn raise_item(&mut self, kanban: &mut Kanban)
        requires
            step_defined(old(self)@, old(kanban)@, Key::Char('w')),
            old(kanban)@.keys_distinct(),
        ensures
            final(self)@ == step(old(self)@, old(kanban)@, Key::Char('w')).0,
            final(kanban)@ == step(old(self)@, old(kanban)@, Key::Char('w')).1,
    {
        if self.selected_item > 0 {
            let ghost k0 = kanban@;
            let kidx = entry_of_pane(kanban, self.selected_pane as usize);
            let si = self.selected_item as usize;
            let ghost items = k0.entries[kidx as int].1;
            let card = kanban.take_item(kidx, si);
            proof {
                lemma_with_entry_items(k0, kidx as int, items.remove(si as int));
            }
            kanban.insert_item(kidx, si - 1, card);
            proof {
                assert(items.remove(si as int).insert(si - 1, items[si as int]) =~= swap_adjacent(
                    items,
                    si - 1,
                ));
                assert(kanban@.entries =~= k0.with_entry_items(
                    kidx as int,
                    swap_adjacent(items, si - 1),
                ).entries);
            }
            self.selected_item -= 1;
        }
    }

    fn lower_item(&mut self, kanban: &mut Kanban)
        requires
            step_defined(old(self)@, old(kanban)@, Key::Char('s')),
            old(kanban)@.keys_distinct(),
            counts_fit(old(self)@, old(kanban)@, Key::Char('s')),
        ensures
            final(self)@ == step(old(self)@, old(kanban)@, Key::Char('s')).0,
            final(kanban)@ == step(old(self)@, old(kanban)@, Key::Char('s')).1,
    {
        let ghost k0 = kanban@;
        let kidx = entry_of_pane(kanban, self.selected_pane as usize);
        let len = kanban.list_items[kidx].items.len();
        assert(k0.entries[kidx as int].1.len() <= i32::MAX);
        if self.selected_item < len as i32 - 1 {
            let si = self.selected_item as usize;
            let ghost items = k0.entries[kidx as int].1;
            let card = kanban.take_item(kidx, si);
            proof {
                lemma_with_entry_items(k0, kidx as int, items.remove(si as int));
            }
            kanban.insert_item(kidx, si + 1, card);
            proof {
                assert(items.remove(si as int).insert(si + 1, items[si as int]) =~= swap_adjacent(
                    items,
                    si as int,
                ));
                assert(kanban@.entries =~= k0.with_entry_items(
                    kidx as int,
                    swap_adjacent(items, si as int),
                ).entries);
            }
            self.selected_item += 1;
        }
    }

    fn shift_item(&mut self, kanban: &mut Kanban, leftward: bool) -> (r: Reaction)
        requires
            step_defined(old(self)@, old(kanban)@, Key::Char(if leftward { 'a' } else { 'd' })),
            old(kanban)@.keys_distinct(),
            counts_fit(old(self)@, old(kanban)@, Key::Char(if leftward { 'a' } else { 'd' })),
        ensures
            final(self)@ == step(old(self)@, old(kanban)@, Key::Char(if leftward { 'a' } else { 'd' })).0,
            final(kanban)@ == step(old(self)@, old(kanban)@, Key::Char(if leftward { 'a' } else { 'd' })).1,
            r == step(old(self)@, old(kanban)@, Key::Char(if leftward { 'a' } else { 'd' })).2,
    {
        let ghost k0 = kanban@;
        let changer: i32;
        if leftward {
            if self.selected_pane == 0 {
                return Reaction::Skip;
            }
            changer = -1;
        } else {
            if self.selected_pane == kanban.lists.len() as i32 - 1 {
                return Reaction::Skip;
            }
            changer = 1;
        }
        let sp = self.selected_pane;
        let si = self.selected_item as usize;
        let kcur = entry_of_pane(kanban, sp as usize);
        let ghost items = k0.entries[kcur as int].1;
        let card = kanban.take_item(kcur, si);
        let ghost k1 = kanban@;
        proof {
            lemma_with_entry_items(k0, kcur as int, items.remove(si as int));
            assert(k1 == k0.set_items(k0.lists[sp as int], k0.pane_items(sp as int).remove(
                si as int,
            )));
        }
        let dest = sp + changer;
        let knext = entry_of_pane(kanban, dest as usize);
        let ghost landed = k1.entries[knext as int].1.push(card@);
        kanban.push_item(knext, card);
        let len = kanban.list_items[knext].items.len();
        proof {
            assert(kanban@.entries[knext as int].1 == landed);
            assert(kanban@.entries[knext as int].1.len() == len);
            if knext == kcur {
                assert(k1.entries[knext as int].1 == items.remove(si as int));
            } else {
                assert(k1.entries[knext as int].1 == k0.entries[knext as int].1);
            }
            assert(kanban@.pane_items(dest as int) == landed) by {
                crate::kanban::lemma_set_items(k1, k0.lists[dest as int], landed);
            }
        }
        self.selected_item = len as i32 - 1;
        self.selected_pane = dest;
        Reaction::Save
    }

    /// Finishes a prompt with the `text` typed: a new card is appended to the first
    /// pane; a new list becomes the last pane, starts empty (emptying any cards filed
    /// under the same name), and the dividers are recomputed.
    pub fn finish_prompt(&mut self, kanban: &mut Kanban, kind: PromptKind, text: String)
        requires
            finish_defined(old(kanban)@, kind),
            old(kanban)@.keys_distinct(),
            finish_counts_fit(old(kanban)@, kind),
        ensures
            final(self)@ == finish(old(self)@, old(kanban)@, kind, text@).0,
            final(kanban)@ == finish(old(self)@, old(kanban)@, kind, text@).1,
    {
        match kind {
            PromptKind::NewItem => {
                let kidx = entry_of_pane(kanban, 0);
                kanban.push_item(kidx, Item { name: text });
            },
            PromptKind::NewList => {
                let ghost k0 = kanban@;
                kanban.lists.push(text.clone());
                match kanban.find_list(&text) {
                    Some(kidx) => {
                        proof {
                            lemma_entry_index(k0, kidx as int);
                        }
                        kanban.list_items[kidx].items = Vec::new();
                        proof {
                            assert(kanban.list_items@[kidx as int].item_names() =~= Seq::<
                                Seq<char>,
                            >::empty());
                            assert(kanban@.entries =~= k0.add_list(text@).entries);
                        }
                    },
                    None => {
                        kanban.list_items.push(ItemList { name: text, items: Vec::new() });
                        proof {
                            assert(kanban.list_items@.last().item_names() =~= Seq::<
                                Seq<char>,
                            >::empty());
                            assert(kanban@.entries =~= k0.add_list(text@).entries);
                        }
                    },
                }
                assert(kanban@.lists =~= k0.lists.push(text@));
                self.recompute_dividers(kanban);
            },
        }
    }
}

/// `h`, `j`, `k` and `l` read as the arrow keys.
fn canonical_key(key: Key) -> (r: Key)
    ensures
        r == canonical(key),
{
    match key {
        Key::Char(c) => {
            if c == 'h' {
                Key::Left
            } else if c == 'j' {
                Key::Down
            } else if c == 'k' {
                Key::Up
            } else if c == 'l' {
                Key::Right
            } else {
                key
            }
        },
        _ => key,
    }
}

} // verus!

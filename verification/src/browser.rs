use vstd::prelude::*;
use crate::kanban::{Kanban, KanbanView};
use crate::input::{Key, canonical};

verus! {

/// The selection of the list view: the selected card and the selected list.
pub struct Selection {
    pub selected: usize,
    pub selected_list: usize,
}

/// What a key does to the list view's selection `(selected, selected_list)`, and
/// whether it quits: `q` quits; down and up move to the card below or above in the
/// selected list, right and left to the list on either side, when there is one.
pub open spec fn browse(s: (int, int), k: KanbanView, key: Key) -> ((int, int), bool) {
    let (selected, selected_list) = s;
    if key == Key::Char('q') {
        (s, true)
    } else {
        match canonical(key) {
            Key::Down => if selected < k.pane_items(selected_list).len() - 1 {
                ((selected + 1, selected_list), false)
            } else {
                (s, false)
            },
            Key::Up => if selected > 0 {
                ((selected - 1, selected_list), false)
            } else {
                (s, false)
            },
            Key::Right => if selected_list < k.lists.len() - 1 {
                ((selected, selected_list + 1), false)
            } else {
                (s, false)
            },
            Key::Left => if selected_list > 0 {
                ((selected, selected_list - 1), false)
            } else {
                (s, false)
            },
            _ => (s, false),
        }
    }
}

/// Moving down reads the selected list, which must exist, resolve and hold a card.
pub open spec fn browse_defined(s: (int, int), k: KanbanView, key: Key) -> bool {
    key != Key::Char('q') && canonical(key) == Key::Down ==> k.pane_resolved(s.1) && k.pane_items(
        s.1,
    ).len() >= 1
}

impl Selection {
    pub open spec fn pair(&self) -> (int, int) {
        (self.selected as int, self.selected_list as int)
    }

    /// The first card of the first list.
    pub fn new() -> (s: Selection)
        ensures
            s.pair() == (0int, 0int),
    {
        Selection { selected: 0, selected_list: 0 }
    }

    /// Whether `on_key` may be called with `key`.
    pub fn can_browse(&self, kanban: &Kanban, key: Key) -> (b: bool)
        requires
            kanban@.keys_distinct(),
        ensures
            b == browse_defined(self.pair(), kanban@, key),
    {
        if key == Key::Char('q') || !is_down(key) {
            return true;
        }
        if self.selected_list >= kanban.lists.len() {
            return false;
        }
        match kanban.find_list(&kanban.lists[self.selected_list]) {
            Some(kidx) => {
                proof {
                    crate::kanban::lemma_entry_index(kanban@, kidx as int);
                }
                kanban.list_items[kidx].items.len() >= 1
            },
            None => {
                assert(kanban@.lists[self.selected_list as int]
                    == kanban.lists@[self.selected_list as int]@);
                false
            },
        }
    }

    /// Applies `key` to the selection; returns whether the view should quit.
    pub fn on_key(&mut self, kanban: &Kanban, key: Key) -> (quit: bool)
        requires
            kanban@.keys_distinct(),
            browse_defined(old(self).pair(), kanban@, key),
        ensures
            (final(self).pair(), quit) == browse(old(self).pair(), kanban@, key),
    {
        if key == Key::Char('q') {
            return true;
        }
        match key {
            Key::Char(c) => {
                if c == 'j' {
                    self.move_down(kanban);
                } else if c == 'k' {
                    self.move_up();
                } else if c == 'l' {
                    self.move_right(kanban);
                } else if c == 'h' {
                    self.move_left();
                }
            },
            Key::Down => self.move_down(kanban),
            Key::Up => self.move_up(),
            Key::Right => self.move_right(kanban),
            Key::Left => self.move_left(),
            Key::Other => {},
        }
        false
    }

    fn move_down(&mut self, kanban: &Kanban)
        requires
            kanban@.keys_distinct(),
            kanban@.pane_resolved(old(self).selected_list as int),
            kanban@.pane_items(old(self).selected_list as int).len() >= 1,
        ensures
            final(self).pair() == browse(old(self).pair(), kanban@, Key::Down).0,
    {
        let kidx = match kanban.find_list(&kanban.lists[self.selected_list]) {
            Some(kidx) => kidx,
            None => {
                assert(kanban@.lists[self.selected_list as int]
                    == kanban.lists@[self.selected_list as int]@);
                assert(false);
                0
            },
        };
        proof {
            crate::kanban::lemma_entry_index(kanban@, kidx as int);
        }
        if self.selected < kanban.list_items[kidx].items.len() - 1 {
            self.selected += 1;
        }
    }

    fn move_up(&mut self)
        ensures
            final(self).selected_list == old(self).selected_list,
            final(self).selected == (if old(self).selected > 0 {
                old(self).selected - 1
            } else {
                old(self).selected as int
            }),
    {
        if self.selected > 0 {
            self.selected -= 1;
        }
    }

    fn move_right(&mut self, kanban: &Kanban)
        ensures
            final(self).selected == old(self).selected,
            final(self).selected_list == (if old(self).selected_list < kanban@.lists.len() - 1 {
                old(self).selected_list + 1
            } else {
                old(self).selected_list as int
            }),
    {
        if kanban.lists.len() > 0 && self.selected_list < kanban.lists.len() - 1 {
            self.selected_list += 1;
        }
    }

    fn move_left(&mut self)
        ensures
            final(self).selected == old(self).selected,
            final(self).selected_list == (if old(self).selected_list > 0 {
                old(self).selected_list - 1
            } else {
                old(self).selected_list as int
            }),
    {
        if self.selected_list > 0 {
            self.selected_list -= 1;
        }
    }

    /// The card to highlight in list `pos`: the selected card in the selected list.
    pub fn highlight_in(&self, pos: usize) -> (r: Option<usize>)
        ensures
            r == (if self.selected_list == pos {
                Some(self.selected)
            } else {
                None::<usize>
            }),
    {
        if self.selected_list == pos {
            Some(self.selected)
        } else {
            None
        }
    }
}

fn is_down(key: Key) -> (b: bool)
    ensures
        b == (canonical(key) == Key::Down),
{
    match key {
        Key::Down => true,
        Key::Char(c) => c == 'j',
        _ => false,
    }
}

/// The left edge of list `pos` in the list view: lists are 50 columns apart.
pub fn list_area_x(pos: usize) -> (x: u16)
    requires
        (pos as u16) * 50 <= u16::MAX,
    ensures
        x == (pos as u16) * 50,
{
    pos as u16 * 50
}

} // verus!

use vstd::prelude::*;

verus! {

/// A card on the board.
pub struct Item {
    pub name: String,
}

impl View for Item {
    type V = Seq<char>;

    open spec fn view(&self) -> Seq<char> {
        self.name@
    }
}

/// The cards filed under one list name: one entry of the board's name-to-cards table.
pub struct ItemList {
    pub name: String,
    pub items: Vec<Item>,
}

impl ItemList {
    pub open spec fn item_names(&self) -> Seq<Seq<char>> {
        self.items@.map_values(|it: Item| it@)
    }
}

impl View for ItemList {
    type V = (Seq<char>, Seq<Seq<char>>);

    open spec fn view(&self) -> (Seq<char>, Seq<Seq<char>>) {
        (self.name@, self.item_names())
    }
}

/// The whole board: the list names in display order, the table that maps each list
/// name to its cards, and the last card that was deleted. The table is a vector of
/// entries whose names are distinct (`keys_distinct`): a map keyed by `String` is
/// one about which nothing can be proved here, as `String` keys carry no hashing model.
pub struct Kanban {
    pub lists: Vec<String>,
    pub list_items: Vec<ItemList>,
    pub last_deleted: Item,
}

/// The mathematical model of a board. `entries` is the name-to-cards table; a name
/// occurs at most once in it on a board whose keys are distinct.
pub struct KanbanView {
    pub lists: Seq<Seq<char>>,
    pub entries: Seq<(Seq<char>, Seq<Seq<char>>)>,
    pub last_deleted: Seq<char>,
}

impl View for Kanban {
    type V = KanbanView;

    open spec fn view(&self) -> KanbanView {
        KanbanView {
            lists: self.lists@.map_values(|s: String| s@),
            entries: self.list_items@.map_values(|e: ItemList| e@),
            last_deleted: self.last_deleted@,
        }
    }
}

/// `s` with the elements at `i` and `i + 1` exchanged.
pub open spec fn swap_adjacent(s: Seq<Seq<char>>, i: int) -> Seq<Seq<char>> {
    s.update(i, s[i + 1]).update(i + 1, s[i])
}

impl KanbanView {
    /// The table holds each name at most once (it is a map).
    pub open spec fn keys_distinct(self) -> bool {
        forall|a: int, b: int|
            0 <= a < self.entries.len() && 0 <= b < self.entries.len() && a != b
                ==> #[trigger] self.entries[a].0 != #[trigger] self.entries[b].0
    }

    pub open spec fn has_entry(self, name: Seq<char>) -> bool {
        exists|k: int| 0 <= k < self.entries.len() && #[trigger] self.entries[k].0 == name
    }

    /// Where `name` stands in the table (meaningful when `has_entry(name)`).
    pub open spec fn entry_index(self, name: Seq<char>) -> int {
        choose|k: int| 0 <= k < self.entries.len() && #[trigger] self.entries[k].0 == name
    }

    /// The cards filed under `name`.
    pub open spec fn items_of(self, name: Seq<char>) -> Seq<Seq<char>> {
        self.entries[self.entry_index(name)].1
    }

    /// Pane `pane` exists and its list name has cards filed under it.
    pub open spec fn pane_resolved(self, pane: int) -> bool {
        0 <= pane < self.lists.len() && self.has_entry(self.lists[pane])
    }

    /// The cards shown in pane `pane`.
    pub open spec fn pane_items(self, pane: int) -> Seq<Seq<char>> {
        self.items_of(self.lists[pane])
    }

    /// Every pane resolves to an entry of a table whose keys are distinct.
    pub open spec fn well_formed(self) -> bool {
        &&& self.keys_distinct()
        &&& forall|i: int| 0 <= i < self.lists.len() ==> #[trigger] self.pane_resolved(i)
    }

    /// The board with entry `k` holding `items`.
    pub open spec fn with_entry_items(self, k: int, items: Seq<Seq<char>>) -> KanbanView {
        KanbanView {
            lists: self.lists,
            entries: self.entries.update(k, (self.entries[k].0, items)),
            last_deleted: self.last_deleted,
        }
    }

    /// The board with `items` filed under `name`.
    pub open spec fn set_items(self, name: Seq<char>, items: Seq<Seq<char>>) -> KanbanView {
        self.with_entry_items(self.entry_index(name), items)
    }

    pub open spec fn with_last_deleted(self, card: Seq<char>) -> KanbanView {
        KanbanView { lists: self.lists, entries: self.entries, last_deleted: card }
    }

    /// The board without pane `pane` and without the entry of its name, if it has one.
    pub open spec fn remove_pane(self, pane: int) -> KanbanView {
        KanbanView {
            lists: self.lists.remove(pane),
            entries: if self.has_entry(self.lists[pane]) {
                self.entries.remove(self.entry_index(self.lists[pane]))
            } else {
                self.entries
            },
            last_deleted: self.last_deleted,
        }
    }

    /// The board with a new last pane `name` whose list is empty; an entry already
    /// filed under `name` is emptied.
    pub open spec fn add_list(self, name: Seq<char>) -> KanbanView {
        KanbanView {
            lists: self.lists.push(name),
            entries: if self.has_entry(name) {
                self.entries.update(self.entry_index(name), (name, Seq::empty()))
            } else {
                self.entries.push((name, Seq::empty()))
            },
            last_deleted: self.last_deleted,
        }
    }
}

/// On a table with distinct keys, the entry found for a name is the one that holds it.
pub proof fn lemma_entry_index(v: KanbanView, k: int)
    requires
        v.keys_distinct(),
        0 <= k < v.entries.len(),
    ensures
        v.has_entry(v.entries[k].0),
        v.entry_index(v.entries[k].0) == k,
{
    let name = v.entries[k].0;
    assert(v.entries[k].0 == name);
    let j = v.entry_index(name);
    assert(v.entries[j].0 == name);
}

/// Changing the cards of an entry keeps every name where it was.
pub proof fn lemma_with_entry_items(v: KanbanView, k: int, items: Seq<Seq<char>>)
    requires
        0 <= k < v.entries.len(),
    ensures
        v.with_entry_items(k, items).lists == v.lists,
        v.with_entry_items(k, items).entries.len() == v.entries.len(),
        forall|j: int|
            0 <= j < v.entries.len() ==> #[trigger] v.with_entry_items(k, items).entries[j].0
                == v.entries[j].0,
        v.keys_distinct() ==> v.with_entry_items(k, items).keys_distinct(),
        forall|name: Seq<char>| #[trigger]
            v.with_entry_items(k, items).has_entry(name) == v.has_entry(name),
{
    let w = v.with_entry_items(k, items);
    assert forall|j: int| 0 <= j < v.entries.len() implies #[trigger] w.entries[j].0
        == v.entries[j].0 by {}
    assert forall|name: Seq<char>| #[trigger] w.has_entry(name) == v.has_entry(name) by {
        if w.has_entry(name) {
            let j = choose|j: int| 0 <= j < w.entries.len() && #[trigger] w.entries[j].0 == name;
            assert(v.entries[j].0 == name);
        }
        if v.has_entry(name) {
            let j = choose|j: int| 0 <= j < v.entries.len() && #[trigger] v.entries[j].0 == name;
            assert(w.entries[j].0 == name);
        }
    }
    if v.keys_distinct() {
        assert forall|a: int, b: int|
            0 <= a < w.entries.len() && 0 <= b < w.entries.len() && a != b implies #[trigger] w.entries[a].0
                != #[trigger] w.entries[b].0 by {
            assert(v.entries[a].0 != v.entries[b].0);
        }
    }
}

/// Filing `items` under a name that has an entry changes the cards of that name
/// only: names, lookups and the cards of every other name stay as they were.
pub proof fn lemma_set_items(k: KanbanView, name: Seq<char>, items: Seq<Seq<char>>)
    requires
        k.keys_distinct(),
        k.has_entry(name),
    ensures
        k.set_items(name, items).lists == k.lists,
        k.set_items(name, items).last_deleted == k.last_deleted,
        k.set_items(name, items).entries.len() == k.entries.len(),
        k.set_items(name, items).keys_distinct(),
        k.set_items(name, items).items_of(name) == items,
        forall|x: Seq<char>| #[trigger] k.set_items(name, items).has_entry(x) == k.has_entry(x),
        forall|x: Seq<char>|
            k.has_entry(x) ==> #[trigger] k.set_items(name, items).entry_index(x) == k.entry_index(
                x,
            ),
        forall|x: Seq<char>|
            k.has_entry(x) && x != name ==> #[trigger] k.set_items(name, items).items_of(x)
                == k.items_of(x),
{
    let i = k.entry_index(name);
    let w = k.set_items(name, items);
    assert(k.entries[i].0 == name);
    lemma_with_entry_items(k, i, items);
    assert forall|x: Seq<char>| k.has_entry(x) implies #[trigger] w.entry_index(x) == k.entry_index(
        x,
    ) by {
        let j = k.entry_index(x);
        assert(k.entries[j].0 == x);
        assert(w.entries[j].0 == x);
        lemma_entry_index(w, j);
    }
    lemma_entry_index(w, i);
}

impl Kanban {
    /// An empty board; the last deleted card reads `<none>`.
    pub fn new() -> (k: Kanban)
        ensures
            k@.lists.len() == 0,
            k@.entries.len() == 0,
            k@.last_deleted == "<none>"@,
    {
        let k = Kanban {
            lists: Vec::new(),
            list_items: Vec::new(),
            last_deleted: Item { name: String::from_str("<none>") },
        };
        assert(k@.lists =~= Seq::<Seq<char>>::empty());
        assert(k@.entries =~= Seq::<(Seq<char>, Seq<Seq<char>>)>::empty());
        k
    }

    /// Where `name` stands in the table, if it is there.
    pub fn find_list(&self, name: &String) -> (r: Option<usize>)
        ensures
            match r {
                Some(k) => k < self@.entries.len() && self@.entries[k as int].0 == name@,
                None => !self@.has_entry(name@),
            },
    {
        let n = self.list_items.len();
        let mut k: usize = 0;
        while k < n
            invariant
                n == self.list_items.len(),
                k <= n,
                forall|j: int| 0 <= j < k ==> #[trigger] self@.entries[j].0 != name@,
            decreases n - k,
        {
            if self.list_items[k].name == *name {
                return Some(k);
            }
            k = k + 1;
        }
        None
    }

    /// Whether every list name occurs at most once in the table.
    pub fn has_distinct_keys(&self) -> (b: bool)
        ensures
            b == self@.keys_distinct(),
    {
        let n = self.list_items.len();
        let mut a: usize = 0;
        while a < n
            invariant
                n == self.list_items.len(),
                a <= n,
                forall|x: int, y: int|
                    0 <= x < a && 0 <= y < n && x != y ==> #[trigger] self@.entries[x].0
                        != #[trigger] self@.entries[y].0,
            decreases n - a,
        {
            let mut b: usize = 0;
            while b < n
                invariant
                    n == self.list_items.len(),
                    a < n,
                    b <= n,
                    forall|x: int, y: int|
                        0 <= x < a && 0 <= y < n && x != y ==> #[trigger] self@.entries[x].0
                            != #[trigger] self@.entries[y].0,
                    forall|y: int|
                        0 <= y < b && y != a ==> self@.entries[a as int].0
                            != #[trigger] self@.entries[y].0,
                decreases n - b,
            {
                if b != a && self.list_items[a].name == self.list_items[b].name {
                    assert(self@.entries[a as int].0 == self@.entries[b as int].0);
                    return false;
                }
                b = b + 1;
            }
            a = a + 1;
        }
        true
    }

    /// Whether the board is well formed: distinct keys, and an entry for every pane.
    pub fn is_well_formed(&self) -> (b: bool)
        ensures
            b == self@.well_formed(),
    {
        if !self.has_distinct_keys() {
            return false;
        }
        let n = self.lists.len();
        let mut i: usize = 0;
        while i < n
            invariant
                n == self.lists.len(),
                i <= n,
                forall|j: int| 0 <= j < i ==> #[trigger] self@.pane_resolved(j),
            decreases n - i,
        {
            match self.find_list(&self.lists[i]) {
                Some(k) => {
                    assert(self@.entries[k as int].0 == self@.lists[i as int]);
                },
                None => {
                    assert(!self@.pane_resolved(i as int));
                    return false;
                },
            }
            i = i + 1;
        }
        true
    }

    /// Removes and returns card `i` of entry `k`.
    pub(crate) fn take_item(&mut self, k: usize, i: usize) -> (card: Item)
        requires
            k < old(self).list_items.len(),
            i < old(self)@.entries[k as int].1.len(),
        ensures
            final(self)@ == old(self)@.with_entry_items(
                k as int,
                old(self)@.entries[k as int].1.remove(i as int),
            ),
            card@ == old(self)@.entries[k as int].1[i as int],
            final(self).list_items.len() == old(self).list_items.len(),
    {
        let ghost old_items = self.list_items@[k as int].items@;
        let card = self.list_items[k].items.remove(i);
        proof {
            let ghost new_items = self.list_items@[k as int].items@;
            assert(new_items =~= old_items.remove(i as int));
            assert(self.list_items@[k as int].item_names() =~= old(self)@.entries[k as int].1.remove(
                i as int,
            ));
            assert(self@.entries =~= old(self)@.with_entry_items(
                k as int,
                old(self)@.entries[k as int].1.remove(i as int),
            ).entries);
            assert(self@.lists =~= old(self)@.lists);
        }
        card
    }

    /// Appends `card` to entry `k`.
    pub(crate) fn push_item(&mut self, k: usize, card: Item)
        requires
            k < old(self).list_items.len(),
        ensures
            final(self)@ == old(self)@.with_entry_items(
                k as int,
                old(self)@.entries[k as int].1.push(card@),
            ),
            final(self).list_items.len() == old(self).list_items.len(),
    {
        let ghost old_items = self.list_items@[k as int].items@;
        let ghost c = card;
        self.list_items[k].items.push(card);
        proof {
            let ghost new_items = self.list_items@[k as int].items@;
            assert(new_items =~= old_items.push(c));
            assert(self.list_items@[k as int].item_names() =~= old(self)@.entries[k as int].1.push(
                c@,
            ));
            assert(self@.entries =~= old(self)@.with_entry_items(
                k as int,
                old(self)@.entries[k as int].1.push(c@),
            ).entries);
            assert(self@.lists =~= old(self)@.lists);
        }
    }

    /// Inserts `card` at position `i` of entry `k`.
    pub(crate) fn insert_item(&mut self, k: usize, i: usize, card: Item)
        requires
            k < old(self).list_items.len(),
            i <= old(self)@.entries[k as int].1.len(),
        ensures
            final(self)@ == old(self)@.with_entry_items(
                k as int,
                old(self)@.entries[k as int].1.insert(i as int, card@),
            ),
            final(self).list_items.len() == old(self).list_items.len(),
    {
        let ghost old_items = self.list_items@[k as int].items@;
        let ghost c = card;
        self.list_items[k].items.insert(i, card);
        proof {
            let ghost new_items = self.list_items@[k as int].items@;
            assert(new_items =~= old_items.insert(i as int, c));
            assert(self.list_items@[k as int].item_names() =~= old(self)@.entries[k as int].1.insert(
                i as int,
                c@,
            ));
            assert(self@.entries =~= old(self)@.with_entry_items(
                k as int,
                old(self)@.entries[k as int].1.insert(i as int, c@),
            ).entries);
            assert(self@.lists =~= old(self)@.lists);
        }
    }
}

} // verus!

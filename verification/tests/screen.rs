use conban::browser::{list_area_x, Selection};
use conban::input::{Key, PromptKind};
use conban::kanban::{Item, ItemList, Kanban};
use conban::layout::{prompt_label, Glyph};
use conban::pane_manager::PaneManager;

fn sample() -> Kanban {
    let mut k = Kanban::new();
    for (name, cards) in [("todo", vec!["a", "b", "c"]), ("doing", vec!["d"]), ("done", vec![])] {
        k.lists.push(name.to_string());
        k.list_items.push(ItemList {
            name: name.to_string(),
            items: cards.iter().map(|c| Item { name: c.to_string() }).collect(),
        });
    }
    k
}

#[test]
fn titles_are_centred_in_their_panes() {
    let k = sample();
    let pm = PaneManager::new(24, 90, &k);
    assert!(pm.can_place_titles(&k));
    let v = pm.title_placements(&k);
    assert_eq!(v.len(), 4);
    assert_eq!((v[0].row, v[0].col, v[0].text.as_str()), (0, 13, "todo"));
    assert_eq!((v[1].row, v[1].col, v[1].text.as_str()), (0, 43, "doing"));
    assert_eq!((v[2].row, v[2].col, v[2].text.as_str()), (0, 72, "done"));
    assert_eq!((v[3].row, v[3].col, v[3].text.as_str()), (23, 35, "Last Deleted: <none>"));
    assert!(v.iter().all(|p| !p.highlighted));
}

#[test]
fn titles_need_a_pane() {
    let k = Kanban::new();
    let pm = PaneManager::new(24, 90, &k);
    assert!(!pm.can_place_titles(&k));
}

#[test]
fn cards_are_placed_below_titles() {
    let k = sample();
    let mut pm = PaneManager::new(24, 90, &k);
    pm.selected_item = 1;
    assert!(pm.can_place_cards(&k));
    let v = pm.item_placements(&k);
    assert_eq!(v.len(), 3);
    assert_eq!(v[0].len(), 3);
    assert_eq!(v[1].len(), 1);
    assert_eq!(v[2].len(), 0);
    assert_eq!((v[0][0].row, v[0][0].col, v[0][0].text.as_str(), v[0][0].highlighted), (2, 1, "a", false));
    assert_eq!((v[0][1].row, v[0][1].col, v[0][1].text.as_str(), v[0][1].highlighted), (3, 1, "b", true));
    assert_eq!((v[0][2].row, v[0][2].col), (4, 1));
    assert_eq!((v[1][0].row, v[1][0].col, v[1][0].text.as_str(), v[1][0].highlighted), (2, 31, "d", false));
}

#[test]
fn cards_need_dividers_and_entries() {
    let mut k = sample();
    let mut pm = PaneManager::new(24, 90, &k);
    pm.vertical_dividers.pop();
    assert!(!pm.can_place_cards(&k));
    let pm = PaneManager::new(24, 90, &k);
    k.lists.push("ghost".to_string());
    assert!(!pm.can_place_cards(&k));
}

#[test]
fn frame_cells_in_drawing_order() {
    let pm = PaneManager {
        vertical_dividers: vec![2],
        selected_pane: 0,
        selected_item: 0,
        bottom_divider: 2,
        row_count: 4,
        col_count: 4,
    };
    let (cells, borders) = pm.frame_placements();
    assert_eq!(borders, 3);
    assert_eq!(
        cells,
        vec![
            (0, 2, Glyph::VLine), (1, 2, Glyph::VLine), (2, 2, Glyph::VLine),
            (2, 0, Glyph::HLine), (1, 0, Glyph::HLine), (2, 1, Glyph::HLine), (1, 1, Glyph::HLine),
            (2, 2, Glyph::BTee), (1, 2, Glyph::Plus), (2, 3, Glyph::HLine), (1, 3, Glyph::HLine),
        ]
    );
}

#[test]
fn frame_cell_count() {
    let k = sample();
    let pm = PaneManager::new(24, 90, &k);
    let (cells, borders) = pm.frame_placements();
    assert_eq!(cells.len(), 2 * 23 + 2 * 90);
    assert_eq!(borders, 2 * 23);
    assert_eq!(cells.iter().filter(|c| c.2 == Glyph::BTee).count(), 2);
    assert_eq!(cells.iter().filter(|c| c.2 == Glyph::Plus).count(), 2);
    let tiny = PaneManager {
        vertical_dividers: vec![0],
        selected_pane: 0,
        selected_item: 0,
        bottom_divider: -1,
        row_count: 1,
        col_count: -3,
    };
    assert!(tiny.frame_placements().0.is_empty());
    assert_eq!(tiny.frame_placements().1, 0);
}

#[test]
fn prompt_text_and_cursor() {
    let k = sample();
    let pm = PaneManager::new(24, 90, &k);
    let label = prompt_label(PromptKind::NewItem);
    assert_eq!(label, " New item: ");
    assert_eq!(prompt_label(PromptKind::NewList), " New list: ");
    assert_eq!(pm.prompt_cursor(&label, &"ab".to_string()), (23, 13));
    assert_eq!(pm.prompt_cursor(&label, &"é".to_string()), (23, 13));
    let line = pm.prompt_placement(PromptKind::NewList, &"ab".to_string());
    assert_eq!((line.row, line.col, line.text.as_str(), line.highlighted), (23, 0, " New list: ab", false));
}

#[test]
fn list_view_selection() {
    let k = sample();
    let mut s = Selection::new();
    assert_eq!((s.selected, s.selected_list), (0, 0));
    assert!(s.can_browse(&k, Key::Down));
    assert!(!s.on_key(&k, Key::Down));
    assert_eq!(s.selected, 1);
    assert!(!s.on_key(&k, Key::Char('j')));
    assert_eq!(s.selected, 2);
    // the selected list has three cards: no move past the last
    assert!(!s.on_key(&k, Key::Down));
    assert_eq!(s.selected, 2);
    assert!(!s.on_key(&k, Key::Char('k')));
    assert_eq!(s.selected, 1);
    assert!(!s.on_key(&k, Key::Up));
    assert!(!s.on_key(&k, Key::Up));
    assert_eq!(s.selected, 0);
    for _ in 0..5 {
        assert!(!s.on_key(&k, Key::Char('l')));
    }
    // right stops at the last list
    assert_eq!(s.selected_list, 2);
    assert!(!s.on_key(&k, Key::Left));
    assert_eq!(s.selected_list, 1);
    assert_eq!(s.highlight_in(1), Some(0));
    assert_eq!(s.highlight_in(2), None);
    assert!(s.on_key(&k, Key::Char('q')));
    assert!(!s.on_key(&k, Key::Other));
}

#[test]
fn list_view_down_reads_selected_list() {
    let k = sample();
    let mut s = Selection::new();
    s.selected_list = 2;
    // the third list is empty
    assert!(!s.can_browse(&k, Key::Down));
    s.selected_list = 1;
    assert!(s.can_browse(&k, Key::Down));
    assert!(!s.on_key(&k, Key::Down));
    // the second list has one card: no move
    assert_eq!(s.selected, 0);
    let empty = Kanban::new();
    let mut s = Selection::new();
    assert!(!s.can_browse(&empty, Key::Down));
    assert!(!s.on_key(&empty, Key::Right));
    assert_eq!(s.selected_list, 0);
}

#[test]
fn list_view_columns() {
    assert_eq!(list_area_x(0), 0);
    assert_eq!(list_area_x(3), 150);
}

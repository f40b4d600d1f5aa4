use conban::kanban::{Item, ItemList, Kanban};
use conban::pane_manager::PaneManager;
use conban::input::{prompt_step, Key, PromptKind, Reaction};

fn board(panes: &[(&str, &[&str])]) -> Kanban {
    let mut k = Kanban::new();
    for (name, cards) in panes {
        k.lists.push(name.to_string());
        k.list_items.push(ItemList {
            name: name.to_string(),
            items: cards.iter().map(|c| Item { name: c.to_string() }).collect(),
        });
    }
    k
}

fn cards(k: &Kanban, list: &str) -> Vec<String> {
    let idx = k.find_list(&list.to_string()).expect("list has an entry");
    k.list_items[idx].items.iter().map(|it| it.name.clone()).collect()
}

fn all_cards(k: &Kanban) -> Vec<String> {
    let mut v: Vec<String> = k
        .list_items
        .iter()
        .flat_map(|e| e.items.iter().map(|it| it.name.clone()))
        .collect();
    v.sort();
    v
}

fn sample() -> Kanban {
    board(&[("todo", &["a", "b", "c"]), ("doing", &["d"]), ("done", &[])])
}

fn press(pm: &mut PaneManager, k: &mut Kanban, key: Key) -> Reaction {
    assert!(pm.can_handle(k, key));
    pm.handle_key(k, key)
}

#[test]
fn new_board_is_empty() {
    let k = Kanban::new();
    assert!(k.lists.is_empty());
    assert!(k.list_items.is_empty());
    assert_eq!(k.last_deleted.name, "<none>");
    assert!(k.is_well_formed());
}

#[test]
fn find_list_and_checks() {
    let k = sample();
    assert_eq!(k.find_list(&"doing".to_string()), Some(1));
    assert_eq!(k.find_list(&"nope".to_string()), None);
    assert!(k.has_distinct_keys());
    assert!(k.is_well_formed());
    let mut bad = sample();
    bad.lists.push("ghost".to_string());
    assert!(bad.has_distinct_keys());
    assert!(!bad.is_well_formed());
    let mut dup = sample();
    dup.list_items.push(ItemList { name: "todo".to_string(), items: Vec::new() });
    assert!(!dup.has_distinct_keys());
    assert!(!dup.is_well_formed());
}

#[test]
fn new_screen_selects_first_filled_pane() {
    let k = board(&[("a", &[]), ("b", &[]), ("c", &["x"]), ("d", &["y"])]);
    let pm = PaneManager::new(24, 80, &k);
    assert_eq!(pm.selected_pane, 2);
    assert_eq!(pm.selected_item, 0);
    assert_eq!(pm.bottom_divider, 22);
    assert_eq!(pm.row_count, 24);
    assert_eq!(pm.col_count, 80);
    assert_eq!(pm.vertical_dividers, vec![20, 40, 60]);
}

#[test]
fn new_screen_without_cards_selects_first_pane() {
    let k = board(&[("a", &[]), ("b", &[])]);
    let pm = PaneManager::new(10, 9, &k);
    assert_eq!(pm.selected_pane, 0);
    assert_eq!(pm.vertical_dividers, vec![4]);
    let empty = Kanban::new();
    let pm = PaneManager::new(10, 9, &empty);
    assert_eq!(pm.selected_pane, 0);
    assert!(pm.vertical_dividers.is_empty());
}

#[test]
fn dividers_truncate_toward_zero() {
    let k = board(&[("a", &[]), ("b", &[]), ("c", &[])]);
    let pm = PaneManager::new(10, 100, &k);
    assert_eq!(pm.vertical_dividers, vec![33, 66]);
    let pm = PaneManager::new(10, -100, &k);
    assert_eq!(pm.vertical_dividers, vec![-33, -66]);
    let one = board(&[("a", &["x"])]);
    let pm = PaneManager::new(10, 100, &one);
    assert!(pm.vertical_dividers.is_empty());
}

#[test]
fn recompute_dividers_follows_list_count() {
    let mut k = sample();
    let mut pm = PaneManager::new(24, 90, &k);
    assert_eq!(pm.vertical_dividers, vec![30, 60]);
    k.lists.push("later".to_string());
    k.list_items.push(ItemList { name: "later".to_string(), items: Vec::new() });
    pm.recompute_dividers(&mut k);
    assert_eq!(pm.vertical_dividers, vec![22, 44, 66]);
    assert_eq!(pm.selected_pane, 0);
    pm.recompute_dividers(&mut k);
    assert_eq!(pm.vertical_dividers, vec![22, 44, 66]);
}

#[test]
fn arrows_move_selection() {
    let mut k = sample();
    let mut pm = PaneManager::new(24, 90, &k);
    assert_eq!(press(&mut pm, &mut k, Key::Down), Reaction::Save);
    assert_eq!(pm.selected_item, 1);
    press(&mut pm, &mut k, Key::Char('j'));
    assert_eq!(pm.selected_item, 2);
    press(&mut pm, &mut k, Key::Down);
    assert_eq!(pm.selected_item, 2);
    press(&mut pm, &mut k, Key::Up);
    assert_eq!(pm.selected_item, 1);
    press(&mut pm, &mut k, Key::Char('l'));
    assert_eq!((pm.selected_pane, pm.selected_item), (1, 0));
    // the right neighbour is empty: the selection stays
    press(&mut pm, &mut k, Key::Right);
    assert_eq!((pm.selected_pane, pm.selected_item), (1, 0));
    press(&mut pm, &mut k, Key::Char('h'));
    assert_eq!((pm.selected_pane, pm.selected_item), (0, 0));
    press(&mut pm, &mut k, Key::Left);
    assert_eq!((pm.selected_pane, pm.selected_item), (0, 0));
    press(&mut pm, &mut k, Key::Char('k'));
    assert_eq!(pm.selected_item, 0);
    assert_eq!(all_cards(&k), vec!["a", "b", "c", "d"]);
}

#[test]
fn other_keys_save_and_change_nothing() {
    let mut k = sample();
    let mut pm = PaneManager::new(24, 90, &k);
    assert_eq!(press(&mut pm, &mut k, Key::Other), Reaction::Save);
    assert_eq!(press(&mut pm, &mut k, Key::Char('z')), Reaction::Save);
    assert_eq!(cards(&k, "todo"), vec!["a", "b", "c"]);
    assert_eq!((pm.selected_pane, pm.selected_item), (0, 0));
}

#[test]
fn delete_card_keeps_it_as_last_deleted() {
    let mut k = sample();
    let mut pm = PaneManager::new(24, 90, &k);
    press(&mut pm, &mut k, Key::Down);
    assert_eq!(press(&mut pm, &mut k, Key::Char('x')), Reaction::Save);
    assert_eq!(cards(&k, "todo"), vec!["a", "c"]);
    assert_eq!(k.last_deleted.name, "b");
    assert_eq!(pm.selected_item, 1);
    assert_eq!(all_cards(&k), vec!["a", "c", "d"]);
}

#[test]
fn delete_on_empty_list_is_skipped() {
    let mut k = board(&[("a", &[]), ("b", &["x"])]);
    let mut pm = PaneManager::new(24, 90, &k);
    pm.selected_pane = 0;
    assert_eq!(press(&mut pm, &mut k, Key::Char('x')), Reaction::Skip);
    assert_eq!(k.last_deleted.name, "<none>");
}

#[test]
fn delete_list_removes_pane_and_entry() {
    let mut k = sample();
    let mut pm = PaneManager::new(24, 90, &k);
    pm.selected_pane = 1;
    assert_eq!(press(&mut pm, &mut k, Key::Char('X')), Reaction::Save);
    assert_eq!(k.lists, vec!["todo", "done"]);
    assert_eq!(k.find_list(&"doing".to_string()), None);
    assert_eq!(pm.selected_pane, 0);
    assert!(k.is_well_formed());
    // the last list is never deleted
    let mut one = board(&[("only", &["x"])]);
    let mut pm = PaneManager::new(24, 90, &one);
    press(&mut pm, &mut one, Key::Char('X'));
    assert_eq!(one.lists, vec!["only"]);
}

#[test]
fn delete_first_list_keeps_first_pane_selected() {
    let mut k = sample();
    let mut pm = PaneManager::new(24, 90, &k);
    press(&mut pm, &mut k, Key::Char('X'));
    assert_eq!(k.lists, vec!["doing", "done"]);
    assert_eq!(pm.selected_pane, 0);
}

#[test]
fn raise_and_lower_card() {
    let mut k = sample();
    let mut pm = PaneManager::new(24, 90, &k);
    press(&mut pm, &mut k, Key::Char('w'));
    assert_eq!(cards(&k, "todo"), vec!["a", "b", "c"]);
    press(&mut pm, &mut k, Key::Char('s'));
    assert_eq!(cards(&k, "todo"), vec!["b", "a", "c"]);
    assert_eq!(pm.selected_item, 1);
    press(&mut pm, &mut k, Key::Char('s'));
    assert_eq!(cards(&k, "todo"), vec!["b", "c", "a"]);
    assert_eq!(pm.selected_item, 2);
    press(&mut pm, &mut k, Key::Char('s'));
    assert_eq!(cards(&k, "todo"), vec!["b", "c", "a"]);
    press(&mut pm, &mut k, Key::Char('w'));
    assert_eq!(cards(&k, "todo"), vec!["b", "a", "c"]);
    assert_eq!(pm.selected_item, 1);
}

#[test]
fn raise_then_lower_restores() {
    let mut k = sample();
    let mut pm = PaneManager::new(24, 90, &k);
    pm.selected_item = 2;
    press(&mut pm, &mut k, Key::Char('w'));
    press(&mut pm, &mut k, Key::Char('s'));
    assert_eq!(cards(&k, "todo"), vec!["a", "b", "c"]);
    assert_eq!(pm.selected_item, 2);
}

#[test]
fn shift_card_between_panes() {
    let mut k = sample();
    let mut pm = PaneManager::new(24, 90, &k);
    press(&mut pm, &mut k, Key::Down);
    assert_eq!(press(&mut pm, &mut k, Key::Char('d')), Reaction::Save);
    assert_eq!(cards(&k, "todo"), vec!["a", "c"]);
    assert_eq!(cards(&k, "doing"), vec!["d", "b"]);
    assert_eq!((pm.selected_pane, pm.selected_item), (1, 1));
    press(&mut pm, &mut k, Key::Char('d'));
    assert_eq!(cards(&k, "doing"), vec!["d"]);
    assert_eq!(cards(&k, "done"), vec!["b"]);
    assert_eq!((pm.selected_pane, pm.selected_item), (2, 0));
    assert_eq!(press(&mut pm, &mut k, Key::Char('d')), Reaction::Skip);
    press(&mut pm, &mut k, Key::Char('a'));
    assert_eq!(cards(&k, "doing"), vec!["d", "b"]);
    assert_eq!((pm.selected_pane, pm.selected_item), (1, 1));
    press(&mut pm, &mut k, Key::Char('a'));
    assert_eq!(cards(&k, "todo"), vec!["a", "c", "b"]);
    assert_eq!((pm.selected_pane, pm.selected_item), (0, 2));
    assert_eq!(press(&mut pm, &mut k, Key::Char('a')), Reaction::Skip);
    assert_eq!(all_cards(&k), vec!["a", "b", "c", "d"]);
}

#[test]
fn prompts_and_finishing() {
    let mut k = sample();
    let mut pm = PaneManager::new(24, 90, &k);
    assert_eq!(press(&mut pm, &mut k, Key::Char('i')), Reaction::Prompt(PromptKind::NewItem));
    assert_eq!(press(&mut pm, &mut k, Key::Char('I')), Reaction::Prompt(PromptKind::NewList));
    assert_eq!(press(&mut pm, &mut k, Key::Char('+')), Reaction::Prompt(PromptKind::NewList));
    pm.finish_prompt(&mut k, PromptKind::NewItem, "e".to_string());
    assert_eq!(cards(&k, "todo"), vec!["a", "b", "c", "e"]);
    pm.finish_prompt(&mut k, PromptKind::NewList, "later".to_string());
    assert_eq!(k.lists, vec!["todo", "doing", "done", "later"]);
    assert!(cards(&k, "later").is_empty());
    assert_eq!(pm.vertical_dividers, vec![22, 44, 66]);
    assert!(k.is_well_formed());
}

#[test]
fn new_list_with_existing_name_empties_it() {
    let mut k = sample();
    let mut pm = PaneManager::new(24, 90, &k);
    pm.finish_prompt(&mut k, PromptKind::NewList, "todo".to_string());
    assert_eq!(k.lists, vec!["todo", "doing", "done", "todo"]);
    assert!(cards(&k, "todo").is_empty());
    assert_eq!(k.list_items.len(), 3);
    assert!(k.is_well_formed());
}

#[test]
fn prompt_typing() {
    let mut text = String::new();
    assert!(!prompt_step(&mut text, Key::Char('h')));
    assert!(!prompt_step(&mut text, Key::Char('i')));
    assert!(!prompt_step(&mut text, Key::Left));
    assert!(!prompt_step(&mut text, Key::Other));
    assert!(prompt_step(&mut text, Key::Char('\n')));
    assert_eq!(text, "hi");
}

#[test]
fn can_handle_refuses_what_would_fail() {
    let mut k = board(&[("a", &[]), ("b", &["x"])]);
    let mut pm = PaneManager::new(24, 90, &k);
    pm.selected_pane = 0;
    // moving down in an empty list reads past its end
    assert!(!pm.can_handle(&k, Key::Down));
    assert!(!pm.can_handle(&k, Key::Char('j')));
    assert!(pm.can_handle(&k, Key::Up));
    pm.selected_pane = 1;
    pm.selected_item = 5;
    assert!(!pm.can_handle(&k, Key::Char('x')));
    assert!(!pm.can_handle(&k, Key::Char('a')));
    pm.selected_item = 0;
    assert!(pm.can_handle(&k, Key::Char('a')));
    pm.selected_pane = 7;
    assert!(!pm.can_handle(&k, Key::Char('s')));
    assert!(pm.can_handle(&k, Key::Char('q')));
    k.lists.push("ghost".to_string());
    pm.selected_pane = 1;
    assert!(!pm.can_handle(&k, Key::Right));
    assert!(!pm.can_handle(&k, Key::Char('d')));
    assert!(pm.can_handle(&k, Key::Char('w')));
}

#[test]
fn duplicate_pane_names_share_cards() {
    let mut k = board(&[("same", &["a"]), ("same", &[])]);
    k.list_items.truncate(1);
    assert!(k.is_well_formed());
    let mut pm = PaneManager::new(24, 90, &k);
    // moving the card to a pane with the same name puts it back in the same list
    press(&mut pm, &mut k, Key::Char('d'));
    assert_eq!(cards(&k, "same"), vec!["a"]);
    assert_eq!((pm.selected_pane, pm.selected_item), (1, 0));
}

#[test]
fn delete_list_without_entry_keeps_table() {
    let mut k = board(&[("a", &["x"])]);
    k.lists.push("ghost".to_string());
    let mut pm = PaneManager::new(24, 90, &k);
    pm.selected_pane = 1;
    assert!(pm.can_handle(&k, Key::Char('X')));
    assert_eq!(press(&mut pm, &mut k, Key::Char('X')), Reaction::Save);
    assert_eq!(k.lists, vec!["a"]);
    assert_eq!(k.list_items.len(), 1);
    assert_eq!(pm.selected_pane, 0);
    assert!(k.is_well_formed());
}

#[test]
fn selection_stays_on_a_card_while_moving() {
    let mut k = sample();
    let mut pm = PaneManager::new(24, 90, &k);
    let keys = [
        Key::Down, Key::Char('d'), Key::Char('s'), Key::Char('w'), Key::Char('d'),
        Key::Char('a'), Key::Char('a'), Key::Up, Key::Right, Key::Left, Key::Char('l'),
    ];
    for key in keys {
        press(&mut pm, &mut k, key);
        let pane = &k.lists[pm.selected_pane as usize];
        let len = cards(&k, pane).len() as i32;
        assert!(0 <= pm.selected_item && pm.selected_item < len);
    }
    assert_eq!(all_cards(&k), vec!["a", "b", "c", "d"]);
}

#[test]
fn finishing_needs_a_first_list() {
    let k = Kanban::new();
    assert!(!conban::input::can_finish(&k, PromptKind::NewItem));
    assert!(conban::input::can_finish(&k, PromptKind::NewList));
    let k = sample();
    assert!(conban::input::can_finish(&k, PromptKind::NewItem));
}

#[test]
fn screen_stays_drivable() {
    let mut k = sample();
    let mut pm = PaneManager::new(24, 90, &k);
    pm.selected_pane = 2;
    press(&mut pm, &mut k, Key::Char('X'));
    assert_eq!(pm.selected_pane, 1);
    assert_eq!(press(&mut pm, &mut k, Key::Char('+')), Reaction::Prompt(PromptKind::NewList));
    pm.finish_prompt(&mut k, PromptKind::NewList, "review".to_string());
    let mut names = k.lists.clone();
    names.sort();
    let mut keys: Vec<String> = k.list_items.iter().map(|e| e.name.clone()).collect();
    keys.sort();
    assert_eq!(names, keys);
    assert!(0 <= pm.selected_pane && (pm.selected_pane as usize) < k.lists.len());
    assert!(pm.vertical_dividers.len() + 1 >= k.lists.len());
    assert!(pm.can_place_titles(&k) && pm.can_place_cards(&k));
}

use nodio::editor::{ContextMenuKind, Editor, Placed, Request, Toast};
use nodio::links::{Keep, Link, LinkTable};
use nodio::node::{NewNode, NodeKind};

fn editor_with(links: &[Link]) -> Editor {
    let mut editor = Editor::new();
    editor.restore(&links.to_vec());
    editor
}

fn ends(editor: &Editor) -> Vec<(u128, u128)> {
    let mut ends: Vec<(u128, u128)> =
        editor.ui_links.links().iter().map(|l| (l.1, l.2)).collect();
    ends.sort();
    ends
}

#[test]
fn table_keeps_order_and_replaces_in_place() {
    let mut table = LinkTable::new();
    assert_eq!(table.links(), Vec::new());
    assert_eq!(table.insert(3, 1, 2), None);
    assert_eq!(table.insert(1, 5, 6), None);
    assert_eq!(table.insert(3, 7, 8), Some((1, 2)));
    assert_eq!(table.links(), vec![(3, 7, 8), (1, 5, 6)]);
}

#[test]
fn table_removes_by_swapping_in_the_last() {
    let mut table = LinkTable::new();
    for id in 1..=4u128 {
        table.insert(id, 10 * id, 20 * id);
    }
    assert_eq!(table.remove(9), None);
    assert_eq!(table.remove(2), Some((20, 40)));
    assert_eq!(table.links(), vec![(1, 10, 20), (4, 40, 80), (3, 30, 60)]);
    assert_eq!(table.remove(3), Some((30, 60)));
    assert_eq!(table.links(), vec![(1, 10, 20), (4, 40, 80)]);
}

#[test]
fn table_retains_in_order() {
    let mut table = LinkTable::new();
    for link in [(1, 1, 2), (2, 2, 1), (3, 1, 2), (4, 3, 1), (5, 4, 5)] {
        table.insert(link.0, link.1, link.2);
    }
    table.retain(Keep::NotBetween { start: 1, end: 2 });
    assert_eq!(table.links(), vec![(2, 2, 1), (4, 3, 1), (5, 4, 5)]);
    table.retain(Keep::NotTouching { node: 1 });
    assert_eq!(table.links(), vec![(5, 4, 5)]);
}

#[test]
fn open_menu_stays_with_its_subject() {
    let mut editor = Editor::new();
    assert_eq!(editor.context_menu(None), ContextMenuKind::Editor);
    let kind = editor.context_menu(Some(4));
    assert_eq!(kind, ContextMenuKind::Node(4));
    editor.context_menu_shown(kind);
    assert_eq!(editor.context_menu_kind, Some(kind));
    assert_eq!(editor.context_menu(Some(9)), ContextMenuKind::Node(4));
    // Not shown again: the pointer decides anew.
    assert_eq!(editor.context_menu(Some(9)), ContextMenuKind::Node(9));
}

#[test]
fn removing_a_node_takes_the_selection_along() {
    let mut editor = editor_with(&[(1, 1, 2), (2, 3, 4), (3, 5, 6), (4, 6, 7)]);
    assert_eq!(editor.node_context_menu_items(false, 1, &vec![3]), Vec::new());
    assert_eq!(editor.ui_links.links().len(), 4);
    assert_eq!(editor.node_context_menu_items(true, 1, &vec![4, 1]), vec![1, 4, 1]);
    assert_eq!(editor.ui_links.links(), vec![(3, 5, 6), (4, 6, 7)]);
    assert!(!editor.should_save);
}

#[test]
fn selected_nodes_lose_their_links() {
    let mut editor = editor_with(&[(1, 1, 2), (2, 3, 4), (3, 5, 6)]);
    editor.remove_selected_nodes(&vec![2, 5]);
    assert_eq!(editor.ui_links.links(), vec![(2, 3, 4)]);
    editor.remove_selected_nodes(&Vec::new());
    assert_eq!(editor.ui_links.links(), vec![(2, 3, 4)]);
}

#[test]
fn added_node_is_worth_saving() {
    let mut editor = Editor::new();
    assert_eq!(editor.editor_context_menu_items::<(f32, f32)>(None), None);
    assert!(!editor.should_save);
    assert_eq!(editor.auto_save_interval(), 30);
    let node = NewNode {
        id: Some(1),
        kind: NodeKind::InputDevice,
        display_name: "Mic".to_string(),
        filename: None,
        pos: (1.0f32, 2.0f32),
        process_id: None,
    };
    let added = editor.editor_context_menu_items(Some(node));
    assert_eq!(added.unwrap().display_name, "Mic");
    assert!(editor.should_save);
    assert_eq!(editor.auto_save_interval(), 0);
}

#[test]
fn detached_link_leaves_the_table() {
    let mut editor = editor_with(&[(1, 10, 20), (2, 30, 40)]);
    assert_eq!(editor.link_detached(5), None);
    assert_eq!(editor.detached_link, None);
    assert_eq!(editor.link_detached(1), Some((10, 20)));
    assert_eq!(editor.detached_link, Some((10, 20)));
    assert_eq!(editor.ui_links.links(), vec![(2, 30, 40)]);
    assert_eq!(editor.link_detached(1), None);
    assert_eq!(editor.detached_link, Some((10, 20)));
    assert!(!editor.should_save);
}

#[test]
fn dropped_link_stays_off() {
    let mut editor = editor_with(&[(1, 10, 20)]);
    editor.link_detached(1);
    editor.link_dropped();
    assert_eq!(editor.detached_link, None);
    assert!(editor.should_save);
    let toast = editor.link_created_as(9, 1, 2, Err("no".to_string()));
    assert_eq!(toast, Some(Toast { text: "no".to_string(), seconds: 10 }));
    assert_eq!(editor.ui_links.links(), Vec::new());
}

#[test]
fn connected_link_replaces_its_twins() {
    let mut editor = editor_with(&[(1, 10, 20), (2, 20, 10), (3, 10, 20)]);
    assert_eq!(editor.link_created_as(4, 10, 20, Ok(())), None);
    assert_eq!(editor.ui_links.links(), vec![(2, 20, 10), (4, 10, 20)]);
    assert!(editor.should_save);
    // An identifier that is taken gives its place to the new link.
    assert_eq!(editor.link_created_as(2, 50, 60, Ok(())), None);
    assert_eq!(editor.ui_links.links(), vec![(2, 50, 60), (4, 10, 20)]);
}

#[test]
fn refused_move_puts_the_link_back() {
    let mut editor = editor_with(&[(1, 10, 20), (2, 30, 40), (3, 50, 60)]);
    let before = ends(&editor);
    editor.link_detached(1);
    let toast = editor.link_created(10, 40, Err("not allowed".to_string()));
    assert_eq!(toast.unwrap().text, "not allowed");
    assert_eq!(ends(&editor), before);
    assert_eq!(editor.detached_link, None);
    assert!(editor.should_save);
}

#[test]
fn connecting_does_not_forget_a_detached_link() {
    let mut editor = editor_with(&[(1, 10, 20)]);
    editor.link_detached(1);
    assert_eq!(editor.link_created_as(2, 30, 40, Ok(())), None);
    assert_eq!(editor.detached_link, Some((10, 20)));
}

#[test]
fn created_links_get_random_identifiers() {
    let mut editor = Editor::new();
    assert_eq!(editor.link_created(1, 2, Ok(())), None);
    assert_eq!(editor.link_created(3, 4, Ok(())), None);
    let links = editor.ui_links.links();
    assert_eq!(links.len(), 2);
    assert_eq!((links[0].1, links[0].2), (1, 2));
    assert_eq!((links[1].1, links[1].2), (3, 4));
    assert_ne!(links[0].0, links[1].0);
    for link in links {
        assert_eq!((link.0 >> 76) & 0xf, 4);
        assert_eq!((link.0 >> 62) & 0x3, 2);
    }
}

#[test]
fn saved_text_is_pretty_json() {
    let mut editor = editor_with(&[(1, 2, 0xabcd)]);
    editor.should_save = true;
    let saved = editor.save::<(f32, f32)>(&Vec::new());
    assert_eq!(
        saved.links,
        "[\n  [\n    \"00000000-0000-0000-0000-000000000001\",\n    \
         \"00000000-0000-0000-0000-000000000002\",\n    \
         \"00000000-0000-0000-0000-00000000abcd\"\n  ]\n]"
    );
    assert!(!editor.should_save);
    assert_eq!(Editor::new().save::<(f32, f32)>(&Vec::new()).links, "[]");
}

#[test]
fn saved_links_come_back_in_order() {
    let links: Vec<Link> = vec![(9, 1, 2), (u128::MAX, 3, 4), (5, 1, 2), (0, 7, 7)];
    let mut editor = editor_with(&links);
    let text = editor.save::<(f32, f32)>(&Vec::new()).links;
    let mut again = Editor::new();
    let connect = again.restore_links(Some(&text));
    assert_eq!(again.ui_links.links(), links);
    assert_eq!(connect, vec![(1, 2), (3, 4), (1, 2), (7, 7)]);
    assert!(!again.should_save);
}

#[test]
fn saved_positions_are_the_drawn_ones() {
    let mut editor = Editor::new();
    let nodes = vec![
        Placed { stored: (1.0f32, 2.0f32), drawn: None },
        Placed { stored: (1.0, 2.0), drawn: Some((3.5, 4.5)) },
    ];
    assert_eq!(editor.save(&nodes).positions, vec![(1.0, 2.0), (3.5, 4.5)]);
}

#[test]
fn unreadable_links_stand_for_none() {
    let mut editor = Editor::new();
    let bad = [
        "",
        "nonsense",
        "{}",
        "[[1, 2, 3]]",
        "[[\"00000000-0000-0000-0000-000000000001\", \"00000000-0000-0000-0000-000000000002\"]]",
    ];
    for text in bad {
        assert_eq!(editor.restore_links(Some(text)), Vec::new());
    }
    assert_eq!(editor.restore_links(None), Vec::new());
    assert_eq!(editor.ui_links.links(), Vec::new());
}

#[test]
fn repeated_identifiers_connect_once() {
    let mut editor = Editor::new();
    let connect = editor.restore(&vec![(1, 10, 20), (2, 30, 40), (1, 50, 60)]);
    assert_eq!(connect, vec![(10, 20), (30, 40)]);
    assert_eq!(editor.ui_links.links(), vec![(1, 50, 60), (2, 30, 40)]);
}

#[test]
fn frame_disconnects_before_it_connects() {
    let mut editor = editor_with(&[(1, 10, 20), (2, 30, 40)]);
    assert_eq!(editor.interact(None, false, None), Vec::new());
    assert_eq!(editor.interact(Some(8), false, None), Vec::new());
    let requests = editor.interact(Some(1), false, Some((10, 40)));
    assert_eq!(
        requests,
        vec![
            Request::Disconnect { from: 10, to: 20 },
            Request::Connect { start: 10, end: 40 },
        ]
    );
    assert_eq!(editor.detached_link, Some((10, 20)));
    assert!(!editor.should_save);
    assert_eq!(
        editor.interact(Some(2), true, None),
        vec![Request::Disconnect { from: 30, to: 40 }]
    );
    assert_eq!(editor.detached_link, None);
    assert!(editor.should_save);
    assert_eq!(editor.ui_links.links(), Vec::new());
}

use tray_tui::tree::{MenuNode, TreeState};
use tray_tui::wrappers::{Position, Rect};

fn leaf(id: i32, label: &str) -> MenuNode {
    MenuNode { id, label: Some(label.to_string()), separator: false, submenu: vec![] }
}

fn branch(id: i32, label: &str, submenu: Vec<MenuNode>) -> MenuNode {
    MenuNode { id, label: Some(label.to_string()), separator: false, submenu }
}

fn separator(id: i32) -> MenuNode {
    MenuNode { id, label: None, separator: true, submenu: vec![] }
}

fn sample_menu() -> Vec<MenuNode> {
    vec![
        leaf(1, "one"),
        branch(2, "two", vec![leaf(21, "two-one"), leaf(22, "two-two")]),
        separator(3),
        leaf(4, "four"),
    ]
}

#[test]
fn visible_paths_skip_separators_and_closed_submenus() {
    let menu = sample_menu();
    let t = TreeState::new();
    let vis = t.visible_paths(&menu);
    assert_eq!(vis, vec![vec![1], vec![2], vec![4]]);
}

#[test]
fn visible_paths_descend_into_expanded_nodes() {
    let menu = sample_menu();
    let mut t = TreeState::new();
    t.toggle(&vec![2]);
    let vis = t.visible_paths(&menu);
    assert_eq!(vis, vec![vec![1], vec![2], vec![2, 21], vec![2, 22], vec![4]]);
}

#[test]
fn move_down_walks_depth_first_and_wraps() {
    let menu = sample_menu();
    let mut t = TreeState::new();
    t.toggle(&vec![2]);
    t.move_down(&menu);
    assert_eq!(t.selected, vec![1]);
    t.move_down(&menu);
    assert_eq!(t.selected, vec![2]);
    t.move_down(&menu);
    assert_eq!(t.selected, vec![2, 21]);
    t.move_down(&menu);
    assert_eq!(t.selected, vec![2, 22]);
    t.move_down(&menu);
    assert_eq!(t.selected, vec![4]);
    // At the bottom the selection wraps to the first visible node.
    t.move_down(&menu);
    assert_eq!(t.selected, vec![1]);
}

#[test]
fn move_up_wraps_to_last_visible_node() {
    let menu = sample_menu();
    let mut t = TreeState::new();
    // Nothing selected: up selects the last visible node.
    t.move_up(&menu);
    assert_eq!(t.selected, vec![4]);
    t.move_up(&menu);
    assert_eq!(t.selected, vec![2]);
    t.move_up(&menu);
    assert_eq!(t.selected, vec![1]);
    t.move_up(&menu);
    assert_eq!(t.selected, vec![4]);
}

#[test]
fn moves_on_empty_menu_change_nothing() {
    let menu: Vec<MenuNode> = vec![];
    let mut t = TreeState::new();
    t.select(vec![9]);
    t.move_down(&menu);
    assert_eq!(t.selected, vec![9]);
    t.move_up(&menu);
    assert_eq!(t.selected, vec![9]);
}

#[test]
fn toggle_flips_expansion() {
    let mut t = TreeState::new();
    t.toggle(&vec![2]);
    assert!(t.opened.contains(&vec![2]));
    t.toggle(&vec![2]);
    assert!(!t.opened.contains(&vec![2]));
}

#[test]
fn select_sets_path_directly() {
    let mut t = TreeState::new();
    t.select(vec![2, 21]);
    assert_eq!(t.selected, vec![2, 21]);
}

#[test]
fn scrolling_saturates() {
    let mut t = TreeState::new();
    t.scroll_down(3);
    assert_eq!(t.scroll_offset, 3);
    t.scroll_up(1);
    assert_eq!(t.scroll_offset, 2);
    t.scroll_up(10);
    assert_eq!(t.scroll_offset, 0);
}

#[test]
fn deepest_nested_rectangle_wins() {
    // A parent rectangle geometrically contains its children's positions;
    // the deepest (longest) path must win.
    let mut t = TreeState::new();
    t.set_node_rects(vec![
        (vec![1], Rect::new(0, 0, 40, 10)),
        (vec![1, 2], Rect::new(2, 2, 20, 4)),
        (vec![1, 2, 3], Rect::new(4, 3, 10, 1)),
    ]);
    assert_eq!(t.find_tree_node_at(Position::new(5, 3)), Some(vec![1, 2, 3]));
    assert_eq!(t.find_tree_node_at(Position::new(3, 2)), Some(vec![1, 2]));
    assert_eq!(t.find_tree_node_at(Position::new(30, 1)), Some(vec![1]));
    assert_eq!(t.find_tree_node_at(Position::new(50, 50)), None);
}

#[test]
fn rectangles_are_replaced_each_frame() {
    let mut t = TreeState::new();
    t.set_node_rects(vec![(vec![1], Rect::new(0, 0, 10, 10))]);
    t.set_node_rects(vec![(vec![2], Rect::new(20, 0, 10, 10))]);
    // The prior frame's rectangle must not answer any more.
    assert_eq!(t.find_tree_node_at(Position::new(5, 5)), None);
    assert_eq!(t.find_tree_node_at(Position::new(25, 5)), Some(vec![2]));
}

#[test]
fn rect_edges_are_exclusive() {
    let r = Rect::new(2, 3, 4, 5);
    assert!(r.contains(Position::new(2, 3)));
    assert!(r.contains(Position::new(5, 7)));
    assert!(!r.contains(Position::new(6, 3)));
    assert!(!r.contains(Position::new(2, 8)));
    assert!(!r.contains(Position::new(1, 3)));
}

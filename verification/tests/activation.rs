use tray_tui::app::App;
use tray_tui::config::{Config, KeyBindEvent};
use tray_tui::handler::{handle_key_events, handle_mouse_event, MouseKind};
use tray_tui::tree::MenuNode;
use tray_tui::wrappers::{Position, Rect};

fn leaf(id: i32, label: &str) -> MenuNode {
    MenuNode { id, label: Some(label.to_string()), separator: false, submenu: vec![] }
}

fn sample_menu() -> Vec<MenuNode> {
    vec![
        leaf(1, "one"),
        MenuNode {
            id: 2,
            label: Some("two".to_string()),
            separator: false,
            submenu: vec![leaf(21, "two-one")],
        },
    ]
}

fn one_entry_app() -> App {
    let mut app = App::new(Config::default());
    app.update(&vec![("the-address".to_string(), "t".to_string())]);
    app
}

#[test]
fn activating_leaf_emits_one_request_and_no_toggle() {
    let mut app = one_entry_app();
    let menu = sample_menu();
    let mp = Some("/menu/root".to_string());
    let r = app.activate_menu_item(&vec![1], &menu, &mp);
    let req = r.expect("a resolved leaf must yield exactly one request");
    assert_eq!(req.address, "the-address");
    assert_eq!(req.menu_path, "/menu/root");
    assert_eq!(req.submenu_id, 1);
    // Zero expansion toggles.
    assert!(app.state_at(0).unwrap().tree_state.opened.is_empty());
}

#[test]
fn activating_inner_node_toggles_and_emits_nothing() {
    let mut app = one_entry_app();
    let menu = sample_menu();
    let mp = Some("/menu/root".to_string());
    let r = app.activate_menu_item(&vec![2], &menu, &mp);
    assert!(r.is_none());
    assert!(app.state_at(0).unwrap().tree_state.opened.contains(&vec![2]));
    // A second trigger collapses it again, still without a request.
    let r2 = app.activate_menu_item(&vec![2], &menu, &mp);
    assert!(r2.is_none());
    assert!(app.state_at(0).unwrap().tree_state.opened.is_empty());
}

#[test]
fn stale_path_is_dropped_silently() {
    let mut app = one_entry_app();
    let menu = sample_menu();
    let mp = Some("/menu/root".to_string());
    let r = app.activate_menu_item(&vec![9], &menu, &mp);
    assert!(r.is_none());
    assert!(app.state_at(0).unwrap().tree_state.opened.is_empty());
}

#[test]
fn nested_leaf_resolves_through_its_parent() {
    let mut app = one_entry_app();
    let menu = sample_menu();
    let mp = Some("/m".to_string());
    let r = app.activate_menu_item(&vec![2, 21], &menu, &mp);
    let req = r.expect("nested leaf resolves");
    assert_eq!(req.submenu_id, 21);
}

#[test]
fn missing_menu_root_path_suppresses_request() {
    let mut app = one_entry_app();
    let menu = sample_menu();
    let r = app.activate_menu_item(&vec![1], &menu, &None);
    assert!(r.is_none());
}

#[test]
fn quit_event_stops_the_loop() {
    let mut app = one_entry_app();
    assert!(app.running());
    let r = handle_key_events(&mut app, KeyBindEvent::Quit, &vec![], &None);
    assert!(r.is_none());
    assert!(!app.running());
}

#[test]
fn activate_event_uses_selected_path() {
    let mut app = one_entry_app();
    let menu = sample_menu();
    let mp = Some("/m".to_string());
    // Select the leaf via two tree-down events, then activate.
    handle_key_events(&mut app, KeyBindEvent::TreeDown, &menu, &mp);
    assert_eq!(app.get_focused_tree_state().unwrap().selected, vec![1]);
    let r = handle_key_events(&mut app, KeyBindEvent::Activate, &menu, &mp);
    let req = r.expect("selected leaf activates");
    assert_eq!(req.submenu_id, 1);
    assert_eq!(req.address, "the-address");
}

#[test]
fn mouse_click_activates_node_under_pointer() {
    let mut app = one_entry_app();
    let menu = sample_menu();
    let mp = Some("/m".to_string());
    app.set_focused_node_rects(vec![
        (vec![1], Rect::new(0, 0, 10, 1)),
        (vec![2], Rect::new(0, 1, 10, 1)),
    ]);
    let r = handle_mouse_event(&mut app, MouseKind::LeftDown, Position::new(3, 0), &menu, &mp);
    let req = r.expect("click on a leaf activates it");
    assert_eq!(req.submenu_id, 1);
    // Click on the inner node toggles instead.
    let r2 = handle_mouse_event(&mut app, MouseKind::LeftDown, Position::new(3, 1), &menu, &mp);
    assert!(r2.is_none());
    assert!(app.state_at(0).unwrap().tree_state.opened.contains(&vec![2]));
}

#[test]
fn mouse_move_selects_or_refocuses() {
    let mut app = App::new(Config::default());
    app.update(&vec![
        ("a".to_string(), "1".to_string()),
        ("b".to_string(), "2".to_string()),
    ]);
    app.set_rects(&vec![Rect::new(0, 0, 10, 10), Rect::new(10, 0, 10, 10)]);
    app.set_focused_node_rects(vec![(vec![1], Rect::new(1, 1, 5, 1))]);
    let menu = sample_menu();
    // Inside the focused entry: the node under the pointer becomes selected.
    handle_mouse_event(&mut app, MouseKind::Moved, Position::new(2, 1), &menu, &None);
    assert_eq!(app.get_focused_tree_state().unwrap().selected, vec![1]);
    // Over the other entry: focus follows the pointer.
    handle_mouse_event(&mut app, MouseKind::Moved, Position::new(15, 5), &menu, &None);
    assert_eq!(app.get_focused_sni_key().unwrap().as_str(), "b");
}

#[test]
fn mouse_scroll_moves_focused_menu() {
    let mut app = one_entry_app();
    let menu = sample_menu();
    handle_mouse_event(&mut app, MouseKind::ScrollDown, Position::new(0, 0), &menu, &None);
    handle_mouse_event(&mut app, MouseKind::ScrollDown, Position::new(0, 0), &menu, &None);
    assert_eq!(app.get_focused_tree_state().unwrap().scroll_offset, 2);
    handle_mouse_event(&mut app, MouseKind::ScrollUp, Position::new(0, 0), &menu, &None);
    assert_eq!(app.get_focused_tree_state().unwrap().scroll_offset, 1);
}

#[test]
fn hit_test_finds_entry_by_position() {
    let mut app = App::new(Config::default());
    app.update(&vec![
        ("a".to_string(), "1".to_string()),
        ("b".to_string(), "2".to_string()),
    ]);
    app.set_rects(&vec![Rect::new(0, 0, 10, 10), Rect::new(10, 0, 10, 10)]);
    assert_eq!(
        app.get_focused_sni_key_by_position(Position::new(5, 5)),
        Some("a".to_string())
    );
    assert_eq!(
        app.get_focused_sni_key_by_position(Position::new(15, 5)),
        Some("b".to_string())
    );
    assert_eq!(app.get_focused_sni_key_by_position(Position::new(25, 5)), None);
}

use tray_tui::app::{App, FocusDirection};
use tray_tui::config::Config;
use tray_tui::wrappers::Rect;

fn live(pairs: &[(&str, &str)]) -> Vec<(String, String)> {
    pairs
        .iter()
        .map(|(k, t)| (k.to_string(), t.to_string()))
        .collect()
}

fn keys_of(app: &App) -> Vec<String> {
    let mut r = Vec::new();
    let mut i = 0;
    while let Some(k) = app.key_at(i) {
        r.push(k.clone());
        i += 1;
    }
    r
}

#[test]
fn registry_keys_equal_live_set() {
    // After any reconciliation the key set equals the live id set exactly.
    let mut app = App::new(Config::default());
    app.update(&live(&[("a", "1"), ("b", "2"), ("c", "3")]));
    assert_eq!(keys_of(&app), vec!["a", "b", "c"]);
    app.update(&live(&[("b", "2"), ("d", "4")]));
    assert_eq!(keys_of(&app), vec!["b", "d"]);
    app.update(&live(&[]));
    assert_eq!(keys_of(&app), Vec::<String>::new());
    assert!(app.get_focused_sni_key().is_none());
}

#[test]
fn same_size_swap_still_reconciles() {
    // An add and a remove of equal count must not pass the fast path.
    let mut app = App::new(Config::default());
    app.update(&live(&[("a", "1"), ("b", "2")]));
    app.update(&live(&[("a", "1"), ("c", "3")]));
    assert_eq!(keys_of(&app), vec!["a", "c"]);
}

#[test]
fn reconcile_twice_is_idempotent_on_survivors() {
    let mut app = App::new(Config::default());
    let snapshot = live(&[("a", "1"), ("b", "2"), ("c", "3")]);
    app.update(&snapshot);
    // Give the survivors some state that reconciliation must not touch.
    app.set_rects(&vec![
        Rect::new(0, 0, 10, 5),
        Rect::new(10, 0, 10, 5),
        Rect::new(20, 0, 10, 5),
    ]);
    app.focused_tree_toggle(&vec![7]);
    let before: Vec<(Rect, bool)> = (0..3)
        .map(|i| {
            let s = app.state_at(i).unwrap();
            (s.rect, s.tree_state.opened.contains(&vec![7]))
        })
        .collect();
    app.update(&snapshot);
    app.update(&snapshot);
    let after: Vec<(Rect, bool)> = (0..3)
        .map(|i| {
            let s = app.state_at(i).unwrap();
            (s.rect, s.tree_state.opened.contains(&vec![7]))
        })
        .collect();
    assert_eq!(before, after);
    assert_eq!(keys_of(&app), vec!["a", "b", "c"]);
}

#[test]
fn tree_state_reset_only_on_reappearance() {
    let mut app = App::new(Config::default());
    app.update(&live(&[("a", "1")]));
    app.focused_tree_toggle(&vec![5]);
    assert!(app.state_at(0).unwrap().tree_state.opened.contains(&vec![5]));
    // Survives a reconciliation that keeps the id.
    app.update(&live(&[("a", "1"), ("b", "2")]));
    assert!(app.state_at(0).unwrap().tree_state.opened.contains(&vec![5]));
    // Vanishes and reappears: state is fresh.
    app.update(&live(&[("b", "2")]));
    app.update(&live(&[("a", "1"), ("b", "2")]));
    let idx = if app.key_at(0).unwrap() == "a" { 0 } else { 1 };
    assert!(app.state_at(idx).unwrap().tree_state.opened.is_empty());
}

#[test]
fn removing_focused_id_moves_focus_to_same_index() {
    // Three entries, focus on index 1; removing the focused id leaves the
    // focus on whatever id now occupies index 1.
    let mut app = App::new(Config::default());
    app.update(&live(&[("a", "1"), ("b", "2"), ("c", "3")]));
    app.move_focus(FocusDirection::Right);
    assert_eq!(app.get_focused_sni_key().unwrap().as_str(), "b");
    assert_eq!(app.get_focused_sni_index(), Some(1));
    app.update(&live(&[("a", "1"), ("c", "3")]));
    assert_eq!(app.get_focused_sni_key().unwrap().as_str(), "c");
    assert_eq!(app.get_focused_sni_index(), Some(1));
    // Only one entry remains: focus falls back to index 0.
    app.update(&live(&[("a", "1")]));
    assert_eq!(app.get_focused_sni_key().unwrap().as_str(), "a");
    assert_eq!(app.get_focused_sni_index(), Some(0));
    // The registry empties: focus becomes none.
    app.update(&live(&[]));
    assert!(app.get_focused_sni_key().is_none());
    assert!(app.get_focused_sni_index().is_none());
}

#[test]
fn surviving_focus_is_kept() {
    let mut app = App::new(Config::default());
    app.update(&live(&[("a", "1"), ("b", "2"), ("c", "3")]));
    app.set_focus(&"c".to_string());
    app.update(&live(&[("c", "3"), ("d", "4")]));
    assert_eq!(app.get_focused_sni_key().unwrap().as_str(), "c");
}

#[test]
fn sorting_orders_by_title_then_id() {
    let mut config = Config::default();
    config.sorting = true;
    let mut app = App::new(config);
    app.update(&live(&[("z", "beta"), ("y", "alpha"), ("x", "beta")]));
    // "alpha" first; the two "beta" titles tie and fall back to id order.
    assert_eq!(keys_of(&app), vec!["y", "x", "z"]);
}

#[test]
fn arrival_order_kept_without_sorting() {
    let mut app = App::new(Config::default());
    app.update(&live(&[("z", "beta"), ("y", "alpha")]));
    app.update(&live(&[("z", "beta"), ("y", "alpha"), ("a", "aaa")]));
    assert_eq!(keys_of(&app), vec!["z", "y", "a"]);
}

#[test]
fn new_entries_are_unfocused_and_fresh() {
    let mut app = App::new(Config::default());
    app.update(&live(&[("a", "1"), ("b", "2")]));
    let s = app.state_at(1).unwrap();
    assert!(!s.focused);
    assert!(s.tree_state.opened.is_empty());
    assert!(s.tree_state.selected.is_empty());
    assert_eq!(s.rect, Rect::new(0, 0, 0, 0));
}

#[test]
fn sorting_compares_titles_as_utf8_bytes() {
    // Multi-byte titles sort after ASCII ones in byte order.
    let mut config = Config::default();
    config.sorting = true;
    let mut app = App::new(config);
    app.update(&live(&[("a", "\u{03a9}mega"), ("b", "zeta")]));
    assert_eq!(keys_of(&app), vec!["b", "a"]);
}

#[test]
fn fast_path_skips_only_on_content_equality() {
    // The same ids in a different live order still count as the same set.
    let mut app = App::new(Config::default());
    app.update(&live(&[("a", "1"), ("b", "2")]));
    app.focused_tree_toggle(&vec![3]);
    app.update(&live(&[("b", "2"), ("a", "1")]));
    assert_eq!(keys_of(&app), vec!["a", "b"]);
    assert!(app.state_at(0).unwrap().tree_state.opened.contains(&vec![3]));
}

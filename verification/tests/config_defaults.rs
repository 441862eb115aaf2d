use tray_tui::config::{
    allignment, columns, highlight_symbol, mouse, node_closed_symbol, node_no_children_symbol,
    node_open_symbol, sorting, symbols, Allignment, Config, Symbols,
};
use tray_tui::wrappers::get_title;

#[test]
fn default_values() {
    assert_eq!(columns(), 3);
    assert_eq!(sorting(), false);
    assert_eq!(mouse(), true);
    assert_eq!(allignment(), Allignment::Horizontal);
    assert_eq!(highlight_symbol(), "");
    assert_eq!(node_closed_symbol(), " \u{23f7} ");
    assert_eq!(node_open_symbol(), " \u{25b6} ");
    assert_eq!(node_no_children_symbol(), " ");
}

#[test]
fn default_structs_agree_with_providers() {
    let c = Config::default();
    assert_eq!(c.columns, columns());
    assert_eq!(c.sorting, sorting());
    assert_eq!(c.mouse, mouse());
    assert_eq!(c.allignment, Allignment::Horizontal);
    let s: Symbols = symbols();
    assert_eq!(c.symbols.highlight_symbol, s.highlight_symbol);
    assert_eq!(c.symbols.node_closed_symbol, s.node_closed_symbol);
    assert_eq!(c.symbols.node_open_symbol, s.node_open_symbol);
    assert_eq!(c.symbols.node_no_children_symbol, s.node_no_children_symbol);
}

#[test]
fn title_prefers_nonempty_title() {
    let r = get_title(
        &Some("Shown".to_string()),
        &Some("Tip".to_string()),
        &"id".to_string(),
    );
    assert_eq!(r, "Shown");
}

#[test]
fn empty_title_falls_back_to_tooltip() {
    let r = get_title(&Some("".to_string()), &Some("Tip".to_string()), &"id".to_string());
    assert_eq!(r, "Tip");
    let r2 = get_title(&None, &Some("Tip".to_string()), &"id".to_string());
    assert_eq!(r2, "Tip");
}

#[test]
fn missing_title_and_tooltip_fall_back_to_id() {
    let r = get_title(&Some("".to_string()), &None, &"the-id".to_string());
    assert_eq!(r, "the-id");
    let r2 = get_title(&None, &None, &"the-id".to_string());
    assert_eq!(r2, "the-id");
}

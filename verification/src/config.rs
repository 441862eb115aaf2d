//! Read-only configuration consumed by the navigation engine: grid column
//! count, sort flag, mouse flag, layout direction and the tree symbols.
//! Colors and the key-binding table are presentation concerns and stay with
//! the embedding program; it maps raw key presses to [`KeyBindEvent`]s.

use vstd::prelude::*;

verus! {

/// An abstract user action, produced by the embedding program's key-binding
/// table and consumed by the event handler.
#[derive(Clone, Copy, Debug, PartialEq, Eq, Structural)]
pub enum KeyBindEvent {
    FocusLeft,
    FocusDown,
    FocusUp,
    FocusRight,
    TreeUp,
    TreeDown,
    Quit,
    Activate,
    NoOp,
}

/// Direction in which the grid of entries is laid out.
#[derive(Clone, Copy, Debug, PartialEq, Eq, Structural)]
pub enum Allignment {
    Horizontal,
    Vertical,
}

/// Symbols drawn around menu nodes by the render layer.
#[derive(Clone, Debug)]
pub struct Symbols {
    pub highlight_symbol: String,
    pub node_closed_symbol: String,
    pub node_open_symbol: String,
    pub node_no_children_symbol: String,
}

/// The configuration the engine reads. `columns` is at least 1.
#[derive(Clone, Debug)]
pub struct Config {
    pub allignment: Allignment,
    pub columns: usize,
    pub sorting: bool,
    pub symbols: Symbols,
    pub mouse: bool,
}

/// Default layout direction.
pub fn allignment() -> (r: Allignment)
    ensures
        r == Allignment::Horizontal,
{
    Allignment::Horizontal
}

/// Default grid column count.
pub fn columns() -> (r: usize)
    ensures
        r == 3usize,
{
    3
}

/// Default sort flag: entries keep arrival order.
pub fn sorting() -> (r: bool)
    ensures
        r == false,
{
    false
}

/// Default mouse flag: mouse input is handled.
pub fn mouse() -> (r: bool)
    ensures
        r == true,
{
    true
}

/// Default symbol put before the highlighted node.
pub fn highlight_symbol() -> (r: String)
    ensures
        r@ == ""@,
{
    "".to_owned()
}

/// Default symbol for a closed node.
pub fn node_closed_symbol() -> (r: String)
    ensures
        r@ == " \u{23f7} "@,
{
    " \u{23f7} ".to_owned()
}

/// Default symbol for an open node.
pub fn node_open_symbol() -> (r: String)
    ensures
        r@ == " \u{25b6} "@,
{
    " \u{25b6} ".to_owned()
}

/// Default symbol for a node without children.
pub fn node_no_children_symbol() -> (r: String)
    ensures
        r@ == " "@,
{
    " ".to_owned()
}

/// Default symbol set.
pub fn symbols() -> (r: Symbols)
    ensures
        r.highlight_symbol@ == ""@,
        r.node_closed_symbol@ == " \u{23f7} "@,
        r.node_open_symbol@ == " \u{25b6} "@,
        r.node_no_children_symbol@ == " "@,
{
    Symbols::default()
}

impl Default for Symbols {
    /// The default symbols, one for each of the four positions.
    fn default() -> (r: Self)
        ensures
            r.highlight_symbol@ == ""@,
            r.node_closed_symbol@ == " \u{23f7} "@,
            r.node_open_symbol@ == " \u{25b6} "@,
            r.node_no_children_symbol@ == " "@,
    {
        Symbols {
            highlight_symbol: highlight_symbol(),
            node_closed_symbol: node_closed_symbol(),
            node_open_symbol: node_open_symbol(),
            node_no_children_symbol: node_no_children_symbol(),
        }
    }
}

impl Default for Config {
    /// The default configuration: horizontal layout, three columns, no
    /// sorting, mouse on, default symbols.
    fn default() -> (r: Self)
        ensures
            r.allignment == Allignment::Horizontal,
            r.columns == 3usize,
            r.sorting == false,
            r.mouse == true,
            r.symbols.highlight_symbol@ == ""@,
            r.symbols.node_closed_symbol@ == " \u{23f7} "@,
            r.symbols.node_open_symbol@ == " \u{25b6} "@,
            r.symbols.node_no_children_symbol@ == " "@,
    {
        Config {
            allignment: allignment(),
            columns: columns(),
            sorting: sorting(),
            symbols: symbols(),
            mouse: mouse(),
        }
    }
}

} // verus!

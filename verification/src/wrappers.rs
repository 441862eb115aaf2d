//! Per-entry UI state and the screen geometry it is hit-tested against.
//!
//! A [`Rect`] records where an entry (or a menu node) was drawn during the
//! last render; a [`Position`] is a screen cell addressed by a mouse event.
//! [`SniState`] bundles everything the engine keeps per tray entry: the last
//! rendered bounds, the focus flag and the menu tree state.

use vstd::prelude::*;

use crate::tree::{TreeState, TreeStateView};

verus! {

/// A screen cell, addressed by column (`x`) and row (`y`).
#[derive(Clone, Copy, Debug, PartialEq, Eq, Structural)]
pub struct Position {
    pub x: u16,
    pub y: u16,
}

impl Position {
    pub fn new(x: u16, y: u16) -> (r: Position)
        ensures
            r == (Position { x, y }),
    {
        Position { x, y }
    }
}

/// An axis-aligned rectangle of screen cells, given by its top-left corner
/// and its extent.
#[derive(Clone, Copy, Debug, PartialEq, Eq, Structural)]
pub struct Rect {
    pub x: u16,
    pub y: u16,
    pub width: u16,
    pub height: u16,
}

impl Rect {
    /// Whether `pos` lies inside the rectangle. The right and bottom edges
    /// are exclusive, so rectangles that merely touch do not overlap.
    pub open spec fn spec_contains(self, pos: Position) -> bool {
        &&& self.x <= pos.x
        &&& (pos.x as int) < self.x + self.width
        &&& self.y <= pos.y
        &&& (pos.y as int) < self.y + self.height
    }

    pub fn new(x: u16, y: u16, width: u16, height: u16) -> (r: Rect)
        ensures
            r == (Rect { x, y, width, height }),
    {
        Rect { x, y, width, height }
    }

    /// The empty rectangle at the origin; it contains no position.
    pub fn zero() -> (r: Rect)
        ensures
            r == Rect::spec_zero(),
    {
        Rect { x: 0, y: 0, width: 0, height: 0 }
    }

    pub open spec fn spec_zero() -> Rect {
        Rect { x: 0, y: 0, width: 0, height: 0 }
    }

    pub fn contains(&self, pos: Position) -> (r: bool)
        ensures
            r == self.spec_contains(pos),
    {
        pos.x >= self.x && (pos.x as u32) < (self.x as u32) + (self.width as u32) && pos.y >= self.y
            && (pos.y as u32) < (self.y as u32) + (self.height as u32)
    }
}

/// Everything the engine keeps for one tray entry: the bounds it was last
/// drawn at, whether it is the focused entry, and its menu tree state.
#[derive(Clone, Debug)]
pub struct SniState {
    pub rect: Rect,
    pub focused: bool,
    pub tree_state: TreeState,
}

/// The mathematical content of a [`SniState`].
#[verifier::ext_equal]
pub struct SniStateView {
    pub rect: Rect,
    pub focused: bool,
    pub tree_state: TreeStateView,
}

impl SniStateView {
    /// The state of an entry just created by reconciliation: zero rectangle,
    /// unfocused, fresh tree state.
    pub open spec fn fresh() -> SniStateView {
        SniStateView { rect: Rect::spec_zero(), focused: false, tree_state: TreeStateView::fresh() }
    }
}

impl View for SniState {
    type V = SniStateView;

    open spec fn view(&self) -> SniStateView {
        SniStateView { rect: self.rect, focused: self.focused, tree_state: self.tree_state@ }
    }
}

impl SniState {
    /// A fresh entry state: zero rectangle, unfocused, empty tree state.
    pub fn new() -> (r: SniState)
        ensures
            r@ == SniStateView::fresh(),
    {
        let r = SniState { rect: Rect::zero(), focused: false, tree_state: TreeState::new() };
        assert(r@ =~= SniStateView::fresh());
        r
    }

    /// Record the bounds this entry was drawn at in the current frame.
    pub fn set_rect(&mut self, rect: Rect)
        ensures
            *final(self) == (SniState { rect, ..*old(self) }),
    {
        self.rect = rect;
    }

    pub fn set_focused(&mut self, focused: bool)
        ensures
            *final(self) == (SniState { focused, ..*old(self) }),
    {
        self.focused = focused;
    }
}

/// The view of an optional string.
pub open spec fn opt_str_view(o: Option<String>) -> Option<Seq<char>> {
    match o {
        Some(s) => Some(s@),
        None => None,
    }
}

/// The display title of an entry: its published title when that is
/// non-empty, else its tooltip title when one is published, else its id.
pub open spec fn spec_get_title(
    title: Option<Seq<char>>,
    tooltip_title: Option<Seq<char>>,
    id: Seq<char>,
) -> Seq<char> {
    match title {
        Some(t) => if t.len() > 0 {
            t
        } else {
            match tooltip_title {
                Some(tt) => tt,
                None => id,
            }
        },
        None => match tooltip_title {
            Some(tt) => tt,
            None => id,
        },
    }
}

/// Pick the display title of an entry from what it published.
pub fn get_title(title: &Option<String>, tooltip_title: &Option<String>, id: &String) -> (r: String)
    ensures
        r@ == spec_get_title(opt_str_view(*title), opt_str_view(*tooltip_title), id@),
{
    match title {
        Some(t) => {
            if !t.as_str().is_empty() {
                return t.clone();
            }
        },
        None => {},
    }
    match tooltip_title {
        Some(tt) => tt.clone(),
        None => id.clone(),
    }
}

} // verus!

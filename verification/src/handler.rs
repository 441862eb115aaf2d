//! Dispatch of user input to the engine. The embedding program translates
//! raw terminal events into a [`KeyBindEvent`] through its key-binding
//! table, or into a [`MouseKind`] with a screen position, and copies the
//! focused entry's menu out of the external snapshot; the handlers below
//! decide and apply what each event does and hand back at most one
//! activation request to fire.

use vstd::prelude::*;

use crate::app::{
    activated, focus_moved, same_entries_except_focus, tree_selection_moved, ActivateRequest, App,
    FocusDirection,
};
use crate::config::KeyBindEvent;
use crate::tree::{clone_path, deepest_hit, MenuNode, TreeStateView};
use crate::wrappers::{opt_str_view, Position};
use crate::registry::seq_find_key;

verus! {

/// The mouse gestures the engine reacts to.
#[derive(Clone, Copy, Debug, PartialEq, Eq, Structural)]
pub enum MouseKind {
    LeftDown,
    Moved,
    ScrollUp,
    ScrollDown,
    Other,
}

/// What a scroll of the focused entry's menu does: the scroll offset moves
/// by `lines`, saturating at the ends; everything else is untouched.
pub open spec fn tree_scrolled(pre: App, post: App, lines: usize, down: bool) -> bool {
    match pre.focused_key_view() {
        None => post == pre,
        Some(k0) => {
            let idx = seq_find_key(pre.reg(), k0);
            let ot = pre.reg()[idx].1.tree_state;
            let nt = post.reg()[idx].1.tree_state;
            &&& crate::app::entry_tree_updated(pre.reg(), post.reg(), idx, nt)
            &&& nt == (TreeStateView {
                scroll_offset: (if down {
                    if ot.scroll_offset + lines <= usize::MAX {
                        (ot.scroll_offset + lines) as usize
                    } else {
                        usize::MAX
                    }
                } else {
                    if ot.scroll_offset >= lines {
                        (ot.scroll_offset - lines) as usize
                    } else {
                        0
                    }
                }),
                ..ot
            })
            &&& post.focused_key_view() == pre.focused_key_view()
            &&& post.spec_running() == pre.spec_running()
            &&& post.spec_config() == pre.spec_config()
        },
    }
}

/// Apply one keyboard action: quit, a grid focus move, a tree selection
/// move, or activation of the focused entry's selected path. At most one
/// activation request comes back, for the embedding program to fire.
pub fn handle_key_events(
    app: &mut App,
    ev: KeyBindEvent,
    menu: &Vec<MenuNode>,
    menu_path: &Option<String>,
) -> (r: Option<ActivateRequest>)
    requires
        old(app).wf(),
    ensures
        final(app).wf(),
        final(app).spec_config() == old(app).spec_config(),
        match ev {
            KeyBindEvent::Quit => r is None && !final(app).spec_running() && final(app).reg()
                == old(app).reg() && final(app).focused_key_view() == old(
                app,
            ).focused_key_view(),
            KeyBindEvent::FocusLeft => r is None && focus_moved(
                *old(app),
                *final(app),
                FocusDirection::Left,
            ),
            KeyBindEvent::FocusRight => r is None && focus_moved(
                *old(app),
                *final(app),
                FocusDirection::Right,
            ),
            KeyBindEvent::FocusUp => r is None && focus_moved(
                *old(app),
                *final(app),
                FocusDirection::Up,
            ),
            KeyBindEvent::FocusDown => r is None && focus_moved(
                *old(app),
                *final(app),
                FocusDirection::Down,
            ),
            KeyBindEvent::TreeUp => r is None && tree_selection_moved(
                *old(app),
                *final(app),
                menu@,
                false,
            ),
            KeyBindEvent::TreeDown => r is None && tree_selection_moved(
                *old(app),
                *final(app),
                menu@,
                true,
            ),
            KeyBindEvent::Activate => match old(app).focused_key_view() {
                Some(k0) => activated(
                    *old(app),
                    *final(app),
                    r,
                    old(app).reg()[seq_find_key(old(app).reg(), k0)].1.tree_state.selected,
                    menu@,
                    opt_str_view(*menu_path),
                ),
                None => r is None && *final(app) == *old(app),
            },
            KeyBindEvent::NoOp => r is None && *final(app) == *old(app),
        },
{
    match ev {
        KeyBindEvent::Quit => {
            app.quit();
            None
        },
        KeyBindEvent::FocusLeft => {
            app.move_focus(FocusDirection::Left);
            None
        },
        KeyBindEvent::FocusRight => {
            app.move_focus(FocusDirection::Right);
            None
        },
        KeyBindEvent::FocusUp => {
            app.move_focus(FocusDirection::Up);
            None
        },
        KeyBindEvent::FocusDown => {
            app.move_focus(FocusDirection::Down);
            None
        },
        KeyBindEvent::TreeUp => {
            app.focused_tree_move_up(menu);
            None
        },
        KeyBindEvent::TreeDown => {
            app.focused_tree_move_down(menu);
            None
        },
        KeyBindEvent::Activate => {
            let sel: Vec<i32> = match app.get_focused_tree_state() {
                Some(t) => clone_path(&t.selected),
                None => Vec::new(),
            };
            app.activate_menu_item(&sel, menu, menu_path)
        },
        KeyBindEvent::NoOp => None,
    }
}

/// Apply one mouse gesture. A left click activates the menu node drawn at
/// the position, if any. A move either follows the pointer inside the
/// focused entry's menu (selecting the node under it) or refocuses the
/// entry drawn at the position. Scrolling moves the focused menu by one
/// line. At most one activation request comes back.
pub fn handle_mouse_event(
    app: &mut App,
    kind: MouseKind,
    pos: Position,
    menu: &Vec<MenuNode>,
    menu_path: &Option<String>,
) -> (r: Option<ActivateRequest>)
    requires
        old(app).wf(),
    ensures
        final(app).wf(),
        final(app).spec_config() == old(app).spec_config(),
        match kind {
            MouseKind::LeftDown => match old(app).focused_key_view() {
                None => r is None && *final(app) == *old(app),
                Some(k0) => {
                    let idx = seq_find_key(old(app).reg(), k0);
                    match deepest_hit(old(app).reg()[idx].1.tree_state.node_rects, pos) {
                        None => r is None && *final(app) == *old(app),
                        Some(p) => activated(
                            *old(app),
                            *final(app),
                            r,
                            p,
                            menu@,
                            opt_str_view(*menu_path),
                        ),
                    }
                },
            },
            MouseKind::Moved => r is None && match old(app).focused_key_view() {
                None => *final(app) == *old(app),
                Some(k0) => {
                    let idx = seq_find_key(old(app).reg(), k0);
                    if old(app).reg()[idx].1.rect.spec_contains(pos) {
                        match deepest_hit(old(app).reg()[idx].1.tree_state.node_rects, pos) {
                            Some(p) => {
                                let ot = old(app).reg()[idx].1.tree_state;
                                let nt = final(app).reg()[idx].1.tree_state;
                                &&& crate::app::entry_tree_updated(
                                    old(app).reg(),
                                    final(app).reg(),
                                    idx,
                                    nt,
                                )
                                &&& nt == (TreeStateView { selected: p, ..ot })
                                &&& final(app).focused_key_view() == old(app).focused_key_view()
                                &&& final(app).spec_running() == old(app).spec_running()
                            },
                            None => *final(app) == *old(app),
                        }
                    } else {
                        match crate::app::first_hit(old(app).reg(), pos) {
                            Some(k) => {
                                &&& same_entries_except_focus(old(app).reg(), final(app).reg())
                                &&& final(app).focused_key_view() == Some(k)
                                &&& final(app).spec_running() == old(app).spec_running()
                            },
                            None => *final(app) == *old(app),
                        }
                    }
                },
            },
            MouseKind::ScrollUp => r is None && tree_scrolled(*old(app), *final(app), 1, false),
            MouseKind::ScrollDown => r is None && tree_scrolled(*old(app), *final(app), 1, true),
            MouseKind::Other => r is None && *final(app) == *old(app),
        },
{
    match kind {
        MouseKind::LeftDown => {
            match app.find_focused_tree_node_at(pos) {
                Some(p) => {
                    proof {
                        crate::tree::lemma_path_deep_view(p);
                    }
                    app.activate_menu_item(&p, menu, menu_path)
                },
                None => None,
            }
        },
        MouseKind::Moved => {
            let idx = match app.get_focused_sni_index() {
                Some(i) => i,
                None => {
                    return None;
                },
            };
            let inside = match app.state_at(idx) {
                Some(s) => s.rect.contains(pos),
                None => {
                    proof {
                        assert(false);
                    }
                    unreached()
                },
            };
            if inside {
                match app.find_focused_tree_node_at(pos) {
                    Some(p) => {
                        proof {
                            crate::tree::lemma_path_deep_view(p);
                        }
                        app.focused_tree_select(p);
                    },
                    None => {},
                }
            } else {
                match app.get_focused_sni_key_by_position(pos) {
                    Some(k) => {
                        proof {
                            crate::app::lemma_first_hit(app.reg(), pos);
                        }
                        app.set_focus(&k);
                    },
                    None => {},
                }
            }
            None
        },
        MouseKind::ScrollUp => {
            app.focused_tree_scroll_up(1);
            None
        },
        MouseKind::ScrollDown => {
            app.focused_tree_scroll_down(1);
            None
        },
        MouseKind::Other => None,
    }
}

} // verus!

//! The application core: the ordered registry of live tray entries, the
//! focus that moves over them on a 2-D grid, and reconciliation of the
//! registry against the externally published id set.
//!
//! The focused entry is identified by its key alone; its grid index is
//! always derived from the key's position in the registry, never stored.

use vstd::prelude::*;

use indexmap::IndexMap;

use crate::config::Config;
use crate::reconcile::{
    additions, lemma_base_props, lemma_live_find_key, lemma_rel_key_set, lemma_rel_trees_wf,
    live_find, live_has_key, live_keys_unique, reconcile_base, reconcile_rel, same_key_set,
    sort_entries, strip, survivors,
};
use crate::registry::{
    entries_view, has_key, keys_unique, lemma_seq_find_key, reg_clear, reg_entries, reg_index_of,
    reg_insert, reg_key_at, reg_len, reg_seq, reg_swap_val_at, reg_val_at, reg_new, seq_find_key,
};
use crate::tree::{
    deepest_hit, path_index_of, rects_view, spec_resolve, visible_from, MenuNode, TreeState,
    TreeStateView,
};
use crate::wrappers::{opt_str_view, Position, Rect, SniState, SniStateView};

verus! {

/// Direction of a grid focus move.
#[derive(Clone, Copy, Debug, PartialEq, Eq, Structural)]
pub enum FocusDirection {
    Down,
    Up,
    Right,
    Left,
}

/// The bottom-most index of the column `i` belongs to: starting from `i`,
/// the largest index below `length` reachable in steps of `columns`.
pub open spec fn grid_bottom(i: int, length: int, columns: int) -> int
    recommends
        0 <= i < length,
        1 <= columns,
    decreases length - i
        when 0 <= i < length && 1 <= columns
{
    if 0 <= i < length && 1 <= columns {
        if i + columns < length {
            grid_bottom(i + columns, length, columns)
        } else {
            i
        }
    } else {
        i
    }
}

/// Where the focus lands when it moves from `current` in `direction` on a
/// row-major grid of `length` entries and `columns` columns. `current` stays
/// put on a grid of one entry or none. Right and Left wrap around the whole
/// grid; Down wraps to the first entry whenever a full step would leave the
/// grid, so a short last row never yields an out-of-range index; Up steps
/// back one row, or wraps to the bottom-most entry of the same column.
pub open spec fn spec_next_index(
    current: int,
    direction: FocusDirection,
    length: int,
    columns: int,
) -> int
    recommends
        1 <= columns,
        0 <= current,
        length >= 1 ==> current < length,
{
    if length <= 1 {
        current
    } else {
        match direction {
            FocusDirection::Right => (current + 1) % length,
            FocusDirection::Left => (current + length - 1) % length,
            FocusDirection::Down => if current + columns < length {
                current + columns
            } else {
                0
            },
            FocusDirection::Up => if current >= columns {
                current - columns
            } else {
                grid_bottom(current, length, columns)
            },
        }
    }
}

/// What `grid_bottom` lands on: the bottom-most entry of `i`'s column.
pub proof fn lemma_grid_bottom(i: int, length: int, columns: int)
    requires
        0 <= i < length,
        1 <= columns,
    ensures
        i <= grid_bottom(i, length, columns) < length,
        (grid_bottom(i, length, columns) - i) % columns == 0,
        grid_bottom(i, length, columns) + columns >= length,
    decreases length - i,
{
    if i + columns < length {
        lemma_grid_bottom(i + columns, length, columns);
        let g = grid_bottom(i, length, columns);
        assert((g - (i + columns)) % columns == 0);
        vstd::arithmetic::div_mod::lemma_mod_sub_multiples_vanish(g - i, columns);
        assert((g - i) % columns == ((g - i) - columns) % columns);
    } else {
        vstd::arithmetic::div_mod::lemma_small_mod(0nat, columns as nat);
    }
}

/// The pure grid navigator: the next focus index for a move from `current`
/// in `direction` over `length` entries laid out in `columns` columns.
pub fn next_index(current: usize, direction: FocusDirection, length: usize, columns: usize) -> (r:
    usize)
    requires
        1 <= columns,
        length >= 1 ==> current < length,
    ensures
        r == spec_next_index(current as int, direction, length as int, columns as int),
        length >= 1 ==> r < length,
        length <= 1 ==> r == current,
{
    if length <= 1 {
        return current;
    }
    match direction {
        FocusDirection::Right => {
            if current + 1 < length {
                proof {
                    vstd::arithmetic::div_mod::lemma_small_mod(
                        (current + 1) as nat,
                        length as nat,
                    );
                }
                current + 1
            } else {
                proof {
                    vstd::arithmetic::div_mod::lemma_mod_self_0(length as int);
                }
                0
            }
        },
        FocusDirection::Left => {
            if current == 0 {
                proof {
                    vstd::arithmetic::div_mod::lemma_small_mod(
                        (length - 1) as nat,
                        length as nat,
                    );
                }
                length - 1
            } else {
                proof {
                    vstd::arithmetic::div_mod::lemma_mod_add_multiples_vanish(
                        current - 1,
                        length as int,
                    );
                    vstd::arithmetic::div_mod::lemma_small_mod(
                        (current - 1) as nat,
                        length as nat,
                    );
                }
                current - 1
            }
        },
        FocusDirection::Down => {
            if columns < length - current {
                current + columns
            } else {
                0
            }
        },
        FocusDirection::Up => {
            if current >= columns {
                current - columns
            } else {
                let ghost fixed = grid_bottom(current as int, length as int, columns as int);
                let mut i = current;
                while columns < length - i
                    invariant
                        current <= i < length,
                        1 <= columns,
                        grid_bottom(i as int, length as int, columns as int) == fixed,
                    decreases length - i,
                {
                    i = i + columns;
                }
                proof {
                    lemma_grid_bottom(i as int, length as int, columns as int);
                }
                i
            }
        },
    }
}

/// `n` successive moves in `direction`, starting from `current`.
pub open spec fn iterate_moves(
    current: int,
    direction: FocusDirection,
    n: nat,
    length: int,
    columns: int,
) -> int
    decreases n,
{
    if n == 0 {
        current
    } else {
        spec_next_index(
            iterate_moves(current, direction, (n - 1) as nat, length, columns),
            direction,
            length,
            columns,
        )
    }
}

/// Moving Right `n` times lands on `(current + n) mod length`.
proof fn lemma_iterate_right(current: int, n: nat, length: int, columns: int)
    requires
        2 <= length,
        1 <= columns,
        0 <= current < length,
    ensures
        iterate_moves(current, FocusDirection::Right, n, length, columns) == (current + n) % length,
    decreases n,
{
    if n == 0 {
        vstd::arithmetic::div_mod::lemma_small_mod(current as nat, length as nat);
    } else {
        lemma_iterate_right(current, (n - 1) as nat, length, columns);
        let prev = iterate_moves(current, FocusDirection::Right, (n - 1) as nat, length, columns);
        assert(prev == (current + n - 1) % length);
        vstd::arithmetic::div_mod::lemma_mod_bound(current + n - 1, length);
        vstd::arithmetic::div_mod::lemma_add_mod_noop(current + n - 1, 1, length);
        vstd::arithmetic::div_mod::lemma_small_mod(1nat, length as nat);
        assert((prev + 1) % length == (current + n) % length);
    }
}

/// Moving Left `n` times lands on `(current + n * (length - 1)) mod length`.
proof fn lemma_iterate_left(current: int, n: nat, length: int, columns: int)
    requires
        2 <= length,
        1 <= columns,
        0 <= current < length,
    ensures
        iterate_moves(current, FocusDirection::Left, n, length, columns) == (current + n * (length
            - 1)) % length,
    decreases n,
{
    if n == 0 {
        assert(n * (length - 1) == 0) by (nonlinear_arith)
            requires n == 0;
        vstd::arithmetic::div_mod::lemma_small_mod(current as nat, length as nat);
    } else {
        lemma_iterate_left(current, (n - 1) as nat, length, columns);
        let prev = iterate_moves(current, FocusDirection::Left, (n - 1) as nat, length, columns);
        assert(prev == (current + (n - 1) * (length - 1)) % length);
        vstd::arithmetic::div_mod::lemma_mod_bound(current + (n - 1) * (length - 1), length);
        vstd::arithmetic::div_mod::lemma_add_mod_noop(
            current + (n - 1) * (length - 1),
            length - 1,
            length,
        );
        vstd::arithmetic::div_mod::lemma_small_mod((length - 1) as nat, length as nat);
        assert((n - 1) * (length - 1) + (length - 1) == n * (length - 1)) by (nonlinear_arith);
        assert((prev + (length - 1)) % length == (current + n * (length - 1)) % length);
    }
}

/// Law: on any grid of at least one entry, moving Right `length` times
/// returns to the start index, and so does moving Left `length` times.
pub proof fn lemma_grid_round_trip(current: int, length: int, columns: int)
    requires
        1 <= length,
        1 <= columns,
        0 <= current < length,
    ensures
        iterate_moves(current, FocusDirection::Right, length as nat, length, columns) == current,
        iterate_moves(current, FocusDirection::Left, length as nat, length, columns) == current,
{
    if length == 1 {
        lemma_iterate_stay(current, FocusDirection::Right, length as nat, length, columns);
        lemma_iterate_stay(current, FocusDirection::Left, length as nat, length, columns);
    } else {
        lemma_iterate_right(current, length as nat, length, columns);
        vstd::arithmetic::div_mod::lemma_mod_add_multiples_vanish(current, length);
        vstd::arithmetic::div_mod::lemma_small_mod(current as nat, length as nat);
        lemma_iterate_left(current, length as nat, length, columns);
        assert(length * (length - 1) == (length - 1) * length) by (nonlinear_arith);
        vstd::arithmetic::div_mod::lemma_mod_multiples_vanish(length - 1, current, length);
        assert((current + length * (length - 1)) % length == current % length);
    }
}

/// Two registry contents with the same keys and, entry for entry, the same
/// rectangle and tree state; only the focus flags may differ.
pub open spec fn same_entries_except_focus(
    a: Seq<(Seq<char>, SniStateView)>,
    b: Seq<(Seq<char>, SniStateView)>,
) -> bool {
    &&& b.len() == a.len()
    &&& forall|i: int|
        0 <= i < a.len() ==> {
            &&& (#[trigger] b[i]).0 == a[i].0
            &&& b[i].1.rect == a[i].1.rect
            &&& b[i].1.tree_state == a[i].1.tree_state
        }
}

/// Exactly the entries whose key is the focused one carry the focus flag.
pub open spec fn flags_match(s: Seq<(Seq<char>, SniStateView)>, fk: Option<Seq<char>>) -> bool {
    forall|i: int| 0 <= i < s.len() ==> ((#[trigger] s[i]).1.focused <==> fk == Some(s[i].0))
}

/// Every entry's tree state is well-formed.
pub open spec fn trees_wf(s: Seq<(Seq<char>, SniStateView)>) -> bool {
    forall|i: int| 0 <= i < s.len() ==> (#[trigger] s[i]).1.tree_state.wf()
}

/// The id of the first entry whose last rendered rectangle contains `pos`.
/// The render layer draws entries side by side, so rectangles do not
/// overlap and at most one entry can match.
pub open spec fn first_hit(s: Seq<(Seq<char>, SniStateView)>, pos: Position) -> Option<Seq<char>>
    decreases s.len(),
{
    if s.len() == 0 {
        None
    } else if s[0].1.rect.spec_contains(pos) {
        Some(s[0].0)
    } else {
        first_hit(s.drop_first(), pos)
    }
}

/// What a recorded first hit means: the returned id belongs to an entry
/// whose rectangle contains the position; `None` means no rectangle does.
pub proof fn lemma_first_hit(s: Seq<(Seq<char>, SniStateView)>, pos: Position)
    ensures
        match first_hit(s, pos) {
            Some(k) => exists|i: int|
                0 <= i < s.len() && (#[trigger] s[i]).0 == k && s[i].1.rect.spec_contains(pos),
            None => forall|i: int|
                0 <= i < s.len() ==> !(#[trigger] s[i]).1.rect.spec_contains(pos),
        },
    decreases s.len(),
{
    if s.len() > 0 {
        lemma_first_hit(s.drop_first(), pos);
        let t = s.drop_first();
        assert(forall|i: int| 0 <= i < t.len() ==> t[i] == s[i + 1]);
        if s[0].1.rect.spec_contains(pos) {
            assert(first_hit(s, pos) == Some(s[0].0));
            assert((#[trigger] s[0]).0 == s[0].0 && s[0].1.rect.spec_contains(pos));
        } else {
            match first_hit(t, pos) {
                Some(k) => {
                    let w = choose|w: int|
                        0 <= w < t.len() && t[w].0 == k && t[w].1.rect.spec_contains(pos);
                    assert(s[w + 1].0 == k && s[w + 1].1.rect.spec_contains(pos));
                },
                None => {
                    assert forall|i: int|
                        0 <= i < s.len() implies !(#[trigger] s[i]).1.rect.spec_contains(pos) by {
                        if i > 0 {
                            assert(t[i - 1] == s[i]);
                        }
                    }
                },
            }
        }
    }
}

/// What a focus move does: on a grid of one entry or none, nothing; else
/// the focus goes to the entry at the next grid index, everything but the
/// focus flags untouched.
pub open spec fn focus_moved(pre: App, post: App, direction: FocusDirection) -> bool {
    if pre.reg().len() <= 1 {
        post == pre
    } else {
        match pre.focused_key_view() {
            Some(k0) => {
                let oi = seq_find_key(pre.reg(), k0);
                let ni = spec_next_index(
                    oi,
                    direction,
                    pre.reg().len() as int,
                    pre.spec_config().columns as int,
                );
                &&& same_entries_except_focus(pre.reg(), post.reg())
                &&& post.focused_key_view() == Some(pre.reg()[ni].0)
                &&& post.spec_running() == pre.spec_running()
                &&& post.spec_config() == pre.spec_config()
            },
            None => false,
        }
    }
}

/// What one activation trigger does. A missing focus or a stale path drops
/// the action: no request, no change. A resolved leaf yields exactly one
/// request (when the entry published a menu root path) and changes
/// nothing. A resolved inner node toggles its expansion and yields no
/// request: never both for one trigger.
pub open spec fn activated(
    pre: App,
    post: App,
    r: Option<ActivateRequest>,
    ids: Seq<i32>,
    menu: Seq<MenuNode>,
    menu_path: Option<Seq<char>>,
) -> bool {
    match pre.focused_key_view() {
        None => r is None && post == pre,
        Some(k0) => match spec_resolve(menu, ids) {
            None => r is None && post == pre,
            Some(node) => if node.submenu@.len() == 0 {
                &&& post == pre
                &&& match (r, menu_path) {
                    (Some(req), Some(mp)) => req.address@ == k0 && req.menu_path@ == mp
                        && req.submenu_id == node.id,
                    (None, None) => true,
                    _ => false,
                }
            } else {
                let idx = seq_find_key(pre.reg(), k0);
                let ot = pre.reg()[idx].1.tree_state;
                let nt = post.reg()[idx].1.tree_state;
                &&& r is None
                &&& entry_tree_updated(pre.reg(), post.reg(), idx, nt)
                &&& nt.opened_set() == (if ot.opened_set().contains(ids) {
                    ot.opened_set().remove(ids)
                } else {
                    ot.opened_set().insert(ids)
                })
                &&& nt.selected == ot.selected
                &&& nt.scroll_offset == ot.scroll_offset
                &&& nt.node_rects == ot.node_rects
                &&& post.focused_key_view() == pre.focused_key_view()
                &&& post.spec_running() == pre.spec_running()
                &&& post.spec_config() == pre.spec_config()
            },
        },
    }
}

/// What a tree selection move does: the focused entry's selection advances
/// to the adjacent visible node in depth-first order, wrapping at the
/// ends; `down` picks the next node, otherwise the previous one. Without a
/// focused entry nothing changes.
pub open spec fn tree_selection_moved(pre: App, post: App, menu: Seq<MenuNode>, down: bool) -> bool {
    match pre.focused_key_view() {
        None => post == pre,
        Some(k0) => {
            let idx = seq_find_key(pre.reg(), k0);
            let ot = pre.reg()[idx].1.tree_state;
            let nt = post.reg()[idx].1.tree_state;
            let vis = visible_from(menu, Seq::empty(), ot.opened_set());
            let j = path_index_of(vis, ot.selected);
            &&& entry_tree_updated(pre.reg(), post.reg(), idx, nt)
            &&& nt.opened == ot.opened
            &&& nt.scroll_offset == ot.scroll_offset
            &&& nt.node_rects == ot.node_rects
            &&& nt.selected == (if vis.len() == 0 {
                ot.selected
            } else if down {
                if j >= 0 {
                    if j + 1 < vis.len() {
                        vis[j + 1]
                    } else {
                        vis[0]
                    }
                } else {
                    vis[0]
                }
            } else {
                if j >= 0 {
                    if j > 0 {
                        vis[j - 1]
                    } else {
                        vis[vis.len() - 1]
                    }
                } else {
                    vis[vis.len() - 1]
                }
            })
            &&& post.focused_key_view() == pre.focused_key_view()
            &&& post.spec_running() == pre.spec_running()
            &&& post.spec_config() == pre.spec_config()
        },
    }
}

/// The application state: whether the loop should keep running, the
/// configuration, the ordered registry of entries, and the focused entry's
/// key. The focused index is always derived from the key, never stored.
pub struct App {
    running: bool,
    config: Config,
    sni_states: IndexMap<String, SniState>,
    focused_sni_key: Option<String>,
}

impl App {
    /// The ordered contents of the registry.
    pub closed spec fn reg(self) -> Seq<(Seq<char>, SniStateView)> {
        reg_seq(self.sni_states)
    }

    /// The focused entry's key, as characters.
    pub closed spec fn focused_key_view(self) -> Option<Seq<char>> {
        match self.focused_sni_key {
            Some(k) => Some(k@),
            None => None,
        }
    }

    pub closed spec fn spec_running(self) -> bool {
        self.running
    }

    pub closed spec fn spec_config(self) -> Config {
        self.config
    }

    /// The structural invariant: keys are unique, the column count is
    /// positive, the focused key is present exactly when the registry is
    /// not empty, the focus flags agree with the focused key, and every
    /// tree state is well-formed.
    pub open spec fn wf(self) -> bool {
        &&& keys_unique(self.reg())
        &&& 1 <= self.spec_config().columns
        &&& match self.focused_key_view() {
            Some(k) => has_key(self.reg(), k),
            None => self.reg().len() == 0,
        }
        &&& flags_match(self.reg(), self.focused_key_view())
        &&& trees_wf(self.reg())
    }

    /// A new application: running, with the given configuration, an empty
    /// registry and no focus.
    pub fn new(config: Config) -> (r: App)
        requires
            1 <= config.columns,
        ensures
            r.wf(),
            r.reg().len() == 0,
            r.spec_running(),
            r.focused_key_view() is None,
            r.spec_config() == config,
    {
        App { running: true, config, sni_states: reg_new(), focused_sni_key: None }
    }

    pub fn running(&self) -> (r: bool)
        ensures
            r == self.spec_running(),
    {
        self.running
    }

    /// Stop the application loop.
    pub fn quit(&mut self)
        ensures
            !final(self).spec_running(),
            final(self).spec_config() == old(self).spec_config(),
            final(self).reg() == old(self).reg(),
            final(self).focused_key_view() == old(self).focused_key_view(),
            old(self).wf() ==> final(self).wf(),
    {
        self.running = false;
    }

    pub fn config(&self) -> (r: &Config)
        ensures
            *r == self.spec_config(),
    {
        &self.config
    }

    /// How many entries the registry holds.
    pub fn entry_count(&self) -> (r: usize)
        ensures
            r == self.reg().len(),
    {
        reg_len(&self.sni_states)
    }

    /// The key of the entry at a grid position, if the position is in range.
    pub fn key_at(&self, i: usize) -> (r: Option<&String>)
        ensures
            match r {
                Some(k) => i < self.reg().len() && k@ == self.reg()[i as int].0,
                None => i >= self.reg().len(),
            },
    {
        reg_key_at(&self.sni_states, i)
    }

    /// The state of the entry at a grid position, if the position is in
    /// range.
    pub fn state_at(&self, i: usize) -> (r: Option<&SniState>)
        ensures
            match r {
                Some(s) => i < self.reg().len() && s@ == self.reg()[i as int].1,
                None => i >= self.reg().len(),
            },
    {
        reg_val_at(&self.sni_states, i)
    }

    /// The focused entry's key, or `None` when the registry is empty.
    pub fn get_focused_sni_key(&self) -> (r: Option<&String>)
        ensures
            match (r, self.focused_key_view()) {
                (Some(a), Some(b)) => a@ == b,
                (None, None) => true,
                _ => false,
            },
    {
        self.focused_sni_key.as_ref()
    }

    /// The focused entry's grid index, derived from its key's position in
    /// the registry; `None` when the registry is empty.
    pub fn get_focused_sni_index(&self) -> (r: Option<usize>)
        requires
            self.wf(),
        ensures
            match (self.focused_key_view(), r) {
                (Some(k), Some(i)) => i as int == seq_find_key(self.reg(), k) && i
                    < self.reg().len(),
                (None, None) => true,
                _ => false,
            },
    {
        match &self.focused_sni_key {
            Some(k) => {
                let r = reg_index_of(&self.sni_states, k);
                proof {
                    lemma_seq_find_key(self.reg(), k@);
                    match r {
                        Some(i) => {
                            let f = seq_find_key(self.reg(), k@);
                            assert(self.reg()[f].0 == k@);
                            assert(keys_unique(self.reg()));
                            if f < i as int {
                                assert(self.reg()[f].0 != self.reg()[i as int].0);
                            } else if (i as int) < f {
                                assert(false);
                            }
                        },
                        None => {
                            assert(!has_key(self.reg(), k@));
                            assert(false);
                        },
                    }
                }
                r
            },
            None => None,
        }
    }

    /// The focused entry's state, or `None` when the registry is empty.
    pub fn get_focused_sni_state(&self) -> (r: Option<&SniState>)
        requires
            self.wf(),
        ensures
            match (self.focused_key_view(), r) {
                (Some(k), Some(s)) => s@ == self.reg()[seq_find_key(self.reg(), k)].1,
                (None, None) => true,
                _ => false,
            },
    {
        match self.get_focused_sni_index() {
            Some(i) => {
                let r = reg_val_at(&self.sni_states, i);
                proof {
                    assert(r is Some);
                }
                r
            },
            None => None,
        }
    }

    /// Point the focus at the entry at `new_idx`: record its key and rewrite
    /// every entry's focus flag. Keys, rectangles and tree states stay.
    fn refocus_at(&mut self, new_idx: usize)
        requires
            new_idx < old(self).reg().len(),
        ensures
            final(self).spec_running() == old(self).spec_running(),
            final(self).spec_config() == old(self).spec_config(),
            same_entries_except_focus(old(self).reg(), final(self).reg()),
            final(self).focused_key_view() == Some(old(self).reg()[new_idx as int].0),
            forall|j: int|
                0 <= j < final(self).reg().len() ==> ((#[trigger] final(self).reg()[j]).1.focused
                    <==> j == new_idx),
    {
        let ghost s0 = self.reg();
        let k = match reg_key_at(&self.sni_states, new_idx) {
            Some(k) => k.clone(),
            None => {
                proof {
                    assert(false);
                }
                unreached()
            },
        };
        self.focused_sni_key = Some(k);
        let n = reg_len(&self.sni_states);
        for i in 0..n
            invariant
                n == s0.len(),
                self.reg().len() == s0.len(),
                self.spec_running() == old(self).spec_running(),
                self.spec_config() == old(self).spec_config(),
                self.focused_key_view() == Some(s0[new_idx as int].0),
                new_idx < s0.len(),
                forall|j: int|
                    0 <= j < s0.len() ==> {
                        &&& (#[trigger] self.reg()[j]).0 == s0[j].0
                        &&& self.reg()[j].1.rect == s0[j].1.rect
                        &&& self.reg()[j].1.tree_state == s0[j].1.tree_state
                    },
                forall|j: int|
                    0 <= j < i ==> ((#[trigger] self.reg()[j]).1.focused <==> j == new_idx),
                forall|j: int| i <= j < s0.len() ==> (#[trigger] self.reg()[j]).1 == s0[j].1,
        {
            let mut tmp = SniState::new();
            reg_swap_val_at(&mut self.sni_states, i, &mut tmp);
            tmp.set_focused(i == new_idx);
            reg_swap_val_at(&mut self.sni_states, i, &mut tmp);
        }
    }

    /// Move the focus to the entry whose key this is. When the registry does
    /// not hold the key, nothing changes: a vanished id is no error.
    pub fn set_focus(&mut self, key: &String)
        requires
            old(self).wf(),
        ensures
            final(self).wf(),
            final(self).spec_running() == old(self).spec_running(),
            final(self).spec_config() == old(self).spec_config(),
            if has_key(old(self).reg(), key@) {
                &&& same_entries_except_focus(old(self).reg(), final(self).reg())
                &&& final(self).focused_key_view() == Some(key@)
            } else {
                *final(self) == *old(self)
            },
    {
        match reg_index_of(&self.sni_states, key) {
            Some(i) => {
                proof {
                    assert(has_key(self.reg(), key@));
                }
                self.refocus_at(i);
                proof {
                    lemma_refocus_wf(*old(self), *self, i as int);
                    assert(self.reg()[i as int].0 == key@);
                }
            },
            None => {
                proof {
                    lemma_seq_find_key(self.reg(), key@);
                }
            },
        }
    }

    /// Move the focus one step on the grid. On a registry of one entry or
    /// none, nothing changes.
    pub fn move_focus(&mut self, direction: FocusDirection)
        requires
            old(self).wf(),
        ensures
            final(self).wf(),
            final(self).spec_running() == old(self).spec_running(),
            final(self).spec_config() == old(self).spec_config(),
            old(self).reg().len() <= 1 ==> *final(self) == *old(self),
            old(self).reg().len() > 1 ==> match old(self).focused_key_view() {
                Some(k0) => {
                    let oi = seq_find_key(old(self).reg(), k0);
                    let ni = spec_next_index(
                        oi,
                        direction,
                        old(self).reg().len() as int,
                        old(self).spec_config().columns as int,
                    );
                    &&& same_entries_except_focus(old(self).reg(), final(self).reg())
                    &&& final(self).focused_key_view() == Some(old(self).reg()[ni].0)
                },
                None => false,
            },
    {
        let len = reg_len(&self.sni_states);
        if len <= 1 {
            return ;
        }
        let idx = match self.get_focused_sni_index() {
            Some(i) => i,
            None => {
                proof {
                    assert(false);
                }
                unreached()
            },
        };
        let ni = next_index(idx, direction, len, self.config.columns);
        self.refocus_at(ni);
        proof {
            lemma_refocus_wf(*old(self), *self, ni as int);
        }
    }

    /// The id of the entry drawn at `pos` in the last frame, if any.
    pub fn get_focused_sni_key_by_position(&self, pos: Position) -> (r: Option<String>)
        ensures
            r.deep_view() == first_hit(self.reg(), pos),
    {
        let ghost s = self.reg();
        let n = reg_len(&self.sni_states);
        proof {
            assert(s.skip(0) =~= s);
        }
        for i in 0..n
            invariant
                n == s.len(),
                s == self.reg(),
                first_hit(s, pos) == first_hit(s.skip(i as int), pos),
        {
            proof {
                assert(s.skip(i as int).len() > 0);
                assert(s.skip(i as int)[0] == s[i as int]);
                assert(s.skip(i as int).drop_first() =~= s.skip(i + 1));
            }
            let v = match reg_val_at(&self.sni_states, i) {
                Some(v) => v,
                None => {
                    proof {
                        assert(false);
                    }
                    unreached()
                },
            };
            if v.rect.contains(pos) {
                let k = match reg_key_at(&self.sni_states, i) {
                    Some(k) => k.clone(),
                    None => {
                        proof {
                            assert(false);
                        }
                        unreached()
                    },
                };
                return Some(k);
            }
        }
        proof {
            assert(s.skip(n as int).len() == 0);
        }
        None
    }

    /// Record this frame's entry rectangles: the entry at grid position `i`
    /// was drawn inside `rects[i]`. Everything else stays.
    pub fn set_rects(&mut self, rects: &Vec<Rect>)
        requires
            old(self).wf(),
        ensures
            final(self).wf(),
            final(self).spec_running() == old(self).spec_running(),
            final(self).spec_config() == old(self).spec_config(),
            final(self).focused_key_view() == old(self).focused_key_view(),
            final(self).reg().len() == old(self).reg().len(),
            forall|i: int|
                0 <= i < old(self).reg().len() ==> (#[trigger] final(self).reg()[i]) == (
                if i < rects@.len() {
                    (
                        old(self).reg()[i].0,
                        SniStateView { rect: rects@[i], ..old(self).reg()[i].1 },
                    )
                } else {
                    old(self).reg()[i]
                }),
    {
        let ghost s0 = self.reg();
        let n = reg_len(&self.sni_states);
        let m = if rects.len() < n {
            rects.len()
        } else {
            n
        };
        for i in 0..m
            invariant
                n == s0.len(),
                m <= n,
                m <= rects@.len(),
                self.reg().len() == s0.len(),
                self.spec_running() == old(self).spec_running(),
                self.spec_config() == old(self).spec_config(),
                self.focused_key_view() == old(self).focused_key_view(),
                forall|j: int|
                    0 <= j < i ==> (#[trigger] self.reg()[j]) == (
                    s0[j].0,
                    SniStateView { rect: rects@[j], ..s0[j].1 },
                    ),
                forall|j: int| i <= j < s0.len() ==> (#[trigger] self.reg()[j]) == s0[j],
        {
            let mut tmp = SniState::new();
            reg_swap_val_at(&mut self.sni_states, i, &mut tmp);
            tmp.set_rect(rects[i]);
            reg_swap_val_at(&mut self.sni_states, i, &mut tmp);
        }
        proof {
            assert(flags_match(self.reg(), self.focused_key_view()));
            assert(trees_wf(self.reg()));
            assert(keys_unique(self.reg()));
            match self.focused_key_view() {
                Some(k) => {
                    let w = choose|w: int| 0 <= w < s0.len() && s0[w].0 == k;
                    assert(self.reg()[w].0 == k);
                },
                None => {},
            }
        }
    }
}

/// After `refocus_at` on a well-formed application, the invariant holds
/// again: refocusing only rewrites the focus flags to point at one index.
proof fn lemma_refocus_wf(pre: App, post: App, new_idx: int)
    requires
        keys_unique(pre.reg()),
        trees_wf(pre.reg()),
        1 <= pre.spec_config().columns,
        0 <= new_idx < pre.reg().len(),
        post.spec_config() == pre.spec_config(),
        same_entries_except_focus(pre.reg(), post.reg()),
        post.focused_key_view() == Some(pre.reg()[new_idx].0),
        forall|j: int|
            0 <= j < post.reg().len() ==> ((#[trigger] post.reg()[j]).1.focused <==> j == new_idx),
    ensures
        post.wf(),
{
    assert(keys_unique(post.reg()));
    assert(post.reg()[new_idx].0 == pre.reg()[new_idx].0);
    assert(has_key(post.reg(), post.reg()[new_idx].0));
    assert forall|i: int| 0 <= i < post.reg().len() implies ((#[trigger] post.reg()[i]).1.focused
        <==> post.focused_key_view() == Some(post.reg()[i].0)) by {
        if i != new_idx {
            assert(pre.reg()[i].0 != pre.reg()[new_idx].0);
        }
    }
    assert(trees_wf(post.reg()));
}

/// On a grid of at most one entry every move stays put.
proof fn lemma_iterate_stay(
    current: int,
    direction: FocusDirection,
    n: nat,
    length: int,
    columns: int,
)
    requires
        length <= 1,
    ensures
        iterate_moves(current, direction, n, length, columns) == current,
    decreases n,
{
    if n > 0 {
        lemma_iterate_stay(current, direction, (n - 1) as nat, length, columns);
    }
}

/// Whether every registered id is still live.
fn all_reg_keys_in_live(m: &IndexMap<String, SniState>, live: &Vec<(String, String)>) -> (r: bool)
    ensures
        r == (forall|i: int|
            0 <= i < reg_seq(*m).len() ==> live_has_key(
                live.deep_view(),
                (#[trigger] reg_seq(*m)[i]).0,
            )),
{
    let ghost s = reg_seq(*m);
    let n = reg_len(m);
    for i in 0..n
        invariant
            n == s.len(),
            s == reg_seq(*m),
            forall|j: int| 0 <= j < i ==> live_has_key(live.deep_view(), (#[trigger] s[j]).0),
    {
        let k = match reg_key_at(m, i) {
            Some(k) => k,
            None => {
                proof {
                    assert(false);
                }
                unreached()
            },
        };
        match live_find(live, k) {
            Some(_) => {
                proof {
                    lemma_live_find_key(live.deep_view(), k@);
                }
            },
            None => {
                proof {
                    lemma_live_find_key(live.deep_view(), k@);
                    assert(!live_has_key(live.deep_view(), s[i as int].0));
                }
                return false;
            },
        }
    }
    true
}

/// Whether every live id is already registered.
fn all_live_keys_in_reg(m: &IndexMap<String, SniState>, live: &Vec<(String, String)>) -> (r: bool)
    ensures
        r == (forall|i: int|
            0 <= i < live.deep_view().len() ==> has_key(
                reg_seq(*m),
                (#[trigger] live.deep_view()[i]).0,
            )),
{
    let ghost lv = live.deep_view();
    proof {
        crate::reconcile::lemma_live_deep_view(*live);
    }
    let n = live.len();
    for i in 0..n
        invariant
            n == lv.len(),
            lv == live.deep_view(),
            forall|j: int| 0 <= j < lv.len() ==> #[trigger] lv[j] == (live@[j].0@, live@[j].1@),
            forall|j: int| 0 <= j < i ==> has_key(reg_seq(*m), (#[trigger] lv[j]).0),
    {
        match reg_index_of(m, &live[i].0) {
            Some(_) => {
                proof {
                    assert(has_key(reg_seq(*m), lv[i as int].0));
                }
            },
            None => {
                proof {
                    if has_key(reg_seq(*m), lv[i as int].0) {
                        let w = choose|w: int|
                            0 <= w < reg_seq(*m).len() && reg_seq(*m)[w].0 == lv[i as int].0;
                        assert(false);
                    }
                }
                return false;
            },
        }
    }
    true
}

impl App {
    /// Reconcile the registry with the live snapshot: keep every entry whose
    /// id is still live (its rectangle and tree state untouched), drop the
    /// rest, append a fresh entry per new id, reorder by display order when
    /// sorting is enabled, and repair the focus. When the live id set
    /// already equals the registry's, nothing is touched. If the focused id
    /// vanished, focus falls to the entry now at the old focus index, or the
    /// first entry, or nothing when the registry became empty.
    pub fn update(&mut self, live: &Vec<(String, String)>)
        requires
            old(self).wf(),
            live_keys_unique(live.deep_view()),
        ensures
            final(self).wf(),
            final(self).spec_running() == old(self).spec_running(),
            final(self).spec_config() == old(self).spec_config(),
            reconcile_rel(
                old(self).reg(),
                live.deep_view(),
                old(self).spec_config().sorting,
                final(self).reg(),
            ),
            forall|k: Seq<char>| #[trigger]
                has_key(final(self).reg(), k) <==> live_has_key(live.deep_view(), k),
            final(self).reg().len() == 0 ==> final(self).focused_key_view() is None,
            final(self).reg().len() > 0 ==> match old(self).focused_key_view() {
                Some(k0) => if live_has_key(live.deep_view(), k0) {
                    final(self).focused_key_view() == Some(k0)
                } else {
                    {
                        let oi = seq_find_key(old(self).reg(), k0);
                        let ti: int = if 0 <= oi < final(self).reg().len() {
                            oi
                        } else {
                            0
                        };
                        final(self).focused_key_view() == Some(final(self).reg()[ti].0)
                    }
                },
                None => final(self).focused_key_view() == Some(final(self).reg()[0].0),
            },
    {
        let ghost lv = live.deep_view();
        let ghost oldreg = self.reg();
        let ghost sorting = self.spec_config().sorting;
        let in_live = all_reg_keys_in_live(&self.sni_states, live);
        let in_reg = all_live_keys_in_reg(&self.sni_states, live);
        if in_live && in_reg {
            proof {
                assert(same_key_set(oldreg, lv));
                lemma_rel_key_set(oldreg, lv, sorting, oldreg);
                match old(self).focused_key_view() {
                    Some(k0) => {
                        assert(has_key(oldreg, k0));
                        let w = choose|w: int| 0 <= w < oldreg.len() && oldreg[w].0 == k0;
                        assert(live_has_key(lv, oldreg[w].0));
                    },
                    None => {},
                }
            }
            return ;
        }
        proof {
            if !in_live {
                let w = choose|w: int|
                    0 <= w < oldreg.len() && !live_has_key(lv, (#[trigger] oldreg[w]).0);
                assert(!same_key_set(oldreg, lv));
            } else {
                let w = choose|w: int|
                    0 <= w < lv.len() && !has_key(oldreg, (#[trigger] lv[w]).0);
                assert(!same_key_set(oldreg, lv));
            }
        }
        let old_idx = match self.get_focused_sni_index() {
            Some(i) => i,
            None => 0,
        };

        // Collect the survivors, consuming a copy of the registry contents.
        let mut entries = reg_entries(&self.sni_states);
        let mut new_entries: Vec<(String, SniState)> = Vec::new();
        proof {
            assert(entries_view(new_entries@) =~= Seq::<(Seq<char>, SniStateView)>::empty());
            assert(entries_view(new_entries@) + survivors(entries_view(entries@), lv) =~= survivors(
                oldreg,
                lv,
            ));
        }
        while entries.len() > 0
            invariant
                lv == live.deep_view(),
                oldreg == self.reg(),
                entries_view(new_entries@) + survivors(entries_view(entries@), lv) == survivors(
                    oldreg,
                    lv,
                ),
                forall|i: int|
                    0 <= i < new_entries@.len() ==> live_has_key(
                        lv,
                        (#[trigger] new_entries@[i]).0@,
                    ),
            decreases entries.len(),
        {
            let ghost pre = entries_view(entries@);
            let ghost acc = entries_view(new_entries@);
            let e = entries.remove(0);
            proof {
                assert(entries_view(entries@) =~= pre.drop_first());
                assert(pre[0] == (e.0@, e.1@));
                lemma_live_find_key(lv, e.0@);
            }
            match live_find(live, &e.0) {
                Some(_) => {
                    proof {
                        assert(live_has_key(lv, e.0@));
                        assert(survivors(pre, lv) == seq![pre[0]] + survivors(
                            pre.drop_first(),
                            lv,
                        ));
                    }
                    new_entries.push(e);
                    proof {
                        assert(entries_view(new_entries@) =~= acc.push((
                            new_entries@.last().0@,
                            new_entries@.last().1@,
                        )));
                        assert(entries_view(new_entries@) + survivors(entries_view(entries@), lv)
                            =~= acc + survivors(pre, lv));
                    }
                },
                None => {
                    proof {
                        assert(!live_has_key(lv, e.0@));
                        assert(survivors(pre, lv) == survivors(pre.drop_first(), lv));
                    }
                },
            }
        }
        proof {
            assert(entries_view(entries@) =~= Seq::<(Seq<char>, SniStateView)>::empty());
            assert(survivors(Seq::<(Seq<char>, SniStateView)>::empty(), lv)
                == Seq::<(Seq<char>, SniStateView)>::empty());
            assert(entries_view(new_entries@) =~= survivors(oldreg, lv));
        }

        // Append one fresh entry per live id that is not yet registered.
        proof {
            crate::reconcile::lemma_live_deep_view(*live);
            assert(lv.skip(0) =~= lv);
        }
        let n = live.len();
        for i in 0..n
            invariant
                lv == live.deep_view(),
                n == lv.len(),
                oldreg == self.reg(),
                forall|j: int| 0 <= j < lv.len() ==> #[trigger] lv[j] == (live@[j].0@, live@[j].1@),
                entries_view(new_entries@) + additions(oldreg, lv.skip(i as int)) == survivors(
                    oldreg,
                    lv,
                ) + additions(oldreg, lv),
                forall|j: int|
                    0 <= j < new_entries@.len() ==> live_has_key(
                        lv,
                        (#[trigger] new_entries@[j]).0@,
                    ),
        {
            let ghost acc = entries_view(new_entries@);
            let ghost rest = lv.skip(i as int);
            proof {
                assert(rest[0] == lv[i as int]);
                assert(rest.drop_first() =~= lv.skip(i + 1));
            }
            match reg_index_of(&self.sni_states, &live[i].0) {
                Some(_) => {
                    proof {
                        assert(has_key(oldreg, lv[i as int].0));
                        assert(additions(oldreg, rest) == additions(oldreg, rest.drop_first()));
                    }
                },
                None => {
                    proof {
                        assert(!has_key(oldreg, lv[i as int].0));
                        assert(additions(oldreg, rest) == seq![
                            (lv[i as int].0, SniStateView::fresh()),
                        ] + additions(oldreg, rest.drop_first()));
                    }
                    let fresh = SniState::new();
                    new_entries.push((live[i].0.clone(), fresh));
                    proof {
                        assert(new_entries@.last().0@ == lv[i as int].0);
                        assert(new_entries@.last().1@ == SniStateView::fresh());
                        assert(entries_view(new_entries@) =~= acc.push((
                            lv[i as int].0,
                            SniStateView::fresh(),
                        )));
                        assert(entries_view(new_entries@) + additions(oldreg, lv.skip(i + 1)) =~= acc
                            + additions(oldreg, rest));
                        assert(live_has_key(lv, lv[i as int].0));
                    }
                },
            }
        }
        proof {
            assert(lv.skip(n as int).len() == 0);
            assert(additions(oldreg, lv.skip(n as int)) == Seq::<
                (Seq<char>, SniStateView),
            >::empty());
            assert(entries_view(new_entries@) =~= reconcile_base(oldreg, lv));
            lemma_base_props(oldreg, lv);
        }

        // Reorder into display order when sorting is enabled.
        if self.config.sorting {
            new_entries = sort_entries(live, new_entries);
        }
        let ghost newv = entries_view(new_entries@);
        proof {
            if sorting {
                crate::reconcile::lemma_strip_index(reconcile_base(oldreg, lv));
            } else {
                assert(newv == reconcile_base(oldreg, lv));
            }
            assert(reconcile_rel(oldreg, lv, sorting, newv));
            lemma_rel_key_set(oldreg, lv, sorting, newv);
        }

        // Rebuild the registry in the new order.
        reg_clear(&mut self.sni_states);
        let ghost total = newv.len() as int;
        proof {
            assert(reg_seq(self.sni_states) =~= newv.take(0));
        }
        while new_entries.len() > 0
            invariant
                keys_unique(newv),
                reg_seq(self.sni_states) == newv.take(total - new_entries@.len()),
                entries_view(new_entries@) == newv.skip(total - new_entries@.len()),
                total == newv.len(),
                new_entries@.len() <= total,
                self.spec_running() == old(self).spec_running(),
                self.spec_config() == old(self).spec_config(),
                self.focused_sni_key == old(self).focused_sni_key,
            decreases new_entries.len(),
        {
            let ghost done = total - new_entries@.len();
            let ghost pre = reg_seq(self.sni_states);
            let e = new_entries.remove(0);
            proof {
                assert(entries_view(new_entries@) =~= newv.skip(done).drop_first());
                assert(newv.skip(done).drop_first() =~= newv.skip(done + 1));
                assert(newv.skip(done)[0] == newv[done]);
                assert((e.0@, e.1@) == newv[done]);
                lemma_seq_find_key(pre, e.0@);
                if has_key(pre, e.0@) {
                    let w = choose|w: int| 0 <= w < pre.len() && pre[w].0 == e.0@;
                    assert(newv.take(done)[w] == newv[w]);
                    assert(newv[w].0 == newv[done].0);
                    assert(false);
                }
                assert(seq_find_key(pre, e.0@) == -1);
            }
            reg_insert(&mut self.sni_states, e.0, e.1);
            proof {
                assert(reg_seq(self.sni_states) =~= newv.take(done + 1));
            }
        }
        proof {
            assert(entries_view(new_entries@).len() == 0);
            assert(reg_seq(self.sni_states) =~= newv);
            assert(self.reg() == newv);
        }

        // Repair the focus.
        let new_len = reg_len(&self.sni_states);
        if new_len == 0 {
            self.focused_sni_key = None;
            proof {
                lemma_rel_trees_wf(oldreg, lv, sorting, newv);
                assert(final(self).wf());
            }
            return ;
        }
        let target: usize = match &self.focused_sni_key {
            Some(k) => {
                match reg_index_of(&self.sni_states, k) {
                    Some(i) => i,
                    None => {
                        if old_idx < new_len {
                            old_idx
                        } else {
                            0
                        }
                    },
                }
            },
            None => {
                if old_idx < new_len {
                    old_idx
                } else {
                    0
                }
            },
        };
        let ghost mid = *self;
        self.refocus_at(target);
        proof {
            lemma_rel_trees_wf(oldreg, lv, sorting, newv);
            lemma_refocus_wf(mid, *self, target as int);
            assert(strip(self.reg()) =~= strip(newv));
            assert(reconcile_rel(oldreg, lv, sorting, self.reg()));
            assert forall|k: Seq<char>| #[trigger]
                has_key(self.reg(), k) <==> live_has_key(lv, k) by {
                if has_key(self.reg(), k) {
                    let w = choose|w: int| 0 <= w < self.reg().len() && self.reg()[w].0 == k;
                    assert(newv[w].0 == k);
                    assert(has_key(newv, k));
                }
                if live_has_key(lv, k) {
                    assert(has_key(newv, k));
                    let w = choose|w: int| 0 <= w < newv.len() && newv[w].0 == k;
                    assert(self.reg()[w].0 == k);
                }
            }
            match old(self).focused_key_view() {
                Some(k0) => {
                    if live_has_key(lv, k0) {
                        assert(has_key(newv, k0));
                        let w = choose|w: int| 0 <= w < newv.len() && newv[w].0 == k0;
                        assert(target as int == seq_find_key(newv, k0)) by {
                            lemma_seq_find_key(newv, k0);
                        }
                        assert(newv[target as int].0 == k0) by {
                            lemma_seq_find_key(newv, k0);
                        }
                    } else {
                        assert(!has_key(newv, k0));
                        lemma_seq_find_key(newv, k0);
                    }
                },
                None => {
                    assert(oldreg.len() == 0);
                    assert(old_idx == 0);
                },
            }
        }
    }
}

/// One external "activate leaf" request: the focused entry's address, its
/// menu root path, and the id of the activated node. The embedding program
/// fires it, followed by one "about to show" notification with submenu id
/// zero; both are fire-and-forget.
pub struct ActivateRequest {
    pub address: String,
    pub menu_path: String,
    pub submenu_id: i32,
}

/// The registry contents changed in exactly one entry's tree state: entry
/// `idx` keeps its key, rectangle and focus flag and carries tree state
/// `nt`; every other entry is untouched.
pub open spec fn entry_tree_updated(
    old_s: Seq<(Seq<char>, SniStateView)>,
    new_s: Seq<(Seq<char>, SniStateView)>,
    idx: int,
    nt: TreeStateView,
) -> bool {
    &&& 0 <= idx < old_s.len()
    &&& new_s.len() == old_s.len()
    &&& forall|i: int| 0 <= i < old_s.len() && i != idx ==> #[trigger] new_s[i] == old_s[i]
    &&& new_s[idx].0 == old_s[idx].0
    &&& new_s[idx].1.rect == old_s[idx].1.rect
    &&& new_s[idx].1.focused == old_s[idx].1.focused
    &&& new_s[idx].1.tree_state == nt
}

impl App {
    /// The well-formedness of the application survives a change to one
    /// entry's tree state, provided the new tree state is well-formed.
    proof fn lemma_tree_update_wf(pre: App, post: App, idx: int, nt: TreeStateView)
        requires
            pre.wf(),
            entry_tree_updated(pre.reg(), post.reg(), idx, nt),
            nt.wf(),
            post.focused_key_view() == pre.focused_key_view(),
            post.spec_config() == pre.spec_config(),
        ensures
            post.wf(),
    {
        assert forall|i: int, j: int| 0 <= i < j < post.reg().len() implies (
        #[trigger] post.reg()[i]).0 != (#[trigger] post.reg()[j]).0 by {
            assert(post.reg()[i].0 == pre.reg()[i].0);
            assert(post.reg()[j].0 == pre.reg()[j].0);
        }
        match post.focused_key_view() {
            Some(k) => {
                let w = choose|w: int| 0 <= w < pre.reg().len() && pre.reg()[w].0 == k;
                assert(post.reg()[w].0 == k);
            },
            None => {},
        }
        assert forall|i: int| 0 <= i < post.reg().len() implies ((
        #[trigger] post.reg()[i]).1.focused <==> post.focused_key_view() == Some(
            post.reg()[i].0,
        )) by {
            assert(post.reg()[i].0 == pre.reg()[i].0);
            assert(post.reg()[i].1.focused == pre.reg()[i].1.focused);
        }
        assert forall|i: int| 0 <= i < post.reg().len() implies (
        #[trigger] post.reg()[i]).1.tree_state.wf() by {
            if i != idx {
                assert(post.reg()[i] == pre.reg()[i]);
            }
        }
    }

    /// The focused entry's tree state, read-only.
    pub fn get_focused_tree_state(&self) -> (r: Option<&TreeState>)
        requires
            self.wf(),
        ensures
            match (self.focused_key_view(), r) {
                (Some(k), Some(t)) => t@ == self.reg()[seq_find_key(self.reg(), k)].1.tree_state,
                (None, None) => true,
                _ => false,
            },
    {
        match self.get_focused_sni_state() {
            Some(s) => Some(&s.tree_state),
            None => None,
        }
    }

    /// Flip the expansion of the node at `path` in the focused entry's
    /// menu. Without a focused entry nothing changes.
    pub fn focused_tree_toggle(&mut self, path: &Vec<i32>)
        requires
            old(self).wf(),
        ensures
            final(self).wf(),
            final(self).spec_running() == old(self).spec_running(),
            final(self).spec_config() == old(self).spec_config(),
            final(self).focused_key_view() == old(self).focused_key_view(),
            match old(self).focused_key_view() {
                None => *final(self) == *old(self),
                Some(k0) => {
                    let idx = seq_find_key(old(self).reg(), k0);
                    let ot = old(self).reg()[idx].1.tree_state;
                    let nt = final(self).reg()[idx].1.tree_state;
                    &&& entry_tree_updated(old(self).reg(), final(self).reg(), idx, nt)
                    &&& nt.opened_set() == (if ot.opened_set().contains(path@) {
                        ot.opened_set().remove(path@)
                    } else {
                        ot.opened_set().insert(path@)
                    })
                    &&& nt.selected == ot.selected
                    &&& nt.scroll_offset == ot.scroll_offset
                    &&& nt.node_rects == ot.node_rects
                },
            },
    {
        let idx = match self.get_focused_sni_index() {
            Some(i) => i,
            None => {
                return ;
            },
        };
        let mut tmp = SniState::new();
        reg_swap_val_at(&mut self.sni_states, idx, &mut tmp);
        tmp.tree_state.toggle(path);
        reg_swap_val_at(&mut self.sni_states, idx, &mut tmp);
        proof {
            let s0 = old(self).reg();
            assert(self.reg() =~= s0.update(idx as int, (s0[idx as int].0, tmp@)).update(
                idx as int,
                (s0[idx as int].0, self.reg()[idx as int].1),
            ));
            Self::lemma_tree_update_wf(
                *old(self),
                *self,
                idx as int,
                self.reg()[idx as int].1.tree_state,
            );
        }
    }

    /// Set the selection of the focused entry's menu directly; pointer
    /// input uses this. Without a focused entry nothing changes.
    pub fn focused_tree_select(&mut self, path: Vec<i32>)
        requires
            old(self).wf(),
        ensures
            final(self).wf(),
            final(self).spec_running() == old(self).spec_running(),
            final(self).spec_config() == old(self).spec_config(),
            final(self).focused_key_view() == old(self).focused_key_view(),
            match old(self).focused_key_view() {
                None => *final(self) == *old(self),
                Some(k0) => {
                    let idx = seq_find_key(old(self).reg(), k0);
                    let ot = old(self).reg()[idx].1.tree_state;
                    let nt = final(self).reg()[idx].1.tree_state;
                    &&& entry_tree_updated(old(self).reg(), final(self).reg(), idx, nt)
                    &&& nt == (TreeStateView { selected: path@, ..ot })
                },
            },
    {
        let idx = match self.get_focused_sni_index() {
            Some(i) => i,
            None => {
                return ;
            },
        };
        let mut tmp = SniState::new();
        reg_swap_val_at(&mut self.sni_states, idx, &mut tmp);
        tmp.tree_state.select(path);
        reg_swap_val_at(&mut self.sni_states, idx, &mut tmp);
        proof {
            Self::lemma_tree_update_wf(
                *old(self),
                *self,
                idx as int,
                self.reg()[idx as int].1.tree_state,
            );
        }
    }

    /// Advance the focused entry's menu selection to the next visible node,
    /// wrapping at the bottom. Without a focused entry nothing changes.
    pub fn focused_tree_move_down(&mut self, menu: &Vec<MenuNode>)
        requires
            old(self).wf(),
        ensures
            final(self).wf(),
            final(self).spec_running() == old(self).spec_running(),
            final(self).spec_config() == old(self).spec_config(),
            final(self).focused_key_view() == old(self).focused_key_view(),
            match old(self).focused_key_view() {
                None => *final(self) == *old(self),
                Some(k0) => {
                    let idx = seq_find_key(old(self).reg(), k0);
                    let ot = old(self).reg()[idx].1.tree_state;
                    let nt = final(self).reg()[idx].1.tree_state;
                    let vis = visible_from(menu@, Seq::empty(), ot.opened_set());
                    let j = path_index_of(vis, ot.selected);
                    &&& entry_tree_updated(old(self).reg(), final(self).reg(), idx, nt)
                    &&& nt.opened == ot.opened
                    &&& nt.scroll_offset == ot.scroll_offset
                    &&& nt.node_rects == ot.node_rects
                    &&& nt.selected == (if vis.len() == 0 {
                        ot.selected
                    } else if j >= 0 {
                        if j + 1 < vis.len() {
                            vis[j + 1]
                        } else {
                            vis[0]
                        }
                    } else {
                        vis[0]
                    })
                },
            },
    {
        let idx = match self.get_focused_sni_index() {
            Some(i) => i,
            None => {
                return ;
            },
        };
        let mut tmp = SniState::new();
        reg_swap_val_at(&mut self.sni_states, idx, &mut tmp);
        tmp.tree_state.move_down(menu);
        reg_swap_val_at(&mut self.sni_states, idx, &mut tmp);
        proof {
            Self::lemma_tree_update_wf(
                *old(self),
                *self,
                idx as int,
                self.reg()[idx as int].1.tree_state,
            );
        }
    }

    /// Move the focused entry's menu selection to the previous visible
    /// node, wrapping at the top. Without a focused entry nothing changes.
    pub fn focused_tree_move_up(&mut self, menu: &Vec<MenuNode>)
        requires
            old(self).wf(),
        ensures
            final(self).wf(),
            final(self).spec_running() == old(self).spec_running(),
            final(self).spec_config() == old(self).spec_config(),
            final(self).focused_key_view() == old(self).focused_key_view(),
            match old(self).focused_key_view() {
                None => *final(self) == *old(self),
                Some(k0) => {
                    let idx = seq_find_key(old(self).reg(), k0);
                    let ot = old(self).reg()[idx].1.tree_state;
                    let nt = final(self).reg()[idx].1.tree_state;
                    let vis = visible_from(menu@, Seq::empty(), ot.opened_set());
                    let j = path_index_of(vis, ot.selected);
                    &&& entry_tree_updated(old(self).reg(), final(self).reg(), idx, nt)
                    &&& nt.opened == ot.opened
                    &&& nt.scroll_offset == ot.scroll_offset
                    &&& nt.node_rects == ot.node_rects
                    &&& nt.selected == (if vis.len() == 0 {
                        ot.selected
                    } else if j >= 0 {
                        if j > 0 {
                            vis[j - 1]
                        } else {
                            vis[vis.len() - 1]
                        }
                    } else {
                        vis[vis.len() - 1]
                    })
                },
            },
    {
        let idx = match self.get_focused_sni_index() {
            Some(i) => i,
            None => {
                return ;
            },
        };
        let mut tmp = SniState::new();
        reg_swap_val_at(&mut self.sni_states, idx, &mut tmp);
        tmp.tree_state.move_up(menu);
        reg_swap_val_at(&mut self.sni_states, idx, &mut tmp);
        proof {
            Self::lemma_tree_update_wf(
                *old(self),
                *self,
                idx as int,
                self.reg()[idx as int].1.tree_state,
            );
        }
    }

    /// Scroll the focused entry's menu up by `lines`, stopping at the top.
    pub fn focused_tree_scroll_up(&mut self, lines: usize)
        requires
            old(self).wf(),
        ensures
            final(self).wf(),
            final(self).spec_running() == old(self).spec_running(),
            final(self).spec_config() == old(self).spec_config(),
            final(self).focused_key_view() == old(self).focused_key_view(),
            match old(self).focused_key_view() {
                None => *final(self) == *old(self),
                Some(k0) => {
                    let idx = seq_find_key(old(self).reg(), k0);
                    let ot = old(self).reg()[idx].1.tree_state;
                    let nt = final(self).reg()[idx].1.tree_state;
                    &&& entry_tree_updated(old(self).reg(), final(self).reg(), idx, nt)
                    &&& nt == (TreeStateView {
                        scroll_offset: (if ot.scroll_offset >= lines {
                            (ot.scroll_offset - lines) as usize
                        } else {
                            0
                        }),
                        ..ot
                    })
                },
            },
    {
        let idx = match self.get_focused_sni_index() {
            Some(i) => i,
            None => {
                return ;
            },
        };
        let mut tmp = SniState::new();
        reg_swap_val_at(&mut self.sni_states, idx, &mut tmp);
        tmp.tree_state.scroll_up(lines);
        reg_swap_val_at(&mut self.sni_states, idx, &mut tmp);
        proof {
            assert(self.reg()[idx as int].1.tree_state =~= (TreeStateView {
                scroll_offset: final(self).reg()[idx as int].1.tree_state.scroll_offset,
                ..old(self).reg()[idx as int].1.tree_state
            }));
            Self::lemma_tree_update_wf(
                *old(self),
                *self,
                idx as int,
                self.reg()[idx as int].1.tree_state,
            );
        }
    }

    /// Scroll the focused entry's menu down by `lines`.
    pub fn focused_tree_scroll_down(&mut self, lines: usize)
        requires
            old(self).wf(),
        ensures
            final(self).wf(),
            final(self).spec_running() == old(self).spec_running(),
            final(self).spec_config() == old(self).spec_config(),
            final(self).focused_key_view() == old(self).focused_key_view(),
            match old(self).focused_key_view() {
                None => *final(self) == *old(self),
                Some(k0) => {
                    let idx = seq_find_key(old(self).reg(), k0);
                    let ot = old(self).reg()[idx].1.tree_state;
                    let nt = final(self).reg()[idx].1.tree_state;
                    &&& entry_tree_updated(old(self).reg(), final(self).reg(), idx, nt)
                    &&& nt == (TreeStateView {
                        scroll_offset: (if ot.scroll_offset + lines <= usize::MAX {
                            (ot.scroll_offset + lines) as usize
                        } else {
                            usize::MAX
                        }),
                        ..ot
                    })
                },
            },
    {
        let idx = match self.get_focused_sni_index() {
            Some(i) => i,
            None => {
                return ;
            },
        };
        let mut tmp = SniState::new();
        reg_swap_val_at(&mut self.sni_states, idx, &mut tmp);
        tmp.tree_state.scroll_down(lines);
        reg_swap_val_at(&mut self.sni_states, idx, &mut tmp);
        proof {
            assert(self.reg()[idx as int].1.tree_state =~= (TreeStateView {
                scroll_offset: final(self).reg()[idx as int].1.tree_state.scroll_offset,
                ..old(self).reg()[idx as int].1.tree_state
            }));
            Self::lemma_tree_update_wf(
                *old(self),
                *self,
                idx as int,
                self.reg()[idx as int].1.tree_state,
            );
        }
    }

    /// Replace the focused entry's recorded menu node rectangles with this
    /// frame's; a lookup never consults a prior frame's rectangles.
    pub fn set_focused_node_rects(&mut self, rects: Vec<(Vec<i32>, Rect)>)
        requires
            old(self).wf(),
        ensures
            final(self).wf(),
            final(self).spec_running() == old(self).spec_running(),
            final(self).spec_config() == old(self).spec_config(),
            final(self).focused_key_view() == old(self).focused_key_view(),
            match old(self).focused_key_view() {
                None => *final(self) == *old(self),
                Some(k0) => {
                    let idx = seq_find_key(old(self).reg(), k0);
                    let ot = old(self).reg()[idx].1.tree_state;
                    let nt = final(self).reg()[idx].1.tree_state;
                    &&& entry_tree_updated(old(self).reg(), final(self).reg(), idx, nt)
                    &&& nt == (TreeStateView { node_rects: rects_view(rects@), ..ot })
                },
            },
    {
        let idx = match self.get_focused_sni_index() {
            Some(i) => i,
            None => {
                return ;
            },
        };
        let mut tmp = SniState::new();
        reg_swap_val_at(&mut self.sni_states, idx, &mut tmp);
        tmp.tree_state.set_node_rects(rects);
        reg_swap_val_at(&mut self.sni_states, idx, &mut tmp);
        proof {
            assert(self.reg()[idx as int].1.tree_state =~= (TreeStateView {
                node_rects: final(self).reg()[idx as int].1.tree_state.node_rects,
                ..old(self).reg()[idx as int].1.tree_state
            }));
            Self::lemma_tree_update_wf(
                *old(self),
                *self,
                idx as int,
                self.reg()[idx as int].1.tree_state,
            );
        }
    }

    /// The path of the deepest menu node drawn at `pos` in the focused
    /// entry's last frame, if any.
    pub fn find_focused_tree_node_at(&self, pos: Position) -> (r: Option<Vec<i32>>)
        requires
            self.wf(),
        ensures
            match self.focused_key_view() {
                Some(k0) => r.deep_view() == deepest_hit(
                    self.reg()[seq_find_key(self.reg(), k0)].1.tree_state.node_rects,
                    pos,
                ),
                None => r is None,
            },
    {
        match self.get_focused_sni_state() {
            Some(s) => s.tree_state.find_tree_node_at(pos),
            None => None,
        }
    }

    /// Decide what activating `ids` does, against the focused entry's
    /// current menu snapshot, and apply it. A path that no longer resolves
    /// is dropped silently. A resolved leaf yields exactly one activation
    /// request and no expansion change; a resolved inner node toggles its
    /// expansion and yields no request: never both for one trigger. The
    /// request is only produced when the entry published a menu root path.
    pub fn activate_menu_item(
        &mut self,
        ids: &Vec<i32>,
        menu: &Vec<MenuNode>,
        menu_path: &Option<String>,
    ) -> (r: Option<ActivateRequest>)
        requires
            old(self).wf(),
        ensures
            final(self).wf(),
            final(self).spec_running() == old(self).spec_running(),
            final(self).spec_config() == old(self).spec_config(),
            final(self).focused_key_view() == old(self).focused_key_view(),
            match old(self).focused_key_view() {
                None => r is None && *final(self) == *old(self),
                Some(k0) => match spec_resolve(menu@, ids@) {
                    None => r is None && *final(self) == *old(self),
                    Some(node) => if node.submenu@.len() == 0 {
                        &&& *final(self) == *old(self)
                        &&& match (r, menu_path) {
                            (Some(req), Some(mp)) => req.address@ == k0 && req.menu_path@ == mp@
                                && req.submenu_id == node.id,
                            (None, None) => true,
                            _ => false,
                        }
                    } else {
                        let idx = seq_find_key(old(self).reg(), k0);
                        let ot = old(self).reg()[idx].1.tree_state;
                        let nt = final(self).reg()[idx].1.tree_state;
                        &&& r is None
                        &&& entry_tree_updated(old(self).reg(), final(self).reg(), idx, nt)
                        &&& nt.opened_set() == (if ot.opened_set().contains(ids@) {
                            ot.opened_set().remove(ids@)
                        } else {
                            ot.opened_set().insert(ids@)
                        })
                        &&& nt.selected == ot.selected
                        &&& nt.scroll_offset == ot.scroll_offset
                        &&& nt.node_rects == ot.node_rects
                    },
                },
            },
    {
        let focused = match self.get_focused_sni_key() {
            Some(k) => k.clone(),
            None => {
                return None;
            },
        };
        let node = match crate::tree::resolve_path(menu, ids) {
            Some(n) => n,
            None => {
                return None;
            },
        };
        if node.submenu.len() == 0 {
            match menu_path {
                Some(mp) => Some(
                    ActivateRequest {
                        address: focused,
                        menu_path: mp.clone(),
                        submenu_id: node.id,
                    },
                ),
                None => None,
            }
        } else {
            self.focused_tree_toggle(ids);
            None
        }
    }
}

} // verus!

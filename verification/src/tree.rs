//! The hierarchical menu of one tray entry and the UI state kept for it.
//!
//! A menu is an ordered forest of [`MenuNode`]s; a node is addressed by its
//! path, the sequence of node ids from the menu root down to it. [`TreeState`]
//! records which nodes are expanded, which path is selected, the scroll
//! offset, and the rectangle each visible node was drawn at in the last
//! frame, so that mouse positions can be resolved back to node paths.

use vstd::prelude::*;

use crate::wrappers::{Position, Rect};

verus! {

/// One node of an entry's menu: a numeric id unique within the whole menu,
/// an optional label, a separator flag and the ordered child list. Separator
/// nodes occupy rendering positions but are skipped during navigation.
#[derive(Debug)]
pub struct MenuNode {
    pub id: i32,
    pub label: Option<String>,
    pub separator: bool,
    pub submenu: Vec<MenuNode>,
}

/// Expansion, selection and hit-test state for one entry's menu.
#[derive(Clone, Debug)]
pub struct TreeState {
    /// The set of expanded node paths; no path occurs twice.
    pub opened: Vec<Vec<i32>>,
    /// The selected path, from the menu root to the selected node; empty when
    /// nothing is selected.
    pub selected: Vec<i32>,
    /// How many lines the visible part of the menu is scrolled down.
    pub scroll_offset: usize,
    /// One rectangle per menu node drawn in the last frame, together with the
    /// node's full path. Replaced wholesale every frame.
    pub node_rects: Vec<(Vec<i32>, Rect)>,
}

/// The view of `node_rects`: each recorded path as a sequence, with the
/// rectangle it was drawn at.
pub open spec fn rects_view(rects: Seq<(Vec<i32>, Rect)>) -> Seq<(Seq<i32>, Rect)> {
    rects.map(|i: int, e: (Vec<i32>, Rect)| (e.0@, e.1))
}

/// The path of the most specific rectangle containing `pos`: among the
/// entries whose rectangle contains `pos`, one with the longest path, the
/// earliest such entry when several have that length. Ancestor rectangles
/// geometrically contain their descendants' positions, so the longest path
/// is the deepest node.
pub open spec fn deepest_hit(rects: Seq<(Seq<i32>, Rect)>, pos: Position) -> Option<Seq<i32>>
    decreases rects.len(),
{
    if rects.len() == 0 {
        None
    } else {
        let rest = deepest_hit(rects.drop_last(), pos);
        let last = rects.last();
        if last.1.spec_contains(pos) && (rest matches Some(p) ==> p.len() < last.0.len()) {
            Some(last.0)
        } else {
            rest
        }
    }
}

/// The deep view of a path is its view.
pub proof fn lemma_path_deep_view(p: Vec<i32>)
    ensures
        p.deep_view() == p@,
{
    assert(p.deep_view() =~= p@);
}

/// The deep view of a path list indexes to the views of its paths.
pub proof fn lemma_paths_deep_view(v: Vec<Vec<i32>>)
    ensures
        v.deep_view().len() == v@.len(),
        forall|j: int| 0 <= j < v@.len() ==> #[trigger] v.deep_view()[j] == v@[j]@,
{
    assert forall|j: int| 0 <= j < v@.len() implies #[trigger] v.deep_view()[j] == v@[j]@ by {
        lemma_path_deep_view(v@[j]);
    }
}

/// Compare two paths for equality.
pub fn path_eq(a: &Vec<i32>, b: &Vec<i32>) -> (r: bool)
    ensures
        r == (a@ == b@),
{
    if a.len() != b.len() {
        assert(a@ != b@);
        return false;
    }
    for i in 0..a.len()
        invariant
            a@.len() == b@.len(),
            forall|j: int| 0 <= j < i ==> a@[j] == b@[j],
    {
        if a[i] != b[i] {
            return false;
        }
    }
    assert(a@ =~= b@);
    true
}

/// Whether `p` occurs among the paths of `v`.
pub fn contains_path(v: &Vec<Vec<i32>>, p: &Vec<i32>) -> (r: bool)
    ensures
        r == v.deep_view().contains(p@),
{
    proof {
        lemma_paths_deep_view(*v);
    }
    for i in 0..v.len()
        invariant
            forall|j: int| 0 <= j < i ==> v.deep_view()[j] != p@,
            v.deep_view().len() == v@.len(),
            forall|j: int| 0 <= j < v@.len() ==> #[trigger] v.deep_view()[j] == v@[j]@,
    {
        if path_eq(&v[i], p) {
            assert(v.deep_view()[i as int] == p@);
            return true;
        }
        assert(v.deep_view()[i as int] != p@);
    }
    assert(forall|j: int| 0 <= j < v.deep_view().len() ==> v.deep_view()[j] != p@);
    false
}

/// The mathematical content of a [`TreeState`]: what the contracts of the
/// tree operations speak about.
#[verifier::ext_equal]
pub struct TreeStateView {
    pub opened: Seq<Seq<i32>>,
    pub selected: Seq<i32>,
    pub scroll_offset: usize,
    pub node_rects: Seq<(Seq<i32>, Rect)>,
}

impl TreeStateView {
    /// The state of a freshly created tree: nothing expanded, nothing
    /// selected, no scroll, no recorded rectangles.
    pub open spec fn fresh() -> TreeStateView {
        TreeStateView {
            opened: Seq::empty(),
            selected: Seq::empty(),
            scroll_offset: 0,
            node_rects: Seq::empty(),
        }
    }

    /// The paths expanded right now, as a set.
    pub open spec fn opened_set(self) -> Set<Seq<i32>> {
        self.opened.to_set()
    }

    /// No expanded path is recorded twice.
    pub open spec fn wf(self) -> bool {
        forall|i: int, j: int| 0 <= i < j < self.opened.len() ==> self.opened[i] != self.opened[j]
    }
}

impl View for TreeState {
    type V = TreeStateView;

    open spec fn view(&self) -> TreeStateView {
        TreeStateView {
            opened: self.opened.deep_view(),
            selected: self.selected@,
            scroll_offset: self.scroll_offset,
            node_rects: rects_view(self.node_rects@),
        }
    }
}

impl TreeState {
    pub fn new() -> (r: TreeState)
        ensures
            r@ == TreeStateView::fresh(),
    {
        let r = TreeState {
            opened: Vec::new(),
            selected: Vec::new(),
            scroll_offset: 0,
            node_rects: Vec::new(),
        };
        assert(r@ =~= TreeStateView::fresh());
        r
    }

    /// Set the selected path directly; pointer input uses this.
    pub fn select(&mut self, path: Vec<i32>)
        ensures
            final(self)@ == (TreeStateView { selected: path@, ..old(self)@ }),
    {
        self.selected = path;
        assert(self@ =~= (TreeStateView { selected: self.selected@, ..old(self)@ }));
    }

    /// Flip the expansion of the node at `path`: expanded paths become
    /// collapsed and collapsed ones expanded. Selection, scroll and the
    /// recorded rectangles stay as they are.
    pub fn toggle(&mut self, path: &Vec<i32>)
        requires
            old(self)@.wf(),
        ensures
            final(self)@.wf(),
            final(self)@.opened_set() == (if old(self)@.opened_set().contains(path@) {
                old(self)@.opened_set().remove(path@)
            } else {
                old(self)@.opened_set().insert(path@)
            }),
            final(self)@.selected == old(self)@.selected,
            final(self)@.scroll_offset == old(self)@.scroll_offset,
            final(self)@.node_rects == old(self)@.node_rects,
    {
        proof {
            seq_to_set_contains_iff(self.opened.deep_view());
            lemma_paths_deep_view(self.opened);
        }
        let n = self.opened.len();
        for i in 0..n
            invariant
                n == self.opened.len(),
                old(self)@.wf(),
                *self == *old(self),
                forall|j: int| 0 <= j < i ==> self.opened.deep_view()[j] != path@,
                self.opened.deep_view().len() == self.opened@.len(),
                forall|j: int|
                    0 <= j < self.opened@.len() ==> #[trigger] self.opened.deep_view()[j]
                        == self.opened@[j]@,
        {
            if path_eq(&self.opened[i], path) {
                assert(self.opened.deep_view()[i as int] == path@);
                assert(self@.opened_set().contains(path@));
                let ghost pre = self.opened.deep_view();
                self.opened.remove(i);
                proof {
                    assert(self.opened.deep_view() =~= pre.remove(i as int));
                    lemma_nodup_remove_to_set(pre, i as int);
                    assert(self@ =~= (TreeStateView {
                        opened: pre.remove(i as int),
                        ..old(self)@
                    }));
                }
                return ;
            }
            assert(self.opened.deep_view()[i as int] != path@);
        }
        assert(forall|j: int|
            0 <= j < self.opened.deep_view().len() ==> self.opened.deep_view()[j] != path@);
        assert(!self@.opened_set().contains(path@));
        let ghost pre = self.opened.deep_view();
        let p = clone_path(path);
        self.opened.push(p);
        proof {
            lemma_paths_deep_view(self.opened);
            lemma_path_deep_view(p);
            assert(self.opened.deep_view() =~= pre.push(path@));
            assert(self@ =~= (TreeStateView { opened: pre.push(path@), ..old(self)@ }));
            seq_to_set_contains_iff(pre.push(path@));
            seq_to_set_contains_iff(pre);
            assert forall|x: Seq<i32>| self@.opened_set().contains(x) implies old(
                self,
            )@.opened_set().insert(path@).contains(x) by {
                let j = choose|j: int| 0 <= j < pre.push(path@).len() && pre.push(path@)[j] == x;
                if j < pre.len() {
                    assert(pre[j] == x);
                }
            }
            assert forall|x: Seq<i32>|
                old(self)@.opened_set().insert(path@).contains(x) implies self@.opened_set().contains(
                x,
            ) by {
                if x == path@ {
                    assert(pre.push(path@)[pre.len() as int] == x);
                } else {
                    let j = choose|j: int| 0 <= j < pre.len() && pre[j] == x;
                    assert(pre.push(path@)[j] == x);
                }
            }
            assert(self@.opened_set() =~= old(self)@.opened_set().insert(path@));
        }
    }

    /// Scroll the visible part up by `lines`, stopping at the top.
    pub fn scroll_up(&mut self, lines: usize)
        ensures
            final(self).scroll_offset == (if old(self).scroll_offset >= lines {
                old(self).scroll_offset - lines
            } else {
                0
            }),
            final(self).opened == old(self).opened,
            final(self).selected == old(self).selected,
            final(self).node_rects == old(self).node_rects,
    {
        if self.scroll_offset >= lines {
            self.scroll_offset = self.scroll_offset - lines;
        } else {
            self.scroll_offset = 0;
        }
    }

    /// Scroll the visible part down by `lines`, stopping at the largest
    /// representable offset.
    pub fn scroll_down(&mut self, lines: usize)
        ensures
            final(self).scroll_offset == (if old(self).scroll_offset + lines <= usize::MAX {
                (old(self).scroll_offset + lines) as usize
            } else {
                usize::MAX
            }),
            final(self).opened == old(self).opened,
            final(self).selected == old(self).selected,
            final(self).node_rects == old(self).node_rects,
    {
        if self.scroll_offset <= usize::MAX - lines {
            self.scroll_offset = self.scroll_offset + lines;
        } else {
            self.scroll_offset = usize::MAX;
        }
    }

    /// Replace the recorded node rectangles with this frame's. A lookup never
    /// consults a prior frame's rectangles.
    pub fn set_node_rects(&mut self, rects: Vec<(Vec<i32>, Rect)>)
        ensures
            *final(self) == (TreeState { node_rects: rects, ..*old(self) }),
    {
        self.node_rects = rects;
    }

    /// The path of the deepest node whose recorded rectangle contains `pos`,
    /// if any rectangle does.
    pub fn find_tree_node_at(&self, pos: Position) -> (r: Option<Vec<i32>>)
        ensures
            r.deep_view() == deepest_hit(rects_view(self.node_rects@), pos),
    {
        let ghost rv = rects_view(self.node_rects@);
        let mut best: Option<usize> = None;
        let n = self.node_rects.len();
        for i in 0..n
            invariant
                n == self.node_rects.len(),
                rv == rects_view(self.node_rects@),
                match best {
                    Some(b) => {
                        &&& b < i
                        &&& deepest_hit(rv.take(i as int), pos) == Some(rv[b as int].0)
                    },
                    None => deepest_hit(rv.take(i as int), pos) is None,
                },
        {
            assert(rv.take(i + 1).drop_last() =~= rv.take(i as int));
            assert(rv.take(i + 1).last() == rv[i as int]);
            let better = match best {
                Some(b) => self.node_rects[b].0.len() < self.node_rects[i].0.len(),
                None => true,
            };
            if self.node_rects[i].1.contains(pos) && better {
                best = Some(i);
            }
        }
        assert(rv.take(n as int) =~= rv);
        match best {
            Some(b) => {
                let p = clone_path(&self.node_rects[b].0);
                Some(p)
            },
            None => None,
        }
    }
}

/// Clone a path, preserving its contents.
pub fn clone_path(p: &Vec<i32>) -> (r: Vec<i32>)
    ensures
        r@ == p@,
{
    let r = p.clone();
    assert(forall|i: int| 0 <= i < p@.len() ==> r@[i] == p@[i]) by {
        assert(forall|i: int| 0 <= i < p@.len() ==> cloned::<i32>(p@[i], r@[i]));
    }
    assert(r@ =~= p@);
    r
}

/// For a sequence without duplicates, removing the element at `i` from the
/// sequence removes exactly that element from its set of members.
proof fn lemma_nodup_remove_to_set(s: Seq<Seq<i32>>, i: int)
    requires
        0 <= i < s.len(),
        forall|a: int, b: int| 0 <= a < b < s.len() ==> s[a] != s[b],
    ensures
        s.remove(i).to_set() == s.to_set().remove(s[i]),
{
    seq_to_set_contains_iff(s);
    seq_to_set_contains_iff(s.remove(i));
    assert forall|x: Seq<i32>| s.remove(i).to_set().contains(x) implies s.to_set().remove(
        s[i],
    ).contains(x) by {
        let j = choose|j: int| 0 <= j < s.remove(i).len() && s.remove(i)[j] == x;
        if j < i {
            assert(s[j] == x);
        } else {
            assert(s[j + 1] == x);
        }
    }
    assert forall|x: Seq<i32>| s.to_set().remove(s[i]).contains(x) implies s.remove(
        i,
    ).to_set().contains(x) by {
        let j = choose|j: int| 0 <= j < s.len() && s[j] == x;
        assert(j != i);
        if j < i {
            assert(s.remove(i)[j] == x);
        } else {
            assert(s.remove(i)[j - 1] == x);
        }
    }
    assert(s.remove(i).to_set() =~= s.to_set().remove(s[i]));
}

/// Membership in a sequence's set of members is membership in the sequence.
proof fn seq_to_set_contains_iff(s: Seq<Seq<i32>>)
    ensures
        forall|x: Seq<i32>| #[trigger]
            s.to_set().contains(x) <==> exists|j: int| 0 <= j < s.len() && s[j] == x,
{
    broadcast use vstd::seq_lib::group_seq_lib_default;

    assert forall|x: Seq<i32>| #[trigger] s.to_set().contains(x) implies exists|j: int|
        0 <= j < s.len() && s[j] == x by {
        assert(s.contains(x));
    }
    assert forall|x: Seq<i32>| (exists|j: int| 0 <= j < s.len() && s[j] == x) implies #[trigger] s
        .to_set()
        .contains(x) by {
        assert(s.contains(x));
    }
}

/// The navigable paths of a node forest in expansion-aware depth-first
/// order: each non-separator node's path, followed, when that path is
/// expanded, by the visible paths of its children. Separator nodes are
/// skipped during navigation.
pub open spec fn visible_from(nodes: Seq<MenuNode>, prefix: Seq<i32>, opened: Set<Seq<i32>>) -> Seq<
    Seq<i32>,
>
    decreases nodes,
{
    if nodes.len() == 0 {
        Seq::empty()
    } else {
        node_visible(nodes[0], prefix, opened) + visible_from(nodes.drop_first(), prefix, opened)
    }
}

/// The navigable paths contributed by one node.
pub open spec fn node_visible(n: MenuNode, prefix: Seq<i32>, opened: Set<Seq<i32>>) -> Seq<
    Seq<i32>,
>
    decreases n,
{
    if n.separator {
        Seq::empty()
    } else {
        let p = prefix.push(n.id);
        seq![p] + (if opened.contains(p) {
            visible_from(n.submenu@, p, opened)
        } else {
            Seq::empty()
        })
    }
}

/// The first position of `p` in a path list, or `-1`.
pub open spec fn path_index_of(vis: Seq<Seq<i32>>, p: Seq<i32>) -> int
    decreases vis.len(),
{
    if vis.len() == 0 {
        -1
    } else if vis[0] == p {
        0
    } else {
        let r = path_index_of(vis.drop_first(), p);
        if r == -1 {
            -1
        } else {
            r + 1
        }
    }
}

/// What `path_index_of` returns: the first position holding `p`, or `-1`
/// exactly when none does.
pub proof fn lemma_path_index_of(vis: Seq<Seq<i32>>, p: Seq<i32>)
    ensures
        path_index_of(vis, p) >= -1,
        path_index_of(vis, p) == -1 <==> !vis.contains(p),
        path_index_of(vis, p) >= 0 ==> {
            &&& path_index_of(vis, p) < vis.len()
            &&& vis[path_index_of(vis, p)] == p
            &&& forall|j: int| 0 <= j < path_index_of(vis, p) ==> vis[j] != p
        },
    decreases vis.len(),
{
    if vis.len() == 0 {
    } else if vis[0] == p {
        assert(vis.contains(p));
    } else {
        let t = vis.drop_first();
        lemma_path_index_of(t, p);
        let r = path_index_of(t, p);
        assert(forall|i: int| 0 <= i < t.len() ==> t[i] == vis[i + 1]);
        if r == -1 {
            assert forall|i: int| 0 <= i < vis.len() implies vis[i] != p by {
                if i > 0 {
                    assert(t[i - 1] == vis[i]);
                }
            }
            assert(!vis.contains(p));
        } else {
            assert(vis[r + 1] == p);
            assert(vis.contains(p));
            assert forall|j: int| 0 <= j < r + 1 implies vis[j] != p by {
                if j > 0 {
                    assert(t[j - 1] == vis[j]);
                }
            }
        }
    }
}

/// Append the visible paths of `nodes` under `prefix` to `out`.
fn visible_paths_from(
    nodes: &Vec<MenuNode>,
    prefix: &Vec<i32>,
    opened: &Vec<Vec<i32>>,
    out: &mut Vec<Vec<i32>>,
)
    ensures
        final(out).deep_view() == old(out).deep_view() + visible_from(
            nodes@,
            prefix@,
            opened.deep_view().to_set(),
        ),
    decreases nodes@,
{
    let ghost o = opened.deep_view().to_set();
    proof {
        assert(nodes@.skip(0) =~= nodes@);
        assert(out.deep_view() + visible_from(nodes@.skip(0), prefix@, o) =~= old(
            out,
        ).deep_view() + visible_from(nodes@, prefix@, o));
    }
    let n = nodes.len();
    for i in 0..n
        invariant
            n == nodes@.len(),
            o == opened.deep_view().to_set(),
            out.deep_view() + visible_from(nodes@.skip(i as int), prefix@, o) == old(
                out,
            ).deep_view() + visible_from(nodes@, prefix@, o),
    {
        proof {
            assert(nodes@.skip(i as int)[0] == nodes@[i as int]);
            assert(nodes@.skip(i as int).drop_first() =~= nodes@.skip(i + 1));
            assert(visible_from(nodes@.skip(i as int), prefix@, o) == node_visible(
                nodes@[i as int],
                prefix@,
                o,
            ) + visible_from(nodes@.skip(i + 1), prefix@, o));
        }
        let node = &nodes[i];
        if !node.separator {
            let mut p = clone_path(prefix);
            p.push(node.id);
            proof {
                assert(p@ =~= prefix@.push(node.id));
            }
            let ghost before = out.deep_view();
            let p2 = clone_path(&p);
            out.push(p2);
            proof {
                lemma_paths_deep_view(*out);
                lemma_path_deep_view(p2);
                assert(out.deep_view() =~= before.push(p@));
            }
            if contains_path(opened, &p) {
                proof {
                    seq_to_set_contains_iff(opened.deep_view());
                    assert(o.contains(p@));
                }
                let ghost mid = out.deep_view();
                visible_paths_from(&node.submenu, &p, opened, out);
                proof {
                    assert(node_visible(nodes@[i as int], prefix@, o) =~= seq![p@] + visible_from(
                        node.submenu@,
                        p@,
                        o,
                    ));
                    assert(out.deep_view() =~= before + node_visible(nodes@[i as int], prefix@, o));
                    assert(out.deep_view() + visible_from(nodes@.skip(i + 1), prefix@, o) =~= old(
                        out,
                    ).deep_view() + visible_from(nodes@, prefix@, o));
                }
            } else {
                proof {
                    seq_to_set_contains_iff(opened.deep_view());
                    assert(!o.contains(p@));
                    assert(node_visible(nodes@[i as int], prefix@, o) =~= seq![p@]);
                    assert(out.deep_view() + visible_from(nodes@.skip(i + 1), prefix@, o) =~= old(
                        out,
                    ).deep_view() + visible_from(nodes@, prefix@, o));
                }
            }
        } else {
            proof {
                assert(node_visible(nodes@[i as int], prefix@, o) =~= Seq::<Seq<i32>>::empty());
                assert(out.deep_view() + visible_from(nodes@.skip(i + 1), prefix@, o) =~= old(
                    out,
                ).deep_view() + visible_from(nodes@, prefix@, o));
            }
        }
    }
    proof {
        assert(nodes@.skip(n as int).len() == 0);
        assert(visible_from(nodes@.skip(n as int), prefix@, o) =~= Seq::<Seq<i32>>::empty());
        assert(out.deep_view() =~= old(out).deep_view() + visible_from(nodes@, prefix@, o));
    }
}

/// The first node of a forest carrying `id`, if any.
pub open spec fn node_index_of(nodes: Seq<MenuNode>, id: i32) -> int
    decreases nodes.len(),
{
    if nodes.len() == 0 {
        -1
    } else if nodes[0].id == id {
        0
    } else {
        let r = node_index_of(nodes.drop_first(), id);
        if r == -1 {
            -1
        } else {
            r + 1
        }
    }
}

/// What `node_index_of` returns.
pub proof fn lemma_node_index_of(nodes: Seq<MenuNode>, id: i32)
    ensures
        node_index_of(nodes, id) >= -1,
        node_index_of(nodes, id) == -1 <==> !(exists|i: int|
            0 <= i < nodes.len() && (#[trigger] nodes[i]).id == id),
        node_index_of(nodes, id) >= 0 ==> {
            &&& node_index_of(nodes, id) < nodes.len()
            &&& nodes[node_index_of(nodes, id)].id == id
            &&& forall|j: int| 0 <= j < node_index_of(nodes, id) ==> nodes[j].id != id
        },
    decreases nodes.len(),
{
    if nodes.len() == 0 {
    } else if nodes[0].id == id {
    } else {
        let t = nodes.drop_first();
        lemma_node_index_of(t, id);
        let r = node_index_of(t, id);
        assert(forall|i: int| 0 <= i < t.len() ==> t[i] == nodes[i + 1]);
        if r == -1 {
            assert forall|i: int| 0 <= i < nodes.len() implies (#[trigger] nodes[i]).id != id by {
                if i > 0 {
                    assert(t[i - 1] == nodes[i]);
                }
            }
        } else {
            assert(nodes[r + 1].id == id);
            assert forall|j: int| 0 <= j < r + 1 implies nodes[j].id != id by {
                if j > 0 {
                    assert(t[j - 1] == nodes[j]);
                }
            }
        }
    }
}

/// The node a path leads to: at every level the first node carrying the
/// next id of the path, descending into its children. The empty path leads
/// nowhere.
pub open spec fn spec_resolve(nodes: Seq<MenuNode>, path: Seq<i32>) -> Option<MenuNode>
    decreases path.len(),
{
    if path.len() == 0 {
        None
    } else {
        let idx = node_index_of(nodes, path[0]);
        if idx < 0 {
            None
        } else if path.len() == 1 {
            Some(nodes[idx])
        } else {
            spec_resolve(nodes[idx].submenu@, path.drop_first())
        }
    }
}

/// The position of the first node carrying `id`, if any.
fn find_child(nodes: &Vec<MenuNode>, id: i32) -> (r: Option<usize>)
    ensures
        match r {
            Some(j) => j as int == node_index_of(nodes@, id) && j < nodes@.len(),
            None => node_index_of(nodes@, id) == -1,
        },
{
    proof {
        lemma_node_index_of(nodes@, id);
    }
    let n = nodes.len();
    for j in 0..n
        invariant
            n == nodes@.len(),
            forall|t: int| 0 <= t < j ==> (#[trigger] nodes@[t]).id != id,
            node_index_of(nodes@, id) >= -1,
            node_index_of(nodes@, id) >= 0 ==> {
                &&& node_index_of(nodes@, id) < nodes@.len()
                &&& nodes@[node_index_of(nodes@, id)].id == id
                &&& forall|t: int| 0 <= t < node_index_of(nodes@, id) ==> nodes@[t].id != id
            },
            node_index_of(nodes@, id) == -1 <==> !(exists|t: int|
                0 <= t < nodes@.len() && (#[trigger] nodes@[t]).id == id),
    {
        if nodes[j].id == id {
            proof {
                let f = node_index_of(nodes@, id);
                assert(nodes@[j as int].id == id);
                if f == -1 {
                    assert(false);
                } else if f < j as int {
                    assert(false);
                } else if f > j as int {
                    assert(nodes@[f].id == id);
                    assert(false);
                }
            }
            return Some(j);
        }
    }
    proof {
        if node_index_of(nodes@, id) >= 0 {
            assert(false);
        }
    }
    None
}

/// Resolve a path against the current menu snapshot, descending iteratively
/// with the remaining path. `None` when the path is stale or empty.
pub fn resolve_path<'a>(nodes: &'a Vec<MenuNode>, path: &Vec<i32>) -> (r: Option<&'a MenuNode>)
    ensures
        match r {
            Some(n) => spec_resolve(nodes@, path@) == Some(*n),
            None => spec_resolve(nodes@, path@) is None,
        },
{
    if path.len() == 0 {
        return None;
    }
    let mut cur: &Vec<MenuNode> = nodes;
    let mut d: usize = 0;
    proof {
        assert(path@.skip(0) =~= path@);
    }
    while d < path.len()
        invariant
            d < path@.len(),
            spec_resolve(nodes@, path@) == spec_resolve(cur@, path@.skip(d as int)),
        decreases path@.len() - d,
    {
        let ghost rest = path@.skip(d as int);
        proof {
            assert(rest.len() == path@.len() - d);
            assert(rest[0] == path@[d as int]);
            assert(rest.drop_first() =~= path@.skip(d + 1));
            lemma_node_index_of(cur@, path@[d as int]);
        }
        let id = path[d];
        let found = find_child(cur, id);
        let idx = match found {
            Some(j) => {
                proof {
                    let f = node_index_of(cur@, id);
                    assert(cur@[j as int].id == id);
                    if f < j as int {
                        assert(cur@[f].id == id);
                        assert(false);
                    } else if f > j as int {
                        assert(false);
                    }
                }
                j
            },
            None => {
                proof {
                    assert(node_index_of(cur@, id) == -1);
                    assert(spec_resolve(cur@, rest) is None);
                }
                return None;
            },
        };
        if d == path.len() - 1 {
            proof {
                assert(rest.len() == 1);
                assert(spec_resolve(cur@, rest) == Some(cur@[idx as int]));
            }
            return Some(&cur[idx]);
        }
        proof {
            assert(spec_resolve(cur@, rest) == spec_resolve(
                cur@[idx as int].submenu@,
                rest.drop_first(),
            ));
        }
        cur = &cur[idx].submenu;
        d = d + 1;
    }
    proof {
        assert(false);
    }
    None
}

/// The position of the first path equal to `p`, if any.
fn find_path_index(v: &Vec<Vec<i32>>, p: &Vec<i32>) -> (r: Option<usize>)
    ensures
        match r {
            Some(j) => j as int == path_index_of(v.deep_view(), p@) && j < v.deep_view().len(),
            None => path_index_of(v.deep_view(), p@) == -1,
        },
{
    proof {
        lemma_path_index_of(v.deep_view(), p@);
        lemma_paths_deep_view(*v);
    }
    let ghost dv = v.deep_view();
    let n = v.len();
    for j in 0..n
        invariant
            n == v@.len(),
            dv == v.deep_view(),
            dv.len() == v@.len(),
            forall|t: int| 0 <= t < v@.len() ==> #[trigger] dv[t] == v@[t]@,
            forall|t: int| 0 <= t < j ==> dv[t] != p@,
            path_index_of(dv, p@) >= -1,
            path_index_of(dv, p@) >= 0 ==> {
                &&& path_index_of(dv, p@) < dv.len()
                &&& dv[path_index_of(dv, p@)] == p@
                &&& forall|t: int| 0 <= t < path_index_of(dv, p@) ==> dv[t] != p@
            },
            path_index_of(dv, p@) == -1 <==> !dv.contains(p@),
    {
        if path_eq(&v[j], p) {
            proof {
                let f = path_index_of(dv, p@);
                assert(dv[j as int] == p@);
                assert(dv.contains(p@));
                if f < j as int {
                    assert(false);
                } else if f > j as int {
                    assert(false);
                }
            }
            return Some(j);
        }
    }
    proof {
        if dv.contains(p@) {
            let w = choose|w: int| 0 <= w < dv.len() && dv[w] == p@;
            assert(false);
        }
    }
    None
}

impl TreeState {
    /// The navigable paths of `menu` in expansion-aware depth-first order,
    /// under the current expansion state.
    pub fn visible_paths(&self, menu: &Vec<MenuNode>) -> (r: Vec<Vec<i32>>)
        ensures
            r.deep_view() == visible_from(menu@, Seq::empty(), self@.opened_set()),
    {
        let mut out: Vec<Vec<i32>> = Vec::new();
        let prefix: Vec<i32> = Vec::new();
        proof {
            assert(out.deep_view() =~= Seq::<Seq<i32>>::empty());
            assert(prefix@ =~= Seq::<i32>::empty());
        }
        visible_paths_from(menu, &prefix, &self.opened, &mut out);
        proof {
            assert(out.deep_view() =~= visible_from(menu@, Seq::empty(), self@.opened_set()));
        }
        out
    }

    /// Advance the selection to the next visible node in depth-first order,
    /// wrapping from the last to the first. With nothing selected, or a
    /// stale selection, the first visible node is selected; with no visible
    /// node, nothing changes.
    pub fn move_down(&mut self, menu: &Vec<MenuNode>)
        ensures
            final(self)@.opened == old(self)@.opened,
            final(self)@.scroll_offset == old(self)@.scroll_offset,
            final(self)@.node_rects == old(self)@.node_rects,
            ({
                let vis = visible_from(menu@, Seq::empty(), old(self)@.opened_set());
                let j = path_index_of(vis, old(self)@.selected);
                if vis.len() == 0 {
                    final(self)@.selected == old(self)@.selected
                } else if j >= 0 {
                    final(self)@.selected == (if j + 1 < vis.len() {
                        vis[j + 1]
                    } else {
                        vis[0]
                    })
                } else {
                    final(self)@.selected == vis[0]
                }
            }),
    {
        let vis = self.visible_paths(menu);
        if vis.len() == 0 {
            return ;
        }
        proof {
            lemma_paths_deep_view(vis);
        }
        let target: usize = match find_path_index(&vis, &self.selected) {
            Some(j) => {
                if j + 1 < vis.len() {
                    j + 1
                } else {
                    0
                }
            },
            None => 0,
        };
        let p = clone_path(&vis[target]);
        self.selected = p;
        proof {
            assert(self@ =~= (TreeStateView { selected: vis.deep_view()[target as int], ..old(self)@ }));
        }
    }

    /// Move the selection to the previous visible node in depth-first
    /// order, wrapping from the first to the last. With nothing selected,
    /// or a stale selection, the last visible node is selected; with no
    /// visible node, nothing changes.
    pub fn move_up(&mut self, menu: &Vec<MenuNode>)
        ensures
            final(self)@.opened == old(self)@.opened,
            final(self)@.scroll_offset == old(self)@.scroll_offset,
            final(self)@.node_rects == old(self)@.node_rects,
            ({
                let vis = visible_from(menu@, Seq::empty(), old(self)@.opened_set());
                let j = path_index_of(vis, old(self)@.selected);
                if vis.len() == 0 {
                    final(self)@.selected == old(self)@.selected
                } else if j >= 0 {
                    final(self)@.selected == (if j > 0 {
                        vis[j - 1]
                    } else {
                        vis[vis.len() - 1]
                    })
                } else {
                    final(self)@.selected == vis[vis.len() - 1]
                }
            }),
    {
        let vis = self.visible_paths(menu);
        if vis.len() == 0 {
            return ;
        }
        proof {
            lemma_paths_deep_view(vis);
        }
        let target: usize = match find_path_index(&vis, &self.selected) {
            Some(j) => {
                if j > 0 {
                    j - 1
                } else {
                    vis.len() - 1
                }
            },
            None => vis.len() - 1,
        };
        let p = clone_path(&vis[target]);
        self.selected = p;
        proof {
            assert(self@ =~= (TreeStateView { selected: vis.deep_view()[target as int], ..old(self)@ }));
        }
    }
}

/// Law: the hit-test result is the deepest recorded rectangle containing
/// the position. When rectangles nest, ancestor paths are shorter, so the
/// returned path is at least as long as that of every containing
/// rectangle; and some recorded rectangle with exactly that path contains
/// the position. When no rectangle contains the position, the result is
/// nothing.
pub proof fn lemma_deepest_hit_deepest(rects: Seq<(Seq<i32>, Rect)>, pos: Position)
    ensures
        match deepest_hit(rects, pos) {
            Some(p) => {
                &&& exists|i: int|
                    0 <= i < rects.len() && (#[trigger] rects[i]).0 == p
                        && rects[i].1.spec_contains(pos)
                &&& forall|i: int|
                    0 <= i < rects.len() && (#[trigger] rects[i]).1.spec_contains(pos)
                        ==> rects[i].0.len() <= p.len()
            },
            None => forall|i: int|
                0 <= i < rects.len() ==> !(#[trigger] rects[i]).1.spec_contains(pos),
        },
    decreases rects.len(),
{
    if rects.len() > 0 {
        let front = rects.drop_last();
        lemma_deepest_hit_deepest(front, pos);
        let last = rects.last();
        assert(forall|i: int| 0 <= i < front.len() ==> front[i] == rects[i]);
        assert(last == rects[rects.len() - 1]);
        match deepest_hit(rects, pos) {
            Some(p) => {
                match deepest_hit(front, pos) {
                    Some(q) => {
                        let w = choose|w: int|
                            0 <= w < front.len() && front[w].0 == q && front[w].1.spec_contains(
                                pos,
                            );
                        if last.1.spec_contains(pos) && q.len() < last.0.len() {
                            assert(p == last.0);
                            assert(rects[rects.len() - 1].0 == p);
                        } else {
                            assert(p == q);
                            assert(rects[w].0 == p);
                        }
                    },
                    None => {
                        assert(last.1.spec_contains(pos));
                        assert(p == last.0);
                        assert(rects[rects.len() - 1].0 == p);
                    },
                }
            },
            None => {},
        }
    }
}

} // verus!

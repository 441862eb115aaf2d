//! Reconciliation of the registry against the externally published
//! snapshot, and the display order used when sorting is enabled.
//!
//! The snapshot reaches the engine as a list of (id, title) pairs copied out
//! under the external lock. Reconciliation keeps surviving entries (their
//! tree state and rectangle untouched), drops vanished ids, appends fresh
//! entries for new ids, and, when sorting is enabled, orders entries by
//! title with ties broken by id, comparing the UTF-8 bytes as the display
//! layer does.

use vstd::prelude::*;

use vstd::multiset::Multiset;
use vstd::utf8::encode_utf8;

use crate::registry::{entries_view, has_key, keys_unique};
use crate::wrappers::{SniState, SniStateView};

verus! {

/// Byte-wise lexicographic order: `a` comes no later than `b`.
pub open spec fn lex_le(a: Seq<u8>, b: Seq<u8>) -> bool
    decreases a.len(),
{
    if a.len() == 0 {
        true
    } else if b.len() == 0 {
        false
    } else if a[0] < b[0] {
        true
    } else if a[0] > b[0] {
        false
    } else {
        lex_le(a.drop_first(), b.drop_first())
    }
}

/// Any two byte strings are ordered one way or the other.
pub proof fn lemma_lex_le_total(a: Seq<u8>, b: Seq<u8>)
    ensures
        lex_le(a, b) || lex_le(b, a),
    decreases a.len(),
{
    if a.len() > 0 && b.len() > 0 && a[0] == b[0] {
        lemma_lex_le_total(a.drop_first(), b.drop_first());
    }
}

/// Byte strings ordered both ways are equal.
pub proof fn lemma_lex_le_antisym(a: Seq<u8>, b: Seq<u8>)
    requires
        lex_le(a, b),
        lex_le(b, a),
    ensures
        a == b,
    decreases a.len(),
{
    if a.len() == 0 {
        assert(b.len() == 0);
        assert(a =~= b);
    } else {
        assert(b.len() > 0);
        assert(a[0] == b[0]);
        lemma_lex_le_antisym(a.drop_first(), b.drop_first());
        assert(a.drop_first() == b.drop_first());
        assert(a.drop_first().len() == a.len() - 1);
        assert(b.drop_first().len() == b.len() - 1);
        assert(a.len() == b.len());
        assert forall|i: int| 0 <= i < a.len() implies a[i] == b[i] by {
            if i > 0 {
                assert(a[i] == a.drop_first()[i - 1]);
                assert(b[i] == b.drop_first()[i - 1]);
            }
        }
        assert(a =~= b);
    }
}

/// The order is transitive.
pub proof fn lemma_lex_le_trans(a: Seq<u8>, b: Seq<u8>, c: Seq<u8>)
    requires
        lex_le(a, b),
        lex_le(b, c),
    ensures
        lex_le(a, c),
    decreases a.len(),
{
    if a.len() > 0 {
        assert(b.len() > 0);
        if c.len() > 0 && a[0] == b[0] && b[0] == c[0] {
            lemma_lex_le_trans(a.drop_first(), b.drop_first(), c.drop_first());
        }
    }
}

/// Compare two byte slices for equality.
pub fn bytes_eq(a: &[u8], b: &[u8]) -> (r: bool)
    ensures
        r == (a@ == b@),
{
    if a.len() != b.len() {
        assert(a@ != b@);
        return false;
    }
    for i in 0..a.len()
        invariant
            a@.len() == b@.len(),
            forall|j: int| 0 <= j < i ==> a@[j] == b@[j],
    {
        if a[i] != b[i] {
            return false;
        }
    }
    assert(a@ =~= b@);
    true
}

/// Whether `a` comes no later than `b` in byte-wise lexicographic order.
pub fn bytes_le(a: &[u8], b: &[u8]) -> (r: bool)
    ensures
        r == lex_le(a@, b@),
{
    let n = if a.len() < b.len() {
        a.len()
    } else {
        b.len()
    };
    proof {
        assert(a@.skip(0) =~= a@);
        assert(b@.skip(0) =~= b@);
    }
    for i in 0..n
        invariant
            n == (if a@.len() < b@.len() {
                a@.len()
            } else {
                b@.len()
            }),
            forall|j: int| 0 <= j < i ==> a@[j] == b@[j],
            lex_le(a@, b@) == lex_le(a@.skip(i as int), b@.skip(i as int)),
    {
        proof {
            assert(a@.skip(i as int)[0] == a@[i as int]);
            assert(b@.skip(i as int)[0] == b@[i as int]);
            assert(a@.skip(i as int).drop_first() =~= a@.skip(i + 1));
            assert(b@.skip(i as int).drop_first() =~= b@.skip(i + 1));
        }
        if a[i] < b[i] {
            return true;
        }
        if a[i] > b[i] {
            return false;
        }
    }
    proof {
        if a@.len() <= b@.len() {
            assert(a@.skip(n as int).len() == 0);
        } else {
            assert(b@.skip(n as int).len() == 0);
            assert(a@.skip(n as int).len() > 0);
        }
    }
    a.len() <= b.len()
}

/// The first position of `k` among the live (id, title) pairs, or `-1`.
pub open spec fn live_find_key(live: Seq<(Seq<char>, Seq<char>)>, k: Seq<char>) -> int
    decreases live.len(),
{
    if live.len() == 0 {
        -1
    } else if live[0].0 == k {
        0
    } else {
        let r = live_find_key(live.drop_first(), k);
        if r == -1 {
            -1
        } else {
            r + 1
        }
    }
}

/// Whether some live pair carries id `k`.
pub open spec fn live_has_key(live: Seq<(Seq<char>, Seq<char>)>, k: Seq<char>) -> bool {
    exists|i: int| 0 <= i < live.len() && live[i].0 == k
}

/// No id occurs twice among the live pairs. The snapshot is a map keyed by
/// id, so this always holds of what is copied out of it.
pub open spec fn live_keys_unique(live: Seq<(Seq<char>, Seq<char>)>) -> bool {
    forall|i: int, j: int| 0 <= i < j < live.len() ==> live[i].0 != live[j].0
}

/// The title published for id `k`: the title of the first live pair with
/// that id.
pub open spec fn title_of(live: Seq<(Seq<char>, Seq<char>)>, k: Seq<char>) -> Seq<char> {
    live[live_find_key(live, k)].1
}

/// What `live_find_key` returns, mirroring `lemma_seq_find_key`.
pub proof fn lemma_live_find_key(live: Seq<(Seq<char>, Seq<char>)>, k: Seq<char>)
    ensures
        live_find_key(live, k) >= -1,
        live_find_key(live, k) == -1 <==> !live_has_key(live, k),
        live_find_key(live, k) >= 0 ==> {
            &&& live_find_key(live, k) < live.len()
            &&& live[live_find_key(live, k)].0 == k
            &&& forall|j: int| 0 <= j < live_find_key(live, k) ==> live[j].0 != k
        },
    decreases live.len(),
{
    if live.len() == 0 {
        assert(!live_has_key(live, k));
    } else if live[0].0 == k {
        assert(live_has_key(live, k));
    } else {
        let t = live.drop_first();
        lemma_live_find_key(t, k);
        let r = live_find_key(t, k);
        assert(forall|i: int| 0 <= i < t.len() ==> t[i] == live[i + 1]);
        if r == -1 {
            assert forall|i: int| 0 <= i < live.len() implies live[i].0 != k by {
                if i > 0 {
                    assert(t[i - 1] == live[i]);
                }
            }
            assert(!live_has_key(live, k));
        } else {
            assert(0 <= r < t.len() && t[r].0 == k);
            assert(live[r + 1].0 == k);
            assert(live_has_key(live, k));
            assert forall|j: int| 0 <= j < r + 1 implies live[j].0 != k by {
                if j > 0 {
                    assert(t[j - 1] == live[j]);
                }
            }
        }
    }
}

/// The deep view of a live list indexes to the views of its pairs.
pub proof fn lemma_live_deep_view(v: Vec<(String, String)>)
    ensures
        v.deep_view().len() == v@.len(),
        forall|j: int|
            0 <= j < v@.len() ==> #[trigger] v.deep_view()[j] == (v@[j].0@, v@[j].1@),
{
    assert forall|j: int|
        0 <= j < v@.len() implies #[trigger] v.deep_view()[j] == (v@[j].0@, v@[j].1@) by {
        assert(v.deep_view()[j] == v@[j].deep_view());
    }
}

/// Find a live pair by id.
pub fn live_find(live: &Vec<(String, String)>, k: &String) -> (r: Option<usize>)
    ensures
        match r {
            Some(i) => i as int == live_find_key(live.deep_view(), k@) && i
                < live.deep_view().len(),
            None => live_find_key(live.deep_view(), k@) == -1,
        },
{
    let ghost lv = live.deep_view();
    proof {
        lemma_live_deep_view(*live);
        lemma_live_find_key(lv, k@);
    }
    let n = live.len();
    for i in 0..n
        invariant
            n == lv.len(),
            lv == live.deep_view(),
            forall|j: int| 0 <= j < lv.len() ==> #[trigger] lv[j] == (live@[j].0@, live@[j].1@),
            forall|j: int| 0 <= j < i ==> (#[trigger] lv[j]).0 != k@,
            live_find_key(lv, k@) >= -1,
            live_find_key(lv, k@) == -1 <==> !live_has_key(lv, k@),
            live_find_key(lv, k@) >= 0 ==> {
                &&& live_find_key(lv, k@) < lv.len()
                &&& lv[live_find_key(lv, k@)].0 == k@
                &&& forall|j: int| 0 <= j < live_find_key(lv, k@) ==> lv[j].0 != k@
            },
    {
        if live[i].0.eq(k) {
            proof {
                assert(lv[i as int].0 == k@);
                assert(live_has_key(lv, k@));
                let f = live_find_key(lv, k@);
                if f < i as int {
                    assert(lv[f].0 != k@);
                    assert(false);
                } else if f > i as int {
                    assert(lv[i as int].0 != k@);
                    assert(false);
                }
            }
            return Some(i);
        }
    }
    proof {
        if live_has_key(lv, k@) {
            let w = choose|w: int| 0 <= w < lv.len() && lv[w].0 == k@;
            assert(false);
        }
    }
    None
}

/// The title published for `k`, looked up among the live pairs.
pub fn live_title<'a>(live: &'a Vec<(String, String)>, k: &String) -> (r: &'a String)
    requires
        live_has_key(live.deep_view(), k@),
    ensures
        r@ == title_of(live.deep_view(), k@),
{
    proof {
        lemma_live_deep_view(*live);
        lemma_live_find_key(live.deep_view(), k@);
    }
    match live_find(live, k) {
        Some(i) => &live[i].1,
        None => unreached(),
    }
}

/// Entries ordered by published title, ties broken by id, both compared as
/// UTF-8 bytes.
pub open spec fn pair_le(live: Seq<(Seq<char>, Seq<char>)>, a: Seq<char>, b: Seq<char>) -> bool {
    let ta = encode_utf8(title_of(live, a));
    let tb = encode_utf8(title_of(live, b));
    if ta == tb {
        lex_le(encode_utf8(a), encode_utf8(b))
    } else {
        lex_le(ta, tb)
    }
}

/// The display order is total.
pub proof fn lemma_pair_le_total(live: Seq<(Seq<char>, Seq<char>)>, a: Seq<char>, b: Seq<char>)
    ensures
        pair_le(live, a, b) || pair_le(live, b, a),
{
    let ta = encode_utf8(title_of(live, a));
    let tb = encode_utf8(title_of(live, b));
    if ta == tb {
        lemma_lex_le_total(encode_utf8(a), encode_utf8(b));
    } else {
        lemma_lex_le_total(ta, tb);
    }
}

/// The display order is transitive.
pub proof fn lemma_pair_le_trans(
    live: Seq<(Seq<char>, Seq<char>)>,
    a: Seq<char>,
    b: Seq<char>,
    c: Seq<char>,
)
    requires
        pair_le(live, a, b),
        pair_le(live, b, c),
    ensures
        pair_le(live, a, c),
{
    let ta = encode_utf8(title_of(live, a));
    let tb = encode_utf8(title_of(live, b));
    let tc = encode_utf8(title_of(live, c));
    if ta == tb && tb == tc {
        lemma_lex_le_trans(encode_utf8(a), encode_utf8(b), encode_utf8(c));
    } else if ta == tb {
        assert(lex_le(tb, tc));
    } else if tb == tc {
        assert(lex_le(ta, tb));
    } else {
        lemma_lex_le_trans(ta, tb, tc);
        if ta == tc {
            lemma_lex_le_antisym(ta, tb);
            assert(false);
        }
    }
}

/// The surviving entries: those of `old` whose id is still live, in their
/// old order, with their old state.
pub open spec fn survivors(
    old: Seq<(Seq<char>, SniStateView)>,
    live: Seq<(Seq<char>, Seq<char>)>,
) -> Seq<(Seq<char>, SniStateView)>
    decreases old.len(),
{
    if old.len() == 0 {
        Seq::empty()
    } else {
        let rest = survivors(old.drop_first(), live);
        if live_has_key(live, old[0].0) {
            seq![old[0]] + rest
        } else {
            rest
        }
    }
}

/// The freshly created entries: one per live id absent from `old`, in live
/// order, each with a fresh state.
pub open spec fn additions(
    old: Seq<(Seq<char>, SniStateView)>,
    live: Seq<(Seq<char>, Seq<char>)>,
) -> Seq<(Seq<char>, SniStateView)>
    decreases live.len(),
{
    if live.len() == 0 {
        Seq::empty()
    } else {
        let rest = additions(old, live.drop_first());
        if !has_key(old, live[0].0) {
            seq![(live[0].0, SniStateView::fresh())] + rest
        } else {
            rest
        }
    }
}

/// The reconciled registry before any reordering: survivors in their old
/// order, then the fresh entries in live order.
pub open spec fn reconcile_base(
    old: Seq<(Seq<char>, SniStateView)>,
    live: Seq<(Seq<char>, Seq<char>)>,
) -> Seq<(Seq<char>, SniStateView)> {
    survivors(old, live) + additions(old, live)
}

/// The registry's id set equals the live id set: every registry key is
/// live and every live id is registered. Content equality, not a size
/// comparison: an add and a remove of equal count must not pass.
pub open spec fn same_key_set(
    s: Seq<(Seq<char>, SniStateView)>,
    live: Seq<(Seq<char>, Seq<char>)>,
) -> bool {
    &&& forall|i: int| 0 <= i < s.len() ==> live_has_key(live, (#[trigger] s[i]).0)
    &&& forall|i: int| 0 <= i < live.len() ==> has_key(s, (#[trigger] live[i]).0)
}

/// Entries stand in display order: by published title, ties by id.
pub open spec fn sorted_by_title(
    s: Seq<(Seq<char>, SniStateView)>,
    live: Seq<(Seq<char>, Seq<char>)>,
) -> bool {
    forall|i: int, j: int| 0 <= i < j < s.len() ==> pair_le(live, s[i].0, s[j].0)
}

/// An entry without its focus flag: reconciliation promises nothing about
/// flags, the focus rules pin them separately.
pub open spec fn strip(s: Seq<(Seq<char>, SniStateView)>) -> Seq<
    (Seq<char>, crate::wrappers::Rect, crate::tree::TreeStateView),
> {
    s.map(
        |i: int, e: (Seq<char>, SniStateView)| (e.0, e.1.rect, e.1.tree_state),
    )
}

/// What one reconciliation step does to the registry contents, focus flags
/// aside. When the live id set already equals the registry's, nothing is
/// touched. Otherwise the contents become the reconciled base; with sorting
/// enabled, the same entries in display order.
pub open spec fn reconcile_rel(
    old: Seq<(Seq<char>, SniStateView)>,
    live: Seq<(Seq<char>, Seq<char>)>,
    sorting: bool,
    new: Seq<(Seq<char>, SniStateView)>,
) -> bool {
    if same_key_set(old, live) {
        strip(new) == strip(old)
    } else if !sorting {
        strip(new) == strip(reconcile_base(old, live))
    } else {
        &&& strip(new).to_multiset() == strip(reconcile_base(old, live)).to_multiset()
        &&& sorted_by_title(new, live)
    }
}

/// What the survivor list holds: exactly the old entries with live ids,
/// as values taken from `old`, with old's key uniqueness kept.
pub proof fn lemma_survivors_props(
    old: Seq<(Seq<char>, SniStateView)>,
    live: Seq<(Seq<char>, Seq<char>)>,
)
    ensures
        forall|i: int|
            0 <= i < survivors(old, live).len() ==> old.contains(
                #[trigger] survivors(old, live)[i],
            ) && live_has_key(live, survivors(old, live)[i].0),
        forall|j: int|
            0 <= j < old.len() && live_has_key(live, (#[trigger] old[j]).0) ==> survivors(
                old,
                live,
            ).contains(old[j]),
        forall|k: Seq<char>|
            #[trigger] has_key(survivors(old, live), k) ==> has_key(old, k) && live_has_key(
                live,
                k,
            ),
        keys_unique(old) ==> keys_unique(survivors(old, live)),
    decreases old.len(),
{
    if old.len() > 0 {
        let t = old.drop_first();
        lemma_survivors_props(t, live);
        let rest = survivors(t, live);
        let s = survivors(old, live);
        assert(forall|i: int| 0 <= i < t.len() ==> t[i] == old[i + 1]);
        assert forall|i: int| 0 <= i < rest.len() implies old.contains(#[trigger] rest[i])
            && live_has_key(live, rest[i].0) by {
            assert(t.contains(rest[i]));
            let w = choose|w: int| 0 <= w < t.len() && t[w] == rest[i];
            assert(old[w + 1] == rest[i]);
        }
        if live_has_key(live, old[0].0) {
            assert(s == seq![old[0]] + rest);
            assert(s[0] == old[0]);
            assert(forall|i: int| 1 <= i < s.len() ==> s[i] == rest[i - 1]);
            assert(old.contains(old[0]));
            assert forall|j: int|
                0 <= j < old.len() && live_has_key(live, (#[trigger] old[j]).0) implies s.contains(
                old[j],
            ) by {
                if j == 0 {
                    assert(s[0] == old[0]);
                } else {
                    assert(t[j - 1] == old[j]);
                    assert(rest.contains(old[j]));
                    let w = choose|w: int| 0 <= w < rest.len() && rest[w] == old[j];
                    assert(s[w + 1] == old[j]);
                }
            }
            assert forall|k: Seq<char>| #[trigger] has_key(s, k) implies has_key(old, k)
                && live_has_key(live, k) by {
                let w = choose|w: int| 0 <= w < s.len() && s[w].0 == k;
                if w == 0 {
                    assert(old[0].0 == k);
                } else {
                    assert(rest[w - 1].0 == k);
                    assert(has_key(rest, k));
                    let v = choose|v: int| 0 <= v < t.len() && t[v].0 == k;
                    assert(old[v + 1].0 == k);
                }
            }
            if keys_unique(old) {
                assert(keys_unique(t)) by {
                    assert(forall|a: int, b: int|
                        0 <= a < b < t.len() ==> t[a] == old[a + 1] && t[b] == old[b + 1]);
                }
                assert forall|a: int, b: int| 0 <= a < b < s.len() implies s[a].0 != s[b].0 by {
                    if a == 0 {
                        assert(s[b] == rest[b - 1]);
                        assert(t.contains(rest[b - 1]));
                        let w = choose|w: int| 0 <= w < t.len() && t[w] == rest[b - 1];
                        assert(old[w + 1] == s[b]);
                        assert(old[0].0 != old[w + 1].0);
                    } else {
                        assert(s[a] == rest[a - 1] && s[b] == rest[b - 1]);
                    }
                }
            }
        } else {
            assert(s == rest);
            assert forall|j: int|
                0 <= j < old.len() && live_has_key(live, (#[trigger] old[j]).0) implies s.contains(
                old[j],
            ) by {
                assert(j != 0);
                assert(t[j - 1] == old[j]);
            }
            assert forall|k: Seq<char>| #[trigger] has_key(s, k) implies has_key(old, k)
                && live_has_key(live, k) by {
                let v = choose|v: int| 0 <= v < t.len() && t[v].0 == k;
                assert(old[v + 1].0 == k);
            }
            if keys_unique(old) {
                assert(keys_unique(t)) by {
                    assert(forall|a: int, b: int|
                        0 <= a < b < t.len() ==> t[a] == old[a + 1] && t[b] == old[b + 1]);
                }
            }
        }
    }
}

/// What the addition list holds: one fresh entry per live id absent from
/// `old`, with live's id uniqueness kept.
pub proof fn lemma_additions_props(
    old: Seq<(Seq<char>, SniStateView)>,
    live: Seq<(Seq<char>, Seq<char>)>,
)
    ensures
        forall|i: int|
            0 <= i < additions(old, live).len() ==> {
                &&& (#[trigger] additions(old, live)[i]).1 == SniStateView::fresh()
                &&& live_has_key(live, additions(old, live)[i].0)
                &&& !has_key(old, additions(old, live)[i].0)
            },
        forall|j: int|
            0 <= j < live.len() && !has_key(old, (#[trigger] live[j]).0) ==> has_key(
                additions(old, live),
                live[j].0,
            ),
        live_keys_unique(live) ==> keys_unique(additions(old, live)),
    decreases live.len(),
{
    if live.len() > 0 {
        let t = live.drop_first();
        lemma_additions_props(old, t);
        let rest = additions(old, t);
        let s = additions(old, live);
        assert(forall|i: int| 0 <= i < t.len() ==> t[i] == live[i + 1]);
        assert forall|i: int| 0 <= i < rest.len() implies live_has_key(
            live,
            (#[trigger] rest[i]).0,
        ) by {
            assert(live_has_key(t, rest[i].0));
            let w = choose|w: int| 0 <= w < t.len() && t[w].0 == rest[i].0;
            assert(live[w + 1].0 == rest[i].0);
        }
        if !has_key(old, live[0].0) {
            assert(s == seq![(live[0].0, SniStateView::fresh())] + rest);
            assert(s[0] == (live[0].0, SniStateView::fresh()));
            assert(forall|i: int| 1 <= i < s.len() ==> s[i] == rest[i - 1]);
            assert forall|j: int|
                0 <= j < live.len() && !has_key(old, (#[trigger] live[j]).0) implies has_key(
                s,
                live[j].0,
            ) by {
                if j == 0 {
                    assert(s[0].0 == live[0].0);
                } else {
                    assert(t[j - 1] == live[j]);
                    assert(has_key(rest, live[j].0));
                    let w = choose|w: int| 0 <= w < rest.len() && rest[w].0 == live[j].0;
                    assert(s[w + 1].0 == live[j].0);
                }
            }
            if live_keys_unique(live) {
                assert(live_keys_unique(t)) by {
                    assert(forall|a: int, b: int|
                        0 <= a < b < t.len() ==> t[a] == live[a + 1] && t[b] == live[b + 1]);
                }
                assert forall|a: int, b: int| 0 <= a < b < s.len() implies s[a].0 != s[b].0 by {
                    if a == 0 {
                        assert(s[b] == rest[b - 1]);
                        assert(live_has_key(t, rest[b - 1].0));
                        let w = choose|w: int| 0 <= w < t.len() && t[w].0 == rest[b - 1].0;
                        assert(live[w + 1].0 == s[b].0);
                        assert(live[0].0 != live[w + 1].0);
                    } else {
                        assert(s[a] == rest[a - 1] && s[b] == rest[b - 1]);
                    }
                }
            }
        } else {
            assert(s == rest);
            assert forall|j: int|
                0 <= j < live.len() && !has_key(old, (#[trigger] live[j]).0) implies has_key(
                s,
                live[j].0,
            ) by {
                assert(j != 0);
                assert(t[j - 1] == live[j]);
            }
            if live_keys_unique(live) {
                assert(live_keys_unique(t)) by {
                    assert(forall|a: int, b: int|
                        0 <= a < b < t.len() ==> t[a] == live[a + 1] && t[b] == live[b + 1]);
                }
            }
        }
    }
}

/// A key is in a concatenation exactly when it is in one of the parts.
pub proof fn lemma_has_key_concat(
    a: Seq<(Seq<char>, SniStateView)>,
    b: Seq<(Seq<char>, SniStateView)>,
    k: Seq<char>,
)
    ensures
        has_key(a + b, k) <==> (has_key(a, k) || has_key(b, k)),
{
    if has_key(a, k) {
        let w = choose|w: int| 0 <= w < a.len() && a[w].0 == k;
        assert((a + b)[w].0 == k);
    }
    if has_key(b, k) {
        let w = choose|w: int| 0 <= w < b.len() && b[w].0 == k;
        assert((a + b)[a.len() + w].0 == k);
    }
    if has_key(a + b, k) {
        let w = choose|w: int| 0 <= w < (a + b).len() && (a + b)[w].0 == k;
        if w < a.len() {
            assert(a[w].0 == k);
        } else {
            assert(b[w - a.len()].0 == k);
        }
    }
}

/// What the reconciled base holds, key for key: exactly the live ids; the
/// state of an id that survived is its old state, that of a new id is
/// fresh; and no key occurs twice.
pub proof fn lemma_base_props(
    old: Seq<(Seq<char>, SniStateView)>,
    live: Seq<(Seq<char>, Seq<char>)>,
)
    requires
        keys_unique(old),
        live_keys_unique(live),
    ensures
        forall|k: Seq<char>| #[trigger]
            has_key(reconcile_base(old, live), k) <==> live_has_key(live, k),
        keys_unique(reconcile_base(old, live)),
        forall|j: int|
            0 <= j < old.len() && live_has_key(live, (#[trigger] old[j]).0) ==> reconcile_base(
                old,
                live,
            ).contains(old[j]),
        forall|i: int|
            0 <= i < reconcile_base(old, live).len() && has_key(
                old,
                (#[trigger] reconcile_base(old, live)[i]).0,
            ) ==> old.contains(reconcile_base(old, live)[i]),
        forall|i: int|
            0 <= i < reconcile_base(old, live).len() && !has_key(
                old,
                (#[trigger] reconcile_base(old, live)[i]).0,
            ) ==> reconcile_base(old, live)[i].1 == SniStateView::fresh(),
{
    lemma_survivors_props(old, live);
    lemma_additions_props(old, live);
    let sv = survivors(old, live);
    let ad = additions(old, live);
    let base = reconcile_base(old, live);
    assert(base == sv + ad);
    assert(forall|i: int| 0 <= i < sv.len() ==> base[i] == sv[i]);
    assert(forall|i: int| 0 <= i < ad.len() ==> base[sv.len() + i] == ad[i]);
    assert forall|k: Seq<char>| #[trigger]
        has_key(base, k) <==> live_has_key(live, k) by {
        lemma_has_key_concat(sv, ad, k);
        if has_key(sv, k) {
        }
        if has_key(ad, k) {
            let w = choose|w: int| 0 <= w < ad.len() && ad[w].0 == k;
            assert(live_has_key(live, ad[w].0));
        }
        if live_has_key(live, k) {
            let w = choose|w: int| 0 <= w < live.len() && live[w].0 == k;
            if has_key(old, k) {
                let v = choose|v: int| 0 <= v < old.len() && old[v].0 == k;
                assert(live_has_key(live, old[v].0));
                assert(sv.contains(old[v]));
                let u = choose|u: int| 0 <= u < sv.len() && sv[u] == old[v];
                assert(has_key(sv, k));
            } else {
                assert(has_key(ad, live[w].0));
            }
        }
    }
    assert forall|a: int, b: int| 0 <= a < b < base.len() implies base[a].0 != base[b].0 by {
        if b < sv.len() {
            assert(base[a] == sv[a] && base[b] == sv[b]);
        } else if a >= sv.len() {
            assert(base[a] == ad[a - sv.len()] && base[b] == ad[b - sv.len()]);
        } else {
            assert(base[a] == sv[a] && base[b] == ad[b - sv.len()]);
            assert(has_key(old, sv[a].0)) by {
                assert(has_key(sv, sv[a].0));
            }
            assert(!has_key(old, ad[b - sv.len()].0));
        }
    }
    assert forall|j: int|
        0 <= j < old.len() && live_has_key(live, (#[trigger] old[j]).0) implies base.contains(
        old[j],
    ) by {
        assert(sv.contains(old[j]));
        let w = choose|w: int| 0 <= w < sv.len() && sv[w] == old[j];
        assert(base[w] == old[j]);
    }
    assert forall|i: int|
        0 <= i < base.len() && has_key(old, (#[trigger] base[i]).0) implies old.contains(
        base[i],
    ) by {
        if i < sv.len() {
            assert(old.contains(sv[i]));
        } else {
            assert(!has_key(old, ad[i - sv.len()].0));
        }
    }
    assert forall|i: int|
        0 <= i < base.len() && !has_key(old, (#[trigger] base[i]).0) implies base[i].1
        == SniStateView::fresh() by {
        if i < sv.len() {
            assert(old.contains(sv[i]));
            let w = choose|w: int| 0 <= w < old.len() && old[w] == sv[i];
            assert(old[w].0 == base[i].0);
        } else {
            assert(base[i] == ad[i - sv.len()]);
        }
    }
}

/// Indexing into a stripped sequence.
pub proof fn lemma_strip_index(s: Seq<(Seq<char>, SniStateView)>)
    ensures
        strip(s).len() == s.len(),
        forall|i: int|
            0 <= i < s.len() ==> #[trigger] strip(s)[i] == (s[i].0, s[i].1.rect, s[i].1.tree_state),
{
}

/// An element occurring at two positions counts at least twice.
proof fn lemma_dup_count<A>(s: Seq<A>, i: int, j: int)
    requires
        0 <= i < j < s.len(),
        s[i] == s[j],
    ensures
        s.to_multiset().count(s[i]) >= 2,
{
    broadcast use vstd::seq_lib::group_to_multiset_ensures;
    broadcast use vstd::multiset::group_multiset_axioms;

    let s2 = s.remove(i);
    assert(s2.to_multiset() =~= s.to_multiset().remove(s[i]));
    assert(s2[j - 1] == s[j]);
    assert(s2.contains(s[j]));
    assert(s2.to_multiset().count(s[j]) > 0);
    assert(s.to_multiset().count(s[i]) == s2.to_multiset().count(s[i]) + 1);
}

/// Law: after one reconciliation step the registry's id set equals the
/// live id set exactly, whatever the prior state, and no key is doubled.
pub proof fn lemma_rel_key_set(
    old: Seq<(Seq<char>, SniStateView)>,
    live: Seq<(Seq<char>, Seq<char>)>,
    sorting: bool,
    new: Seq<(Seq<char>, SniStateView)>,
)
    requires
        keys_unique(old),
        live_keys_unique(live),
        reconcile_rel(old, live, sorting, new),
    ensures
        forall|k: Seq<char>| #[trigger] has_key(new, k) <==> live_has_key(live, k),
        keys_unique(new),
{
    lemma_strip_index(old);
    lemma_strip_index(new);
    lemma_base_props(old, live);
    let base = reconcile_base(old, live);
    lemma_strip_index(base);
    if same_key_set(old, live) {
        assert(new.len() == old.len());
        assert forall|i: int| 0 <= i < new.len() implies (#[trigger] new[i]).0 == old[i].0 by {
            assert(strip(new)[i] == strip(old)[i]);
        }
        assert forall|k: Seq<char>| #[trigger] has_key(new, k) <==> live_has_key(live, k) by {
            if has_key(new, k) {
                let w = choose|w: int| 0 <= w < new.len() && new[w].0 == k;
                assert(live_has_key(live, old[w].0));
            }
            if live_has_key(live, k) {
                let w = choose|w: int| 0 <= w < live.len() && live[w].0 == k;
                assert(has_key(old, live[w].0));
                let v = choose|v: int| 0 <= v < old.len() && old[v].0 == k;
                assert(new[v].0 == k);
            }
        }
        assert(keys_unique(new));
    } else if !sorting {
        assert(new.len() == base.len());
        assert forall|i: int| 0 <= i < new.len() implies (#[trigger] new[i]).0 == base[i].0 by {
            assert(strip(new)[i] == strip(base)[i]);
        }
        assert forall|k: Seq<char>| #[trigger] has_key(new, k) <==> live_has_key(live, k) by {
            if has_key(new, k) {
                let w = choose|w: int| 0 <= w < new.len() && new[w].0 == k;
                assert(has_key(base, base[w].0));
            }
            if live_has_key(live, k) {
                assert(has_key(base, k));
                let v = choose|v: int| 0 <= v < base.len() && base[v].0 == k;
                assert(new[v].0 == k);
            }
        }
        assert(keys_unique(new));
    } else {
        broadcast use vstd::seq_lib::group_to_multiset_ensures;

        assert forall|k: Seq<char>| #[trigger] has_key(new, k) implies live_has_key(live, k) by {
            let w = choose|w: int| 0 <= w < new.len() && new[w].0 == k;
            let x = strip(new)[w];
            assert(strip(new).contains(x));
            assert(strip(base).to_multiset().count(x) > 0);
            assert(strip(base).contains(x));
            let v = choose|v: int| 0 <= v < strip(base).len() && strip(base)[v] == x;
            assert(base[v].0 == k);
            assert(has_key(base, k));
        }
        assert forall|k: Seq<char>| live_has_key(live, k) implies #[trigger] has_key(new, k) by {
            assert(has_key(base, k));
            let v = choose|v: int| 0 <= v < base.len() && base[v].0 == k;
            let x = strip(base)[v];
            assert(strip(base).contains(x));
            assert(strip(new).to_multiset().count(x) > 0);
            assert(strip(new).contains(x));
            let w = choose|w: int| 0 <= w < strip(new).len() && strip(new)[w] == x;
            assert(new[w].0 == k);
        }
        assert(strip(base).no_duplicates()) by {
            assert forall|a: int, b: int|
                0 <= a < b < strip(base).len() implies strip(base)[a] != strip(base)[b] by {
                assert(base[a].0 != base[b].0);
            }
        }
        assert forall|a: int, b: int| 0 <= a < b < new.len() implies (#[trigger] new[a]).0 != (
        #[trigger] new[b]).0 by {
            let x = strip(new)[a];
            let y = strip(new)[b];
            if x == y {
                lemma_dup_count(strip(new), a, b);
                assert(strip(base).to_multiset().count(x) >= 2);
                assert(strip(base).contains(x));
                strip(base).lemma_multiset_has_no_duplicates();
                assert(false);
            } else if new[a].0 == new[b].0 {
                assert(strip(new).contains(x));
                assert(strip(base).to_multiset().count(x) > 0);
                assert(strip(base).contains(x));
                assert(strip(new).contains(y));
                assert(strip(base).to_multiset().count(y) > 0);
                assert(strip(base).contains(y));
                let u = choose|u: int| 0 <= u < strip(base).len() && strip(base)[u] == x;
                let v = choose|v: int| 0 <= v < strip(base).len() && strip(base)[v] == y;
                assert(u != v);
                assert(base[u].0 == base[v].0);
                assert(false);
            }
        }
    }
}

/// Law: reconciling twice with the same live set is idempotent. The second
/// step finds the id sets already equal and leaves every entry untouched.
pub proof fn lemma_reconcile_idempotent(
    old: Seq<(Seq<char>, SniStateView)>,
    live: Seq<(Seq<char>, Seq<char>)>,
    sorting: bool,
    s1: Seq<(Seq<char>, SniStateView)>,
    s2: Seq<(Seq<char>, SniStateView)>,
)
    requires
        keys_unique(old),
        live_keys_unique(live),
        reconcile_rel(old, live, sorting, s1),
        reconcile_rel(s1, live, sorting, s2),
    ensures
        strip(s2) == strip(s1),
{
    lemma_rel_key_set(old, live, sorting, s1);
    assert forall|i: int| 0 <= i < s1.len() implies live_has_key(live, (#[trigger] s1[i]).0) by {
        assert(has_key(s1, s1[i].0));
    }
    assert forall|i: int| 0 <= i < live.len() implies has_key(s1, (#[trigger] live[i]).0) by {
        assert(live_has_key(live, live[i].0));
    }
    assert(same_key_set(s1, live));
}

/// Law: a surviving entry keeps its rectangle and its tree state through
/// reconciliation; only its focus flag is subject to the focus rules.
pub proof fn lemma_rel_preserves_survivors(
    old: Seq<(Seq<char>, SniStateView)>,
    live: Seq<(Seq<char>, Seq<char>)>,
    sorting: bool,
    new: Seq<(Seq<char>, SniStateView)>,
)
    requires
        keys_unique(old),
        live_keys_unique(live),
        reconcile_rel(old, live, sorting, new),
    ensures
        forall|j: int, i: int|
            0 <= j < old.len() && live_has_key(live, (#[trigger] old[j]).0) && 0 <= i < new.len()
                && (#[trigger] new[i]).0 == old[j].0 ==> new[i].1.rect == old[j].1.rect
                && new[i].1.tree_state == old[j].1.tree_state,
{
    lemma_strip_index(old);
    lemma_strip_index(new);
    lemma_base_props(old, live);
    let base = reconcile_base(old, live);
    lemma_strip_index(base);
    assert forall|j: int, i: int|
        0 <= j < old.len() && live_has_key(live, (#[trigger] old[j]).0) && 0 <= i < new.len() && (
        #[trigger] new[i]).0 == old[j].0 implies new[i].1.rect == old[j].1.rect
        && new[i].1.tree_state == old[j].1.tree_state by {
        if same_key_set(old, live) {
            assert(strip(new)[i] == strip(old)[i]);
            assert(new[i].0 == old[i].0);
            if i != j {
                assert(old[i].0 != old[j].0);
                assert(false);
            }
        } else {
            let u: int = if !sorting {
                assert(strip(new)[i] == strip(base)[i]);
                i
            } else {
                broadcast use vstd::seq_lib::group_to_multiset_ensures;

                let x = strip(new)[i];
                assert(strip(new).contains(x));
                assert(strip(base).to_multiset().count(x) > 0);
                assert(strip(base).contains(x));
                choose|u: int| 0 <= u < strip(base).len() && strip(base)[u] == x
            };
            assert(strip(new)[i] == strip(base)[u]);
            assert(base[u].0 == old[j].0);
            assert(has_key(old, base[u].0));
            assert(old.contains(base[u]));
            let w = choose|w: int| 0 <= w < old.len() && old[w] == base[u];
            if w != j {
                assert(old[w].0 != old[j].0);
                assert(false);
            }
            assert(base[u].1 == old[j].1);
        }
    }
}

/// Every tree state in the reconciled registry is well-formed: survivors
/// keep their old (well-formed) state and new entries start fresh.
pub proof fn lemma_rel_trees_wf(
    old: Seq<(Seq<char>, SniStateView)>,
    live: Seq<(Seq<char>, Seq<char>)>,
    sorting: bool,
    new: Seq<(Seq<char>, SniStateView)>,
)
    requires
        keys_unique(old),
        live_keys_unique(live),
        reconcile_rel(old, live, sorting, new),
        forall|i: int| 0 <= i < old.len() ==> (#[trigger] old[i]).1.tree_state.wf(),
    ensures
        forall|i: int| 0 <= i < new.len() ==> (#[trigger] new[i]).1.tree_state.wf(),
{
    lemma_strip_index(old);
    lemma_strip_index(new);
    lemma_base_props(old, live);
    let base = reconcile_base(old, live);
    lemma_strip_index(base);
    assert forall|i: int| 0 <= i < new.len() implies (#[trigger] new[i]).1.tree_state.wf() by {
        if same_key_set(old, live) {
            assert(strip(new)[i] == strip(old)[i]);
        } else {
            let u: int = if !sorting {
                assert(strip(new)[i] == strip(base)[i]);
                i
            } else {
                broadcast use vstd::seq_lib::group_to_multiset_ensures;

                let x = strip(new)[i];
                assert(strip(new).contains(x));
                assert(strip(base).to_multiset().count(x) > 0);
                assert(strip(base).contains(x));
                choose|u: int| 0 <= u < strip(base).len() && strip(base)[u] == x
            };
            assert(strip(new)[i] == strip(base)[u]);
            assert(new[i].1.tree_state == base[u].1.tree_state);
            if has_key(old, base[u].0) {
                assert(old.contains(base[u]));
                let w = choose|w: int| 0 <= w < old.len() && old[w] == base[u];
                assert(base[u].1.tree_state == old[w].1.tree_state);
            } else {
                assert(base[u].1 == SniStateView::fresh());
            }
        }
    }
}

/// Compare two registry entries in display order.
pub fn entry_le(live: &Vec<(String, String)>, a: &(String, SniState), b: &(String, SniState)) -> (r:
    bool)
    requires
        live_has_key(live.deep_view(), a.0@),
        live_has_key(live.deep_view(), b.0@),
    ensures
        r == pair_le(live.deep_view(), a.0@, b.0@),
{
    let ta = live_title(live, &a.0);
    let tb = live_title(live, &b.0);
    let tab = ta.as_str().as_bytes();
    let tbb = tb.as_str().as_bytes();
    if bytes_eq(tab, tbb) {
        bytes_le(a.0.as_str().as_bytes(), b.0.as_str().as_bytes())
    } else {
        bytes_le(tab, tbb)
    }
}

/// The order is reflexive.
pub proof fn lemma_lex_le_refl(a: Seq<u8>)
    ensures
        lex_le(a, a),
    decreases a.len(),
{
    if a.len() > 0 {
        lemma_lex_le_refl(a.drop_first());
    }
}

/// The display order is reflexive.
pub proof fn lemma_pair_le_refl(live: Seq<(Seq<char>, Seq<char>)>, a: Seq<char>)
    ensures
        pair_le(live, a, a),
{
    lemma_lex_le_refl(encode_utf8(title_of(live, a)));
    lemma_lex_le_refl(encode_utf8(a));
}

/// The position of an entry that comes no later than every other in
/// display order.
fn min_entry_index(live: &Vec<(String, String)>, v: &Vec<(String, SniState)>) -> (r: usize)
    requires
        v@.len() > 0,
        forall|i: int| 0 <= i < v@.len() ==> live_has_key(live.deep_view(), (#[trigger] v@[i]).0@),
    ensures
        r < v@.len(),
        forall|j: int|
            0 <= j < v@.len() ==> pair_le(live.deep_view(), v@[r as int].0@, (#[trigger] v@[j]).0@),
{
    let ghost lv = live.deep_view();
    let mut best: usize = 0;
    proof {
        lemma_pair_le_refl(lv, v@[0].0@);
    }
    let n = v.len();
    for i in 1..n
        invariant
            n == v@.len(),
            best < i <= n,
            lv == live.deep_view(),
            forall|i2: int|
                0 <= i2 < v@.len() ==> live_has_key(live.deep_view(), (#[trigger] v@[i2]).0@),
            forall|j: int| 0 <= j < i ==> pair_le(lv, v@[best as int].0@, (#[trigger] v@[j]).0@),
    {
        if !entry_le(live, &v[best], &v[i]) {
            proof {
                lemma_pair_le_total(lv, v@[best as int].0@, v@[i as int].0@);
                lemma_pair_le_refl(lv, v@[i as int].0@);
                assert forall|j: int|
                    0 <= j < i implies pair_le(lv, v@[i as int].0@, (#[trigger] v@[j]).0@) by {
                    lemma_pair_le_trans(lv, v@[i as int].0@, v@[best as int].0@, v@[j].0@);
                }
            }
            best = i;
        }
    }
    best
}

/// Sort registry entries into display order: by published title, ties by
/// id. The result is a permutation of the input.
pub fn sort_entries(live: &Vec<(String, String)>, v: Vec<(String, SniState)>) -> (r: Vec<
    (String, SniState),
>)
    requires
        forall|i: int| 0 <= i < v@.len() ==> live_has_key(live.deep_view(), (#[trigger] v@[i]).0@),
    ensures
        strip(entries_view(r@)).to_multiset() == strip(entries_view(v@)).to_multiset(),
        sorted_by_title(entries_view(r@), live.deep_view()),
{
    broadcast use vstd::seq_lib::group_to_multiset_ensures;
    broadcast use vstd::multiset::group_multiset_axioms;

    let ghost lv = live.deep_view();
    let ghost m0 = strip(entries_view(v@)).to_multiset();
    let mut rem = v;
    let mut out: Vec<(String, SniState)> = Vec::new();
    proof {
        lemma_strip_index(entries_view(v@));
        assert(entries_view(out@) =~= Seq::<(Seq<char>, SniStateView)>::empty());
        assert(strip(entries_view(out@)) =~= Seq::<
            (Seq<char>, crate::wrappers::Rect, crate::tree::TreeStateView),
        >::empty());
        assert(strip(entries_view(out@)).to_multiset() =~= Multiset::<
            (Seq<char>, crate::wrappers::Rect, crate::tree::TreeStateView),
        >::empty());
        assert(strip(entries_view(out@)).to_multiset().add(strip(entries_view(rem@)).to_multiset())
            =~= m0);
    }
    while rem.len() > 0
        invariant
            lv == live.deep_view(),
            strip(entries_view(out@)).to_multiset().add(strip(entries_view(rem@)).to_multiset())
                == m0,
            sorted_by_title(entries_view(out@), lv),
            forall|i: int, j: int|
                0 <= i < out@.len() && 0 <= j < rem@.len() ==> pair_le(
                    lv,
                    (#[trigger] out@[i]).0@,
                    (#[trigger] rem@[j]).0@,
                ),
            forall|i: int|
                0 <= i < rem@.len() ==> live_has_key(live.deep_view(), (#[trigger] rem@[i]).0@),
        decreases rem.len(),
    {
        let ghost rem0 = rem@;
        let ghost out0 = out@;
        let mi = min_entry_index(live, &rem);
        let e = rem.remove(mi);
        out.push(e);
        proof {
            lemma_strip_index(entries_view(rem0));
            lemma_strip_index(entries_view(rem@));
            lemma_strip_index(entries_view(out0));
            lemma_strip_index(entries_view(out@));
            assert(entries_view(rem@) =~= entries_view(rem0).remove(mi as int));
            assert(strip(entries_view(rem@)) =~= strip(entries_view(rem0)).remove(mi as int));
            assert(strip(entries_view(rem0))[mi as int] == (e.0@, e.1@.rect, e.1@.tree_state));
            vstd::seq_lib::to_multiset_remove(strip(entries_view(rem0)), mi as int);
            assert(strip(entries_view(rem@)).to_multiset() == strip(
                entries_view(rem0),
            ).to_multiset().remove((e.0@, e.1@.rect, e.1@.tree_state)));
            assert(entries_view(out@) =~= entries_view(out0).push((e.0@, e.1@)));
            assert(strip(entries_view(out@)) =~= strip(entries_view(out0)).push(
                (e.0@, e.1@.rect, e.1@.tree_state),
            ));
            vstd::seq_lib::to_multiset_build(
                strip(entries_view(out0)),
                (e.0@, e.1@.rect, e.1@.tree_state),
            );
            assert(strip(entries_view(out@)).to_multiset() =~= strip(
                entries_view(out0),
            ).to_multiset().insert((e.0@, e.1@.rect, e.1@.tree_state)));
            assert(strip(entries_view(rem0)).contains((e.0@, e.1@.rect, e.1@.tree_state)));
            vstd::seq_lib::to_multiset_contains(
                strip(entries_view(rem0)),
                (e.0@, e.1@.rect, e.1@.tree_state),
            );
            assert(strip(entries_view(rem0)).to_multiset().count(
                (e.0@, e.1@.rect, e.1@.tree_state),
            ) > 0);
            assert(strip(entries_view(out@)).to_multiset().add(
                strip(entries_view(rem@)).to_multiset(),
            ) =~= m0);
            assert(entries_view(out@).len() == out0.len() + 1);
            assert(forall|i: int|
                0 <= i < out0.len() ==> #[trigger] entries_view(out@)[i] == entries_view(out0)[i]);
            assert(entries_view(out@)[out0.len() as int] == (e.0@, e.1@));
            assert forall|i: int, j: int|
                0 <= i < j < entries_view(out@).len() implies pair_le(
                lv,
                (#[trigger] entries_view(out@)[i]).0,
                (#[trigger] entries_view(out@)[j]).0,
            ) by {
                if j == out0.len() {
                    assert(pair_le(lv, out0[i].0@, rem0[mi as int].0@));
                } else {
                    assert(pair_le(lv, entries_view(out0)[i].0, entries_view(out0)[j].0));
                }
            }
            assert forall|i: int, j: int|
                0 <= i < out@.len() && 0 <= j < rem@.len() implies pair_le(
                lv,
                (#[trigger] out@[i]).0@,
                (#[trigger] rem@[j]).0@,
            ) by {
                let jj: int = if j < mi as int {
                    j
                } else {
                    j + 1
                };
                assert(rem@[j] == rem0[jj]);
                if i < out0.len() {
                    assert(pair_le(lv, out0[i].0@, rem0[jj].0@));
                } else {
                    assert(out@[i] == e);
                    assert(pair_le(lv, rem0[mi as int].0@, rem0[jj].0@));
                }
            }
        }
    }
    proof {
        assert(entries_view(rem@) =~= Seq::<(Seq<char>, SniStateView)>::empty());
        assert(strip(entries_view(rem@)) =~= Seq::<
            (Seq<char>, crate::wrappers::Rect, crate::tree::TreeStateView),
        >::empty());
        assert(strip(entries_view(out@)).to_multiset().add(Multiset::empty()) =~= strip(
            entries_view(out@),
        ).to_multiset());
    }
    out
}

} // verus!

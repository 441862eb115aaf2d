//! The ordered registry store: an insertion-ordered map from entry id to
//! [`SniState`], kept in an `indexmap::IndexMap`.
//!
//! The map itself is outside code; everything the engine asks of it goes
//! through the small trusted functions below, whose contracts speak about
//! [`reg_seq`], the ordered sequence of (key view, state view) pairs the map
//! holds. All reconciliation and focus logic is verified against those
//! contracts.

use vstd::prelude::*;

use indexmap::IndexMap;

use crate::wrappers::{SniState, SniStateView};

verus! {

/// `indexmap::IndexMap`, declared so that it can stand in fields and
/// signatures. Values of it are opaque; the trusted functions below are the
/// only way the verified code reads or changes one.
#[verifier::external_type_specification]
#[verifier::external_body]
#[verifier::reject_recursive_types(K)]
#[verifier::reject_recursive_types(V)]
#[verifier::reject_recursive_types(S)]
pub struct ExIndexMap<K, V, S>(IndexMap<K, V, S>);

/// The ordered contents of the registry map: for each position, the key's
/// characters and the state's mathematical content.
pub uninterp spec fn reg_seq(m: IndexMap<String, SniState>) -> Seq<(Seq<char>, SniStateView)>;

/// The keys of an entry sequence, in order.
pub open spec fn reg_keys(s: Seq<(Seq<char>, SniStateView)>) -> Seq<Seq<char>> {
    s.map(|i: int, e: (Seq<char>, SniStateView)| e.0)
}

/// No key occurs twice. Every reachable registry satisfies this: it follows
/// from the contracts of the mutating operations.
pub open spec fn keys_unique(s: Seq<(Seq<char>, SniStateView)>) -> bool {
    forall|i: int, j: int| 0 <= i < j < s.len() ==> s[i].0 != s[j].0
}

/// The first position holding key `k`, or `-1` when no position does.
pub open spec fn seq_find_key(s: Seq<(Seq<char>, SniStateView)>, k: Seq<char>) -> int
    decreases s.len(),
{
    if s.len() == 0 {
        -1
    } else if s[0].0 == k {
        0
    } else {
        let r = seq_find_key(s.drop_first(), k);
        if r == -1 {
            -1
        } else {
            r + 1
        }
    }
}

/// Whether some position holds key `k`.
pub open spec fn has_key(s: Seq<(Seq<char>, SniStateView)>, k: Seq<char>) -> bool {
    exists|i: int| 0 <= i < s.len() && s[i].0 == k
}

/// What `seq_find_key` returns: a position holding `k` with no earlier one,
/// or `-1` exactly when no position holds `k`.
pub proof fn lemma_seq_find_key(s: Seq<(Seq<char>, SniStateView)>, k: Seq<char>)
    ensures
        seq_find_key(s, k) >= -1,
        seq_find_key(s, k) == -1 <==> !has_key(s, k),
        seq_find_key(s, k) >= 0 ==> {
            &&& seq_find_key(s, k) < s.len()
            &&& s[seq_find_key(s, k)].0 == k
            &&& forall|j: int| 0 <= j < seq_find_key(s, k) ==> s[j].0 != k
        },
    decreases s.len(),
{
    if s.len() == 0 {
        assert(!has_key(s, k));
    } else if s[0].0 == k {
        assert(has_key(s, k));
    } else {
        let t = s.drop_first();
        lemma_seq_find_key(t, k);
        let r = seq_find_key(t, k);
        assert(forall|i: int| 0 <= i < t.len() ==> t[i] == s[i + 1]);
        if r == -1 {
            assert(seq_find_key(s, k) == -1);
            assert forall|i: int| 0 <= i < s.len() implies s[i].0 != k by {
                if i > 0 {
                    assert(t[i - 1] == s[i]);
                }
            }
            assert(!has_key(s, k));
        } else {
            assert(0 <= r < t.len() && t[r].0 == k);
            assert(s[r + 1].0 == k);
            assert(has_key(s, k));
            assert(seq_find_key(s, k) == r + 1);
            assert forall|j: int| 0 <= j < r + 1 implies s[j].0 != k by {
                if j > 0 {
                    assert(t[j - 1] == s[j]);
                }
            }
        }
    }
}

/// The view of an owned entry list, for relating it to `reg_seq`.
pub open spec fn entries_view(s: Seq<(String, SniState)>) -> Seq<(Seq<char>, SniStateView)> {
    s.map(|i: int, e: (String, SniState)| (e.0@, e.1@))
}

/// Relies on `IndexMap::new`: a newly created map is empty.
#[verifier::external_body]
pub(crate) fn reg_new() -> (r: IndexMap<String, SniState>)
    ensures
        reg_seq(r) == Seq::<(Seq<char>, SniStateView)>::empty(),
{
    IndexMap::new()
}

/// Relies on `IndexMap::len`: the number of key-value pairs in the map.
#[verifier::external_body]
pub(crate) fn reg_len(m: &IndexMap<String, SniState>) -> (r: usize)
    ensures
        r == reg_seq(*m).len(),
{
    m.len()
}

/// Relies on `IndexMap::get_index`: the key at a position of the order, or
/// `None` past the end.
#[verifier::external_body]
pub(crate) fn reg_key_at(m: &IndexMap<String, SniState>, i: usize) -> (r: Option<&String>)
    ensures
        match r {
            Some(k) => i < reg_seq(*m).len() && k@ == reg_seq(*m)[i as int].0,
            None => i >= reg_seq(*m).len(),
        },
{
    m.get_index(i).map(|(k, _)| k)
}

/// Relies on `IndexMap::get_index`: the value at a position of the order, or
/// `None` past the end.
#[verifier::external_body]
pub(crate) fn reg_val_at(m: &IndexMap<String, SniState>, i: usize) -> (r: Option<&SniState>)
    ensures
        match r {
            Some(v) => i < reg_seq(*m).len() && v@ == reg_seq(*m)[i as int].1,
            None => i >= reg_seq(*m).len(),
        },
{
    m.get_index(i).map(|(_, v)| v)
}

/// Relies on `IndexMap::get_index_of`: the position of a key, or `None` when
/// the map does not hold the key. The map never holds a key twice.
#[verifier::external_body]
pub(crate) fn reg_index_of(m: &IndexMap<String, SniState>, k: &String) -> (r: Option<usize>)
    ensures
        match r {
            Some(i) => i < reg_seq(*m).len() && reg_seq(*m)[i as int].0 == k@,
            None => forall|j: int| 0 <= j < reg_seq(*m).len() ==> reg_seq(*m)[j].0 != k@,
        },
{
    m.get_index_of(k)
}

/// Relies on `IndexMap::insert`: an existing equivalent key keeps its place
/// in the order and has its value replaced; a new key is appended last.
#[verifier::external_body]
pub(crate) fn reg_insert(m: &mut IndexMap<String, SniState>, k: String, v: SniState)
    ensures
        ({
            let s = reg_seq(*old(m));
            let f = seq_find_key(s, k@);
            if f >= 0 {
                reg_seq(*final(m)) == s.update(f, (k@, v@))
            } else {
                reg_seq(*final(m)) == s.push((k@, v@))
            }
        }),
{
    m.insert(k, v);
}

/// Relies on `IndexMap::clear`: the map becomes empty.
#[verifier::external_body]
pub(crate) fn reg_clear(m: &mut IndexMap<String, SniState>)
    ensures
        reg_seq(*final(m)) == Seq::<(Seq<char>, SniStateView)>::empty(),
{
    m.clear();
}

/// Relies on `IndexMap::get_index_mut` together with `core::mem::swap`:
/// exchange the value stored at a position with `*v`, leaving every key and
/// the order untouched; past the end nothing changes.
#[verifier::external_body]
pub(crate) fn reg_swap_val_at(m: &mut IndexMap<String, SniState>, i: usize, v: &mut SniState)
    ensures
        ({
            let s = reg_seq(*old(m));
            if (i as int) < s.len() {
                &&& reg_seq(*final(m)) == s.update(i as int, (s[i as int].0, old(v)@))
                &&& final(v)@ == s[i as int].1
            } else {
                &&& reg_seq(*final(m)) == s
                &&& *final(v) == *old(v)
            }
        }),
{
    if let Some((_, slot)) = m.get_index_mut(i) {
        core::mem::swap(slot, v);
    }
}

/// Relies on `IndexMap::iter`: the key-value pairs in order, copied out.
#[verifier::external_body]
pub(crate) fn reg_entries(m: &IndexMap<String, SniState>) -> (r: Vec<(String, SniState)>)
    ensures
        entries_view(r@) == reg_seq(*m),
{
    m.iter().map(|(k, v)| (k.clone(), v.clone())).collect()
}

} // verus!

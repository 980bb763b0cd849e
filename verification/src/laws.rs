//! The laws the tree and its cursor codec obey, stated over the spec
//! model that the executable contracts are proved against.

use vstd::prelude::*;

use crate::algoparam::Accessor;
use crate::algoparam::AlgoParam;
use crate::algoparam::AlgoParamNode;
use crate::algoparam::AlgoParamSet;
use crate::algoparam::LastValue;
use crate::algoparam::kind_at;
use crate::algoparam::lemma_scan_from_least;
use crate::algoparam::param_at;
use crate::algoparam::scan_from;
use crate::algoparam::set_at_path;
use crate::algoparam::set_updated;
use crate::algoparam::spec_find_first;
use crate::algoparam::spec_find_next;
use crate::keys::KEY_NOT_FOUND;
use crate::keys::byte_of;
use crate::keys::first_path;
use crate::keys::key_of_path;
use crate::keys::next_depth;
use crate::keys::prefix_path;

verus! {

/// Enumeration start: from the start key, a first-scan yields the
/// matching child (branches when `want_set`, controls otherwise) with the
/// least index — the first in insertion order — and reports exhaustion
/// exactly when the node has no matching child.
pub proof fn lemma_enumeration_first<A>(t: AlgoParamSet<A>, want_set: bool)
    requires
        t.children@.len() <= 254,
    ensures
        match scan_from(t.children@, 0, want_set) {
            Some(j) => spec_find_first(t, KEY_NOT_FOUND, want_set) == Some(
                (t.children@[j], key_of_path(seq![j as u8])),
            ) && kind_at(t.children@, j) == want_set && forall|m: int|
                0 <= m < j ==> #[trigger] kind_at(t.children@, m) != want_set,
            None => spec_find_first(t, KEY_NOT_FOUND, want_set) is None && forall|m: int|
                0 <= m < t.children@.len() ==> #[trigger] kind_at(t.children@, m) != want_set,
        },
{
    crate::keys::lemma_first_path_start();
    assert(set_at_path(t, first_path(KEY_NOT_FOUND)) == Some(t));
    lemma_scan_from_least(t.children@, 0, want_set);
    match scan_from(t.children@, 0, want_set) {
        Some(j) => {
            assert(first_path(KEY_NOT_FOUND).push(j as u8) =~= seq![j as u8]);
        },
        None => {},
    }
}

/// Enumeration step: from the cursor that encodes child `j` of the node,
/// a next-scan yields the matching child with the least index above `j`,
/// and reports exhaustion exactly when none remains.  Together with
/// `lemma_enumeration_first` this says that repeated next-scans starting
/// from a first-scan's cursor visit every matching child exactly once, in
/// insertion order, and then report exhaustion.
pub proof fn lemma_enumeration_step<A>(t: AlgoParamSet<A>, j: int, want_set: bool)
    requires
        0 <= j <= 253,
        t.children@.len() <= 254,
    ensures
        match scan_from(t.children@, j + 1, want_set) {
            Some(m) => spec_find_next(t, key_of_path(seq![j as u8]), want_set) == Some(
                (t.children@[m], key_of_path(seq![m as u8])),
            ) && kind_at(t.children@, m) == want_set && forall|x: int|
                j + 1 <= x < m ==> #[trigger] kind_at(t.children@, x) != want_set,
            None => spec_find_next(t, key_of_path(seq![j as u8]), want_set) is None,
        },
{
    crate::keys::lemma_key_of_single(j as u8);
    let k = key_of_path(seq![j as u8]);
    assert(byte_of(k, 1) == 0xff);
    assert(next_depth(k) == 0);
    assert(prefix_path(k, 0) =~= Seq::<u8>::empty());
    assert(set_at_path(t, prefix_path(k, 0)) == Some(t));
    assert(byte_of(k, 0) as int + 1 == j + 1);
    lemma_scan_from_least(t.children@, j + 1, want_set);
    match scan_from(t.children@, j + 1, want_set) {
        Some(m) => {
            assert(prefix_path(k, 0).push(m as u8) =~= seq![m as u8]);
        },
        None => {},
    }
}

/// The cursor and node the enumeration stands on after `n` successful
/// steps: step 0 is a first-scan from the start key, and each later step
/// a next-scan from the cursor the previous step returned.
pub open spec fn visited_chain<A>(t: AlgoParamSet<A>, want_set: bool, n: nat) -> Option<
    (AlgoParamNode<A>, u64),
>
    decreases n,
{
    if n == 0 {
        spec_find_first(t, KEY_NOT_FOUND, want_set)
    } else {
        match visited_chain(t, want_set, (n - 1) as nat) {
            Some(q) => spec_find_next(t, q.1, want_set),
            None => None,
        }
    }
}

/// The index of the `n`-th matching child, in insertion order.
pub open spec fn nth_match<A>(ch: Seq<AlgoParamNode<A>>, want_set: bool, n: nat) -> Option<int>
    decreases n,
{
    if n == 0 {
        scan_from(ch, 0, want_set)
    } else {
        match nth_match(ch, want_set, (n - 1) as nat) {
            Some(j) => scan_from(ch, j + 1, want_set),
            None => None,
        }
    }
}

/// Enumeration completeness: the `n`-th successful step of the chain
/// stands exactly on the `n`-th matching child, with the cursor that
/// encodes its position, and the chain ends exactly when the matching
/// children are exhausted.  So repeated next-scans starting from a
/// first-scan at the start key visit every matching child exactly once,
/// in insertion order, and then report exhaustion.
pub proof fn lemma_enumeration_complete<A>(t: AlgoParamSet<A>, want_set: bool, n: nat)
    requires
        t.children@.len() <= 254,
    ensures
        match nth_match(t.children@, want_set, n) {
            Some(j) => 0 <= j < t.children@.len() && kind_at(t.children@, j) == want_set
                && visited_chain(t, want_set, n) == Some(
                (t.children@[j], key_of_path(seq![j as u8])),
            ),
            None => visited_chain(t, want_set, n) is None,
        },
    decreases n,
{
    if n == 0 {
        lemma_enumeration_first(t, want_set);
        lemma_scan_from_least(t.children@, 0, want_set);
    } else {
        lemma_enumeration_complete(t, want_set, (n - 1) as nat);
        match nth_match(t.children@, want_set, (n - 1) as nat) {
            Some(j) => {
                lemma_enumeration_step(t, j, want_set);
                lemma_scan_from_least(t.children@, j + 1, want_set);
            },
            None => {},
        }
    }
}

/// Enumeration idempotence: an exhausted step resets the cursor to the
/// start key, and a scan depends on the tree and the key alone, so a
/// first-scan made after exhaustion reproduces the chain's original
/// first result.
pub proof fn lemma_enumeration_idempotent<A>(t: AlgoParamSet<A>, want_set: bool, n: nat)
    requires
        visited_chain(t, want_set, n) is None,
    ensures
        spec_find_first(t, KEY_NOT_FOUND, want_set) == visited_chain(t, want_set, 0),
{
}

/// Writing through a key changes exactly the control that the key
/// resolves to: afterwards the same key resolves to the same control with
/// its accessor updated by the written value.
pub proof fn lemma_set_updates_param<A: Accessor>(
    t0: AlgoParamSet<A>,
    t1: AlgoParamSet<A>,
    key: u64,
    v: u32,
)
    requires
        set_updated(t0, t1, key, v),
    ensures
        param_at(t0, key) is Some,
        param_at(t1, key) matches Some(p1) && p1 == (AlgoParam {
            accessor: param_at(t0, key)->Some_0.accessor.after_set(v),
            ..param_at(t0, key)->Some_0
        }),
    decreases t0,
{
    let i = (key >> 56) as int;
    match (t0.children@[i], t1.children@[i]) {
        (AlgoParamNode::Param(p0), AlgoParamNode::Param(p1)) => {
        },
        (AlgoParamNode::ParamSet(s0), AlgoParamNode::ParamSet(s1)) => {
            lemma_set_updates_param(s0, s1, key << 8, v);
        },
        _ => {
            assert(false);
        },
    }
}

/// Round trip: for controls whose accessor records the last value
/// written, setting `v` through a key and then getting the same key
/// yields `v` again.
pub proof fn lemma_set_then_get_round_trip(
    t0: AlgoParamSet<LastValue>,
    t1: AlgoParamSet<LastValue>,
    key: u64,
    v: u32,
)
    requires
        set_updated(t0, t1, key, v),
    ensures
        param_at(t1, key) matches Some(p) && p.accessor.value() == v,
{
    lemma_set_updates_param(t0, t1, key, v);
}

} // verus!

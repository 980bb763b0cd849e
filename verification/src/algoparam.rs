//! The parameter tree: Branch and Control nodes, addressed and enumerated
//! through the packed path key.

use vstd::prelude::*;

verus! {

pub use crate::keys::KEY_NOT_FOUND;
pub use crate::keys::KEY_MASK;

use crate::keys::byte_of;
use crate::keys::first_path;
use crate::keys::key_of_path;
use crate::keys::next_depth;
use crate::keys::prefix_path;

/// The error kinds of the tree, all local and synchronous.
#[derive(Clone, Copy, Debug, PartialEq, Eq, Structural)]
pub enum ParamErrorKind {
    /// A branch already holds its maximum of 254 children.
    CapacityExceeded,
    /// A path key does not resolve to a control.
    KeyNotFound,
    /// An identifier, display name or dependent name holds an embedded
    /// null byte.
    InvalidIdentifier,
}

/// The error the tree reports, carrying which of its error kinds arose.
#[derive(Clone, Copy, Debug, PartialEq, Eq, Structural)]
pub struct OutOfRangeError {
    pub kind: ParamErrorKind,
}

/// The unit tag of a control, a fixed enumeration exported as an integer
/// code.
#[derive(Clone, Copy, Debug, PartialEq, Eq, Structural)]
pub enum AlgoParamUnit {
    GENERIC,
    INDEXED,
    BOOLEAN,
    PERCENT,
    SECONDS,
    SAMPLES,
    HERTZ,
    CENTS,
    SEMITONES,
    MIDINOTENUMBER,
    DECIBELS,
    LINEARGAIN,
    DEGREES,
    EQUALPOWERCROSSFADE,
    MILLISECONDS,
}

pub open spec fn spec_unit_code(u: AlgoParamUnit) -> i32 {
    match u {
        AlgoParamUnit::GENERIC => 0,
        AlgoParamUnit::INDEXED => 1,
        AlgoParamUnit::BOOLEAN => 2,
        AlgoParamUnit::PERCENT => 3,
        AlgoParamUnit::SECONDS => 4,
        AlgoParamUnit::SAMPLES => 5,
        AlgoParamUnit::HERTZ => 6,
        AlgoParamUnit::CENTS => 7,
        AlgoParamUnit::SEMITONES => 8,
        AlgoParamUnit::MIDINOTENUMBER => 9,
        AlgoParamUnit::DECIBELS => 10,
        AlgoParamUnit::LINEARGAIN => 11,
        AlgoParamUnit::DEGREES => 12,
        AlgoParamUnit::EQUALPOWERCROSSFADE => 13,
        AlgoParamUnit::MILLISECONDS => 14,
    }
}

impl AlgoParamUnit {
    /// The integer code under which the unit tag crosses a foreign
    /// boundary.
    pub fn code(&self) -> (r: i32)
        ensures
            r == spec_unit_code(*self),
    {
        match *self {
            AlgoParamUnit::GENERIC => 0,
            AlgoParamUnit::INDEXED => 1,
            AlgoParamUnit::BOOLEAN => 2,
            AlgoParamUnit::PERCENT => 3,
            AlgoParamUnit::SECONDS => 4,
            AlgoParamUnit::SAMPLES => 5,
            AlgoParamUnit::HERTZ => 6,
            AlgoParamUnit::CENTS => 7,
            AlgoParamUnit::SEMITONES => 8,
            AlgoParamUnit::MIDINOTENUMBER => 9,
            AlgoParamUnit::DECIBELS => 10,
            AlgoParamUnit::LINEARGAIN => 11,
            AlgoParamUnit::DEGREES => 12,
            AlgoParamUnit::EQUALPOWERCROSSFADE => 13,
            AlgoParamUnit::MILLISECONDS => 14,
        }
    }
}

/// The capability a control exposes to read and write its value.  The
/// composition layer implements it per control; the tree owns the
/// accessor for its lifetime.  Values cross this interface as the raw
/// 32-bit encoding of the control's scalar.
pub trait Accessor: Sized {
    /// The value the accessor currently exposes.  The default is left
    /// unspecified; a verified accessor overrides it.
    open spec fn value(&self) -> u32 {
        vstd::pervasive::arbitrary()
    }

    /// What the accessor becomes when a value is written through it.  The
    /// default is left unspecified; a verified accessor overrides it.
    open spec fn after_set(&self, v: u32) -> Self {
        vstd::pervasive::arbitrary()
    }

    fn get(&self) -> (r: u32)
        ensures
            r == self.value(),
    ;

    fn set(&mut self, v: u32)
        ensures
            *final(self) == old(self).after_set(v),
    ;
}

/// An accessor that stores the last value written through it.
#[derive(Clone, Copy, Debug, PartialEq, Eq, Structural)]
pub struct LastValue {
    pub bits: u32,
}

impl Accessor for LastValue {
    open spec fn value(&self) -> u32 {
        self.bits
    }

    open spec fn after_set(&self, v: u32) -> Self {
        LastValue { bits: v }
    }

    fn get(&self) -> u32 {
        self.bits
    }

    fn set(&mut self, v: u32) {
        self.bits = v;
    }
}

/// A node of the tree: a control leaf or a branch of further nodes.
#[verifier::ext_equal]
pub enum AlgoParamNode<A> {
    Param(AlgoParam<A>),
    ParamSet(AlgoParamSet<A>),
}

/// A control leaf: one adjustable value plus its metadata and accessor.
/// `min`, `max` and `default` carry the raw 32-bit encoding of the
/// control's scalar bounds; the tree itself never interprets them.
#[verifier::ext_equal]
pub struct AlgoParam<A> {
    pub identifier: String,
    pub name: String,
    pub min: u32,
    pub max: u32,
    pub default: u32,
    pub unit: AlgoParamUnit,
    pub accessor: A,
    pub dependents: Vec<String>,
}

/// A branch: an ordered sequence of named child nodes, at most 254 of
/// them, appended during construction and never removed or reordered.
#[verifier::ext_equal]
pub struct AlgoParamSet<A> {
    pub identifier: String,
    pub name: String,
    pub children: Vec<AlgoParamNode<A>>,
}

/// No byte of the string is a null byte, so it can cross a foreign
/// boundary null-terminated.
pub open spec fn no_nul(bytes: Seq<u8>) -> bool {
    forall|i: int| 0 <= i < bytes.len() ==> bytes[i] != 0
}

pub open spec fn str_bytes(s: Seq<char>) -> Seq<u8> {
    vstd::utf8::encode_utf8(s)
}

impl<A> AlgoParam<A> {
    /// The construction-time invariant of a control.
    pub open spec fn wf(&self) -> bool {
        &&& no_nul(str_bytes(self.identifier@))
        &&& no_nul(str_bytes(self.name@))
        &&& forall|i: int|
            0 <= i < self.dependents@.len() ==> no_nul(str_bytes(self.dependents@[i]@))
    }
}

impl<A> AlgoParamNode<A> {
    pub open spec fn wf(&self) -> bool
        decreases *self,
    {
        match self {
            AlgoParamNode::Param(p) => p.wf(),
            AlgoParamNode::ParamSet(s) => s.wf(),
        }
    }
}

impl<A> AlgoParamSet<A> {
    /// The tree invariant: identifiers and names are null-free and every
    /// branch holds at most 254 children, recursively.
    pub open spec fn wf(&self) -> bool
        decreases *self,
    {
        &&& no_nul(str_bytes(self.identifier@))
        &&& no_nul(str_bytes(self.name@))
        &&& self.children@.len() <= 254
        &&& forall|i: int| 0 <= i < self.children@.len() ==> (#[trigger] self.children@[i]).wf()
    }
}

/// True when the child at `m` is a branch.
pub open spec fn kind_at<A>(ch: Seq<AlgoParamNode<A>>, m: int) -> bool {
    ch[m] is ParamSet
}

/// The least index at or after `s` whose child matches the wanted kind:
/// branches when `want_set`, controls otherwise.
pub open spec fn scan_from<A>(ch: Seq<AlgoParamNode<A>>, s: int, want_set: bool) -> Option<int>
    decreases ch.len() - s,
{
    if s < 0 || s >= ch.len() {
        None::<int>
    } else if kind_at(ch, s) == want_set {
        Some(s)
    } else {
        scan_from(ch, s + 1, want_set)
    }
}

/// A scan finds the least matching index at or after its start, and `None`
/// exactly when no index at or after it matches.
pub proof fn lemma_scan_from_least<A>(ch: Seq<AlgoParamNode<A>>, s: int, want_set: bool)
    requires
        0 <= s,
    ensures
        match scan_from(ch, s, want_set) {
            Some(j) => s <= j < ch.len() && kind_at(ch, j) == want_set && forall|m: int|
                s <= m < j ==> #[trigger] kind_at(ch, m) != want_set,
            None => forall|m: int| s <= m < ch.len() ==> #[trigger] kind_at(ch, m) != want_set,
        },
    decreases ch.len() - s,
{
    if s < ch.len() && kind_at(ch, s) != want_set {
        lemma_scan_from_least(ch, s + 1, want_set);
    }
}

/// The branch reached from `t` by descending one child index per path
/// element; `None` if an index is out of range or selects a control.
pub open spec fn set_at_path<A>(t: AlgoParamSet<A>, path: Seq<u8>) -> Option<AlgoParamSet<A>>
    decreases path.len(),
{
    if path.len() == 0 {
        Some(t)
    } else {
        let i = path[0] as int;
        if i < t.children@.len() && t.children@[i] is ParamSet {
            set_at_path(t.children@[i]->ParamSet_0, path.drop_first())
        } else {
            None::<AlgoParamSet<A>>
        }
    }
}

/// What a scan starting at child `start` of the node addressed by `path`
/// finds: the child node and the key that encodes its position, with
/// everything beneath reset to the sentinel.
pub open spec fn find_result<A>(
    t: AlgoParamSet<A>,
    path: Seq<u8>,
    start: int,
    want_set: bool,
) -> Option<(AlgoParamNode<A>, u64)> {
    match set_at_path(t, path) {
        Some(b) => match scan_from(b.children@, start, want_set) {
            Some(j) => Some((b.children@[j], key_of_path(path.push(j as u8)))),
            None => None,
        },
        None => None,
    }
}

/// What a first-scan from `key` finds: descend while a byte of the key is
/// consumed at each level, then scan the reached node from its first
/// child.
pub open spec fn spec_find_first<A>(t: AlgoParamSet<A>, key: u64, want_set: bool) -> Option<
    (AlgoParamNode<A>, u64),
> {
    find_result(t, first_path(key), 0, want_set)
}

/// What a next-scan from `key` finds: descend to the deepest level the key
/// has selected, then scan that level from the index after the one the
/// key addresses there.
pub open spec fn spec_find_next<A>(t: AlgoParamSet<A>, key: u64, want_set: bool) -> Option<
    (AlgoParamNode<A>, u64),
> {
    find_result(
        t,
        prefix_path(key, next_depth(key)),
        byte_of(key, next_depth(key)) as int + 1,
        want_set,
    )
}

/// True when some byte of the string is a null byte.
fn str_has_nul(s: &str) -> (r: bool)
    ensures
        r == !no_nul(str_bytes(s@)),
{
    let bytes = s.as_bytes();
    let n = bytes.len();
    let mut i: usize = 0;
    while i < n
        invariant
            n == bytes@.len(),
            i <= n,
            bytes@ == str_bytes(s@),
            forall|j: int| 0 <= j < i ==> bytes@[j] != 0,
        decreases n - i,
    {
        if bytes[i] == 0 {
            return true;
        }
        i += 1;
    }
    false
}

impl<A> AlgoParamSet<A> {
    /// Builds an empty branch.  Fails with `InvalidIdentifier` exactly when
    /// the identifier or the display name holds an embedded null byte.
    pub fn new(identifier: &str, name: &str) -> (r: Result<AlgoParamSet<A>, OutOfRangeError>)
        ensures
            r is Ok <==> (no_nul(str_bytes(identifier@)) && no_nul(str_bytes(name@))),
            match r {
                Ok(s) => s.identifier@ == identifier@ && s.name@ == name@ && s.children@.len()
                    == 0 && s.wf(),
                Err(e) => e.kind == ParamErrorKind::InvalidIdentifier,
            },
    {
        if str_has_nul(identifier) || str_has_nul(name) {
            return Err(OutOfRangeError { kind: ParamErrorKind::InvalidIdentifier });
        }
        Ok(
            AlgoParamSet {
                identifier: identifier.to_owned(),
                name: name.to_owned(),
                children: Vec::new(),
            },
        )
    }

    /// Appends a child and returns its positional index.  Fails with
    /// `CapacityExceeded`, leaving the branch unchanged, exactly when the
    /// branch already holds 254 children (index 255 is reserved for the
    /// sentinel).
    pub fn add(&mut self, child: AlgoParamNode<A>) -> (r: Result<usize, OutOfRangeError>)
        ensures
            r is Ok <==> old(self).children@.len() < 254,
            match r {
                Ok(idx) => idx == old(self).children@.len() && final(self).children@ == old(
                    self,
                ).children@.push(child) && final(self).identifier == old(self).identifier
                    && final(self).name == old(self).name,
                Err(e) => e.kind == ParamErrorKind::CapacityExceeded && *final(self) == *old(
                    self,
                ),
            },
            old(self).wf() && child.wf() && r is Ok ==> final(self).wf(),
    {
        if self.children.len() >= 254 {
            return Err(OutOfRangeError { kind: ParamErrorKind::CapacityExceeded });
        }
        let idx = self.children.len();
        self.children.push(child);
        proof {
            if old(self).wf() && child.wf() {
                let oldc = old(self).children@;
                assert forall|i: int|
                    0 <= i < self.children@.len() implies #[trigger] self.children@[i].wf() by {
                    if i < oldc.len() {
                        assert(self.children@[i] == oldc[i]);
                        assert(oldc[i].wf());
                    } else {
                        assert(self.children@[i] == child);
                    }
                }
            }
        }
        Ok(idx)
    }
}

impl<A> AlgoParam<A> {
    /// Builds a control leaf around its accessor.  Fails with
    /// `InvalidIdentifier` exactly when the identifier, the display name or
    /// a dependent identifier holds an embedded null byte.
    pub fn new(
        key: &str,
        name: &str,
        min: u32,
        max: u32,
        default: u32,
        unit: AlgoParamUnit,
        accessor: A,
        dependents: Vec<String>,
    ) -> (r: Result<AlgoParam<A>, OutOfRangeError>)
        ensures
            r is Ok <==> (no_nul(str_bytes(key@)) && no_nul(str_bytes(name@)) && forall|i: int|
                0 <= i < dependents@.len() ==> no_nul(str_bytes(#[trigger] dependents@[i]@))),
            match r {
                Ok(p) => p.identifier@ == key@ && p.name@ == name@ && p.min == min && p.max == max
                    && p.default == default && p.unit == unit && p.accessor == accessor
                    && p.dependents == dependents && p.wf(),
                Err(e) => e.kind == ParamErrorKind::InvalidIdentifier,
            },
    {
        if str_has_nul(key) || str_has_nul(name) {
            return Err(OutOfRangeError { kind: ParamErrorKind::InvalidIdentifier });
        }
        let n = dependents.len();
        let mut i: usize = 0;
        while i < n
            invariant
                n == dependents@.len(),
                i <= n,
                forall|j: int| 0 <= j < i ==> no_nul(str_bytes(#[trigger] dependents@[j]@)),
            decreases n - i,
        {
            if str_has_nul(dependents[i].as_str()) {
                return Err(OutOfRangeError { kind: ParamErrorKind::InvalidIdentifier });
            }
            i += 1;
        }
        Ok(
            AlgoParam {
                identifier: key.to_owned(),
                name: name.to_owned(),
                min,
                max,
                default,
                unit,
                accessor,
                dependents,
            },
        )
    }
}

proof fn lemma_find_result_descend<A>(
    t: AlgoParamSet<A>,
    h: u8,
    p: Seq<u8>,
    s: int,
    want_set: bool,
)
    requires
        (h as int) < t.children@.len(),
        t.children@[h as int] is ParamSet,
    ensures
        match find_result(t.children@[h as int]->ParamSet_0, p, s, want_set) {
            Some(q) => find_result(t, seq![h] + p, s, want_set) == Some(
                (q.0, ((h as u64) << 56) | (q.1 >> 8)),
            ),
            None => find_result(t, seq![h] + p, s, want_set) is None,
        },
{
    let child = t.children@[h as int]->ParamSet_0;
    let full = seq![h] + p;
    assert(full[0] == h);
    assert(full.drop_first() =~= p);
    assert(set_at_path(t, full) == set_at_path(child, p));
    match set_at_path(child, p) {
        Some(b) => match scan_from(b.children@, s, want_set) {
            Some(j) => {
                let q = p.push(j as u8);
                let fq = seq![h] + q;
                assert(full.push(j as u8) =~= fq);
                assert(fq[0] == h);
                assert(fq.drop_first() =~= q);
                assert(key_of_path(fq) == ((h as u64) << 56) | (key_of_path(q) >> 8));
            },
            None => {},
        },
        None => {},
    }
}

proof fn lemma_find_result_dead_end<A>(
    t: AlgoParamSet<A>,
    h: u8,
    p: Seq<u8>,
    s: int,
    want_set: bool,
)
    requires
        !((h as int) < t.children@.len() && t.children@[h as int] is ParamSet),
    ensures
        find_result(t, seq![h] + p, s, want_set) is None,
{
    let full = seq![h] + p;
    assert(full[0] == h);
    assert(set_at_path(t, full) is None);
}

impl<A> AlgoParamSet<A> {
    /// Finds the first branch child of the node the cursor addresses:
    /// descends one level per chosen byte of the key, then scans that node
    /// in insertion order.  Returns the branch and the cursor that encodes
    /// its position, with everything beneath reset to the sentinel; `None`
    /// when no branch remains there.
    pub fn find_first_set(&self, basekey: u64) -> (r: Option<(&AlgoParamSet<A>, u64)>)
        requires
            self.wf(),
        ensures
            match r {
                Some(p) => spec_find_first(*self, basekey, true) == Some(
                    (AlgoParamNode::ParamSet(*p.0), p.1),
                ),
                None => spec_find_first(*self, basekey, true) is None,
            },
        decreases crate::keys::first_free(basekey),
    {
        proof {
            crate::keys::lemma_first_free_from_bounds(basekey, 0);
        }
        if basekey == KEY_NOT_FOUND {
            proof {
                crate::keys::lemma_first_path_start();
                assert(set_at_path(*self, first_path(basekey)) == Some(*self));
            }
            let n = self.children.len();
            let mut idx: usize = 0;
            while idx < n
                invariant
                    self.wf(),
                    n == self.children@.len(),
                    idx <= n,
                    basekey == KEY_NOT_FOUND,
                    scan_from(self.children@, 0, true) == scan_from(
                        self.children@,
                        idx as int,
                        true,
                    ),
                decreases n - idx,
            {
                match &self.children[idx] {
                    AlgoParamNode::ParamSet(v) => {
                        proof {
                            assert(kind_at(self.children@, idx as int) == true);
                            crate::keys::lemma_key_of_single(idx as u8);
                            crate::keys::lemma_first_path_start();
                            assert(set_at_path(*self, first_path(basekey)) == Some(*self));
                            assert(first_path(basekey).push(idx as u8) =~= seq![idx as u8]);
                        }
                        return Some((v, ((idx as u64) << 56) | 0x00ff_ffff_ffff_ffff));
                    },
                    AlgoParamNode::Param(_) => {
                        proof {
                            assert(kind_at(self.children@, idx as int) == false);
                        }
                    },
                }
                idx += 1;
            }
            None
        } else {
            proof {
                crate::keys::lemma_tail_first_free(basekey);
                crate::keys::lemma_head_byte(basekey);
                crate::keys::lemma_first_path_decompose(basekey);
            }
            let ghost b0 = byte_of(basekey, 0);
            let head = basekey >> 56;
            if head < self.children.len() as u64 {
                match &self.children[head as usize] {
                    AlgoParamNode::ParamSet(set) => {
                        proof {
                            assert(self.children@[b0 as int].wf());
                        }
                        let tail = (basekey << 8) | 0xff;
                        let r = set.find_first_set(tail);
                        proof {
                            lemma_find_result_descend(
                                *self,
                                b0,
                                first_path((basekey << 8) | 0xff),
                                0,
                                true,
                            );
                        }
                        match r {
                            Some(p) => Some((p.0, (head << 56) | (p.1 >> 8))),
                            None => None,
                        }
                    },
                    AlgoParamNode::Param(_) => {
                        proof {
                            lemma_find_result_dead_end(
                                *self,
                                b0,
                                first_path((basekey << 8) | 0xff),
                                0,
                                true,
                            );
                        }
                        None
                    },
                }
            } else {
                proof {
                    lemma_find_result_dead_end(
                        *self,
                        b0,
                        first_path((basekey << 8) | 0xff),
                        0,
                        true,
                    );
                }
                None
            }
        }
    }
}

impl<A> AlgoParamSet<A> {
    /// Finds the next branch after the position the cursor encodes: if no
    /// selection has been made beneath the addressed level, resumes the
    /// scan there at the following index; otherwise recurses one level
    /// down.  `None` when no branch remains at the level scanned.
    pub fn find_next_set(&self, basekey: u64) -> (r: Option<(&AlgoParamSet<A>, u64)>)
        requires
            self.wf(),
        ensures
            match r {
                Some(p) => spec_find_next(*self, basekey, true) == Some(
                    (AlgoParamNode::ParamSet(*p.0), p.1),
                ),
                None => spec_find_next(*self, basekey, true) is None,
            },
        decreases crate::keys::next_depth(basekey),
    {
        proof {
            crate::keys::lemma_next_depth_from_bounds(basekey, 0);
            crate::keys::lemma_mask_is_byte_one(basekey);
            crate::keys::lemma_head_byte(basekey);
        }
        if basekey & KEY_MASK == KEY_MASK {
            proof {
                assert(next_depth(basekey) == 0);
                assert(prefix_path(basekey, 0) =~= Seq::<u8>::empty());
                assert(set_at_path(*self, prefix_path(basekey, 0)) == Some(*self));
            }
            let start = (basekey >> 56) + 1;
            let n = self.children.len();
            let mut idx: u64 = start;
            while idx < n as u64
                invariant
                    self.wf(),
                    n == self.children@.len(),
                    start == byte_of(basekey, 0) as u64 + 1,
                    start <= idx,
                    idx <= n as u64 || idx == start,
                    basekey & KEY_MASK == KEY_MASK,
                    scan_from(self.children@, start as int, true) == scan_from(
                        self.children@,
                        idx as int,
                        true,
                    ),
                decreases n as u64 - idx,
            {
                match &self.children[idx as usize] {
                    AlgoParamNode::ParamSet(v) => {
                        proof {
                            assert(kind_at(self.children@, idx as int) == true);
                            crate::keys::lemma_mask_is_byte_one(basekey);
                            assert(next_depth(basekey) == 0);
                            assert(prefix_path(basekey, 0) =~= Seq::<u8>::empty());
                            assert(set_at_path(*self, prefix_path(basekey, 0)) == Some(*self));
                            crate::keys::lemma_key_of_single(idx as u8);
                            assert(prefix_path(basekey, 0).push(idx as u8) =~= seq![idx as u8]);
                        }
                        return Some((v, (idx << 56) | 0x00ff_ffff_ffff_ffff));
                    },
                    AlgoParamNode::Param(_) => {
                        proof {
                            assert(kind_at(self.children@, idx as int) == false);
                        }
                    },
                }
                idx += 1;
            }
            None
        } else {
            proof {
                crate::keys::lemma_tail_next_depth(basekey);
                crate::keys::lemma_next_path_decompose(basekey);
            }
            let ghost b0 = byte_of(basekey, 0);
            let ghost tailkey = (basekey << 8) | 0xffu64;
            let ghost p = prefix_path(tailkey, next_depth(tailkey));
            let ghost s = byte_of(tailkey, next_depth(tailkey)) as int + 1;
            let head = basekey >> 56;
            if head < self.children.len() as u64 {
                match &self.children[head as usize] {
                    AlgoParamNode::ParamSet(set) => {
                        proof {
                            assert(self.children@[b0 as int].wf());
                        }
                        let tail = (basekey << 8) | 0xff;
                        let r = set.find_next_set(tail);
                        proof {
                            lemma_find_result_descend(*self, b0, p, s, true);
                        }
                        match r {
                            Some(q) => Some((q.0, (head << 56) | (q.1 >> 8))),
                            None => None,
                        }
                    },
                    AlgoParamNode::Param(_) => {
                        proof {
                            lemma_find_result_dead_end(*self, b0, p, s, true);
                        }
                        None
                    },
                }
            } else {
                proof {
                    lemma_find_result_dead_end(*self, b0, p, s, true);
                }
                None
            }
        }
    }

    /// Finds the first control child of the node the cursor addresses; the
    /// same descent and scan as `find_first_set`, targeting control
    /// leaves.
    pub fn find_first_param(&self, basekey: u64) -> (r: Option<(&AlgoParam<A>, u64)>)
        requires
            self.wf(),
        ensures
            match r {
                Some(p) => spec_find_first(*self, basekey, false) == Some(
                    (AlgoParamNode::Param(*p.0), p.1),
                ),
                None => spec_find_first(*self, basekey, false) is None,
            },
        decreases crate::keys::first_free(basekey),
    {
        proof {
            crate::keys::lemma_first_free_from_bounds(basekey, 0);
        }
        if basekey == KEY_NOT_FOUND {
            proof {
                crate::keys::lemma_first_path_start();
                assert(set_at_path(*self, first_path(basekey)) == Some(*self));
            }
            let n = self.children.len();
            let mut idx: usize = 0;
            while idx < n
                invariant
                    self.wf(),
                    n == self.children@.len(),
                    idx <= n,
                    basekey == KEY_NOT_FOUND,
                    scan_from(self.children@, 0, false) == scan_from(
                        self.children@,
                        idx as int,
                        false,
                    ),
                decreases n - idx,
            {
                match &self.children[idx] {
                    AlgoParamNode::Param(v) => {
                        proof {
                            assert(kind_at(self.children@, idx as int) == false);
                            crate::keys::lemma_key_of_single(idx as u8);
                            crate::keys::lemma_first_path_start();
                            assert(set_at_path(*self, first_path(basekey)) == Some(*self));
                            assert(first_path(basekey).push(idx as u8) =~= seq![idx as u8]);
                        }
                        return Some((v, ((idx as u64) << 56) | 0x00ff_ffff_ffff_ffff));
                    },
                    AlgoParamNode::ParamSet(_) => {
                        proof {
                            assert(kind_at(self.children@, idx as int) == true);
                        }
                    },
                }
                idx += 1;
            }
            None
        } else {
            proof {
                crate::keys::lemma_tail_first_free(basekey);
                crate::keys::lemma_head_byte(basekey);
                crate::keys::lemma_first_path_decompose(basekey);
            }
            let ghost b0 = byte_of(basekey, 0);
            let ghost p = first_path((basekey << 8) | 0xffu64);
            let head = basekey >> 56;
            if head < self.children.len() as u64 {
                match &self.children[head as usize] {
                    AlgoParamNode::ParamSet(set) => {
                        proof {
                            assert(self.children@[b0 as int].wf());
                        }
                        let tail = (basekey << 8) | 0xff;
                        let r = set.find_first_param(tail);
                        proof {
                            lemma_find_result_descend(*self, b0, p, 0, false);
                        }
                        match r {
                            Some(q) => Some((q.0, (head << 56) | (q.1 >> 8))),
                            None => None,
                        }
                    },
                    AlgoParamNode::Param(_) => {
                        proof {
                            lemma_find_result_dead_end(*self, b0, p, 0, false);
                        }
                        None
                    },
                }
            } else {
                proof {
                    lemma_find_result_dead_end(*self, b0, p, 0, false);
                }
                None
            }
        }
    }

    /// Finds the next control after the position the cursor encodes; the
    /// same resume-or-recurse step as `find_next_set`, targeting control
    /// leaves.
    pub fn find_next_param(&self, basekey: u64) -> (r: Option<(&AlgoParam<A>, u64)>)
        requires
            self.wf(),
        ensures
            match r {
                Some(p) => spec_find_next(*self, basekey, false) == Some(
                    (AlgoParamNode::Param(*p.0), p.1),
                ),
                None => spec_find_next(*self, basekey, false) is None,
            },
        decreases crate::keys::next_depth(basekey),
    {
        proof {
            crate::keys::lemma_next_depth_from_bounds(basekey, 0);
            crate::keys::lemma_mask_is_byte_one(basekey);
            crate::keys::lemma_head_byte(basekey);
        }
        if basekey & KEY_MASK == KEY_MASK {
            proof {
                assert(next_depth(basekey) == 0);
                assert(prefix_path(basekey, 0) =~= Seq::<u8>::empty());
                assert(set_at_path(*self, prefix_path(basekey, 0)) == Some(*self));
            }
            let start = (basekey >> 56) + 1;
            let n = self.children.len();
            let mut idx: u64 = start;
            while idx < n as u64
                invariant
                    self.wf(),
                    n == self.children@.len(),
                    start == byte_of(basekey, 0) as u64 + 1,
                    start <= idx,
                    idx <= n as u64 || idx == start,
                    basekey & KEY_MASK == KEY_MASK,
                    scan_from(self.children@, start as int, false) == scan_from(
                        self.children@,
                        idx as int,
                        false,
                    ),
                decreases n as u64 - idx,
            {
                match &self.children[idx as usize] {
                    AlgoParamNode::Param(v) => {
                        proof {
                            assert(kind_at(self.children@, idx as int) == false);
                            crate::keys::lemma_mask_is_byte_one(basekey);
                            assert(next_depth(basekey) == 0);
                            assert(prefix_path(basekey, 0) =~= Seq::<u8>::empty());
                            assert(set_at_path(*self, prefix_path(basekey, 0)) == Some(*self));
                            crate::keys::lemma_key_of_single(idx as u8);
                            assert(prefix_path(basekey, 0).push(idx as u8) =~= seq![idx as u8]);
                        }
                        return Some((v, (idx << 56) | 0x00ff_ffff_ffff_ffff));
                    },
                    AlgoParamNode::ParamSet(_) => {
                        proof {
                            assert(kind_at(self.children@, idx as int) == true);
                        }
                    },
                }
                idx += 1;
            }
            None
        } else {
            proof {
                crate::keys::lemma_tail_next_depth(basekey);
                crate::keys::lemma_next_path_decompose(basekey);
            }
            let ghost b0 = byte_of(basekey, 0);
            let ghost tailkey = (basekey << 8) | 0xffu64;
            let ghost p = prefix_path(tailkey, next_depth(tailkey));
            let ghost s = byte_of(tailkey, next_depth(tailkey)) as int + 1;
            let head = basekey >> 56;
            if head < self.children.len() as u64 {
                match &self.children[head as usize] {
                    AlgoParamNode::ParamSet(set) => {
                        proof {
                            assert(self.children@[b0 as int].wf());
                        }
                        let tail = (basekey << 8) | 0xff;
                        let r = set.find_next_param(tail);
                        proof {
                            lemma_find_result_descend(*self, b0, p, s, false);
                        }
                        match r {
                            Some(q) => Some((q.0, (head << 56) | (q.1 >> 8))),
                            None => None,
                        }
                    },
                    AlgoParamNode::Param(_) => {
                        proof {
                            lemma_find_result_dead_end(*self, b0, p, s, false);
                        }
                        None
                    },
                }
            } else {
                proof {
                    lemma_find_result_dead_end(*self, b0, p, s, false);
                }
                None
            }
        }
    }
}

/// The control a key resolves to by strict positional descent, one byte
/// per level, stopping at the first control reached.
pub open spec fn param_at<A>(t: AlgoParamSet<A>, key: u64) -> Option<AlgoParam<A>>
    decreases t,
{
    let i = (key >> 56) as int;
    if i >= t.children@.len() {
        None::<AlgoParam<A>>
    } else {
        match t.children@[i] {
            AlgoParamNode::Param(p) => Some(p),
            AlgoParamNode::ParamSet(s) => param_at(s, key << 8),
        }
    }
}

/// `t1` is `t0` with the value `v` written through the accessor of the
/// control that `key` resolves to, and nothing else changed.
pub open spec fn set_updated<A: Accessor>(
    t0: AlgoParamSet<A>,
    t1: AlgoParamSet<A>,
    key: u64,
    v: u32,
) -> bool
    decreases t0,
{
    let i = (key >> 56) as int;
    &&& t1.identifier == t0.identifier
    &&& t1.name == t0.name
    &&& t1.children@.len() == t0.children@.len()
    &&& forall|j: int|
        0 <= j < t0.children@.len() && j != i ==> t1.children@[j] == #[trigger] t0.children@[j]
    &&& 0 <= i < t0.children@.len()
    &&& match (t0.children@[i], t1.children@[i]) {
        (AlgoParamNode::Param(p0), AlgoParamNode::Param(p1)) => p1 == AlgoParam {
            accessor: p0.accessor.after_set(v),
            ..p0
        },
        (AlgoParamNode::ParamSet(s0), AlgoParamNode::ParamSet(s1)) => set_updated(
            s0,
            s1,
            key << 8,
            v,
        ),
        _ => false,
    }
}

impl<A> AlgoParamSet<A> {
    /// Resolves a full path key to the control it addresses: strict
    /// positional descent, one byte per level, stopping at the first
    /// control reached; `None` on an out-of-range index or a key that
    /// never reaches a control.
    pub fn resolve(&self, key: u64) -> (r: Option<&AlgoParam<A>>)
        ensures
            match r {
                Some(p) => param_at(*self, key) == Some(*p),
                None => param_at(*self, key) is None,
            },
        decreases *self,
    {
        let idx = key >> 56;
        if idx >= self.children.len() as u64 {
            return None;
        }
        match &self.children[idx as usize] {
            AlgoParamNode::Param(p) => Some(p),
            AlgoParamNode::ParamSet(s) => s.resolve(key << 8),
        }
    }
}

impl<A: Accessor> AlgoParamSet<A> {
    /// Reads the control the key resolves to through its accessor.  Fails
    /// with `KeyNotFound` exactly when the key resolves to no control.
    pub fn get(&self, key: u64) -> (r: Result<u32, OutOfRangeError>)
        ensures
            match param_at(*self, key) {
                Some(p) => r == Ok::<u32, OutOfRangeError>(p.accessor.value()),
                None => r matches Err(e) && e.kind == ParamErrorKind::KeyNotFound,
            },
    {
        match self.resolve(key) {
            Some(p) => Ok(p.accessor.get()),
            None => Err(OutOfRangeError { kind: ParamErrorKind::KeyNotFound }),
        }
    }

    /// Writes the raw value through the accessor of the control the key
    /// resolves to, with no clamping.  Fails with `KeyNotFound`, leaving
    /// the tree unchanged, exactly when the key resolves to no control.
    pub fn set(&mut self, value: u32, key: u64) -> (r: Result<(), OutOfRangeError>)
        ensures
            r is Ok <==> param_at(*old(self), key) is Some,
            r is Ok ==> set_updated(*old(self), *final(self), key, value),
            r is Err ==> *final(self) == *old(self) && (r matches Err(e) && e.kind
                == ParamErrorKind::KeyNotFound),
    {
        let found = self.resolve(key).is_some();
        if found {
            self.set_resolved(value, key);
            Ok(())
        } else {
            Err(OutOfRangeError { kind: ParamErrorKind::KeyNotFound })
        }
    }

    /// The mutating descent behind `set`, for a key already known to
    /// resolve.
    fn set_resolved(&mut self, value: u32, key: u64)
        requires
            param_at(*old(self), key) is Some,
        ensures
            set_updated(*old(self), *final(self), key, value),
        decreases *old(self),
    {
        proof {
            crate::keys::lemma_head_byte(key);
        }
        let idx = key >> 56;
        let i = idx as usize;
        let ghost i_ = (key >> 56) as int;
        let node = self.children.remove(i);
        match node {
            AlgoParamNode::Param(mut p) => {
                proof {
                    assert(p == old(self).children@[i_]->Param_0);
                }
                p.accessor.set(value);
                self.children.insert(i, AlgoParamNode::Param(p));
                proof {
                    let p0 = old(self).children@[i_]->Param_0;
                    assert(p =~= AlgoParam { accessor: p0.accessor.after_set(value), ..p0 });
                    assert(self.children@ =~= old(self).children@.update(
                        i_,
                        AlgoParamNode::Param(p),
                    ));
                    assert(set_updated(*old(self), *self, key, value));
                }
            },
            AlgoParamNode::ParamSet(mut s) => {
                proof {
                    assert(s == old(self).children@[i_]->ParamSet_0);
                    assert(param_at(s, key << 8) is Some);
                }
                s.set_resolved(value, key << 8);
                self.children.insert(i, AlgoParamNode::ParamSet(s));
                proof {
                    assert(self.children@ =~= old(self).children@.update(
                        i_,
                        AlgoParamNode::ParamSet(s),
                    ));
                    assert(set_updated(*old(self), *self, key, value));
                }
            },
        }
    }
}

/// Finds the first branch child of the node the cursor addresses and
/// repositions the cursor on it; resets the cursor to `KEY_NOT_FOUND`
/// when no branch remains.  Returns the branch itself.
pub fn algoparam_get_first_set<'a, A>(tree: &'a AlgoParamSet<A>, basekey: &mut u64) -> (r: Option<
    &'a AlgoParamSet<A>,
>)
    requires
        tree.wf(),
    ensures
        match spec_find_first(*tree, *old(basekey), true) {
            Some(q) => r matches Some(b) && *b == q.0->ParamSet_0 && *final(basekey) == q.1,
            None => r is None && *final(basekey) == KEY_NOT_FOUND,
        },
{
    match tree.find_first_set(*basekey) {
        Some(p) => {
            *basekey = p.1;
            Some(p.0)
        },
        None => {
            *basekey = KEY_NOT_FOUND;
            None
        },
    }
}

/// Finds the next branch after the cursor's position and repositions the
/// cursor on it; resets the cursor to `KEY_NOT_FOUND` when no branch
/// remains.  Returns the branch itself.
pub fn algoparam_get_next_set<'a, A>(tree: &'a AlgoParamSet<A>, basekey: &mut u64) -> (r: Option<
    &'a AlgoParamSet<A>,
>)
    requires
        tree.wf(),
    ensures
        match spec_find_next(*tree, *old(basekey), true) {
            Some(q) => r matches Some(b) && *b == q.0->ParamSet_0 && *final(basekey) == q.1,
            None => r is None && *final(basekey) == KEY_NOT_FOUND,
        },
{
    match tree.find_next_set(*basekey) {
        Some(p) => {
            *basekey = p.1;
            Some(p.0)
        },
        None => {
            *basekey = KEY_NOT_FOUND;
            None
        },
    }
}

/// Finds the first control child of the node the cursor addresses and
/// repositions the cursor on it; resets the cursor to `KEY_NOT_FOUND`
/// when no control remains.  Returns the control itself.
pub fn algoparam_get_first_param<'a, A>(tree: &'a AlgoParamSet<A>, basekey: &mut u64) -> (r:
    Option<&'a AlgoParam<A>>)
    requires
        tree.wf(),
    ensures
        match spec_find_first(*tree, *old(basekey), false) {
            Some(q) => r matches Some(p) && *p == q.0->Param_0 && *final(basekey) == q.1,
            None => r is None && *final(basekey) == KEY_NOT_FOUND,
        },
{
    match tree.find_first_param(*basekey) {
        Some(p) => {
            *basekey = p.1;
            Some(p.0)
        },
        None => {
            *basekey = KEY_NOT_FOUND;
            None
        },
    }
}

/// Finds the next control after the cursor's position and repositions the
/// cursor on it; resets the cursor to `KEY_NOT_FOUND` when no control
/// remains.  Returns the control itself.
pub fn algoparam_get_next_param<'a, A>(tree: &'a AlgoParamSet<A>, basekey: &mut u64) -> (r: Option<
    &'a AlgoParam<A>,
>)
    requires
        tree.wf(),
    ensures
        match spec_find_next(*tree, *old(basekey), false) {
            Some(q) => r matches Some(p) && *p == q.0->Param_0 && *final(basekey) == q.1,
            None => r is None && *final(basekey) == KEY_NOT_FOUND,
        },
{
    match tree.find_next_param(*basekey) {
        Some(p) => {
            *basekey = p.1;
            Some(p.0)
        },
        None => {
            *basekey = KEY_NOT_FOUND;
            None
        },
    }
}

} // verus!

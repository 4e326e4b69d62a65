//! Order-id to slot-index map, built as a binary trie over the bits of the
//! 64-bit key, least significant bit first.
//!
//! The trie has two node kinds drawn from two fixed-size arenas: branch
//! ("middle") nodes with a `one` and a `zero` child, and leaf nodes holding
//! one key and its value.  Free nodes of each arena are chained into a free
//! list; running out of either arena is a reported capacity error, never a
//! silent drop.  Node pointers are signed 16-bit indices: a negative value
//! is null, `0 .. MAX_MIDDLES` addresses a middle node, and
//! `MAX_MIDDLES .. MAX_MIDDLES + MAX_LEAVES` addresses a leaf.
//!
//! The abstraction is the map from keys to values held by the live leaves;
//! every operation is specified against it.

use vstd::prelude::*;
use crate::errors::ErrorCode;

verus! {

pub const MAX_LEAVES: usize = 64;
pub const MAX_MIDDLES: usize = 64;

/// Depth below which every subtree is empty: keys have 64 bits, so a leaf
/// can sit at depth 64 at the deepest, under a branch at depth 63.
pub const KEY_BITS: u16 = 64;

#[derive(Clone, Copy, Debug, PartialEq, Eq, Structural)]
struct DictTreeLeaf {
    live: bool,
    next: i16,
    key: u64,
    value: u64,
}

#[derive(Clone, Copy, Debug, PartialEq, Eq, Structural)]
struct DictTreeMiddle {
    live: bool,
    next: i16,
    one: i16,
    zero: i16,
}

pub struct DictTreeMapImpl {
    leaves: Vec<DictTreeLeaf>,
    middles: Vec<DictTreeMiddle>,
    pub root: i16,
    pub first_free_leaf: i16,
    pub first_free_middle: i16,
    pub size: u16,
    free_leaf_count: u16,
    free_middle_count: u16,
    free_leaf_order: Ghost<Seq<int>>,
    free_middle_order: Ghost<Seq<int>>,
}

/// Bit `d` of `key`, as seen by the trie walk.
pub open spec fn key_bit(key: u64, d: int) -> bool {
    (key >> (d as u64)) & 1 == 1
}

pub open spec fn is_middle_ptr(p: int) -> bool {
    0 <= p < MAX_MIDDLES as int
}

pub open spec fn is_leaf_ptr(p: int) -> bool {
    MAX_MIDDLES as int <= p < MAX_MIDDLES as int + MAX_LEAVES as int
}

impl DictTreeMapImpl {
    pub closed spec fn spec_root(&self) -> i16 {
        self.root
    }

    pub closed spec fn spec_first_free_leaf(&self) -> i16 {
        self.first_free_leaf
    }

    pub closed spec fn spec_first_free_middle(&self) -> i16 {
        self.first_free_middle
    }

    pub closed spec fn spec_size(&self) -> u16 {
        self.size
    }

    /// How many leaves and middles the free lists still hold.
    pub closed spec fn spec_free_leaves(&self) -> int {
        self.free_leaf_order@.len() as int
    }

    pub closed spec fn spec_free_middles(&self) -> int {
        self.free_middle_order@.len() as int
    }

    spec fn spec_free_leaf_count(&self) -> u16 {
        self.free_leaf_count
    }

    spec fn spec_free_middle_count(&self) -> u16 {
        self.free_middle_count
    }

    spec fn leaf_at(&self, p: int) -> DictTreeLeaf {
        self.leaves@[p - MAX_MIDDLES as int]
    }

    spec fn middle_at(&self, p: int) -> DictTreeMiddle {
        self.middles@[p]
    }

    /// Arena node addressed by `p` is identical in `self` and `other`.
    spec fn node_eq(&self, other: &Self, p: int) -> bool {
        if is_leaf_ptr(p) {
            self.leaf_at(p) == other.leaf_at(p)
        } else if is_middle_ptr(p) {
            self.middle_at(p) == other.middle_at(p)
        } else {
            true
        }
    }

    /// Whether the node addressed by `p` is marked live.
    spec fn node_live(&self, p: int) -> bool {
        if is_leaf_ptr(p) {
            self.leaf_at(p).live
        } else if is_middle_ptr(p) {
            self.middle_at(p).live
        } else {
            false
        }
    }

    spec fn arrays_wf(&self) -> bool {
        self.leaves@.len() == MAX_LEAVES && self.middles@.len() == MAX_MIDDLES
    }

    /// The key-value pairs stored in the subtree rooted at `p`, which hangs
    /// at depth `d` of the trie.
    pub closed spec fn subtree_map(&self, p: int, d: int) -> Map<u64, u64>
        decreases KEY_BITS as int - d,
    {
        if is_leaf_ptr(p) {
            Map::empty().insert(self.leaf_at(p).key, self.leaf_at(p).value)
        } else if is_middle_ptr(p) && d < KEY_BITS as int {
            self.subtree_map(self.middle_at(p).zero as int, d + 1).union_prefer_right(
                self.subtree_map(self.middle_at(p).one as int, d + 1),
            )
        } else {
            Map::empty()
        }
    }

    /// The arena slots used by the subtree rooted at `p` at depth `d`.
    pub closed spec fn subtree_used(&self, p: int, d: int) -> Set<int>
        decreases KEY_BITS as int - d,
    {
        if is_leaf_ptr(p) {
            Set::empty().insert(p)
        } else if is_middle_ptr(p) && d < KEY_BITS as int {
            self.subtree_used(self.middle_at(p).zero as int, d + 1).union(
                self.subtree_used(self.middle_at(p).one as int, d + 1),
            ).insert(p)
        } else {
            Set::empty()
        }
    }

    /// Structural well-formedness of the subtree rooted at `p` at depth `d`:
    /// every node is live, sits in bounds for its depth, appears only once,
    /// and each branch separates its keys by bit `d`.
    pub closed spec fn subtree_ok(&self, p: int, d: int) -> bool
        decreases KEY_BITS as int - d,
    {
        if p < 0 {
            true
        } else if is_leaf_ptr(p) {
            self.leaf_at(p).live && d <= KEY_BITS as int
        } else if is_middle_ptr(p) {
            let one = self.middle_at(p).one as int;
            let zero = self.middle_at(p).zero as int;
            &&& d < KEY_BITS as int
            &&& self.middle_at(p).live
            &&& self.subtree_ok(one, d + 1)
            &&& self.subtree_ok(zero, d + 1)
            &&& (forall|k: u64| self.subtree_map(one, d + 1).dom().contains(k) ==> key_bit(k, d))
            &&& (forall|k: u64| self.subtree_map(zero, d + 1).dom().contains(k) ==> !key_bit(k, d))
            &&& self.subtree_used(one, d + 1).disjoint(self.subtree_used(zero, d + 1))
            &&& !self.subtree_used(one, d + 1).contains(p)
            &&& !self.subtree_used(zero, d + 1).contains(p)
        } else {
            false
        }
    }

    /// The free list of one arena is a chain of distinct, dead, in-bounds
    /// nodes starting at `head`, and holds every dead node of that arena.
    spec fn free_leaves_wf(&self) -> bool {
        let fl = self.free_leaf_order@;
        &&& (forall|i: int| 0 <= i < fl.len() ==> is_leaf_ptr(#[trigger] fl[i]))
        &&& (forall|i: int| 0 <= i < fl.len() ==> !self.leaf_at(#[trigger] fl[i]).live)
        &&& (forall|i: int, j: int| 0 <= i < j < fl.len() ==> fl[i] != fl[j])
        &&& self.first_free_leaf as int == (if fl.len() > 0 { fl[0] } else { -1 })
        &&& (forall|i: int| 0 <= i < fl.len() ==> self.leaf_at(#[trigger] fl[i]).next as int
            == (if i + 1 < fl.len() { fl[i + 1] } else { -1 }))
        &&& (forall|p: int| is_leaf_ptr(p) && !self.leaf_at(p).live ==> fl.contains(p))
        &&& self.free_leaf_count as int == fl.len()
    }

    spec fn free_middles_wf(&self) -> bool {
        let fm = self.free_middle_order@;
        &&& (forall|i: int| 0 <= i < fm.len() ==> is_middle_ptr(#[trigger] fm[i]))
        &&& (forall|i: int| 0 <= i < fm.len() ==> !self.middle_at(#[trigger] fm[i]).live)
        &&& (forall|i: int, j: int| 0 <= i < j < fm.len() ==> fm[i] != fm[j])
        &&& self.first_free_middle as int == (if fm.len() > 0 { fm[0] } else { -1 })
        &&& (forall|i: int| 0 <= i < fm.len() ==> self.middle_at(#[trigger] fm[i]).next as int
            == (if i + 1 < fm.len() { fm[i + 1] } else { -1 }))
        &&& (forall|p: int| is_middle_ptr(p) && !self.middle_at(p).live ==> fm.contains(p))
        &&& self.free_middle_count as int == fm.len()
    }

    /// Full well-formedness: the arenas have their fixed sizes, the tree is
    /// structurally sound, every live node stands in the tree, the free
    /// lists are sound and complete, and `size` counts the stored keys.
    pub closed spec fn wf(&self) -> bool {
        &&& self.arrays_wf()
        &&& self.subtree_ok(self.root as int, 0)
        &&& self.free_leaves_wf()
        &&& self.free_middles_wf()
        &&& self@.dom().finite()
        &&& self.size as int == self@.dom().len()
        &&& self.size as int + self.free_leaf_order@.len() as int == MAX_LEAVES as int
    }

    /// Whether the free lists can absorb an insertion of `key` into the
    /// subtree at `p`, depth `d`: splitting a leaf costs one new leaf and a
    /// chain of branches down to the first bit where the two keys differ.
    pub closed spec fn insert_fits_at(&self, p: int, d: int, key: u64, free_leaves: int, free_middles: int) -> bool
        decreases KEY_BITS as int - d,
    {
        if p < 0 {
            free_leaves >= 1
        } else if is_leaf_ptr(p) {
            if self.leaf_at(p).key == key {
                true
            } else {
                free_leaves >= 1 && free_middles >= chain_len(self.leaf_at(p).key, key, d)
            }
        } else if is_middle_ptr(p) && d < KEY_BITS as int {
            if key_bit(key, d) {
                self.insert_fits_at(self.middle_at(p).one as int, d + 1, key, free_leaves, free_middles)
            } else {
                self.insert_fits_at(self.middle_at(p).zero as int, d + 1, key, free_leaves, free_middles)
            }
        } else {
            false
        }
    }

    /// Whether `insert(key, _)` succeeds on the current state.
    pub closed spec fn insert_fits(&self, key: u64) -> bool {
        self.insert_fits_at(
            self.root as int,
            0,
            key,
            self.free_leaf_order@.len() as int,
            self.free_middle_order@.len() as int,
        )
    }
}

/// Number of branch nodes needed to separate two distinct keys that are
/// first told apart at or after bit `d`: one per bit up to and including
/// the first differing bit.
pub closed spec fn chain_len(k1: u64, k2: u64, d: int) -> int
    decreases KEY_BITS as int - d,
{
    if d >= KEY_BITS as int {
        0
    } else if key_bit(k1, d) != key_bit(k2, d) {
        1
    } else {
        1 + chain_len(k1, k2, d + 1)
    }
}


/// Dropping the head of a suffix takes the suffix one further.
proof fn lemma_skip_drop_first(s: Seq<int>, a: int)
    requires
        0 <= a < s.len(),
    ensures
        s.skip(a).drop_first() == s.skip(a + 1),
{
    assert(s.skip(a).drop_first() =~= s.skip(a + 1));
}

/// The chain needed to split two keys never exceeds the bits left below
/// the current depth.
pub proof fn lemma_chain_len_bound(k1: u64, k2: u64, d: int)
    requires
        0 <= d <= KEY_BITS as int,
    ensures
        chain_len(k1, k2, d) <= KEY_BITS as int - d,
        chain_len(k1, k2, d) >= 0,
    decreases KEY_BITS as int - d,
{
    if d >= KEY_BITS as int {
    } else if key_bit(k1, d) != key_bit(k2, d) {
    } else {
        lemma_chain_len_bound(k1, k2, d + 1);
    }
}

/// Two keys agree on every bit below `d`.
pub open spec fn low_bits_eq(k1: u64, k2: u64, d: int) -> bool {
    forall|t: int| 0 <= t < d ==> key_bit(k1, t) == key_bit(k2, t)
}

/// If two keys agree on every bit from `t` up, their upper parts agree.
proof fn lemma_high_bits_eq(k1: u64, k2: u64, t: u64)
    requires
        t <= 64,
        forall|s: int| t as int <= s < 64 ==> key_bit(k1, s) == key_bit(k2, s),
    ensures
        k1 >> t == k2 >> t,
    decreases 64 - t,
{
    if t == 64 {
        assert(k1 >> 64u64 == k2 >> 64u64) by (bit_vector);
    } else {
        let t1 = (t + 1) as u64;
        lemma_high_bits_eq(k1, k2, t1);
        assert(key_bit(k1, t as int) == key_bit(k2, t as int));
        assert(k1 >> t == k2 >> t) by (bit_vector)
            requires
                t < 64u64,
                t1 == t + 1,
                k1 >> t1 == k2 >> t1,
                ((k1 >> t) & 1 == 1) == ((k2 >> t) & 1 == 1),
        {
        }
    }
}

/// Keys that agree on all 64 bits are equal.
proof fn lemma_bits_eq(k1: u64, k2: u64)
    requires
        forall|s: int| 0 <= s < 64 ==> key_bit(k1, s) == key_bit(k2, s),
    ensures
        k1 == k2,
{
    lemma_high_bits_eq(k1, k2, 0);
    assert(k1 >> 0u64 == k1 && k2 >> 0u64 == k2) by (bit_vector);
}

/// The chain needed to split two keys whose first differing bit is `j`
/// has one branch per bit from `d` through `j`.
proof fn lemma_chain_len_split(k1: u64, k2: u64, d: int, j: int)
    requires
        0 <= d <= j < KEY_BITS as int,
        forall|t: int| d <= t < j ==> key_bit(k1, t) == key_bit(k2, t),
        key_bit(k1, j) != key_bit(k2, j),
    ensures
        chain_len(k1, k2, d) == j - d + 1,
    decreases j - d,
{
    if d == j {
    } else {
        lemma_chain_len_split(k1, k2, d + 1, j);
    }
}

/// Bit `d` of `key`, executable form.
fn bit_of(key: u64, d: u16) -> (b: bool)
    requires
        d < KEY_BITS,
    ensures
        b == key_bit(key, d as int),
{
    (key >> (d as u64)) & 1 == 1
}

impl View for DictTreeMapImpl {
    type V = Map<u64, u64>;

    /// The key-value pairs currently stored.
    closed spec fn view(&self) -> Map<u64, u64> {
        self.subtree_map(self.root as int, 0)
    }
}

impl DictTreeMapImpl {
    /// An empty map: a null root and both arenas fully chained as free.
    pub fn new() -> (r: Self)
        ensures
            r.wf(),
            r@ == Map::<u64, u64>::empty(),
            r.spec_root() == -1i16,
            r.spec_first_free_leaf() == MAX_MIDDLES as i16,
            r.spec_first_free_middle() == 0i16,
            r.spec_size() == 0u16,
            r.spec_free_leaves() == MAX_LEAVES as int,
            r.spec_free_middles() == MAX_MIDDLES as int,
    {
        let mut leaves: Vec<DictTreeLeaf> = Vec::new();
        let mut i: usize = 0;
        while i < MAX_LEAVES
            invariant
                i <= MAX_LEAVES,
                leaves@.len() == i as int,
                forall|j: int| 0 <= j < i as int ==> #[trigger] leaves@[j] == (DictTreeLeaf {
                    live: false,
                    next: if j == MAX_LEAVES as int - 1 { -1i16 } else { (MAX_MIDDLES as int + j + 1) as i16 },
                    key: 0u64,
                    value: 0u64,
                }),
            decreases MAX_LEAVES as int - i as int,
        {
            let next: i16 = if i == MAX_LEAVES - 1 { -1 } else { (MAX_MIDDLES + i + 1) as i16 };
            leaves.push(DictTreeLeaf { live: false, next, key: 0, value: 0 });
            i = i + 1;
        }
        let mut middles: Vec<DictTreeMiddle> = Vec::new();
        let mut j: usize = 0;
        while j < MAX_MIDDLES
            invariant
                j <= MAX_MIDDLES,
                middles@.len() == j as int,
                forall|k: int| 0 <= k < j as int ==> #[trigger] middles@[k] == (DictTreeMiddle {
                    live: false,
                    next: if k == MAX_MIDDLES as int - 1 { -1i16 } else { (k + 1) as i16 },
                    one: -1i16,
                    zero: -1i16,
                }),
            decreases MAX_MIDDLES as int - j as int,
        {
            let next: i16 = if j == MAX_MIDDLES - 1 { -1 } else { (j + 1) as i16 };
            middles.push(DictTreeMiddle { live: false, next, one: -1, zero: -1 });
            j = j + 1;
        }
        let r = DictTreeMapImpl {
            leaves,
            middles,
            root: -1,
            first_free_leaf: MAX_MIDDLES as i16,
            first_free_middle: 0,
            size: 0,
            free_leaf_count: MAX_LEAVES as u16,
            free_middle_count: MAX_MIDDLES as u16,
            free_leaf_order: Ghost(Seq::new(MAX_LEAVES as nat, |i: int| MAX_MIDDLES as int + i)),
            free_middle_order: Ghost(Seq::new(MAX_MIDDLES as nat, |i: int| i)),
        };
        proof {
            assert(r@ =~= Map::<u64, u64>::empty());
            assert(r@.dom() =~= Set::<u64>::empty());
            assert(forall|p: int| !r.node_live(p));
            let fl = r.free_leaf_order@;
            let fm = r.free_middle_order@;
            assert forall|i: int| 0 <= i < fl.len() implies is_leaf_ptr(#[trigger] fl[i])
                && !r.leaf_at(fl[i]).live
                && r.leaf_at(fl[i]).next as int == (if i + 1 < fl.len() { fl[i + 1] } else { -1 }) by {
                assert(fl[i] == MAX_MIDDLES as int + i);
            }
            assert forall|p: int| is_leaf_ptr(p) && !r.leaf_at(p).live implies fl.contains(p) by {
                assert(fl[p - MAX_MIDDLES as int] == p);
            }
            assert forall|i: int| 0 <= i < fm.len() implies is_middle_ptr(#[trigger] fm[i])
                && !r.middle_at(fm[i]).live
                && r.middle_at(fm[i]).next as int == (if i + 1 < fm.len() { fm[i + 1] } else { -1 }) by {
                assert(fm[i] == i);
            }
            assert forall|p: int| is_middle_ptr(p) && !r.middle_at(p).live implies fm.contains(p) by {
                assert(fm[p] == p);
            }
            assert(r.free_leaves_wf());
            assert(r.free_middles_wf());
        }
        r
    }

    /// Number of keys stored plus free leaves equals the leaf arena size;
    /// used to bound a free list before pushing onto it.
    proof fn lemma_free_list_bound(fl: Seq<int>, lo: int, hi: int, extra: int)
        requires
            forall|i: int, j: int| 0 <= i < j < fl.len() ==> fl[i] != fl[j],
            forall|i: int| 0 <= i < fl.len() ==> lo <= #[trigger] fl[i] < hi,
            lo <= extra < hi,
            !fl.contains(extra),
        ensures
            fl.len() < hi - lo,
    {
        let t = fl.push(extra);
        assert(t.no_duplicates());
        t.unique_seq_to_set();
        assert(t.to_set().subset_of(vstd::set_lib::set_int_range(lo, hi)));
        vstd::set_lib::lemma_int_range(lo, hi);
        vstd::set_lib::lemma_len_subset(t.to_set(), vstd::set_lib::set_int_range(lo, hi));
    }

    /// Framing: a subtree is untouched by writes outside its slots.
    proof fn lemma_subtree_frame(&self, other: &Self, p: int, d: int)
        requires
            self.arrays_wf(),
            other.arrays_wf(),
            self.subtree_ok(p, d),
            forall|q: int| self.subtree_used(p, d).contains(q) ==> self.node_eq(other, q),
        ensures
            other.subtree_ok(p, d),
            other.subtree_map(p, d) == self.subtree_map(p, d),
            other.subtree_used(p, d) == self.subtree_used(p, d),
        decreases KEY_BITS as int - d,
    {
        if p < 0 {
            assert(other.subtree_map(p, d) =~= self.subtree_map(p, d));
            assert(other.subtree_used(p, d) =~= self.subtree_used(p, d));
        } else if is_leaf_ptr(p) {
            assert(self.subtree_used(p, d).contains(p));
            assert(self.node_eq(other, p));
            assert(other.subtree_map(p, d) =~= self.subtree_map(p, d));
            assert(other.subtree_used(p, d) =~= self.subtree_used(p, d));
        } else {
            assert(self.subtree_used(p, d).contains(p));
            let one = self.middle_at(p).one as int;
            let zero = self.middle_at(p).zero as int;
            assert(forall|q: int| self.subtree_used(one, d + 1).contains(q)
                ==> self.subtree_used(p, d).contains(q));
            assert(forall|q: int| self.subtree_used(zero, d + 1).contains(q)
                ==> self.subtree_used(p, d).contains(q));
            self.lemma_subtree_frame(other, one, d + 1);
            self.lemma_subtree_frame(other, zero, d + 1);
            assert(self.node_eq(other, p));
            assert(other.middle_at(p) == self.middle_at(p));
            assert(other.subtree_map(p, d) =~= self.subtree_map(p, d));
            assert(other.subtree_used(p, d) =~= self.subtree_used(p, d));
        }
    }

    /// Take the first leaf off the free list and fill it.
    fn allocate_leaf(&mut self, key: u64, value: u64) -> (r: Result<i16, ErrorCode>)
        requires
            old(self).arrays_wf(),
            old(self).free_leaves_wf(),
        ensures
            final(self).arrays_wf(),
            final(self).free_leaves_wf(),
            final(self).middles@ == old(self).middles@,
            final(self).free_middle_order == old(self).free_middle_order,
            final(self).spec_free_middle_count() == old(self).spec_free_middle_count(),
            final(self).root == old(self).root,
            final(self).first_free_middle == old(self).first_free_middle,
            final(self).size == old(self).size,
            match r {
                Ok(p) => {
                    &&& is_leaf_ptr(p as int)
                    &&& old(self).free_leaf_order@.len() > 0
                    &&& p as int == old(self).free_leaf_order@[0]
                    &&& !old(self).leaf_at(p as int).live
                    &&& final(self).free_leaf_order@ == old(self).free_leaf_order@.drop_first()
                    &&& final(self).leaf_at(p as int) == (DictTreeLeaf {
                        live: true, next: -1i16, key, value,
                    })
                    &&& forall|q: int| q != p as int ==> old(self).node_eq(final(self), q)
                },
                Err(e) => {
                    &&& *final(self) == *old(self)
                    &&& e == ErrorCode::MaxLeavesReached
                    &&& old(self).free_leaf_order@.len() == 0
                },
            },
    {
        let head = self.first_free_leaf;
        if head < 0 {
            return Err(ErrorCode::MaxLeavesReached);
        }
        let idx = (head as usize) - MAX_MIDDLES;
        let next = self.leaves[idx].next;
        self.leaves.set(idx, DictTreeLeaf { live: true, next: -1, key, value });
        self.first_free_leaf = next;
        self.free_leaf_count = self.free_leaf_count - 1;
        proof {
            let fl = self.free_leaf_order@;
            self.free_leaf_order = Ghost(fl.drop_first());
            assert forall|q: int| is_leaf_ptr(q) && !self.leaf_at(q).live
                implies self.free_leaf_order@.contains(q) by {
                assert(fl.contains(q));
                let i = choose|i: int| 0 <= i < fl.len() && fl[i] == q;
                assert(i != 0);
                assert(self.free_leaf_order@[i - 1] == q);
            }
        }
        Ok(head)
    }

    /// Take the first middle node off the free list and set its children.
    fn allocate_middle(&mut self, one: i16, zero: i16) -> (r: Result<i16, ErrorCode>)
        requires
            old(self).arrays_wf(),
            old(self).free_middles_wf(),
        ensures
            final(self).arrays_wf(),
            final(self).free_middles_wf(),
            final(self).leaves@ == old(self).leaves@,
            final(self).free_leaf_order == old(self).free_leaf_order,
            final(self).spec_free_leaf_count() == old(self).spec_free_leaf_count(),
            final(self).root == old(self).root,
            final(self).first_free_leaf == old(self).first_free_leaf,
            final(self).size == old(self).size,
            match r {
                Ok(p) => {
                    &&& is_middle_ptr(p as int)
                    &&& old(self).free_middle_order@.len() > 0
                    &&& p as int == old(self).free_middle_order@[0]
                    &&& !old(self).middle_at(p as int).live
                    &&& final(self).free_middle_order@ == old(self).free_middle_order@.drop_first()
                    &&& final(self).middle_at(p as int) == (DictTreeMiddle {
                        live: true, next: -1i16, one, zero,
                    })
                    &&& forall|q: int| q != p as int ==> old(self).node_eq(final(self), q)
                },
                Err(e) => {
                    &&& *final(self) == *old(self)
                    &&& e == ErrorCode::MaxMiddlesReached
                    &&& old(self).free_middle_order@.len() == 0
                },
            },
    {
        let head = self.first_free_middle;
        if head < 0 {
            return Err(ErrorCode::MaxMiddlesReached);
        }
        let idx = head as usize;
        let next = self.middles[idx].next;
        self.middles.set(idx, DictTreeMiddle { live: true, next: -1, one, zero });
        self.first_free_middle = next;
        self.free_middle_count = self.free_middle_count - 1;
        proof {
            let fm = self.free_middle_order@;
            self.free_middle_order = Ghost(fm.drop_first());
            assert forall|q: int| is_middle_ptr(q) && !self.middle_at(q).live
                implies self.free_middle_order@.contains(q) by {
                assert(fm.contains(q));
                let i = choose|i: int| 0 <= i < fm.len() && fm[i] == q;
                assert(i != 0);
                assert(self.free_middle_order@[i - 1] == q);
            }
        }
        Ok(head)
    }

    /// Return a live leaf to the front of the free list.
    fn deallocate_leaf(&mut self, p: i16)
        requires
            old(self).arrays_wf(),
            old(self).free_leaves_wf(),
            is_leaf_ptr(p as int),
            old(self).leaf_at(p as int).live,
        ensures
            final(self).arrays_wf(),
            final(self).free_leaves_wf(),
            final(self).middles@ == old(self).middles@,
            final(self).free_middle_order == old(self).free_middle_order,
            final(self).spec_free_middle_count() == old(self).spec_free_middle_count(),
            final(self).root == old(self).root,
            final(self).first_free_middle == old(self).first_free_middle,
            final(self).size == old(self).size,
            final(self).free_leaf_order@ == seq![p as int] + old(self).free_leaf_order@,
            !final(self).leaf_at(p as int).live,
            forall|q: int| q != p as int ==> old(self).node_eq(final(self), q),
    {
        proof {
            assert(!old(self).free_leaf_order@.contains(p as int));
            Self::lemma_free_list_bound(
                old(self).free_leaf_order@,
                MAX_MIDDLES as int,
                MAX_MIDDLES as int + MAX_LEAVES as int,
                p as int,
            );
        }
        let idx = (p as usize) - MAX_MIDDLES;
        let old_head = self.first_free_leaf;
        self.leaves.set(idx, DictTreeLeaf { live: false, next: old_head, key: 0, value: 0 });
        self.first_free_leaf = p;
        self.free_leaf_count = self.free_leaf_count + 1;
        proof {
            let fl = self.free_leaf_order@;
            self.free_leaf_order = Ghost(seq![p as int] + fl);
            assert(!fl.contains(p as int));
            assert forall|q: int| is_leaf_ptr(q) && !self.leaf_at(q).live
                implies self.free_leaf_order@.contains(q) by {
                if q == p as int {
                    assert(self.free_leaf_order@[0] == q);
                } else {
                    assert(fl.contains(q));
                    let i = choose|i: int| 0 <= i < fl.len() && fl[i] == q;
                    assert(self.free_leaf_order@[i + 1] == q);
                }
            }
        }
    }

    /// Return a live middle node to the front of the free list.
    fn deallocate_middle(&mut self, p: i16)
        requires
            old(self).arrays_wf(),
            old(self).free_middles_wf(),
            is_middle_ptr(p as int),
            old(self).middle_at(p as int).live,
        ensures
            final(self).arrays_wf(),
            final(self).free_middles_wf(),
            final(self).leaves@ == old(self).leaves@,
            final(self).free_leaf_order == old(self).free_leaf_order,
            final(self).spec_free_leaf_count() == old(self).spec_free_leaf_count(),
            final(self).root == old(self).root,
            final(self).first_free_leaf == old(self).first_free_leaf,
            final(self).size == old(self).size,
            final(self).free_middle_order@ == seq![p as int] + old(self).free_middle_order@,
            !final(self).middle_at(p as int).live,
            forall|q: int| q != p as int ==> old(self).node_eq(final(self), q),
    {
        proof {
            assert(!old(self).free_middle_order@.contains(p as int));
            Self::lemma_free_list_bound(
                old(self).free_middle_order@,
                0,
                MAX_MIDDLES as int,
                p as int,
            );
        }
        let idx = p as usize;
        let old_head = self.first_free_middle;
        self.middles.set(idx, DictTreeMiddle { live: false, next: old_head, one: -1, zero: -1 });
        self.first_free_middle = p;
        self.free_middle_count = self.free_middle_count + 1;
        proof {
            let fm = self.free_middle_order@;
            self.free_middle_order = Ghost(seq![p as int] + fm);
            assert(!fm.contains(p as int));
            assert forall|q: int| is_middle_ptr(q) && !self.middle_at(q).live
                implies self.free_middle_order@.contains(q) by {
                if q == p as int {
                    assert(self.free_middle_order@[0] == q);
                } else {
                    assert(fm.contains(q));
                    let i = choose|i: int| 0 <= i < fm.len() && fm[i] == q;
                    assert(self.free_middle_order@[i + 1] == q);
                }
            }
        }
    }

    /// Every slot used by a well-formed subtree is live.
    proof fn lemma_used_live(&self, p: int, d: int)
        requires
            self.subtree_ok(p, d),
        ensures
            forall|q: int| #[trigger] self.subtree_used(p, d).contains(q) ==> self.node_live(q),
        decreases KEY_BITS as int - d,
    {
        if p < 0 {
        } else if is_leaf_ptr(p) {
        } else {
            self.lemma_used_live(self.middle_at(p).one as int, d + 1);
            self.lemma_used_live(self.middle_at(p).zero as int, d + 1);
        }
    }

    /// Look `key` up in the subtree hanging at depth `d`.
    fn get_at(&self, p: i16, d: u16, key: u64) -> (r: Option<u64>)
        requires
            self.arrays_wf(),
            self.subtree_ok(p as int, d as int),
        ensures
            r == (if self.subtree_map(p as int, d as int).dom().contains(key) {
                Some(self.subtree_map(p as int, d as int)[key])
            } else {
                None::<u64>
            }),
        decreases KEY_BITS as int - d as int,
    {
        if p < 0 {
            None
        } else if p >= MAX_MIDDLES as i16 {
            let leaf = &self.leaves[(p as usize) - MAX_MIDDLES];
            if leaf.key == key {
                Some(leaf.value)
            } else {
                None
            }
        } else {
            let m = &self.middles[p as usize];
            let bit = (key >> (d as u64)) & 1 == 1;
            let child = if bit { m.one } else { m.zero };
            let r = self.get_at(child, d + 1, key);
            proof {
                let one = self.middle_at(p as int).one as int;
                let zero = self.middle_at(p as int).zero as int;
                assert(bit == key_bit(key, d as int));
                if bit {
                    if self.subtree_map(zero, d as int + 1).dom().contains(key) {
                        assert(!key_bit(key, d as int));
                    }
                    assert(!self.subtree_map(zero, d as int + 1).dom().contains(key));
                } else {
                    if self.subtree_map(one, d as int + 1).dom().contains(key) {
                        assert(key_bit(key, d as int));
                    }
                    assert(!self.subtree_map(one, d as int + 1).dom().contains(key));
                }
            }
            r
        }
    }



    /// A fresh branch over the old leaf and a new leaf, at the first bit
    /// where the two keys differ, stores exactly the old pair plus the new.
    proof fn lemma_new_branch_two_leaves(
        s0: &Self, s2: &Self, p: int, nl: int, m: int, d: int, j: int,
        key: u64, value: u64, bj: bool,
    )
        requires
            s0.arrays_wf(),
            s2.arrays_wf(),
            is_leaf_ptr(p),
            is_leaf_ptr(nl),
            is_middle_ptr(m),
            p != nl,
            0 <= d <= j < KEY_BITS as int,
            s0.subtree_ok(p, d),
            s2.leaf_at(p) == s0.leaf_at(p),
            s2.leaf_at(nl) == (DictTreeLeaf { live: true, next: -1i16, key, value }),
            s2.middle_at(m).live,
            s2.middle_at(m).one as int == (if bj { nl } else { p }),
            s2.middle_at(m).zero as int == (if bj { p } else { nl }),
            key_bit(key, j) == bj,
            key_bit(s0.leaf_at(p).key, j) != bj,
        ensures
            s2.subtree_ok(m, j),
            s2.subtree_map(m, j) == s0.subtree_map(p, d).insert(key, value),
            s2.subtree_used(m, j) == Set::empty().insert(p).insert(nl).insert(m),
    {
        let lk = s0.leaf_at(p).key;
        assert(s2.subtree_ok(nl, j + 1));
        assert(s2.subtree_ok(p, j + 1));
        assert(s2.subtree_map(nl, j + 1) =~= Map::empty().insert(key, value));
        assert(s2.subtree_map(p, j + 1)
            =~= Map::empty().insert(lk, s0.leaf_at(p).value));
        assert(s2.subtree_used(nl, j + 1) =~= Set::empty().insert(nl));
        assert(s2.subtree_used(p, j + 1) =~= Set::empty().insert(p));
        assert(key != lk);
        assert(s2.subtree_ok(m, j));
        assert(s2.subtree_map(m, j) =~= s0.subtree_map(p, d).insert(key, value));
        assert(s2.subtree_used(m, j) =~= Set::empty().insert(p).insert(nl).insert(m));
    }

    /// A fresh single-child branch at depth `t` over a subtree whose keys
    /// all carry bit `b` at `t` stores the same map.
    proof fn lemma_chain_step(
        sp: &Self, s2: &Self, cur: int, nc: int, t: int, b: bool,
    )
        requires
            sp.arrays_wf(),
            s2.arrays_wf(),
            0 <= t < KEY_BITS as int,
            is_middle_ptr(nc),
            sp.subtree_ok(cur, t + 1),
            !sp.middle_at(nc).live,
            forall|q: int| q != nc ==> sp.node_eq(s2, q),
            s2.middle_at(nc).live,
            s2.middle_at(nc).one as int == (if b { cur } else { -1 }),
            s2.middle_at(nc).zero as int == (if b { -1 } else { cur }),
            forall|k: u64| sp.subtree_map(cur, t + 1).dom().contains(k)
                ==> key_bit(k, t) == b,
        ensures
            s2.subtree_ok(nc, t),
            s2.subtree_map(nc, t) == sp.subtree_map(cur, t + 1),
            s2.subtree_used(nc, t) == sp.subtree_used(cur, t + 1).insert(nc),
    {
        sp.lemma_used_live(cur, t + 1);
        assert(!sp.subtree_used(cur, t + 1).contains(nc));
        assert forall|q: int| sp.subtree_used(cur, t + 1).contains(q)
            implies sp.node_eq(s2, q) by {
            assert(q != nc);
        }
        sp.lemma_subtree_frame(s2, cur, t + 1);
        assert(s2.subtree_map(-1, t + 1) =~= Map::empty());
        assert(s2.subtree_used(-1, t + 1) =~= Set::empty());
        assert(s2.subtree_ok(cur, t + 1));
        assert(s2.subtree_map(cur, t + 1) == sp.subtree_map(cur, t + 1));
        assert forall|k: u64| s2.subtree_map(cur, t + 1).dom().contains(k)
            implies key_bit(k, t) == b by {
            assert(sp.subtree_map(cur, t + 1).dom().contains(k));
        }
        assert(s2.subtree_used(cur, t + 1) == sp.subtree_used(cur, t + 1));
        assert(!s2.subtree_used(cur, t + 1).contains(nc));
        if b {
            assert(s2.middle_at(nc).one as int == cur);
            assert(s2.middle_at(nc).zero as int == -1);
            assert(s2.subtree_ok(-1, t + 1));
            assert(s2.subtree_ok(nc, t));
        } else {
            assert(s2.middle_at(nc).one as int == -1);
            assert(s2.middle_at(nc).zero as int == cur);
            assert(s2.subtree_ok(-1, t + 1));
            assert(s2.subtree_ok(nc, t));
        }
        assert(s2.subtree_map(nc, t) =~= sp.subtree_map(cur, t + 1));
        assert(s2.subtree_used(nc, t) =~= sp.subtree_used(cur, t + 1).insert(nc));
    }


    /// One full step of the chain construction: all facts the loop carries,
    /// transported through one branch allocation.
    proof fn lemma_chain_step_full(
        s0: &Self, sp: &Self, s2: &Self,
        p: int, cur: int, nc: int, d: int, t: int,
        b: bool, key: u64, leaf_key: u64, lv: u64, value: u64,
    )
        requires
            s0.arrays_wf(),
            sp.arrays_wf(),
            s2.arrays_wf(),
            0 <= d <= t,
            t < KEY_BITS as int,
            is_leaf_ptr(p),
            is_middle_ptr(nc),
            s0.subtree_map(p, d) == Map::empty().insert(leaf_key, lv),
            key_bit(leaf_key, t) == key_bit(key, t),
            b == key_bit(key, t),
            sp.subtree_ok(cur, t + 1),
            sp.subtree_map(cur, t + 1) == s0.subtree_map(p, d).insert(key, value),
            forall|q: int| #[trigger] sp.subtree_used(cur, t + 1).contains(q)
                ==> q == p
                    || s0.free_leaf_order@.contains(q)
                    || s0.free_middle_order@.contains(q),
            sp.subtree_used(cur, t + 1).contains(p),
            forall|q: int| q != p
                && !s0.free_leaf_order@.contains(q)
                && !s0.free_middle_order@.contains(q)
                ==> s0.node_eq(sp, q),
            s0.free_middle_order@.contains(nc),
            !sp.middle_at(nc).live,
            forall|q: int| q != nc ==> sp.node_eq(s2, q),
            s2.middle_at(nc).live,
            s2.middle_at(nc).one as int == (if b { cur } else { -1 }),
            s2.middle_at(nc).zero as int == (if b { -1 } else { cur }),
        ensures
            s2.subtree_ok(nc, t),
            s2.subtree_map(nc, t) == s0.subtree_map(p, d).insert(key, value),
            forall|q: int| #[trigger] s2.subtree_used(nc, t).contains(q)
                ==> q == p
                    || s0.free_leaf_order@.contains(q)
                    || s0.free_middle_order@.contains(q),
            s2.subtree_used(nc, t).contains(p),
            forall|q: int| q != p
                && !s0.free_leaf_order@.contains(q)
                && !s0.free_middle_order@.contains(q)
                ==> s0.node_eq(s2, q),
    {
        assert forall|k: u64| sp.subtree_map(cur, t + 1).dom().contains(k)
            implies key_bit(k, t) == b by {
            assert(k == leaf_key || k == key);
        }
        Self::lemma_chain_step(sp, s2, cur, nc, t, b);
        assert forall|q: int| #[trigger] s2.subtree_used(nc, t).contains(q)
            implies q == p
                || s0.free_leaf_order@.contains(q)
                || s0.free_middle_order@.contains(q) by {
            if q != nc {
                assert(sp.subtree_used(cur, t + 1).contains(q));
            }
        }
        assert forall|q: int| q != p
            && !s0.free_leaf_order@.contains(q)
            && !s0.free_middle_order@.contains(q)
            implies s0.node_eq(s2, q) by {
            assert(q != nc);
            assert(s0.node_eq(sp, q));
            assert(sp.node_eq(s2, q));
        }
    }


    /// Allocate the single-child branch for depth `t`, one step of the
    /// chain that `split_leaf` builds bottom-up.
    #[verifier::rlimit(100)]
    #[verifier::spinoff_prover]
    fn chain_one(
        &mut self,
        cur: i16,
        t: u16,
        key: u64,
        Ghost(s0): Ghost<Self>,
        Ghost(p): Ghost<int>,
        Ghost(d): Ghost<int>,
        Ghost(j): Ghost<int>,
        Ghost(leaf_key): Ghost<u64>,
        Ghost(lv): Ghost<u64>,
        Ghost(value): Ghost<u64>,
    ) -> (nc: i16)
        requires
            s0.arrays_wf(),
            old(self).arrays_wf(),
            old(self).free_leaves_wf(),
            old(self).free_middles_wf(),
            is_leaf_ptr(p),
            0 <= d <= t as int,
            (t as int) < j,
            j < KEY_BITS as int,
            s0.subtree_map(p, d) == Map::empty().insert(leaf_key, lv),
            key_bit(leaf_key, t as int) == key_bit(key, t as int),
            old(self).subtree_ok(cur as int, t as int + 1),
            old(self).subtree_map(cur as int, t as int + 1)
                == s0.subtree_map(p, d).insert(key, value),
            old(self).free_leaf_order@ == s0.free_leaf_order@.drop_first(),
            old(self).free_middle_order@ == s0.free_middle_order@.skip(j - t as int),
            j - d + 1 <= s0.free_middle_order@.len(),
            forall|q: int| #[trigger] old(self).subtree_used(cur as int, t as int + 1).contains(q)
                ==> q == p
                    || s0.free_leaf_order@.contains(q)
                    || s0.free_middle_order@.contains(q),
            old(self).subtree_used(cur as int, t as int + 1).contains(p),
            forall|q: int| q != p
                && !s0.free_leaf_order@.contains(q)
                && !s0.free_middle_order@.contains(q)
                ==> s0.node_eq(old(self), q),
            old(self).root == s0.root,
            old(self).size == s0.size,
        ensures
            final(self).arrays_wf(),
            final(self).free_leaves_wf(),
            final(self).free_middles_wf(),
            final(self).root == s0.root,
            final(self).size == s0.size,
            is_middle_ptr(nc as int),
            final(self).subtree_ok(nc as int, t as int),
            final(self).subtree_map(nc as int, t as int)
                == s0.subtree_map(p, d).insert(key, value),
            final(self).free_leaf_order@ == s0.free_leaf_order@.drop_first(),
            final(self).free_middle_order@ == s0.free_middle_order@.skip(j - t as int + 1),
            forall|q: int| #[trigger] final(self).subtree_used(nc as int, t as int).contains(q)
                ==> q == p
                    || s0.free_leaf_order@.contains(q)
                    || s0.free_middle_order@.contains(q),
            final(self).subtree_used(nc as int, t as int).contains(p),
            forall|q: int| q != p
                && !s0.free_leaf_order@.contains(q)
                && !s0.free_middle_order@.contains(q)
                ==> s0.node_eq(final(self), q),
    {
        let ghost sp = *self;
        let b = bit_of(key, t);
        let next = if b {
            self.allocate_middle(cur, -1)
        } else {
            self.allocate_middle(-1, cur)
        };
        let nc = match next {
            Ok(m) => m,
            Err(e) => {
                proof {
                    assert(sp.free_middle_order@.len() > 0) by {
                        assert(s0.free_middle_order@.len() - (j - t as int) > 0);
                    }
                    assert(false);
                }
                return -1;
            },
        };
        proof {
            lemma_skip_drop_first(s0.free_middle_order@, j - t as int);
            assert(self.free_middle_order@ == s0.free_middle_order@.skip(j - t as int + 1));
            assert(s0.free_middle_order@.contains(nc as int)) by {
                assert(sp.free_middle_order@[0] == nc as int);
                assert(s0.free_middle_order@[j - t as int] == nc as int);
            }
            Self::lemma_chain_step_full(
                &s0, &sp, self,
                p, cur as int, nc as int, d, t as int,
                b, key, leaf_key, lv, value,
            );
            assert(self.free_leaf_order@ == s0.free_leaf_order@.drop_first());
        }
        nc
    }

    /// Split the leaf at `p` (depth `d`, key different from `key`) by a
    /// chain of branches down to the first differing bit, or report that an
    /// arena is exhausted, changing nothing.
    #[verifier::rlimit(100)]
    fn split_leaf(&mut self, p: i16, d: u16, key: u64, value: u64) -> (r: Result<i16, ErrorCode>)
        requires
            old(self).arrays_wf(),
            old(self).free_leaves_wf(),
            old(self).free_middles_wf(),
            old(self).subtree_ok(p as int, d as int),
            is_leaf_ptr(p as int),
            old(self).leaf_at(p as int).key != key,
            d <= KEY_BITS,
            low_bits_eq(old(self).leaf_at(p as int).key, key, d as int),
        ensures
            final(self).arrays_wf(),
            final(self).free_leaves_wf(),
            final(self).free_middles_wf(),
            final(self).root == old(self).root,
            final(self).size == old(self).size,
            match r {
                Ok(np) => {
                    &&& final(self).subtree_ok(np as int, d as int)
                    &&& final(self).subtree_map(np as int, d as int)
                        == old(self).subtree_map(p as int, d as int).insert(key, value)
                    &&& final(self).free_leaf_order@ == old(self).free_leaf_order@.drop_first()
                    &&& old(self).free_leaf_order@.len() > 0
                    &&& (exists|c: int| 0 <= c <= KEY_BITS as int
                        && c <= old(self).free_middle_order@.len()
                        && final(self).free_middle_order@ == old(self).free_middle_order@.skip(c))
                    &&& (forall|q: int| !old(self).subtree_used(p as int, d as int).contains(q)
                        && !old(self).free_leaf_order@.contains(q)
                        && !old(self).free_middle_order@.contains(q)
                        ==> old(self).node_eq(final(self), q))
                    &&& (forall|q: int| final(self).subtree_used(np as int, d as int).contains(q)
                        ==> old(self).subtree_used(p as int, d as int).contains(q)
                            || old(self).free_leaf_order@.contains(q)
                            || old(self).free_middle_order@.contains(q))
                    &&& (forall|q: int| old(self).subtree_used(p as int, d as int).contains(q)
                        ==> final(self).subtree_used(np as int, d as int).contains(q))
                    &&& old(self).insert_fits_at(
                        p as int, d as int, key,
                        old(self).free_leaf_order@.len() as int,
                        old(self).free_middle_order@.len() as int,
                    )
                },
                Err(e) => {
                    &&& *final(self) == *old(self)
                    &&& (e == ErrorCode::MaxLeavesReached || e == ErrorCode::MaxMiddlesReached)
                    &&& !old(self).insert_fits_at(
                        p as int, d as int, key,
                        old(self).free_leaf_order@.len() as int,
                        old(self).free_middle_order@.len() as int,
                    )
                },
            },
    {
        let idx = (p as usize) - MAX_MIDDLES;
        let leaf = self.leaves[idx];
        // The keys share a prefix from bit d on; scan for the first
        // differing bit, then build the branch chain bottom up.
        let leaf_key = leaf.key;
        proof {
            assert(old(self).subtree_map(p as int, d as int)
                =~= Map::empty().insert(leaf_key, leaf.value));
            assert(old(self).subtree_map(p as int, d as int).dom().contains(leaf_key));
        }
        let mut j: u16 = d;
        while j < KEY_BITS && bit_of(leaf_key, j) == bit_of(key, j)
            invariant
                d <= j <= KEY_BITS,
                forall|t: int| d as int <= t < j as int
                    ==> key_bit(leaf_key, t) == key_bit(key, t),
                low_bits_eq(leaf_key, key, d as int),
                leaf_key != key,
            decreases KEY_BITS as int - j as int,
        {
            j = j + 1;
        }
        if j == KEY_BITS {
            proof {
                lemma_bits_eq(leaf_key, key);
            }
            return Err(ErrorCode::MaxLeavesReached);
        }
        proof {
            lemma_chain_len_split(leaf_key, key, d as int, j as int);
        }
        let needed: u16 = j - d + 1;
        if self.free_middle_count < needed {
            return Err(ErrorCode::MaxMiddlesReached);
        }
        if self.free_leaf_count == 0 {
            return Err(ErrorCode::MaxLeavesReached);
        }
        let ghost s0 = *old(self);
        let ghost lv = leaf.value;
        let new_leaf = match self.allocate_leaf(key, value) {
            Ok(nl) => nl,
            Err(e) => {
                proof {
                    assert(false);
                }
                return Err(e);
            },
        };
        let ghost s1 = *self;
        // The branch that finally separates the two keys.
        let bj = bit_of(key, j);
        let first = if bj {
            self.allocate_middle(new_leaf, p)
        } else {
            self.allocate_middle(p, new_leaf)
        };
        let mut cur = match first {
            Ok(m) => m,
            Err(e) => {
                proof {
                    assert(false);
                }
                return Err(e);
            },
        };
        proof {
            assert(p as int != new_leaf as int);
            assert(s0.node_eq(&s1, p as int));
            assert(s1.node_eq(self, p as int) && s1.node_eq(self, new_leaf as int));
            Self::lemma_new_branch_two_leaves(
                &s0, self, p as int, new_leaf as int, cur as int,
                d as int, j as int, key, value, bj,
            );
            assert(s0.free_leaf_order@.contains(new_leaf as int)) by {
                assert(s0.free_leaf_order@[0] == new_leaf as int);
            }
            assert(s0.free_middle_order@.contains(cur as int)) by {
                assert(s1.free_middle_order@ == s0.free_middle_order@);
                assert(s0.free_middle_order@[0] == cur as int);
            }
            assert forall|q: int| q != p as int
                && !s0.free_leaf_order@.contains(q)
                && !s0.free_middle_order@.contains(q)
                implies s0.node_eq(self, q) by {
                assert(q != new_leaf as int && q != cur as int);
                assert(s0.node_eq(&s1, q));
                assert(s1.node_eq(self, q));
            }
            assert(self.subtree_used(cur as int, j as int).contains(p as int));
        }
        // Single-child branches carry the shared bits back up to d.
        let mut t: u16 = j;
        while t > d
            invariant
                d <= t <= j < KEY_BITS,
                s0.arrays_wf(),
                is_leaf_ptr(p as int),
                self.arrays_wf(),
                self.free_leaves_wf(),
                self.free_middles_wf(),
                self.root == s0.root,
                self.size == s0.size,
                is_middle_ptr(cur as int),
                self.subtree_ok(cur as int, t as int),
                s0.subtree_map(p as int, d as int) == Map::empty().insert(leaf_key, lv),
                self.subtree_map(cur as int, t as int)
                    == s0.subtree_map(p as int, d as int).insert(key, value),
                self.free_leaf_order@ == s0.free_leaf_order@.drop_first(),
                self.free_middle_order@
                    == s0.free_middle_order@.skip(j as int - t as int + 1),
                j as int - d as int + 1 <= s0.free_middle_order@.len(),
                forall|q: int| self.subtree_used(cur as int, t as int).contains(q)
                    ==> q == p as int
                        || s0.free_leaf_order@.contains(q)
                        || s0.free_middle_order@.contains(q),
                self.subtree_used(cur as int, t as int).contains(p as int),
                forall|q: int| q != p as int
                    && !s0.free_leaf_order@.contains(q)
                    && !s0.free_middle_order@.contains(q)
                    ==> s0.node_eq(self, q),
                forall|tb: int| d as int <= tb < j as int
                    ==> key_bit(leaf_key, tb) == key_bit(key, tb),
            decreases t as int,
        {
            t = t - 1;
            let nc = self.chain_one(
                cur, t, key,
                Ghost(s0), Ghost(p as int), Ghost(d as int), Ghost(j as int),
                Ghost(leaf_key), Ghost(lv), Ghost(value),
            );
            cur = nc;
        }
        proof {
            let flen = s0.free_leaf_order@.len() as int;
            let fmlen = s0.free_middle_order@.len() as int;
            assert(s0.insert_fits_at(p as int, d as int, key, flen, fmlen));
            assert(!s0.subtree_map(p as int, d as int).dom().contains(key));
            assert(s0.subtree_used(p as int, d as int) =~= Set::empty().insert(p as int));
        }
        Ok(cur)
    }


    /// Reattaching an updated child subtree under branch `p` after an
    /// insertion below: the branch is sound again and stores the old map
    /// plus the new pair.
    #[verifier::rlimit(100)]
    proof fn lemma_reattach(
        s0: &Self, s1: &Self, s2: &Self,
        p: int, d: int, b: bool, nc: int, chd: int, key: u64, value: u64,
    )
        requires
            s0.arrays_wf(),
            s1.arrays_wf(),
            s2.arrays_wf(),
            s0.free_leaves_wf(),
            s0.free_middles_wf(),
            s0.subtree_ok(p, d),
            is_middle_ptr(p),
            0 <= d < KEY_BITS as int,
            b == key_bit(key, d),
            chd == (if b { s0.middle_at(p).one } else { s0.middle_at(p).zero }) as int,
            s1.subtree_ok(nc, d + 1),
            s1.subtree_map(nc, d + 1) == s0.subtree_map(chd, d + 1).insert(key, value),
            forall|q: int| !s0.subtree_used(chd, d + 1).contains(q)
                && !s0.free_leaf_order@.contains(q)
                && !s0.free_middle_order@.contains(q)
                ==> s0.node_eq(s1, q),
            forall|q: int| #[trigger] s1.subtree_used(nc, d + 1).contains(q)
                ==> s0.subtree_used(chd, d + 1).contains(q)
                    || s0.free_leaf_order@.contains(q)
                    || s0.free_middle_order@.contains(q),
            forall|q: int| #[trigger] s0.subtree_used(chd, d + 1).contains(q)
                ==> s1.subtree_used(nc, d + 1).contains(q),
            s2.middle_at(p).live,
            s2.middle_at(p).one as int
                == (if b { nc } else { s0.middle_at(p).one as int }),
            s2.middle_at(p).zero as int
                == (if b { s0.middle_at(p).zero as int } else { nc }),
            forall|q: int| q != p ==> s1.node_eq(s2, q),
        ensures
            s2.subtree_ok(p, d),
            s2.subtree_map(p, d) == s0.subtree_map(p, d).insert(key, value),
            forall|q: int| !s0.subtree_used(p, d).contains(q)
                && !s0.free_leaf_order@.contains(q)
                && !s0.free_middle_order@.contains(q)
                ==> s0.node_eq(s2, q),
            forall|q: int| #[trigger] s2.subtree_used(p, d).contains(q)
                ==> s0.subtree_used(p, d).contains(q)
                    || s0.free_leaf_order@.contains(q)
                    || s0.free_middle_order@.contains(q),
            forall|q: int| #[trigger] s0.subtree_used(p, d).contains(q)
                ==> s2.subtree_used(p, d).contains(q),
            s0.subtree_map(p, d).dom().contains(key)
                <==> s0.subtree_map(chd, d + 1).dom().contains(key),
    {
        let one = s0.middle_at(p).one as int;
        let zero = s0.middle_at(p).zero as int;
        let sib = if b { zero } else { one };
        let fl0 = s0.free_leaf_order@;
        let fm0 = s0.free_middle_order@;
        assert(!fl0.contains(p) && !fm0.contains(p)) by {
            if fl0.contains(p) {
                let i = choose|i: int| 0 <= i < fl0.len() && fl0[i] == p;
                assert(is_leaf_ptr(fl0[i]));
            }
            if fm0.contains(p) {
                let i = choose|i: int| 0 <= i < fm0.len() && fm0[i] == p;
                assert(!s0.middle_at(fm0[i]).live);
            }
        }
        assert(s0.node_eq(s1, p));
        // The sibling subtree is made of live nodes outside the touched
        // region, so it is unchanged.
        s0.lemma_used_live(sib, d + 1);
        assert forall|q: int| #[trigger] s0.subtree_used(sib, d + 1).contains(q)
            implies s0.node_eq(s2, q) by {
            assert(s0.node_live(q));
            if is_leaf_ptr(q) && fl0.contains(q) {
                let i = choose|i: int| 0 <= i < fl0.len() && fl0[i] == q;
                assert(!s0.leaf_at(fl0[i]).live);
            }
            if is_middle_ptr(q) && fm0.contains(q) {
                let i = choose|i: int| 0 <= i < fm0.len() && fm0[i] == q;
                assert(!s0.middle_at(fm0[i]).live);
            }
            assert(!fl0.contains(q) && !fm0.contains(q));
            assert(q != p);
            assert(s0.node_eq(s1, q));
            assert(s1.node_eq(s2, q));
        }
        s0.lemma_subtree_frame(s2, sib, d + 1);
        // The new child is intact after the write to p.
        assert(!s1.subtree_used(nc, d + 1).contains(p));
        assert forall|q: int| #[trigger] s1.subtree_used(nc, d + 1).contains(q)
            implies s1.node_eq(s2, q) by {
        }
        s1.lemma_subtree_frame(s2, nc, d + 1);
        assert(s2.subtree_used(nc, d + 1) == s1.subtree_used(nc, d + 1));
        assert forall|q: int| #[trigger] s2.subtree_used(nc, d + 1).contains(q)
            implies q != p by {
            if s0.subtree_used(chd, d + 1).contains(q) {
                assert(!s0.subtree_used(chd, d + 1).contains(p));
            }
        }
        assert(s2.subtree_used(nc, d + 1).disjoint(s2.subtree_used(sib, d + 1))) by {
            assert forall|q: int|
                #[trigger] s2.subtree_used(nc, d + 1).contains(q)
                implies !s2.subtree_used(sib, d + 1).contains(q) by {
                if s2.subtree_used(sib, d + 1).contains(q) {
                    assert(s0.subtree_used(sib, d + 1).contains(q));
                    assert(s0.node_live(q));
                    if is_leaf_ptr(q) && fl0.contains(q) {
                        let i = choose|i: int| 0 <= i < fl0.len() && fl0[i] == q;
                        assert(!s0.leaf_at(fl0[i]).live);
                    }
                    if is_middle_ptr(q) && fm0.contains(q) {
                        let i = choose|i: int| 0 <= i < fm0.len() && fm0[i] == q;
                        assert(!s0.middle_at(fm0[i]).live);
                    }
                    assert(s0.subtree_used(chd, d + 1).contains(q)
                        || fl0.contains(q) || fm0.contains(q));
                    assert(false);
                }
            }
        }
        assert(!s2.subtree_used(sib, d + 1).contains(p));
        assert(s2.subtree_ok(p, d));
        assert(s2.subtree_map(p, d) =~= s0.subtree_map(p, d).insert(key, value));
        assert forall|q: int| !s0.subtree_used(p, d).contains(q)
            && !fl0.contains(q) && !fm0.contains(q)
            implies s0.node_eq(s2, q) by {
            assert(!s0.subtree_used(chd, d + 1).contains(q));
            assert(q != p);
            assert(s0.node_eq(s1, q));
            assert(s1.node_eq(s2, q));
        }
        assert forall|q: int| #[trigger] s2.subtree_used(p, d).contains(q)
            implies s0.subtree_used(p, d).contains(q)
                || fl0.contains(q) || fm0.contains(q) by {
        }
        assert forall|q: int| #[trigger] s0.subtree_used(p, d).contains(q)
            implies s2.subtree_used(p, d).contains(q) by {
        }
        if s0.subtree_map(sib, d + 1).dom().contains(key) {
            assert(key_bit(key, d) == !b);
            assert(false);
        }
    }

    /// Insert `key -> value` into the subtree hanging at depth `d`,
    /// returning the new subtree root and whether the key was new.  On any
    /// capacity error the whole structure is left exactly as it was.
    #[verifier::rlimit(100)]
    #[verifier::spinoff_prover]
    fn insert_at(&mut self, p: i16, d: u16, key: u64, value: u64) -> (r: Result<(i16, bool), ErrorCode>)
        requires
            old(self).arrays_wf(),
            old(self).free_leaves_wf(),
            old(self).free_middles_wf(),
            old(self).subtree_ok(p as int, d as int),
            d <= KEY_BITS,
            forall|k: u64| old(self).subtree_map(p as int, d as int).dom().contains(k)
                ==> low_bits_eq(k, key, d as int),
        ensures
            final(self).arrays_wf(),
            final(self).free_leaves_wf(),
            final(self).free_middles_wf(),
            final(self).root == old(self).root,
            final(self).size == old(self).size,
            match r {
                Ok(pr) => {
                    &&& final(self).subtree_ok(pr.0 as int, d as int)
                    &&& final(self).subtree_map(pr.0 as int, d as int)
                        == old(self).subtree_map(p as int, d as int).insert(key, value)
                    &&& (pr.1 <==> !old(self).subtree_map(p as int, d as int).dom().contains(key))
                    &&& (pr.1 ==> final(self).free_leaf_order@
                        == old(self).free_leaf_order@.drop_first()
                        && old(self).free_leaf_order@.len() > 0)
                    &&& (!pr.1 ==> final(self).free_leaf_order@ == old(self).free_leaf_order@
                        && final(self).free_middle_order@ == old(self).free_middle_order@)
                    &&& (exists|c: int| 0 <= c <= KEY_BITS as int
                        && c <= old(self).free_middle_order@.len()
                        && final(self).free_middle_order@ == old(self).free_middle_order@.skip(c))
                    &&& (p < 0 ==> final(self).free_middle_order@
                        == old(self).free_middle_order@)
                    &&& (forall|q: int| !old(self).subtree_used(p as int, d as int).contains(q)
                        && !old(self).free_leaf_order@.contains(q)
                        && !old(self).free_middle_order@.contains(q)
                        ==> old(self).node_eq(final(self), q))
                    &&& (forall|q: int| final(self).subtree_used(pr.0 as int, d as int).contains(q)
                        ==> old(self).subtree_used(p as int, d as int).contains(q)
                            || old(self).free_leaf_order@.contains(q)
                            || old(self).free_middle_order@.contains(q))
                    &&& (forall|q: int| old(self).subtree_used(p as int, d as int).contains(q)
                        ==> final(self).subtree_used(pr.0 as int, d as int).contains(q))
                    &&& old(self).insert_fits_at(
                        p as int, d as int, key,
                        old(self).free_leaf_order@.len() as int,
                        old(self).free_middle_order@.len() as int,
                    )
                },
                Err(e) => {
                    &&& *final(self) == *old(self)
                    &&& (e == ErrorCode::MaxLeavesReached || e == ErrorCode::MaxMiddlesReached)
                    &&& !old(self).insert_fits_at(
                        p as int, d as int, key,
                        old(self).free_leaf_order@.len() as int,
                        old(self).free_middle_order@.len() as int,
                    )
                },
            },
        decreases KEY_BITS as int - d as int,
    {
        if p < 0 {
            let np = match self.allocate_leaf(key, value) {
                Ok(np) => np,
                Err(e) => {
                    return Err(e);
                },
            };
            proof {
                assert(final(self).subtree_map(np as int, d as int)
                    =~= old(self).subtree_map(p as int, d as int).insert(key, value));
                assert(final(self).subtree_used(np as int, d as int)
                    =~= Set::empty().insert(np as int));
                assert(old(self).free_leaf_order@.contains(np as int));
                assert(self.free_middle_order@ == old(self).free_middle_order@.skip(0)) by {
                    assert(old(self).free_middle_order@.skip(0) =~= old(self).free_middle_order@);
                }
            }
            Ok((np, true))
        } else if p >= MAX_MIDDLES as i16 {
            let idx = (p as usize) - MAX_MIDDLES;
            let leaf = self.leaves[idx];
            if leaf.key == key {
                self.leaves.set(idx, DictTreeLeaf { live: true, next: leaf.next, key, value });
                proof {
                    let fl = old(self).free_leaf_order@;
                    assert forall|i: int| 0 <= i < fl.len() implies #[trigger] fl[i] != p as int by {
                        assert(!old(self).leaf_at(fl[i]).live);
                    }
                    assert(!fl.contains(p as int));
                    assert(self.free_leaves_wf());
                    assert(self.subtree_map(p as int, d as int)
                        =~= old(self).subtree_map(p as int, d as int).insert(key, value));
                    assert(self.subtree_used(p as int, d as int)
                        =~= old(self).subtree_used(p as int, d as int));
                    assert(self.free_middle_order@ == old(self).free_middle_order@.skip(0)) by {
                        assert(old(self).free_middle_order@.skip(0)
                            =~= old(self).free_middle_order@);
                    }
                }
                Ok((p, false))
            } else {
                proof {
                    assert(old(self).subtree_map(p as int, d as int)
                        =~= Map::empty().insert(leaf.key, leaf.value));
                    assert(!old(self).subtree_map(p as int, d as int).dom().contains(key));
                }
                match self.split_leaf(p, d, key, value) {
                    Ok(np) => Ok((np, true)),
                    Err(e) => Err(e),
                }
            }
        } else {
            // A branch: descend along the key's bit at this depth.
            let m = self.middles[p as usize];
            let b = bit_of(key, d);
            let child = if b { m.one } else { m.zero };
            let ghost s0 = *old(self);
            proof {
                assert forall|k: u64|
                    #[trigger] s0.subtree_map(child as int, d as int + 1).dom().contains(k)
                    implies low_bits_eq(k, key, d as int + 1) by {
                    assert(s0.subtree_map(p as int, d as int).dom().contains(k));
                    assert(low_bits_eq(k, key, d as int));
                    assert(key_bit(k, d as int) == key_bit(key, d as int));
                    assert forall|t: int| 0 <= t < d as int + 1
                        implies key_bit(k, t) == key_bit(key, t) by {
                        if t < d as int {
                            assert(key_bit(k, t) == key_bit(key, t));
                        }
                    }
                }
            }
            let rr = self.insert_at(child, d + 1, key, value);
            match rr {
                Err(e) => Err(e),
                Ok((nc, fresh)) => {
                    let ghost s1 = *self;
                    let nm = if b {
                        DictTreeMiddle { live: true, next: m.next, one: nc, zero: m.zero }
                    } else {
                        DictTreeMiddle { live: true, next: m.next, one: m.one, zero: nc }
                    };
                    self.middles.set(p as usize, nm);
                    proof {
                        let dd = d as int;
                        let chd = (if b { s0.middle_at(p as int).one } else {
                            s0.middle_at(p as int).zero
                        }) as int;
                        Self::lemma_reattach(
                            &s0, &s1, self, p as int, dd, b, nc as int, chd, key, value,
                        );
                    }
                    Ok((p, fresh))
                },
            }
        }
    }


    /// Reattaching a child subtree under branch `p` after a removal below:
    /// the branch is sound and stores the old map minus the key.
    #[verifier::rlimit(100)]
    proof fn lemma_reattach_removed(
        s0: &Self, s1: &Self, s2: &Self,
        p: int, d: int, b: bool, nc: int, chd: int, key: u64,
    )
        requires
            s0.arrays_wf(),
            s1.arrays_wf(),
            s2.arrays_wf(),
            s0.free_leaves_wf(),
            s0.free_middles_wf(),
            s0.subtree_ok(p, d),
            is_middle_ptr(p),
            0 <= d < KEY_BITS as int,
            b == key_bit(key, d),
            chd == (if b { s0.middle_at(p).one } else { s0.middle_at(p).zero }) as int,
            s1.subtree_ok(nc, d + 1),
            s1.subtree_map(nc, d + 1) == s0.subtree_map(chd, d + 1).remove(key),
            forall|q: int| !s0.subtree_used(chd, d + 1).contains(q)
                ==> s0.node_eq(s1, q),
            forall|q: int| #[trigger] s1.subtree_used(nc, d + 1).contains(q)
                ==> s0.subtree_used(chd, d + 1).contains(q),
            s2.middle_at(p).live,
            s2.middle_at(p).one as int
                == (if b { nc } else { s0.middle_at(p).one as int }),
            s2.middle_at(p).zero as int
                == (if b { s0.middle_at(p).zero as int } else { nc }),
            forall|q: int| q != p ==> s1.node_eq(s2, q),
        ensures
            s2.subtree_ok(p, d),
            s2.subtree_map(p, d) == s0.subtree_map(p, d).remove(key),
            forall|q: int| !s0.subtree_used(p, d).contains(q)
                ==> s0.node_eq(s2, q),
            forall|q: int| #[trigger] s2.subtree_used(p, d).contains(q)
                ==> s0.subtree_used(p, d).contains(q),
            s0.subtree_map(p, d).dom().contains(key)
                <==> s0.subtree_map(chd, d + 1).dom().contains(key),
    {
        let one = s0.middle_at(p).one as int;
        let zero = s0.middle_at(p).zero as int;
        let sib = if b { zero } else { one };
        assert(!s0.subtree_used(chd, d + 1).contains(p));
        assert(s0.node_eq(s1, p));
        // The sibling sits outside the child subtree, so it is unchanged.
        assert forall|q: int| #[trigger] s0.subtree_used(sib, d + 1).contains(q)
            implies s0.node_eq(s2, q) by {
            assert(!s0.subtree_used(chd, d + 1).contains(q));
            assert(q != p);
            assert(s0.node_eq(s1, q));
            assert(s1.node_eq(s2, q));
        }
        s0.lemma_subtree_frame(s2, sib, d + 1);
        assert(!s1.subtree_used(nc, d + 1).contains(p));
        assert forall|q: int| #[trigger] s1.subtree_used(nc, d + 1).contains(q)
            implies s1.node_eq(s2, q) by {
        }
        s1.lemma_subtree_frame(s2, nc, d + 1);
        assert(s2.subtree_used(nc, d + 1).disjoint(s2.subtree_used(sib, d + 1))) by {
            assert forall|q: int|
                #[trigger] s2.subtree_used(nc, d + 1).contains(q)
                implies !s2.subtree_used(sib, d + 1).contains(q) by {
                assert(s1.subtree_used(nc, d + 1).contains(q));
                assert(s0.subtree_used(chd, d + 1).contains(q));
            }
        }
        assert(!s2.subtree_used(sib, d + 1).contains(p));
        assert(s2.subtree_ok(p, d));
        if s0.subtree_map(sib, d + 1).dom().contains(key) {
            assert(key_bit(key, d) == !b);
            assert(false);
        }
        assert(s2.subtree_map(p, d) =~= s0.subtree_map(p, d).remove(key));
        assert forall|q: int| !s0.subtree_used(p, d).contains(q)
            implies s0.node_eq(s2, q) by {
            assert(!s0.subtree_used(chd, d + 1).contains(q));
            assert(q != p);
            assert(s0.node_eq(s1, q));
            assert(s1.node_eq(s2, q));
        }
        assert forall|q: int| #[trigger] s2.subtree_used(p, d).contains(q)
            implies s0.subtree_used(p, d).contains(q) by {
        }
    }

    /// Remove `key` from the subtree hanging at depth `d`, returning the
    /// new subtree root and the removed value, if any.  Branches left with
    /// no child are returned to the free list on the way back up.
    #[verifier::rlimit(100)]
    fn remove_at(&mut self, p: i16, d: u16, key: u64) -> (r: (i16, Option<u64>))
        requires
            old(self).arrays_wf(),
            old(self).free_leaves_wf(),
            old(self).free_middles_wf(),
            old(self).subtree_ok(p as int, d as int),
            d <= KEY_BITS,
        ensures
            final(self).arrays_wf(),
            final(self).free_leaves_wf(),
            final(self).free_middles_wf(),
            final(self).root == old(self).root,
            final(self).size == old(self).size,
            final(self).subtree_ok(r.0 as int, d as int),
            final(self).subtree_map(r.0 as int, d as int)
                == old(self).subtree_map(p as int, d as int).remove(key),
            r.1 == (if old(self).subtree_map(p as int, d as int).dom().contains(key) {
                Some(old(self).subtree_map(p as int, d as int)[key])
            } else {
                None::<u64>
            }),
            r.1 is None ==> *final(self) == *old(self) && r.0 == p,
            forall|q: int| !old(self).subtree_used(p as int, d as int).contains(q)
                ==> old(self).node_eq(final(self), q),
            forall|q: int| #[trigger] final(self).subtree_used(r.0 as int, d as int).contains(q)
                ==> old(self).subtree_used(p as int, d as int).contains(q),
            r.1 is Some ==> final(self).free_leaf_order@.len()
                == old(self).free_leaf_order@.len() + 1,
            r.1 is None ==> final(self).free_leaf_order@ == old(self).free_leaf_order@,
            final(self).free_middle_order@.len() >= old(self).free_middle_order@.len(),
        decreases KEY_BITS as int - d as int,
    {
        if p < 0 {
            (p, None)
        } else if p >= MAX_MIDDLES as i16 {
            let idx = (p as usize) - MAX_MIDDLES;
            let leaf = self.leaves[idx];
            if leaf.key == key {
                self.deallocate_leaf(p);
                proof {
                    assert(self.subtree_map(-1, d as int)
                        =~= old(self).subtree_map(p as int, d as int).remove(key));
                    assert(old(self).subtree_used(p as int, d as int).contains(p as int));
                }
                (-1, Some(leaf.value))
            } else {
                proof {
                    assert(self.subtree_map(p as int, d as int)
                        =~= old(self).subtree_map(p as int, d as int).remove(key));
                }
                (p, None)
            }
        } else {
            let m = self.middles[p as usize];
            let b = bit_of(key, d);
            let child = if b { m.one } else { m.zero };
            let ghost s0 = *old(self);
            let (nc, got) = self.remove_at(child, d + 1, key);
            proof {
                let chd = child as int;
                if s0.subtree_map((if b { s0.middle_at(p as int).zero } else {
                    s0.middle_at(p as int).one
                }) as int, d as int + 1).dom().contains(key) {
                    assert(key_bit(key, d as int) == !b);
                    assert(false);
                }
            }
            if got.is_none() {
                proof {
                    assert(self.subtree_map(p as int, d as int)
                        =~= old(self).subtree_map(p as int, d as int).remove(key));
                }
                return (p, None);
            }
            let ghost s1 = *self;
            let nm = if b {
                DictTreeMiddle { live: true, next: m.next, one: nc, zero: m.zero }
            } else {
                DictTreeMiddle { live: true, next: m.next, one: m.one, zero: nc }
            };
            self.middles.set(p as usize, nm);
            proof {
                let dd = d as int;
                let chd = (if b { s0.middle_at(p as int).one } else {
                    s0.middle_at(p as int).zero
                }) as int;
                Self::lemma_reattach_removed(
                    &s0, &s1, self, p as int, dd, b, nc as int, chd, key,
                );
                // The branch node is live, so the free lists know nothing
                // of it and survive the pointer update.
                let fm1 = s1.free_middle_order@;
                assert forall|i: int| 0 <= i < fm1.len() implies #[trigger] fm1[i] != p as int by {
                    assert(!s1.middle_at(fm1[i]).live);
                    assert(s0.node_eq(&s1, p as int));
                }
                assert(self.free_middles_wf());
                assert(self.free_leaves_wf());
            }
            if nm.one < 0 && nm.zero < 0 {
                // The branch lost its last child: return it to the arena.
                let ghost s2 = *self;
                self.deallocate_middle(p);
                proof {
                    assert(s2.subtree_map(p as int, d as int) =~= Map::<u64, u64>::empty());
                    assert(self.subtree_map(-1, d as int) =~= Map::<u64, u64>::empty());
                    assert(s2.subtree_map(p as int, d as int)
                        == s0.subtree_map(p as int, d as int).remove(key));
                    assert forall|q: int| !s0.subtree_used(p as int, d as int).contains(q)
                        implies s0.node_eq(self, q) by {
                        assert(q != p as int);
                        assert(s0.node_eq(&s2, q));
                        assert(s2.node_eq(self, q));
                    }
                }
                (-1, got)
            } else {
                proof {
                    assert(self.subtree_used(p as int, d as int).contains(p as int)
                        ==> old(self).subtree_used(p as int, d as int).contains(p as int));
                }
                (p, got)
            }
        }
    }



    /// With one free leaf and a whole key's worth of free branch nodes, any
    /// insertion fits: no split chain is longer than the key.
    proof fn lemma_fits_at_with_room(&self, p: int, d: int, key: u64, fl: int, fm: int)
        requires
            self.arrays_wf(),
            self.subtree_ok(p, d),
            0 <= d <= KEY_BITS as int,
            fl >= 1,
            fm >= KEY_BITS as int - d,
        ensures
            self.insert_fits_at(p, d, key, fl, fm),
        decreases KEY_BITS as int - d,
    {
        if p < 0 {
        } else if is_leaf_ptr(p) {
            lemma_chain_len_bound(self.leaf_at(p).key, key, d);
        } else {
            if key_bit(key, d) {
                self.lemma_fits_at_with_room(self.middle_at(p).one as int, d + 1, key, fl, fm);
            } else {
                self.lemma_fits_at_with_room(self.middle_at(p).zero as int, d + 1, key, fl, fm);
            }
        }
    }

    /// The arena invariant, exposed: keys stored and free leaves always
    /// account for the whole leaf arena.
    pub proof fn lemma_free_leaf_count(&self)
        requires
            self.wf(),
        ensures
            self.spec_free_leaves() == MAX_LEAVES as int - self.spec_size() as int,
    {
    }

    /// A map that is not full of keys and has a full complement of free
    /// branch nodes accepts any insertion.
    pub proof fn lemma_fits_with_room(&self, key: u64)
        requires
            self.wf(),
            (self.spec_size() as int) < MAX_LEAVES as int,
            self.spec_free_middles() >= KEY_BITS as int,
        ensures
            self.insert_fits(key),
    {
        self.lemma_fits_at_with_room(
            self.root as int, 0, key,
            self.free_leaf_order@.len() as int,
            self.free_middle_order@.len() as int,
        );
    }

    /// A key that is already stored can always be inserted again: the walk
    /// ends at its own leaf and allocates nothing.
    proof fn lemma_fits_when_present(&self, p: int, d: int, key: u64, fl: int, fm: int)
        requires
            self.arrays_wf(),
            self.subtree_ok(p, d),
            self.subtree_map(p, d).dom().contains(key),
        ensures
            self.insert_fits_at(p, d, key, fl, fm),
        decreases KEY_BITS as int - d,
    {
        if p < 0 {
        } else if is_leaf_ptr(p) {
        } else {
            let one = self.middle_at(p).one as int;
            let zero = self.middle_at(p).zero as int;
            if key_bit(key, d) {
                assert(!self.subtree_map(zero, d + 1).dom().contains(key));
                assert(self.subtree_map(one, d + 1).dom().contains(key));
                self.lemma_fits_when_present(one, d + 1, key, fl, fm);
            } else {
                assert(!self.subtree_map(one, d + 1).dom().contains(key));
                assert(self.subtree_map(zero, d + 1).dom().contains(key));
                self.lemma_fits_when_present(zero, d + 1, key, fl, fm);
            }
        }
    }

    /// Insert `key -> value`, updating the value if the key is present.
    /// On a capacity error nothing changes.  A present key always updates
    /// successfully; a new key needs one free leaf and enough free branch
    /// nodes to split its leaf.
    #[verifier::rlimit(100)]
    pub fn insert(&mut self, key: u64, value: u64) -> (r: Result<(), ErrorCode>)
        requires
            old(self).wf(),
        ensures
            final(self).wf(),
            match r {
                Ok(()) => {
                    &&& final(self)@ == old(self)@.insert(key, value)
                    &&& old(self).insert_fits(key)
                    &&& final(self).spec_size() as int == old(self).spec_size() as int
                        + (if old(self)@.dom().contains(key) { 0int } else { 1int })
                    &&& final(self).spec_free_leaves() == old(self).spec_free_leaves()
                        - (if old(self)@.dom().contains(key) { 0int } else { 1int })
                    &&& final(self).spec_free_middles() <= old(self).spec_free_middles()
                    &&& final(self).spec_free_middles()
                        >= old(self).spec_free_middles() - KEY_BITS as int
                    &&& (old(self)@.dom().contains(key) ==> final(self).spec_free_middles()
                        == old(self).spec_free_middles())
                    &&& (old(self).spec_root() == -1 ==> final(self).spec_free_middles()
                        == old(self).spec_free_middles())
                },
                Err(e) => {
                    &&& *final(self) == *old(self)
                    &&& !old(self).insert_fits(key)
                    &&& !old(self)@.dom().contains(key)
                    &&& (e == ErrorCode::MaxLeavesReached || e == ErrorCode::MaxMiddlesReached)
                },
            },
    {
        let ghost s0 = *old(self);
        match self.insert_at(self.root, 0, key, value) {
            Ok((np, fresh)) => {
                let ghost s1 = *self;
                self.root = np;
                if fresh {
                    self.size = self.size + 1;
                }
                proof {
                    assert(forall|q: int| s1.node_eq(self, q));
                    s1.lemma_subtree_frame(self, np as int, 0);
                    assert(self@ == s0@.insert(key, value));
                    if fresh {
                        assert(self@.dom() =~= s0@.dom().insert(key));
                    } else {
                        assert(self@.dom() =~= s0@.dom());
                    }
                    assert(self.wf());
                }
                Ok(())
            },
            Err(e) => {
                proof {
                    if s0@.dom().contains(key) {
                        s0.lemma_fits_when_present(
                            s0.spec_root() as int, 0, key,
                            s0.free_leaf_order@.len() as int,
                            s0.free_middle_order@.len() as int,
                        );
                    }
                }
                Err(e)
            },
        }
    }

    /// Remove `key`, returning its value if it was present.  This call
    /// never fails; a missing key leaves the map unchanged.
    #[verifier::rlimit(100)]
    pub fn remove(&mut self, key: u64) -> (r: Result<Option<u64>, ErrorCode>)
        requires
            old(self).wf(),
        ensures
            final(self).wf(),
            r == Ok::<Option<u64>, ErrorCode>(if old(self)@.dom().contains(key) {
                Some(old(self)@[key])
            } else {
                None::<u64>
            }),
            final(self)@ == old(self)@.remove(key),
            final(self).spec_size() as int == old(self).spec_size() as int
                - (if old(self)@.dom().contains(key) { 1int } else { 0int }),
            final(self).spec_free_leaves() == old(self).spec_free_leaves()
                + (if old(self)@.dom().contains(key) { 1int } else { 0int }),
            final(self).spec_free_middles() >= old(self).spec_free_middles(),
            !old(self)@.dom().contains(key) ==> *final(self) == *old(self),
    {
        let ghost s0 = *old(self);
        let (nr, got) = self.remove_at(self.root, 0, key);
        let ghost s1 = *self;
        self.root = nr;
        if got.is_some() {
            proof {
                assert(s0@.dom().contains(key));
                assert(s0@.dom().remove(key).len() == s0@.dom().len() - 1);
            }
            self.size = self.size - 1;
        }
        proof {
            assert(forall|q: int| s1.node_eq(self, q));
            s1.lemma_subtree_frame(self, nr as int, 0);
            assert(self@ == s0@.remove(key));
            if got is Some {
                assert(self@.dom() =~= s0@.dom().remove(key));
            } else {
                assert(self@ =~= s0@);
                assert(self@.dom() =~= s0@.dom());
            }
            assert(self.wf());
        }
        Ok(got)
    }

    /// Exchange the values stored under two keys.  Both must be present;
    /// otherwise nothing changes and the missing key is reported.
    pub fn swap(&mut self, key1: u64, key2: u64) -> (r: Result<(), ErrorCode>)
        requires
            old(self).wf(),
        ensures
            final(self).wf(),
            final(self).spec_size() == old(self).spec_size(),
            final(self).spec_free_leaves() == old(self).spec_free_leaves(),
            final(self).spec_free_middles() == old(self).spec_free_middles(),
            match r {
                Ok(()) => {
                    &&& old(self)@.dom().contains(key1)
                    &&& old(self)@.dom().contains(key2)
                    &&& final(self)@ == old(self)@.insert(key1, old(self)@[key2])
                        .insert(key2, old(self)@[key1])
                },
                Err(e) => {
                    &&& *final(self) == *old(self)
                    &&& e == ErrorCode::KeyNotFound
                    &&& !(old(self)@.dom().contains(key1) && old(self)@.dom().contains(key2))
                },
            },
    {
        let v1 = match self.get(key1) {
            Ok(Some(v)) => v,
            _ => {
                return Err(ErrorCode::KeyNotFound);
            },
        };
        let v2 = match self.get(key2) {
            Ok(Some(v)) => v,
            _ => {
                return Err(ErrorCode::KeyNotFound);
            },
        };
        let ghost s0 = *old(self);
        match self.insert(key1, v2) {
            Ok(()) => {},
            Err(_) => {
                proof {
                    assert(false);
                }
                return Err(ErrorCode::KeyNotFound);
            },
        }
        match self.insert(key2, v1) {
            Ok(()) => {},
            Err(_) => {
                proof {
                    assert(false);
                }
                return Err(ErrorCode::KeyNotFound);
            },
        }
        Ok(())
    }

    /// Value stored under `key`, if any.  This lookup never fails.
    pub fn get(&self, key: u64) -> (r: Result<Option<u64>, ErrorCode>)
        requires
            self.wf(),
        ensures
            r == Ok::<Option<u64>, ErrorCode>(if self@.dom().contains(key) {
                Some(self@[key])
            } else {
                None::<u64>
            }),
    {
        Ok(self.get_at(self.root, 0, key))
    }

    /// Whether `key` is stored.
    pub fn contains_key(&self, key: u64) -> (r: bool)
        requires
            self.wf(),
        ensures
            r == self@.dom().contains(key),
    {
        let got = self.get_at(self.root, 0, key);
        got.is_some()
    }

    /// Number of keys stored.
    pub fn len(&self) -> (r: usize)
        requires
            self.wf(),
        ensures
            r == self@.dom().len(),
    {
        self.size as usize
    }
}

} // verus!

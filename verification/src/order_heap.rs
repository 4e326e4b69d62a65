//! Fixed-capacity binary max-heap of orders, ordered by sell price and then
//! by order id (earlier id first), with an id-to-slot trie that makes
//! removal by order id possible without a scan.
//!
//! Every mutating operation keeps three structures in lock step: the slot
//! array, the heap ordering over it, and the index map.  A slot swap that
//! is not mirrored in the index map would break the book, so the swaps are
//! paired everywhere.

use vstd::prelude::*;
use vstd::multiset::Multiset;
use crate::ORDER_HEAP_CAPACITY;
use crate::errors::ErrorCode;
use crate::index_map::DictTreeMapImpl;
use crate::order_node::{OrderNode, prio_gt, prio_gt_exec, lemma_prio_total, lemma_prio_trans};

verus! {

/// The heap ordering over a slot sequence: no element outranks its parent.
pub open spec fn heap_ordered(s: Seq<OrderNode>) -> bool {
    forall|j: int| 1 <= j < s.len() ==> !prio_gt(#[trigger] s[j], s[(j - 1) / 2])
}

/// The heap ordering everywhere except on the edge from slot `i` up.
pub open spec fn heap_ordered_except_up(s: Seq<OrderNode>, i: int) -> bool {
    forall|j: int| 1 <= j < s.len() && j != i ==> !prio_gt(#[trigger] s[j], s[(j - 1) / 2])
}

/// The heap ordering everywhere except on the edges from slot `i` down.
pub open spec fn heap_ordered_except_down(s: Seq<OrderNode>, i: int) -> bool {
    forall|j: int| 1 <= j < s.len() && (j - 1) / 2 != i ==> !prio_gt(#[trigger] s[j], s[(j - 1) / 2])
}

/// Whether some element of `s` carries the order id `id`.
pub open spec fn seq_has_id(s: Seq<OrderNode>, id: u64) -> bool {
    exists|i: int| 0 <= i < s.len() && (#[trigger] s[i]).id == id
}

/// No element of `book` outranks `b`, and `b` rests in it: the order the
/// heap serves next.
pub open spec fn is_best_in(book: Multiset<OrderNode>, b: OrderNode) -> bool {
    &&& book.count(b) > 0
    &&& forall|x: OrderNode| book.count(x) > 0 ==> !prio_gt(x, b)
}

/// No two distinct resting orders of the book share an id.
pub open spec fn book_ids_distinct(book: Multiset<OrderNode>) -> bool {
    forall|x: OrderNode, y: OrderNode| book.count(x) > 0 && book.count(y) > 0 && x.id == y.id
        ==> x == y
}

/// The order the book serves next, as a value: on a book with distinct ids
/// there is exactly one order outranked by no other.
pub open spec fn book_best(book: Multiset<OrderNode>) -> OrderNode {
    choose|b: OrderNode| is_best_in(book, b)
}

/// An order after a partial fill took `sub_buy` and `sub_sell` from it.
pub open spec fn reduced_order(o: OrderNode, sub_buy: u64, sub_sell: u64) -> OrderNode {
    OrderNode {
        buy_quantity: (o.buy_quantity - sub_buy) as u64,
        sell_quantity: (o.sell_quantity - sub_sell) as u64,
        ..o
    }
}

pub struct OrderHeapImpl {
    orders: Vec<OrderNode>,
    idx_map: DictTreeMapImpl,
    size: u64,
}

impl View for OrderHeapImpl {
    type V = Seq<OrderNode>;

    /// The live slots, root first.
    closed spec fn view(&self) -> Seq<OrderNode> {
        self.orders@.take(self.size as int)
    }
}

impl OrderHeapImpl {
    /// Whether an order with this id is resting in the heap.
    pub open spec fn contains_id(&self, id: u64) -> bool {
        seq_has_id(self@, id)
    }

    /// Index consistency: the map knows exactly the live ids, and each maps
    /// to its slot.
    pub closed spec fn index_consistent(&self) -> bool {
        &&& (forall|id: u64| self.idx_map@.dom().contains(id) == self.contains_id(id))
        &&& (forall|i: int| 0 <= i < self@.len()
            ==> self.idx_map@.dom().contains(#[trigger] self@[i].id)
                && self.idx_map@[self@[i].id] == i as u64)
    }

    /// Everything but the heap ordering: sound arrays, a sound index map
    /// in lock step with the live slots.
    pub closed spec fn base_wf(&self) -> bool {
        &&& self.orders@.len() == ORDER_HEAP_CAPACITY
        &&& self.size <= ORDER_HEAP_CAPACITY as u64
        &&& self.idx_map.wf()
        &&& self.idx_map.spec_size() as int == self.size as int
        &&& self.index_consistent()
    }

    pub closed spec fn wf(&self) -> bool {
        &&& self.base_wf()
        &&& heap_ordered(self@)
    }


    /// Swapping two slots preserves the stored multiset.
    proof fn lemma_swap_preserves_multiset(s: Seq<OrderNode>, a: int, b: int)
        requires
            0 <= a < s.len(),
            0 <= b < s.len(),
            a != b,
        ensures
            s.update(a, s[b]).update(b, s[a]).to_multiset() == s.to_multiset(),
    {
        broadcast use vstd::seq_lib::group_to_multiset_ensures;
        broadcast use vstd::multiset::group_multiset_axioms;
        let s1 = s.update(a, s[b]);
        vstd::seq_lib::to_multiset_update(s, a, s[b]);
        vstd::seq_lib::to_multiset_update(s1, b, s[a]);
        assert(s.contains(s[a]));
        assert(s.to_multiset().count(s[a]) > 0);
        assert(s1.update(b, s[a]).to_multiset() =~= s.to_multiset());
    }

    /// Sequences with the same multiset rest the same order ids.
    proof fn lemma_same_multiset_same_ids(s1: Seq<OrderNode>, s2: Seq<OrderNode>)
        requires
            s1.to_multiset() == s2.to_multiset(),
        ensures
            forall|id: u64| #[trigger] seq_has_id(s1, id) == seq_has_id(s2, id),
    {
        broadcast use vstd::seq_lib::group_to_multiset_ensures;
        assert forall|id: u64| #[trigger] seq_has_id(s1, id) == seq_has_id(s2, id) by {
            if seq_has_id(s1, id) {
                let i = choose|i: int| 0 <= i < s1.len() && (#[trigger] s1[i]).id == id;
                assert(s1.contains(s1[i]));
                assert(s2.to_multiset().count(s1[i]) > 0);
                assert(s2.contains(s1[i]));
                let j = choose|j: int| 0 <= j < s2.len() && s2[j] == s1[i];
                assert(seq_has_id(s2, id));
            }
            if seq_has_id(s2, id) {
                let j = choose|j: int| 0 <= j < s2.len() && (#[trigger] s2[j]).id == id;
                assert(s2.contains(s2[j]));
                assert(s1.to_multiset().count(s2[j]) > 0);
                assert(s1.contains(s2[j]));
                let i = choose|i: int| 0 <= i < s1.len() && s1[i] == s2[j];
                assert(seq_has_id(s1, id));
            }
        }
    }

    /// Two live slots never carry the same id.
    proof fn lemma_ids_distinct(&self, i: int, j: int)
        requires
            self.base_wf(),
            0 <= i < self@.len(),
            0 <= j < self@.len(),
            self@[i].id == self@[j].id,
        ensures
            i == j,
    {
        assert(self.idx_map@[self@[i].id] == i as u64);
        assert(self.idx_map@[self@[j].id] == j as u64);
    }

    /// A record in the heap that carries the root's id is the root.
    pub proof fn lemma_root_unique(&self, rec: OrderNode)
        requires
            self.wf(),
            self@.len() > 0,
            self@.contains(rec),
            rec.id == self@[0].id,
        ensures
            rec == self@[0],
    {
        let i = choose|i: int| 0 <= i < self@.len() && self@[i] == rec;
        self.lemma_ids_distinct(i, 0);
    }

    /// In a heap-ordered sequence nothing outranks the root.
    proof fn lemma_root_max(s: Seq<OrderNode>, j: int)
        requires
            heap_ordered(s),
            0 <= j < s.len(),
        ensures
            !prio_gt(s[j], s[0]),
        decreases j,
    {
        if j == 0 {
            lemma_prio_total(s[0], s[0]);
        } else {
            let pa = (j - 1) / 2;
            Self::lemma_root_max(s, pa);
            lemma_prio_trans(s[0], s[pa], s[j]);
        }
    }


    /// The heap law: in a well-formed book every live slot sits at or below
    /// its parent in priority, and the root outranks every resting order.
    pub proof fn lemma_heap_property(&self)
        requires
            self.wf(),
        ensures
            heap_ordered(self@),
            forall|j: int| 0 <= j < self@.len() ==> !prio_gt(#[trigger] self@[j], self@[0]),
    {
        assert forall|j: int| 0 <= j < self@.len()
            implies !prio_gt(#[trigger] self@[j], self@[0]) by {
            Self::lemma_root_max(self@, j);
        }
    }

    /// The id-to-slot map as the index trie stores it.
    pub closed spec fn index_entries(&self) -> Map<u64, u64> {
        self.idx_map@
    }

    /// Whether the index trie can absorb this id: always true for a resting
    /// id, and guaranteed for a fresh id while the branch arena has a whole
    /// key's worth of free nodes (see `lemma_add_succeeds_with_room`).
    pub closed spec fn index_fits(&self, id: u64) -> bool {
        self.idx_map.insert_fits(id)
    }

    /// Free branch nodes left in the index trie's arena.
    pub closed spec fn index_free_middles(&self) -> int {
        self.idx_map.spec_free_middles()
    }

    /// Free leaf nodes left in the index trie's arena.
    pub closed spec fn index_free_leaves(&self) -> int {
        self.idx_map.spec_free_leaves()
    }

    /// Whether the index trie is entirely empty (a null root).
    pub closed spec fn index_root_null(&self) -> bool {
        self.idx_map.spec_root() == -1i16
    }

    /// The leaf arena always holds exactly one free leaf per empty slot.
    pub proof fn lemma_free_leaves(&self)
        requires
            self.wf(),
        ensures
            self.index_free_leaves() == ORDER_HEAP_CAPACITY as int - self@.len(),
    {
        self.idx_map.lemma_free_leaf_count();
    }

    /// A well-formed book never exceeds its fixed capacity.
    pub proof fn lemma_len_bounded(&self)
        requires
            self.wf(),
        ensures
            self@.len() <= ORDER_HEAP_CAPACITY as int,
    {
    }

    /// Below capacity, a book whose branch arena has a whole key's worth of
    /// free nodes accepts any order: success of `add_order` is owed.
    pub proof fn lemma_add_succeeds_with_room(&self, id: u64)
        requires
            self.wf(),
            self@.len() < ORDER_HEAP_CAPACITY as int,
            self.index_free_middles() >= 64,
        ensures
            self.index_fits(id),
    {
        self.idx_map.lemma_fits_with_room(id);
    }

    /// The index law over the whole map: the index knows exactly the ids of
    /// the resting orders, on any well-formed book, empty ones included.
    pub proof fn lemma_index_domain(&self)
        requires
            self.wf(),
        ensures
            forall|id: u64| self.index_entries().dom().contains(id) == self.contains_id(id),
    {
    }

    /// The index law: each live slot's id resolves through the index map
    /// back to that slot, and ids of removed orders resolve to nothing.
    pub proof fn lemma_index_consistency(&self, i: int)
        requires
            self.wf(),
            0 <= i < self@.len(),
        ensures
            self.index_entries().dom().contains(self@[i].id),
            self.index_entries()[self@[i].id] == i as u64,
            forall|id: u64| self.index_entries().dom().contains(id) == self.contains_id(id),
    {
    }

    /// A well-formed book rests no two orders with one id.
    pub proof fn lemma_view_ids_distinct(&self)
        requires
            self.wf(),
        ensures
            book_ids_distinct(self@.to_multiset()),
    {
        broadcast use vstd::seq_lib::group_to_multiset_ensures;
        assert forall|x: OrderNode, y: OrderNode|
            self@.to_multiset().count(x) > 0 && self@.to_multiset().count(y) > 0
                && x.id == y.id implies x == y by {
            assert(self@.contains(x) && self@.contains(y));
            let i = choose|i: int| 0 <= i < self@.len() && self@[i] == x;
            let j = choose|j: int| 0 <= j < self@.len() && self@[j] == y;
            self.lemma_ids_distinct(i, j);
        }
    }

    /// The root is the book's unique best order.
    pub proof fn lemma_best_is_root(&self)
        requires
            self.wf(),
            self@.len() > 0,
        ensures
            is_best_in(self@.to_multiset(), self@[0]),
            book_best(self@.to_multiset()) == self@[0],
    {
        broadcast use vstd::seq_lib::group_to_multiset_ensures;
        let ms = self@.to_multiset();
        let root = self@[0];
        assert(self@.contains(root));
        assert forall|x: OrderNode| ms.count(x) > 0 implies !prio_gt(x, root) by {
            assert(self@.contains(x));
            let j = choose|j: int| 0 <= j < self@.len() && self@[j] == x;
            Self::lemma_root_max(self@, j);
        }
        assert(is_best_in(ms, root));
        let b = book_best(ms);
        assert(is_best_in(ms, b));
        if b != root {
            lemma_prio_total(b, root);
            self.lemma_view_ids_distinct();
        }
    }

    /// An empty heap with a fresh index arena.
    pub fn new() -> (r: Self)
        ensures
            r.wf(),
            r@ == Seq::<OrderNode>::empty(),
            r.index_free_middles() == 64,
            r.index_free_leaves() == ORDER_HEAP_CAPACITY as int,
            r.index_root_null(),
    {
        let mut orders: Vec<OrderNode> = Vec::new();
        let mut i: usize = 0;
        while i < ORDER_HEAP_CAPACITY
            invariant
                orders@.len() == i as int,
                i <= ORDER_HEAP_CAPACITY,
            decreases ORDER_HEAP_CAPACITY as int - i as int,
        {
            orders.push(OrderNode::new(
                0, 0, 0,
                crate::keys::Pubkey { hi: 0, lo: 0 },
                crate::keys::Pubkey { hi: 0, lo: 0 },
                crate::keys::Pubkey { hi: 0, lo: 0 },
                0,
            ));
            i = i + 1;
        }
        let r = OrderHeapImpl { orders, idx_map: DictTreeMapImpl::new(), size: 0 };
        proof {
            assert(r@ =~= Seq::<OrderNode>::empty());
        }
        r
    }



    /// Restore the heap ordering by sifting slot `start` up.  On entry the
    /// ordering holds everywhere except on `start`'s own edge up, and
    /// `start`'s children already sit below `start`'s parent.
    #[verifier::rlimit(100)]
    fn sift_up(&mut self, start: usize, Ghost(m0): Ghost<Multiset<OrderNode>>)
        requires
            old(self).base_wf(),
            (start as int) < old(self)@.len(),
            old(self)@.to_multiset() == m0,
            heap_ordered_except_up(old(self)@, start as int),
            start > 0 && start as int * 2 + 1 < old(self)@.len()
                ==> !prio_gt(old(self)@[start as int * 2 + 1], old(self)@[(start as int - 1) / 2]),
            start > 0 && start as int * 2 + 2 < old(self)@.len()
                ==> !prio_gt(old(self)@[start as int * 2 + 2], old(self)@[(start as int - 1) / 2]),
        ensures
            final(self).wf(),
            final(self)@.to_multiset() == m0,
            final(self)@.len() == old(self)@.len(),
            forall|id: u64| #[trigger] seq_has_id(final(self)@, id) == seq_has_id(old(self)@, id),
            final(self).index_free_leaves() == old(self).index_free_leaves(),
            final(self).index_free_middles() == old(self).index_free_middles(),
    {
        let ghost s0 = *self;
        let mut i: usize = start;
        let mut done: bool = false;
        while i > 0 && !done
            invariant
                self.base_wf(),
                i < self@.len(),
                self@.to_multiset() == m0,
                self@.len() == s0@.len(),
                self.index_free_leaves() == old(self).index_free_leaves(),
                self.index_free_middles() == old(self).index_free_middles(),
                heap_ordered_except_up(self@, i as int),
                i > 0 && i as int * 2 + 1 < self@.len()
                    ==> !prio_gt(self@[i as int * 2 + 1], self@[(i as int - 1) / 2]),
                i > 0 && i as int * 2 + 2 < self@.len()
                    ==> !prio_gt(self@[i as int * 2 + 2], self@[(i as int - 1) / 2]),
                done ==> i > 0 && !prio_gt(self@[i as int], self@[(i as int - 1) / 2]),
                forall|id: u64| #[trigger] seq_has_id(self@, id) == seq_has_id(s0@, id),
            decreases i as int + (if done { 0int } else { 1int }),
        {
            let parent = (i - 1) / 2;
            let gt = prio_gt_exec(&self.orders[i], &self.orders[parent]);
            if !gt {
                done = true;
            } else {
                let ghost sp = self@;
                self.swap_slots(i, parent);
                proof {
                    let ii = i as int;
                    let pa = (ii - 1) / 2;
                    assert(self@ =~= sp.update(ii, sp[pa]).update(pa, sp[ii]));
                    assert(self@.to_multiset() == sp.to_multiset()) by {
                        Self::lemma_swap_preserves_multiset(sp, ii, pa);
                    }
                    lemma_prio_total(sp[ii], sp[pa]);
                    assert(heap_ordered_except_up(self@, pa)) by {
                        assert forall|j: int| 1 <= j < self@.len() && j != pa
                            implies !prio_gt(#[trigger] self@[j], self@[(j - 1) / 2]) by {
                            if j == ii {
                                assert(self@[j] == sp[pa] && self@[pa] == sp[ii]);
                            } else if (j - 1) / 2 == ii {
                                assert(sp[j] == self@[j]);
                                assert(j == ii * 2 + 1 || j == ii * 2 + 2);
                            } else if (j - 1) / 2 == pa {
                                assert(sp[j] == self@[j]);
                                lemma_prio_trans(sp[ii], sp[pa], sp[j]);
                            } else {
                                assert(sp[j] == self@[j]);
                                assert(sp[(j - 1) / 2] == self@[(j - 1) / 2]);
                            }
                        }
                    }
                    if pa > 0 {
                        let gp = (pa - 1) / 2;
                        if pa * 2 + 1 < self@.len() {
                            assert(!prio_gt(self@[pa * 2 + 1], self@[gp])) by {
                                if pa * 2 + 1 == ii {
                                    assert(self@[ii] == sp[pa]);
                                    assert(sp[gp] == self@[gp]);
                                } else {
                                    assert(sp[pa * 2 + 1] == self@[pa * 2 + 1]);
                                    assert(sp[gp] == self@[gp]);
                                    lemma_prio_trans(sp[gp], sp[pa], sp[pa * 2 + 1]);
                                }
                            }
                        }
                        if pa * 2 + 2 < self@.len() {
                            assert(!prio_gt(self@[pa * 2 + 2], self@[gp])) by {
                                if pa * 2 + 2 == ii {
                                    assert(self@[ii] == sp[pa]);
                                    assert(sp[gp] == self@[gp]);
                                } else {
                                    assert(sp[pa * 2 + 2] == self@[pa * 2 + 2]);
                                    assert(sp[gp] == self@[gp]);
                                    lemma_prio_trans(sp[gp], sp[pa], sp[pa * 2 + 2]);
                                }
                            }
                        }
                    }
                    Self::lemma_same_multiset_same_ids(sp, self@);
                    assert forall|id: u64| #[trigger] seq_has_id(self@, id)
                        == seq_has_id(s0@, id) by {
                        assert(seq_has_id(sp, id) == seq_has_id(self@, id));
                    }
                }
                i = parent;
            }
        }
        proof {
            assert(heap_ordered(self@));
        }
    }

    /// Restore the heap ordering by sifting slot `i` down.  On entry the
    /// ordering holds everywhere except possibly on the edges from `i` to
    /// its children, and `i`'s children still sit below `i`'s parent.
    #[verifier::rlimit(100)]
    fn sift_down(&mut self, start: usize)
        requires
            old(self).base_wf(),
            (start as int) < old(self)@.len(),
            heap_ordered_except_down(old(self)@, start as int),
            start > 0 ==> !prio_gt(old(self)@[start as int], old(self)@[(start as int - 1) / 2]),
            start > 0 && start as int * 2 + 1 < old(self)@.len()
                ==> !prio_gt(old(self)@[start as int * 2 + 1], old(self)@[(start as int - 1) / 2]),
            start > 0 && start as int * 2 + 2 < old(self)@.len()
                ==> !prio_gt(old(self)@[start as int * 2 + 2], old(self)@[(start as int - 1) / 2]),
        ensures
            final(self).wf(),
            final(self)@.to_multiset() == old(self)@.to_multiset(),
            final(self)@.len() == old(self)@.len(),
            forall|id: u64| #[trigger] seq_has_id(final(self)@, id) == seq_has_id(old(self)@, id),
            final(self).index_free_leaves() == old(self).index_free_leaves(),
            final(self).index_free_middles() == old(self).index_free_middles(),
    {
        let ghost s0 = *self;
        let mut i: usize = start;
        let mut done: bool = false;
        while !done
            invariant
                self.base_wf(),
                (i as int) < self@.len(),
                self@.to_multiset() == s0@.to_multiset(),
                self@.len() == s0@.len(),
                self.index_free_leaves() == old(self).index_free_leaves(),
                self.index_free_middles() == old(self).index_free_middles(),
                heap_ordered_except_down(self@, i as int),
                i > 0 ==> !prio_gt(self@[i as int], self@[(i as int - 1) / 2]),
                i > 0 && i as int * 2 + 1 < self@.len()
                    ==> !prio_gt(self@[i as int * 2 + 1], self@[(i as int - 1) / 2]),
                i > 0 && i as int * 2 + 2 < self@.len()
                    ==> !prio_gt(self@[i as int * 2 + 2], self@[(i as int - 1) / 2]),
                done ==> (forall|c: int| 0 <= c < self@.len() && (c - 1) / 2 == i as int
                    ==> !prio_gt(#[trigger] self@[c], self@[i as int])),
                forall|id: u64| #[trigger] seq_has_id(self@, id) == seq_has_id(s0@, id),
            decreases self@.len() - i as int + (if done { 0int } else { 1int }),
        {
            let left = i * 2 + 1;
            let right = i * 2 + 2;
            if left >= self.size as usize {
                proof {
                    assert forall|c: int| 0 <= c < self@.len() && (c - 1) / 2 == i as int
                        implies !prio_gt(#[trigger] self@[c], self@[i as int]) by {
                        assert(c >= i as int * 2 + 1);
                    }
                }
                done = true;
            } else {
                let mut largest = i;
                if prio_gt_exec(&self.orders[left], &self.orders[largest]) {
                    largest = left;
                }
                if right < self.size as usize
                    && prio_gt_exec(&self.orders[right], &self.orders[largest]) {
                    largest = right;
                }
                if largest == i {
                    proof {
                        assert forall|c: int| 0 <= c < self@.len() && (c - 1) / 2 == i as int
                            implies !prio_gt(#[trigger] self@[c], self@[i as int]) by {
                            assert(c == left as int || c == right as int);
                        }
                    }
                    done = true;
                } else {
                    proof {
                        // The chosen child strictly outranks the slot and is
                        // not outranked by its sibling.
                        let v = self@;
                        let li = left as int;
                        let ri = right as int;
                        let ii = i as int;
                        if largest == left {
                            assert(prio_gt(v[li], v[ii]));
                        } else {
                            if prio_gt(v[li], v[ii]) {
                                assert(prio_gt(v[ri], v[li]));
                                lemma_prio_total(v[ri], v[li]);
                                if !prio_gt(v[ri], v[ii]) {
                                    lemma_prio_trans(v[ii], v[ri], v[li]);
                                    assert(false);
                                }
                            } else {
                                assert(prio_gt(v[ri], v[ii]));
                                if prio_gt(v[li], v[ri]) {
                                    lemma_prio_total(v[li], v[ri]);
                                    lemma_prio_trans(v[ii], v[li], v[ri]);
                                    assert(false);
                                }
                            }
                        }
                        lemma_prio_total(v[largest as int], v[ii]);
                    }
                    let ghost sp = self@;
                    self.swap_slots(i, largest);
                    proof {
                        let ii = i as int;
                        let la = largest as int;
                        let n = self@.len();
                        assert(self@ =~= sp.update(ii, sp[la]).update(la, sp[ii]));
                        assert(self@.to_multiset() == sp.to_multiset()) by {
                            Self::lemma_swap_preserves_multiset(sp, ii, la);
                        }
                        Self::lemma_same_multiset_same_ids(sp, self@);
                        assert forall|id: u64| #[trigger] seq_has_id(self@, id)
                            == seq_has_id(s0@, id) by {
                            assert(seq_has_id(sp, id) == seq_has_id(self@, id));
                        }
                        assert(la == ii * 2 + 1 || la == ii * 2 + 2);
                        assert(heap_ordered_except_down(self@, la)) by {
                            assert forall|j: int| 1 <= j < n && (j - 1) / 2 != la
                                implies !prio_gt(#[trigger] self@[j], self@[(j - 1) / 2]) by {
                                if j == la {
                                    // The displaced slot value sits under the
                                    // chosen child, which outranked it.
                                    assert(self@[j] == sp[ii] && self@[ii] == sp[la]);
                                    lemma_prio_total(sp[la], sp[ii]);
                                } else if j == ii {
                                    // The slot i now holds the chosen child;
                                    // its edge up was granted on entry.
                                    assert(self@[j] == sp[la]);
                                    if ii > 0 {
                                        assert(self@[(j - 1) / 2] == sp[(ii - 1) / 2]);
                                        assert(!prio_gt(sp[la], sp[(ii - 1) / 2]));
                                    }
                                } else if (j - 1) / 2 == ii {
                                    // The sibling of the chosen child does
                                    // not outrank it.
                                    assert(self@[j] == sp[j] && self@[ii] == sp[la]);
                                } else {
                                    assert(self@[j] == sp[j]);
                                    assert(self@[(j - 1) / 2] == sp[(j - 1) / 2]);
                                }
                            }
                        }
                        if la * 2 + 1 < n {
                            assert(!prio_gt(self@[la * 2 + 1], self@[(la - 1) / 2])) by {
                                assert(self@[la * 2 + 1] == sp[la * 2 + 1]);
                                assert((la - 1) / 2 == ii);
                                assert(self@[ii] == sp[la]);
                                assert(!prio_gt(sp[la * 2 + 1], sp[la]));
                            }
                        }
                        if la * 2 + 2 < n {
                            assert(!prio_gt(self@[la * 2 + 2], self@[(la - 1) / 2])) by {
                                assert(self@[la * 2 + 2] == sp[la * 2 + 2]);
                                assert((la - 1) / 2 == ii);
                                assert(self@[ii] == sp[la]);
                                assert(!prio_gt(sp[la * 2 + 2], sp[la]));
                            }
                        }
                    }
                    i = largest;
                }
            }
        }
        proof {
            assert(heap_ordered(self@)) by {
                assert forall|j: int| 1 <= j < self@.len()
                    implies !prio_gt(#[trigger] self@[j], self@[(j - 1) / 2]) by {
                    if (j - 1) / 2 == i as int {
                        assert(!prio_gt(self@[j], self@[i as int]));
                    }
                }
            }
        }
    }

    /// The best resting order: the root outranks every live slot.
    pub fn get_best_order(&self) -> (r: Option<&OrderNode>)
        requires
            self.wf(),
        ensures
            match r {
                Some(b) => self@.len() > 0 && *b == self@[0]
                    && (forall|j: int| 0 <= j < self@.len()
                        ==> !prio_gt(#[trigger] self@[j], self@[0])),
                None => self@.len() == 0,
            },
    {
        if self.size == 0 {
            None
        } else {
            proof {
                assert forall|j: int| 0 <= j < self@.len()
                    implies !prio_gt(#[trigger] self@[j], self@[0]) by {
                    Self::lemma_root_max(self@, j);
                }
            }
            Some(&self.orders[0])
        }
    }

    /// The resting order with this id, found by a linear scan.
    pub fn get_order_by_id(&self, id: u64) -> (r: Option<&OrderNode>)
        requires
            self.wf(),
        ensures
            match r {
                Some(b) => self.contains_id(id) && b.id == id && self@.contains(*b),
                None => !self.contains_id(id),
            },
    {
        let mut i: usize = 0;
        while i < self.size as usize
            invariant
                self.wf(),
                i <= self@.len(),
                forall|j: int| 0 <= j < i as int ==> (#[trigger] self@[j]).id != id,
            decreases self@.len() - i as int,
        {
            if self.orders[i].id == id {
                proof {
                    assert(self@[i as int] == self.orders@[i as int]);
                    assert(self@.contains(self@[i as int]));
                }
                return Some(&self.orders[i]);
            }
            i = i + 1;
        }
        None
    }

    /// Remove the resting order with this id; `OrderNotFound` when no such
    /// order rests, with nothing changed.
    #[verifier::rlimit(100)]
    pub fn remove_order(&mut self, id: u64) -> (r: Result<OrderNode, ErrorCode>)
        requires
            old(self).wf(),
        ensures
            final(self).wf(),
            match r {
                Ok(rec) => {
                    &&& old(self).contains_id(id)
                    &&& rec.id == id
                    &&& old(self)@.contains(rec)
                    &&& final(self)@.to_multiset() == old(self)@.to_multiset().remove(rec)
                    &&& final(self)@.len() == old(self)@.len() - 1
                    &&& !final(self).contains_id(id)
                    &&& (forall|x: u64| #[trigger] final(self).contains_id(x)
                        == (old(self).contains_id(x) && x != id))
                    &&& final(self).index_free_leaves() == old(self).index_free_leaves() + 1
                    &&& final(self).index_free_middles() >= old(self).index_free_middles()
                },
                Err(e) => {
                    &&& *final(self) == *old(self)
                    &&& e == ErrorCode::OrderNotFound
                    &&& !old(self).contains_id(id)
                },
            },
    {
        let ghost s0 = *self;
        let found = match self.idx_map.get(id) {
            Ok(Some(v)) => v,
            _ => {
                return Err(ErrorCode::OrderNotFound);
            },
        };
        proof {
            assert(s0.idx_map@.dom().contains(id));
            assert(s0.contains_id(id));
            assert(seq_has_id(s0@, id));
            let i = choose|i: int| 0 <= i < s0@.len() && (#[trigger] s0@[i]).id == id;
            assert(s0.idx_map@[s0@[i].id] == i as u64);
            assert(found == i as u64);
        }
        let idx = found as usize;
        let rec = self.orders[idx];
        let last_pos = (self.size - 1) as usize;
        if idx != last_pos {
            self.swap_slots(idx, last_pos);
        }
        let ghost s1 = *self;
        match self.idx_map.remove(rec.id) {
            Ok(_) => {},
            Err(_) => {
                proof {
                    assert(false);
                }
            },
        }
        self.size = self.size - 1;
        proof {
            broadcast use vstd::seq_lib::group_to_multiset_ensures;
            assert(self@ =~= s1@.drop_last());
            assert(s1@[s1@.len() - 1] == rec);
            assert(s1@.drop_last() =~= s1@.remove(s1@.len() - 1));
            assert(self@.to_multiset() == s1@.to_multiset().remove(rec));
            if idx != last_pos {
                Self::lemma_swap_preserves_multiset(s0@, idx as int, last_pos as int);
            }
            assert(self@.to_multiset() == s0@.to_multiset().remove(rec));
            // Index consistency after dropping the tail slot.
            assert forall|x: u64| self.idx_map@.dom().contains(x) == self.contains_id(x) by {
                if self.contains_id(x) {
                    let i = choose|i: int| 0 <= i < self@.len() && (#[trigger] self@[i]).id == x;
                    assert(s1@[i].id == x);
                    assert(s1.idx_map@[x] == i as u64);
                    if x == rec.id {
                        assert(s1.idx_map@[rec.id] == s1@.len() - 1);
                        assert(false);
                    }
                    assert(self.idx_map@.dom().contains(x));
                }
                if self.idx_map@.dom().contains(x) {
                    assert(x != rec.id);
                    assert(s1.idx_map@.dom().contains(x));
                    assert(s1.contains_id(x));
                    let i = choose|i: int| 0 <= i < s1@.len() && (#[trigger] s1@[i]).id == x;
                    assert(s1.idx_map@[x] == i as u64);
                    if i == s1@.len() - 1 {
                        assert(s1@[i] == rec);
                        assert(false);
                    }
                    assert(self@[i].id == x);
                    assert(self.contains_id(x));
                }
            }
            assert forall|i: int| 0 <= i < self@.len()
                implies self.idx_map@.dom().contains(#[trigger] self@[i].id)
                    && self.idx_map@[self@[i].id] == i as u64 by {
                assert(s1@[i].id == self@[i].id);
                assert(s1.idx_map@[s1@[i].id] == i as u64);
                if self@[i].id == rec.id {
                    assert(s1.idx_map@[rec.id] == s1@.len() - 1);
                    assert(false);
                }
            }
            if idx != last_pos {
                Self::lemma_same_multiset_same_ids(s0@, s1@);
            }
            assert forall|x: u64| #[trigger] seq_has_id(self@, x)
                == (seq_has_id(s0@, x) && x != id) by {
                if seq_has_id(self@, x) {
                    let i = choose|i: int| 0 <= i < self@.len()
                        && (#[trigger] self@[i]).id == x;
                    assert(s1@[i].id == x);
                    assert(seq_has_id(s1@, x));
                    assert(seq_has_id(s0@, x));
                    if x == id {
                        assert(s1.idx_map@[s1@[i].id] == i as u64);
                        assert(s1.idx_map@[rec.id] == s1@.len() - 1);
                        assert(false);
                    }
                }
                if seq_has_id(s0@, x) && x != id {
                    assert(seq_has_id(s1@, x));
                    let i = choose|i: int| 0 <= i < s1@.len()
                        && (#[trigger] s1@[i]).id == x;
                    if i == s1@.len() - 1 {
                        assert(s1@[i] == rec);
                        assert(false);
                    }
                    assert(self@[i].id == x);
                    assert(seq_has_id(self@, x));
                }
            }
            assert(self.base_wf());
        }
        if idx < self.size as usize {
            // The slot that received the old tail may violate the ordering
            // in either direction; restore it.
            let ghost s2 = *self;
            proof {
                let di = idx as int;
                let n = s2@.len();
                assert forall|j: int| 1 <= j < n && j != di && (j - 1) / 2 != di
                    implies !prio_gt(#[trigger] s2@[j], s2@[(j - 1) / 2]) by {
                    assert(s2@[j] == s0@[j] && s2@[(j - 1) / 2] == s0@[(j - 1) / 2]);
                }
                if di > 0 {
                    // The children of the refilled slot still sit below its
                    // parent, by the old edges through the removed record.
                    assert(!prio_gt(s0@[di], s0@[(di - 1) / 2]));
                    if di * 2 + 1 < n {
                        assert(s2@[di * 2 + 1] == s0@[di * 2 + 1]);
                        lemma_prio_trans(s0@[(di - 1) / 2], s0@[di], s0@[di * 2 + 1]);
                    }
                    if di * 2 + 2 < n {
                        assert(s2@[di * 2 + 2] == s0@[di * 2 + 2]);
                        lemma_prio_trans(s0@[(di - 1) / 2], s0@[di], s0@[di * 2 + 2]);
                    }
                }
            }
            let parent = if idx > 0 { (idx - 1) / 2 } else { 0 };
            if idx > 0 && prio_gt_exec(&self.orders[idx], &self.orders[parent]) {
                proof {
                    // Everything except the refilled slot's own edge up
                    // holds: its children sat under the removed record,
                    // which sat under the parent, which the new value
                    // outranks.
                    let di = idx as int;
                    let pa = (di - 1) / 2;
                    let n = s2@.len();
                    lemma_prio_total(s2@[di], s2@[pa]);
                    assert forall|j: int| 1 <= j < n && j != di
                        implies !prio_gt(#[trigger] s2@[j], s2@[(j - 1) / 2]) by {
                        if (j - 1) / 2 == di {
                            assert(s2@[j] == s0@[j]);
                            lemma_prio_trans(s0@[pa], s0@[di], s0@[j]);
                            lemma_prio_trans(s2@[di], s2@[pa], s0@[j]);
                        } else {
                            assert(s2@[j] == s0@[j] && s2@[(j - 1) / 2] == s0@[(j - 1) / 2]);
                        }
                    }
                    assert(heap_ordered_except_up(s2@, di));
                }
                self.sift_up(idx, Ghost(s2@.to_multiset()));
            } else {
                proof {
                    assert(heap_ordered_except_down(s2@, idx as int));
                }
                self.sift_down(idx);
            }
        }
        proof {
            broadcast use vstd::seq_lib::group_to_multiset_ensures;
            assert(!self.contains_id(id)) by {
                if seq_has_id(self@, id) {
                    let i = choose|i: int| 0 <= i < self@.len()
                        && (#[trigger] self@[i]).id == id;
                    assert(self.idx_map@.dom().contains(self@[i].id));
                }
            }
            assert(old(self)@.contains(rec)) by {
                assert(s0@[idx as int] == rec);
            }
        }
        Ok(rec)
    }

    /// Reduce the best order's quantities in place after a partial fill,
    /// then restore the ordering.  The order keeps its id and stays on the
    /// book.
    pub fn reduce_best(&mut self, sub_buy: u64, sub_sell: u64)
        requires
            old(self).wf(),
            old(self)@.len() > 0,
            sub_buy <= old(self)@[0].buy_quantity,
            sub_sell <= old(self)@[0].sell_quantity,
        ensures
            final(self).wf(),
            final(self)@.len() == old(self)@.len(),
            final(self)@.to_multiset() == old(self)@.to_multiset().remove(old(self)@[0])
                .insert(reduced_order(old(self)@[0], sub_buy, sub_sell)),
            forall|id: u64| #[trigger] final(self).contains_id(id) == old(self).contains_id(id),
            final(self).index_free_leaves() == old(self).index_free_leaves(),
            final(self).index_free_middles() == old(self).index_free_middles(),
    {
        let r0 = self.orders[0];
        let nr = OrderNode {
            buy_quantity: r0.buy_quantity - sub_buy,
            sell_quantity: r0.sell_quantity - sub_sell,
            ..r0
        };
        let ghost s0 = *self;
        self.orders.set(0, nr);
        proof {
            broadcast use vstd::seq_lib::group_to_multiset_ensures;
            let v1 = self@;
            assert(v1 =~= s0@.update(0, nr));
            vstd::seq_lib::to_multiset_update(s0@, 0, nr);
            assert forall|x: u64| self.idx_map@.dom().contains(x) == self.contains_id(x) by {
                if self.contains_id(x) {
                    let i = choose|i: int| 0 <= i < v1.len() && (#[trigger] v1[i]).id == x;
                    assert(s0@[i].id == x);
                }
                if s0.contains_id(x) {
                    let i = choose|i: int| 0 <= i < s0@.len() && (#[trigger] s0@[i]).id == x;
                    assert(v1[i].id == x);
                }
            }
            assert forall|i: int| 0 <= i < v1.len()
                implies self.idx_map@.dom().contains(#[trigger] v1[i].id)
                    && self.idx_map@[v1[i].id] == i as u64 by {
                assert(v1[i].id == s0@[i].id);
            }
            assert(heap_ordered_except_down(self@, 0)) by {
                assert forall|j: int| 1 <= j < v1.len() && (j - 1) / 2 != 0
                    implies !prio_gt(#[trigger] v1[j], v1[(j - 1) / 2]) by {
                    assert(v1[j] == s0@[j] && v1[(j - 1) / 2] == s0@[(j - 1) / 2]);
                }
            }
        }
        self.sift_down(0);
        proof {
            assert forall|id: u64| #[trigger] seq_has_id(self@, id)
                == seq_has_id(s0@, id) by {
                if seq_has_id(s0@, id) {
                    let i = choose|i: int| 0 <= i < s0@.len() && (#[trigger] s0@[i]).id == id;
                    assert(s0@.update(0, nr)[i].id == id);
                }
                if seq_has_id(s0@.update(0, nr), id) {
                    let i = choose|i: int| 0 <= i < s0@.len()
                        && (#[trigger] s0@.update(0, nr)[i]).id == id;
                    assert(s0@[i].id == id);
                }
            }
        }
    }

    /// Number of resting orders.
    pub fn len(&self) -> (r: usize)
        requires
            self.wf(),
        ensures
            r == self@.len(),
    {
        self.size as usize
    }

    /// Swap two live slots together with their index entries.
    fn swap_slots(&mut self, a: usize, b: usize)
        requires
            old(self).base_wf(),
            a < old(self)@.len(),
            b < old(self)@.len(),
            a != b,
        ensures
            final(self).base_wf(),
            final(self)@.len() == old(self)@.len(),
            final(self)@ == old(self)@.update(a as int, old(self)@[b as int])
                .update(b as int, old(self)@[a as int]),
            final(self).index_free_leaves() == old(self).index_free_leaves(),
            final(self).index_free_middles() == old(self).index_free_middles(),
    {
        let oa = self.orders[a];
        let ob = self.orders[b];
        proof {
            if oa.id == ob.id {
                self.lemma_ids_distinct(a as int, b as int);
            }
        }
        let ghost s0 = *self;
        match self.idx_map.swap(oa.id, ob.id) {
            Ok(()) => {},
            Err(_) => {
                proof {
                    assert(s0@[a as int] == oa && s0@[b as int] == ob);
                    assert(s0.idx_map@.dom().contains(s0@[a as int].id));
                    assert(s0.idx_map@.dom().contains(s0@[b as int].id));
                    assert(false);
                }
            },
        }
        self.orders.set(a, ob);
        self.orders.set(b, oa);
        proof {
            assert(self.idx_map@.dom() =~= s0.idx_map@.dom());
            let v0 = s0@;
            let v1 = self@;
            assert(v1 =~= v0.update(a as int, v0[b as int]).update(b as int, v0[a as int]));
            assert forall|id: u64| self.idx_map@.dom().contains(id) == self.contains_id(id) by {
                if s0.contains_id(id) {
                    let i = choose|i: int| 0 <= i < v0.len() && v0[i].id == id;
                    if i == a as int {
                        assert(v1[b as int].id == id);
                    } else if i == b as int {
                        assert(v1[a as int].id == id);
                    } else {
                        assert(v1[i].id == id);
                    }
                    assert(self.contains_id(id));
                }
                if self.contains_id(id) {
                    let i = choose|i: int| 0 <= i < v1.len() && v1[i].id == id;
                    if i == a as int {
                        assert(v0[b as int].id == id);
                    } else if i == b as int {
                        assert(v0[a as int].id == id);
                    } else {
                        assert(v0[i].id == id);
                    }
                    assert(s0.contains_id(id));
                }
            }
            assert forall|i: int| 0 <= i < v1.len()
                implies self.idx_map@.dom().contains(#[trigger] v1[i].id)
                    && self.idx_map@[v1[i].id] == i as u64 by {
                if i == a as int {
                    assert(v1[i] == v0[b as int]);
                } else if i == b as int {
                    assert(v1[i] == v0[a as int]);
                }
            }
        }
    }

    /// Add a resting order.  Rejected with `OrderHeapFull` exactly when the
    /// heap is at capacity; a full index arena (`MaxMiddlesReached`) is also
    /// surfaced with the heap unchanged.
    #[verifier::rlimit(100)]
    pub fn add_order(&mut self, order: OrderNode) -> (r: Result<(), ErrorCode>)
        requires
            old(self).wf(),
            !old(self).contains_id(order.id),
        ensures
            final(self).wf(),
            r is Ok <==> (old(self)@.len() < ORDER_HEAP_CAPACITY
                && old(self).index_fits(order.id)),
            match r {
                Ok(()) => {
                    &&& old(self)@.len() < ORDER_HEAP_CAPACITY
                    &&& final(self)@.to_multiset()
                        == old(self)@.to_multiset().insert(order)
                    &&& final(self)@.len() == old(self)@.len() + 1
                    &&& final(self).contains_id(order.id)
                    &&& (forall|id: u64| final(self).contains_id(id)
                        == (old(self).contains_id(id) || id == order.id))
                    &&& final(self).index_free_leaves() == old(self).index_free_leaves() - 1
                    &&& final(self).index_free_middles() <= old(self).index_free_middles()
                    &&& final(self).index_free_middles()
                        >= old(self).index_free_middles() - 64
                    &&& (old(self).index_root_null() ==> final(self).index_free_middles()
                        == old(self).index_free_middles())
                },
                Err(e) => {
                    &&& *final(self) == *old(self)
                    &&& (e == ErrorCode::OrderHeapFull <==> old(self)@.len() == ORDER_HEAP_CAPACITY)
                    &&& (e == ErrorCode::OrderHeapFull
                        || e == ErrorCode::MaxMiddlesReached
                        || e == ErrorCode::MaxLeavesReached)
                },
            },
    {
        let idx = self.size as usize;
        if idx >= ORDER_HEAP_CAPACITY {
            return Err(ErrorCode::OrderHeapFull);
        }
        let ghost s0 = *self;
        match self.idx_map.insert(order.id, self.size) {
            Ok(()) => {},
            Err(e) => {
                return Err(e);
            },
        }
        self.orders.set(idx, order);
        self.size = self.size + 1;
        proof {
            let v1 = self@;
            assert(v1 =~= s0@.push(order));
            assert(v1.to_multiset() == s0@.to_multiset().insert(order)) by {
                broadcast use vstd::seq_lib::group_to_multiset_ensures;
            }
            assert forall|id: u64| self.idx_map@.dom().contains(id) == self.contains_id(id) by {
                if id == order.id {
                    assert(v1[v1.len() - 1].id == id);
                } else {
                    if s0.contains_id(id) {
                        let i = choose|i: int| 0 <= i < s0@.len() && s0@[i].id == id;
                        assert(v1[i].id == id);
                    }
                    if self.contains_id(id) {
                        let i = choose|i: int| 0 <= i < v1.len() && v1[i].id == id;
                        assert(i < v1.len() - 1);
                        assert(s0@[i].id == id);
                    }
                }
            }
            assert(self.index_consistent());
            assert(heap_ordered_except_up(v1, v1.len() - 1));
            assert forall|id: u64| #[trigger] seq_has_id(v1, id)
                == (seq_has_id(s0@, id) || id == order.id) by {
                if seq_has_id(v1, id) {
                    let i = choose|i: int| 0 <= i < v1.len() && (#[trigger] v1[i]).id == id;
                    if i < s0@.len() {
                        assert(s0@[i].id == id);
                        assert(seq_has_id(s0@, id));
                    }
                }
                if seq_has_id(s0@, id) {
                    let i = choose|i: int| 0 <= i < s0@.len() && (#[trigger] s0@[i]).id == id;
                    assert(v1[i].id == id);
                    assert(seq_has_id(v1, id));
                }
                if id == order.id {
                    assert(v1[v1.len() - 1].id == id);
                    assert(seq_has_id(v1, id));
                }
            }
        }
        // Sift the new order up, swapping slots and index entries in step.
        self.sift_up(idx, Ghost(self@.to_multiset()));
        proof {
            assert(heap_ordered(self@));
        }
        Ok(())
    }
}

} // verus!

//! Arena-backed ordered index: a fixed pool of record slots, a branch-minimized
//! search over each record's sorted key run, and descent operations for
//! insertion, lookup, removal and in-order iteration.
//!
//! The arena owns every record; records refer to one another only through
//! integer slot identifiers resolved back through the arena. Each slot is
//! tagged: it either holds a live record or is free. Insertion never splits a
//! full record, so the number of storable pairs is bounded by a single record's
//! key run; the record shape nevertheless supports internal records with
//! children and a forward leaf chain for ordered traversal.

use vstd::prelude::*;

verus! {

/// Keys in positions `[0, len)` are strictly ascending and therefore unique.
pub open spec fn sorted_strict(s: Seq<u64>) -> bool {
    forall|i: int, j: int| 0 <= i < j < s.len() ==> s[i] < s[j]
}

/// The position of `k` within `keys`: the index of its first occurrence, or
/// `keys.len()` when absent.
pub open spec fn pos_of(keys: Seq<u64>, k: u64) -> int
    decreases keys.len(),
{
    if keys.len() == 0 {
        0
    } else if keys[0] == k {
        0
    } else {
        1 + pos_of(keys.drop_first(), k)
    }
}

/// The insertion point of `k` within an ascending `keys`: the number of keys
/// smaller than `k`.
pub open spec fn ins_pos(keys: Seq<u64>, k: u64) -> int
    decreases keys.len(),
{
    if keys.len() == 0 {
        0
    } else if keys[0] < k {
        1 + ins_pos(keys.drop_first(), k)
    } else {
        0
    }
}

/// The map stored by a pair of parallel runs: key `keys[i]` holds value
/// `vals[i]`.
pub open spec fn kv_map<V>(keys: Seq<u64>, vals: Seq<V>) -> Map<u64, V> {
    Map::new(|k: u64| keys.contains(k), |k: u64| vals[pos_of(keys, k)])
}

proof fn lemma_pos_of_found(keys: Seq<u64>, k: u64)
    requires
        keys.contains(k),
    ensures
        0 <= pos_of(keys, k) < keys.len(),
        keys[pos_of(keys, k)] == k,
    decreases keys.len(),
{
    if keys.len() > 0 && keys[0] != k {
        let i = choose|i: int| 0 <= i < keys.len() && keys[i] == k;
        assert(keys.drop_first()[i - 1] == k);
        lemma_pos_of_found(keys.drop_first(), k);
    }
}

proof fn lemma_pos_of_at(keys: Seq<u64>, i: int)
    requires
        sorted_strict(keys),
        0 <= i < keys.len(),
    ensures
        keys.contains(keys[i]),
        pos_of(keys, keys[i]) == i,
{
    let k = keys[i];
    assert(keys.contains(k));
    lemma_pos_of_found(keys, k);
    let p = pos_of(keys, k);
    if p < i {
        assert(keys[p] < keys[i]);
    } else if p > i {
        assert(keys[i] < keys[p]);
    }
}

proof fn lemma_ins_pos_unique(keys: Seq<u64>, k: u64, p: int)
    requires
        0 <= p <= keys.len(),
        forall|j: int| 0 <= j < p ==> keys[j] < k,
        forall|j: int| p <= j < keys.len() ==> keys[j] >= k,
    ensures
        ins_pos(keys, k) == p,
    decreases keys.len(),
{
    if keys.len() == 0 {
    } else if keys[0] < k {
        assert(p >= 1);
        let rest = keys.drop_first();
        assert forall|j: int| 0 <= j < p - 1 implies rest[j] < k by {
            assert(rest[j] == keys[j + 1]);
        }
        assert forall|j: int| p - 1 <= j < rest.len() implies rest[j] >= k by {
            assert(rest[j] == keys[j + 1]);
        }
        lemma_ins_pos_unique(rest, k, p - 1);
    } else {
        assert(p == 0) by {
            if p > 0 {
                assert(keys[0] < k);
            }
        }
    }
}

proof fn lemma_kv_insert_new<V>(keys: Seq<u64>, vals: Seq<V>, p: int, k: u64, v: V)
    requires
        sorted_strict(keys),
        vals.len() == keys.len(),
        0 <= p <= keys.len(),
        forall|j: int| 0 <= j < p ==> keys[j] < k,
        forall|j: int| p <= j < keys.len() ==> keys[j] > k,
    ensures
        sorted_strict(keys.insert(p, k)),
        kv_map(keys.insert(p, k), vals.insert(p, v)) == kv_map(keys, vals).insert(k, v),
{
    let keys2 = keys.insert(p, k);
    let vals2 = vals.insert(p, v);
    keys.insert_ensures(p, k);
    vals.insert_ensures(p, v);
    assert forall|i: int, j: int| 0 <= i < j < keys2.len() implies keys2[i] < keys2[j] by {
        if i < p {
            assert(keys2[i] == keys[i]);
        } else if i > p {
            assert(keys2[i] == keys[i - 1]);
        }
        if j < p {
            assert(keys2[j] == keys[j]);
        } else if j > p {
            assert(keys2[j] == keys[j - 1]);
        }
    }
    let m2 = kv_map(keys2, vals2);
    let m = kv_map(keys, vals).insert(k, v);
    assert forall|q: u64| #[trigger] m2.contains_key(q) implies m.contains_key(q) by {
        let i = choose|i: int| 0 <= i < keys2.len() && keys2[i] == q;
        if i < p {
            assert(keys[i] == q);
        } else if i > p {
            assert(keys[i - 1] == q);
        }
    }
    assert forall|q: u64| #[trigger] m.contains_key(q) implies m2.contains_key(q) by {
        if q == k {
            assert(keys2[p] == q);
        } else {
            let i = choose|i: int| 0 <= i < keys.len() && keys[i] == q;
            if i < p {
                assert(keys2[i] == q);
            } else {
                assert(keys2[i + 1] == q);
            }
        }
    }
    assert forall|q: u64| m2.contains_key(q) implies m2[q] == m[q] by {
        if q == k {
            lemma_pos_of_at(keys2, p);
            assert(m2[q] == vals2[p]);
        } else {
            let i = choose|i: int| 0 <= i < keys.len() && keys[i] == q;
            lemma_pos_of_at(keys, i);
            if i < p {
                lemma_pos_of_at(keys2, i);
                assert(m2[q] == vals2[i]);
            } else {
                lemma_pos_of_at(keys2, i + 1);
                assert(m2[q] == vals2[i + 1]);
            }
        }
    }
    assert(m2 =~= m);
}

proof fn lemma_kv_update<V>(keys: Seq<u64>, vals: Seq<V>, i: int, v: V)
    requires
        sorted_strict(keys),
        vals.len() == keys.len(),
        0 <= i < keys.len(),
    ensures
        kv_map(keys, vals.update(i, v)) == kv_map(keys, vals).insert(keys[i], v),
{
    let vals2 = vals.update(i, v);
    let m2 = kv_map(keys, vals2);
    let m = kv_map(keys, vals).insert(keys[i], v);
    lemma_pos_of_at(keys, i);
    assert forall|q: u64| m2.contains_key(q) implies m2[q] == m[q] by {
        let j = choose|j: int| 0 <= j < keys.len() && keys[j] == q;
        lemma_pos_of_at(keys, j);
        if j == i {
            assert(m2[q] == vals2[i]);
        } else {
            assert(q != keys[i]);
            assert(m2[q] == vals2[j]);
        }
    }
    assert(m2 =~= m);
}

proof fn lemma_kv_remove<V>(keys: Seq<u64>, vals: Seq<V>, i: int)
    requires
        sorted_strict(keys),
        vals.len() == keys.len(),
        0 <= i < keys.len(),
    ensures
        sorted_strict(keys.remove(i)),
        kv_map(keys.remove(i), vals.remove(i)) == kv_map(keys, vals).remove(keys[i]),
{
    let keys2 = keys.remove(i);
    let vals2 = vals.remove(i);
    keys.remove_ensures(i);
    vals.remove_ensures(i);
    assert forall|a: int, b: int| 0 <= a < b < keys2.len() implies keys2[a] < keys2[b] by {
        if a < i {
            assert(keys2[a] == keys[a]);
        } else {
            assert(keys2[a] == keys[a + 1]);
        }
        if b < i {
            assert(keys2[b] == keys[b]);
        } else {
            assert(keys2[b] == keys[b + 1]);
        }
    }
    let m2 = kv_map(keys2, vals2);
    let m = kv_map(keys, vals).remove(keys[i]);
    lemma_pos_of_at(keys, i);
    assert forall|q: u64| #[trigger] m2.contains_key(q) implies m.contains_key(q) && m2[q] == m[q] by {
        let j = choose|j: int| 0 <= j < keys2.len() && keys2[j] == q;
        if j < i {
            assert(keys[j] == q);
            lemma_pos_of_at(keys, j);
            lemma_pos_of_at(keys2, j);
            assert(m2[q] == vals2[j]);
        } else {
            assert(keys[j + 1] == q);
            lemma_pos_of_at(keys, j + 1);
            lemma_pos_of_at(keys2, j);
            assert(m2[q] == vals2[j]);
        }
    }
    assert forall|q: u64| #[trigger] m.contains_key(q) implies m2.contains_key(q) by {
        let j = choose|j: int| 0 <= j < keys.len() && keys[j] == q;
        assert(j != i);
        if j < i {
            assert(keys2[j] == q);
        } else {
            assert(keys2[j - 1] == q);
        }
    }
    assert(m2 =~= m);
}

/// The slot probed `d` steps after cursor `nf` in a pool of `order` slots,
/// wrapping past the end at most once.
pub open spec fn probe_slot(nf: int, d: int, order: int) -> int {
    if nf + d < order {
        nf + d
    } else {
        nf + d - order
    }
}

/// A record slot identifier: an opaque index into the arena, never an owning
/// handle.
type NodeIndex = usize;

/// One record: a sorted run of keys with, for a leaf, one value per key, or,
/// for an internal record, one child slot identifier per run gap, plus a
/// forward link chaining leaves for ordered traversal.
struct Node<V> {
    keys: Vec<u64>,
    values: Vec<V>,
    children: Vec<Option<NodeIndex>>,
    next_leaf: Option<NodeIndex>,
    is_leaf: bool,
}

/// The arena-backed ordered index. `ORDER` bounds both the number of record
/// slots in the pool and the key run of a single record.
pub struct BTree<V, const ORDER: usize> {
    root: Option<NodeIndex>,
    nodes: Vec<Option<Node<V>>>,
    next_free: usize,
    len: usize,
}

/// Errors reported by [`BTree`] operations.
#[derive(Debug, Clone, Copy, PartialEq, Eq)]
pub enum BTreeError {
    Full,
    NotFound,
    InvalidOperation,
}

impl<V> Node<V> {
    /// A live leaf record: keys ascending within the run, one value per key,
    /// no children and no forward link yet.
    spec fn leaf_wf(&self, order: int) -> bool {
        &&& self.is_leaf
        &&& sorted_strict(self.keys@)
        &&& self.keys@.len() <= order
        &&& self.values@.len() == self.keys@.len()
        &&& self.children@.len() == 0
        &&& self.next_leaf is None
    }
}

impl<V, const ORDER: usize> BTree<V, ORDER> {
    /// The ascending run of live keys.
    pub closed spec fn key_seq(&self) -> Seq<u64> {
        match self.root {
            None => Seq::empty(),
            Some(r) => if 0 <= r < self.nodes@.len() && self.nodes@[r as int] is Some {
                self.nodes@[r as int].unwrap().keys@
            } else {
                Seq::empty()
            },
        }
    }

    /// The run of live values, parallel to `key_seq`.
    pub closed spec fn val_seq(&self) -> Seq<V> {
        match self.root {
            None => Seq::empty(),
            Some(r) => if 0 <= r < self.nodes@.len() && self.nodes@[r as int] is Some {
                self.nodes@[r as int].unwrap().values@
            } else {
                Seq::empty()
            },
        }
    }

    /// The number of live key/value pairs.
    pub open spec fn spec_len(&self) -> nat {
        self.key_seq().len()
    }

    /// The stored association of keys to values.
    pub open spec fn as_map(&self) -> Map<u64, V> {
        kv_map(self.key_seq(), self.val_seq())
    }

    /// The arena holds `ORDER` slots; the only live record, if any, is the
    /// root, a well-formed leaf; the free-slot cursor stays in range.
    spec fn arena_wf(&self) -> bool {
        &&& self.nodes@.len() == ORDER
        &&& self.next_free == 0 || self.next_free < ORDER
        &&& match self.root {
            None => forall|i: int| 0 <= i < ORDER ==> self.nodes@[i] is None,
            Some(r) => {
                &&& (r as int) < ORDER
                &&& self.nodes@[r as int] is Some
                &&& self.nodes@[r as int].unwrap().leaf_wf(ORDER as int)
                &&& forall|i: int| 0 <= i < ORDER && i != r ==> self.nodes@[i] is None
            },
        }
    }

    /// Structural validity: the arena invariant, and the pair count agreeing
    /// with the live key run.
    pub closed spec fn wf(&self) -> bool {
        &&& self.arena_wf()
        &&& self.len == self.spec_len()
    }

    /// The key run is strictly ascending, parallel to the value run, and never
    /// longer than the configured capacity.
    pub proof fn lemma_wf_entries(&self)
        requires
            self.wf(),
        ensures
            sorted_strict(self.key_seq()),
            self.val_seq().len() == self.key_seq().len(),
            self.key_seq().len() <= ORDER,
    {
    }

    pub fn new() -> (s: Self)
        ensures
            s.wf(),
            s.key_seq() == Seq::<u64>::empty(),
            s.as_map() == Map::<u64, V>::empty(),
            s.spec_len() == 0,
    {
        let mut nodes: Vec<Option<Node<V>>> = Vec::new();
        let mut i: usize = 0;
        while i < ORDER
            invariant
                i <= ORDER,
                nodes@.len() == i,
                forall|j: int| 0 <= j < i ==> nodes@[j] is None,
            decreases ORDER - i,
        {
            nodes.push(None);
            i += 1;
        }
        let s = BTree { root: None, nodes, next_free: 0, len: 0 };
        proof {
            assert(s.as_map() =~= Map::<u64, V>::empty());
        }
        s
    }

    #[inline]
    pub fn len(&self) -> (r: usize)
        requires
            self.wf(),
        ensures
            r == self.spec_len(),
    {
        self.len
    }

    #[inline]
    pub fn is_empty(&self) -> (r: bool)
        requires
            self.wf(),
        ensures
            r <==> self.spec_len() == 0,
    {
        self.len == 0
    }

    /// The nominal capacity derived from the configured size; the reachable
    /// number of pairs is bounded by a single record's key run (`ORDER`), since
    /// insertion never splits a full record.
    #[inline]
    pub fn capacity(&self) -> (r: usize)
        requires
            ORDER * ORDER * ORDER * ORDER <= usize::MAX,
        ensures
            r == ORDER * ORDER * ORDER * ORDER,
    {
        proof {
            assert(ORDER * ORDER <= ORDER * ORDER * ORDER * ORDER || ORDER == 0)
                by (nonlinear_arith);
            assert((ORDER * ORDER) * (ORDER * ORDER) == ORDER * ORDER * ORDER * ORDER)
                by (nonlinear_arith);
        }
        let squared: usize = ORDER * ORDER;
        squared * squared
    }

    /// Scans the free-slot markers from the cursor with a branch-minimized
    /// arithmetic selection, initializes the found slot to an empty leaf, and
    /// advances the cursor past it. Fails with `Full` when every slot is live.
    fn allocate_node(&mut self) -> (r: Result<NodeIndex, BTreeError>)
        requires
            old(self).nodes@.len() == ORDER,
            old(self).next_free == 0 || old(self).next_free < ORDER,
        ensures
            final(self).root == old(self).root,
            final(self).len == old(self).len,
            final(self).nodes@.len() == ORDER,
            final(self).next_free == 0 || final(self).next_free < ORDER,
            match r {
                Ok(idx) => {
                    &&& (idx as int) < ORDER
                    &&& old(self).nodes@[idx as int] is None
                    &&& final(self).nodes@[idx as int] is Some
                    &&& final(self).nodes@[idx as int].unwrap().leaf_wf(ORDER as int)
                    &&& final(self).nodes@[idx as int].unwrap().keys@.len() == 0
                    &&& forall|i: int|
                        0 <= i < ORDER && i != idx ==> final(self).nodes@[i] == old(self).nodes@[i]
                },
                Err(e) => {
                    &&& e == BTreeError::Full
                    &&& *final(self) == *old(self)
                    &&& forall|i: int| 0 <= i < ORDER ==> old(self).nodes@[i] is Some
                },
            },
    {
        let ghost start = self.next_free as int;
        let mut index = self.next_free;
        let mut found = false;
        let mut current = self.next_free;
        let mut i: usize = 0;
        while i < ORDER && !found
            invariant
                *self == *old(self),
                self.nodes@.len() == ORDER,
                start == old(self).next_free as int,
                start == 0 || start < ORDER,
                i <= ORDER,
                ORDER > 0 ==> current < ORDER,
                !found ==> index == old(self).next_free,
                !found ==> current as int == probe_slot(start, i as int, ORDER as int),
                !found ==> forall|d: int|
                    0 <= d < i ==> self.nodes@[#[trigger] probe_slot(start, d, ORDER as int)] is Some,
                found ==> (index as int) < ORDER && self.nodes@[index as int] is None,
            decreases ORDER - i,
        {
            let is_free = self.nodes[current].is_none();
            let select: usize = is_free as usize;
            proof {
                if is_free {
                    assert(current * select == current && index * (1 - select) == 0)
                        by (nonlinear_arith)
                        requires
                            select == 1usize,
                    ;
                } else {
                    assert(current * select == 0 && index * (1 - select) == index)
                        by (nonlinear_arith)
                        requires
                            select == 0usize,
                    ;
                }
            }
            index = current * select + index * (1 - select);
            found = found || is_free;
            current = if current + 1 == ORDER {
                0
            } else {
                current + 1
            };
            i += 1;
        }

        if !found {
            proof {
                assert forall|s: int| 0 <= s < ORDER implies self.nodes@[s] is Some by {
                    let d = if s >= start {
                        s - start
                    } else {
                        s + ORDER - start
                    };
                    assert(self.nodes@[probe_slot(start, d, ORDER as int)] is Some);
                }
            }
            return Err(BTreeError::Full);
        }

        let node = Node {
            keys: Vec::new(),
            values: Vec::new(),
            children: Vec::new(),
            next_leaf: None,
            is_leaf: true,
        };
        self.nodes.set(index, Some(node));
        self.next_free = if index + 1 == ORDER {
            0
        } else {
            index + 1
        };
        Ok(index)
    }

    /// Destroys the record in the given slot, if any, and marks the slot free.
    /// Slot identifiers at or past the pool size are ignored.
    fn deallocate_node(&mut self, index: NodeIndex)
        requires
            old(self).nodes@.len() == ORDER,
        ensures
            final(self).root == old(self).root,
            final(self).len == old(self).len,
            final(self).next_free == old(self).next_free,
            final(self).nodes@.len() == ORDER,
            (index as int) < ORDER ==> final(self).nodes@ == old(self).nodes@.update(
                index as int,
                None::<Node<V>>,
            ),
            (index as int) >= ORDER ==> final(self).nodes@ == old(self).nodes@,
    {
        if index < ORDER {
            self.nodes.set(index, None);
        }
        proof {
            if (index as int) >= ORDER {
                assert(final(self).nodes@ =~= old(self).nodes@);
            }
        }
    }

    /// Binary search over the record's live key run with arithmetic selection
    /// in place of data-dependent branches: returns `(true, position)` on an
    /// exact match, else `(false, insertion point)`.
    fn search_node(&self, node_index: NodeIndex, key: u64) -> (r: (bool, usize))
        requires
            self.wf(),
            self.root == Some(node_index),
        ensures
            r.1 <= self.key_seq().len(),
            r.0 <==> self.key_seq().contains(key),
            r.0 ==> r.1 < self.key_seq().len() && self.key_seq()[r.1 as int] == key,
            !r.0 ==> (forall|j: int| 0 <= j < r.1 ==> self.key_seq()[j] < key) && (forall|j: int|
                r.1 <= j < self.key_seq().len() ==> self.key_seq()[j] > key),
    {
        let node = match &self.nodes[node_index] {
            Some(node) => node,
            None => {
                return (false, 0);
            },
        };

        let mut left: usize = 0;
        let mut right: usize = node.keys.len();
        while left < right
            invariant
                self.wf(),
                self.root == Some(node_index),
                self.nodes@[node_index as int] is Some,
                node == self.nodes@[node_index as int].unwrap(),
                node.keys@ == self.key_seq(),
                left <= right <= node.keys@.len(),
                forall|j: int| 0 <= j < left ==> node.keys@[j] < key,
                forall|j: int| right <= j < node.keys@.len() ==> node.keys@[j] > key,
            decreases right - left,
        {
            let mid = left + (right - left) / 2;
            let node_key = node.keys[mid];
            let is_less: usize = (key < node_key) as usize;
            let is_greater: usize = (key > node_key) as usize;

            if key == node_key {
                return (true, mid);
            }
            proof {
                if key < node_key {
                    assert(mid * is_less == mid && right * (1 - is_less) == 0)
                        by (nonlinear_arith)
                        requires
                            is_less == 1usize,
                    ;
                    assert((mid + 1) * is_greater == 0 && left * (1 - is_greater) == left)
                        by (nonlinear_arith)
                        requires
                            is_greater == 0usize,
                    ;
                } else {
                    assert(mid * is_less == 0 && right * (1 - is_less) == right)
                        by (nonlinear_arith)
                        requires
                            is_less == 0usize,
                    ;
                    assert((mid + 1) * is_greater == mid + 1 && left * (1 - is_greater) == 0)
                        by (nonlinear_arith)
                        requires
                            is_greater == 1usize,
                    ;
                }
            }

            // less: right moves to mid, left unchanged
            // greater: left moves past mid, right unchanged
            right = mid * is_less + right * (1 - is_less);
            left = (mid + 1) * is_greater + left * (1 - is_greater);
        }

        let found = if left < node.keys.len() {
            let node_key = node.keys[left];
            key == node_key
        } else {
            false
        };

        (found, left)
    }

    /// Inserts a key/value pair. Overwriting a present key returns the prior
    /// value and changes no key; a new key goes to its sorted position in the
    /// root leaf, failing with `Full` when that run is already at `ORDER`.
    pub fn insert(&mut self, key: u64, value: V) -> (r: Result<Option<V>, BTreeError>)
        requires
            old(self).wf(),
        ensures
            final(self).wf(),
            match r {
                Ok(prev) => {
                    &&& final(self).as_map() == old(self).as_map().insert(key, value)
                    &&& match prev {
                        Some(v) => {
                            &&& old(self).as_map().contains_key(key)
                            &&& v == old(self).as_map()[key]
                            &&& final(self).key_seq() == old(self).key_seq()
                            &&& final(self).val_seq() == old(self).val_seq().update(
                                pos_of(old(self).key_seq(), key),
                                value,
                            )
                        },
                        None => {
                            &&& !old(self).as_map().contains_key(key)
                            &&& old(self).spec_len() < ORDER
                            &&& final(self).key_seq() == old(self).key_seq().insert(
                                ins_pos(old(self).key_seq(), key),
                                key,
                            )
                            &&& final(self).val_seq() == old(self).val_seq().insert(
                                ins_pos(old(self).key_seq(), key),
                                value,
                            )
                        },
                    }
                },
                Err(e) => {
                    &&& e == BTreeError::Full
                    &&& !old(self).as_map().contains_key(key)
                    &&& old(self).spec_len() == ORDER
                    &&& *final(self) == *old(self)
                },
            },
    {
        if self.root.is_none() {
            let root_index = match self.allocate_node() {
                Ok(idx) => idx,
                Err(e) => {
                    // With no root every slot is free, so a failed allocation
                    // means the pool has zero slots: the index is a zero-sized
                    // one, already at its capacity of zero pairs.
                    proof {
                        if ORDER > 0 {
                            assert(old(self).nodes@[0] is None);
                            assert(old(self).nodes@[0] is Some);
                        }
                        assert(old(self).spec_len() == 0);
                        assert(!old(self).as_map().contains_key(key));
                    }
                    return Err(e);
                },
            };
            self.root = Some(root_index);

            let node = match &mut self.nodes[root_index] {
                Some(node) => node,
                None => {
                    return Err(BTreeError::InvalidOperation);
                },
            };
            node.keys.push(key);
            node.values.push(value);
            self.len = self.len + 1;
            proof {
                assert(old(self).key_seq() =~= Seq::<u64>::empty());
                assert(self.key_seq() =~= seq![key]);
                assert(self.val_seq() =~= old(self).val_seq().insert(0, value));
                assert(self.key_seq() =~= old(self).key_seq().insert(0, key));
                lemma_kv_insert_new(old(self).key_seq(), old(self).val_seq(), 0, key, value);
            }
            return Ok(None);
        }

        let root_index = self.root.unwrap();
        self.insert_recursive(root_index, key, value)
    }

    /// One step of the insertion descent: locate the key's position in the
    /// current record, act on a leaf, or follow the child the position selects.
    fn insert_recursive(&mut self, node_index: NodeIndex, key: u64, value: V) -> (r: Result<
        Option<V>,
        BTreeError,
    >)
        requires
            old(self).wf(),
            old(self).root == Some(node_index),
        ensures
            final(self).wf(),
            match r {
                Ok(prev) => {
                    &&& final(self).as_map() == old(self).as_map().insert(key, value)
                    &&& match prev {
                        Some(v) => {
                            &&& old(self).as_map().contains_key(key)
                            &&& v == old(self).as_map()[key]
                            &&& final(self).key_seq() == old(self).key_seq()
                            &&& final(self).val_seq() == old(self).val_seq().update(
                                pos_of(old(self).key_seq(), key),
                                value,
                            )
                        },
                        None => {
                            &&& !old(self).as_map().contains_key(key)
                            &&& old(self).spec_len() < ORDER
                            &&& final(self).key_seq() == old(self).key_seq().insert(
                                ins_pos(old(self).key_seq(), key),
                                key,
                            )
                            &&& final(self).val_seq() == old(self).val_seq().insert(
                                ins_pos(old(self).key_seq(), key),
                                value,
                            )
                        },
                    }
                },
                Err(e) => {
                    &&& e == BTreeError::Full
                    &&& !old(self).as_map().contains_key(key)
                    &&& old(self).spec_len() == ORDER
                    &&& *final(self) == *old(self)
                },
            },
        decreases ORDER,
    {
        let (found, pos) = self.search_node(node_index, key);
        let ghost keys0 = self.key_seq();
        let ghost vals0 = self.val_seq();
        let (is_leaf, key_count) = match &self.nodes[node_index] {
            Some(node) => (node.is_leaf, node.keys.len()),
            None => {
                return Err(BTreeError::InvalidOperation);
            },
        };

        if is_leaf {
            if found {
                let mut prev = value;
                match &mut self.nodes[node_index] {
                    Some(node) => {
                        core::mem::swap(&mut prev, &mut node.values[pos]);
                    },
                    None => {
                        return Err(BTreeError::InvalidOperation);
                    },
                }
                proof {
                    lemma_pos_of_at(keys0, pos as int);
                    lemma_kv_update(keys0, vals0, pos as int, value);
                }
                return Ok(Some(prev));
            }

            if key_count >= ORDER {
                return Err(BTreeError::Full);
            }

            match &mut self.nodes[node_index] {
                Some(node) => {
                    node.keys.insert(pos, key);
                    node.values.insert(pos, value);
                },
                None => {
                    return Err(BTreeError::InvalidOperation);
                },
            }
            self.len = self.len + 1;
            proof {
                lemma_ins_pos_unique(keys0, key, pos as int);
                lemma_kv_insert_new(keys0, vals0, pos as int, key, value);
            }
            Ok(None)
        } else {
            // Internal records never arise: insertion does not split a full
            // leaf, so the root stays the only record, and it is a leaf.
            let child = match &self.nodes[node_index] {
                Some(node) => node.children[pos + if found {
                    1
                } else {
                    0
                }],
                None => None,
            };
            match child {
                Some(child_index) => self.insert_recursive(child_index, key, value),
                None => Err(BTreeError::InvalidOperation),
            }
        }
    }

    /// Looks a key up, returning a reference to its value when present.
    pub fn get(&self, key: &u64) -> (r: Option<&V>)
        requires
            self.wf(),
        ensures
            r is Some <==> self.as_map().contains_key(*key),
            r matches Some(v) ==> *v == self.as_map()[*key],
    {
        let root_index = match self.root {
            Some(root_index) => root_index,
            None => {
                return None;
            },
        };
        self.get_recursive(root_index, key)
    }

    /// One step of the lookup descent: act on a leaf, or follow the child the
    /// located position selects.
    fn get_recursive(&self, node_index: NodeIndex, key: &u64) -> (r: Option<&V>)
        requires
            self.wf(),
            self.root == Some(node_index),
        ensures
            r is Some <==> self.as_map().contains_key(*key),
            r matches Some(v) ==> *v == self.as_map()[*key],
        decreases ORDER,
    {
        let (found, pos) = self.search_node(node_index, *key);
        let node = match &self.nodes[node_index] {
            Some(node) => node,
            None => {
                return None;
            },
        };

        if node.is_leaf {
            if found {
                proof {
                    lemma_pos_of_at(self.key_seq(), pos as int);
                }
                Some(&node.values[pos])
            } else {
                None
            }
        } else {
            // Internal records never arise; see `insert_recursive`.
            let child_index = match node.children[pos + if found {
                1
            } else {
                0
            }] {
                Some(child) => child,
                None => {
                    return None;
                },
            };
            self.get_recursive(child_index, key)
        }
    }

    /// Whether the key is present.
    pub fn contains_key(&self, key: &u64) -> (r: bool)
        requires
            self.wf(),
        ensures
            r <==> self.as_map().contains_key(*key),
    {
        self.get(key).is_some()
    }

    /// Removes a key, returning its value when it was present.
    pub fn remove(&mut self, key: &u64) -> (r: Option<V>)
        requires
            old(self).wf(),
        ensures
            final(self).wf(),
            r is Some <==> old(self).as_map().contains_key(*key),
            r matches Some(v) ==> {
                &&& v == old(self).as_map()[*key]
                &&& final(self).as_map() == old(self).as_map().remove(*key)
                &&& final(self).key_seq() == old(self).key_seq().remove(
                    pos_of(old(self).key_seq(), *key),
                )
                &&& final(self).val_seq() == old(self).val_seq().remove(
                    pos_of(old(self).key_seq(), *key),
                )
                &&& final(self).spec_len() == old(self).spec_len() - 1
            },
            r is None ==> *final(self) == *old(self),
    {
        let root_index = match self.root {
            Some(root_index) => root_index,
            None => {
                return None;
            },
        };
        let result = self.remove_recursive(root_index, key);
        if result.is_some() {
            self.len = self.len - 1;
        }
        result
    }

    /// One step of the removal descent: shift the leaf's run left over the
    /// removed position, or follow the child the located position selects.
    /// The caller maintains the overall pair count.
    fn remove_recursive(&mut self, node_index: NodeIndex, key: &u64) -> (r: Option<V>)
        requires
            old(self).wf(),
            old(self).root == Some(node_index),
        ensures
            final(self).arena_wf(),
            final(self).root == old(self).root,
            final(self).len == old(self).len,
            r is Some <==> old(self).as_map().contains_key(*key),
            r matches Some(v) ==> {
                &&& v == old(self).as_map()[*key]
                &&& final(self).as_map() == old(self).as_map().remove(*key)
                &&& final(self).key_seq() == old(self).key_seq().remove(
                    pos_of(old(self).key_seq(), *key),
                )
                &&& final(self).val_seq() == old(self).val_seq().remove(
                    pos_of(old(self).key_seq(), *key),
                )
                &&& final(self).spec_len() == old(self).spec_len() - 1
            },
            r is None ==> *final(self) == *old(self),
        decreases ORDER,
    {
        let (found, pos) = self.search_node(node_index, *key);
        let ghost keys0 = self.key_seq();
        let ghost vals0 = self.val_seq();
        let is_leaf = match &self.nodes[node_index] {
            Some(node) => node.is_leaf,
            None => {
                return None;
            },
        };

        if is_leaf {
            if !found {
                return None;
            }

            let removed_value = match &mut self.nodes[node_index] {
                Some(node) => {
                    node.keys.remove(pos);
                    Some(node.values.remove(pos))
                },
                None => None,
            };
            proof {
                lemma_pos_of_at(keys0, pos as int);
                lemma_kv_remove(keys0, vals0, pos as int);
            }
            removed_value
        } else {
            // Internal records never arise; see `insert_recursive`.
            let child = match &self.nodes[node_index] {
                Some(node) => node.children[pos + if found {
                    1
                } else {
                    0
                }],
                None => None,
            };
            match child {
                Some(child_index) => self.remove_recursive(child_index, key),
                None => None,
            }
        }
    }

    /// Destroys every record reachable from the root, children before the
    /// record itself, then resets the index to empty and the pool to all free.
    pub fn clear(&mut self)
        requires
            old(self).wf(),
        ensures
            final(self).wf(),
            final(self).key_seq() == Seq::<u64>::empty(),
            final(self).as_map() == Map::<u64, V>::empty(),
            final(self).spec_len() == 0,
    {
        match self.root {
            Some(root_index) => {
                self.clear_recursive(root_index);
                self.root = None;
                self.len = 0;
                let mut i: usize = 0;
                while i < ORDER
                    invariant
                        i <= ORDER,
                        self.nodes@.len() == ORDER,
                        self.root is None,
                        self.len == 0,
                        forall|j: int| 0 <= j < i ==> self.nodes@[j] is None,
                    decreases ORDER - i,
                {
                    self.nodes.set(i, None);
                    i += 1;
                }
                self.next_free = 0;
                proof {
                    assert(final(self).as_map() =~= Map::<u64, V>::empty());
                }
            },
            None => {
                proof {
                    assert(final(self).as_map() =~= Map::<u64, V>::empty());
                    assert(final(self).key_seq() =~= Seq::<u64>::empty());
                }
            },
        }
    }

    /// Destroys the given record's children, then the record itself.
    fn clear_recursive(&mut self, node_index: NodeIndex)
        requires
            old(self).wf(),
            old(self).root == Some(node_index),
        ensures
            final(self).nodes@ == old(self).nodes@.update(node_index as int, None::<Node<V>>),
            final(self).root == old(self).root,
            final(self).len == old(self).len,
            final(self).next_free == old(self).next_free,
        decreases ORDER,
    {
        let child_count = match &self.nodes[node_index] {
            Some(node) => node.children.len(),
            None => 0,
        };
        let mut i: usize = 0;
        while i < child_count
            invariant
                *self == *old(self),
                self.wf(),
                self.root == Some(node_index),
                child_count == 0,
            decreases child_count - i,
        {
            // Internal records never arise, so a live record has no children.
            let child = match &self.nodes[node_index] {
                Some(node) => node.children[i],
                None => None,
            };
            match child {
                Some(child_index) => {
                    self.clear_recursive(child_index);
                },
                None => {},
            }
            i += 1;
        }
        self.deallocate_node(node_index);
    }

    /// Walks the pairs in ascending key order, starting from the leftmost
    /// leaf. The iterator is consumed by the one traversal.
    pub fn iter(&self) -> (it: BTreeIter<'_, V, ORDER>)
        requires
            self.wf(),
        ensures
            it.wf(),
            it.tree() == self,
            it.pos() == 0,
    {
        BTreeIter { tree: self, current_node: self.find_leftmost_leaf(), current_pos: 0 }
    }

    /// Follows child position 0 from the root until a leaf is reached.
    fn find_leftmost_leaf(&self) -> (r: Option<NodeIndex>)
        requires
            self.wf(),
        ensures
            r == self.root,
    {
        let mut current = match self.root {
            Some(root_index) => root_index,
            None => {
                return None;
            },
        };

        loop
            invariant
                self.wf(),
                self.root == Some(current),
            decreases 0int,
        {
            match &self.nodes[current] {
                Some(node) => {
                    if node.is_leaf {
                        return Some(current);
                    }
                    // Internal records never arise; see `insert_recursive`.
                    match node.children[0] {
                        Some(child) => {
                            current = child;
                        },
                        None => {
                            return None;
                        },
                    }
                },
                None => {
                    return None;
                },
            }
        }
    }
}

impl<V, const ORDER: usize> Default for BTree<V, ORDER> {
    fn default() -> (s: Self)
        ensures
            s.wf(),
            s.as_map() == Map::<u64, V>::empty(),
            s.spec_len() == 0,
    {
        Self::new()
    }
}

/// Iterator over a [`BTree`], yielding key/value pairs in ascending key order
/// by walking the leaf chain.
pub struct BTreeIter<'a, V, const ORDER: usize> {
    tree: &'a BTree<V, ORDER>,
    current_node: Option<NodeIndex>,
    current_pos: usize,
}

impl<'a, V, const ORDER: usize> BTreeIter<'a, V, ORDER> {
    /// The index being walked.
    pub closed spec fn tree(&self) -> &'a BTree<V, ORDER> {
        self.tree
    }

    /// How many pairs were already yielded.
    pub closed spec fn pos(&self) -> int {
        match self.current_node {
            None => self.tree.key_seq().len() as int,
            Some(_) => self.current_pos as int,
        }
    }

    /// The walk stands inside the live run of the record it points at.
    pub closed spec fn wf(&self) -> bool {
        &&& self.tree.wf()
        &&& match self.current_node {
            None => true,
            Some(n) => self.tree.root == Some(n) && self.current_pos
                <= self.tree.key_seq().len(),
        }
    }

    /// Yields the pair at the current position and advances, following the
    /// leaf chain when the current record's run is exhausted; `None` once every
    /// pair was yielded.
    pub fn next(&mut self) -> (r: Option<(&'a u64, &'a V)>)
        requires
            old(self).wf(),
        ensures
            final(self).wf(),
            final(self).tree() == old(self).tree(),
            old(self).pos() == old(self).tree().key_seq().len() ==> r is None && final(self).pos()
                == old(self).pos(),
            old(self).pos() < old(self).tree().key_seq().len() ==> (r matches Some(p) && {
                &&& *p.0 == old(self).tree().key_seq()[old(self).pos()]
                &&& *p.1 == old(self).tree().val_seq()[old(self).pos()]
                &&& final(self).pos() == old(self).pos() + 1
            }),
    {
        let node_index = match self.current_node {
            Some(node_index) => node_index,
            None => {
                return None;
            },
        };
        let tree = self.tree;
        let node = match &tree.nodes[node_index] {
            Some(node) => node,
            None => {
                return None;
            },
        };

        if self.current_pos >= node.keys.len() {
            self.current_node = node.next_leaf;
            self.current_pos = 0;

            let next_node_index = match self.current_node {
                Some(next_node_index) => next_node_index,
                None => {
                    return None;
                },
            };
            // A populated leaf chain never arises: records are neither split
            // nor chained, so the walk ends with the root's run.
            let next_node = match &tree.nodes[next_node_index] {
                Some(next_node) => next_node,
                None => {
                    return None;
                },
            };
            if next_node.keys.len() == 0 {
                return None;
            }

            let key = &next_node.keys[0];
            let value = &next_node.values[0];
            self.current_pos = 1;
            return Some((key, value));
        }

        let key = &node.keys[self.current_pos];
        let value = &node.values[self.current_pos];
        self.current_pos = self.current_pos + 1;

        Some((key, value))
    }

    /// How many pairs remain at most, as the pair of lower and upper bounds.
    pub fn size_hint(&self) -> (r: (usize, Option<usize>))
        requires
            self.wf(),
        ensures
            r.0 == 0,
            r.1 matches Some(n) && n == self.tree().spec_len(),
    {
        (0, Some(self.tree.len))
    }
}

/// The map that a run of insertions builds, first pair first.
pub open spec fn insert_all<V>(m: Map<u64, V>, keys: Seq<u64>, vals: Seq<V>) -> Map<u64, V>
    decreases keys.len(),
{
    if keys.len() == 0 || vals.len() == 0 {
        m
    } else {
        insert_all(m.insert(keys[0], vals[0]), keys.drop_first(), vals.drop_first())
    }
}

/// Round trip: inserting pairs whose keys are distinct and then looking any of
/// the keys up in the resulting association yields the value inserted with it.
/// Each successful `insert` turns the stored map `m` into `m.insert(key,
/// value)`, so a run of insertions builds `insert_all` of its pairs.
pub proof fn lemma_round_trip<V>(keys: Seq<u64>, vals: Seq<V>, m0: Map<u64, V>, i: int)
    requires
        keys.no_duplicates(),
        vals.len() == keys.len(),
        0 <= i < keys.len(),
    ensures
        insert_all(m0, keys, vals).contains_key(keys[i]),
        insert_all(m0, keys, vals)[keys[i]] == vals[i],
    decreases keys.len(),
{
    if i == 0 {
        lemma_insert_all_frame(keys.drop_first(), vals.drop_first(), m0.insert(keys[0], vals[0]), keys[0]);
    } else {
        assert(keys.drop_first()[i - 1] == keys[i]);
        lemma_round_trip(keys.drop_first(), vals.drop_first(), m0.insert(keys[0], vals[0]), i - 1);
    }
}

/// A run of insertions leaves every key it does not name unchanged.
proof fn lemma_insert_all_frame<V>(keys: Seq<u64>, vals: Seq<V>, m: Map<u64, V>, q: u64)
    requires
        !keys.contains(q),
        m.contains_key(q),
    ensures
        insert_all(m, keys, vals).contains_key(q),
        insert_all(m, keys, vals)[q] == m[q],
    decreases keys.len(),
{
    if keys.len() > 0 && vals.len() > 0 {
        assert(keys[0] != q);
        assert forall|j: int| 0 <= j < keys.drop_first().len() implies keys.drop_first()[j] != q by {
            assert(keys.drop_first()[j] == keys[j + 1]);
        }
        lemma_insert_all_frame(keys.drop_first(), vals.drop_first(), m.insert(keys[0], vals[0]), q);
    }
}

/// Capacity boundary: a run of insertions stores exactly the keys of the run
/// beside those already present, so inserting distinct keys into an empty
/// index grows the stored map by one key each, until a new key meets a full
/// run and fails.
pub proof fn lemma_insert_all_dom<V>(keys: Seq<u64>, vals: Seq<V>, m0: Map<u64, V>)
    requires
        vals.len() == keys.len(),
    ensures
        insert_all(m0, keys, vals).dom() == m0.dom() + keys.to_set(),
    decreases keys.len(),
{
    if keys.len() == 0 {
        assert(insert_all(m0, keys, vals).dom() =~= m0.dom() + keys.to_set());
    } else {
        let rest = keys.drop_first();
        lemma_insert_all_dom(rest, vals.drop_first(), m0.insert(keys[0], vals[0]));
        assert forall|x: u64| #[trigger] keys.to_set().contains(x) implies x == keys[0]
            || rest.to_set().contains(x) by {
            let j = choose|j: int| 0 <= j < keys.len() && keys[j] == x;
            if j > 0 {
                assert(rest[j - 1] == x);
            }
        }
        assert forall|x: u64| #[trigger] rest.to_set().contains(x) implies keys.to_set().contains(
            x,
        ) by {
            let j = choose|j: int| 0 <= j < rest.len() && rest[j] == x;
            assert(keys[j + 1] == x);
        }
        assert(keys.to_set().contains(keys[0]));
        assert(insert_all(m0, keys, vals).dom() =~= m0.dom() + keys.to_set());
    }
}

/// Ordering: a strictly ascending key sequence is the one sorted arrangement
/// of its keys, so any independently sorted copy of the same keys is equal to
/// the sequence the iterator yields.
pub proof fn lemma_sorted_arrangement_unique(a: Seq<u64>, b: Seq<u64>)
    requires
        sorted_strict(a),
        sorted_strict(b),
        a.to_multiset() == b.to_multiset(),
    ensures
        a == b,
    decreases a.len(),
{
    broadcast use vstd::seq_lib::group_to_multiset_ensures;

    assert(a.len() == a.to_multiset().len());
    assert(b.len() == b.to_multiset().len());
    if a.len() == 0 {
        assert(a =~= b);
    } else {
        assert(a.to_multiset().count(a[0]) > 0) by {
            assert(a.contains(a[0]));
        }
        assert(b.contains(a[0]));
        assert(b.to_multiset().count(b[0]) > 0) by {
            assert(b.contains(b[0]));
        }
        assert(a.contains(b[0]));
        let ja = choose|j: int| 0 <= j < b.len() && b[j] == a[0];
        let jb = choose|j: int| 0 <= j < a.len() && a[j] == b[0];
        assert(b[0] <= b[ja]);
        assert(a[0] <= a[jb]);
        assert(a[0] == b[0]);

        let at = a.drop_first();
        let bt = b.drop_first();
        assert(a.remove(0) =~= at);
        assert(b.remove(0) =~= bt);
        assert(at.to_multiset() =~= a.to_multiset().remove(a[0]));
        assert(bt.to_multiset() =~= b.to_multiset().remove(b[0]));
        assert forall|x: int, y: int| 0 <= x < y < at.len() implies at[x] < at[y] by {
            assert(at[x] == a[x + 1] && at[y] == a[y + 1]);
        }
        assert forall|x: int, y: int| 0 <= x < y < bt.len() implies bt[x] < bt[y] by {
            assert(bt[x] == b[x + 1] && bt[y] == b[y + 1]);
        }
        lemma_sorted_arrangement_unique(at, bt);
        assert forall|x: int| 0 <= x < a.len() implies a[x] == b[x] by {
            if x > 0 {
                assert(a[x] == at[x - 1] && b[x] == bt[x - 1]);
            }
        }
        assert(a =~= b);
    }
}

} // verus!

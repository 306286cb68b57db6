//! Compiling a trie into a double array: each node is given the lowest base
//! at which all its children find free slots, depth first.

use vstd::prelude::*;
use crate::bit_cache::{BitCache, MAX_SLOT, RESERVED_SLOTS};
use crate::error::Error;
use crate::filling::{
    filled, first_fit, first_len, grown_len, last_taken, layout, lemma_first_fit_unique, lemma_last_taken,
    lemma_run_waiting, lemma_small_tree_has_layout, placed, resized, roomy, run, seated, taken, tree_keys,
    waiting, with_children, with_value, zeros, Tree, MAX_LEN,
};
use crate::model::{block_at, Arrays};
use crate::trie::{sentinel_free, Node, Trie, SENTINEL};

verus! {

/// Whether the keys ascend strictly.
pub open spec fn ascending(keys: Seq<u8>) -> bool {
    forall|i: int, j: int| 0 <= i < j < keys.len() ==> keys[i] < keys[j]
}

/// Whether a node with these child keys can take `base`: the slot of every
/// child is free.
pub open spec fn fits(cache: &BitCache, keys: Seq<u8>, base: int) -> bool {
    forall|j: int| 0 <= j < keys.len() ==> !cache.contains(base + #[trigger] keys[j])
}

/// The lowest base for a node with the child keys `keys`, such that the
/// first child's slot is at or after the cursor and every child's slot is free.
pub fn find_base(keys: &[u8], bit_cache: &BitCache) -> (base: usize)
    requires
        keys@.len() > 0,
        ascending(keys@),
        bit_cache.wf(),
    ensures
        base + keys@[0] >= bit_cache.cursor(),
        fits(bit_cache, keys@, base as int),
        forall|e: int|
            bit_cache.cursor() <= e < base + keys@[0] ==> !fits(bit_cache, keys@, #[trigger] (e - keys@[0])),
        base + keys@[0] <= bit_cache.cursor() || base + keys@[0] <= bit_cache.extent(),
{
    let first: usize = keys[0] as usize;
    let start: usize = bit_cache.start();
    let mut offset: usize = 0;
    proof {
        bit_cache.lemma_wf_facts();
    }
    loop
        invariant
            keys@.len() > 0,
            ascending(keys@),
            bit_cache.wf(),
            first == keys@[0],
            start == bit_cache.cursor(),
            RESERVED_SLOTS <= start <= MAX_SLOT + 1,
            start + offset <= MAX_SLOT + 1,
            offset == 0 || start + offset <= bit_cache.extent(),
            bit_cache.extent() <= MAX_SLOT + 1,
            forall|i: int| #[trigger] bit_cache.contains(i) ==> 0 <= i < bit_cache.extent(),
            forall|e: int| start <= e < start + offset ==> !fits(bit_cache, keys@, #[trigger] (e - first)),
        decreases MAX_SLOT + 1 - start - offset,
    {
        let empty_idx: usize = bit_cache.find_empty_idx(offset);
        let new_base: usize = empty_idx - first;
        let mut j: usize = 0;
        let mut free: bool = true;
        while j < keys.len()
            invariant
                j <= keys@.len(),
                bit_cache.wf(),
                ascending(keys@),
                first == keys@[0],
                new_base + first == empty_idx,
                empty_idx <= MAX_SLOT + 1,
                free ==> forall|k: int| 0 <= k < j ==> !bit_cache.contains(new_base + #[trigger] keys@[k]),
                !free ==> !fits(bit_cache, keys@, new_base as int),
            decreases keys@.len() - j,
        {
            if bit_cache.get(new_base + keys[j] as usize) != 0 {
                free = false;
                proof {
                    assert(bit_cache.contains(new_base + keys@[j as int]));
                }
            }
            j = j + 1;
        }
        if free {
            return new_base;
        }
        proof {
            let k = choose|k: int| 0 <= k < keys@.len() && bit_cache.contains(new_base + #[trigger] keys@[k]);
            assert(keys@[0] <= keys@[k]);
            assert forall|e: int| start <= e < empty_idx + 1 implies !fits(
                bit_cache,
                keys@,
                #[trigger] (e - first),
            ) by {
                if start + offset <= e < empty_idx {
                    assert(bit_cache.contains(e));
                    assert(e - first + keys@[0] == e);
                }
            }
        }
        offset = empty_idx + 1 - start;
    }
}



/// Lengthens `v` to `n` entries with zeros.
fn grow_slots(v: &mut Vec<u32>, n: usize)
    requires
        n >= old(v)@.len(),
    ensures
        final(v)@.len() == n,
        forall|k: int| 0 <= k < old(v)@.len() ==> final(v)@[k] == old(v)@[k],
        forall|k: int| old(v)@.len() <= k < n ==> final(v)@[k] == 0u32,
{
    let ghost before = v@;
    if n > v.len() {
        v.resize(n, 0u32);
        proof {
            assert forall|k: int| 0 <= k < before.len() implies v@[k] == before[k] by {
                assert(v@.subrange(0, before.len() as int)[k] == v@[k]);
            }
        }
    }
}

/// Appends `block` to `data`.
fn append_bytes(data: &mut Vec<u8>, block: &[u8])
    ensures
        final(data)@ == old(data)@ + block@,
{
    let ghost before = data@;
    data.extend_from_slice(block);
    proof {
        assert(data@ =~= before + block@);
    }
}

/// The node at the end of `path`.
pub(crate) open spec fn node_at(root: Node<u8>, path: Seq<u8>) -> Node<u8> {
    root.descend(path)->Some_0
}

/// What has been laid out so far: which slot each node got, whose children
/// are placed, and for each taken slot the node and byte that lead to it.
pub(crate) struct Plan {
    pub slots: Map<Seq<u8>, int>,
    pub done: Set<Seq<u8>>,
    pub owner: Map<int, (Seq<u8>, u8)>,
    pub cur: Option<Seq<u8>>,
    pub cur_children: int,
    pub cur_value: bool,
}

impl Plan {
    /// How many children of the node of `p` have their slots: all of them,
    /// but for the node that is being placed.
    pub(crate) open spec fn children_placed(self, root: Node<u8>, p: Seq<u8>) -> int {
        if self.cur == Some(p) {
            self.cur_children
        } else {
            node_at(root, p).nexts@.len() as int
        }
    }

    /// Whether the node of `p` has its value slot: where it has values, but
    /// for the node that is being placed.
    pub(crate) open spec fn value_placed(self, root: Node<u8>, p: Seq<u8>) -> bool {
        if self.cur == Some(p) {
            self.cur_value
        } else {
            node_at(root, p).values@.len() > 0
        }
    }

    /// The root has slot 1, and every node with a slot is a node of the tree
    /// whose slot lies in the arrays and is owned by its parent over its byte.
    pub(crate) open spec fn slots_ok(self, root: Node<u8>, arr: Arrays) -> bool {
        &&& self.slots.contains_key(Seq::empty())
        &&& self.slots[Seq::empty()] == 1
        &&& !self.owner.contains_key(0)
        &&& !self.owner.contains_key(1)
        &&& forall|p: Seq<u8>| #[trigger]
            self.slots.contains_key(p) ==> {
                &&& root.descend(p) is Some
                &&& 1 <= self.slots[p] < arr.check.len()
                &&& p.len() > 0 ==> self.owner.contains_key(self.slots[p]) && self.owner[self.slots[p]] == (
                    p.drop_last(),
                    p.last(),
                )
            }
    }

    /// The children of the node of `p` that are placed have the slots at its
    /// base plus their byte.
    pub(crate) open spec fn children_ok(self, root: Node<u8>, arr: Arrays, p: Seq<u8>) -> bool {
        forall|c: int|
            0 <= c < self.children_placed(root, p) ==> {
                let k = (#[trigger] node_at(root, p).nexts@[c]).key;
                &&& self.slots.contains_key(p.push(k))
                &&& self.slots[p.push(k)] == arr.base[self.slots[p]] + k
            }
    }

    /// The value slot of the node of `p`, where it is placed, is owned by the
    /// node and points at the node's values in the data.
    pub(crate) open spec fn value_ok(self, root: Node<u8>, arr: Arrays, p: Seq<u8>) -> bool {
        self.value_placed(root, p) ==> {
            let v = arr.base[self.slots[p]] + SENTINEL;
            &&& self.owner.contains_key(v)
            &&& self.owner[v] == (p, SENTINEL)
            &&& v < arr.base.len()
            &&& block_at(arr.data, arr.base[v] as int, node_at(root, p).values@)
        }
    }

    /// Every node that is done has a slot, and what is placed of it is in
    /// the arrays.
    pub(crate) open spec fn done_ok(self, root: Node<u8>, arr: Arrays) -> bool {
        forall|p: Seq<u8>| #[trigger]
            self.done.contains(p) ==> {
                &&& self.slots.contains_key(p)
                &&& self.children_ok(root, arr, p)
                &&& self.value_ok(root, arr, p)
            }
    }

    /// The taken slot `i` stands where its owner's base and byte say, names
    /// the owner in `CHECK`, and is there for a child or for the values of
    /// the owner.
    pub(crate) open spec fn owned(self, root: Node<u8>, arr: Arrays, i: int) -> bool {
        let p = self.owner[i].0;
        let k = self.owner[i].1;
        &&& 0 <= i < arr.check.len()
        &&& self.done.contains(p)
        &&& i == arr.base[self.slots[p]] + k
        &&& arr.check[i] == self.slots[p]
        &&& if k == SENTINEL {
            self.value_placed(root, p) && node_at(root, p).values@.len() > 0
        } else {
            node_at(root, p).child_at(k) is Some && node_at(root, p).child_at(k)->Some_0
                < self.children_placed(root, p)
        }
    }

    /// The slots with an owner are those with a non-zero `CHECK`.
    pub(crate) open spec fn owner_ok(self, root: Node<u8>, arr: Arrays) -> bool {
        &&& forall|i: int| 0 <= i < arr.check.len() && #[trigger] arr.check[i] != 0 ==> self.owner.contains_key(i)
        &&& forall|i: int| #[trigger] self.owner.contains_key(i) ==> self.owned(root, arr, i)
    }

    /// No two nodes share a slot.
    pub(crate) open spec fn injective(self) -> bool {
        forall|p: Seq<u8>, q: Seq<u8>|
            #![trigger self.slots.contains_key(p), self.slots.contains_key(q)]
            self.slots.contains_key(p) && self.slots.contains_key(q) && self.slots[p] == self.slots[q] ==> p
                == q
    }

    /// The node that is being placed is done, and no more of it is placed
    /// than it has.
    pub(crate) open spec fn cur_ok(self, root: Node<u8>) -> bool {
        match self.cur {
            Some(p) => {
                &&& self.done.contains(p)
                &&& 0 <= self.cur_children <= node_at(root, p).nexts@.len()
                &&& self.cur_value ==> node_at(root, p).values@.len() > 0
            },
            None => true,
        }
    }

    /// Everything that the layout promises of the arrays.
    pub(crate) open spec fn laid_out(self, root: Node<u8>, arr: Arrays) -> bool {
        &&& root.wf()
        &&& arr.base.len() == arr.check.len()
        &&& arr.check.len() >= 2
        &&& self.slots_ok(root, arr)
        &&& self.done_ok(root, arr)
        &&& self.owner_ok(root, arr)
        &&& self.injective()
        &&& self.cur_ok(root)
    }

    /// Nothing is left to place.
    pub(crate) open spec fn complete(self) -> bool {
        &&& self.cur is None
        &&& forall|p: Seq<u8>| #[trigger] self.slots.contains_key(p) ==> self.done.contains(p)
    }
}


impl Plan {
    /// Once nothing is left to place, a key is walked to the slot of its node,
    /// and a walk fails exactly where the tree has no node.
    pub(crate) proof fn lemma_walk(self, root: Node<u8>, arr: Arrays, key: Seq<u8>)
        requires
            self.laid_out(root, arr),
            self.complete(),
            sentinel_free(key),
        ensures
            match root.descend(key) {
                Some(_) => self.slots.contains_key(key) && arr.walk(key) == Some(self.slots[key]),
                None => arr.walk(key) is None,
            },
        decreases key.len(),
    {
        if key.len() == 0 {
            assert(key =~= Seq::<u8>::empty());
        } else {
            let front = key.drop_last();
            let b = key.last();
            assert(front.push(b) =~= key);
            assert(sentinel_free(front)) by {
                assert forall|i: int| 0 <= i < front.len() implies #[trigger] front[i] != SENTINEL by {
                    assert(front[i] == key[i]);
                }
            }
            assert(b != SENTINEL) by {
                assert(key[key.len() - 1] != SENTINEL);
            }
            self.lemma_walk(root, arr, front);
            root.lemma_descend_push(front, b);
            match root.descend(front) {
                Some(n) => {
                    let s = self.slots[front];
                    assert(self.done.contains(front));
                    assert(self.children_ok(root, arr, front));
                    match n.child_at(b) {
                        Some(c) => {
                            assert(node_at(root, front).nexts@[c].key == b);
                            assert(self.slots.contains_key(key));
                            let t = self.slots[key];
                            assert(t == arr.base[s] + b);
                            assert(self.owner.contains_key(t));
                            assert(self.owned(root, arr, t));
                            assert(arr.step(s, b) == Some(t));
                        },
                        None => {
                            let next = arr.base[s] + b;
                            if next < arr.check.len() && arr.check[next] == s {
                                assert(arr.check[next] != 0);
                                assert(self.owner.contains_key(next));
                                assert(self.owned(root, arr, next));
                                let q = self.owner[next].0;
                                assert(self.slots.contains_key(q));
                                assert(q == front);
                            }
                        },
                    }
                },
                None => {},
            }
        }
    }

    /// Once nothing is left to place, a key is found exactly where the tree
    /// holds values for it, at the offset of those values.
    pub(crate) proof fn lemma_find(self, root: Node<u8>, arr: Arrays, key: Seq<u8>)
        requires
            self.laid_out(root, arr),
            self.complete(),
            sentinel_free(key),
        ensures
            match arr.find(key) {
                Some(off) => root.values_at(key).len() > 0 && block_at(arr.data, off, root.values_at(key)),
                None => root.values_at(key).len() == 0,
            },
    {
        self.lemma_walk(root, arr, key);
        match root.descend(key) {
            Some(n) => {
                let s = self.slots[key];
                assert(self.done.contains(key));
                assert(self.value_ok(root, arr, key));
                let v = arr.base[s] + SENTINEL;
                if n.values@.len() > 0 {
                    assert(self.owned(root, arr, v));
                } else {
                    if v < arr.check.len() && arr.check[v] == s {
                        assert(arr.check[v] != 0);
                        assert(self.owner.contains_key(v));
                        assert(self.owned(root, arr, v));
                        let q = self.owner[v].0;
                        assert(self.slots.contains_key(q));
                        assert(q == key);
                    }
                }
            },
            None => {},
        }
    }

    /// Once nothing is left to place, every slot with a non-zero `CHECK` is
    /// the child of a node over a byte of the tree, or the value slot of a
    /// node with values.
    pub(crate) proof fn lemma_taken(self, root: Node<u8>, arr: Arrays, i: int)
        requires
            self.laid_out(root, arr),
            self.complete(),
            0 <= i < arr.check.len(),
            arr.check[i] != 0,
        ensures
            self.owner.contains_key(i),
            ({
                let p = self.owner[i].0;
                let k = self.owner[i].1;
                &&& sentinel_free(p)
                &&& arr.walk(p) == Some(arr.check[i] as int)
                &&& i == arr.base[arr.check[i] as int] + k
                &&& if k == SENTINEL {
                    &&& root.values_at(p).len() > 0
                    &&& i < arr.base.len()
                    &&& block_at(arr.data, arr.base[i] as int, root.values_at(p))
                } else {
                    root.descend(p.push(k)) is Some
                }
            }),
    {
        assert(self.owned(root, arr, i));
        let p = self.owner[i].0;
        let k = self.owner[i].1;
        assert(self.slots.contains_key(p));
        root.lemma_descend_wf(p);
        self.lemma_walk(root, arr, p);
        if k == SENTINEL {
            assert(self.value_ok(root, arr, p));
        } else {
            root.lemma_descend_push(p, k);
        }
    }
}


/// The key bytes of the children of `node`, in their order, followed by the
/// sentinel where the node has values.
fn child_keys(node: &Node<u8>) -> (keys: Vec<u8>)
    requires
        node.wf(),
    ensures
        ascending(keys@),
        keys@.len() == node.nexts@.len() + if node.values@.len() > 0 { 1int } else { 0int },
        forall|c: int| 0 <= c < node.nexts@.len() ==> keys@[c] == (#[trigger] node.nexts@[c]).key,
        node.values@.len() > 0 ==> keys@[node.nexts@.len() as int] == SENTINEL,
{
    let mut keys: Vec<u8> = Vec::new();
    let mut c: usize = 0;
    while c < node.nexts.len()
        invariant
            node.wf(),
            c <= node.nexts@.len(),
            keys@.len() == c,
            forall|d: int| 0 <= d < c ==> keys@[d] == (#[trigger] node.nexts@[d]).key,
        decreases node.nexts@.len() - c,
    {
        keys.push(node.nexts[c].key);
        c = c + 1;
    }
    if node.values.len() > 0 {
        keys.push(SENTINEL);
    }
    proof {
        assert forall|i: int, j: int| 0 <= i < j < keys@.len() implies keys@[i] < keys@[j] by {
            node.lemma_child_wf(i);
            if j < node.nexts@.len() {
                assert(node.nexts@[i].key < node.nexts@[j].key);
            }
        }
    }
    keys
}

/// The arrays while they are filled, with the nodes that wait for their
/// children to be placed.
pub(crate) struct Builder<'a> {
    pub base: Vec<u32>,
    pub check: Vec<u32>,
    pub data: Vec<u8>,
    pub cache: BitCache,
    pub stack: Vec<(usize, &'a Node<u8>)>,
    pub plan: Ghost<Plan>,
    pub paths: Ghost<Seq<Seq<u8>>>,
}

impl<'a> Builder<'a> {
    /// The arrays as they are filled so far.
    pub(crate) open spec fn arrays(&self) -> Arrays {
        Arrays { base: self.base@, check: self.check@, data: self.data@ }
    }

    /// The nodes that wait.
    pub(crate) open spec fn pending_nodes(&self) -> Seq<Node<u8>> {
        self.stack@.map_values(|e: (usize, &Node<u8>)| *e.1)
    }

    /// The number of nodes whose children are yet to be placed, counting the
    /// trees under the waiting nodes.
    pub(crate) open spec fn pending(&self) -> nat {
        Node::<u8>::forest_size(self.pending_nodes(), self.stack@.len())
    }

    /// The waiting nodes as mathematical trees, each with its slot.
    pub(crate) open spec fn stack_trees(&self) -> Seq<(int, Tree)> {
        self.stack@.map_values(|e: (usize, &Node<u8>)| (e.0 as int, e.1.tree()))
    }

    /// The blank arrays with which the filling starts.
    pub(crate) open spec fn blank(count: nat) -> Arrays {
        Arrays { base: zeros(first_len(count)), check: zeros(first_len(count)), data: Seq::empty() }
    }

    /// A slot is marked in the cache exactly where it is taken in the arrays.
    pub(crate) proof fn lemma_cache_taken(&self, root: Node<u8>)
        requires
            self.inv(root),
        ensures
            forall|i: int| #[trigger] self.cache.contains(i) <==> taken(self.arrays(), i),
    {
        reveal(Builder::inv);
        let arr = self.arrays();
        assert forall|i: int| #[trigger] self.cache.contains(i) <==> taken(arr, i) by {
            if self.plan@.owner.contains_key(i) {
                assert(self.plan@.owned(root, arr, i));
                assert(self.plan@.slots.contains_key(self.plan@.owner[i].0));
            }
            if 0 <= i < arr.check.len() && arr.check[i] != 0 {
                assert(self.plan@.owner.contains_key(i));
            }
        }
    }

    /// The cache marks the two reserved slots and the slots with an owner.
    pub(crate) open spec fn cache_ok(&self) -> bool {
        &&& self.cache.wf()
        &&& forall|i: int| #[trigger]
            self.cache.contains(i) <==> (i == 0 || i == 1 || self.plan@.owner.contains_key(i))
    }

    /// The waiting nodes are the nodes with a slot that are not done, each
    /// once, each with its slot.
    pub(crate) open spec fn stack_ok(&self, root: Node<u8>) -> bool {
        &&& self.paths@.len() == self.stack@.len()
        &&& forall|j: int|
            0 <= j < self.stack@.len() ==> {
                let p = #[trigger] self.paths@[j];
                &&& self.plan@.slots.contains_key(p)
                &&& !self.plan@.done.contains(p)
                &&& self.stack@[j].0 == self.plan@.slots[p]
                &&& root.descend(p) == Some(*self.stack@[j].1)
                &&& (self.stack@[j].1.nexts@.len() > 0 || self.stack@[j].1.values@.len() > 0)
            }
        &&& forall|p: Seq<u8>| #[trigger]
            self.plan@.slots.contains_key(p) ==> self.plan@.done.contains(p) || self.paths@.contains(p)
        &&& forall|i: int, j: int|
            0 <= i < j < self.paths@.len() ==> #[trigger] self.paths@[i] != #[trigger] self.paths@[j]
    }

    /// The arrays hold what the plan says, the cache marks what is taken, and
    /// every placed node that is not done waits.
    #[verifier::opaque]
    pub(crate) open spec fn inv(&self, root: Node<u8>) -> bool {
        &&& self.plan@.laid_out(root, self.arrays())
        &&& 256 <= self.check@.len() <= MAX_LEN
        &&& self.cache_ok()
        &&& self.stack_ok(root)
    }

    /// Room for what is left to place of the current node at base `b`.
    #[verifier::opaque]
    pub(crate) open spec fn room(&self, root: Node<u8>, b: int) -> bool {
        let p = self.plan@.cur->Some_0;
        let node = node_at(root, p);
        &&& 1 <= b
        &&& b + SENTINEL < self.check@.len()
        &&& forall|c: int|
            self.plan@.cur_children <= c < node.nexts@.len() ==> {
                &&& !self.cache.contains(b + (#[trigger] node.nexts@[c]).key)
                &&& b + node.nexts@[c].key >= RESERVED_SLOTS
            }
        &&& (node.values@.len() > 0 && !self.plan@.cur_value) ==> !self.cache.contains(b + SENTINEL)
    }

    /// Arrays of the length that `count` values call for, with the root at
    /// slot 1 and, unless the tree is empty, waiting for its children.
    pub(crate) fn new(root: &'a Node<u8>, count: usize) -> (r: Builder<'a>)
        requires
            root.wf(),
        ensures
            r.inv(*root),
            r.plan@.cur is None,
            r.data@.len() == 0,
            r.arrays() == Self::blank(count as nat),
            r.stack@.len() > 0 ==> r.stack_trees() == seq![(1int, root.tree())],
            r.stack@.len() == 0 ==> r.plan@.complete(),
            r.stack@.len() == 0 ==> r.plan@.owner == Map::<int, (Seq<u8>, u8)>::empty(),
            r.stack@.len() == 0 <==> root.nexts@.len() == 0 && root.values@.len() == 0,
    {
        proof {
            reveal(Builder::inv);
        }
        let len: usize = if count > MAX_LEN / 4 {
            MAX_LEN
        } else if 4 * count < RESERVED_SLOTS {
            RESERVED_SLOTS
        } else {
            4 * count
        };
        let mut base: Vec<u32> = Vec::new();
        let mut check: Vec<u32> = Vec::new();
        grow_slots(&mut base, len);
        grow_slots(&mut check, len);
        let mut cache = BitCache::new();
        cache.set(0);
        cache.set(1);
        let mut stack: Vec<(usize, &'a Node<u8>)> = Vec::new();
        let ghost top: Seq<u8> = Seq::empty();
        let ghost slots = Map::<Seq<u8>, int>::empty().insert(top, 1int);
        let waits: bool = root.nexts.len() > 0 || root.values.len() > 0;
        if waits {
            stack.push((1, root));
        }
        let ghost plan = Plan {
            slots,
            done: if waits { Set::<Seq<u8>>::empty() } else { Set::<Seq<u8>>::empty().insert(top) },
            owner: Map::<int, (Seq<u8>, u8)>::empty(),
            cur: None,
            cur_children: 0,
            cur_value: false,
        };
        let ghost paths: Seq<Seq<u8>> = if waits { seq![top] } else { Seq::empty() };
        let r = Builder { base, check, data: Vec::new(), cache, stack, plan: Ghost(plan), paths: Ghost(paths) };
        proof {
            let arr = r.arrays();
            assert(root.descend(top) == Some(*root));
            assert(plan.slots_ok(*root, arr));
            assert(plan.done_ok(*root, arr)) by {
                assert forall|p: Seq<u8>| #[trigger] plan.done.contains(p) implies {
                    &&& plan.slots.contains_key(p)
                    &&& plan.children_ok(*root, arr, p)
                    &&& plan.value_ok(*root, arr, p)
                } by {
                    assert(p == top);
                }
            }
            assert(plan.owner_ok(*root, arr));
            assert(plan.injective());
            if waits {
                assert(paths[0] == top);
                assert(r.stack@[0].1 == root);
            }
            assert(r.stack_ok(*root)) by {
                assert forall|p: Seq<u8>| #[trigger] plan.slots.contains_key(p) implies plan.done.contains(p)
                    || paths.contains(p) by {
                    assert(p == top);
                    if waits {
                        assert(paths[0] == top);
                    }
                }
            }
            assert(r.base@ =~= zeros(first_len(count as nat)));
            assert(r.check@ =~= zeros(first_len(count as nat)));
            assert(r.data@ =~= Seq::<u8>::empty());
            if waits {
                assert(r.stack_trees() =~= seq![(1int, root.tree())]);
            }
        }
        r
    }
}


/// Whether `longer` is `shorter` with zeros behind it.
pub(crate) open spec fn zero_extended(shorter: Seq<u32>, longer: Seq<u32>) -> bool {
    &&& shorter.len() <= longer.len()
    &&& forall|i: int| 0 <= i < shorter.len() ==> #[trigger] longer[i] == shorter[i]
    &&& forall|i: int| shorter.len() <= i < longer.len() ==> #[trigger] longer[i] == 0u32
}

impl Plan {
    /// Longer arrays, zero where they are new, hold the same layout.
    pub(crate) proof fn lemma_grow(self, root: Node<u8>, arr: Arrays, longer: Arrays)
        requires
            self.laid_out(root, arr),
            zero_extended(arr.base, longer.base),
            zero_extended(arr.check, longer.check),
            longer.base.len() == longer.check.len(),
            longer.data == arr.data,
        ensures
            self.laid_out(root, longer),
    {
        assert forall|p: Seq<u8>| #[trigger] self.done.contains(p) implies {
            &&& self.slots.contains_key(p)
            &&& self.children_ok(root, longer, p)
            &&& self.value_ok(root, longer, p)
        } by {
            assert(self.children_ok(root, arr, p));
            assert(self.value_ok(root, arr, p));
        }
        assert forall|i: int| #[trigger] self.owner.contains_key(i) implies self.owned(root, longer, i) by {
            assert(self.owned(root, arr, i));
            assert(self.slots.contains_key(self.owner[i].0));
        }
    }

    /// The node `p` starts to have its children placed.
    pub(crate) proof fn lemma_begin(self, root: Node<u8>, arr: Arrays, p: Seq<u8>) -> (r: Plan)
        requires
            self.laid_out(root, arr),
            self.cur is None,
            self.slots.contains_key(p),
            !self.done.contains(p),
        ensures
            r == (Plan { done: self.done.insert(p), cur: Some(p), cur_children: 0, cur_value: false, ..self }),
            r.laid_out(root, arr),
    {
        let r = Plan { done: self.done.insert(p), cur: Some(p), cur_children: 0, cur_value: false, ..self };
        assert forall|q: Seq<u8>| #[trigger] r.done.contains(q) implies {
            &&& r.slots.contains_key(q)
            &&& r.children_ok(root, arr, q)
            &&& r.value_ok(root, arr, q)
        } by {
            if q != p {
                assert(self.done.contains(q));
                assert(self.children_ok(root, arr, q));
                assert(self.value_ok(root, arr, q));
            }
        }
        assert forall|i: int| #[trigger] r.owner.contains_key(i) implies r.owned(root, arr, i) by {
            assert(self.owned(root, arr, i));
        }
        r
    }

    /// The node `p`, none of whose children is placed yet, is given its base.
    pub(crate) proof fn lemma_set_base(self, root: Node<u8>, arr: Arrays, p: Seq<u8>, b: u32)
        requires
            self.laid_out(root, arr),
            self.cur == Some(p),
            self.cur_children == 0,
            !self.cur_value,
        ensures
            self.laid_out(
                root,
                Arrays { base: arr.base.update(self.slots[p], b), check: arr.check, data: arr.data },
            ),
    {
        let idx = self.slots[p];
        let after = Arrays { base: arr.base.update(idx, b), check: arr.check, data: arr.data };
        assert(self.slots.contains_key(p));
        root.lemma_descend_wf(p);
        assert forall|i: int| #[trigger] self.owner.contains_key(i) && self.owner[i].1 == SENTINEL implies i
            != idx by {
            if i == idx {
                if p.len() > 0 {
                    assert(p[p.len() - 1] != SENTINEL);
                    assert(self.owner[idx] == (p.drop_last(), p.last()));
                } else {
                    assert(p =~= Seq::<u8>::empty());
                }
            }
        }
        assert forall|q: Seq<u8>| #[trigger] self.done.contains(q) implies {
            &&& self.slots.contains_key(q)
            &&& self.children_ok(root, after, q)
            &&& self.value_ok(root, after, q)
        } by {
            assert(self.children_ok(root, arr, q));
            assert(self.value_ok(root, arr, q));
            if q != p && self.value_placed(root, q) {
                let v = arr.base[self.slots[q]] + SENTINEL;
                assert(self.owner.contains_key(v));
            }
        }
        assert forall|i: int| #[trigger] self.owner.contains_key(i) implies self.owned(root, after, i) by {
            assert(self.owned(root, arr, i));
            assert(self.slots.contains_key(self.owner[i].0));
        }
    }
}


impl Plan {
    /// The next child of the current node is placed at the free slot `i`.
    pub(crate) proof fn lemma_place_child(self, root: Node<u8>, arr: Arrays, i: int, s: u32) -> (r: Plan)
        requires
            self.laid_out(root, arr),
            self.cur is Some,
            0 <= self.cur_children < node_at(root, self.cur->Some_0).nexts@.len(),
            s == self.slots[self.cur->Some_0],
            i == arr.base[s as int] + node_at(root, self.cur->Some_0).nexts@[self.cur_children].key,
            2 <= i < arr.check.len(),
            !self.owner.contains_key(i),
        ensures
            ({
                let p = self.cur->Some_0;
                let child = node_at(root, p).nexts@[self.cur_children];
                let q = p.push(child.key);
                &&& r == (Plan {
                    slots: self.slots.insert(q, i),
                    owner: self.owner.insert(i, (p, child.key)),
                    cur_children: self.cur_children + 1,
                    ..self
                })
                &&& !self.slots.contains_key(q)
                &&& root.descend(q) == Some(child)
            }),
            r.laid_out(root, Arrays { base: arr.base, check: arr.check.update(i, s), data: arr.data }),
    {
        let p = self.cur->Some_0;
        let node = node_at(root, p);
        let c = self.cur_children;
        let child = node.nexts@[c];
        let k = child.key;
        let q = p.push(k);
        let r = Plan {
            slots: self.slots.insert(q, i),
            owner: self.owner.insert(i, (p, k)),
            cur_children: c + 1,
            ..self
        };
        let after = Arrays { base: arr.base, check: arr.check.update(i, s), data: arr.data };
        assert(self.slots.contains_key(p));
        root.lemma_descend_wf(p);
        node.lemma_child_wf(c);
        node.lemma_child_at(c);
        root.lemma_descend_push(p, k);
        assert(q.drop_last() =~= p);
        assert(q.last() == k);
        // the path is new
        if self.slots.contains_key(q) {
            let t = self.slots[q];
            assert(self.owner[t] == (p, k));
            assert(self.owned(root, arr, t));
        }
        // no node has the slot yet
        assert forall|x: Seq<u8>| #[trigger] self.slots.contains_key(x) implies self.slots[x] != i by {
            if x.len() == 0 {
                assert(x =~= Seq::<u8>::empty());
            }
        }
        assert(r.slots_ok(root, after)) by {
            assert forall|x: Seq<u8>| #[trigger] r.slots.contains_key(x) implies {
                &&& root.descend(x) is Some
                &&& 1 <= r.slots[x] < after.check.len()
                &&& x.len() > 0 ==> r.owner.contains_key(r.slots[x]) && r.owner[r.slots[x]] == (
                    x.drop_last(),
                    x.last(),
                )
            } by {
                if x != q {
                    assert(self.slots.contains_key(x));
                }
            }
        }
        assert(r.done_ok(root, after)) by {
            assert forall|x: Seq<u8>| #[trigger] r.done.contains(x) implies {
                &&& r.slots.contains_key(x)
                &&& r.children_ok(root, after, x)
                &&& r.value_ok(root, after, x)
            } by {
                assert(self.children_ok(root, arr, x));
                assert(self.value_ok(root, arr, x));
                assert(self.slots.contains_key(x));
                assert forall|d: int| 0 <= d < r.children_placed(root, x) implies {
                    let kd = (#[trigger] node_at(root, x).nexts@[d]).key;
                    &&& r.slots.contains_key(x.push(kd))
                    &&& r.slots[x.push(kd)] == after.base[r.slots[x]] + kd
                } by {
                    if !(x == p && d == c) {
                        let kd = node_at(root, x).nexts@[d].key;
                        assert(self.slots.contains_key(x.push(kd)));
                    }
                }
            }
        }
        assert(r.owner_ok(root, after)) by {
            assert forall|j: int| #[trigger] r.owner.contains_key(j) implies r.owned(root, after, j) by {
                if j != i {
                    assert(self.owned(root, arr, j));
                    assert(self.slots.contains_key(self.owner[j].0));
                }
            }
        }
        assert(r.injective()) by {
            assert forall|x: Seq<u8>, y: Seq<u8>|
                #![trigger r.slots.contains_key(x), r.slots.contains_key(y)]
                r.slots.contains_key(x) && r.slots.contains_key(y) && r.slots[x] == r.slots[y] implies x
                == y by {
                if x != q && y != q {
                    assert(self.slots.contains_key(x) && self.slots.contains_key(y));
                } else if x != q {
                    assert(self.slots.contains_key(x));
                } else if y != q {
                    assert(self.slots.contains_key(y));
                }
            }
        }
        r
    }

    /// The values of the current node are placed: its value slot `v` is taken
    /// and points at the end of the data, where the values are appended.
    pub(crate) proof fn lemma_place_value(self, root: Node<u8>, arr: Arrays, v: int, s: u32, off: u32) -> (r:
        Plan)
        requires
            self.laid_out(root, arr),
            self.cur is Some,
            !self.cur_value,
            node_at(root, self.cur->Some_0).values@.len() > 0,
            s == self.slots[self.cur->Some_0],
            v == arr.base[s as int] + SENTINEL,
            2 <= v < arr.check.len(),
            !self.owner.contains_key(v),
            off == arr.data.len(),
        ensures
            r == (Plan { owner: self.owner.insert(v, (self.cur->Some_0, SENTINEL)), cur_value: true, ..self }),
            r.laid_out(
                root,
                Arrays {
                    base: arr.base.update(v, off),
                    check: arr.check.update(v, s),
                    data: arr.data + node_at(root, self.cur->Some_0).values@,
                },
            ),
    {
        let p = self.cur->Some_0;
        let node = node_at(root, p);
        let r = Plan { owner: self.owner.insert(v, (p, SENTINEL)), cur_value: true, ..self };
        let after = Arrays {
            base: arr.base.update(v, off),
            check: arr.check.update(v, s),
            data: arr.data + node.values@,
        };
        assert(self.slots.contains_key(p));
        assert forall|x: Seq<u8>| #[trigger] self.slots.contains_key(x) implies self.slots[x] != v by {
            if x.len() == 0 {
                assert(x =~= Seq::<u8>::empty());
            }
        }
        assert(r.slots_ok(root, after));
        assert(r.done_ok(root, after)) by {
            assert forall|x: Seq<u8>| #[trigger] r.done.contains(x) implies {
                &&& r.slots.contains_key(x)
                &&& r.children_ok(root, after, x)
                &&& r.value_ok(root, after, x)
            } by {
                assert(self.children_ok(root, arr, x));
                assert(self.value_ok(root, arr, x));
                assert(self.slots.contains_key(x));
                if x == p {
                    assert(after.data.subrange(off as int, off + node.values@.len()) =~= node.values@);
                } else if r.value_placed(root, x) {
                    let w = arr.base[self.slots[x]] + SENTINEL;
                    let block = node_at(root, x).values@;
                    let at = arr.base[w] as int;
                    assert(after.data.subrange(at, at + block.len()) =~= arr.data.subrange(
                        at,
                        at + block.len(),
                    ));
                }
            }
        }
        assert(r.owner_ok(root, after)) by {
            assert forall|j: int| #[trigger] r.owner.contains_key(j) implies r.owned(root, after, j) by {
                if j != v {
                    assert(self.owned(root, arr, j));
                    assert(self.slots.contains_key(self.owner[j].0));
                }
            }
        }
        r
    }

    /// All children of the current node are placed, and its values if it has any.
    pub(crate) proof fn lemma_close(self, root: Node<u8>, arr: Arrays) -> (r: Plan)
        requires
            self.laid_out(root, arr),
            self.cur is Some,
            self.cur_children == node_at(root, self.cur->Some_0).nexts@.len(),
            self.cur_value == (node_at(root, self.cur->Some_0).values@.len() > 0),
        ensures
            r == (Plan { cur: None, ..self }),
            r.laid_out(root, arr),
    {
        let r = Plan { cur: None, ..self };
        assert forall|x: Seq<u8>| #[trigger] r.done.contains(x) implies {
            &&& r.slots.contains_key(x)
            &&& r.children_ok(root, arr, x)
            &&& r.value_ok(root, arr, x)
        } by {
            assert(self.children_ok(root, arr, x));
            assert(self.value_ok(root, arr, x));
        }
        assert forall|j: int| #[trigger] r.owner.contains_key(j) implies r.owned(root, arr, j) by {
            assert(self.owned(root, arr, j));
        }
        r
    }
}


impl<'a> Builder<'a> {
    /// The base that the search finds from the cursor on is the lowest that
    /// fits at all: below the cursor nothing is free.
    pub(crate) proof fn lemma_found_base(&self, root: Node<u8>, keys: Seq<u8>, b: int)
        requires
            self.inv(root),
            keys.len() > 0,
            b + keys[0] >= self.cache.cursor(),
            fits(&self.cache, keys, b),
            forall|e: int|
                self.cache.cursor() <= e < b + keys[0] ==> !fits(&self.cache, keys, #[trigger] (e - keys[0])),
        ensures
            first_fit(self.arrays(), keys) == b,
    {
        reveal(Builder::inv);
        let arr = self.arrays();
        self.lemma_cache_taken(root);
        self.cache.lemma_wf_facts();
        assert(roomy(arr, keys, b)) by {
            assert forall|j: int| 0 <= j < keys.len() implies !taken(arr, b + #[trigger] keys[j]) by {
                assert(!self.cache.contains(b + keys[j]));
            }
        }
        assert forall|e: int| RESERVED_SLOTS <= e < b + keys[0] implies !roomy(
            arr,
            keys,
            #[trigger] (e - keys[0]),
        ) by {
            if e < self.cache.cursor() {
                assert(self.cache.contains(e));
                assert(taken(arr, (e - keys[0]) + keys[0]));
            } else {
                assert(!fits(&self.cache, keys, e - keys[0]));
                let j = choose|j: int| 0 <= j < keys.len() && self.cache.contains((e - keys[0]) + #[trigger] keys[j]);
                assert(taken(arr, (e - keys[0]) + keys[j]));
            }
        }
        lemma_first_fit_unique(arr, keys, b);
    }

    /// With the top node taken off and marked as the current one, the rest
    /// still waits in order.
    pub(crate) proof fn lemma_take(before: Builder<'a>, after: Builder<'a>, root: Node<u8>)
        requires
            before.stack_ok(root),
            before.stack@.len() > 0,
            after.stack@ == before.stack@.drop_last(),
            after.paths@ == before.paths@.drop_last(),
            after.plan@.slots == before.plan@.slots,
            after.plan@.done == before.plan@.done.insert(before.paths@.last()),
        ensures
            after.stack_ok(root),
            after.pending() + before.stack@.last().1.size() == before.pending(),
    {
        let n = after.stack@.len() as int;
        assert forall|j: int| 0 <= j < after.stack@.len() implies {
            let x = #[trigger] after.paths@[j];
            &&& after.plan@.slots.contains_key(x)
            &&& !after.plan@.done.contains(x)
            &&& after.stack@[j].0 == after.plan@.slots[x]
            &&& root.descend(x) == Some(*after.stack@[j].1)
            &&& (after.stack@[j].1.nexts@.len() > 0 || after.stack@[j].1.values@.len() > 0)
        } by {
            assert(after.paths@[j] == before.paths@[j]);
            assert(after.stack@[j] == before.stack@[j]);
            assert(before.paths@[j] != before.paths@[n]);
        }
        assert forall|x: Seq<u8>| #[trigger] after.plan@.slots.contains_key(x) implies after.plan@.done.contains(
            x,
        ) || after.paths@.contains(x) by {
            if !before.plan@.done.contains(x) {
                let j = choose|j: int| 0 <= j < before.paths@.len() && before.paths@[j] == x;
                if j < n {
                    assert(after.paths@[j] == x);
                }
            }
        }
        assert forall|i: int, j: int| 0 <= i < j < after.paths@.len() implies #[trigger] after.paths@[i]
            != #[trigger] after.paths@[j] by {
            assert(after.paths@[i] == before.paths@[i]);
            assert(after.paths@[j] == before.paths@[j]);
        }
        assert forall|i: int| 0 <= i < n implies after.pending_nodes()[i] == before.pending_nodes()[i] by {
            assert(after.stack@[i] == before.stack@[i]);
        }
        Node::<u8>::lemma_forest_prefix(after.pending_nodes(), before.pending_nodes(), n as nat);
    }

    /// Takes the node that waits on top: its children are placed next.
    pub(crate) fn take(&mut self, Ghost(root): Ghost<Node<u8>>) -> (r: (usize, &'a Node<u8>))
        requires
            old(self).inv(root),
            old(self).plan@.cur is None,
            old(self).stack@.len() > 0,
        ensures
            final(self).inv(root),
            final(self).plan@.cur is Some,
            final(self).plan@.cur_children == 0,
            !final(self).plan@.cur_value,
            root.descend(final(self).plan@.cur->Some_0) == Some(*r.1),
            r.1.wf(),
            r.1.nexts@.len() > 0 || r.1.values@.len() > 0,
            r.0 == final(self).plan@.slots[final(self).plan@.cur->Some_0],
            final(self).pending() + r.1.size() == old(self).pending(),
            final(self).arrays() == old(self).arrays(),
            final(self).stack_trees() == old(self).stack_trees().drop_last(),
            old(self).stack_trees().last() == (r.0 as int, r.1.tree()),
    {
        proof {
            reveal(Builder::inv);
        }
        let ghost before = *self;
        let ghost p = self.paths@.last();
        let ghost started = Plan {
            done: self.plan@.done.insert(p),
            cur: Some(p),
            cur_children: 0,
            cur_value: false,
            ..self.plan@
        };
        proof {
            assert(self.paths@[self.paths@.len() - 1] == p);
            let r = self.plan@.lemma_begin(root, self.arrays(), p);
        }
        let top: Option<(usize, &'a Node<u8>)> = self.stack.pop();
        let (idx, node) = top.unwrap();
        self.plan = Ghost(started);
        self.paths = Ghost(self.paths@.drop_last());
        proof {
            assert(self.stack@ =~= before.stack@.drop_last());
            Self::lemma_take(before, *self, root);
            root.lemma_descend_wf(p);
            assert(self.stack_trees() =~= before.stack_trees().drop_last());
        }
        (idx, node)
    }

    /// Makes the arrays long enough for the children of a node with base `b`.
    pub(crate) fn grow_for(&mut self, Ghost(root): Ghost<Node<u8>>, b: usize)
        requires
            old(self).inv(root),
            b + 256 < MAX_LEN,
        ensures
            final(self).inv(root),
            final(self).plan@ == old(self).plan@,
            final(self).stack@ == old(self).stack@,
            final(self).cache == old(self).cache,
            final(self).data@ == old(self).data@,
            final(self).check@.len() > b + 255,
            final(self).base@ == resized(old(self).base@, grown_len(old(self).check@.len() as int, b as int)),
            final(self).check@ == resized(old(self).check@, grown_len(old(self).check@.len() as int, b as int)),
    {
        proof {
            reveal(Builder::inv);
        }
        let mut len: usize = self.check.len();
        while len <= b + 255
            invariant
                256 <= len <= MAX_LEN,
                b + 256 < MAX_LEN,
                len >= self.check@.len(),
                grown_len(len as int, b as int) == grown_len(self.check@.len() as int, b as int),
            decreases MAX_LEN - len,
        {
            len = if len > MAX_LEN / 2 {
                MAX_LEN
            } else {
                2 * len
            };
        }
        let ghost short = self.arrays();
        grow_slots(&mut self.base, len);
        grow_slots(&mut self.check, len);
        proof {
            self.plan@.lemma_grow(root, short, self.arrays());
            assert(self.check@ =~= resized(short.check, len as int));
            assert(self.base@ =~= resized(short.base, len as int));
        }
    }

    /// Finds the base of the current node, makes the arrays long enough for
    /// its children and writes the base.
    pub(crate) fn seat(&mut self, Ghost(root): Ghost<Node<u8>>, idx: usize, node: &'a Node<u8>) -> (r:
        Result<usize, Error>)
        requires
            old(self).inv(root),
            old(self).plan@.cur is Some,
            old(self).plan@.cur_children == 0,
            !old(self).plan@.cur_value,
            root.descend(old(self).plan@.cur->Some_0) == Some(*node),
            node.wf(),
            node.nexts@.len() > 0 || node.values@.len() > 0,
            idx == old(self).plan@.slots[old(self).plan@.cur->Some_0],
        ensures
            match r {
                Ok(b) => {
                    &&& final(self).inv(root)
                    &&& final(self).plan@ == old(self).plan@
                    &&& final(self).stack@ == old(self).stack@
                    &&& final(self).data@ == old(self).data@
                    &&& final(self).base@[idx as int] == b
                    &&& final(self).room(root, b as int)
                    &&& b == first_fit(old(self).arrays(), tree_keys(node.tree()))
                    &&& seated(old(self).arrays(), node.tree(), idx as int) == Some(final(self).arrays())
                },
                Err(e) => e is IndexOverflow && seated(old(self).arrays(), node.tree(), idx as int) is None,
            },
    {
        proof {
            reveal(Builder::inv);
            reveal(Builder::room);
        }
        let ghost p = self.plan@.cur->Some_0;
        let ghost before = self.arrays();
        self.cache.update_start();
        let keys: Vec<u8> = child_keys(node);
        let b: usize = find_base(keys.as_slice(), &self.cache);
        proof {
            self.cache.lemma_wf_facts();
            node.lemma_tree();
            assert(keys@ =~= tree_keys(node.tree()));
            self.lemma_found_base(root, keys@, b as int);
        }
        if b >= MAX_LEN - 256 {
            return Err(Error::IndexOverflow);
        }
        self.grow_for(Ghost(root), b);
        proof {
            assert(self.plan@.slots.contains_key(p));
            self.plan@.lemma_set_base(root, self.arrays(), p, b as u32);
        }
        self.base.set(idx, b as u32);
        proof {
            assert(self.room(root, b as int)) by {
                assert(keys@[0] <= 255);
                assert forall|c: int| 0 <= c < node.nexts@.len() implies {
                    &&& !self.cache.contains(b + (#[trigger] node.nexts@[c]).key)
                    &&& b + node.nexts@[c].key >= RESERVED_SLOTS
                } by {
                    assert(keys@[c] == node.nexts@[c].key);
                    assert(keys@[0] <= keys@[c]);
                }
                if node.values@.len() > 0 {
                    assert(keys@[node.nexts@.len() as int] == SENTINEL);
                }
            }
        }
        Ok(b)
    }

    /// Places the next child of the current node and lets it wait for its own
    /// children.
    pub(crate) fn place_child(
        &mut self,
        Ghost(root): Ghost<Node<u8>>,
        idx: usize,
        node: &'a Node<u8>,
        b: usize,
        c: usize,
    )
        requires
            old(self).inv(root),
            old(self).plan@.cur is Some,
            old(self).plan@.cur_children == c,
            c < node.nexts@.len(),
            root.descend(old(self).plan@.cur->Some_0) == Some(*node),
            idx == old(self).plan@.slots[old(self).plan@.cur->Some_0],
            old(self).base@[idx as int] == b,
            old(self).room(root, b as int),
        ensures
            final(self).inv(root),
            final(self).plan@.cur == old(self).plan@.cur,
            final(self).plan@.cur_children == c + 1,
            final(self).plan@.cur_value == old(self).plan@.cur_value,
            idx == final(self).plan@.slots[final(self).plan@.cur->Some_0],
            final(self).base@[idx as int] == b,
            final(self).data@ == old(self).data@,
            final(self).room(root, b as int),
            final(self).pending() == old(self).pending() + node.nexts@[c as int].size(),
            final(self).arrays() == (Arrays {
                check: old(self).check@.update(b + node.nexts@[c as int].key, idx as u32),
                ..old(self).arrays()
            }),
            final(self).stack_trees() == old(self).stack_trees().push(
                (b + node.nexts@[c as int].key, node.nexts@[c as int].tree()),
            ),
    {
        proof {
            reveal(Builder::inv);
            reveal(Builder::room);
        }
        let ghost before = *self;
        let ghost p = self.plan@.cur->Some_0;
        let child: &'a Node<u8> = &node.nexts[c];
        let i: usize = b + child.key as usize;
        let ghost q = p.push(child.key);
        let ghost grown = Plan {
            slots: self.plan@.slots.insert(q, i as int),
            owner: self.plan@.owner.insert(i as int, (p, child.key)),
            cur_children: c + 1,
            ..self.plan@
        };
        proof {
            assert(self.plan@.slots.contains_key(p));
            assert(!self.cache.contains(b + node.nexts@[c as int].key));
            let r = self.plan@.lemma_place_child(root, self.arrays(), i as int, idx as u32);
            root.lemma_descend_wf(p);
            node.lemma_child_wf(c as int);
        }
        self.cache.set(i);
        self.check.set(i, idx as u32);
        self.stack.push((i, child));
        self.plan = Ghost(grown);
        self.paths = Ghost(self.paths@.push(q));
        proof {
            assert(self.stack_ok(root)) by {
                assert forall|j: int| 0 <= j < self.stack@.len() implies {
                    let x = #[trigger] self.paths@[j];
                    &&& self.plan@.slots.contains_key(x)
                    &&& !self.plan@.done.contains(x)
                    &&& self.stack@[j].0 == self.plan@.slots[x]
                    &&& root.descend(x) == Some(*self.stack@[j].1)
                    &&& (self.stack@[j].1.nexts@.len() > 0 || self.stack@[j].1.values@.len() > 0)
                } by {
                    if j < before.stack@.len() {
                        assert(self.paths@[j] == before.paths@[j]);
                        assert(before.plan@.slots.contains_key(before.paths@[j]));
                    } else {
                        if before.plan@.done.contains(q) {
                            assert(before.plan@.slots.contains_key(q));
                        }
                    }
                }
                assert forall|x: Seq<u8>| #[trigger] self.plan@.slots.contains_key(x) implies self.plan@.done.contains(
                    x,
                ) || self.paths@.contains(x) by {
                    if x == q {
                        assert(self.paths@[before.paths@.len() as int] == q);
                    } else if !before.plan@.done.contains(x) {
                        let j = choose|j: int| 0 <= j < before.paths@.len() && before.paths@[j] == x;
                        assert(self.paths@[j] == x);
                    }
                }
                assert forall|x: int, y: int| 0 <= x < y < self.paths@.len() implies #[trigger] self.paths@[x]
                    != #[trigger] self.paths@[y] by {
                    assert(self.paths@[x] == before.paths@[x]);
                    assert(before.plan@.slots.contains_key(before.paths@[x]));
                    if y < before.paths@.len() {
                        assert(self.paths@[y] == before.paths@[y]);
                    }
                }
            }
            assert(self.room(root, b as int)) by {
                assert forall|d: int| self.plan@.cur_children <= d < node.nexts@.len() implies {
                    &&& !self.cache.contains(b + (#[trigger] node.nexts@[d]).key)
                    &&& b + node.nexts@[d].key >= RESERVED_SLOTS
                } by {
                    assert(node.nexts@[c as int].key < node.nexts@[d].key);
                }
            }
            Node::<u8>::lemma_forest_prefix(
                self.pending_nodes(),
                before.pending_nodes(),
                before.stack@.len(),
            );
            assert(self.stack_trees() =~= before.stack_trees().push(
                (b + node.nexts@[c as int].key, node.nexts@[c as int].tree()),
            ));
        }
    }

    /// Places the values of the current node: takes its value slot and
    /// appends the values to the data.
    pub(crate) fn place_value(
        &mut self,
        Ghost(root): Ghost<Node<u8>>,
        idx: usize,
        node: &'a Node<u8>,
        b: usize,
    ) -> (r: Result<(), Error>)
        requires
            old(self).inv(root),
            old(self).plan@.cur is Some,
            !old(self).plan@.cur_value,
            node.values@.len() > 0,
            root.descend(old(self).plan@.cur->Some_0) == Some(*node),
            idx == old(self).plan@.slots[old(self).plan@.cur->Some_0],
            old(self).base@[idx as int] == b,
            old(self).room(root, b as int),
        ensures
            match r {
                Ok(_) => {
                    &&& final(self).inv(root)
                    &&& final(self).plan@.cur == old(self).plan@.cur
                    &&& final(self).plan@.cur_children == old(self).plan@.cur_children
                    &&& final(self).plan@.cur_value
                    &&& final(self).stack@ == old(self).stack@
                    &&& with_value(old(self).arrays(), node.tree(), idx as int, b as int) == Some(
                        final(self).arrays(),
                    )
                },
                Err(e) => e is IndexOverflow && with_value(old(self).arrays(), node.tree(), idx as int, b as int)
                    is None,
            },
    {
        proof {
            reveal(Builder::inv);
            reveal(Builder::room);
        }
        proof {
            node.lemma_tree();
        }
        if self.data.len() > 0xffff_ffff {
            return Err(Error::IndexOverflow);
        }
        let ghost p = self.plan@.cur->Some_0;
        let v: usize = b + SENTINEL as usize;
        let off: u32 = self.data.len() as u32;
        let ghost marked = Plan {
            owner: self.plan@.owner.insert(v as int, (p, SENTINEL)),
            cur_value: true,
            ..self.plan@
        };
        proof {
            assert(self.plan@.slots.contains_key(p));
            let r = self.plan@.lemma_place_value(root, self.arrays(), v as int, idx as u32, off);
        }
        self.cache.set(v);
        self.check.set(v, idx as u32);
        self.base.set(v, off);
        append_bytes(&mut self.data, node.values.as_slice());
        self.plan = Ghost(marked);
        proof {
            assert(self.stack_ok(root));
        }
        Ok(())
    }

    /// Ends the placing of the current node.
    pub(crate) fn close(&mut self, Ghost(root): Ghost<Node<u8>>)
        requires
            old(self).inv(root),
            old(self).plan@.cur is Some,
            old(self).plan@.cur_children == node_at(root, old(self).plan@.cur->Some_0).nexts@.len(),
            old(self).plan@.cur_value == (node_at(root, old(self).plan@.cur->Some_0).values@.len() > 0),
        ensures
            final(self).inv(root),
            final(self).plan@.cur is None,
            final(self).stack@ == old(self).stack@,
            final(self).arrays() == old(self).arrays(),
    {
        proof {
            reveal(Builder::inv);
        }
        let ghost ended = Plan { cur: None, ..self.plan@ };
        proof {
            let r = self.plan@.lemma_close(root, self.arrays());
        }
        self.plan = Ghost(ended);
        proof {
            assert(self.stack_ok(root));
        }
    }
}


impl Plan {
    /// Arrays cut or lengthened to a length that still holds every taken slot
    /// hold the same layout.
    pub(crate) proof fn lemma_resize(self, root: Node<u8>, arr: Arrays, cut: Arrays)
        requires
            self.laid_out(root, arr),
            cut.base.len() == cut.check.len(),
            cut.check.len() >= 2,
            cut.data == arr.data,
            forall|i: int| #[trigger] self.owner.contains_key(i) ==> i < cut.check.len(),
            forall|i: int| 0 <= i < cut.base.len() && i < arr.base.len() ==> #[trigger] cut.base[i] == arr.base[i],
            forall|i: int|
                0 <= i < cut.check.len() && i < arr.check.len() ==> #[trigger] cut.check[i] == arr.check[i],
            forall|i: int| arr.check.len() <= i < cut.check.len() ==> #[trigger] cut.check[i] == 0u32,
        ensures
            self.laid_out(root, cut),
    {
        assert forall|p: Seq<u8>| #[trigger] self.slots.contains_key(p) implies 1 <= self.slots[p]
            < cut.check.len() by {
            if p.len() == 0 {
                assert(p =~= Seq::<u8>::empty());
            }
        }
        assert forall|p: Seq<u8>| #[trigger] self.done.contains(p) implies {
            &&& self.slots.contains_key(p)
            &&& self.children_ok(root, cut, p)
            &&& self.value_ok(root, cut, p)
        } by {
            assert(self.children_ok(root, arr, p));
            assert(self.value_ok(root, arr, p));
        }
        assert forall|i: int| #[trigger] self.owner.contains_key(i) implies self.owned(root, cut, i) by {
            assert(self.owned(root, arr, i));
            assert(self.slots.contains_key(self.owner[i].0));
        }
    }
}

/// Slot `i` is reached from the node of `path` over byte `k`: as the child
/// for a byte of the trie, or as the value slot that points at its values.
pub open spec fn edge(trie: &Trie<u8>, arr: Arrays, i: int, path: Seq<u8>, k: u8) -> bool {
    &&& sentinel_free(path)
    &&& arr.walk(path) == Some(arr.check[i] as int)
    &&& i == arr.base[arr.check[i] as int] + k
    &&& if k == SENTINEL {
        &&& trie@.contains_key(path)
        &&& i < arr.base.len()
        &&& block_at(arr.data, arr.base[i] as int, trie@[path])
    } else {
        trie.has_node(path.push(k))
    }
}

/// What it is for arrays to hold a trie of byte values: a key is walked
/// exactly where the trie has a node, it is found exactly where it holds
/// values, at an offset where those values lie in the data, and every taken
/// slot is the child or the value slot of a node of the trie.
pub open spec fn compiled(trie: &Trie<u8>, arr: Arrays) -> bool {
    &&& arr.base.len() == arr.check.len()
    &&& arr.check.len() >= RESERVED_SLOTS
    &&& forall|key: Seq<u8>| sentinel_free(key) ==> (#[trigger] arr.walk(key) is Some <==> trie.has_node(key))
    &&& forall|key: Seq<u8>|
        sentinel_free(key) ==> match #[trigger] arr.find(key) {
            Some(off) => trie@.contains_key(key) && block_at(arr.data, off, trie@[key]),
            None => !trie@.contains_key(key),
        }
    &&& forall|i: int|
        0 <= i < arr.check.len() && #[trigger] arr.check[i] != 0 ==> exists|path: Seq<u8>, k: u8| #[trigger]
            edge(trie, arr, i, path, k)
}

/// Hands out the arrays at the length `new_len`, once nothing is left to place.
fn finish<'a>(b: Builder<'a>, trie: &Trie<u8>, new_len: usize) -> (r: (Vec<u32>, Vec<u32>, Vec<u8>))
    requires
        b.inv(trie.root()),
        b.plan@.cur is None,
        b.stack@.len() == 0,
        new_len >= RESERVED_SLOTS,
        forall|i: int| #[trigger] b.plan@.owner.contains_key(i) ==> i < new_len,
    ensures
        compiled(trie, Arrays { base: r.0@, check: r.1@, data: r.2@ }),
        r.0@ == resized(b.base@, new_len as int),
        r.1@ == resized(b.check@, new_len as int),
        r.2@ == b.data@,
{
    proof {
        reveal(Builder::inv);
    }
    let ghost root = trie.root();
    let ghost full = b.arrays();
    let ghost plan = b.plan@;
    let ghost paths = b.paths@;
    let mut base_arr: Vec<u32> = b.base;
    let mut check_arr: Vec<u32> = b.check;
    let data: Vec<u8> = b.data;
    if new_len < base_arr.len() {
        base_arr.truncate(new_len);
        check_arr.truncate(new_len);
    } else {
        grow_slots(&mut base_arr, new_len);
        grow_slots(&mut check_arr, new_len);
    }
    proof {
        trie.lemma_root();
        assert(base_arr@ =~= resized(full.base, new_len as int));
        assert(check_arr@ =~= resized(full.check, new_len as int));
        let arr = Arrays { base: base_arr@, check: check_arr@, data: data@ };
        assert(plan.complete()) by {
            assert forall|p: Seq<u8>| #[trigger] plan.slots.contains_key(p) implies plan.done.contains(p) by {
                if paths.contains(p) {
                }
            }
        }
        plan.lemma_resize(root, full, arr);
        assert forall|key: Seq<u8>| sentinel_free(key) implies (#[trigger] arr.walk(key) is Some
            <==> trie.has_node(key)) by {
            plan.lemma_walk(root, arr, key);
        }
        assert forall|key: Seq<u8>| sentinel_free(key) implies match #[trigger] arr.find(key) {
            Some(off) => trie@.contains_key(key) && block_at(arr.data, off, trie@[key]),
            None => !trie@.contains_key(key),
        } by {
            plan.lemma_find(root, arr, key);
        }
        assert forall|i: int| 0 <= i < arr.check.len() && #[trigger] arr.check[i] != 0 implies exists|
            path: Seq<u8>,
            k: u8,
        | #[trigger] edge(trie, arr, i, path, k) by {
            plan.lemma_taken(root, arr, i);
            assert(edge(trie, arr, i, plan.owner[i].0, plan.owner[i].1));
        }
    }
    (base_arr, check_arr, data)
}

impl<'a> Builder<'a> {
    /// Places the children and the values of the node that waits on top.
    pub(crate) fn place_node(&mut self, Ghost(root): Ghost<Node<u8>>) -> (r: Result<(), Error>)
        requires
            old(self).inv(root),
            old(self).plan@.cur is None,
            old(self).stack@.len() > 0,
        ensures
            match r {
                Ok(_) => {
                    &&& final(self).inv(root)
                    &&& final(self).plan@.cur is None
                    &&& final(self).pending() < old(self).pending()
                    &&& run(final(self).arrays(), final(self).stack_trees()) == run(
                        old(self).arrays(),
                        old(self).stack_trees(),
                    )
                },
                Err(e) => e is IndexOverflow && run(old(self).arrays(), old(self).stack_trees()) is None,
            },
    {
        let ghost start = self.arrays();
        let ghost whole = self.stack_trees();
        let (idx, node) = self.take(Ghost(root));
        let ghost rest = self.pending();
        let ghost below = self.stack_trees();
        let ghost t = node.tree();
        proof {
            node.lemma_tree();
            assert(whole.last() == (idx as int, t));
            assert(whole.drop_last() == below);
        }
        let base: usize = match self.seat(Ghost(root), idx, node) {
            Ok(x) => x,
            Err(e) => {
                return Err(e);
            },
        };
        let ghost with_base = self.arrays();
        let mut c: usize = 0;
        proof {
            assert(self.stack_trees() =~= below + waiting(t, base as int, 0));
        }
        while c < node.nexts.len()
            invariant
                self.inv(root),
                self.plan@.cur is Some,
                self.plan@.cur_children == c,
                !self.plan@.cur_value,
                c <= node.nexts@.len(),
                root.descend(self.plan@.cur->Some_0) == Some(*node),
                idx == self.plan@.slots[self.plan@.cur->Some_0],
                self.base@[idx as int] == base,
                self.room(root, base as int),
                self.pending() == rest + Node::<u8>::forest_size(node.nexts@, c as nat),
                t == node.tree(),
                self.arrays() == with_children(with_base, t, idx as int, base as int, c as nat),
                self.stack_trees() == below + waiting(t, base as int, c as nat),
            decreases node.nexts@.len() - c,
        {
            let ghost trees = self.stack_trees();
            proof {
                node.lemma_tree();
            }
            self.place_child(Ghost(root), idx, node, base, c);
            proof {
                assert(trees.push((base + node.nexts@[c as int].key, node.nexts@[c as int].tree())) =~= below
                    + waiting(t, base as int, (c + 1) as nat));
            }
            c = c + 1;
        }
        if node.values.len() > 0 {
            match self.place_value(Ghost(root), idx, node, base) {
                Ok(_) => {},
                Err(e) => {
                    return Err(e);
                },
            }
        }
        self.close(Ghost(root));
        proof {
            assert(placed(start, t, idx as int) == Some(self.arrays()));
            lemma_run_waiting(self.arrays(), below, t, base as int, t.nexts.len());
        }
        Ok(())
    }
}

impl<'a> Builder<'a> {
    /// Once the root of a trie that is not empty is placed, the last marked
    /// slot is the last taken one.
    pub(crate) proof fn lemma_last(&self, root: Node<u8>, last: int)
        requires
            self.inv(root),
            self.plan@.cur is None,
            self.stack@.len() == 0,
            root.nexts@.len() > 0 || root.values@.len() > 0,
            self.cache.contains(last),
            forall|k: int| k > last ==> !#[trigger] self.cache.contains(k),
        ensures
            last_taken(self.check@) == last,
            forall|i: int| #[trigger] self.plan@.owner.contains_key(i) ==> i <= last,
    {
        reveal(Builder::inv);
        let plan = self.plan@;
        let arr = self.arrays();
        let top = Seq::<u8>::empty();
        self.lemma_cache_taken(root);
        assert(plan.done.contains(top)) by {
            if self.paths@.contains(top) {
            }
        }
        assert(root.descend(top) == Some(root));
        assert(plan.children_ok(root, arr, top));
        assert(plan.value_ok(root, arr, top));
        let some: int = if root.nexts@.len() > 0 {
            let k = node_at(root, top).nexts@[0].key;
            assert(plan.slots.contains_key(top.push(k)));
            plan.slots[top.push(k)]
        } else {
            arr.base[plan.slots[top]] + SENTINEL
        };
        assert(plan.owner.contains_key(some));
        assert(self.cache.contains(some));
        assert(some <= last);
        assert forall|i: int| #[trigger] plan.owner.contains_key(i) implies i <= last by {
            assert(self.cache.contains(i));
        }
        assert forall|i: int| last < i < arr.check.len() implies #[trigger] arr.check[i] == 0 by {
            assert(!self.cache.contains(i));
        }
        lemma_last_taken(arr.check, last);
    }
}

/// Compiles a trie of byte values into `BASE`, `CHECK` and `DATA`: the values
/// of each key lie in `DATA` as they are, in the order in which the nodes are
/// placed. The arrays are those of `layout`, and they fail to be where a slot
/// or an offset does not fit the arrays' 32 bits; a trie of fewer than
/// sixteen million nodes that holds four gigabytes of values at most always
/// compiles.
pub fn compile(trie: &Trie<u8>) -> (r: Result<(Vec<u32>, Vec<u32>, Vec<u8>), Error>)
    requires
        trie.wf(),
    ensures
        match r {
            Ok(parts) => {
                &&& compiled(trie, Arrays { base: parts.0@, check: parts.1@, data: parts.2@ })
                &&& layout(trie.tree(), trie.count()) == Some(
                    Arrays { base: parts.0@, check: parts.1@, data: parts.2@ },
                )
            },
            Err(e) => e is IndexOverflow && layout(trie.tree(), trie.count()) is None,
        },
        trie.nodes() <= 0xff_fff0 && trie.held() <= u32::MAX ==> r is Ok,
{
    let root: &Node<u8> = trie.root_node();
    proof {
        trie.lemma_root();
        trie.lemma_root_tree();
        root.lemma_tree();
        trie.lemma_tree_measures();
        if trie.nodes() <= 0xff_fff0 && trie.held() <= u32::MAX {
            trie.lemma_tidy();
            lemma_small_tree_has_layout(trie.tree(), trie.count());
        }
    }
    let mut b = Builder::new(root, trie.len());
    let ghost blank = b.arrays();
    let ghost goal = filled(blank, root.tree(), 1);
    if b.stack.len() == 0 {
        let parts = finish(b, trie, RESERVED_SLOTS);
        proof {
            assert(parts.0@ =~= zeros(256));
            assert(parts.1@ =~= zeros(256));
            assert(parts.2@ =~= Seq::<u8>::empty());
        }
        return Ok(parts);
    }
    proof {
        let start = b.stack_trees();
        assert(start.last() == (1int, root.tree()));
        assert(start.drop_last().len() == 0);
        match goal {
            Some(next) => {
                assert(run(next, start.drop_last()) == Some(next));
            },
            None => {},
        }
    }
    while b.stack.len() > 0
        invariant
            b.inv(*root),
            b.plan@.cur is None,
            *root == trie.root(),
            run(b.arrays(), b.stack_trees()) == goal,
            goal == filled(Builder::blank(trie.count()), trie.tree(), 1),
            trie.tree().nexts.len() > 0 || trie.tree().values.len() > 0,
            trie.nodes() <= 0xff_fff0 && trie.held() <= u32::MAX ==> layout(trie.tree(), trie.count()) is Some,
        decreases b.pending(),
    {
        match b.place_node(Ghost(*root)) {
            Ok(_) => {},
            Err(e) => {
                return Err(e);
            },
        }
    }
    proof {
        reveal(Builder::inv);
        assert(b.stack_trees().len() == 0);
        assert(goal == Some(b.arrays()));
    }
    match b.cache.last_index_of_one() {
        Some(last) => {
            proof {
                b.cache.lemma_wf_facts();
                b.lemma_last(*root, last as int);
            }
            Ok(finish(b, trie, last + RESERVED_SLOTS))
        },
        None => {
            proof {
                assert(b.cache.contains(0));
            }
            Ok(finish(b, trie, RESERVED_SLOTS))
        },
    }
}

} // verus!

//! The layout of a trie in arrays, told as mathematics: which base each node
//! gets and what the arrays hold once every node is placed. The compiler is
//! proved to compute exactly this.

use vstd::prelude::*;
use crate::bit_cache::RESERVED_SLOTS;
use crate::model::Arrays;
use crate::trie::{Node, SENTINEL};

verus! {

/// A node of a trie of byte values with all that hangs under it.
pub struct Tree {
    pub key: u8,
    pub values: Seq<u8>,
    pub nexts: Seq<Tree>,
}

impl Node<u8> {
    /// The node as a mathematical tree.
    pub(crate) open spec fn tree(self) -> Tree
        decreases self,
    {
        Tree {
            key: self.key,
            values: self.values@,
            nexts: Seq::new(
                self.nexts@.len(),
                |i: int|
                    if 0 <= i < self.nexts@.len() {
                        self.nexts@[i].tree()
                    } else {
                        arbitrary()
                    },
            ),
        }
    }
}

impl Node<u8> {
    /// The parts of the node's tree.
    pub(crate) proof fn lemma_tree(self)
        ensures
            self.tree().key == self.key,
            self.tree().values == self.values@,
            self.tree().nexts.len() == self.nexts@.len(),
            forall|i: int| 0 <= i < self.nexts@.len() ==> #[trigger] self.tree().nexts[i] == self.nexts@[i].tree(),
    {
    }
}

/// Two strictly ascending sequences with the same members are the same.
proof fn lemma_ascending_same(a: Seq<u8>, b: Seq<u8>)
    requires
        forall|i: int, j: int| 0 <= i < j < a.len() ==> a[i] < a[j],
        forall|i: int, j: int| 0 <= i < j < b.len() ==> b[i] < b[j],
        forall|i: int| 0 <= i < a.len() ==> b.contains(#[trigger] a[i]),
        forall|i: int| 0 <= i < b.len() ==> a.contains(#[trigger] b[i]),
    ensures
        a == b,
    decreases a.len(),
{
    if a.len() == 0 {
        if b.len() > 0 {
            assert(a.contains(b[0]));
        }
        assert(a =~= b);
    } else if b.len() == 0 {
        assert(b.contains(a[0]));
    } else {
        let la = a.last();
        let lb = b.last();
        assert(b.contains(a[a.len() - 1]));
        assert(a.contains(b[b.len() - 1]));
        let ib = choose|i: int| 0 <= i < b.len() && b[i] == la;
        let ia = choose|i: int| 0 <= i < a.len() && a[i] == lb;
        if ib < b.len() - 1 {
            assert(b[ib] < b[b.len() - 1]);
        }
        if ia < a.len() - 1 {
            assert(a[ia] < a[a.len() - 1]);
        }
        assert(la == lb);
        let sa = a.drop_last();
        let sb = b.drop_last();
        assert forall|i: int| 0 <= i < sa.len() implies sb.contains(#[trigger] sa[i]) by {
            assert(b.contains(a[i]));
            let k = choose|k: int| 0 <= k < b.len() && b[k] == a[i];
            assert(a[i] < a[a.len() - 1]);
            assert(sb[k] == sa[i]);
        }
        assert forall|i: int| 0 <= i < sb.len() implies sa.contains(#[trigger] sb[i]) by {
            assert(a.contains(b[i]));
            let k = choose|k: int| 0 <= k < a.len() && a[k] == b[i];
            assert(b[i] < b[b.len() - 1]);
            assert(sa[k] == sb[i]);
        }
        lemma_ascending_same(sa, sb);
        assert(a =~= sa.push(la));
        assert(b =~= sb.push(lb));
    }
}

impl Node<u8> {
    /// Every child key of `self` is one of `other`, where `other` holds
    /// values wherever `self` does.
    proof fn lemma_child_key_shared(self, other: Node<u8>, i: int)
        requires
            self.wf(),
            other.wf(),
            forall|q: Seq<u8>| #[trigger] self.values_at(q) == other.values_at(q),
            0 <= i < self.nexts@.len(),
        ensures
            other.child_at(self.nexts@[i].key) is Some,
    {
        let child = self.nexts@[i];
        self.lemma_child_wf(i);
        self.lemma_child_at(i);
        let below = child.lemma_has_key();
        let path = seq![child.key] + below;
        assert(path[0] == child.key);
        assert(path.skip(1) =~= below);
        assert(self.values_at(path).len() > 0);
        assert(other.values_at(path).len() > 0);
    }

    /// Two well-formed nodes with one key byte that hold the same values at
    /// the same paths are the same tree.
    pub(crate) proof fn lemma_same_values_same_tree(self, other: Node<u8>)
        requires
            self.wf(),
            other.wf(),
            self.key == other.key,
            forall|q: Seq<u8>| #[trigger] self.values_at(q) == other.values_at(q),
        ensures
            self.tree() == other.tree(),
        decreases self,
    {
        let none = Seq::<u8>::empty();
        assert(self.values_at(none) == other.values_at(none));
        assert(self.values@ == other.values@);
        let ka = Seq::new(self.nexts@.len(), |i: int| self.nexts@[i].key);
        let kb = Seq::new(other.nexts@.len(), |i: int| other.nexts@[i].key);
        assert forall|i: int| 0 <= i < ka.len() implies kb.contains(#[trigger] ka[i]) by {
            self.lemma_child_key_shared(other, i);
            let j = other.child_at(self.nexts@[i].key)->Some_0;
            assert(kb[j] == ka[i]);
        }
        assert forall|i: int| 0 <= i < kb.len() implies ka.contains(#[trigger] kb[i]) by {
            other.lemma_child_key_shared(self, i);
            let j = self.child_at(other.nexts@[i].key)->Some_0;
            assert(ka[j] == kb[i]);
        }
        assert forall|i: int, j: int| 0 <= i < j < ka.len() implies ka[i] < ka[j] by {
            assert(self.nexts@[i].key < self.nexts@[j].key);
        }
        assert forall|i: int, j: int| 0 <= i < j < kb.len() implies kb[i] < kb[j] by {
            assert(other.nexts@[i].key < other.nexts@[j].key);
        }
        lemma_ascending_same(ka, kb);
        assert(self.nexts@.len() == other.nexts@.len());
        assert forall|i: int| 0 <= i < self.nexts@.len() implies #[trigger] self.tree().nexts[i]
            == other.tree().nexts[i] by {
            let a = self.nexts@[i];
            let b = other.nexts@[i];
            assert(ka[i] == kb[i]);
            self.lemma_child_wf(i);
            other.lemma_child_wf(i);
            self.lemma_child_at(i);
            other.lemma_child_at(i);
            assert forall|q: Seq<u8>| #[trigger] a.values_at(q) == b.values_at(q) by {
                let path = seq![a.key] + q;
                assert(path[0] == a.key);
                assert(path.skip(1) =~= q);
                assert(self.values_at(path) == other.values_at(path));
            }
            a.lemma_same_values_same_tree(b);
        }
        self.lemma_tree();
        other.lemma_tree();
        assert(self.tree().nexts =~= other.tree().nexts);
    }
}

/// The greatest length that the arrays may reach.
pub const MAX_LEN: usize = 0xffff_ff00;

/// Whether slot `i` is taken: the two reserved slots are, and every slot
/// with a non-zero `CHECK`.
pub open spec fn taken(arr: Arrays, i: int) -> bool {
    i == 0 || i == 1 || (0 <= i < arr.check.len() && arr.check[i] != 0)
}

/// The bytes over which a node has a slot to place: those of its children,
/// and the sentinel where it has values.
pub open spec fn tree_keys(t: Tree) -> Seq<u8> {
    let keys = Seq::new(t.nexts.len(), |i: int| t.nexts[i].key);
    if t.values.len() > 0 {
        keys.push(SENTINEL)
    } else {
        keys
    }
}

/// Whether the slots `b + k` are free for every key `k`.
pub open spec fn roomy(arr: Arrays, keys: Seq<u8>, b: int) -> bool {
    forall|j: int| 0 <= j < keys.len() ==> !taken(arr, b + #[trigger] keys[j])
}

/// Whether `b` is the lowest base at which the first key lands on a slot that
/// is not reserved and every key on a free one.
pub open spec fn is_first_fit(arr: Arrays, keys: Seq<u8>, b: int) -> bool {
    &&& b + keys[0] >= RESERVED_SLOTS
    &&& roomy(arr, keys, b)
    &&& forall|e: int| RESERVED_SLOTS <= e < b + keys[0] ==> !roomy(arr, keys, #[trigger] (e - keys[0]))
}

/// The lowest base that fits.
pub open spec fn first_fit(arr: Arrays, keys: Seq<u8>) -> int {
    choose|b: int| is_first_fit(arr, keys, b)
}

/// There is one first fit at most.
pub(crate) proof fn lemma_first_fit_unique(arr: Arrays, keys: Seq<u8>, b: int)
    requires
        is_first_fit(arr, keys, b),
    ensures
        first_fit(arr, keys) == b,
{
    let c = first_fit(arr, keys);
    if c < b {
        let e = c + keys[0];
        assert(!roomy(arr, keys, e - keys[0]));
    } else if b < c {
        let e = b + keys[0];
        assert(!roomy(arr, keys, e - keys[0]));
    }
}


/// `n` zeros.
pub open spec fn zeros(n: int) -> Seq<u32> {
    Seq::new(n as nat, |i: int| 0u32)
}

/// `s` cut to `n` entries, or lengthened to `n` with zeros.
pub open spec fn resized(s: Seq<u32>, n: int) -> Seq<u32> {
    if n <= s.len() {
        s.take(n)
    } else {
        s + zeros(n - s.len())
    }
}

/// The length with which the arrays start for a trie of `count` values:
/// four slots a value, 256 at least.
pub open spec fn first_len(count: nat) -> int {
    if count > MAX_LEN / 4 {
        MAX_LEN as int
    } else if 4 * count < RESERVED_SLOTS {
        RESERVED_SLOTS as int
    } else {
        (4 * count) as int
    }
}

/// The length to which arrays of length `len` grow for a node with base
/// `b`: doubled while the slot `b + 255` lies beyond them.
pub open spec fn grown_len(len: int, b: int) -> int
    decreases MAX_LEN - len,
{
    if 0 < len < MAX_LEN && len <= b + 255 {
        grown_len(
            if len > MAX_LEN / 2 {
                MAX_LEN as int
            } else {
                2 * len
            },
            b,
        )
    } else {
        len
    }
}

/// The arrays once the node `t` at slot `idx` has its base: the lowest that
/// fits, written to `BASE[idx]`, with the arrays grown for it. `None` where
/// the base leaves no room below the greatest length.
pub open spec fn seated(arr: Arrays, t: Tree, idx: int) -> Option<Arrays> {
    let b = first_fit(arr, tree_keys(t));
    if b >= MAX_LEN - 256 {
        None
    } else {
        let n = grown_len(arr.check.len() as int, b);
        Some(
            Arrays { base: resized(arr.base, n).update(idx, b as u32), check: resized(arr.check, n), data: arr.data },
        )
    }
}

/// The arrays once the first `j` children of `t` have their slots.
pub open spec fn with_children(arr: Arrays, t: Tree, idx: int, b: int, j: nat) -> Arrays
    decreases j,
{
    if j == 0 || j > t.nexts.len() {
        arr
    } else {
        let before = with_children(arr, t, idx, b, (j - 1) as nat);
        Arrays { check: before.check.update(b + t.nexts[j - 1].key, idx as u32), ..before }
    }
}

/// The arrays once the values of `t` are placed, if it has any: its value
/// slot points at the end of the data, where the values are appended. `None`
/// where that offset does not fit 32 bits.
pub open spec fn with_value(arr: Arrays, t: Tree, idx: int, b: int) -> Option<Arrays> {
    if t.values.len() == 0 {
        Some(arr)
    } else if arr.data.len() > u32::MAX {
        None
    } else {
        Some(
            Arrays {
                base: arr.base.update(b + SENTINEL, arr.data.len() as u32),
                check: arr.check.update(b + SENTINEL, idx as u32),
                data: arr.data + t.values,
            },
        )
    }
}

/// The arrays once the node `t` at slot `idx` is placed: seated, its
/// children in their slots, its values in the data.
pub open spec fn placed(arr: Arrays, t: Tree, idx: int) -> Option<Arrays> {
    match seated(arr, t, idx) {
        Some(with_base) => {
            let b = first_fit(arr, tree_keys(t));
            with_value(with_children(with_base, t, idx, b, t.nexts.len()), t, idx, b)
        },
        None => None,
    }
}

/// The arrays once the whole tree under `t` is placed, `t` being at slot
/// `idx`: first `t` itself, then the trees under its children, the last
/// child first.
pub open spec fn filled(arr: Arrays, t: Tree, idx: int) -> Option<Arrays>
    decreases t, t.nexts.len() + 1,
{
    match placed(arr, t, idx) {
        Some(with_node) => filled_under(with_node, t, first_fit(arr, tree_keys(t)), t.nexts.len()),
        None => None,
    }
}

/// The arrays once the trees under the first `j` children of `t` are placed,
/// the last of them first; the children stand at `b` plus their key.
pub open spec fn filled_under(arr: Arrays, t: Tree, b: int, j: nat) -> Option<Arrays>
    decreases t, j,
{
    if j == 0 || j > t.nexts.len() {
        Some(arr)
    } else {
        match filled(arr, t.nexts[j - 1], b + t.nexts[j - 1].key) {
            Some(with_child) => filled_under(with_child, t, b, (j - 1) as nat),
            None => None,
        }
    }
}

/// The nodes that wait once the first `j` children of `t` are placed.
pub open spec fn waiting(t: Tree, b: int, j: nat) -> Seq<(int, Tree)> {
    Seq::new(j, |c: int| (b + t.nexts[c].key, t.nexts[c]))
}

/// The arrays once every node of a stack of waiting nodes is placed with all
/// under it, the top of the stack first.
pub open spec fn run(arr: Arrays, stack: Seq<(int, Tree)>) -> Option<Arrays>
    decreases stack.len(),
{
    if stack.len() == 0 {
        Some(arr)
    } else {
        match filled(arr, stack.last().1, stack.last().0) {
            Some(next) => run(next, stack.drop_last()),
            None => None,
        }
    }
}

/// Placing the children of a node that wait on top of a stack, with all
/// under them, and then the rest of the stack.
pub(crate) proof fn lemma_run_waiting(arr: Arrays, rest: Seq<(int, Tree)>, t: Tree, b: int, j: nat)
    requires
        j <= t.nexts.len(),
    ensures
        run(arr, rest + waiting(t, b, j)) == match filled_under(arr, t, b, j) {
            Some(next) => run(next, rest),
            None => None,
        },
    decreases j,
{
    if j == 0 {
        assert(rest + waiting(t, b, 0) =~= rest);
    } else {
        let all = rest + waiting(t, b, j);
        assert(all.last() == (b + t.nexts[j - 1].key, t.nexts[j - 1]));
        assert(all.drop_last() =~= rest + waiting(t, b, (j - 1) as nat));
        match filled(arr, t.nexts[j - 1], b + t.nexts[j - 1].key) {
            Some(next) => {
                lemma_run_waiting(next, rest, t, b, (j - 1) as nat);
            },
            None => {},
        }
    }
}

/// The greatest index with a non-zero entry, or -1.
pub open spec fn last_taken(check: Seq<u32>) -> int
    decreases check.len(),
{
    if check.len() == 0 {
        -1
    } else if check.last() != 0 {
        check.len() - 1
    } else {
        last_taken(check.drop_last())
    }
}

/// The index with a non-zero entry behind which all entries are zero is the
/// greatest with a non-zero entry.
pub(crate) proof fn lemma_last_taken(check: Seq<u32>, last: int)
    requires
        0 <= last < check.len(),
        check[last] != 0,
        forall|i: int| last < i < check.len() ==> #[trigger] check[i] == 0,
    ensures
        last_taken(check) == last,
    decreases check.len(),
{
    if last < check.len() - 1 {
        assert(check[check.len() - 1] == 0);
        lemma_last_taken(check.drop_last(), last);
    }
}

/// The arrays at their final length: 256 slots behind the last taken one.
pub open spec fn trimmed(arr: Arrays) -> Arrays {
    let n = last_taken(arr.check) + RESERVED_SLOTS;
    Arrays { base: resized(arr.base, n), check: resized(arr.check, n), data: arr.data }
}

/// The arrays of a trie of byte values that was built with `count` calls:
/// all zero for the empty trie; else the root is placed at slot 1 with all
/// under it, and the arrays are trimmed. `None` where a slot or an offset
/// does not fit.
pub open spec fn layout(t: Tree, count: nat) -> Option<Arrays> {
    if t.nexts.len() == 0 && t.values.len() == 0 {
        Some(Arrays { base: zeros(256), check: zeros(256), data: Seq::empty() })
    } else {
        let blank = Arrays { base: zeros(first_len(count)), check: zeros(first_len(count)), data: Seq::empty() };
        match filled(blank, t, 1) {
            Some(arr) => Some(trimmed(arr)),
            None => None,
        }
    }
}


impl Tree {
    /// The number of nodes of the tree.
    pub open spec fn size(self) -> nat
        decreases self, 0nat,
    {
        1 + Self::forest_size(self.nexts, self.nexts.len())
    }

    /// The number of nodes of the first `n` trees.
    pub open spec fn forest_size(trees: Seq<Tree>, n: nat) -> nat
        decreases trees, n,
    {
        if n == 0 || n > trees.len() {
            0
        } else {
            Self::forest_size(trees, (n - 1) as nat) + trees[n - 1].size()
        }
    }

    /// The number of value bytes in the tree.
    pub open spec fn volume(self) -> nat
        decreases self, 0nat,
    {
        self.values.len() + Self::forest_volume(self.nexts, self.nexts.len())
    }

    /// The number of value bytes in the first `n` trees.
    pub open spec fn forest_volume(trees: Seq<Tree>, n: nat) -> nat
        decreases trees, n,
    {
        if n == 0 || n > trees.len() {
            0
        } else {
            Self::forest_volume(trees, (n - 1) as nat) + trees[n - 1].volume()
        }
    }

    /// The child keys ascend strictly and none is the sentinel; every child
    /// has children or values and is tidy itself.
    pub open spec fn tidy(self) -> bool
        decreases self,
    {
        &&& forall|i: int, j: int|
            0 <= i < j < self.nexts.len() ==> (#[trigger] self.nexts[i]).key < (#[trigger] self.nexts[j]).key
        &&& forall|i: int|
            0 <= i < self.nexts.len() ==> {
                &&& (#[trigger] self.nexts[i]).tidy()
                &&& self.nexts[i].key != SENTINEL
                &&& (self.nexts[i].nexts.len() > 0 || self.nexts[i].values.len() > 0)
            }
    }

    /// The keys of a tidy node ascend strictly.
    pub proof fn lemma_keys_ascend(self)
        requires
            self.tidy(),
        ensures
            forall|i: int, j: int|
                0 <= i < j < tree_keys(self).len() ==> #[trigger] tree_keys(self)[i] < #[trigger] tree_keys(
                    self,
                )[j],
            tree_keys(self).len() == self.nexts.len() + if self.values.len() > 0 { 1int } else { 0int },
            forall|i: int| 0 <= i < self.nexts.len() ==> #[trigger] tree_keys(self)[i] == self.nexts[i].key,
    {
        let keys = tree_keys(self);
        assert forall|i: int, j: int| 0 <= i < j < keys.len() implies #[trigger] keys[i] < #[trigger] keys[j] by {
            assert(self.nexts[i].key != SENTINEL);
            if j < self.nexts.len() {
                assert(self.nexts[i].key < self.nexts[j].key);
            }
        }
    }
}

impl Node<u8> {
    /// The tree of a node has the node's size and volume.
    pub(crate) proof fn lemma_tree_measures(self)
        ensures
            self.tree().size() == self.size(),
            self.tree().volume() == self.volume(),
        decreases self, self.nexts@.len() + 1,
    {
        self.lemma_tree();
        self.lemma_tree_forest(self.nexts@.len());
    }

    /// The first `n` children of the tree of a node have the size and the
    /// volume of the node's first `n` children.
    pub(crate) proof fn lemma_tree_forest(self, n: nat)
        requires
            n <= self.nexts@.len(),
        ensures
            Tree::forest_size(self.tree().nexts, n) == Self::forest_size(self.nexts@, n),
            Tree::forest_volume(self.tree().nexts, n) == Self::forest_volume(self.nexts@, n),
        decreases self, n,
    {
        self.lemma_tree();
        if n > 0 {
            self.lemma_tree_forest((n - 1) as nat);
            self.nexts@[n - 1].lemma_tree_measures();
        }
    }
}

impl Node<u8> {
    /// The tree of a well-formed node is tidy.
    pub(crate) proof fn lemma_tidy(self)
        requires
            self.wf(),
        ensures
            self.tree().tidy(),
        decreases self,
    {
        self.lemma_tree();
        let t = self.tree();
        assert forall|i: int, j: int| 0 <= i < j < t.nexts.len() implies (#[trigger] t.nexts[i]).key < (
        #[trigger] t.nexts[j]).key by {
            self.nexts@[i].lemma_tree();
            self.nexts@[j].lemma_tree();
            assert(self.nexts@[i].key < self.nexts@[j].key);
        }
        assert forall|i: int| 0 <= i < t.nexts.len() implies {
            &&& (#[trigger] t.nexts[i]).tidy()
            &&& t.nexts[i].key != SENTINEL
            &&& (t.nexts[i].nexts.len() > 0 || t.nexts[i].values.len() > 0)
        } by {
            self.lemma_child_wf(i);
            self.nexts@[i].lemma_tree();
            self.nexts@[i].lemma_tidy();
        }
    }
}

/// Whether no slot from `m` on is taken.
pub open spec fn clear_from(arr: Arrays, m: int) -> bool {
    forall|i: int| m <= i < arr.check.len() ==> #[trigger] arr.check[i] == 0
}

/// Between a bound from which nothing fits below and a base that fits lies
/// the lowest base that fits.
proof fn lemma_first_fit_exists(arr: Arrays, keys: Seq<u8>, lo: int, hi: int) -> (b: int)
    requires
        keys.len() > 0,
        RESERVED_SLOTS <= lo <= hi,
        roomy(arr, keys, hi - keys[0]),
        forall|e: int| RESERVED_SLOTS <= e < lo ==> !roomy(arr, keys, #[trigger] (e - keys[0])),
    ensures
        is_first_fit(arr, keys, b),
        b + keys[0] <= hi,
    decreases hi - lo,
{
    if roomy(arr, keys, lo - keys[0]) {
        lo - keys[0]
    } else {
        assert forall|e: int| RESERVED_SLOTS <= e < lo + 1 implies !roomy(arr, keys, #[trigger] (e - keys[0])) by {
            if e == lo {
            }
        }
        lemma_first_fit_exists(arr, keys, lo + 1, hi)
    }
}

/// Where nothing is taken from `m` on, the lowest base that fits puts the
/// first key at `m` or below.
proof fn lemma_first_fit_bound(arr: Arrays, keys: Seq<u8>, m: int)
    requires
        keys.len() > 0,
        forall|i: int, j: int| 0 <= i < j < keys.len() ==> #[trigger] keys[i] < #[trigger] keys[j],
        RESERVED_SLOTS <= m,
        clear_from(arr, m),
    ensures
        is_first_fit(arr, keys, first_fit(arr, keys)),
        first_fit(arr, keys) + keys[0] <= m,
{
    assert(roomy(arr, keys, m - keys[0])) by {
        assert forall|j: int| 0 <= j < keys.len() implies !taken(arr, m - keys[0] + #[trigger] keys[j]) by {
            if j > 0 {
                assert(keys[0] < keys[j]);
            }
        }
    }
    let b = lemma_first_fit_exists(arr, keys, RESERVED_SLOTS as int, m);
    lemma_first_fit_unique(arr, keys, b);
}

/// Grown arrays hold the slots of the children, and stay within the
/// greatest length.
proof fn lemma_grown_len(len: int, b: int)
    requires
        0 < len <= MAX_LEN,
        b + 256 < MAX_LEN,
    ensures
        len <= grown_len(len, b) <= MAX_LEN,
        b + 255 < grown_len(len, b),
    decreases MAX_LEN - len,
{
    if len < MAX_LEN && len <= b + 255 {
        lemma_grown_len(
            if len > MAX_LEN / 2 {
                MAX_LEN as int
            } else {
                2 * len
            },
            b,
        );
    }
}

/// The arrays with some children placed differ from those before in the
/// slots of these children alone.
proof fn lemma_with_children(arr: Arrays, t: Tree, idx: int, b: int, j: nat)
    requires
        j <= t.nexts.len(),
        0 <= b,
        b + 255 < arr.check.len(),
        idx != 0,
    ensures
        with_children(arr, t, idx, b, j).base == arr.base,
        with_children(arr, t, idx, b, j).data == arr.data,
        with_children(arr, t, idx, b, j).check.len() == arr.check.len(),
        forall|i: int|
            0 <= i < arr.check.len() && !(b <= i < b + 256) ==> #[trigger] with_children(arr, t, idx, b, j).check[i]
                == arr.check[i],
    decreases j,
{
    if j > 0 {
        lemma_with_children(arr, t, idx, b, (j - 1) as nat);
    }
}

/// A tidy tree that leaves room below the greatest length, with values that
/// fit 32 bits behind the data, is placed whole.
proof fn lemma_filled(arr: Arrays, t: Tree, idx: int, m: int)
    requires
        t.tidy(),
        t.nexts.len() > 0 || t.values.len() > 0,
        arr.base.len() == arr.check.len(),
        0 < arr.check.len() <= MAX_LEN,
        0 < idx < arr.check.len(),
        RESERVED_SLOTS <= m,
        clear_from(arr, m),
        m + 256 * t.size() < MAX_LEN - 256,
        arr.data.len() + t.volume() <= u32::MAX,
    ensures
        filled(arr, t, idx) is Some,
        ({
            let out = filled(arr, t, idx)->Some_0;
            &&& out.base.len() == out.check.len()
            &&& arr.check.len() <= out.check.len() <= MAX_LEN
            &&& clear_from(out, m + 256 * t.size())
            &&& out.data.len() == arr.data.len() + t.volume()
        }),
    decreases t, t.nexts.len() + 1,
{
    let keys = tree_keys(t);
    t.lemma_keys_ascend();
    lemma_first_fit_bound(arr, keys, m);
    let b = first_fit(arr, keys);
    assert(b + keys[0] >= RESERVED_SLOTS);
    assert(0 < b <= m);
    let n = grown_len(arr.check.len() as int, b);
    lemma_grown_len(arr.check.len() as int, b);
    let with_base = seated(arr, t, idx)->Some_0;
    assert(with_base.check =~= resized(arr.check, n));
    assert(with_base.base.len() == n);
    assert(clear_from(with_base, m));
    let kids = with_children(with_base, t, idx, b, t.nexts.len());
    lemma_with_children(with_base, t, idx, b, t.nexts.len());
    assert(clear_from(kids, m + 256));
    let with_node = placed(arr, t, idx)->Some_0;
    assert(with_value(kids, t, idx, b) == Some(with_node));
    assert(clear_from(with_node, m + 256));
    assert(with_node.data.len() == arr.data.len() + t.values.len());
    assert(with_node.check.len() == n && with_node.base.len() == n);
    lemma_filled_under(with_node, t, b, t.nexts.len(), m + 256);
}

/// The trees under the children of a tidy node are placed whole, where they
/// leave room and their values fit.
proof fn lemma_filled_under(arr: Arrays, t: Tree, b: int, j: nat, m: int)
    requires
        t.tidy(),
        j <= t.nexts.len(),
        arr.base.len() == arr.check.len(),
        0 < b,
        b + 255 < arr.check.len() <= MAX_LEN,
        RESERVED_SLOTS <= m,
        clear_from(arr, m),
        m + 256 * Tree::forest_size(t.nexts, j) < MAX_LEN - 256,
        arr.data.len() + Tree::forest_volume(t.nexts, j) <= u32::MAX,
    ensures
        filled_under(arr, t, b, j) is Some,
        ({
            let out = filled_under(arr, t, b, j)->Some_0;
            &&& out.base.len() == out.check.len()
            &&& arr.check.len() <= out.check.len() <= MAX_LEN
            &&& clear_from(out, m + 256 * Tree::forest_size(t.nexts, j))
            &&& out.data.len() == arr.data.len() + Tree::forest_volume(t.nexts, j)
        }),
    decreases t, j,
{
    if j > 0 {
        let child = t.nexts[j - 1];
        assert(child.tidy());
        let size = child.size();
        let rest = Tree::forest_size(t.nexts, (j - 1) as nat);
        assert(256 * (rest + size) == 256 * rest + 256 * size) by (nonlinear_arith);
        lemma_filled(arr, child, b + child.key, m);
        let with_child = filled(arr, child, b + child.key)->Some_0;
        lemma_filled_under(with_child, t, b, (j - 1) as nat, m + 256 * size);
    }
}

/// A trie that is not too large has arrays: with fewer than sixteen million
/// nodes and values of four gigabytes at most, every slot and every offset
/// fits.
pub proof fn lemma_small_tree_has_layout(t: Tree, count: nat)
    requires
        t.tidy(),
        t.size() <= 0xff_fff0,
        t.volume() <= u32::MAX,
    ensures
        layout(t, count) is Some,
{
    if t.nexts.len() > 0 || t.values.len() > 0 {
        let blank = Arrays { base: zeros(first_len(count)), check: zeros(first_len(count)), data: Seq::empty() };
        assert(256 * t.size() <= 256 * 0xff_fff0) by (nonlinear_arith)
            requires
                t.size() <= 0xff_fff0,
        ;
        lemma_filled(blank, t, 1, RESERVED_SLOTS as int);
    }
}

} // verus!

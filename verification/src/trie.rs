//! The building trie: a prefix tree over key bytes that keeps, for each key,
//! the values set for it in the order of the calls.

use vstd::prelude::*;
use vstd::string::StringSliceAdditionalSpecFns;
use vstd::utf8::*;
use crate::builder::{compile, compiled, edge};
use crate::codec::{encode_block, encodes_to, fails_to_encode};
use crate::double_array::DoubleArray;
use crate::error::Error;
use crate::filling::{layout, zeros, Tree};
use crate::layout::blob_of;
use crate::model::Arrays;

verus! {

/// The byte that marks a value slot in the double array; no key holds it.
pub const SENTINEL: u8 = 0xff;

/// How many values one key may hold.
pub const MAX_VALUES: usize = 256;

/// Whether no byte of `key` is the sentinel.
pub open spec fn sentinel_free(key: Seq<u8>) -> bool {
    forall|i: int| 0 <= i < key.len() ==> #[trigger] key[i] != SENTINEL
}

/// No byte of a UTF-8 encoding is the sentinel.
pub proof fn lemma_utf8_sentinel_free(bytes: Seq<u8>)
    requires
        valid_utf8(bytes),
    ensures
        sentinel_free(bytes),
    decreases bytes.len(),
{
    if bytes.len() > 0 {
        let n = length_of_first_scalar(bytes);
        let rest = pop_first_scalar(bytes);
        lemma_utf8_sentinel_free(rest);
        assert forall|i: int| 0 <= i < bytes.len() implies #[trigger] bytes[i] != SENTINEL by {
            if i >= n {
                assert(rest[i - n] == bytes[i]);
            }
        }
    }
}

/// No byte of a string is the sentinel.
pub proof fn lemma_str_sentinel_free(key: &str)
    ensures
        sentinel_free(key.spec_bytes()),
{
    encode_utf8_valid_utf8(key@);
    lemma_utf8_sentinel_free(key.spec_bytes());
}

/// Two non-empty sequences with one first byte and one rest are the same.
proof fn lemma_same_head_and_rest(a: Seq<u8>, b: Seq<u8>)
    requires
        a.len() > 0,
        b.len() > 0,
        a[0] == b[0],
        a.skip(1) == b.skip(1),
    ensures
        a == b,
{
    assert(a.len() == a.skip(1).len() + 1);
    assert(b.len() == b.skip(1).len() + 1);
    assert forall|k: int| 0 <= k < a.len() implies a[k] == b[k] by {
        if k > 0 {
            assert(a[k] == a.skip(1)[k - 1]);
            assert(b[k] == b.skip(1)[k - 1]);
        }
    }
    assert(a =~= b);
}

/// A node of the trie: the byte that leads to it, the values of the key that
/// ends at it, and its children in the order of their bytes.
pub(crate) struct Node<T> {
    pub(crate) key: u8,
    pub(crate) values: Vec<T>,
    pub(crate) nexts: Vec<Node<T>>,
}

impl<T> Node<T> {
    /// The children's key bytes ascend strictly.
    pub(crate) open spec fn sorted(self) -> bool {
        forall|i: int, j: int|
            0 <= i < j < self.nexts@.len() ==> (#[trigger] self.nexts@[i]).key < (#[trigger] self.nexts@[j]).key
    }

    /// The position of the child whose key byte is `b`, if there is one.
    pub(crate) open spec fn child_at(self, b: u8) -> Option<int> {
        if exists|i: int| 0 <= i < self.nexts@.len() && (#[trigger] self.nexts@[i]).key == b {
            Some(choose|i: int| 0 <= i < self.nexts@.len() && (#[trigger] self.nexts@[i]).key == b)
        } else {
            None
        }
    }

    /// Sorted children all the way down, no sentinel among the key bytes, and
    /// values at every leaf.
    pub(crate) open spec fn wf(self) -> bool
        decreases self,
    {
        &&& self.sorted()
        &&& forall|i: int|
            0 <= i < self.nexts@.len() ==> {
                &&& (#[trigger] self.nexts@[i]).wf()
                &&& self.nexts@[i].key != SENTINEL
                &&& self.nexts@[i].nexts@.len() == 0 ==> self.nexts@[i].values@.len() > 0
            }
    }

    /// The node reached from this one along `path`, if every edge exists.
    pub(crate) open spec fn descend(self, path: Seq<u8>) -> Option<Node<T>>
        decreases path.len(),
    {
        if path.len() == 0 {
            Some(self)
        } else {
            match self.child_at(path[0]) {
                Some(i) => self.nexts@[i].descend(path.skip(1)),
                None => None,
            }
        }
    }

    /// The values held at the end of `path`; none where the path leaves the tree.
    pub(crate) open spec fn values_at(self, path: Seq<u8>) -> Seq<T> {
        match self.descend(path) {
            Some(n) => n.values@,
            None => Seq::empty(),
        }
    }

    /// Among sorted children each is the one for its byte.
    pub(crate) proof fn lemma_child_at(self, i: int)
        requires
            self.sorted(),
            0 <= i < self.nexts@.len(),
        ensures
            self.child_at(self.nexts@[i].key) == Some(i),
    {
        let b = self.nexts@[i].key;
        let j = choose|j: int| 0 <= j < self.nexts@.len() && (#[trigger] self.nexts@[j]).key == b;
        if j < i {
            assert(self.nexts@[j].key < self.nexts@[i].key);
        } else if i < j {
            assert(self.nexts@[i].key < self.nexts@[j].key);
        }
    }

    /// Finds the child for byte `b`: its position, or else the position at
    /// which such a child would keep the children sorted.
    pub(crate) fn find_child(&self, b: u8) -> (r: Result<usize, usize>)
        requires
            self.sorted(),
        ensures
            match r {
                Ok(i) => self.child_at(b) == Some(i as int) && i < self.nexts@.len(),
                Err(i) => {
                    &&& self.child_at(b) is None
                    &&& i <= self.nexts@.len()
                    &&& forall|j: int| 0 <= j < i ==> (#[trigger] self.nexts@[j]).key < b
                    &&& forall|j: int| i <= j < self.nexts@.len() ==> (#[trigger] self.nexts@[j]).key > b
                },
            },
    {
        let mut lo: usize = 0;
        let mut hi: usize = self.nexts.len();
        while lo < hi
            invariant
                self.sorted(),
                lo <= hi <= self.nexts@.len(),
                forall|j: int| 0 <= j < lo ==> (#[trigger] self.nexts@[j]).key < b,
                forall|j: int| hi <= j < self.nexts@.len() ==> (#[trigger] self.nexts@[j]).key > b,
            decreases hi - lo,
        {
            let mid: usize = lo + (hi - lo) / 2;
            let k: u8 = self.nexts[mid].key;
            if k == b {
                proof {
                    self.lemma_child_at(mid as int);
                }
                return Ok(mid);
            } else if k < b {
                proof {
                    assert forall|j: int| 0 <= j < mid + 1 implies (#[trigger] self.nexts@[j]).key < b by {
                        if j < mid {
                            assert(self.nexts@[j].key < self.nexts@[mid as int].key);
                        }
                    }
                }
                lo = mid + 1;
            } else {
                proof {
                    assert forall|j: int| mid <= j < self.nexts@.len() implies (#[trigger] self.nexts@[j]).key > b by {
                        if j > mid {
                            assert(self.nexts@[mid as int].key < self.nexts@[j].key);
                        }
                    }
                }
                hi = mid;
            }
        }
        Err(lo)
    }
}


impl<T> Node<T> {
    /// What a path reaches in a well-formed tree is well-formed, and the path
    /// holds no sentinel.
    pub(crate) proof fn lemma_descend_wf(self, path: Seq<u8>)
        requires
            self.wf(),
            self.descend(path) is Some,
        ensures
            self.descend(path)->Some_0.wf(),
            sentinel_free(path),
            path.len() > 0 ==> self.descend(path)->Some_0.key != SENTINEL,
            path.len() > 0 ==> (self.descend(path)->Some_0.nexts@.len() > 0 || self.descend(
                path,
            )->Some_0.values@.len() > 0),
        decreases path.len(),
    {
        if path.len() > 0 {
            let i = self.child_at(path[0])->Some_0;
            self.nexts@[i].lemma_descend_wf(path.skip(1));
            assert forall|k: int| 0 <= k < path.len() implies #[trigger] path[k] != SENTINEL by {
                if k > 0 {
                    assert(path[k] == path.skip(1)[k - 1]);
                }
            }
        }
    }

    /// One byte further than `path`: the child of what `path` reaches.
    pub(crate) proof fn lemma_descend_push(self, path: Seq<u8>, b: u8)
        ensures
            self.descend(path.push(b)) == match self.descend(path) {
                Some(n) => match n.child_at(b) {
                    Some(c) => Some(n.nexts@[c]),
                    None => None,
                },
                None => None,
            },
        decreases path.len(),
    {
        let longer = path.push(b);
        if path.len() == 0 {
            assert(longer.skip(1).len() == 0);
            match self.child_at(b) {
                Some(c) => {
                    assert(self.nexts@[c].descend(longer.skip(1)) == Some(self.nexts@[c]));
                },
                None => {},
            }
        } else {
            assert(longer[0] == path[0]);
            assert(longer.skip(1) =~= path.skip(1).push(b));
            match self.child_at(path[0]) {
                Some(i) => {
                    self.nexts@[i].lemma_descend_push(path.skip(1), b);
                },
                None => {},
            }
        }
    }

    /// A path of one byte or more goes through the child for its first byte.
    pub(crate) proof fn lemma_descend_step(self, path: Seq<u8>)
        requires
            path.len() > 0,
        ensures
            self.descend(path) == match self.child_at(path[0]) {
                Some(i) => self.nexts@[i].descend(path.skip(1)),
                None => None,
            },
    {
    }

    /// Whether `after` is `self` with `value` appended to the values at the
    /// end of `rest`, the nodes on the way made where they were not there.
    pub(crate) open spec fn grown_by(self, after: Node<T>, rest: Seq<u8>, value: T) -> bool {
        &&& after.wf()
        &&& after.key == self.key
        &&& (after.nexts@.len() > 0 || after.values@.len() > 0)
        &&& self.size() <= after.size() <= self.size() + rest.len()
        &&& after.volume() == self.volume() + 1
        &&& forall|q: Seq<u8>|
            #[trigger] after.values_at(q) == if q == rest {
                self.values_at(q).push(value)
            } else {
                self.values_at(q)
            }
    }

    /// A node whose values gained `value` has grown by it at the empty path.
    pub(crate) proof fn lemma_grown_here(self, after: Node<T>, value: T)
        requires
            self.wf(),
            after.key == self.key,
            after.nexts == self.nexts,
            after.values@ == self.values@.push(value),
        ensures
            self.grown_by(after, Seq::empty(), value),
    {
        let rest = Seq::<u8>::empty();
        assert forall|q: Seq<u8>|
            #[trigger] after.values_at(q) == if q == rest {
                self.values_at(q).push(value)
            } else {
                self.values_at(q)
            } by {
            if q.len() == 0 {
                assert(q =~= rest);
            } else {
                after.lemma_descend_step(q);
                self.lemma_descend_step(q);
            }
        }
    }

    /// A node one of whose children has grown along the rest of a path has
    /// grown along the path.
    pub(crate) proof fn lemma_grown_under(self, after: Node<T>, i: int, rest: Seq<u8>, value: T)
        requires
            self.wf(),
            rest.len() > 0,
            self.child_at(rest[0]) == Some(i),
            0 <= i < self.nexts@.len(),
            after.key == self.key,
            after.values == self.values,
            after.nexts@.len() == self.nexts@.len(),
            forall|j: int| 0 <= j < self.nexts@.len() && j != i ==> after.nexts@[j] == self.nexts@[j],
        ensures
            self.nexts@[i].grown_by(after.nexts@[i], rest.skip(1), value) ==> self.grown_by(after, rest, value),
    {
        if self.nexts@[i].grown_by(after.nexts@[i], rest.skip(1), value) {
            self.lemma_grown_under_proof(after, i, rest, value);
        }
    }

    /// The same, with the child's growth taken for granted.
    proof fn lemma_grown_under_proof(self, after: Node<T>, i: int, rest: Seq<u8>, value: T)
        requires
            self.wf(),
            rest.len() > 0,
            self.child_at(rest[0]) == Some(i),
            0 <= i < self.nexts@.len(),
            after.key == self.key,
            after.values == self.values,
            after.nexts@.len() == self.nexts@.len(),
            forall|j: int| 0 <= j < self.nexts@.len() && j != i ==> after.nexts@[j] == self.nexts@[j],
            self.nexts@[i].grown_by(after.nexts@[i], rest.skip(1), value),
        ensures
            self.grown_by(after, rest, value),
    {
        let b = rest[0];
        let tail = rest.skip(1);
        let child = self.nexts@[i];
        let grown = after.nexts@[i];
        Self::lemma_forest_changed(self.nexts@, after.nexts@, i, self.nexts@.len());
        assert forall|j: int| 0 <= j < after.nexts@.len() implies (#[trigger] after.nexts@[j]).key
            == self.nexts@[j].key by {}
        assert(after.sorted()) by {
            assert forall|x: int, y: int| 0 <= x < y < after.nexts@.len() implies (#[trigger] after.nexts@[x]).key
                < (#[trigger] after.nexts@[y]).key by {
                assert(self.nexts@[x].key < self.nexts@[y].key);
            }
        }
        assert forall|j: int| 0 <= j < after.nexts@.len() implies {
            &&& (#[trigger] after.nexts@[j]).wf()
            &&& after.nexts@[j].key != SENTINEL
            &&& after.nexts@[j].nexts@.len() == 0 ==> after.nexts@[j].values@.len() > 0
        } by {
            assert(self.nexts@[j].wf());
        }
        assert forall|q: Seq<u8>|
            #[trigger] after.values_at(q) == if q == rest {
                self.values_at(q).push(value)
            } else {
                self.values_at(q)
            } by {
            if q.len() > 0 {
                after.lemma_descend_step(q);
                self.lemma_descend_step(q);
                match self.child_at(q[0]) {
                    Some(j) => {
                        after.lemma_child_at(j);
                        self.lemma_child_at(i);
                        if j == i {
                            assert(grown.values_at(q.skip(1)) == if q.skip(1) == tail {
                                child.values_at(q.skip(1)).push(value)
                            } else {
                                child.values_at(q.skip(1))
                            });
                            if q.skip(1) == tail {
                                lemma_same_head_and_rest(q, rest);
                            }
                        }
                    },
                    None => {
                        if after.child_at(q[0]) is Some {
                            let j = after.child_at(q[0])->Some_0;
                            assert(self.nexts@[j].key == q[0]);
                        }
                    },
                }
            }
        }
    }

    /// A node that gained a child for the first byte of a path, grown from a
    /// bare node along the rest of the path, has grown along the path.
    pub(crate) proof fn lemma_grown_beside(
        self,
        after: Node<T>,
        i: int,
        bare: Node<T>,
        rest: Seq<u8>,
        value: T,
    )
        requires
            self.wf(),
            rest.len() > 0,
            rest[0] != SENTINEL,
            self.child_at(rest[0]) is None,
            0 <= i <= self.nexts@.len(),
            forall|j: int| 0 <= j < i ==> (#[trigger] self.nexts@[j]).key < rest[0],
            forall|j: int| i <= j < self.nexts@.len() ==> (#[trigger] self.nexts@[j]).key > rest[0],
            bare.key == rest[0],
            bare.values@.len() == 0,
            bare.nexts@.len() == 0,
            after.key == self.key,
            after.values == self.values,
            after.nexts@.len() == self.nexts@.len() + 1,
            forall|j: int| 0 <= j < i ==> after.nexts@[j] == self.nexts@[j],
            forall|j: int| i < j < after.nexts@.len() ==> after.nexts@[j] == self.nexts@[j - 1],
        ensures
            bare.grown_by(after.nexts@[i], rest.skip(1), value) ==> self.grown_by(after, rest, value),
    {
        if bare.grown_by(after.nexts@[i], rest.skip(1), value) {
            let b = rest[0];
            let tail = rest.skip(1);
            let grown = after.nexts@[i];
            Self::lemma_forest_widened(self.nexts@, after.nexts@, i, after.nexts@.len());
            assert(bare.size() == 1 && bare.volume() == 0);
            assert forall|q: Seq<u8>| #[trigger] bare.values_at(q) == Seq::<T>::empty() by {
                if q.len() > 0 {
                    bare.lemma_descend_step(q);
                } else {
                    assert(bare.values_at(q) =~= Seq::<T>::empty());
                }
            }
            assert(after.sorted()) by {
                assert forall|x: int, y: int| 0 <= x < y < after.nexts@.len() implies (
                #[trigger] after.nexts@[x]).key < (#[trigger] after.nexts@[y]).key by {
                    let bx = if x < i { x } else { x - 1 };
                    let by_ = if y < i { y } else { y - 1 };
                    if x != i && y != i {
                        assert(self.nexts@[bx].key < self.nexts@[by_].key);
                    } else if x == i {
                        assert(self.nexts@[by_].key > b);
                    } else {
                        assert(self.nexts@[bx].key < b);
                    }
                }
            }
            assert forall|j: int| 0 <= j < after.nexts@.len() implies {
                &&& (#[trigger] after.nexts@[j]).wf()
                &&& after.nexts@[j].key != SENTINEL
                &&& after.nexts@[j].nexts@.len() == 0 ==> after.nexts@[j].values@.len() > 0
            } by {
                if j < i {
                    assert(self.nexts@[j].wf());
                } else if j > i {
                    assert(self.nexts@[j - 1].wf());
                }
            }
            assert forall|q: Seq<u8>|
                #[trigger] after.values_at(q) == if q == rest {
                    self.values_at(q).push(value)
                } else {
                    self.values_at(q)
                } by {
                if q.len() > 0 {
                    after.lemma_descend_step(q);
                    self.lemma_descend_step(q);
                    after.lemma_child_at(i);
                    if q[0] == b {
                        assert(grown.values_at(q.skip(1)) == if q.skip(1) == tail {
                            bare.values_at(q.skip(1)).push(value)
                        } else {
                            bare.values_at(q.skip(1))
                        });
                        if q.skip(1) == tail {
                            lemma_same_head_and_rest(q, rest);
                        }
                        assert(Seq::<T>::empty().push(value) =~= self.values_at(q).push(value));
                    } else {
                        match self.child_at(q[0]) {
                            Some(j) => {
                                let nj = if j < i { j } else { j + 1 };
                                assert(after.nexts@[nj] == self.nexts@[j]);
                                after.lemma_child_at(nj);
                            },
                            None => {
                                if after.child_at(q[0]) is Some {
                                    let j = after.child_at(q[0])->Some_0;
                                    let oj = if j < i { j } else { j - 1 };
                                    assert(self.nexts@[oj].key == q[0]);
                                }
                            },
                        }
                    }
                }
            }
        }
    }

    /// Appends `value` to the values at the end of `key`, making the nodes on
    /// the way that are not there yet.
    pub(crate) fn insert(&mut self, key: &[u8], value: T)
        requires
            old(self).wf(),
            sentinel_free(key@),
        ensures
            old(self).grown_by(*final(self), key@, value),
    {
        let ghost start: Node<T> = *self;
        let ghost fin: Node<T> = *final(self);
        let ghost mut sub: Node<T> = *self;
        let mut node: &mut Node<T> = self;
        let mut pos: usize = 0;
        proof {
            assert(key@.skip(0) =~= key@);
        }
        while pos < key.len()
            invariant
                pos <= key@.len(),
                sentinel_free(key@),
                sub.wf(),
                *node == sub,
                sub.grown_by(*final(node), key@.skip(pos as int), value) ==> start.grown_by(fin, key@, value),
            decreases key@.len() - pos,
        {
            let b: u8 = key[pos];
            let ghost rest = key@.skip(pos as int);
            let ghost here = sub;
            let ghost whole = *final(node);
            proof {
                assert(rest.len() > 0 && rest[0] == b);
                assert(rest.skip(1) =~= key@.skip(pos + 1));
            }
            let found: Result<usize, usize> = node.find_child(b);
            match found {
                Ok(i) => {
                    proof {
                        node.lemma_child_wf(i as int);
                        sub = node.nexts@[i as int];
                    }
                    node = &mut node.nexts[i];
                    proof {
                        here.lemma_grown_under(whole, i as int, rest, value);
                    }
                },
                Err(i) => {
                    let bare: Node<T> = Node { key: b, values: Vec::new(), nexts: Vec::new() };
                    proof {
                        sub = bare;
                        assert(key@[pos as int] != SENTINEL);
                    }
                    node.nexts.insert(i, bare);
                    node = &mut node.nexts[i];
                    proof {
                        here.lemma_grown_beside(whole, i as int, sub, rest, value);
                    }
                },
            }
            pos = pos + 1;
        }
        node.values.push(value);
        proof {
            sub.lemma_grown_here(*node, value);
            assert(key@.skip(pos as int) =~= Seq::<u8>::empty());
        }
    }
}

impl<T> Node<T> {
    /// The children of a well-formed node are well-formed.
    pub(crate) proof fn lemma_child_wf(self, i: int)
        requires
            self.wf(),
            0 <= i < self.nexts@.len(),
        ensures
            self.nexts@[i].wf(),
            self.nexts@[i].key != SENTINEL,
            self.nexts@[i].nexts@.len() > 0 || self.nexts@[i].values@.len() > 0,
    {
    }

    /// The number of nodes of the tree under this node, itself included.
    pub(crate) open spec fn size(self) -> nat
        decreases self, 0nat,
    {
        1 + Self::forest_size(self.nexts@, self.nexts@.len())
    }

    /// The number of nodes under the first `n` trees of `trees`.
    pub(crate) open spec fn forest_size(trees: Seq<Node<T>>, n: nat) -> nat
        decreases trees, n,
    {
        if n == 0 || n > trees.len() {
            0
        } else {
            Self::forest_size(trees, (n - 1) as nat) + trees[n - 1].size()
        }
    }

    /// The number of values held in the tree under this node.
    pub(crate) open spec fn volume(self) -> nat
        decreases self, 0nat,
    {
        self.values@.len() + Self::forest_volume(self.nexts@, self.nexts@.len())
    }

    /// The number of values held in the first `n` trees of `trees`.
    pub(crate) open spec fn forest_volume(trees: Seq<Node<T>>, n: nat) -> nat
        decreases trees, n,
    {
        if n == 0 || n > trees.len() {
            0
        } else {
            Self::forest_volume(trees, (n - 1) as nat) + trees[n - 1].volume()
        }
    }

    /// The volume of a forest depends on the trees counted alone.
    pub(crate) proof fn lemma_forest_volume_prefix(a: Seq<Node<T>>, b: Seq<Node<T>>, n: nat)
        requires
            n <= a.len(),
            n <= b.len(),
            forall|i: int| 0 <= i < n ==> a[i] == b[i],
        ensures
            Self::forest_volume(a, n) == Self::forest_volume(b, n),
        decreases n,
    {
        if n > 0 {
            Self::lemma_forest_volume_prefix(a, b, (n - 1) as nat);
        }
    }

    /// A forest with one tree changed differs by what that tree differs.
    pub(crate) proof fn lemma_forest_changed(a: Seq<Node<T>>, b: Seq<Node<T>>, i: int, n: nat)
        requires
            a.len() == b.len(),
            0 <= i < n <= a.len(),
            forall|j: int| 0 <= j < a.len() && j != i ==> a[j] == b[j],
        ensures
            Self::forest_size(b, n) + a[i].size() == Self::forest_size(a, n) + b[i].size(),
            Self::forest_volume(b, n) + a[i].volume() == Self::forest_volume(a, n) + b[i].volume(),
        decreases n,
    {
        if n == i + 1 {
            Self::lemma_forest_prefix(a, b, i as nat);
            Self::lemma_forest_volume_prefix(a, b, i as nat);
        } else {
            Self::lemma_forest_changed(a, b, i, (n - 1) as nat);
        }
    }

    /// A forest with one tree more, put in at `i`, is greater by that tree.
    pub(crate) proof fn lemma_forest_widened(a: Seq<Node<T>>, b: Seq<Node<T>>, i: int, n: nat)
        requires
            b.len() == a.len() + 1,
            0 <= i < n <= b.len(),
            forall|j: int| 0 <= j < i ==> a[j] == b[j],
            forall|j: int| i < j < b.len() ==> b[j] == a[j - 1],
        ensures
            Self::forest_size(b, n) == Self::forest_size(a, (n - 1) as nat) + b[i].size(),
            Self::forest_volume(b, n) == Self::forest_volume(a, (n - 1) as nat) + b[i].volume(),
        decreases n,
    {
        if n == i + 1 {
            Self::lemma_forest_prefix(a, b, i as nat);
            Self::lemma_forest_volume_prefix(a, b, i as nat);
        } else {
            Self::lemma_forest_widened(a, b, i, (n - 1) as nat);
        }
    }
}

impl<T> Node<T> {
    /// The path `front` and then `back`: what `back` reaches from what
    /// `front` reaches.
    pub(crate) proof fn lemma_descend_concat(self, front: Seq<u8>, back: Seq<u8>)
        ensures
            self.descend(front + back) == match self.descend(front) {
                Some(n) => n.descend(back),
                None => None,
            },
        decreases front.len(),
    {
        if front.len() == 0 {
            assert(front + back =~= back);
        } else {
            let whole = front + back;
            assert(whole[0] == front[0]);
            assert(whole.skip(1) =~= front.skip(1) + back);
            match self.child_at(front[0]) {
                Some(i) => {
                    self.nexts@[i].lemma_descend_concat(front.skip(1), back);
                },
                None => {},
            }
        }
    }

    /// Under a node with children or values some path ends at values.
    pub(crate) proof fn lemma_has_key(self) -> (path: Seq<u8>)
        requires
            self.wf(),
            self.nexts@.len() > 0 || self.values@.len() > 0,
        ensures
            self.values_at(path).len() > 0,
        decreases self,
    {
        if self.values@.len() > 0 {
            Seq::empty()
        } else {
            let child = self.nexts@[0];
            self.lemma_child_wf(0);
            self.lemma_child_at(0);
            let below = child.lemma_has_key();
            let path = seq![child.key] + below;
            assert(path[0] == child.key);
            assert(path.skip(1) =~= below);
            path
        }
    }

    /// The size of a forest depends on the trees counted alone.
    pub(crate) proof fn lemma_forest_prefix(a: Seq<Node<T>>, b: Seq<Node<T>>, n: nat)
        requires
            n <= a.len(),
            n <= b.len(),
            forall|i: int| 0 <= i < n ==> a[i] == b[i],
        ensures
            Self::forest_size(a, n) == Self::forest_size(b, n),
        decreases n,
    {
        if n > 0 {
            Self::lemma_forest_prefix(a, b, (n - 1) as nat);
        }
    }
}

/// A dictionary under construction: keys with the values set for them.
pub struct Trie<T> {
    root: Node<T>,
    len: usize,
}

impl<T> Trie<T> {
    /// The invariant of the tree: sorted children all the way down, no
    /// sentinel among the key bytes, and values at every leaf.
    pub closed spec fn wf(&self) -> bool {
        self.root.wf() && self.root.key == 0
    }

    /// The keys that hold values, each with its values in the order set.
    pub closed spec fn view(&self) -> Map<Seq<u8>, Seq<T>> {
        Map::new(
            |k: Seq<u8>| self.root.values_at(k).len() > 0,
            |k: Seq<u8>| self.root.values_at(k),
        )
    }

    /// The values of `key`, none where the key holds none.
    pub open spec fn values(&self, key: Seq<u8>) -> Seq<T> {
        if self@.contains_key(key) {
            self@[key]
        } else {
            Seq::empty()
        }
    }

    /// How many times a value was set.
    pub closed spec fn count(&self) -> nat {
        self.len as nat
    }

    /// How many nodes the tree has, the root among them: one more than there
    /// are byte strings, not empty, that begin a key.
    pub closed spec fn nodes(&self) -> nat {
        self.root.size()
    }

    /// How many values the trie holds, over all keys.
    pub closed spec fn held(&self) -> nat {
        self.root.volume()
    }

    /// The root of the tree.
    pub(crate) closed spec fn root(&self) -> Node<T> {
        self.root
    }

    /// Every key holds at least one value, none of its bytes is the
    /// sentinel, and the tree has a node for it.
    pub proof fn lemma_view_facts(&self, key: Seq<u8>)
        requires
            self.wf(),
            self@.contains_key(key),
        ensures
            0 < self@[key].len(),
            sentinel_free(key),
            self.has_node(key),
    {
        self.root.lemma_descend_wf(key);
    }

    /// The root of the tree.
    pub(crate) fn root_node(&self) -> (r: &Node<T>)
        ensures
            *r == self.root(),
    {
        &self.root
    }

    /// Whether the tree has a node at the end of `path`: whether `path`
    /// begins a key that holds values, or is such a key.
    pub closed spec fn has_node(&self, path: Seq<u8>) -> bool {
        self.root.descend(path) is Some
    }

    /// What the trie's invariant, nodes and keys are in terms of its root.
    pub(crate) proof fn lemma_root(&self)
        ensures
            self.wf() == (self.root().wf() && self.root().key == 0),
            forall|k: Seq<u8>| #[trigger] self.has_node(k) == (self.root().descend(k) is Some),
            forall|k: Seq<u8>| #[trigger] self@.contains_key(k) == (self.root().values_at(k).len() > 0),
            forall|k: Seq<u8>| self@.contains_key(k) ==> #[trigger] self@[k] == self.root().values_at(k),
    {
    }

    /// Every node of the tree but the root lies on the way to a key: its
    /// path begins a key that holds values.
    pub proof fn lemma_node_begins_key(&self, path: Seq<u8>) -> (key: Seq<u8>)
        requires
            self.wf(),
            self.has_node(path),
            path.len() > 0,
        ensures
            self@.contains_key(key),
            path.len() <= key.len(),
            key.take(path.len() as int) == path,
    {
        self.root.lemma_descend_wf(path);
        let node = self.root.descend(path)->Some_0;
        let below = node.lemma_has_key();
        self.root.lemma_descend_concat(path, below);
        let key = path + below;
        assert(key.take(path.len() as int) =~= path);
        key
    }

    /// A trie without keys is its root alone: without values, without
    /// children.
    pub(crate) proof fn lemma_bare_root(&self)
        requires
            self.wf(),
            forall|key: Seq<u8>| !#[trigger] self@.contains_key(key),
        ensures
            self.root().nexts@.len() == 0,
            self.root().values@.len() == 0,
    {
        if self.root.nexts@.len() > 0 || self.root.values@.len() > 0 {
            let key = self.root.lemma_has_key();
            assert(self@.contains_key(key));
        }
    }

    /// What begins a key of the trie has a node in the tree.
    pub proof fn lemma_key_prefix_has_node(&self, key: Seq<u8>, n: int)
        requires
            self@.contains_key(key),
            0 <= n <= key.len(),
        ensures
            self.has_node(key.take(n)),
    {
        assert(key.take(n) + key.skip(n) =~= key);
        self.root.lemma_descend_concat(key.take(n), key.skip(n));
    }

    /// An empty trie.
    pub fn new() -> (r: Trie<T>)
        ensures
            r.wf(),
            r@ == Map::<Seq<u8>, Seq<T>>::empty(),
            r.count() == 0,
            r.nodes() == 1,
            r.held() == 0,
    {
        let r = Trie { root: Node { key: 0, values: Vec::new(), nexts: Vec::new() }, len: 0 };
        proof {
            assert forall|q: Seq<u8>| #[trigger] r.root.values_at(q) == Seq::<T>::empty() by {
                if q.len() > 0 {
                    r.root.lemma_descend_step(q);
                }
            }
            assert(r@ =~= Map::<Seq<u8>, Seq<T>>::empty());
        }
        r
    }

    /// How many times a value was set.
    pub fn len(&self) -> (r: usize)
        ensures
            r == self.count(),
    {
        self.len
    }

    /// The node at the end of `bytes`, if every edge exists.
    fn locate(&self, bytes: &[u8]) -> (r: Option<&Node<T>>)
        requires
            self.wf(),
        ensures
            match r {
                Some(n) => self.root.descend(bytes@) == Some(*n),
                None => self.root.descend(bytes@) is None,
            },
    {
        let mut node: &Node<T> = &self.root;
        let mut pos: usize = 0;
        proof {
            assert(bytes@.skip(0) =~= bytes@);
        }
        while pos < bytes.len()
            invariant
                pos <= bytes@.len(),
                node.wf(),
                self.root.descend(bytes@) == node.descend(bytes@.skip(pos as int)),
            decreases bytes@.len() - pos,
        {
            proof {
                node.lemma_descend_step(bytes@.skip(pos as int));
                assert(bytes@.skip(pos as int).skip(1) =~= bytes@.skip(pos as int + 1));
            }
            match node.find_child(bytes[pos]) {
                Ok(i) => {
                    proof {
                        node.lemma_child_wf(i as int);
                    }
                    node = &node.nexts[i];
                },
                Err(_) => {
                    return None;
                },
            }
            pos = pos + 1;
        }
        Some(node)
    }

    /// The values set for `key`, in the order of the calls; `None` where the
    /// key holds none.
    pub fn get(&self, key: &str) -> (r: Option<&[T]>)
        requires
            self.wf(),
        ensures
            match r {
                Some(v) => self@.contains_key(key.spec_bytes()) && v@ == self@[key.spec_bytes()],
                None => !self@.contains_key(key.spec_bytes()),
            },
    {
        match self.locate(key.as_bytes()) {
            Some(node) => {
                if node.values.is_empty() {
                    None
                } else {
                    Some(node.values.as_slice())
                }
            },
            None => None,
        }
    }

    /// Appends `value` to the values of `key`. A key that already holds as
    /// many values as it may is refused, and the trie stays as it was.
    pub fn set(&mut self, key: &str, value: T) -> (r: Result<(), Error>)
        requires
            old(self).wf(),
            old(self).count() < usize::MAX,
        ensures
            final(self).wf(),
            match r {
                Ok(_) => {
                    &&& old(self).values(key.spec_bytes()).len() < MAX_VALUES
                    &&& final(self)@ == old(self)@.insert(
                        key.spec_bytes(),
                        old(self).values(key.spec_bytes()).push(value),
                    )
                    &&& final(self).count() == old(self).count() + 1
                    &&& old(self).nodes() <= final(self).nodes() <= old(self).nodes() + key.spec_bytes().len()
                    &&& final(self).held() == old(self).held() + 1
                },
                Err(e) => {
                    &&& e is ValueOverflow
                    &&& old(self).values(key.spec_bytes()).len() >= MAX_VALUES
                    &&& *final(self) == *old(self)
                },
            },
    {
        let bytes: &[u8] = key.as_bytes();
        let held: usize = match self.locate(bytes) {
            Some(node) => node.values.len(),
            None => 0,
        };
        if held >= MAX_VALUES {
            return Err(Error::ValueOverflow);
        }
        let ghost before = *self;
        proof {
            encode_utf8_valid_utf8(key@);
            lemma_utf8_sentinel_free(bytes@);
            assert(bytes@.skip(0) =~= bytes@);
        }
        self.root.insert(bytes, value);
        self.len = self.len + 1;
        proof {
            assert(before.values(bytes@) =~= before.root.values_at(bytes@));
            assert forall|q: Seq<u8>| #[trigger]
                self@.contains_key(q) == before@.insert(
                    bytes@,
                    before.values(bytes@).push(value),
                ).contains_key(q) by {
                assert(self.root.values_at(q).len() > 0 <==> q == bytes@ || before.root.values_at(q).len() > 0);
            }
            assert(self@ =~= before@.insert(bytes@, before.values(bytes@).push(value)));
        }
        Ok(())
    }
}


impl<T> Node<T> {
    /// The same tree but for the values: the same key bytes in the same
    /// places, and values at the same nodes.
    pub(crate) open spec fn same_shape(self, other: Node<u8>) -> bool
        decreases self,
    {
        &&& self.key == other.key
        &&& (self.values@.len() > 0) == (other.values@.len() > 0)
        &&& self.nexts@.len() == other.nexts@.len()
        &&& forall|i: int|
            0 <= i < self.nexts@.len() ==> (#[trigger] self.nexts@[i]).same_shape(other.nexts@[i])
    }

    /// Trees of one shape have as many nodes.
    pub(crate) proof fn lemma_shape_size(self, other: Node<u8>)
        requires
            self.same_shape(other),
        ensures
            self.size() == other.size(),
        decreases self, self.nexts@.len() + 1,
    {
        self.lemma_shape_forest(other, self.nexts@.len());
    }

    /// The first `n` children of trees of one shape have as many nodes.
    pub(crate) proof fn lemma_shape_forest(self, other: Node<u8>, n: nat)
        requires
            self.same_shape(other),
            n <= self.nexts@.len(),
        ensures
            Self::forest_size(self.nexts@, n) == Node::<u8>::forest_size(other.nexts@, n),
        decreases self, n,
    {
        if n > 0 {
            self.lemma_shape_forest(other, (n - 1) as nat);
            assert(self.nexts@[n - 1].same_shape(other.nexts@[n - 1]));
            self.nexts@[n - 1].lemma_shape_size(other.nexts@[n - 1]);
        }
    }

    /// A tree of the shape of a well-formed one is well-formed.
    pub(crate) proof fn lemma_shape_wf(self, other: Node<u8>)
        requires
            self.wf(),
            self.same_shape(other),
        ensures
            other.wf(),
        decreases self,
    {
        assert forall|i: int, j: int| 0 <= i < j < other.nexts@.len() implies (#[trigger] other.nexts@[i]).key
            < (#[trigger] other.nexts@[j]).key by {
            assert(self.nexts@[i].same_shape(other.nexts@[i]));
            assert(self.nexts@[j].same_shape(other.nexts@[j]));
            assert(self.nexts@[i].key < self.nexts@[j].key);
        }
        assert forall|i: int| 0 <= i < other.nexts@.len() implies {
            &&& (#[trigger] other.nexts@[i]).wf()
            &&& other.nexts@[i].key != SENTINEL
            &&& other.nexts@[i].nexts@.len() == 0 ==> other.nexts@[i].values@.len() > 0
        } by {
            assert(self.nexts@[i].same_shape(other.nexts@[i]));
            self.lemma_child_wf(i);
            self.nexts@[i].lemma_shape_wf(other.nexts@[i]);
        }
    }

    /// Trees of one shape have their nodes at the same paths, and values at
    /// the same nodes.
    pub(crate) proof fn lemma_shape_descend(self, other: Node<u8>, path: Seq<u8>)
        requires
            self.wf(),
            self.same_shape(other),
        ensures
            self.descend(path) is Some <==> other.descend(path) is Some,
            self.values_at(path).len() > 0 <==> other.values_at(path).len() > 0,
        decreases path.len(),
    {
        self.lemma_shape_wf(other);
        if path.len() > 0 {
            let b = path[0];
            match self.child_at(b) {
                Some(i) => {
                    assert(self.nexts@[i].same_shape(other.nexts@[i]));
                    other.lemma_child_at(i);
                    self.lemma_child_wf(i);
                    self.nexts@[i].lemma_shape_descend(other.nexts@[i], path.skip(1));
                },
                None => {
                    if other.child_at(b) is Some {
                        let i = other.child_at(b)->Some_0;
                        assert(self.nexts@[i].same_shape(other.nexts@[i]));
                    }
                },
            }
        }
    }
}

/// Whether the codec refuses `values`: it fails on them, or answers with an
/// empty block.
pub open spec fn refused<T: serde::Serialize>(values: Seq<T>) -> bool {
    fails_to_encode::<T>(values) || encodes_to::<T>(values, Seq::empty())
}

/// Whether some path under `node` ends at values that the codec refuses.
pub(crate) open spec fn refused_under<T: serde::Serialize>(node: Node<T>, path: Seq<u8>) -> bool {
    node.values_at(path).len() > 0 && refused::<T>(node.values_at(path))
}

/// Whether the values of every node of `other` are an answer of the codec
/// to the values of the node of `node` in its place.
pub(crate) open spec fn encoded_into<T: serde::Serialize>(node: Node<T>, other: Node<u8>) -> bool
    decreases node,
{
    &&& node.values@.len() > 0 ==> encodes_to::<T>(node.values@, other.values@)
    &&& node.nexts@.len() == other.nexts@.len()
    &&& forall|i: int|
        0 <= i < node.nexts@.len() ==> encoded_into(#[trigger] node.nexts@[i], other.nexts@[i])
}

/// Where a tree is encoded into another of its shape, the values at the end
/// of every path are encoded into the values at the end of the same path.
pub(crate) proof fn lemma_encoded_at<T: serde::Serialize>(node: Node<T>, other: Node<u8>, path: Seq<u8>)
    requires
        node.wf(),
        node.same_shape(other),
        encoded_into(node, other),
        node.values_at(path).len() > 0,
    ensures
        encodes_to::<T>(node.values_at(path), other.values_at(path)),
    decreases path.len(),
{
    node.lemma_shape_wf(other);
    if path.len() > 0 {
        let i = node.child_at(path[0])->Some_0;
        assert(node.nexts@[i].same_shape(other.nexts@[i]));
        assert(encoded_into(node.nexts@[i], other.nexts@[i]));
        other.lemma_child_at(i);
        node.lemma_child_wf(i);
        lemma_encoded_at(node.nexts@[i], other.nexts@[i], path.skip(1));
    }
}

/// What the build makes of the codec's answer for the values of one key: the
/// block, where the codec gave one that is not empty; an empty block could
/// not mark values, and is refused like a failure of the codec.
pub fn block_of(outcome: Result<Vec<u8>, Box<bincode::ErrorKind>>) -> (r: Result<Vec<u8>, Error>)
    ensures
        match outcome {
            Ok(block) => if block@.len() > 0 {
                r == Ok::<Vec<u8>, Error>(block)
            } else {
                r matches Err(e) && e is EncodeFailure
            },
            Err(_) => r matches Err(e) && e is EncodeFailure,
        },
{
    match outcome {
        Ok(block) => {
            if block.len() == 0 {
                Err(Error::EncodeFailure)
            } else {
                Ok(block)
            }
        },
        Err(_) => Err(Error::EncodeFailure),
    }
}

/// Encodes the values of every node of the tree under `node` into one block
/// per node, keeping the tree's shape. The codec is asked for the nodes
/// with values alone, so that a failure shows a path that ends at values.
fn encode_node<T: serde::Serialize>(node: &Node<T>) -> (r: Result<Node<u8>, Error>)
    requires
        node.wf(),
    ensures
        match r {
            Ok(n) => node.same_shape(n) && encoded_into(*node, n),
            Err(e) => e is EncodeFailure && exists|path: Seq<u8>| #[trigger] refused_under(*node, path),
        },
    decreases node,
{
    let mut values: Vec<u8> = Vec::new();
    if node.values.len() > 0 {
        let outcome = encode_block::<T>(&node.values);
        let ghost empty_block = outcome is Ok && outcome->Ok_0@.len() == 0;
        match block_of(outcome) {
            Ok(block) => {
                values = block;
            },
            Err(e) => {
                proof {
                    if empty_block {
                        assert(outcome->Ok_0@ =~= Seq::<u8>::empty());
                    }
                    assert(refused_under(*node, Seq::<u8>::empty()));
                }
                return Err(e);
            },
        }
    }
    let mut nexts: Vec<Node<u8>> = Vec::new();
    let mut i: usize = 0;
    while i < node.nexts.len()
        invariant
            node.wf(),
            i <= node.nexts@.len(),
            nexts@.len() == i,
            forall|j: int| 0 <= j < i ==> (#[trigger] node.nexts@[j]).same_shape(nexts@[j]),
            forall|j: int| 0 <= j < i ==> encoded_into(#[trigger] node.nexts@[j], nexts@[j]),
        decreases node.nexts@.len() - i,
    {
        proof {
            node.lemma_child_wf(i as int);
        }
        match encode_node(&node.nexts[i]) {
            Ok(child) => {
                nexts.push(child);
            },
            Err(e) => {
                proof {
                    let child = node.nexts@[i as int];
                    let below = choose|q: Seq<u8>| #[trigger] refused_under(child, q);
                    let path = seq![child.key] + below;
                    node.lemma_child_at(i as int);
                    assert(path[0] == child.key);
                    assert(path.skip(1) =~= below);
                    node.lemma_descend_step(path);
                    assert(node.values_at(path) == child.values_at(below));
                    assert(refused_under(*node, path));
                }
                return Err(e);
            },
        }
        i = i + 1;
    }
    Ok(Node { key: node.key, values, nexts })
}

impl<T> Trie<T> {
    /// Slot `i` is reached from the node of `path` over byte `k`: as the
    /// child for a byte of the trie, or as the value slot of a key.
    pub open spec fn reaches(&self, arr: Arrays, i: int, path: Seq<u8>, k: u8) -> bool {
        &&& sentinel_free(path)
        &&& arr.walk(path) == Some(arr.check[i] as int)
        &&& i == arr.base[arr.check[i] as int] + k
        &&& if k == SENTINEL {
            self@.contains_key(path)
        } else {
            self.has_node(path.push(k))
        }
    }

    /// Whether `blocks` is a trie of the shape of this one: the same nodes,
    /// the same keys, the same count of calls.
    pub open spec fn shaped_as(&self, blocks: &Trie<u8>) -> bool {
        &&& blocks.wf()
        &&& blocks.count() == self.count()
        &&& blocks.nodes() == self.nodes()
        &&& forall|key: Seq<u8>| #[trigger] blocks.has_node(key) <==> self.has_node(key)
        &&& forall|key: Seq<u8>| #[trigger] blocks@.contains_key(key) <==> self@.contains_key(key)
    }

    /// Whether arrays answer for the keys of this trie: a key is walked
    /// exactly where the trie has a node, it is found exactly where it holds
    /// values, and every taken slot is the child or the value slot of a node
    /// of the trie.
    pub open spec fn indexed_by(&self, arr: Arrays) -> bool {
        &&& forall|key: Seq<u8>|
            sentinel_free(key) ==> (#[trigger] arr.walk(key) is Some <==> self.has_node(key))
        &&& forall|key: Seq<u8>|
            sentinel_free(key) ==> (#[trigger] arr.find(key) is Some <==> self@.contains_key(key))
        &&& forall|i: int|
            0 <= i < arr.check.len() && #[trigger] arr.check[i] != 0 ==> exists|path: Seq<u8>, k: u8| #[trigger]
                self.reaches(arr, i, path, k)
    }

    /// The arrays compiled from the trie of blocks answer for the keys of
    /// this trie.
    pub proof fn lemma_indexed(&self, blocks: &Trie<u8>, arr: Arrays)
        requires
            self.shaped_as(blocks),
            compiled(blocks, arr),
        ensures
            self.indexed_by(arr),
    {
        assert forall|key: Seq<u8>| sentinel_free(key) implies (#[trigger] arr.walk(key) is Some
            <==> self.has_node(key)) by {
            assert(blocks.has_node(key) <==> self.has_node(key));
        }
        assert forall|key: Seq<u8>| sentinel_free(key) implies (#[trigger] arr.find(key) is Some
            <==> self@.contains_key(key)) by {
            assert(blocks@.contains_key(key) <==> self@.contains_key(key));
        }
        assert forall|i: int| 0 <= i < arr.check.len() && #[trigger] arr.check[i] != 0 implies exists|
            path: Seq<u8>,
            k: u8,
        | #[trigger] self.reaches(arr, i, path, k) by {
            let (path, k) = choose|path: Seq<u8>, k: u8| #[trigger] edge(blocks, arr, i, path, k);
            assert(blocks@.contains_key(path) <==> self@.contains_key(path));
            assert(blocks.has_node(path.push(k)) <==> self.has_node(path.push(k)));
            assert(self.reaches(arr, i, path, k));
        }
    }

    /// The trie of blocks of a trie without keys has none, and so has the
    /// arrays of the empty trie.
    pub proof fn lemma_encoded_empty(&self, blocks: &Trie<u8>)
        requires
            self.shaped_as(blocks),
            forall|key: Seq<u8>| !#[trigger] self@.contains_key(key),
        ensures
            layout(blocks.tree(), blocks.count()) == Some(
                Arrays { base: zeros(256), check: zeros(256), data: Seq::empty() },
            ),
    {
        assert forall|key: Seq<u8>| !#[trigger] blocks@.contains_key(key) by {
            assert(blocks@.contains_key(key) <==> self@.contains_key(key));
        }
        blocks.lemma_empty_tree();
    }
}

impl<T: serde::Serialize> Trie<T> {
    /// Whether `blocks` is the trie of the encoded values of this trie: of
    /// its shape, and under each key an answer of the codec to the values of
    /// that key.
    pub open spec fn encoded_as(&self, blocks: &Trie<u8>) -> bool {
        &&& self.shaped_as(blocks)
        &&& forall|key: Seq<u8>|
            self@.contains_key(key) ==> encodes_to::<T>(self@[key], #[trigger] blocks@[key])
    }

    /// The trie of blocks: the same keys, each with the bytes that the codec
    /// made of its values. Fails where the codec fails or hands back an empty
    /// block, which it can for a trie with keys alone.
    pub fn encode(&self) -> (r: Result<Trie<u8>, Error>)
        requires
            self.wf(),
        ensures
            match r {
                Ok(blocks) => self.encoded_as(&blocks),
                Err(e) => e is EncodeFailure && exists|key: Seq<u8>|
                    #[trigger] self@.contains_key(key) && refused::<T>(self@[key]),
            },
    {
        match encode_node(&self.root) {
            Ok(root) => {
                let blocks = Trie { root, len: self.len };
                proof {
                    self.root.lemma_shape_wf(blocks.root);
                    self.root.lemma_shape_size(blocks.root);
                    assert forall|key: Seq<u8>| self@.contains_key(key) implies encodes_to::<T>(
                        self@[key],
                        #[trigger] blocks@[key],
                    ) by {
                        self.root.lemma_shape_descend(blocks.root, key);
                        lemma_encoded_at(self.root, blocks.root, key);
                    }
                    assert forall|key: Seq<u8>| #[trigger] blocks.has_node(key) <==> self.has_node(key) by {
                        self.root.lemma_shape_descend(blocks.root, key);
                    }
                    assert forall|key: Seq<u8>| #[trigger]
                        blocks@.contains_key(key) <==> self@.contains_key(key) by {
                        self.root.lemma_shape_descend(blocks.root, key);
                    }
                }
                Ok(blocks)
            },
            Err(e) => {
                proof {
                    let key = choose|q: Seq<u8>| #[trigger] refused_under(self.root, q);
                    assert(self@.contains_key(key) && refused::<T>(self@[key]));
                }
                Err(e)
            },
        }
    }

    /// Compiles the trie into a double array: the values of each key are
    /// encoded into a block, the blocks and the tree are laid out in arrays,
    /// and the arrays are packed into a mapped blob. Fails where the codec
    /// fails on the values of a key, where the blocks have no arrays or a
    /// blob too long for the machine, or where the mapping fails: for a trie
    /// without keys the mapping alone can fail.
    pub fn to_double_array(self) -> (r: Result<DoubleArray<T>, Error>)
        requires
            self.wf(),
        ensures
            match r {
                Ok(da) => {
                    &&& da.wf()
                    &&& self.indexed_by(da@)
                    &&& da@.base.len() == da@.check.len()
                    &&& da@.check.len() >= 256
                    &&& da.blob() == blob_of(da@)
                    &&& exists|blocks: Trie<u8>| #[trigger]
                        self.encoded_as(&blocks) && compiled(&blocks, da@) && layout(
                            blocks.tree(),
                            blocks.count(),
                        ) == Some(da@)
                },
                Err(e) => {
                    &&& e is EncodeFailure || e is IndexOverflow || e is IoFailure
                    &&& e is EncodeFailure ==> exists|key: Seq<u8>|
                        #[trigger] self@.contains_key(key) && refused::<T>(self@[key])
                    &&& e is IndexOverflow ==> exists|blocks: Trie<u8>| #[trigger]
                        self.encoded_as(&blocks) && match layout(blocks.tree(), blocks.count()) {
                            None => true,
                            Some(arr) => 40 + 4 * arr.base.len() + 4 * arr.check.len() + arr.data.len()
                                > usize::MAX,
                        }
                    &&& e is IoFailure ==> exists|blocks: Trie<u8>| #[trigger]
                        self.encoded_as(&blocks) && match layout(blocks.tree(), blocks.count()) {
                            None => false,
                            Some(arr) => 40 + 4 * arr.base.len() + 4 * arr.check.len() + arr.data.len()
                                <= usize::MAX,
                        }
                    &&& e is IndexOverflow && self.nodes() <= 0xff_fff0 ==> exists|blocks: Trie<u8>| #[trigger]
                        self.encoded_as(&blocks) && (blocks.held() > u32::MAX || layout(
                            blocks.tree(),
                            blocks.count(),
                        ) is Some)
                },
            },
            (forall|key: Seq<u8>| !#[trigger] self@.contains_key(key)) ==> (r matches Err(e) ==> e is IoFailure),
    {
        let blocks: Trie<u8> = match self.encode() {
            Ok(b) => b,
            Err(e) => {
                return Err(e);
            },
        };
        proof {
            if forall|key: Seq<u8>| !#[trigger] self@.contains_key(key) {
                self.lemma_encoded_empty(&blocks);
            }
        }
        let parts: (Vec<u32>, Vec<u32>, Vec<u8>) = match compile(&blocks) {
            Ok(p) => p,
            Err(e) => {
                proof {
                    assert(self.encoded_as(&blocks) && layout(blocks.tree(), blocks.count()) is None);
                }
                return Err(e);
            },
        };
        match DoubleArray::<T>::from_arrays(parts.0.as_slice(), parts.1.as_slice(), parts.2.as_slice()) {
            Ok(da) => {
                proof {
                    self.lemma_indexed(&blocks, da@);
                    assert(self.encoded_as(&blocks) && compiled(&blocks, da@) && layout(
                        blocks.tree(),
                        blocks.count(),
                    ) == Some(da@));
                }
                Ok(da)
            },
            Err(e) => {
                proof {
                    let arr = Arrays { base: parts.0@, check: parts.1@, data: parts.2@ };
                    assert(self.encoded_as(&blocks) && layout(blocks.tree(), blocks.count()) == Some(arr));
                }
                Err(e)
            },
        }
    }
}

impl Trie<u8> {
    /// The trie as a mathematical tree.
    pub closed spec fn tree(&self) -> Tree {
        self.root.tree()
    }

    /// The trie's tree is the tree of its root.
    pub(crate) proof fn lemma_root_tree(&self)
        ensures
            self.tree() == self.root().tree(),
    {
    }

    /// The tree has the trie's nodes and holds the trie's values.
    pub proof fn lemma_tree_measures(&self)
        ensures
            self.tree().size() == self.nodes(),
            self.tree().volume() == self.held(),
    {
        self.root.lemma_tree_measures();
    }

    /// The tree of a trie without keys is a root alone, and its arrays are
    /// 256 slots of zeros with no data.
    pub proof fn lemma_empty_tree(&self)
        requires
            self.wf(),
            forall|key: Seq<u8>| !#[trigger] self@.contains_key(key),
        ensures
            self.tree().nexts.len() == 0,
            self.tree().values.len() == 0,
            self.tree().size() == 1,
            self.tree().volume() == 0,
            layout(self.tree(), self.count()) == Some(
                Arrays { base: zeros(256), check: zeros(256), data: Seq::empty() },
            ),
    {
        self.lemma_bare_root();
        self.root.lemma_tree();
    }

    /// The tree of a well-formed trie is tidy.
    pub proof fn lemma_tidy(&self)
        requires
            self.wf(),
        ensures
            self.tree().tidy(),
    {
        self.root.lemma_tidy();
    }

    /// The tree is told by the keys and their values: two tries that hold the
    /// same are the same tree.
    pub proof fn lemma_view_tells_tree(&self, other: &Trie<u8>)
        requires
            self.wf(),
            other.wf(),
            self@ == other@,
        ensures
            self.tree() == other.tree(),
    {
        assert forall|q: Seq<u8>| #[trigger] self.root.values_at(q) == other.root.values_at(q) by {
            assert(self@.contains_key(q) == other@.contains_key(q));
            if self@.contains_key(q) {
                assert(self@[q] == other@[q]);
            } else {
                assert(self.root.values_at(q) =~= other.root.values_at(q));
            }
        }
        self.root.lemma_same_values_same_tree(other.root);
    }
}

} // verus!

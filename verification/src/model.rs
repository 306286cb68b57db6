//! What a double array means: how a key is walked through `BASE` and `CHECK`,
//! where its values lie in `DATA`, and which prefixes of a key hold values.

use vstd::prelude::*;

verus! {

/// The three regions of a double array, as mathematical sequences.
pub struct Arrays {
    pub base: Seq<u32>,
    pub check: Seq<u32>,
    pub data: Seq<u8>,
}

/// The index of the root node.
pub const ROOT: usize = 1;

/// The byte whose transition leads from a node to its value slot.
pub const VALUE_BYTE: u8 = 0xff;

/// Whether `block` lies in `data` at offset `off`.
pub open spec fn block_at(data: Seq<u8>, off: int, block: Seq<u8>) -> bool {
    &&& 0 <= off
    &&& off + block.len() <= data.len()
    &&& data.subrange(off, off + block.len()) == block
}

impl Arrays {
    /// The node reached from `idx` over byte `b`: `BASE[idx] + b`, where that
    /// slot lies in the arrays and its `CHECK` names `idx`.
    pub open spec fn step(self, idx: int, b: u8) -> Option<int> {
        if 0 <= idx < self.base.len() {
            let next = self.base[idx] + b;
            if next < self.check.len() && self.check[next] == idx {
                Some(next)
            } else {
                None
            }
        } else {
            None
        }
    }

    /// The node reached from the root along `key`, if every transition holds.
    pub open spec fn walk(self, key: Seq<u8>) -> Option<int>
        decreases key.len(),
    {
        if key.len() == 0 {
            Some(ROOT as int)
        } else {
            match self.walk(key.drop_last()) {
                Some(idx) => self.step(idx, key.last()),
                None => None,
            }
        }
    }

    /// The offset in `DATA` of the values of node `idx`: the `BASE` of its
    /// value slot, if the node has one.
    pub open spec fn value_offset(self, idx: int) -> Option<int> {
        match self.step(idx, VALUE_BYTE) {
            Some(slot) => if slot < self.base.len() {
                Some(self.base[slot] as int)
            } else {
                None
            },
            None => None,
        }
    }

    /// The offset in `DATA` of the values of `key`, if the key has values.
    pub open spec fn find(self, key: Seq<u8>) -> Option<int> {
        match self.walk(key) {
            Some(idx) => self.value_offset(idx),
            None => None,
        }
    }

    /// The prefixes of `key` of length 1 to `n` that have values, shortest
    /// first: each as its length and the offset of its values in `DATA`.
    #[verifier::opaque]
    pub open spec fn matches(self, key: Seq<u8>, n: nat) -> Seq<(nat, int)>
        decreases n,
    {
        if n == 0 || n > key.len() {
            Seq::empty()
        } else {
            let shorter = self.matches(key, (n - 1) as nat);
            match self.find(key.take(n as int)) {
                Some(off) => shorter.push((n, off)),
                None => shorter,
            }
        }
    }

    /// The bytes of `DATA` from `off` on: what a decoder is handed. An offset
    /// beyond the region yields nothing.
    pub open spec fn block_from(self, off: int) -> Seq<u8> {
        if 0 <= off <= self.data.len() {
            self.data.skip(off)
        } else {
            Seq::empty()
        }
    }

    /// A walk that fails on a prefix of a key fails on the key.
    pub proof fn lemma_walk_prefix(self, key: Seq<u8>, n: int)
        requires
            0 <= n <= key.len(),
            self.walk(key.take(n)) is None,
        ensures
            self.walk(key) is None,
        decreases key.len() - n,
    {
        if n < key.len() {
            assert(key.take(n + 1).drop_last() =~= key.take(n));
            self.lemma_walk_prefix(key, n + 1);
        } else {
            assert(key.take(n) =~= key);
        }
    }

    /// One step further along a key.
    pub proof fn lemma_walk_next(self, key: Seq<u8>, n: int)
        requires
            0 <= n < key.len(),
        ensures
            self.walk(key.take(n + 1)) == match self.walk(key.take(n)) {
                Some(idx) => self.step(idx, key[n]),
                None => None,
            },
    {
        assert(key.take(n + 1).drop_last() =~= key.take(n));
    }

    /// No prefix, no match; and one byte more adds the match of the longer
    /// prefix, if it has values.
    pub proof fn lemma_matches_step(self, key: Seq<u8>, n: nat)
        requires
            n <= key.len(),
        ensures
            n == 0 ==> self.matches(key, n) == Seq::<(nat, int)>::empty(),
            n > 0 ==> self.matches(key, n) == match self.find(key.take(n as int)) {
                Some(off) => self.matches(key, (n - 1) as nat).push((n, off)),
                None => self.matches(key, (n - 1) as nat),
            },
    {
        reveal(Arrays::matches);
    }

    /// Where the walk has failed, no longer prefix adds a match.
    pub proof fn lemma_matches_stop(self, key: Seq<u8>, n: nat, m: nat)
        requires
            n <= m <= key.len(),
            self.walk(key.take(n as int)) is None,
        ensures
            self.matches(key, m) == self.matches(key, n),
        decreases m - n,
    {
        if n < m {
            self.lemma_matches_stop(key, n, (m - 1) as nat);
            assert(key.take(m as int).take(n as int) =~= key.take(n as int));
            self.lemma_walk_prefix(key.take(m as int), n as int);
            self.lemma_matches_step(key, m);
        }
    }

    /// The matches among shorter prefixes come first among those of longer ones.
    pub proof fn lemma_matches_extend(self, key: Seq<u8>, n: nat, m: nat)
        requires
            n <= m <= key.len(),
        ensures
            self.matches(key, n).len() <= self.matches(key, m).len(),
            forall|i: int|
                0 <= i < self.matches(key, n).len() ==> #[trigger] self.matches(key, m)[i]
                    == self.matches(key, n)[i],
        decreases m - n,
    {
        if n < m {
            self.lemma_matches_extend(key, n, (m - 1) as nat);
            self.lemma_matches_step(key, m);
        }
    }

    /// Each match names a prefix no longer than those considered, and the
    /// matches ascend strictly in prefix length.
    pub proof fn lemma_matches_ascend(self, key: Seq<u8>, n: nat)
        requires
            n <= key.len(),
        ensures
            forall|i: int|
                0 <= i < self.matches(key, n).len() ==> 1 <= (#[trigger] self.matches(key, n)[i]).0
                    <= n,
            forall|i: int, j: int|
                0 <= i < j < self.matches(key, n).len() ==> (#[trigger] self.matches(key, n)[i]).0 < (
                #[trigger] self.matches(key, n)[j]).0,
        decreases n,
    {
        self.lemma_matches_step(key, n);
        if n > 0 {
            self.lemma_matches_ascend(key, (n - 1) as nat);
            let shorter = self.matches(key, (n - 1) as nat);
            let all = self.matches(key, n);
            assert forall|i: int| 0 <= i < all.len() implies 1 <= (#[trigger] all[i]).0 <= n by {
                if i < shorter.len() {
                    assert(all[i] == shorter[i]);
                }
            }
            assert forall|i: int, j: int| 0 <= i < j < all.len() implies (#[trigger] all[i]).0 < (
            #[trigger] all[j]).0 by {
                assert(all[i] == shorter[i]);
                if j < shorter.len() {
                    assert(all[j] == shorter[j]);
                }
            }
        }
    }

    /// Each match is a prefix that is found, at the offset that the match names.
    pub proof fn lemma_matches_are_found(self, key: Seq<u8>, n: nat)
        requires
            n <= key.len(),
        ensures
            forall|i: int|
                0 <= i < self.matches(key, n).len() ==> {
                    let hit = #[trigger] self.matches(key, n)[i];
                    &&& 1 <= hit.0 <= n
                    &&& self.find(key.take(hit.0 as int)) == Some(hit.1)
                },
        decreases n,
    {
        self.lemma_matches_step(key, n);
        if n > 0 {
            self.lemma_matches_are_found(key, (n - 1) as nat);
            let shorter = self.matches(key, (n - 1) as nat);
            let all = self.matches(key, n);
            assert forall|i: int| 0 <= i < all.len() implies {
                let hit = #[trigger] all[i];
                &&& 1 <= hit.0 <= n
                &&& self.find(key.take(hit.0 as int)) == Some(hit.1)
            } by {
                if i < shorter.len() {
                    assert(all[i] == shorter[i]);
                }
            }
        }
    }

    /// A prefix with values is among the matches of every key that it begins.
    pub proof fn lemma_matches_holds(self, key: Seq<u8>, len: nat, n: nat)
        requires
            1 <= len <= n <= key.len(),
            self.find(key.take(len as int)) is Some,
        ensures
            self.matches(key, n).contains((len, self.find(key.take(len as int))->Some_0)),
        decreases n - len,
    {
        let hit = (len, self.find(key.take(len as int))->Some_0);
        self.lemma_matches_step(key, n);
        if len < n {
            self.lemma_matches_holds(key, len, (n - 1) as nat);
            let shorter = self.matches(key, (n - 1) as nat);
            let i = choose|i: int| 0 <= i < shorter.len() && shorter[i] == hit;
            self.lemma_matches_extend(key, (n - 1) as nat, n);
            assert(self.matches(key, n)[i] == hit);
        } else {
            let shorter = self.matches(key, (n - 1) as nat);
            assert(self.matches(key, n) == shorter.push(hit));
            assert(shorter.push(hit)[shorter.len() as int] == hit);
        }
    }
}

} // verus!

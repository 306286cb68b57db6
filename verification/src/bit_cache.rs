//! The set of occupied double-array slots, kept as a bit vector in 64-bit
//! words, with a search cursor that only moves over slots known to be taken.

use vstd::prelude::*;
use vstd::std_specs::bits::*;

verus! {

/// The slots below this index are reserved: the cursor never points at them.
pub const RESERVED_SLOTS: usize = 256;

/// The largest index that `BitCache::set` accepts.
pub const MAX_SLOT: usize = 0xffff_feff;

/// Whether bit `j` of the word `w` is one (`0 <= j < 64`).
pub open spec fn bit_is_set(w: u64, j: int) -> bool {
    (w >> (j as u64)) & 1u64 == 1u64
}

/// Setting bit `j` of a word sets that bit and leaves the others.
proof fn lemma_bit_after_or(w: u64, j: u64, k: u64)
    requires
        j < 64,
        k < 64,
    ensures
        bit_is_set(w | (1u64 << j), k as int) == (k == j || bit_is_set(w, k as int)),
{
    assert(((w | (1u64 << j)) >> k) & 1u64 == 1u64 <==> (k == j || (w >> k) & 1u64 == 1u64))
        by (bit_vector)
        requires
            j < 64,
            k < 64,
    ;
}

/// A bit of a word is zero or one.
proof fn lemma_bit_zero_or_one(w: u64, j: u64)
    requires
        j < 64,
    ensures
        (w >> j) & 1u64 == 0u64 || (w >> j) & 1u64 == 1u64,
{
    assert((w >> j) & 1u64 == 0u64 || (w >> j) & 1u64 == 1u64) by (bit_vector);
}

/// Bit `j` of a word shifted right by `b` is bit `b + j` of the word, and
/// zero beyond the word.
proof fn lemma_bit_of_shifted(w: u64, b: u64, j: u64)
    requires
        b < 64,
        j < 64,
    ensures
        b + j < 64 ==> (bit_is_set(w >> b, j as int) == bit_is_set(w, b + j)),
        b + j >= 64 ==> !bit_is_set(w >> b, j as int),
{
    if b + j < 64 {
        let s: u64 = (b + j) as u64;
        assert(((w >> b) >> j) & 1u64 == (w >> s) & 1u64) by (bit_vector)
            requires
                b < 64,
                j < 64,
                s == b + j,
                s < 64,
        ;
    } else {
        assert(((w >> b) >> j) & 1u64 == 0u64) by (bit_vector)
            requires
                b < 64,
                j < 64,
                b + j >= 64,
        ;
    }
}

/// No bit of the zero word is set.
proof fn lemma_zero_word(j: u64)
    requires
        j < 64,
    ensures
        !bit_is_set(0u64, j as int),
{
    assert((0u64 >> j) & 1u64 == 0u64) by (bit_vector);
}

/// Lengthens `v` to `n` words with zero words.
fn grow_words(v: &mut Vec<u64>, n: usize)
    requires
        n > old(v)@.len(),
    ensures
        final(v)@.len() == n,
        forall|k: int| 0 <= k < old(v)@.len() ==> final(v)@[k] == old(v)@[k],
        forall|k: int| old(v)@.len() <= k < n ==> final(v)@[k] == 0u64,
{
    let ghost before = v@;
    v.resize(n, 0u64);
    proof {
        assert forall|k: int| 0 <= k < before.len() implies v@[k] == before[k] by {
            assert(v@.subrange(0, before.len() as int)[k] == v@[k]);
        }
    }
}

/// A growable set of slot indices with a cursor for first-fit searches.
pub struct BitCache {
    words: Vec<u64>,
    word_idx: usize,
    bit_idx: usize,
}

impl BitCache {
    /// Whether slot `i` is marked occupied.
    pub closed spec fn contains(&self, i: int) -> bool {
        &&& 0 <= i
        &&& i / 64 < self.words@.len()
        &&& bit_is_set(self.words@[i / 64], i % 64)
    }

    /// The occupied slots.
    pub open spec fn view(&self) -> Set<int> {
        Set::new(|i: int| self.contains(i))
    }

    /// The index from which searches start.
    pub closed spec fn cursor(&self) -> int {
        self.word_idx * 64 + self.bit_idx
    }

    /// An index at and beyond which no slot is occupied.
    pub closed spec fn extent(&self) -> int {
        (self.words@.len() * 64) as int
    }

    /// The cursor stands at or above the reserved slots, and every slot between
    /// the reserved ones and the cursor is occupied.
    pub closed spec fn wf(&self) -> bool {
        &&& self.bit_idx < 64
        &&& self.word_idx >= 4
        &&& self.words@.len() * 64 <= MAX_SLOT + 1
        &&& self.word_idx * 64 + self.bit_idx <= MAX_SLOT + 1
        &&& forall|i: int| 256 <= i < self.cursor() ==> #[trigger] self.contains(i)
    }

    /// What the invariant says, in terms that callers can use.
    pub proof fn lemma_wf_facts(&self)
        requires
            self.wf(),
        ensures
            RESERVED_SLOTS <= self.cursor() <= MAX_SLOT + 1,
            0 <= self.extent() <= MAX_SLOT + 1,
            forall|i: int| RESERVED_SLOTS <= i < self.cursor() ==> #[trigger] self.contains(i),
            forall|i: int| #[trigger] self.contains(i) ==> 0 <= i < self.extent(),
            self.cursor() <= self.extent() || self.cursor() == RESERVED_SLOTS,
    {
        if self.cursor() > 256 {
            assert(self.contains(self.cursor() - 1));
        }
    }

    /// An empty set with the cursor at the first slot that is not reserved.
    pub fn new() -> (r: BitCache)
        ensures
            r.wf(),
            r@ == Set::<int>::empty(),
            forall|k: int| !#[trigger] r.contains(k),
            r.cursor() == RESERVED_SLOTS,
            r.extent() == 0,
    {
        let r = BitCache { words: Vec::new(), word_idx: 4, bit_idx: 0 };
        assert(r@ =~= Set::<int>::empty());
        r
    }

    /// The index from which searches start.
    pub fn start(&self) -> (r: usize)
        requires
            self.wf(),
        ensures
            r == self.cursor(),
    {
        self.word_idx * 64 + self.bit_idx
    }

    /// Marks slot `i` occupied.
    pub fn set(&mut self, i: usize)
        requires
            old(self).wf(),
            i <= MAX_SLOT,
        ensures
            final(self).wf(),
            final(self)@ == old(self)@.insert(i as int),
            forall|k: int| #[trigger] final(self).contains(k) == (k == i || old(self).contains(k)),
            final(self).cursor() == old(self).cursor(),
            final(self).extent() == if old(self).extent() > i { old(self).extent() } else { (i / 64 + 1) * 64 },
    {
        let w: usize = i / 64;
        let b: usize = i % 64;
        let ghost before = *self;
        if w >= self.words.len() {
            let ghost short = self.words@;
            grow_words(&mut self.words, w + 1);
            assert forall|k: int| before.contains(k) == #[trigger] self.contains(k) by {
                if 0 <= k && k / 64 < self.words@.len() && k / 64 >= short.len() {
                    lemma_zero_word((k % 64) as u64);
                }
            }
        }
        let ghost mid = *self;
        let word: u64 = self.words[w];
        let mask: u64 = 1u64 << (b as u64);
        self.words.set(w, word | mask);
        proof {
            assert forall|k: int| #[trigger] self.contains(k) == (k == i || mid.contains(k)) by {
                if 0 <= k && k / 64 < self.words@.len() {
                    if k / 64 == w {
                        lemma_bit_after_or(word, b as u64, (k % 64) as u64);
                    }
                }
            }
            assert(self@ =~= before@.insert(i as int));
            assert forall|k: int| #[trigger] self.contains(k) == (k == i || before.contains(k)) by {
                assert(before.contains(k) == mid.contains(k));
            }
        }
    }

    /// Tells whether slot `i` is occupied: 1 if it is, 0 if not.
    pub fn get(&self, i: usize) -> (r: u8)
        requires
            self.wf(),
        ensures
            r == if self.contains(i as int) { 1u8 } else { 0u8 },
    {
        let w: usize = i / 64;
        if w >= self.words.len() {
            return 0;
        }
        let b: usize = i % 64;
        let word: u64 = self.words[w];
        let bit: u64 = (word >> (b as u64)) & 1u64;
        proof {
            lemma_bit_zero_or_one(word, b as u64);
        }
        if bit == 1u64 { 1 } else { 0 }
    }

    /// Moves the cursor to the lowest free slot at or after its position,
    /// passing over whole words while they are full.
    pub fn update_start(&mut self)
        requires
            old(self).wf(),
        ensures
            final(self).wf(),
            final(self)@ == old(self)@,
            forall|k: int| #[trigger] final(self).contains(k) == old(self).contains(k),
            final(self).extent() == old(self).extent(),
            old(self).cursor() <= final(self).cursor(),
            !final(self).contains(final(self).cursor()),
            forall|i: int| old(self).cursor() <= i < final(self).cursor() ==> #[trigger] final(self).contains(i),
    {
        let ghost before = *self;
        proof {
            before.lemma_wf_facts();
        }
        if self.word_idx >= self.words.len() {
            proof {
                assert(self.cursor() / 64 >= self.words@.len());
            }
            return ;
        }
        while self.word_idx < self.words.len() && self.words[self.word_idx] == 0xffff_ffff_ffff_ffffu64
            invariant
                self.words == before.words,
                4 <= self.word_idx <= self.words@.len(),
                before.word_idx <= self.word_idx,
                before.wf(),
                forall|i: int| 256 <= i < self.word_idx * 64 ==> #[trigger] before.contains(i),
            decreases self.words@.len() - self.word_idx,
        {
            proof {
                let word = self.words@[self.word_idx as int];
                axiom_u64_trailing_ones(word);
                assert forall|i: int| 256 <= i < (self.word_idx + 1) * 64 implies #[trigger] before.contains(i) by {
                    if i >= self.word_idx * 64 {
                        assert(i / 64 == self.word_idx);
                        let j: u64 = (i % 64) as u64;
                        assert((word >> j) & 1u64 == 1u64);
                    }
                }
            }
            self.word_idx = self.word_idx + 1;
        }
        if self.word_idx < self.words.len() {
            let word: u64 = self.words[self.word_idx];
            let t: u32 = word.trailing_ones();
            proof {
                axiom_u64_trailing_ones(word);
                assert(t < 64);
            }
            self.bit_idx = t as usize;
            proof {
                assert forall|i: int| 256 <= i < self.cursor() implies #[trigger] self.contains(i) by {
                    assert(self.contains(i) == before.contains(i));
                    if i >= self.word_idx * 64 {
                        assert(i / 64 == self.word_idx);
                        let j: u64 = (i % 64) as u64;
                        assert((word >> j) & 1u64 == 1u64);
                    }
                }
                assert(self.cursor() / 64 == self.word_idx);
                assert(self.cursor() % 64 == t);
                lemma_bit_zero_or_one(word, t as u64);
                if self.cursor() < before.cursor() {
                    assert(before.contains(self.cursor()));
                }
            }
        } else {
            self.bit_idx = 0;
            proof {
                assert(self.cursor() / 64 >= self.words@.len());
                assert forall|i: int| 256 <= i < self.cursor() implies #[trigger] self.contains(i) by {
                    assert(self.contains(i) == before.contains(i));
                }
            }
        }
        proof {
            assert forall|i: int| #[trigger] self.contains(i) == before.contains(i) by {}
            assert(self@ =~= before@);
        }
    }

    /// The smallest free slot at or after the cursor plus `offset`.
    pub fn find_empty_idx(&self, offset: usize) -> (r: usize)
        requires
            self.wf(),
            self.cursor() + offset <= MAX_SLOT + 1,
        ensures
            self.cursor() + offset <= r,
            !self.contains(r as int),
            forall|i: int| self.cursor() + offset <= i < r ==> #[trigger] self.contains(i),
            r <= self.cursor() + offset || r <= self.extent(),
    {
        let start: usize = self.word_idx * 64 + self.bit_idx + offset;
        let mut w: usize = start / 64;
        let mut b: usize = start % 64;
        while w < self.words.len()
            invariant
                self.wf(),
                b < 64,
                start <= w * 64 + b,
                w * 64 + b <= start || w <= self.words@.len(),
                w * 64 + b <= start || b == 0,
                start == self.cursor() + offset,
                forall|i: int| start <= i < w * 64 + b ==> #[trigger] self.contains(i),
            decreases self.words@.len() - w,
        {
            let word: u64 = self.words[w];
            let shifted: u64 = word >> (b as u64);
            let t: u32 = shifted.trailing_ones();
            proof {
                axiom_u64_trailing_ones(shifted);
                assert(b + t <= 64) by {
                    if b + t > 64 {
                        let j: u64 = (64 - b) as u64;
                        lemma_bit_of_shifted(word, b as u64, j);
                        assert((shifted >> j) & 1u64 == 1u64);
                    }
                }
                assert forall|i: int| start <= i < w * 64 + b + t implies #[trigger] self.contains(i) by {
                    if i >= w * 64 + b {
                        let j: u64 = (i - (w * 64 + b)) as u64;
                        lemma_bit_of_shifted(word, b as u64, j);
                        assert((shifted >> j) & 1u64 == 1u64);
                        assert(i / 64 == w);
                        assert(i % 64 == b + j);
                    }
                }
            }
            if b + (t as usize) < 64 {
                proof {
                    lemma_bit_of_shifted(word, b as u64, t as u64);
                    lemma_bit_zero_or_one(shifted, t as u64);
                    let r: int = w * 64 + b + t;
                    assert(r / 64 == w);
                    assert(r % 64 == b + t);
                }
                return w * 64 + b + (t as usize);
            }
            w = w + 1;
            b = 0;
        }
        proof {
            let r: int = w * 64 + b;
            assert(r / 64 >= self.words@.len());
        }
        w * 64 + b
    }

    /// The greatest occupied slot, if there is one.
    pub fn last_index_of_one(&self) -> (r: Option<usize>)
        requires
            self.wf(),
        ensures
            match r {
                Some(i) => self.contains(i as int) && forall|k: int| k > i ==> !#[trigger] self.contains(k),
                None => forall|k: int| !#[trigger] self.contains(k),
            },
    {
        let mut w: usize = self.words.len();
        while w > 0
            invariant
                self.wf(),
                w <= self.words@.len(),
                forall|k: int| k >= w * 64 ==> !#[trigger] self.contains(k),
            decreases w,
        {
            let word: u64 = self.words[w - 1];
            if word != 0 {
                let z: u32 = word.leading_zeros();
                proof {
                    axiom_u64_leading_zeros(word);
                    let top: u64 = (63 - z) as u64;
                    lemma_bit_zero_or_one(word, top);
                    let i: int = (w - 1) * 64 + top;
                    assert(i / 64 == w - 1);
                    assert(i % 64 == top);
                    assert forall|k: int| k > i implies !#[trigger] self.contains(k) by {
                        if k < w * 64 {
                            assert(k / 64 == w - 1);
                            let j: u64 = (k % 64) as u64;
                            assert((word >> j) & 1u64 == 0u64);
                        }
                    }
                }
                return Some((w - 1) * 64 + (63 - z as usize));
            }
            proof {
                assert forall|k: int| k >= (w - 1) * 64 implies !#[trigger] self.contains(k) by {
                    if k < w * 64 {
                        assert(k / 64 == w - 1);
                        lemma_zero_word((k % 64) as u64);
                    }
                }
            }
            w = w - 1;
        }
        None
    }
}

} // verus!

use vstd::prelude::*;

verus! {

/// Number of pages tracked by one bitmap word.
pub const BITS: usize = 32;

/// Whether bit `b` of `w` is set.
pub open spec fn word_bit(w: u32, b: u32) -> bool {
    (w >> b) & 1u32 == 1u32
}

/// Number of `true` entries of `s`.
pub open spec fn count_set(s: Seq<bool>) -> nat
    decreases s.len(),
{
    if s.len() == 0 {
        0
    } else {
        count_set(s.drop_last()) + if s.last() {
            1nat
        } else {
            0nat
        }
    }
}

pub proof fn lemma_count_set_bound(s: Seq<bool>)
    ensures
        count_set(s) <= s.len(),
    decreases s.len(),
{
    if s.len() > 0 {
        lemma_count_set_bound(s.drop_last());
    }
}

pub proof fn lemma_count_set_all(s: Seq<bool>)
    requires
        forall|i: int| 0 <= i < s.len() ==> s[i],
    ensures
        count_set(s) == s.len(),
    decreases s.len(),
{
    if s.len() > 0 {
        lemma_count_set_all(s.drop_last());
    }
}

pub proof fn lemma_count_set_update(s: Seq<bool>, i: int, v: bool)
    requires
        0 <= i < s.len(),
    ensures
        count_set(s.update(i, v)) + (if s[i] {
            1int
        } else {
            0int
        }) == count_set(s) + (if v {
            1int
        } else {
            0int
        }),
    decreases s.len(),
{
    let t = s.update(i, v);
    if i == s.len() - 1 {
        assert(t.drop_last() =~= s.drop_last());
    } else {
        assert(t.drop_last() =~= s.drop_last().update(i, v));
        lemma_count_set_update(s.drop_last(), i, v);
    }
}

proof fn lemma_word_bit_set(w: u32, b: u32, j: u32)
    requires
        b < 32,
        j < 32,
    ensures
        word_bit(w | (1u32 << b), j) == (j == b || word_bit(w, j)),
        word_bit(w & !(1u32 << b), j) == (j != b && word_bit(w, j)),
        word_bit(w, b) == (w & (1u32 << b) != 0u32),
{
    assert(word_bit(w | (1u32 << b), j) == (j == b || word_bit(w, j))) by (bit_vector)
        requires
            b < 32,
            j < 32,
    ;
    assert(word_bit(w & !(1u32 << b), j) == (j != b && word_bit(w, j))) by (bit_vector)
        requires
            b < 32,
            j < 32,
    ;
    assert(word_bit(w, b) == (w & (1u32 << b) != 0u32)) by (bit_vector)
        requires
            b < 32,
    ;
}

proof fn lemma_word_bit_full(j: u32)
    requires
        j < 32,
    ensures
        word_bit(0xFFFF_FFFFu32, j),
{
    assert(word_bit(0xFFFF_FFFFu32, j)) by (bit_vector)
        requires
            j < 32,
    ;
}

/// Per-page allocation state: one bit per page (1 = allocated), packed
/// into 32-bit words, with a running count of allocated pages.
pub struct Bitmap {
    words: Vec<u32>,
    total_pages: usize,
    allocated_count: usize,
}

impl View for Bitmap {
    type V = Seq<bool>;

    /// Entry `i` is whether page `i` is allocated.
    closed spec fn view(&self) -> Seq<bool> {
        Seq::new(
            self.total_pages as nat,
            |i: int| word_bit(self.words@[i / BITS as int], (i % BITS as int) as u32),
        )
    }
}

impl Bitmap {
    /// The words cover every tracked page.
    pub closed spec fn has_storage(&self) -> bool {
        self.words@.len() * BITS >= self.total_pages
    }

    pub closed spec fn wf(&self) -> bool {
        &&& self.has_storage()
        &&& self.allocated_count == count_set(self@)
    }

    pub closed spec fn spec_total(&self) -> nat {
        self.total_pages as nat
    }

    pub closed spec fn spec_allocated(&self) -> nat {
        self.allocated_count as nat
    }

    pub proof fn lemma_wf(&self)
        requires
            self.wf(),
        ensures
            self.has_storage(),
            self@.len() == self.spec_total(),
            self.spec_allocated() == count_set(self@),
            self.spec_allocated() <= self.spec_total(),
    {
        lemma_count_set_bound(self@);
    }

    /// A bitmap over `total_pages` pages kept in `storage`, every page
    /// marked allocated.
    pub fn new(storage: Vec<u32>, total_pages: usize) -> (r: Bitmap)
        requires
            storage@.len() * BITS >= total_pages,
        ensures
            r.wf(),
            r.spec_total() == total_pages,
            r@ == Seq::new(total_pages as nat, |i: int| true),
    {
        let mut r = Bitmap { words: storage, total_pages, allocated_count: 0 };
        r.fill_allocated();
        r
    }

    /// Marks every page allocated.
    pub fn fill_allocated(&mut self)
        requires
            old(self).has_storage(),
        ensures
            final(self).wf(),
            final(self).spec_total() == old(self).spec_total(),
            final(self)@ == Seq::new(old(self).spec_total(), |i: int| true),
    {
        let n = self.words.len();
        let mut k: usize = 0;
        while k < n
            invariant
                k <= n,
                n == self.words@.len(),
                self.total_pages == old(self).total_pages,
                forall|j: int| 0 <= j < k ==> self.words@[j] == 0xFFFF_FFFFu32,
            decreases n - k,
        {
            self.words.set(k, 0xFFFF_FFFFu32);
            k = k + 1;
        }
        self.allocated_count = self.total_pages;
        proof {
            assert forall|i: int| 0 <= i < self.total_pages implies self@[i] by {
                lemma_word_bit_full((i % BITS as int) as u32);
            }
            assert(self@ =~= Seq::new(old(self).spec_total(), |i: int| true));
            lemma_count_set_all(self@);
        }
    }

    /// Number of pages tracked.
    pub fn total(&self) -> (r: usize)
        ensures
            r == self.spec_total(),
    {
        self.total_pages
    }

    /// Number of pages marked allocated.
    pub fn allocated(&self) -> (r: usize)
        ensures
            r == self.spec_allocated(),
    {
        self.allocated_count
    }

    /// Whether page `idx` is marked allocated.
    pub fn is_allocated(&self, idx: usize) -> (r: bool)
        requires
            self.wf(),
            idx < self.spec_total(),
        ensures
            r == self@[idx as int],
    {
        let w = self.words[idx / BITS];
        let b = (idx % BITS) as u32;
        proof {
            lemma_word_bit_set(w, b, b);
        }
        w & (1u32 << b) != 0
    }

    /// Sets the state of page `idx`, adjusting the count on a change.
    fn set_bit(&mut self, idx: usize, v: bool)
        requires
            old(self).wf(),
            idx < old(self).spec_total(),
        ensures
            final(self).wf(),
            final(self).spec_total() == old(self).spec_total(),
            final(self)@ == old(self)@.update(idx as int, v),
    {
        let wi = idx / BITS;
        let b = (idx % BITS) as u32;
        let w = self.words[wi];
        let mask = 1u32 << b;
        let was = w & mask != 0;
        let nw = if v {
            w | mask
        } else {
            w & !mask
        };
        let ghost before = self@;
        self.words.set(wi, nw);
        proof {
            lemma_word_bit_set(w, b, b);
            assert forall|i: int| 0 <= i < self.total_pages implies self@[i] == before.update(
                idx as int,
                v,
            )[i] by {
                if i / BITS as int == wi as int {
                    lemma_word_bit_set(w, b, (i % BITS as int) as u32);
                }
            }
            assert(self@ =~= before.update(idx as int, v));
            lemma_count_set_update(before, idx as int, v);
            lemma_count_set_bound(self@);
        }
        if was && !v {
            self.allocated_count = self.allocated_count - 1;
        } else if !was && v {
            self.allocated_count = self.allocated_count + 1;
        }
    }

    /// Marks pages `[start, start + count)` with `v`; pages past the end
    /// are ignored.
    fn mark_range(&mut self, start: usize, count: usize, v: bool)
        requires
            old(self).wf(),
        ensures
            final(self).wf(),
            final(self).spec_total() == old(self).spec_total(),
            final(self)@ == Seq::new(
                old(self)@.len(),
                |i: int|
                    if start <= i < start + count {
                        v
                    } else {
                        old(self)@[i]
                    },
            ),
    {
        let total = self.total_pages;
        let stop = if start >= total {
            start
        } else if count > total - start {
            total
        } else {
            start + count
        };
        let mut idx = start;
        while idx < stop
            invariant
                start <= idx <= stop,
                stop <= total || stop == start,
                start + count <= stop || total <= stop,
                total == self.spec_total(),
                total == old(self).spec_total(),
                self.wf(),
                self@ == Seq::new(
                    old(self)@.len(),
                    |i: int|
                        if start <= i < idx {
                            v
                        } else {
                            old(self)@[i]
                        },
                ),
            decreases stop - idx,
        {
            let ghost before = self@;
            self.set_bit(idx, v);
            idx = idx + 1;
            proof {
                assert(self@ =~= Seq::new(
                    old(self)@.len(),
                    |i: int|
                        if start <= i < idx {
                            v
                        } else {
                            old(self)@[i]
                        },
                ));
            }
        }
        proof {
            assert(self@ =~= Seq::new(
                old(self)@.len(),
                |i: int|
                    if start <= i < start + count {
                        v
                    } else {
                        old(self)@[i]
                    },
            ));
        }
    }

    /// Marks pages `[start, start + count)` free.
    pub fn mark_range_free(&mut self, start: usize, count: usize)
        requires
            old(self).wf(),
        ensures
            final(self).wf(),
            final(self).spec_total() == old(self).spec_total(),
            final(self)@ == Seq::new(
                old(self)@.len(),
                |i: int|
                    if start <= i < start + count {
                        false
                    } else {
                        old(self)@[i]
                    },
            ),
    {
        self.mark_range(start, count, false);
    }

    /// Marks pages `[start, start + count)` allocated.
    pub fn mark_range_allocated(&mut self, start: usize, count: usize)
        requires
            old(self).wf(),
        ensures
            final(self).wf(),
            final(self).spec_total() == old(self).spec_total(),
            final(self)@ == Seq::new(
                old(self)@.len(),
                |i: int|
                    if start <= i < start + count {
                        true
                    } else {
                        old(self)@[i]
                    },
            ),
    {
        self.mark_range(start, count, true);
    }
}

} // verus!

//! A first-fit allocator of blocks of splat indices.

use vstd::prelude::*;

verus! {

/// Hands out blocks of the indices `0..capacity`. Blocks are as large as the
/// runs of leaves, so the list of free spans stays short.
#[derive(Debug)]
pub struct BlockAllocator {
    capacity: usize,
    /// offset and length of the free spans, in order and with gaps between
    free: Vec<(usize, usize)>,
}

/// Whether a span of offset and length holds `i`.
spec fn span_has(span: (usize, usize), i: int) -> bool {
    span.0 <= i < span.0 + span.1
}

/// Whether one of the spans holds `i`.
spec fn spans_have(spans: Seq<(usize, usize)>, i: int) -> bool {
    exists|k: int| 0 <= k < spans.len() && span_has(#[trigger] spans[k], i)
}

/// Spans in order, with at least one index between any two.
spec fn gapped(spans: Seq<(usize, usize)>) -> bool {
    forall|j: int, k: int|
        0 <= j < k < spans.len() ==> (#[trigger] spans[j]).0 + spans[j].1 < (
        #[trigger] spans[k]).0
}

/// How many of the indices below `n` satisfy `p`.
pub open spec fn count_below(p: spec_fn(int) -> bool, n: nat) -> nat
    decreases n,
{
    if n == 0 {
        0
    } else {
        count_below(p, (n - 1) as nat) + if p(n - 1) {
            1nat
        } else {
            0nat
        }
    }
}

impl BlockAllocator {
    /// The free spans lie in `0..capacity`, in order, apart from each other and
    /// not empty; only with nothing to hand out is there an empty one.
    pub closed spec fn wf(self) -> bool {
        &&& gapped(self.free@)
        &&& forall|k: int|
            0 <= k < self.free@.len() ==> {
                &&& (#[trigger] self.free@[k]).0 + self.free@[k].1 <= self.capacity
                &&& self.free@[k].1 > 0 || self.capacity == 0
            }
    }

    /// Number of indices.
    pub closed spec fn spec_capacity(self) -> nat {
        self.capacity as nat
    }

    /// Whether index `i` is free.
    pub closed spec fn free_at(self, i: int) -> bool {
        spans_have(self.free@, i)
    }

    /// Whether the block of `len` indices from `offset` is free.
    pub open spec fn block_free(self, offset: int, len: int) -> bool {
        forall|i: int| offset <= i < offset + len ==> #[trigger] self.free_at(i)
    }

    /// Whether the block of `len` indices from `offset` is handed out.
    pub open spec fn block_taken(self, offset: int, len: int) -> bool {
        &&& 0 <= offset
        &&& offset + len <= self.spec_capacity()
        &&& forall|i: int| offset <= i < offset + len ==> !#[trigger] self.free_at(i)
    }

    /// Number of indices that are handed out.
    pub open spec fn spec_used(self) -> nat {
        count_below(|i: int| !self.free_at(i), self.spec_capacity())
    }

    /// Whether taking a block of `len` indices leaves `after` and gives `r`: the offset
    /// of the lowest free block of that length, or nothing if there is none.
    pub open spec fn takes(self, len: int, after: BlockAllocator, r: Option<usize>) -> bool {
        &&& after.spec_capacity() == self.spec_capacity()
        &&& match r {
            Some(offset) => {
                &&& len > 0
                &&& offset + len <= self.spec_capacity()
                &&& self.block_free(offset as int, len)
                &&& forall|p: int| p < offset ==> !#[trigger] self.block_free(p, len)
                &&& forall|i: int| #[trigger]
                    after.free_at(i) <==> self.free_at(i) && !(offset <= i < offset + len)
                &&& after.spec_used() == self.spec_used() + len
            },
            None => {
                &&& len > 0 ==> forall|p: int| !#[trigger] self.block_free(p, len)
                &&& after == self
            },
        }
    }

    /// Whether giving back the block of `len` indices from `offset` leaves `after`.
    pub open spec fn gives_back(self, offset: int, len: int, after: BlockAllocator) -> bool {
        &&& after.spec_capacity() == self.spec_capacity()
        &&& forall|i: int| #[trigger]
            after.free_at(i) <==> self.free_at(i) || offset <= i < offset + len
        &&& after.spec_used() == self.spec_used() - len
    }

    /// Whether every one of `capacity` indices is free, and there are no others.
    pub open spec fn is_fresh(self, capacity: int) -> bool {
        &&& self.spec_capacity() == capacity
        &&& forall|i: int| #[trigger] self.free_at(i) <==> 0 <= i < capacity
        &&& self.spec_used() == 0
    }

    /// An allocator with every index free.
    pub fn new(capacity: usize) -> (r: BlockAllocator)
        ensures
            r.wf(),
            r.is_fresh(capacity as int),
    {
        let mut free: Vec<(usize, usize)> = Vec::new();
        free.push((0, capacity));
        let r = BlockAllocator { capacity, free };
        assert forall|i: int| #[trigger] r.free_at(i) <==> 0 <= i < capacity by {
            assert(span_has(r.free@[0], i) <==> 0 <= i < capacity);
        }
        proof {
            lemma_count_none(|i: int| !r.free_at(i), 0, capacity as nat);
        }
        r
    }

    /// Number of indices.
    pub fn capacity(&self) -> (r: usize)
        ensures
            r == self.spec_capacity(),
    {
        self.capacity
    }

    /// Another allocator with the same indices free.
    pub fn copied(&self) -> (r: BlockAllocator)
        ensures
            r.wf() <==> self.wf(),
            r.spec_capacity() == self.spec_capacity(),
            forall|i: int| #[trigger] r.free_at(i) <==> self.free_at(i),
            r.spec_used() == self.spec_used(),
    {
        let mut free: Vec<(usize, usize)> = Vec::new();
        while free.len() < self.free.len()
            invariant
                free@.len() <= self.free@.len(),
                free@ == self.free@.subrange(0, free@.len() as int),
            decreases self.free@.len() - free@.len(),
        {
            let span = self.free[free.len()];
            free.push(span);
            assert(free@ =~= self.free@.subrange(0, free@.len() as int));
        }
        assert(free@ =~= self.free@);
        let r = BlockAllocator { capacity: self.capacity, free };
        assert((|i: int| !r.free_at(i)) =~= (|i: int| !self.free_at(i)));
        r
    }

    /// Takes the block of `len` free indices with the lowest offset; `None` when
    /// there is none, and for an empty block.
    pub fn allocate(&mut self, len: usize) -> (r: Option<usize>)
        requires
            old(self).wf(),
        ensures
            final(self).wf(),
            old(self).takes(len as int, *final(self), r),
    {
        if len == 0 {
            return None;
        }
        let ghost spans = self.free@;
        let mut slot: usize = 0;
        while slot < self.free.len() && self.free[slot].1 < len
            invariant
                *self == *old(self),
                spans == self.free@,
                slot <= spans.len(),
                forall|k: int| 0 <= k < slot ==> (#[trigger] spans[k]).1 < len,
            decreases spans.len() - slot,
        {
            slot = slot + 1;
        }
        assert forall|p: int| #[trigger] old(self).block_free(p, len as int) implies slot
            < spans.len() && p >= spans[slot as int].0 by {
            let k = lemma_block_in_span(spans, p, len as int, *old(self));
        }
        if slot == self.free.len() {
            return None;
        }
        let (offset, free_len) = self.free[slot];
        assert forall|i: int| offset <= i < offset + len implies #[trigger] old(self).free_at(i) by {
            assert(span_has(spans[slot as int], i));
        }
        if free_len == len {
            self.free.remove(slot);
        } else {
            self.free.set(slot, (offset + len, (free_len - len) as usize));
        }
        proof {
            let after = self.free@;
            let removed = free_len == len;
            assert forall|i: int| #[trigger] self.free_at(i) <==> old(self).free_at(i) && !(offset
                <= i < offset + len) by {
                if self.free_at(i) {
                    let k = choose|k: int| 0 <= k < after.len() && span_has(#[trigger] after[k], i);
                    let was = if removed && k >= slot {
                        k + 1
                    } else {
                        k
                    };
                    assert(span_has(spans[was], i));
                    if was != slot {
                        assert(spans[slot as int].0 == offset);
                    }
                }
                if old(self).free_at(i) && !(offset <= i < offset + len) {
                    let k = choose|k: int| 0 <= k < spans.len() && span_has(#[trigger] spans[k], i);
                    let now = if removed && k > slot {
                        k - 1
                    } else {
                        k
                    };
                    assert(span_has(after[now], i));
                }
            }
            taking_a_block_uses_its_length(*old(self), *self, offset as int, len as int);
        }
        Some(offset)
    }

    /// Gives the block of `len` indices from `offset` back. An empty block is
    /// nothing.
    pub fn free(&mut self, offset: usize, len: usize)
        requires
            old(self).wf(),
            len > 0 ==> old(self).block_taken(offset as int, len as int),
        ensures
            final(self).wf(),
            old(self).gives_back(offset as int, len as int, *final(self)),
    {
        if len == 0 {
            return;
        }
        let ghost spans = self.free@;
        let mut index: usize = 0;
        while index < self.free.len() && self.free[index].0 < offset
            invariant
                *self == *old(self),
                spans == self.free@,
                index <= spans.len(),
                forall|k: int| 0 <= k < index ==> (#[trigger] spans[k]).0 < offset,
            decreases spans.len() - index,
        {
            index = index + 1;
        }
        proof {
            assert forall|k: int| 0 <= k < spans.len() implies if k < index {
                (#[trigger] spans[k]).0 + spans[k].1 <= offset
            } else {
                offset + len <= spans[k].0
            } by {
                lemma_apart(*old(self), k, offset as int, len as int);
            }
        }
        self.free.insert(index, (offset, len));
        let ghost inserted = self.free@;
        proof {
            lemma_insert(spans, index as int, (offset, len));
            lemma_insert_loose(spans, index as int, (offset, len), self.capacity as int);
            lemma_close_right(inserted, index as int, self.capacity as int);
        }
        if index < self.free.len() - 1 {
            let (next_offset, next_len) = self.free[index + 1];
            if offset + len == next_offset {
                self.free.set(index, (offset, len + next_len));
                self.free.remove(index + 1);
                proof {
                    lemma_join(inserted, index as int);
                    assert(self.free@ =~= joined(inserted, index as int));
                }
            }
        }
        let ghost after = self.free@;
        proof {
            lemma_close_left(after, index as int, self.capacity as int);
        }
        if index > 0 {
            let (prev_offset, prev_len) = self.free[index - 1];
            let (here, here_len) = self.free[index];
            if prev_offset + prev_len == here {
                self.free.set(index - 1, (prev_offset, prev_len + here_len));
                self.free.remove(index);
                proof {
                    lemma_join(after, index - 1);
                    assert(self.free@ =~= joined(after, index - 1));
                }
            }
        }
        assert forall|i: int| #[trigger] self.free_at(i) <==> old(self).free_at(i) || offset <= i
            < offset + len by {
            assert(spans_have(inserted, i) <==> spans_have(spans, i) || offset <= i < offset + len);
        }
        proof {
            giving_a_block_back_releases_its_length(*old(self), *self, offset as int, len as int);
        }
    }

    /// Number of indices that are handed out.
    pub fn used(&self) -> (r: usize)
        requires
            self.wf(),
        ensures
            r == self.spec_used(),
    {
        let ghost spans = self.free@;
        let ghost taken = |i: int| !self.free_at(i);
        let mut left: usize = self.capacity;
        let mut end: usize = 0;
        let mut k: usize = 0;
        while k < self.free.len()
            invariant
                self.wf(),
                spans == self.free@,
                taken == (|i: int| !self.free_at(i)),
                k <= spans.len(),
                end == (if k == 0 {
                    0
                } else {
                    spans[k - 1].0 + spans[k - 1].1
                }),
                end <= self.capacity,
                left == self.capacity - end + count_below(taken, end as nat),
            decreases spans.len() - k,
        {
            let (offset, len) = self.free[k];
            proof {
                let next = offset + len;
                if k > 0 {
                    assert(spans[k - 1].0 + spans[k - 1].1 < spans[k as int].0);
                }
                assert forall|i: int| end <= i < offset implies #[trigger] taken(i) by {
                    if self.free_at(i) {
                        let j = choose|j: int|
                            0 <= j < spans.len() && span_has(#[trigger] spans[j], i);
                        if j > k {
                            assert(spans[k as int].0 + spans[k as int].1 < spans[j].0);
                        } else if j < k {
                            assert(spans[j].0 + spans[j].1 <= spans[k - 1].0 + spans[k - 1].1) by {
                                if j < k - 1 {
                                    assert(spans[j].0 + spans[j].1 < spans[k - 1].0);
                                }
                            }
                        }
                    }
                }
                lemma_count_all(taken, end as nat, offset as nat);
                assert forall|i: int| offset <= i < next implies !#[trigger] taken(i) by {
                    assert(span_has(spans[k as int], i));
                }
                lemma_count_none(taken, offset as nat, next as nat);
                lemma_count_at_most(taken, end as nat);
            }
            left = left - len;
            end = offset + len;
            k = k + 1;
        }
        proof {
            assert forall|i: int| end <= i < self.capacity implies #[trigger] taken(i) by {
                if self.free_at(i) {
                    let j = choose|j: int| 0 <= j < spans.len() && span_has(#[trigger] spans[j], i);
                    if j < k - 1 {
                        assert(spans[j].0 + spans[j].1 < spans[k - 1].0);
                    }
                }
            }
            lemma_count_all(taken, end as nat, self.capacity as nat);
        }
        left
    }
}

/// The spans with the one at `k` and the one after it made one.
spec fn joined(spans: Seq<(usize, usize)>, k: int) -> Seq<(usize, usize)> {
    spans.update(k, (spans[k].0, (spans[k].1 + spans[k + 1].1) as usize)).remove(k + 1)
}

/// Spans below `cap`, in order and not empty, with gaps between any two other
/// than the one at `at`, which may touch its neighbours.
spec fn loose(spans: Seq<(usize, usize)>, at: int, cap: int) -> bool {
    &&& forall|k: int|
        0 <= k < spans.len() ==> (#[trigger] spans[k]).0 + spans[k].1 <= cap && spans[k].1 > 0
    &&& forall|j: int, k: int|
        0 <= j < k < spans.len() && j != at && k != at ==> (#[trigger] spans[j]).0 + spans[j].1 < (
        #[trigger] spans[k]).0
    &&& forall|j: int| 0 <= j < at ==> (#[trigger] spans[j]).0 + spans[j].1 <= spans[at].0
    &&& forall|k: int| at < k < spans.len() ==> spans[at].0 + spans[at].1 <= (#[trigger] spans[k]).0
}

/// The span at `at` touches nothing after it.
spec fn closed_right(spans: Seq<(usize, usize)>, at: int) -> bool {
    forall|k: int| at < k < spans.len() ==> spans[at].0 + spans[at].1 < (#[trigger] spans[k]).0
}

/// A block put where it belongs leaves the spans loose there.
proof fn lemma_insert_loose(
    spans: Seq<(usize, usize)>,
    index: int,
    span: (usize, usize),
    cap: int,
)
    requires
        0 <= index <= spans.len(),
        gapped(spans),
        span.1 > 0,
        span.0 + span.1 <= cap,
        forall|k: int|
            0 <= k < spans.len() ==> (#[trigger] spans[k]).0 + spans[k].1 <= cap && spans[k].1 > 0,
        forall|k: int|
            0 <= k < spans.len() ==> if k < index {
                (#[trigger] spans[k]).0 + spans[k].1 <= span.0
            } else {
                span.0 + span.1 <= spans[k].0
            },
    ensures
        loose(spans.insert(index, span), index, cap),
{
    let after = spans.insert(index, span);
    assert forall|k: int| 0 <= k < after.len() implies (#[trigger] after[k]).0 + after[k].1 <= cap
        && after[k].1 > 0 by {
        if k < index {
            assert(after[k] == spans[k]);
        } else if k > index {
            assert(after[k] == spans[k - 1]);
        }
    }
    assert forall|j: int, k: int| 0 <= j < k < after.len() && j != index && k != index implies (
    #[trigger] after[j]).0 + after[j].1 < (#[trigger] after[k]).0 by {
        let was_j = if j < index {
            j
        } else {
            j - 1
        };
        let was_k = if k < index {
            k
        } else {
            k - 1
        };
        assert(after[j] == spans[was_j] && after[k] == spans[was_k]);
    }
    assert forall|j: int| 0 <= j < index implies (#[trigger] after[j]).0 + after[j].1
        <= after[index].0 by {
        assert(after[j] == spans[j]);
    }
    assert forall|k: int| index < k < after.len() implies after[index].0 + after[index].1 <= (
    #[trigger] after[k]).0 by {
        assert(after[k] == spans[k - 1]);
    }
}

/// Joining with the next span, where the two touch, closes the right side.
proof fn lemma_close_right(spans: Seq<(usize, usize)>, at: int, cap: int)
    requires
        loose(spans, at, cap),
        0 <= at < spans.len(),
        cap <= usize::MAX,
    ensures
        at + 1 < spans.len() && spans[at].0 + spans[at].1 == spans[at + 1].0 ==> {
            &&& spans[at].1 + spans[at + 1].1 <= usize::MAX
            &&& loose(joined(spans, at), at, cap)
            &&& closed_right(joined(spans, at), at)
        },
        !(at + 1 < spans.len() && spans[at].0 + spans[at].1 == spans[at + 1].0) ==> closed_right(
            spans,
            at,
        ),
{
    if at + 1 < spans.len() {
        let end = spans[at + 1].0 + spans[at + 1].1;
        assert forall|k: int| at + 1 < k < spans.len() implies end < (#[trigger] spans[k]).0 by {
            assert(spans[at + 1].0 + spans[at + 1].1 < spans[k].0);
        }
        if spans[at].0 + spans[at].1 == spans[at + 1].0 {
            let after = joined(spans, at);
            assert(after[at].0 + after[at].1 == end);
            assert forall|k: int| 0 <= k < after.len() implies (#[trigger] after[k]).0 + after[k].1
                <= cap && after[k].1 > 0 by {
                if k > at {
                    assert(after[k] == spans[k + 1]);
                } else if k < at {
                    assert(after[k] == spans[k]);
                }
            }
            assert forall|j: int, k: int| 0 <= j < k < after.len() && j != at && k != at implies (
            #[trigger] after[j]).0 + after[j].1 < (#[trigger] after[k]).0 by {
                let was_j = if j < at {
                    j
                } else {
                    j + 1
                };
                let was_k = if k < at {
                    k
                } else {
                    k + 1
                };
                assert(after[j] == spans[was_j] && after[k] == spans[was_k]);
            }
            assert forall|j: int| 0 <= j < at implies (#[trigger] after[j]).0 + after[j].1
                <= after[at].0 by {
                assert(after[j] == spans[j]);
            }
            assert forall|k: int| at < k < after.len() implies after[at].0 + after[at].1 < (
            #[trigger] after[k]).0 by {
                assert(after[k] == spans[k + 1]);
            }
        }
    }
}

/// Joining with the previous span, where the two touch, leaves gaps everywhere.
proof fn lemma_close_left(spans: Seq<(usize, usize)>, at: int, cap: int)
    requires
        loose(spans, at, cap),
        closed_right(spans, at),
        0 <= at < spans.len(),
        cap <= usize::MAX,
    ensures
        at > 0 && spans[at - 1].0 + spans[at - 1].1 == spans[at].0 ==> {
            &&& spans[at - 1].1 + spans[at].1 <= usize::MAX
            &&& gapped(joined(spans, at - 1))
            &&& forall|k: int|
                0 <= k < joined(spans, at - 1).len() ==> (#[trigger] joined(spans, at - 1)[k]).0
                    + joined(spans, at - 1)[k].1 <= cap && joined(spans, at - 1)[k].1 > 0
        },
        !(at > 0 && spans[at - 1].0 + spans[at - 1].1 == spans[at].0) ==> gapped(spans),
{
    if at > 0 {
        assert forall|j: int| 0 <= j < at - 1 implies (#[trigger] spans[j]).0 + spans[j].1
            < spans[at - 1].0 by {}
        if spans[at - 1].0 + spans[at - 1].1 == spans[at].0 {
            let after = joined(spans, at - 1);
            assert forall|k: int| 0 <= k < after.len() implies (#[trigger] after[k]).0 + after[k].1
                <= cap && after[k].1 > 0 by {
                if k >= at {
                    assert(after[k] == spans[k + 1]);
                } else if k < at - 1 {
                    assert(after[k] == spans[k]);
                }
            }
            assert forall|j: int, k: int| 0 <= j < k < after.len() implies (#[trigger] after[j]).0
                + after[j].1 < (#[trigger] after[k]).0 by {
                if k >= at {
                    assert(after[k] == spans[k + 1]);
                }
                if j >= at {
                    assert(after[j] == spans[j + 1]);
                } else if j < at - 1 {
                    assert(after[j] == spans[j]);
                }
                if k < at - 1 {
                    assert(after[k] == spans[k]);
                }
            }
        }
    }
}

/// A span of free indices and a block that is handed out lie apart.
proof fn lemma_apart(allocator: BlockAllocator, k: int, offset: int, len: int)
    requires
        allocator.wf(),
        0 <= k < allocator.free@.len(),
        len > 0,
        allocator.block_taken(offset, len),
    ensures
        allocator.free@[k].0 + allocator.free@[k].1 <= offset || offset + len
            <= allocator.free@[k].0,
        allocator.free@[k].1 > 0,
{
    let span = allocator.free@[k];
    if offset < span.0 + span.1 && span.0 < offset + len {
        let i = if span.0 < offset {
            offset
        } else {
            span.0 as int
        };
        assert(span_has(allocator.free@[k], i));
        assert(allocator.free_at(i));
    }
}

/// What the spans hold with one more among them.
proof fn lemma_insert(spans: Seq<(usize, usize)>, index: int, span: (usize, usize))
    requires
        0 <= index <= spans.len(),
    ensures
        forall|i: int| #[trigger]
            spans_have(spans.insert(index, span), i) <==> spans_have(spans, i) || span_has(span, i),
{
    let after = spans.insert(index, span);
    assert forall|i: int| #[trigger] spans_have(after, i) <==> spans_have(spans, i) || span_has(
        span,
        i,
    ) by {
        if spans_have(after, i) {
            let k = choose|k: int| 0 <= k < after.len() && span_has(#[trigger] after[k], i);
            let was = if k < index {
                k
            } else {
                k - 1
            };
            if k != index {
                assert(span_has(spans[was], i));
            }
        }
        if spans_have(spans, i) {
            let k = choose|k: int| 0 <= k < spans.len() && span_has(#[trigger] spans[k], i);
            let now = if k < index {
                k
            } else {
                k + 1
            };
            assert(span_has(after[now], i));
        }
        if span_has(span, i) {
            assert(span_has(after[index], i));
        }
    }
}

/// Two spans that touch hold the same as one.
proof fn lemma_join(spans: Seq<(usize, usize)>, k: int)
    requires
        0 <= k < spans.len() - 1,
        spans[k].0 + spans[k].1 == spans[k + 1].0,
        spans[k].1 + spans[k + 1].1 <= usize::MAX,
    ensures
        forall|i: int| #[trigger] spans_have(joined(spans, k), i) <==> spans_have(spans, i),
{
    let after = joined(spans, k);
    assert forall|i: int| #[trigger] spans_have(after, i) <==> spans_have(spans, i) by {
        if spans_have(after, i) {
            let j = choose|j: int| 0 <= j < after.len() && span_has(#[trigger] after[j], i);
            if j == k {
                assert(span_has(spans[k], i) || span_has(spans[k + 1], i));
            } else if j < k {
                assert(span_has(spans[j], i));
            } else {
                assert(span_has(spans[j + 1], i));
            }
        }
        if spans_have(spans, i) {
            let j = choose|j: int| 0 <= j < spans.len() && span_has(#[trigger] spans[j], i);
            let now = if j <= k {
                j
            } else {
                j - 1
            };
            assert(span_has(after[now], i));
        }
    }
}

/// A stretch of which every index counts.
proof fn lemma_count_all(p: spec_fn(int) -> bool, from: nat, to: nat)
    requires
        from <= to,
        forall|i: int| from <= i < to ==> #[trigger] p(i),
    ensures
        count_below(p, to) == count_below(p, from) + (to - from),
    decreases to,
{
    if from < to {
        lemma_count_all(p, from, (to - 1) as nat);
        assert(p(to - 1));
    }
}

/// A stretch of which no index counts.
proof fn lemma_count_none(p: spec_fn(int) -> bool, from: nat, to: nat)
    requires
        from <= to,
        forall|i: int| from <= i < to ==> !#[trigger] p(i),
    ensures
        count_below(p, to) == count_below(p, from),
    decreases to,
{
    if from < to {
        lemma_count_none(p, from, (to - 1) as nat);
        assert(!p(to - 1));
    }
}

/// No more than `n` of the indices below `n` count.
proof fn lemma_count_at_most(p: spec_fn(int) -> bool, n: nat)
    ensures
        count_below(p, n) <= n,
    decreases n,
{
    if n > 0 {
        lemma_count_at_most(p, (n - 1) as nat);
    }
}

/// A free block lies in one span, since there are gaps between spans.
proof fn lemma_block_in_span(
    spans: Seq<(usize, usize)>,
    offset: int,
    len: int,
    allocator: BlockAllocator,
) -> (k: int)
    requires
        len > 0,
        spans == allocator.free@,
        gapped(spans),
        allocator.block_free(offset, len),
    ensures
        0 <= k < spans.len(),
        spans[k].0 <= offset,
        offset + len <= spans[k].0 + spans[k].1,
{
    assert(allocator.free_at(offset));
    let k = choose|k: int| 0 <= k < spans.len() && span_has(#[trigger] spans[k], offset);
    let end = spans[k].0 + spans[k].1;
    if end < offset + len {
        assert(allocator.free_at(end));
        let j = choose|j: int| 0 <= j < spans.len() && span_has(#[trigger] spans[j], end);
        assert(spans[j].0 <= end < spans[j].0 + spans[j].1);
    }
    k
}

/// Removing a stretch of counted indices takes its length off the count.
proof fn lemma_count_without(
    p: spec_fn(int) -> bool,
    q: spec_fn(int) -> bool,
    offset: int,
    len: int,
    n: nat,
)
    requires
        0 <= offset,
        0 <= len,
        forall|i: int| offset <= i < offset + len ==> #[trigger] p(i),
        forall|i: int| #[trigger] q(i) <==> p(i) && !(offset <= i < offset + len),
    ensures
        offset + len <= n ==> count_below(p, n) == count_below(q, n) + len,
        offset <= n < offset + len ==> count_below(p, n) == count_below(q, n) + (n - offset),
        n < offset ==> count_below(p, n) == count_below(q, n),
    decreases n,
{
    if n > 0 {
        lemma_count_without(p, q, offset, len, (n - 1) as nat);
        assert(q(n - 1) <==> p(n - 1) && !(offset <= n - 1 < offset + len));
        if offset <= n - 1 < offset + len {
            assert(p(n - 1));
        }
    }
}

/// Taking a free block raises the number of used indices by its length.
pub proof fn taking_a_block_uses_its_length(
    before: BlockAllocator,
    after: BlockAllocator,
    offset: int,
    len: int,
)
    requires
        0 <= offset,
        0 <= len,
        offset + len <= before.spec_capacity(),
        after.spec_capacity() == before.spec_capacity(),
        before.block_free(offset, len),
        forall|i: int| #[trigger]
            after.free_at(i) <==> before.free_at(i) && !(offset <= i < offset + len),
    ensures
        after.spec_used() == before.spec_used() + len,
{
    let p = |i: int| !after.free_at(i);
    let q = |i: int| !before.free_at(i);
    assert forall|i: int| #[trigger] q(i) <==> p(i) && !(offset <= i < offset + len) by {
        assert(after.free_at(i) <==> before.free_at(i) && !(offset <= i < offset + len));
    }
    assert forall|i: int| offset <= i < offset + len implies #[trigger] p(i) by {
        assert(after.free_at(i) <==> before.free_at(i) && !(offset <= i < offset + len));
    }
    lemma_count_without(p, q, offset, len, before.spec_capacity());
}

/// Giving a block back lowers the number of used indices by its length.
pub proof fn giving_a_block_back_releases_its_length(
    before: BlockAllocator,
    after: BlockAllocator,
    offset: int,
    len: int,
)
    requires
        0 <= len,
        before.block_taken(offset, len),
        after.spec_capacity() == before.spec_capacity(),
        forall|i: int| #[trigger]
            after.free_at(i) <==> before.free_at(i) || offset <= i < offset + len,
    ensures
        after.spec_used() == before.spec_used() - len,
{
    let p = |i: int| !before.free_at(i);
    let q = |i: int| !after.free_at(i);
    assert forall|i: int| #[trigger] q(i) <==> p(i) && !(offset <= i < offset + len) by {
        assert(after.free_at(i) <==> before.free_at(i) || offset <= i < offset + len);
    }
    assert forall|i: int| offset <= i < offset + len implies #[trigger] p(i) by {
        assert(!before.free_at(i));
    }
    lemma_count_without(p, q, offset, len, before.spec_capacity());
}

/// Giving back the block that was just taken leaves exactly the indices free
/// that were free before.
pub proof fn giving_back_undoes_taking(
    before: BlockAllocator,
    taken: BlockAllocator,
    after: BlockAllocator,
    offset: int,
    len: int,
    i: int,
)
    requires
        before.block_free(offset, len),
        forall|j: int| #[trigger]
            taken.free_at(j) <==> before.free_at(j) && !(offset <= j < offset + len),
        forall|j: int| #[trigger]
            after.free_at(j) <==> taken.free_at(j) || offset <= j < offset + len,
    ensures
        after.free_at(i) <==> before.free_at(i),
{
    assert(taken.free_at(i) <==> before.free_at(i) && !(offset <= i < offset + len));
}

/// A block that is taken shares no index with a block that was handed out
/// before, and leaves that block handed out.
pub proof fn blocks_never_overlap(
    before: BlockAllocator,
    after: BlockAllocator,
    offset: int,
    len: int,
    other: int,
    other_len: int,
)
    requires
        len > 0,
        other_len > 0,
        after.spec_capacity() == before.spec_capacity(),
        before.block_free(offset, len),
        before.block_taken(other, other_len),
        forall|i: int| #[trigger]
            after.free_at(i) <==> before.free_at(i) && !(offset <= i < offset + len),
    ensures
        offset + len <= other || other + other_len <= offset,
        after.block_taken(other, other_len),
{
    if other < offset + len && offset < other + other_len {
        let i = if other < offset {
            offset
        } else {
            other
        };
        assert(before.free_at(i));
    }
}

/// No more indices are used than there are.
pub proof fn used_within_capacity(allocator: BlockAllocator)
    ensures
        allocator.spec_used() <= allocator.spec_capacity(),
{
    lemma_count_at_most(|i: int| !allocator.free_at(i), allocator.spec_capacity());
}

/// What is free lies inside the capacity.
pub proof fn free_lies_inside(allocator: BlockAllocator, i: int)
    requires
        allocator.wf(),
        allocator.free_at(i),
    ensures
        0 <= i < allocator.spec_capacity(),
{
}

/// There are no more indices than numbers for them.
pub proof fn lemma_capacity_fits(allocator: BlockAllocator)
    ensures
        allocator.spec_capacity() <= usize::MAX,
{
}

/// Taking a block and giving it back leaves everything as it was, and so the next
/// block of that length is the same one.
pub proof fn taking_and_giving_back_cancel(
    before: BlockAllocator,
    len: int,
    taken: BlockAllocator,
    offset: usize,
    after: BlockAllocator,
    again: BlockAllocator,
    r: Option<usize>,
    i: int,
)
    requires
        before.takes(len, taken, Some(offset)),
        taken.gives_back(offset as int, len, after),
        after.takes(len, again, r),
    ensures
        after.free_at(i) <==> before.free_at(i),
        after.spec_used() == before.spec_used(),
        after.spec_capacity() == before.spec_capacity(),
        r == Some(offset),
{
    assert forall|j: int| #[trigger] after.free_at(j) <==> before.free_at(j) by {
        assert(taken.free_at(j) <==> before.free_at(j) && !(offset <= j < offset + len));
        if offset <= j < offset + len {
            assert(before.free_at(j));
        }
    }
    assert(after.block_free(offset as int, len));
    match r {
        Some(o) => {
            if o < offset {
                assert(after.block_free(o as int, len));
                assert(before.block_free(o as int, len)) by {
                    assert forall|j: int| o <= j < o + len implies #[trigger] before.free_at(j) by {
                        assert(after.free_at(j));
                    }
                }
            }
            if offset < o {
                assert(!after.block_free(offset as int, len));
            }
        },
        None => {
            assert(!after.block_free(offset as int, len));
        },
    }
}

/// Blocks that are taken one after the other lie inside the capacity and share no
/// index; what the first took is free for nobody.
pub proof fn taken_blocks_are_apart(
    before: BlockAllocator,
    len: int,
    middle: BlockAllocator,
    offset: usize,
    other_len: int,
    after: BlockAllocator,
    other: usize,
    i: int,
)
    requires
        before.takes(len, middle, Some(offset)),
        middle.takes(other_len, after, Some(other)),
    ensures
        offset + len <= before.spec_capacity(),
        other + other_len <= before.spec_capacity(),
        offset + len <= other || other + other_len <= offset,
        offset <= i < offset + len || other <= i < other + other_len ==> before.free_at(i)
            && !after.free_at(i),
        !(offset <= i < offset + len || other <= i < other + other_len) ==> (after.free_at(i)
            <==> before.free_at(i)),
        after.spec_used() == before.spec_used() + len + other_len,
{
    assert(after.free_at(i) <==> middle.free_at(i) && !(other <= i < other + other_len));
    assert(middle.free_at(i) <==> before.free_at(i) && !(offset <= i < offset + len));
    if !(offset + len <= other || other + other_len <= offset) {
        let j = if other < offset {
            offset as int
        } else {
            other as int
        };
        assert(middle.free_at(j) <==> before.free_at(j) && !(offset <= j < offset + len));
        assert(middle.free_at(j));
    }
    if other <= i < other + other_len {
        assert(middle.free_at(i));
    }
    if offset <= i < offset + len {
        assert(before.free_at(i));
    }
}

/// A block is found exactly if enough indices in a row are free, and as low as it can
/// be: a shorter one is found no higher.
pub proof fn blocks_are_found_lowest(
    before: BlockAllocator,
    len: int,
    after: BlockAllocator,
    r: Option<usize>,
    shorter: int,
    instead: BlockAllocator,
    s: Option<usize>,
    p: int,
)
    requires
        before.takes(len, after, r),
        before.takes(shorter, instead, s),
        0 < shorter <= len,
    ensures
        (forall|i: int| p <= i < p + len ==> #[trigger] before.free_at(i)) ==> (r matches Some(
            offset,
        ) && offset <= p),
        r matches Some(offset) ==> (forall|i: int|
            offset <= i < offset + len ==> #[trigger] before.free_at(i)),
        r matches Some(offset) ==> (s matches Some(lower) && lower <= offset),
{
    if before.block_free(p, len) {
        match r {
            Some(offset) => {
                if p < offset {
                    assert(!before.block_free(p, len));
                }
            },
            None => {},
        }
    }
    if let Some(offset) = r {
        assert(before.block_free(offset as int, shorter));
        match s {
            Some(lower) => {
                if offset < lower {
                    assert(!before.block_free(offset as int, shorter));
                }
            },
            None => {},
        }
    }
}

/// Giving a block back makes room for it: right afterwards a block of its length is
/// found at its place or lower.
pub proof fn given_back_blocks_can_be_taken(
    before: BlockAllocator,
    offset: int,
    len: int,
    after: BlockAllocator,
    again: BlockAllocator,
    r: Option<usize>,
)
    requires
        len > 0,
        before.gives_back(offset, len, after),
        after.takes(len, again, r),
    ensures
        r matches Some(found) && found <= offset,
{
    assert(after.block_free(offset, len)) by {
        assert forall|i: int| offset <= i < offset + len implies #[trigger] after.free_at(i) by {}
    }
    match r {
        Some(found) => {
            if offset < found {
                assert(!after.block_free(offset, len));
            }
        },
        None => {},
    }
}

/// Counting goes index by index: nothing counts below zero, and one index more counts
/// one more exactly if it is one of those counted.
pub proof fn counting_goes_index_by_index(p: spec_fn(int) -> bool, n: nat)
    ensures
        count_below(p, 0) == 0,
        count_below(p, n + 1) == count_below(p, n) + (if p(n as int) {
            1int
        } else {
            0int
        }),
        count_below(p, n) <= n,
        count_below(p, n) == n <==> forall|i: int| 0 <= i < n ==> #[trigger] p(i),
        count_below(p, n) == 0 <==> forall|i: int| 0 <= i < n ==> !#[trigger] p(i),
    decreases n,
{
    if n > 0 {
        counting_goes_index_by_index(p, (n - 1) as nat);
        assert(p(n - 1) || !p(n - 1));
    }
}

/// Nothing is taken of a fresh allocator, and a block of any length up to its
/// capacity starts at its first index; a longer one is not found.
pub proof fn fresh_allocators_hold_their_capacity(
    fresh: BlockAllocator,
    capacity: int,
    len: int,
    after: BlockAllocator,
    r: Option<usize>,
)
    requires
        fresh.is_fresh(capacity),
        fresh.takes(len, after, r),
        0 < len,
    ensures
        fresh.spec_used() == 0,
        len <= capacity ==> r == Some(0usize),
        len > capacity ==> r is None,
{
    if len <= capacity {
        assert(fresh.block_free(0, len));
        match r {
            Some(offset) => {
                if offset > 0 {
                    assert(!fresh.block_free(0, len));
                }
            },
            None => {
                assert(!fresh.block_free(0, len));
            },
        }
    } else if let Some(offset) = r {
        assert(fresh.free_at(offset + len - 1));
    }
}

} // verus!

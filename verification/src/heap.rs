//! Fixed-capacity best-first heaps.
//!
//! A bounded heap retains the `capacity` best-scoring candidates offered so
//! far: below capacity every offer is admitted; at capacity a new candidate
//! is admitted, and the weakest retained one evicted, only when the new
//! score is strictly better than the weakest retained score. Contents are
//! kept ordered best-first, with ties left in admission order.

use vstd::prelude::*;
use vstd::multiset::Multiset;
use crate::order::{ScoredCandidate, beats, no_worse, sorted_best_first, strictly_better};

verus! {

broadcast use vstd::seq_lib::group_to_multiset_ensures, vstd::multiset::group_multiset_axioms;

/// Where an offered candidate lands in a best-first-sorted sequence: after
/// every entry whose score is at least as good as its own, so that equal
/// scores stay in admission order.
pub open spec fn insertion_point(
    keep_largest: bool,
    s: Seq<ScoredCandidate>,
    x: ScoredCandidate,
) -> int
    decreases s.len(),
{
    if s.len() > 0 && no_worse(keep_largest, s[0].score, x.score) {
        1 + insertion_point(keep_largest, s.drop_first(), x)
    } else {
        0
    }
}

/// One offer to a bounded best-first sequence of the given capacity: the
/// candidate is put in score order, and if that overflows the capacity the
/// weakest entry (the last) is dropped again.
pub open spec fn offer(
    keep_largest: bool,
    s: Seq<ScoredCandidate>,
    x: ScoredCandidate,
    cap: nat,
) -> Seq<ScoredCandidate> {
    let grown = s.insert(insertion_point(keep_largest, s, x), x);
    if grown.len() > cap {
        grown.drop_last()
    } else {
        grown
    }
}

/// The bounded-heap invariant: `kept` is drawn from `offered`, holds
/// `cap` entries as soon as that many were offered (all of them before),
/// and every entry it holds scores at least as well as everything offered
/// but not held.
pub open spec fn retains_best(
    keep_largest: bool,
    kept: Seq<ScoredCandidate>,
    offered: Multiset<ScoredCandidate>,
    cap: nat,
) -> bool {
    &&& kept.to_multiset().subset_of(offered)
    &&& kept.len() == if offered.len() < cap {
        offered.len()
    } else {
        cap
    }
    &&& forall|d: ScoredCandidate, i: int|
        #![trigger offered.sub(kept.to_multiset()).count(d), kept[i]]
        offered.sub(kept.to_multiset()).count(d) > 0 && 0 <= i < kept.len() ==> no_worse(
            keep_largest,
            kept[i].score,
            d.score,
        )
}

/// The insertion point is in range, everything before it is at least as
/// good as the offered score, and the entry at it (if any) is strictly
/// beaten by the offered score.
pub proof fn lemma_insertion_point(keep_largest: bool, s: Seq<ScoredCandidate>, x: ScoredCandidate)
    ensures
        0 <= insertion_point(keep_largest, s, x) <= s.len(),
        forall|j: int|
            0 <= j < insertion_point(keep_largest, s, x) ==> no_worse(
                keep_largest,
                s[j].score,
                x.score,
            ),
        insertion_point(keep_largest, s, x) < s.len() ==> strictly_better(
            keep_largest,
            x.score,
            s[insertion_point(keep_largest, s, x)].score,
        ),
    decreases s.len(),
{
    let ip = insertion_point(keep_largest, s, x);
    if s.len() > 0 && no_worse(keep_largest, s[0].score, x.score) {
        lemma_insertion_point(keep_largest, s.drop_first(), x);
        assert forall|j: int| 0 <= j < ip implies no_worse(keep_largest, s[j].score, x.score) by {
            if j > 0 {
                assert(s.drop_first()[j - 1] == s[j]);
            }
        }
        if ip < s.len() {
            assert(s.drop_first()[ip - 1] == s[ip]);
        }
    }
}

/// Any position with the insertion point's characteristic properties is
/// the insertion point.
pub proof fn lemma_insertion_point_unique(
    keep_largest: bool,
    s: Seq<ScoredCandidate>,
    x: ScoredCandidate,
    p: int,
)
    requires
        0 <= p <= s.len(),
        forall|j: int| 0 <= j < p ==> no_worse(keep_largest, s[j].score, x.score),
        p < s.len() ==> strictly_better(keep_largest, x.score, s[p].score),
    ensures
        p == insertion_point(keep_largest, s, x),
{
    lemma_insertion_point(keep_largest, s, x);
    let ip = insertion_point(keep_largest, s, x);
    if p < ip {
        assert(no_worse(keep_largest, s[p].score, x.score));
    }
    if p > ip {
        assert(no_worse(keep_largest, s[ip].score, x.score));
    }
}

/// Inserting at the insertion point keeps the sequence sorted and adds the
/// offered candidate to its contents.
pub proof fn lemma_insert_at_point(keep_largest: bool, s: Seq<ScoredCandidate>, x: ScoredCandidate)
    requires
        sorted_best_first(keep_largest, s),
    ensures
        sorted_best_first(
            keep_largest,
            s.insert(insertion_point(keep_largest, s, x), x),
        ),
        s.insert(insertion_point(keep_largest, s, x), x).to_multiset() == s.to_multiset().insert(
            x,
        ),
{
    lemma_insertion_point(keep_largest, s, x);
    let ip = insertion_point(keep_largest, s, x);
    let grown = s.insert(ip, x);
    s.insert_ensures(ip, x);
    assert forall|i: int, j: int| 0 <= i < j < grown.len() implies no_worse(
        keep_largest,
        grown[i].score,
        grown[j].score,
    ) by {
        if i < ip {
            assert(grown[i] == s[i]);
        } else if i == ip {
            assert(grown[i] == x);
        } else {
            assert(grown[i] == s[i - 1]);
        }
        if j < ip {
            assert(grown[j] == s[j]);
        } else if j == ip {
            assert(grown[j] == x);
        } else {
            assert(grown[j] == s[j - 1]);
        }
        if i < ip && j == ip {
            assert(no_worse(keep_largest, s[i].score, x.score));
        }
        if i < ip && j > ip && i < j - 1 {
            assert(no_worse(keep_largest, s[i].score, s[j - 1].score));
        }
        if i == ip && j > ip {
            assert(strictly_better(keep_largest, x.score, s[ip].score));
            if ip < j - 1 {
                assert(no_worse(keep_largest, s[ip].score, s[j - 1].score));
            }
        }
        if i > ip && i - 1 < j - 1 {
            assert(no_worse(keep_largest, s[i - 1].score, s[j - 1].score));
        }
    }
}

/// Insert an offered candidate into a sorted vector at its insertion
/// point, scanning from the best end.
fn insert_sorted(items: &mut Vec<ScoredCandidate>, keep_largest: bool, x: ScoredCandidate)
    requires
        old(items)@.len() < usize::MAX,
    ensures
        final(items)@ == old(items)@.insert(
            insertion_point(keep_largest, old(items)@, x),
            x,
        ),
{
    let ghost s = items@;
    let mut idx: usize = 0;
    while idx < items.len() && !(keep_largest && x.score > items[idx].score) && !(!keep_largest
        && x.score < items[idx].score)
        invariant
            items@ == s,
            0 <= idx <= s.len(),
            forall|j: int| 0 <= j < idx ==> no_worse(keep_largest, s[j].score, x.score),
        decreases s.len() - idx,
    {
        idx += 1;
    }
    proof {
        lemma_insertion_point_unique(keep_largest, s, x, idx as int);
    }
    items.insert(idx, x);
}

/// One bounded offer on a sorted vector: the executable form of `offer`.
fn bounded_push(
    items: &mut Vec<ScoredCandidate>,
    cap: usize,
    keep_largest: bool,
    x: ScoredCandidate,
)
    requires
        sorted_best_first(keep_largest, old(items)@),
        old(items)@.len() <= cap,
    ensures
        final(items)@ == offer(keep_largest, old(items)@, x, cap as nat),
        sorted_best_first(keep_largest, final(items)@),
        final(items)@.len() <= cap,
{
    let ghost s = items@;
    proof {
        lemma_insertion_point(keep_largest, s, x);
        lemma_insert_at_point(keep_largest, s, x);
    }
    let ghost ip = insertion_point(keep_largest, s, x);
    if items.len() < cap {
        insert_sorted(items, keep_largest, x);
    } else if cap == 0 {
        proof {
            assert(offer(keep_largest, s, x, cap as nat) =~= s);
        }
    } else {
        let worst = items[cap - 1];
        if beats(keep_largest, x.score, worst.score) {
            proof {
                // The offered candidate beats the worst entry, so it lands
                // strictly before the end.
                if ip == cap {
                    assert(no_worse(keep_largest, s[cap - 1].score, x.score));
                }
            }
            items.remove(cap - 1);
            proof {
                assert(items@ =~= s.drop_last());
            }
            let ghost u = items@;
            proof {
                s.insert_ensures(ip, x);
                u.insert_ensures(ip, x);
                lemma_insertion_point_unique(keep_largest, u, x, ip);
            }
            insert_sorted(items, keep_largest, x);
            proof {
                assert(items@ =~= s.insert(ip, x).drop_last());
                lemma_insert_at_point(keep_largest, s, x);
                assert forall|i: int, j: int| 0 <= i < j < items@.len() implies no_worse(
                    keep_largest,
                    items@[i].score,
                    items@[j].score,
                ) by {
                    assert(items@[i] == s.insert(ip, x)[i]);
                    assert(items@[j] == s.insert(ip, x)[j]);
                }
            }
        } else {
            proof {
                // The offered candidate beats nothing: it would land at
                // the very end and be dropped again.
                if ip < s.len() {
                    assert(no_worse(keep_largest, s[ip].score, s[s.len() - 1].score));
                }
                assert(ip == s.len());
                s.insert_ensures(ip, x);
                assert(offer(keep_largest, s, x, cap as nat) =~= s);
            }
        }
    }
}


/// Law: one offer preserves the bounded-heap retention invariant — if a
/// sorted sequence holds exactly the best `cap` of everything offered so
/// far, it still does after the next offer is folded in.
pub proof fn lemma_offer_retains_best(
    keep_largest: bool,
    s: Seq<ScoredCandidate>,
    offered: Multiset<ScoredCandidate>,
    x: ScoredCandidate,
    cap: nat,
)
    requires
        sorted_best_first(keep_largest, s),
        s.len() <= cap,
        retains_best(keep_largest, s, offered, cap),
    ensures
        retains_best(keep_largest, offer(keep_largest, s, x, cap), offered.insert(x), cap),
{
    lemma_insertion_point(keep_largest, s, x);
    lemma_insert_at_point(keep_largest, s, x);
    let ip = insertion_point(keep_largest, s, x);
    let grown = s.insert(ip, x);
    let kept = offer(keep_largest, s, x, cap);
    let off2 = offered.insert(x);
    s.insert_ensures(ip, x);
    assert(off2.len() == offered.len() + 1);
    assert(grown.to_multiset() == s.to_multiset().insert(x));
    assert(s.to_multiset().len() == s.len());
    if s.len() < cap {
        assert(kept == grown);
        assert(offered.len() == s.len());
        assert(offered.sub(s.to_multiset()).len() == offered.len() - s.len());
        assert forall|v: ScoredCandidate| offered.count(v) == s.to_multiset().count(v) by {
            assert(offered.sub(s.to_multiset()).count(v) <= offered.sub(s.to_multiset()).len());
        }
        assert(offered =~= s.to_multiset());
        assert(kept.to_multiset() =~= off2);
        assert(kept.len() == grown.to_multiset().len());
        assert forall|d: ScoredCandidate, i: int|
            off2.sub(kept.to_multiset()).count(d) > 0 && 0 <= i < kept.len() implies no_worse(
            keep_largest,
            kept[i].score,
            d.score,
        ) by {
            assert(off2.sub(kept.to_multiset()).count(d) == 0);
        }
    } else {
        assert(s.len() == cap);
        assert(offered.len() >= cap);
        let w = s[s.len() - 1];
        if cap > 0 && strictly_better(keep_largest, x.score, w.score) {
            // The offer is admitted and the old worst entry evicted.
            if ip == cap {
                assert(no_worse(keep_largest, s[cap - 1].score, x.score));
            }
            assert(ip < cap);
            assert(grown.len() == cap + 1);
            assert(kept == grown.drop_last());
            assert(grown[cap as int] == w);
            assert(kept.len() == cap);
            assert(kept =~= grown.remove(cap as int));
            assert(kept.to_multiset() == grown.to_multiset().remove(w));
            assert forall|v: ScoredCandidate| kept.to_multiset().count(v) <= off2.count(v) by {
                assert(s.to_multiset().count(v) <= offered.count(v));
            }
            assert forall|d: ScoredCandidate, i: int|
                off2.sub(kept.to_multiset()).count(d) > 0 && 0 <= i < kept.len() implies no_worse(
                keep_largest,
                kept[i].score,
                d.score,
            ) by {
                let y = kept[i];
                assert(kept.contains(y));
                assert(kept.to_multiset().count(y) > 0);
                if d != w {
                    // Everything dropped besides the evicted worst was
                    // already dropped before the offer.
                    assert(off2.count(d) == offered.count(d) + if d == x {
                        1int
                    } else {
                        0
                    });
                    assert(kept.to_multiset().count(d) == s.to_multiset().count(d) + if d == x {
                        1int
                    } else {
                        0
                    });
                    assert(offered.sub(s.to_multiset()).count(d) > 0);
                    assert(no_worse(keep_largest, s[s.len() - 1].score, d.score));
                }
                if y == x {
                    if d != w {
                        assert(no_worse(keep_largest, w.score, d.score));
                    }
                    assert(no_worse(keep_largest, y.score, d.score));
                } else {
                    assert(kept.to_multiset().count(y) <= s.to_multiset().count(y));
                    assert(s.contains(y));
                    let j = choose|j: int| 0 <= j < s.len() && s[j] == y;
                    if j < s.len() - 1 {
                        assert(no_worse(keep_largest, s[j].score, s[s.len() - 1].score));
                    }
                    if d != w {
                        assert(no_worse(keep_largest, s[j].score, d.score));
                    }
                }
            }
        } else if cap == 0 {
            assert(kept =~= s);
            assert(kept.len() == 0);
            assert forall|v: ScoredCandidate| kept.to_multiset().count(v) <= off2.count(v) by {
                assert(s.to_multiset().count(v) == 0);
            }
        } else {
            // The offer beats nothing retained and is dropped again.
            if ip < s.len() {
                assert(no_worse(keep_largest, s[ip].score, s[s.len() - 1].score));
            }
            assert(ip == s.len());
            assert(grown.len() == cap + 1);
            assert(kept == grown.drop_last());
            assert(kept =~= s);
            assert forall|d: ScoredCandidate, i: int|
                off2.sub(kept.to_multiset()).count(d) > 0 && 0 <= i < kept.len() implies no_worse(
                keep_largest,
                kept[i].score,
                d.score,
            ) by {
                assert(kept[i] == s[i]);
                if i < s.len() - 1 {
                    assert(no_worse(keep_largest, s[i].score, w.score));
                }
                if d == x {
                    assert(no_worse(keep_largest, s[i].score, x.score));
                } else {
                    assert(off2.count(d) == offered.count(d));
                    assert(offered.sub(s.to_multiset()).count(d) > 0);
                    assert(no_worse(keep_largest, s[i].score, d.score));
                }
            }
        }
    }
}

/// A fixed-capacity keep-smallest heap: it retains the `capacity`
/// smallest-scoring candidates offered so far, ordered smallest-first.
pub struct MinHeap {
    max_capacity: usize,
    items: Vec<ScoredCandidate>,
}

impl View for MinHeap {
    type V = Seq<ScoredCandidate>;

    closed spec fn view(&self) -> Seq<ScoredCandidate> {
        self.items@
    }
}

impl MinHeap {
    /// The fixed capacity the heap was created with.
    pub closed spec fn capacity(self) -> usize {
        self.max_capacity
    }

    /// Contents are ordered best-first (smallest score first) and within
    /// capacity.
    pub open spec fn wf(self) -> bool {
        sorted_best_first(false, self@) && self@.len() <= self.capacity()
    }

    pub fn new(n: usize) -> (h: MinHeap)
        ensures
            h.wf(),
            h@ == Seq::<ScoredCandidate>::empty(),
            h.capacity() == n,
    {
        MinHeap { max_capacity: n, items: Vec::new() }
    }

    pub fn len(&self) -> (n: usize)
        ensures
            n == self@.len(),
    {
        self.items.len()
    }

    pub fn push(&mut self, item: ScoredCandidate)
        requires
            old(self).wf(),
        ensures
            final(self).wf(),
            final(self).capacity() == old(self).capacity(),
            final(self)@ == offer(false, old(self)@, item, old(self).capacity() as nat),
    {
        bounded_push(&mut self.items, self.max_capacity, false, item);
    }

    pub fn pop(&mut self) -> (r: Option<ScoredCandidate>)
        requires
            old(self).wf(),
        ensures
            final(self).wf(),
            final(self).capacity() == old(self).capacity(),
            old(self)@.len() == 0 ==> r is None && final(self)@ == old(self)@,
            old(self)@.len() > 0 ==> r == Some(old(self)@.first()) && final(self)@ == old(self)@.drop_first(),
    {
        if self.items.len() == 0 {
            None
        } else {
            let v = self.items.remove(0);
            proof {
                assert(self.items@ =~= old(self)@.drop_first());
            }
            Some(v)
        }
    }

    /// Drain the heap: hand back its contents, ordered best-first, and
    /// leave it empty.
    pub fn output(&mut self) -> (r: Vec<ScoredCandidate>)
        ensures
            r@ == old(self)@,
            final(self)@ == Seq::<ScoredCandidate>::empty(),
            final(self).capacity() == old(self).capacity(),
            final(self).wf(),
    {
        let mut taken: Vec<ScoredCandidate> = Vec::new();
        core::mem::swap(&mut taken, &mut self.items);
        taken
    }
}

/// A fixed-capacity keep-largest heap: it retains the `capacity`
/// largest-scoring candidates offered so far, ordered largest-first.
pub struct MaxHeap {
    max_capacity: usize,
    items: Vec<ScoredCandidate>,
}

impl View for MaxHeap {
    type V = Seq<ScoredCandidate>;

    closed spec fn view(&self) -> Seq<ScoredCandidate> {
        self.items@
    }
}

impl MaxHeap {
    /// The fixed capacity the heap was created with.
    pub closed spec fn capacity(self) -> usize {
        self.max_capacity
    }

    /// Contents are ordered best-first (largest score first) and within
    /// capacity.
    pub open spec fn wf(self) -> bool {
        sorted_best_first(true, self@) && self@.len() <= self.capacity()
    }

    pub fn new(n: usize) -> (h: MaxHeap)
        ensures
            h.wf(),
            h@ == Seq::<ScoredCandidate>::empty(),
            h.capacity() == n,
    {
        MaxHeap { max_capacity: n, items: Vec::new() }
    }

    pub fn len(&self) -> (n: usize)
        ensures
            n == self@.len(),
    {
        self.items.len()
    }

    pub fn push(&mut self, item: ScoredCandidate)
        requires
            old(self).wf(),
        ensures
            final(self).wf(),
            final(self).capacity() == old(self).capacity(),
            final(self)@ == offer(true, old(self)@, item, old(self).capacity() as nat),
    {
        bounded_push(&mut self.items, self.max_capacity, true, item);
    }

    pub fn pop(&mut self) -> (r: Option<ScoredCandidate>)
        requires
            old(self).wf(),
        ensures
            final(self).wf(),
            final(self).capacity() == old(self).capacity(),
            old(self)@.len() == 0 ==> r is None && final(self)@ == old(self)@,
            old(self)@.len() > 0 ==> r == Some(old(self)@.first()) && final(self)@ == old(self)@.drop_first(),
    {
        if self.items.len() == 0 {
            None
        } else {
            let v = self.items.remove(0);
            proof {
                assert(self.items@ =~= old(self)@.drop_first());
            }
            Some(v)
        }
    }

    /// Drain the heap: hand back its contents, ordered best-first, and
    /// leave it empty.
    pub fn output(&mut self) -> (r: Vec<ScoredCandidate>)
        ensures
            r@ == old(self)@,
            final(self)@ == Seq::<ScoredCandidate>::empty(),
            final(self).capacity() == old(self).capacity(),
            final(self).wf(),
    {
        let mut taken: Vec<ScoredCandidate> = Vec::new();
        core::mem::swap(&mut taken, &mut self.items);
        taken
    }
}

/// The heap configuration an algorithm selects: keep-smallest for
/// distances, keep-largest for similarities.
pub enum AlgorithmHeapType {
    MIN(MinHeap),
    MAX(MaxHeap),
}

impl AlgorithmHeapType {
    /// The direction this heap keeps: true for keep-largest.
    pub open spec fn keep_largest(self) -> bool {
        self is MAX
    }

    /// The retained candidates, ordered best-first.
    pub open spec fn contents(self) -> Seq<ScoredCandidate> {
        match self {
            AlgorithmHeapType::MIN(h) => h@,
            AlgorithmHeapType::MAX(h) => h@,
        }
    }

    /// The fixed capacity the heap was created with.
    pub open spec fn capacity(self) -> usize {
        match self {
            AlgorithmHeapType::MIN(h) => h.capacity(),
            AlgorithmHeapType::MAX(h) => h.capacity(),
        }
    }

    /// The wrapped heap is well-formed.
    pub open spec fn wf(self) -> bool {
        match self {
            AlgorithmHeapType::MIN(h) => h.wf(),
            AlgorithmHeapType::MAX(h) => h.wf(),
        }
    }

    pub fn push(&mut self, item: ScoredCandidate)
        requires
            old(self).wf(),
        ensures
            final(self).wf(),
            final(self).keep_largest() == old(self).keep_largest(),
            final(self).capacity() == old(self).capacity(),
            final(self).contents() == offer(
                old(self).keep_largest(),
                old(self).contents(),
                item,
                old(self).capacity() as nat,
            ),
    {
        match self {
            AlgorithmHeapType::MIN(h) => h.push(item),
            AlgorithmHeapType::MAX(h) => h.push(item),
        }
    }

    pub fn pop(&mut self) -> (r: Option<ScoredCandidate>)
        requires
            old(self).wf(),
        ensures
            final(self).wf(),
            final(self).keep_largest() == old(self).keep_largest(),
            final(self).capacity() == old(self).capacity(),
            old(self).contents().len() == 0 ==> r is None && final(self).contents() == old(self).contents(),
            old(self).contents().len() > 0 ==> r == Some(old(self).contents().first()) && final(self).contents() == old(self).contents().drop_first(),
    {
        match self {
            AlgorithmHeapType::MIN(h) => h.pop(),
            AlgorithmHeapType::MAX(h) => h.pop(),
        }
    }

    /// Drain the heap: hand back its contents, ordered best-first, and
    /// leave it empty.
    pub fn output(&mut self) -> (r: Vec<ScoredCandidate>)
        ensures
            r@ == old(self).contents(),
            final(self).contents() == Seq::<ScoredCandidate>::empty(),
            final(self).keep_largest() == old(self).keep_largest(),
            final(self).capacity() == old(self).capacity(),
            final(self).wf(),
    {
        match self {
            AlgorithmHeapType::MIN(h) => h.output(),
            AlgorithmHeapType::MAX(h) => h.output(),
        }
    }
}

} // verus!

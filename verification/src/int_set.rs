//! A set of unsigned 32-bit integers.
//!
//! The set is kept as a list of disjoint spans of consecutive values, so that
//! a long run of values costs no more than a single one. The list can grow
//! at both ends: a value above or below all members is added in constant
//! time.

use std::collections::VecDeque;
use vstd::prelude::*;

verus! {

/// A run of consecutive values, both ends included.
#[derive(Clone, Copy, PartialEq, Eq, Debug)]
pub struct Span {
    pub lo: u32,
    pub hi: u32,
}

impl Span {
    /// The smallest span that holds both spans.
    pub fn with(self, other: Span) -> (r: Span)
        ensures
            r.lo == if other.lo < self.lo {
                other.lo
            } else {
                self.lo
            },
            r.hi == if other.hi > self.hi {
                other.hi
            } else {
                self.hi
            },
    {
        Span {
            lo: if other.lo < self.lo {
                other.lo
            } else {
                self.lo
            },
            hi: if other.hi > self.hi {
                other.hi
            } else {
                self.hi
            },
        }
    }
}

/// The integers from `lo` to `hi`, both included; empty when `lo > hi`.
pub open spec fn range_set(lo: int, hi: int) -> Set<int> {
    Set::new(|v: int| lo <= v <= hi)
}

/// Whether `v` lies in the span.
pub open spec fn span_has(s: Span, v: int) -> bool {
    s.lo <= v <= s.hi
}

/// The values of a list of spans.
pub open spec fn spans_set(spans: Seq<Span>) -> Set<int> {
    Set::new(|v: int| exists|i: int| 0 <= i < spans.len() && span_has(#[trigger] spans[i], v))
}

/// The spans are non-empty, come from the highest to the lowest, and leave a
/// gap of at least one value between neighbours.
pub open spec fn spans_wf(spans: Seq<Span>) -> bool {
    &&& forall|i: int| 0 <= i < spans.len() ==> (#[trigger] spans[i]).lo <= spans[i].hi
    &&& forall|i: int, j: int|
        0 <= i < j < spans.len() ==> (#[trigger] spans[j]).hi + 1 < (#[trigger] spans[i]).lo
}

/// A set of `u32` values.
///
/// Its view is the mathematical set of its members.
#[derive(PartialEq, Eq, Debug)]
pub struct IntSet {
    pub(crate) spans: VecDeque<Span>,
}

/// A member of an `IntSet`, together with the place where the set keeps it.
/// Walking from one member to its neighbour takes constant time.
#[derive(Clone, Copy, Debug)]
pub struct Cursor {
    span: usize,
    value: u32,
}

impl Cursor {
    /// The member that the cursor stands on.
    pub closed spec fn spec_value(&self) -> u32 {
        self.value
    }

    #[verifier::when_used_as_spec(spec_value)]
    pub fn value(&self) -> (v: u32)
        ensures
            v == self.spec_value(),
    {
        self.value
    }
}

impl View for IntSet {
    type V = Set<int>;

    closed spec fn view(&self) -> Set<int> {
        spans_set(self.spans@)
    }
}

impl Clone for IntSet {
    fn clone(&self) -> (r: Self)
        ensures
            r@ == self@,
    {
        proof {
            use_type_invariant(self);
        }
        let mut spans: VecDeque<Span> = VecDeque::new();
        let mut i: usize = 0;
        while i < self.spans.len()
            invariant
                i <= self.spans.len(),
                spans@ == self.spans@.subrange(0, i as int),
            decreases self.spans.len() - i,
        {
            spans.push_back(self.spans[i]);
            i += 1;
            assert(spans@ == self.spans@.subrange(0, i as int));
        }
        assert(spans@ == self.spans@);
        IntSet { spans }
    }
}

impl IntSet {
    #[verifier::type_invariant]
    spec fn inv(&self) -> bool {
        spans_wf(self.spans@)
    }

    /// Whether the cursor stands on a member of this set.
    pub closed spec fn holds(&self, c: Cursor) -> bool {
        c.span < self.spans@.len() && span_has(self.spans@[c.span as int], c.value as int)
    }

    /// Every member is a 32-bit value.
    pub proof fn lemma_bounds(&self)
        ensures
            forall|v: int| self@.contains(v) ==> 0 <= v <= u32::MAX,
    {
    }

    /// The set without members.
    pub fn empty() -> (r: IntSet)
        ensures
            r@ == Set::<int>::empty(),
    {
        let r = IntSet { spans: VecDeque::new() };
        assert(r@ =~= Set::<int>::empty());
        r
    }

    /// The set of all 32-bit values.
    pub fn all() -> (r: IntSet)
        ensures
            r@ == range_set(0, u32::MAX as int),
    {
        let mut spans: VecDeque<Span> = VecDeque::new();
        spans.push_back(Span { lo: 0, hi: u32::MAX });
        let r = IntSet { spans };
        assert(r@ =~= range_set(0, u32::MAX as int)) by {
            assert forall|v: int| range_set(0, u32::MAX as int).contains(v) implies r@.contains(
                v,
            ) by {
                assert(span_has(r.spans@[0], v));
            }
        }
        r
    }

    /// Whether the set has no member.
    pub fn is_empty(&self) -> (b: bool)
        ensures
            b == (self@ == Set::<int>::empty()),
    {
        proof {
            use_type_invariant(self);
        }
        let b = self.spans.len() == 0;
        proof {
            if b {
                assert(self@ =~= Set::<int>::empty());
            } else {
                assert(span_has(self.spans@[0], self.spans@[0].lo as int));
                assert(self@.contains(self.spans@[0].lo as int));
            }
        }
        b
    }

    /// Whether `v` is a member.
    pub fn contains(&self, v: u32) -> (b: bool)
        ensures
            b == self@.contains(v as int),
    {
        proof {
            use_type_invariant(self);
        }
        let n = self.spans.len();
        let mut a: usize = 0;
        let mut z: usize = n;
        while a < z
            invariant
                a <= z <= n,
                n == self.spans@.len(),
                spans_wf(self.spans@),
                forall|j: int| 0 <= j < a ==> (#[trigger] self.spans@[j]).lo > v,
                forall|j: int| z <= j < n ==> (#[trigger] self.spans@[j]).lo <= v,
            decreases z - a,
        {
            let mid = a + (z - a) / 2;
            if self.spans[mid].lo > v {
                a = mid + 1;
            } else {
                z = mid;
            }
        }
        let b = a < n && v <= self.spans[a].hi;
        proof {
            if b {
                assert(span_has(self.spans@[a as int], v as int));
            } else {
                assert forall|i: int| 0 <= i < n implies !span_has(
                    #[trigger] self.spans@[i],
                    v as int,
                ) by {
                    if i > a {
                        assert(self.spans@[i].hi + 1 < self.spans@[a as int].lo);
                    }
                }
            }
        }
        b
    }

    /// The greatest member, if there is one.
    pub fn last(&self) -> (r: Option<u32>)
        ensures
            match r {
                None => self@ == Set::<int>::empty(),
                Some(m) => self@.contains(m as int) && forall|v: int|
                    self@.contains(v) ==> v <= m,
            },
    {
        match self.last_cursor() {
            None => None,
            Some(c) => Some(c.value()),
        }
    }

    /// The least member, if there is one.
    pub fn first(&self) -> (r: Option<u32>)
        ensures
            match r {
                None => self@ == Set::<int>::empty(),
                Some(m) => self@.contains(m as int) && forall|v: int|
                    self@.contains(v) ==> m <= v,
            },
    {
        match self.first_cursor() {
            None => None,
            Some(c) => Some(c.value()),
        }
    }

    /// A cursor on the greatest member, if there is one.
    pub fn last_cursor(&self) -> (r: Option<Cursor>)
        ensures
            match r {
                None => self@ == Set::<int>::empty(),
                Some(c) => self.holds(c) && self@.contains(c.spec_value() as int) && forall|
                    v: int,
                |
                    self@.contains(v) ==> v <= c.spec_value(),
            },
    {
        proof {
            use_type_invariant(self);
        }
        if self.spans.len() == 0 {
            assert(self@ =~= Set::<int>::empty());
            None
        } else {
            let c = Cursor { span: 0, value: self.spans[0].hi };
            proof {
                assert(span_has(self.spans@[0], c.value as int));
                assert forall|v: int| self@.contains(v) implies v <= c.value by {
                    let i = choose|i: int|
                        0 <= i < self.spans@.len() && span_has(#[trigger] self.spans@[i], v);
                    if i > 0 {
                        assert(self.spans@[i].hi + 1 < self.spans@[0].lo);
                    }
                }
            }
            Some(c)
        }
    }

    /// A cursor on the greatest member below the one that `c` stands on, if
    /// there is one.
    pub fn cursor_before(&self, c: Cursor) -> (r: Option<Cursor>)
        requires
            self.holds(c),
        ensures
            match r {
                None => forall|v: int| self@.contains(v) ==> c.spec_value() <= v,
                Some(n) => {
                    &&& self.holds(n)
                    &&& self@.contains(n.spec_value() as int)
                    &&& n.spec_value() < c.spec_value()
                    &&& forall|v: int|
                        self@.contains(v) ==> v <= n.spec_value() || c.spec_value() <= v
                },
            },
    {
        proof {
            use_type_invariant(self);
        }
        let span = self.spans[c.span];
        if c.value > span.lo {
            let n = Cursor { span: c.span, value: c.value - 1 };
            assert(span_has(self.spans@[n.span as int], n.value as int));
            Some(n)
        } else if c.span < self.spans.len() - 1 {
            let n = Cursor { span: c.span + 1, value: self.spans[c.span + 1].hi };
            proof {
                assert(span_has(self.spans@[n.span as int], n.value as int));
                assert(self.spans@[n.span as int].hi + 1 < self.spans@[c.span as int].lo);
                assert forall|v: int| self@.contains(v) implies v <= n.value || c.value <= v by {
                    let i = choose|i: int|
                        0 <= i < self.spans@.len() && span_has(#[trigger] self.spans@[i], v);
                    if i < c.span {
                        assert(self.spans@[c.span as int].hi + 1 < self.spans@[i].lo);
                    } else if i > n.span {
                        assert(self.spans@[i].hi + 1 < self.spans@[n.span as int].lo);
                    }
                }
            }
            Some(n)
        } else {
            proof {
                assert forall|v: int| self@.contains(v) implies c.value <= v by {
                    let i = choose|i: int|
                        0 <= i < self.spans@.len() && span_has(#[trigger] self.spans@[i], v);
                    if i < c.span {
                        assert(self.spans@[c.span as int].hi + 1 < self.spans@[i].lo);
                    }
                }
            }
            None
        }
    }

    /// A cursor on the least member, if there is one.
    pub fn first_cursor(&self) -> (r: Option<Cursor>)
        ensures
            match r {
                None => self@ == Set::<int>::empty(),
                Some(c) => self.holds(c) && self@.contains(c.spec_value() as int) && forall|
                    v: int,
                |
                    self@.contains(v) ==> c.spec_value() <= v,
            },
    {
        proof {
            use_type_invariant(self);
        }
        let n = self.spans.len();
        if n == 0 {
            assert(self@ =~= Set::<int>::empty());
            None
        } else {
            let c = Cursor { span: n - 1, value: self.spans[n - 1].lo };
            proof {
                assert(span_has(self.spans@[n - 1], c.value as int));
                assert forall|v: int| self@.contains(v) implies c.value <= v by {
                    let i = choose|i: int|
                        0 <= i < self.spans@.len() && span_has(#[trigger] self.spans@[i], v);
                    if i < n - 1 {
                        assert(self.spans@[n - 1].hi + 1 < self.spans@[i].lo);
                    }
                }
            }
            Some(c)
        }
    }

    /// A cursor on the least member above the one that `c` stands on, if
    /// there is one.
    pub fn cursor_after(&self, c: Cursor) -> (r: Option<Cursor>)
        requires
            self.holds(c),
        ensures
            match r {
                None => forall|v: int| self@.contains(v) ==> v <= c.spec_value(),
                Some(n) => {
                    &&& self.holds(n)
                    &&& self@.contains(n.spec_value() as int)
                    &&& c.spec_value() < n.spec_value()
                    &&& forall|v: int|
                        self@.contains(v) ==> v <= c.spec_value() || n.spec_value() <= v
                },
            },
    {
        proof {
            use_type_invariant(self);
        }
        let span = self.spans[c.span];
        if c.value < span.hi {
            let n = Cursor { span: c.span, value: c.value + 1 };
            assert(span_has(self.spans@[n.span as int], n.value as int));
            Some(n)
        } else if c.span > 0 {
            let n = Cursor { span: c.span - 1, value: self.spans[c.span - 1].lo };
            proof {
                assert(span_has(self.spans@[n.span as int], n.value as int));
                assert(self.spans@[c.span as int].hi + 1 < self.spans@[n.span as int].lo);
                assert forall|v: int| self@.contains(v) implies v <= c.value || n.value <= v by {
                    let i = choose|i: int|
                        0 <= i < self.spans@.len() && span_has(#[trigger] self.spans@[i], v);
                    if i > c.span {
                        assert(self.spans@[i].hi + 1 < self.spans@[c.span as int].lo);
                    } else if i < n.span {
                        assert(self.spans@[n.span as int].hi + 1 < self.spans@[i].lo);
                    }
                }
            }
            Some(n)
        } else {
            proof {
                assert forall|v: int| self@.contains(v) implies v <= c.value by {
                    let i = choose|i: int|
                        0 <= i < self.spans@.len() && span_has(#[trigger] self.spans@[i], v);
                    if i > c.span {
                        assert(self.spans@[i].hi + 1 < self.spans@[c.span as int].lo);
                    }
                }
            }
            None
        }
    }

    /// Adds `v` to the set.
    pub fn insert(&mut self, v: u32)
        ensures
            final(self)@ == old(self)@.insert(v as int),
    {
        self.insert_range(v, v);
        proof {
            assert(range_set(v as int, v as int) =~= set![v as int]);
            assert(self@ =~= old(self)@.insert(v as int));
        }
    }

    /// Puts `merged` in the place of the spans numbered `k` up to, not
    /// including, `m`, of which there are at most one, at an end of the
    /// list.
    fn put_at_end(
        &mut self,
        k: usize,
        m: usize,
        merged: Span,
        Ghost(lo): Ghost<int>,
        Ghost(hi): Ghost<int>,
    )
        requires
            k <= m <= k + 1,
            m <= old(self).spans@.len(),
            k == 0 || m == old(self).spans@.len(),
            merged.lo <= lo <= hi <= merged.hi,
            forall|j: int| 0 <= j < k ==> (#[trigger] old(self).spans@[j]).lo > merged.hi + 1,
            m < old(self).spans@.len() ==> old(self).spans@[m as int].hi + 1 < merged.lo,
            melted(
                old(self).spans@,
                k as int,
                m as int,
                lo,
                hi,
                merged.lo as int,
                merged.hi as int,
            ),
        ensures
            final(self)@ == old(self)@ + range_set(lo, hi),
    {
        proof {
            use_type_invariant(&*self);
        }
        let ghost spans = self.spans@;
        let mut held: VecDeque<Span> = VecDeque::new();
        core::mem::swap(&mut self.spans, &mut held);
        if k == 0 {
            if m == 1 {
                let _ = held.pop_front();
            }
            held.push_front(merged);
        } else {
            if m > k {
                let _ = held.pop_back();
            }
            held.push_back(merged);
        }
        proof {
            lemma_melt_result(spans, held@, k as int, m as int, lo, hi, merged);
        }
        self.spans = held;
    }

    /// Adds every value from `lo` to `hi`, both included, to the set. Nothing
    /// is added when `lo > hi`.
    ///
    /// A range that lies above or below every member, or touches no span but
    /// the highest or the lowest, is added in constant time.
    pub fn insert_range(&mut self, lo: u32, hi: u32)
        ensures
            final(self)@ == old(self)@ + range_set(lo as int, hi as int),
    {
        proof {
            use_type_invariant(&*self);
        }
        if lo > hi {
            assert(self@ =~= self@ + range_set(lo as int, hi as int));
            return ;
        }
        let ghost spans = self.spans@;
        let n = self.spans.len();
        let new = Span { lo, hi };
        if n == 0 || (self.spans[0].hi as u64) + 1 < lo as u64 {
            // Above every member, with a gap.
            self.put_at_end(0, 0, new, Ghost(lo as int), Ghost(hi as int));
            return ;
        }
        let top = self.spans[0];
        if top.lo as u64 <= hi as u64 + 1 && (n == 1 || (self.spans[1].hi as u64) + 1 < lo as u64) {
            // The highest span is the only one that the range touches.
            proof {
                lemma_melt_one(spans, 0, 0, lo as int, hi as int, lo as int, hi as int);
            }
            self.put_at_end(0, 1, new.with(top), Ghost(lo as int), Ghost(hi as int));
            return ;
        }
        let bottom = self.spans[n - 1];
        if bottom.lo as u64 > hi as u64 + 1 {
            // Below every member, with a gap.
            proof {
                assert forall|j: int| 0 <= j < n implies (#[trigger] spans[j]).lo > hi + 1 by {
                    if j < n - 1 {
                        assert(spans[n - 1].hi + 1 < spans[j].lo);
                    }
                }
            }
            self.put_at_end(n, n, new, Ghost(lo as int), Ghost(hi as int));
            return ;
        }
        if (bottom.hi as u64) + 1 >= lo as u64 && self.spans[n - 2].lo as u64 > hi as u64 + 1 {
            // The lowest span is the only one that the range touches.
            proof {
                assert forall|j: int| 0 <= j < n - 1 implies (#[trigger] spans[j]).lo > hi + 1 by {
                    if j < n - 2 {
                        assert(spans[n - 2].hi + 1 < spans[j].lo);
                    }
                }
                lemma_melt_one(spans, n - 1, n - 1, lo as int, hi as int, lo as int, hi as int);
            }
            self.put_at_end(n - 1, n, new.with(bottom), Ghost(lo as int), Ghost(hi as int));
            return ;
        }
        let mut out: VecDeque<Span> = VecDeque::new();
        let mut i: usize = 0;
        // The spans that lie above the new range, with a gap.
        while i < n && self.spans[i].lo as u64 > hi as u64 + 1
            invariant
                i <= n,
                n == spans.len(),
                spans == self.spans@,
                out@ =~= spans.subrange(0, i as int),
                forall|j: int| 0 <= j < i ==> (#[trigger] spans[j]).lo > hi + 1,
            decreases n - i,
        {
            out.push_back(self.spans[i]);
            i += 1;
        }
        let ghost k: int = i as int;
        let mut mlo: u32 = lo;
        let mut mhi: u32 = hi;
        // The spans that touch the new range melt into it.
        while i < n && self.spans[i].hi as u64 + 1 >= mlo as u64
            invariant
                0 <= k <= i <= n,
                n == spans.len(),
                spans == self.spans@,
                spans_wf(spans),
                mlo <= lo <= hi <= mhi,
                k < n ==> spans[k].lo <= hi + 1,
                forall|j: int| 0 <= j < k ==> (#[trigger] spans[j]).lo > mhi + 1,
                melted(spans, k, i as int, lo as int, hi as int, mlo as int, mhi as int),
            decreases n - i,
        {
            let s = self.spans[i];
            proof {
                lemma_melt_one(spans, k, i as int, lo as int, hi as int, mlo as int, mhi as int);
            }
            if s.hi > mhi {
                mhi = s.hi;
            }
            if s.lo < mlo {
                mlo = s.lo;
            }
            i += 1;
        }
        let ghost m: int = i as int;
        let merged = Span { lo: mlo, hi: mhi };
        out.push_back(merged);
        // The spans that lie below, with a gap.
        while i < n
            invariant
                0 <= k <= m <= i <= n,
                n == spans.len(),
                spans == self.spans@,
                out@ =~= spans.subrange(0, k).push(merged) + spans.subrange(m, i as int),
            decreases n - i,
        {
            out.push_back(self.spans[i]);
            i += 1;
        }
        proof {
            lemma_melt_result(spans, out@, k, m, lo as int, hi as int, merged);
        }
        self.spans = out;
    }

    /// The set of the values in `values`.
    pub fn from_values(values: &[u32]) -> (r: IntSet)
        ensures
            forall|v: int|
                #[trigger] r@.contains(v) <==> exists|i: int|
                    0 <= i < values@.len() && #[trigger] values@[i] == v,
    {
        let mut r = IntSet::empty();
        let mut i: usize = 0;
        while i < values.len()
            invariant
                i <= values@.len(),
                forall|v: int|
                    #[trigger] r@.contains(v) <==> exists|j: int|
                        0 <= j < i && #[trigger] values@[j] == v,
            decreases values@.len() - i,
        {
            let ghost before = r@;
            r.insert(values[i]);
            i += 1;
            proof {
                assert forall|v: int|
                    #[trigger] r@.contains(v) <==> exists|j: int|
                        0 <= j < i && #[trigger] values@[j] == v by {
                    if before.contains(v) {
                        let j = choose|j: int| 0 <= j < i - 1 && #[trigger] values@[j] == v;
                        assert(0 <= j < i && values@[j] == v);
                    }
                    if v == values@[i - 1] {
                        assert(0 <= i - 1 < i && values@[i - 1] == v);
                    }
                }
            }
        }
        r
    }
}

/// The span from `mlo` to `mhi` holds the values from `lo` to `hi` and those
/// of the spans numbered `k` up to `i`, and nothing else.
pub open spec fn melted(
    spans: Seq<Span>,
    k: int,
    i: int,
    lo: int,
    hi: int,
    mlo: int,
    mhi: int,
) -> bool {
    forall|v: int|
        #[trigger] range_set(mlo, mhi).contains(v) <==> (lo <= v <= hi || exists|j: int|
            k <= j < i && span_has(#[trigger] spans[j], v))
}

/// One more span that touches the melted span melts into it.
proof fn lemma_melt_one(spans: Seq<Span>, k: int, i: int, lo: int, hi: int, mlo: int, mhi: int)
    requires
        spans_wf(spans),
        0 <= k <= i < spans.len(),
        mlo <= lo <= hi <= mhi,
        spans[k].lo <= hi + 1,
        spans[i].hi + 1 >= mlo,
        forall|j: int| 0 <= j < k ==> (#[trigger] spans[j]).lo > mhi + 1,
        melted(spans, k, i, lo, hi, mlo, mhi),
    ensures
        melted(
            spans,
            k,
            i + 1,
            lo,
            hi,
            if spans[i].lo < mlo {
                spans[i].lo as int
            } else {
                mlo
            },
            if spans[i].hi > mhi {
                spans[i].hi as int
            } else {
                mhi
            },
        ),
        forall|j: int| 0 <= j < k ==> (#[trigger] spans[j]).lo > spans[i].hi + 1,
{
    let s = spans[i];
    let nlo = if s.lo < mlo {
        s.lo as int
    } else {
        mlo
    };
    let nhi = if s.hi > mhi {
        s.hi as int
    } else {
        mhi
    };
    assert(s.lo <= s.hi);
    if i > k {
        assert(spans[i].hi + 1 < spans[k].lo);
    }
    assert(s.lo <= mhi + 1);
    assert forall|j: int| 0 <= j < k implies (#[trigger] spans[j]).lo > s.hi + 1 by {
        assert(spans[i].hi + 1 < spans[j].lo);
    }
    assert forall|v: int|
        #[trigger] range_set(nlo, nhi).contains(v) <==> (lo <= v <= hi || exists|j: int|
            k <= j < i + 1 && span_has(#[trigger] spans[j], v)) by {
        if nlo <= v <= nhi {
            if mlo <= v <= mhi {
                assert(range_set(mlo, mhi).contains(v));
                if !(lo <= v <= hi) {
                    let j = choose|j: int| k <= j < i && span_has(#[trigger] spans[j], v);
                    assert(k <= j < i + 1 && span_has(spans[j], v));
                }
            } else {
                assert(span_has(spans[i], v));
            }
        }
        if exists|j: int| k <= j < i + 1 && span_has(#[trigger] spans[j], v) {
            let j = choose|j: int| k <= j < i + 1 && span_has(#[trigger] spans[j], v);
            if j < i {
                assert(range_set(mlo, mhi).contains(v));
            }
        }
        if lo <= v <= hi {
            assert(range_set(mlo, mhi).contains(v));
        }
    }
}

/// What `insert_range` builds is well formed and holds the old values and
/// the new range.
proof fn lemma_melt_result(
    spans: Seq<Span>,
    o: Seq<Span>,
    k: int,
    m: int,
    lo: int,
    hi: int,
    merged: Span,
)
    requires
        spans_wf(spans),
        0 <= k <= m <= spans.len(),
        merged.lo <= lo <= hi <= merged.hi,
        o =~= spans.subrange(0, k).push(merged) + spans.subrange(m, spans.len() as int),
        forall|j: int| 0 <= j < k ==> (#[trigger] spans[j]).lo > merged.hi + 1,
        m < spans.len() ==> spans[m].hi + 1 < merged.lo,
        melted(spans, k, m, lo, hi, merged.lo as int, merged.hi as int),
    ensures
        spans_wf(o),
        spans_set(o) == spans_set(spans) + range_set(lo, hi),
{
    let n = spans.len() as int;
    let mlo = merged.lo as int;
    let mhi = merged.hi as int;
    assert(o.len() == k + 1 + (n - m));
    assert(forall|j: int| 0 <= j < k ==> o[j] == spans[j]);
    assert(o[k] == merged);
    assert(forall|j: int| m <= j < n ==> o[k + 1 + (j - m)] == spans[j]);
    assert forall|j: int| m <= j < n implies (#[trigger] spans[j]).hi + 1 < mlo by {
        if j > m {
            assert(spans[j].hi + 1 < spans[m].lo);
            assert(spans[m].lo <= spans[m].hi);
        }
    }
    assert(spans_wf(o)) by {
        assert forall|a: int| 0 <= a < o.len() implies (#[trigger] o[a]).lo <= o[a].hi by {
            if a < k {
                assert(o[a] == spans[a]);
            } else if a > k {
                assert(o[a] == spans[m + (a - k - 1)]);
            }
        }
        assert forall|a: int, b: int| 0 <= a < b < o.len() implies (#[trigger] o[b]).hi + 1 < (
        #[trigger] o[a]).lo by {
            if b < k {
                assert(o[a] == spans[a] && o[b] == spans[b]);
                assert(spans[b].hi + 1 < spans[a].lo);
            } else if b == k {
                assert(o[a] == spans[a]);
            } else {
                let jb = m + (b - k - 1);
                assert(o[b] == spans[jb]);
                if a < k {
                    assert(o[a] == spans[a]);
                    assert(spans[jb].hi + 1 < spans[a].lo);
                } else if a == k {
                } else {
                    let ja = m + (a - k - 1);
                    assert(o[a] == spans[ja]);
                    assert(spans[jb].hi + 1 < spans[ja].lo);
                }
            }
        }
    }
    assert(spans_set(o) =~= spans_set(spans) + range_set(lo, hi)) by {
        assert forall|v: int| spans_set(o).contains(v) implies (spans_set(spans) + range_set(
            lo,
            hi,
        )).contains(v) by {
            let a = choose|a: int| 0 <= a < o.len() && span_has(#[trigger] o[a], v);
            if a < k {
                assert(span_has(spans[a], v));
            } else if a == k {
                assert(range_set(mlo, mhi).contains(v));
                if !(lo <= v <= hi) {
                    let j = choose|j: int| k <= j < m && span_has(#[trigger] spans[j], v);
                    assert(span_has(spans[j], v));
                }
            } else {
                assert(span_has(spans[m + (a - k - 1)], v));
            }
        }
        assert forall|v: int| (spans_set(spans) + range_set(lo, hi)).contains(v) implies spans_set(
            o,
        ).contains(v) by {
            if lo <= v <= hi {
                assert(range_set(mlo, mhi).contains(v));
                assert(span_has(o[k], v));
            } else {
                let j = choose|j: int| 0 <= j < n && span_has(#[trigger] spans[j], v);
                if j < k {
                    assert(span_has(o[j], v));
                } else if j < m {
                    assert(range_set(mlo, mhi).contains(v));
                    assert(span_has(o[k], v));
                } else {
                    assert(span_has(o[k + 1 + (j - m)], v));
                }
            }
        }
    }
}

} // verus!

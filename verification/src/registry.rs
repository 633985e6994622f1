//! The interval registry: a coalescing set of closed `u64` address ranges.
//!
//! The registry stores the currently-known free physical address space as a
//! minimal sequence of ranges that is sorted, pairwise non-overlapping and
//! pairwise non-adjacent. `insert` unions a range into the set and `remove`
//! subtracts one; both keep the sequence in normal form.

use vstd::prelude::*;
use crate::range::Range;

verus! {

/// Normal form of a range sequence: every range is well formed, and each
/// range ends at least two addresses before the next one starts (sorted,
/// disjoint, and non-adjacent, so no two ranges could be merged).
pub open spec fn wf_seq(s: Seq<Range>) -> bool {
    &&& forall|i: int| 0 <= i < s.len() ==> (#[trigger] s[i]).wf()
    &&& forall|i: int| 0 <= i < s.len() - 1 ==> (#[trigger] s[i]).end + 1 < s[i + 1].start
}

/// The address `a` is covered by some range of `s`.
pub open spec fn seq_covers(s: Seq<Range>, a: int) -> bool {
    exists|i: int| 0 <= i < s.len() && (#[trigger] s[i]).spec_contains(a)
}

/// In a normal-form sequence, every earlier range ends strictly more than one
/// address before every later range starts.
pub proof fn lemma_wf_ordered(s: Seq<Range>, i: int, j: int)
    requires
        wf_seq(s),
        0 <= i < j < s.len(),
    ensures
        s[i].end + 1 < s[j].start,
    decreases j - i,
{
    if i + 1 < j {
        lemma_wf_ordered(s, i + 1, j);
    }
}

/// Appending a well-formed range that starts beyond the last range's end
/// (with a gap) keeps the sequence in normal form.
pub proof fn lemma_wf_push(s: Seq<Range>, x: Range)
    requires
        wf_seq(s),
        x.wf(),
        s.len() > 0 ==> s.last().end + 1 < x.start,
    ensures
        wf_seq(s.push(x)),
{
    let t = s.push(x);
    assert forall|i: int| 0 <= i < t.len() implies (#[trigger] t[i]).wf() by {
        if i < s.len() {
            assert(t[i] == s[i]);
        }
    }
    assert forall|i: int| 0 <= i < t.len() - 1 implies (#[trigger] t[i]).end + 1 < t[i + 1].start by {
        if i + 1 < s.len() {
            assert(t[i] == s[i] && t[i + 1] == s[i + 1]);
        } else {
            assert(i == s.len() - 1);
            assert(t[i] == s.last() && t[i + 1] == x);
        }
    }
}

/// Any contiguous slice of a normal-form sequence is itself in normal form.
pub proof fn lemma_wf_subrange(s: Seq<Range>, lo: int, hi: int)
    requires
        wf_seq(s),
        0 <= lo <= hi <= s.len(),
    ensures
        wf_seq(s.subrange(lo, hi)),
{
    let t = s.subrange(lo, hi);
    assert forall|i: int| 0 <= i < t.len() implies (#[trigger] t[i]).wf() by {
        assert(t[i] == s[lo + i]);
    }
    assert forall|i: int| 0 <= i < t.len() - 1 implies (#[trigger] t[i]).end + 1 < t[i + 1].start by {
        assert(t[i] == s[lo + i] && t[i + 1] == s[lo + i + 1]);
    }
}

/// Coverage distributes over concatenation.
pub proof fn lemma_covers_append(s1: Seq<Range>, s2: Seq<Range>, a: int)
    ensures
        seq_covers(s1 + s2, a) <==> seq_covers(s1, a) || seq_covers(s2, a),
{
    let t = s1 + s2;
    if seq_covers(s1, a) {
        let i = choose|i: int| 0 <= i < s1.len() && (#[trigger] s1[i]).spec_contains(a);
        assert(t[i].spec_contains(a));
    }
    if seq_covers(s2, a) {
        let i = choose|i: int| 0 <= i < s2.len() && (#[trigger] s2[i]).spec_contains(a);
        assert(t[s1.len() + i].spec_contains(a));
    }
    if seq_covers(t, a) {
        let i = choose|i: int| 0 <= i < t.len() && (#[trigger] t[i]).spec_contains(a);
        if i < s1.len() {
            assert(s1[i].spec_contains(a));
        } else {
            assert(s2[i - s1.len()].spec_contains(a));
        }
    }
}

/// Coverage distributes over `push`.
pub proof fn lemma_covers_push(s: Seq<Range>, x: Range, a: int)
    ensures
        seq_covers(s.push(x), a) <==> seq_covers(s, a) || x.spec_contains(a),
{
    let t = s.push(x);
    if seq_covers(s, a) {
        let i = choose|i: int| 0 <= i < s.len() && (#[trigger] s[i]).spec_contains(a);
        assert(t[i].spec_contains(a));
    }
    if x.spec_contains(a) {
        assert(t[s.len() as int].spec_contains(a));
    }
    if seq_covers(t, a) {
        let i = choose|i: int| 0 <= i < t.len() && (#[trigger] t[i]).spec_contains(a);
        if i < s.len() {
            assert(s[i].spec_contains(a));
        }
    }
}

/// The content `res` covers exactly the addresses of `s` that lie outside
/// `r`: the subtraction relation between a registry's new and old content.
pub open spec fn covers_diff(res: Seq<Range>, s: Seq<Range>, r: Range) -> bool {
    forall|a: int| #![trigger seq_covers(res, a)]
        seq_covers(res, a) <==> seq_covers(s, a) && !r.spec_contains(a)
}

/// The content `res` covers exactly the addresses of `s` together with those
/// of `r`: the union relation between a registry's new and old content.
pub open spec fn covers_union(res: Seq<Range>, s: Seq<Range>, r: Range) -> bool {
    forall|a: int| #![trigger seq_covers(res, a)]
        seq_covers(res, a) <==> seq_covers(s, a) || r.spec_contains(a)
}

/// A coalescing set of disjoint, non-adjacent closed address ranges.
pub struct RangeSet {
    entries: Vec<Range>,
}

impl View for RangeSet {
    type V = Seq<Range>;

    closed spec fn view(&self) -> Seq<Range> {
        self.entries@
    }
}

impl RangeSet {
    /// The registry invariant: the backing sequence is in normal form.
    pub open spec fn wf(self) -> bool {
        wf_seq(self@)
    }

    /// The address `a` is free according to this registry.
    pub open spec fn covers(self, a: int) -> bool {
        seq_covers(self@, a)
    }

    /// An empty registry: no address is free.
    pub fn new() -> (r: RangeSet)
        ensures
            r.wf(),
            r@ == Seq::<Range>::empty(),
            forall|a: int| !r.covers(a),
    {
        RangeSet { entries: Vec::new() }
    }

    /// Number of ranges currently held.
    pub fn len(&self) -> (r: usize)
        ensures
            r == self@.len(),
    {
        self.entries.len()
    }

    /// The ranges in ascending order.
    pub fn ranges(&self) -> (r: &Vec<Range>)
        ensures
            r@ == self@,
    {
        &self.entries
    }

    /// Marks every address of `r` as free. Afterwards the registry covers
    /// exactly the union of its previous content and `r`, re-normalized:
    /// existing ranges that overlap or touch `r` are absorbed into a single
    /// merged range.
    pub fn insert(&mut self, r: Range)
        requires
            old(self).wf(),
            r.wf(),
        ensures
            final(self).wf(),
            covers_union(final(self)@, old(self)@, r),
    {
        let ghost orig: Seq<Range> = self@;
        let n = self.entries.len();
        let mut result: Vec<Range> = Vec::new();
        let mut i: usize = 0;

        // Phase 1: keep the ranges that end with a gap before `r` starts.
        while i < n && gap_between(self.entries[i].end, r.start)
            invariant
                self@ == orig,
                wf_seq(orig),
                r.wf(),
                n == orig.len(),
                i <= n,
                result@ == orig.subrange(0, i as int),
                forall|k: int| 0 <= k < i ==> (#[trigger] orig[k]).end + 1 < r.start,
            decreases n - i,
        {
            let x = self.entries[i];
            result.push(x);
            proof {
                assert(result@ =~= orig.subrange(0, i as int + 1));
            }
            i = i + 1;
        }
        let ghost i1: int = i as int;
        proof {
            assert(i1 < n ==> orig[i1].end + 1 >= r.start);
        }

        // Phase 2: absorb every range that overlaps or touches the growing
        // merged range.
        let mut merged = r;
        while i < n && !gap_between(merged.end, self.entries[i].start)
            invariant
                self@ == orig,
                wf_seq(orig),
                r.wf(),
                n == orig.len(),
                0 <= i1 <= i <= n,
                merged.wf(),
                merged.start <= r.start,
                r.end <= merged.end,
                i == i1 ==> merged == r,
                i1 < n ==> orig[i1].end + 1 >= r.start,
                i > i1 ==> merged.start <= orig[i1].start,
                i1 > 0 ==> orig[i1 - 1].end + 1 < merged.start,
                forall|a: int|
                    merged.spec_contains(a) <==> r.spec_contains(a)
                        || seq_covers(orig.subrange(i1, i as int), a),
            decreases n - i,
        {
            let x = self.entries[i];
            let new_start: u64 = if x.start < merged.start {
                x.start
            } else {
                merged.start
            };
            let new_end: u64 = if x.end > merged.end {
                x.end
            } else {
                merged.end
            };
            let new_merged = Range { start: new_start, end: new_end };
            proof {
                // `x` neither starts beyond `merged` (loop condition) nor
                // ends with a gap before it, so the merged bounds cover
                // exactly the union of the two ranges.
                if i1 > 0 {
                    assert(orig[i1 - 1].end + 1 < orig[i1].start);
                }
                if i > i1 {
                    lemma_wf_ordered(orig, i1, i as int);
                    assert(merged.start <= orig[i as int].start);
                }
                assert(x.end + 1 >= merged.start);
                assert(x.start <= merged.end + 1);
                assert(orig.subrange(i1, i as int + 1) =~= orig.subrange(i1, i as int).push(x));
                assert forall|a: int|
                    new_merged.spec_contains(a) <==> r.spec_contains(a) || seq_covers(
                        orig.subrange(i1, i as int + 1),
                        a,
                    ) by {
                    lemma_covers_push(orig.subrange(i1, i as int), x, a);
                    assert(new_merged.spec_contains(a) <==> merged.spec_contains(a)
                        || x.spec_contains(a));
                }
            }
            merged = new_merged;
            i = i + 1;
        }
        let ghost i2: int = i as int;
        proof {
            lemma_wf_subrange(orig, 0, i1);
            lemma_wf_push(orig.subrange(0, i1), merged);
            assert(result@.push(merged) =~= orig.subrange(0, i1).push(merged));
        }
        result.push(merged);
        proof {
            assert(result@ =~= orig.subrange(0, i1).push(merged) + orig.subrange(i2, i2));
        }

        // Phase 3: keep the remaining ranges, which start beyond the merged
        // range with a gap.
        while i < n
            invariant
                self@ == orig,
                wf_seq(orig),
                n == orig.len(),
                i2 <= i <= n,
                i2 < n ==> merged.end + 1 < orig[i2].start,
                result@ == orig.subrange(0, i1).push(merged) + orig.subrange(i2, i as int),
                0 <= i1 <= i2,
                wf_seq(result@),
                result@.last() == (if i > i2 {
                    orig[i as int - 1]
                } else {
                    merged
                }),
            decreases n - i,
        {
            let x = self.entries[i];
            proof {
                if i > i2 {
                    assert(orig[i as int - 1].end + 1 < orig[i as int].start);
                }
                lemma_wf_push(result@, x);
                assert(result@.push(x) =~= orig.subrange(0, i1).push(merged) + orig.subrange(
                    i2,
                    i as int + 1,
                ));
            }
            result.push(x);
            i = i + 1;
        }

        proof {
            // The new content covers an address exactly when the old content
            // or `r` does.
            let prefix = orig.subrange(0, i1);
            let middle = orig.subrange(i1, i2);
            let suffix = orig.subrange(i2, n as int);
            assert(orig =~= (prefix + middle) + suffix);
            assert(result@ =~= (prefix + seq![merged]) + suffix);
            assert forall|a: int| #![trigger seq_covers(result@, a)]
                seq_covers(result@, a) <==> seq_covers(orig, a) || r.spec_contains(a) by {
                lemma_covers_append(prefix + seq![merged], suffix, a);
                lemma_covers_append(prefix, seq![merged], a);
                lemma_covers_append(prefix + middle, suffix, a);
                lemma_covers_append(prefix, middle, a);
                assert(seq![merged][0] == merged);
                assert(seq_covers(seq![merged], a) <==> merged.spec_contains(a));
            }
        }
        self.entries = result;
    }

    /// Marks every address of `r` as reserved. Afterwards the registry covers
    /// exactly its previous content minus `r`: a range fully inside `r`
    /// disappears, a range overlapping one side of `r` is truncated, and a
    /// range that strictly contains `r` is split into two remainders. A
    /// remove with no overlap is a no-op.
    #[verifier::rlimit(100)]
    pub fn remove(&mut self, r: Range)
        requires
            old(self).wf(),
            r.wf(),
        ensures
            final(self).wf(),
            covers_diff(final(self)@, old(self)@, r),
    {
        let ghost orig: Seq<Range> = self@;
        let n = self.entries.len();
        let mut result: Vec<Range> = Vec::new();
        let mut i: usize = 0;
        while i < n
            invariant
                self@ == orig,
                wf_seq(orig),
                r.wf(),
                n == orig.len(),
                i <= n,
                wf_seq(result@),
                i == 0 ==> result@.len() == 0,
                result@.len() > 0 && i > 0 ==> result@.last().end <= orig[i as int - 1].end,
                covers_diff(result@, orig.subrange(0, i as int), r),
            decreases n - i,
        {
            let x = self.entries[i];
            let ghost pre = result@;
            proof {
                if i > 0 {
                    assert(orig[i as int - 1].end + 1 < orig[i as int].start);
                }
            }
            if x.end < r.start || x.start > r.end {
                // No overlap with `r`: the range survives unchanged.
                proof {
                    lemma_wf_push(result@, x);
                }
                result.push(x);
            } else {
                // Overlap: keep at most a left and a right remainder.
                if x.start < r.start {
                    let piece = Range { start: x.start, end: r.start - 1 };
                    proof {
                        lemma_wf_push(result@, piece);
                    }
                    result.push(piece);
                }
                if x.end > r.end {
                    let piece = Range { start: r.end + 1, end: x.end };
                    proof {
                        lemma_wf_push(result@, piece);
                    }
                    result.push(piece);
                }
            }
            proof {
                lemma_remove_step(pre, orig.subrange(0, i as int), x, r, result@);
                assert(orig.subrange(0, i as int + 1) =~= orig.subrange(0, i as int).push(x));
            }
            i = i + 1;
        }
        proof {
            assert(orig.subrange(0, n as int) =~= orig);
        }
        self.entries = result;
    }
}

/// One step of subtraction: extending an accumulator that covers `s` minus
/// `r` with the surviving pieces of `x` yields one that covers `s.push(x)`
/// minus `r`.
proof fn lemma_remove_step(pre: Seq<Range>, s: Seq<Range>, x: Range, r: Range, post: Seq<Range>)
    requires
        x.wf(),
        r.wf(),
        covers_diff(pre, s, r),
        post == (if x.end < r.start || x.start > r.end {
            pre.push(x)
        } else if x.start < r.start && x.end > r.end {
            pre.push(Range { start: x.start, end: (r.start - 1) as u64 }).push(
                Range { start: (r.end + 1) as u64, end: x.end },
            )
        } else if x.start < r.start {
            pre.push(Range { start: x.start, end: (r.start - 1) as u64 })
        } else if x.end > r.end {
            pre.push(Range { start: (r.end + 1) as u64, end: x.end })
        } else {
            pre
        }),
    ensures
        covers_diff(post, s.push(x), r),
{
    let left = Range { start: x.start, end: (r.start - 1) as u64 };
    let right = Range { start: (r.end + 1) as u64, end: x.end };
    assert forall|a: int| #![trigger seq_covers(post, a)]
        seq_covers(post, a) <==> seq_covers(s.push(x), a) && !r.spec_contains(a) by {
        lemma_covers_push(s, x, a);
        if x.end < r.start || x.start > r.end {
            lemma_covers_push(pre, x, a);
        } else if x.start < r.start && x.end > r.end {
            lemma_covers_push(pre.push(left), right, a);
            lemma_covers_push(pre, left, a);
        } else if x.start < r.start {
            lemma_covers_push(pre, left, a);
        } else if x.end > r.end {
            lemma_covers_push(pre, right, a);
        }
    }
}

/// Normal form is canonical: two normal-form sequences that cover exactly
/// the same addresses are the same sequence.
#[verifier::rlimit(100)]
pub proof fn lemma_canonical_form(s1: Seq<Range>, s2: Seq<Range>)
    requires
        wf_seq(s1),
        wf_seq(s2),
        forall|a: int| seq_covers(s1, a) <==> seq_covers(s2, a),
    ensures
        s1 == s2,
    decreases s1.len(),
{
    if s1.len() == 0 {
        if s2.len() > 0 {
            assert(s2[0].spec_contains(s2[0].start as int));
            assert(seq_covers(s2, s2[0].start as int));
            assert(seq_covers(s1, s2[0].start as int));
            assert(false);
        }
        assert(s1 =~= s2);
    } else if s2.len() == 0 {
        assert(s1[0].spec_contains(s1[0].start as int));
        assert(seq_covers(s1, s1[0].start as int));
        assert(seq_covers(s2, s1[0].start as int));
        assert(false);
        assert(s1 =~= s2);
    } else {
        assert forall|a: int| seq_covers(s2, a) <==> seq_covers(s1, a) by {}
        lemma_head_start_le(s1, s2);
        lemma_head_start_le(s2, s1);
        lemma_head_end_ge(s1, s2);
        lemma_head_end_ge(s2, s1);
        assert(s1[0] == s2[0]);

        // The tails cover the same addresses, so they are equal as well.
        let t1 = s1.subrange(1, s1.len() as int);
        let t2 = s2.subrange(1, s2.len() as int);
        lemma_wf_subrange(s1, 1, s1.len() as int);
        lemma_wf_subrange(s2, 1, s2.len() as int);
        lemma_covers_tail(s1);
        lemma_covers_tail(s2);
        assert forall|a: int| seq_covers(t1, a) <==> seq_covers(t2, a) by {
            assert(seq_covers(t1, a) <==> seq_covers(s1, a) && a > s1[0].end);
            assert(seq_covers(t2, a) <==> seq_covers(s2, a) && a > s2[0].end);
        }
        lemma_canonical_form(t1, t2);
        assert forall|k: int| 0 <= k < s1.len() implies s1[k] == s2[k] by {
            if k > 0 {
                assert(s1[k] == t1[k - 1] && s2[k] == t2[k - 1]);
            }
        }
        assert(s1 =~= s2);
    }
}

/// With the same covered addresses, the second sequence's first range cannot
/// start later than the first sequence's: the least covered address is the
/// first range's start.
proof fn lemma_head_start_le(s1: Seq<Range>, s2: Seq<Range>)
    requires
        wf_seq(s1),
        wf_seq(s2),
        s1.len() > 0,
        s2.len() > 0,
        forall|a: int| seq_covers(s1, a) <==> seq_covers(s2, a),
    ensures
        s2[0].start <= s1[0].start,
{
    let b = s1[0].start as int;
    assert(s1[0].spec_contains(b));
    assert(seq_covers(s1, b));
    assert(seq_covers(s2, b));
    let j = choose|j: int| 0 <= j < s2.len() && (#[trigger] s2[j]).spec_contains(b);
    if j > 0 {
        lemma_wf_ordered(s2, 0, j);
    }
}

/// With the same covered addresses and equal first starts, the second
/// sequence's first range cannot end before the first sequence's: the address
/// one past its end is covered by no range of a normal-form sequence.
proof fn lemma_head_end_ge(s1: Seq<Range>, s2: Seq<Range>)
    requires
        wf_seq(s1),
        wf_seq(s2),
        s1.len() > 0,
        s2.len() > 0,
        s1[0].start == s2[0].start,
        forall|a: int| seq_covers(s1, a) <==> seq_covers(s2, a),
    ensures
        s2[0].end >= s1[0].end,
{
    if s2[0].end < s1[0].end {
        let b = s2[0].end + 1;
        assert(s1[0].spec_contains(b));
        assert(seq_covers(s1, b));
        assert(seq_covers(s2, b));
        let j = choose|j: int| 0 <= j < s2.len() && (#[trigger] s2[j]).spec_contains(b);
        if j > 0 {
            lemma_wf_ordered(s2, 0, j);
        }
        assert(false);
    }
}

/// In a normal-form sequence, the tail covers exactly the covered addresses
/// beyond the first range's end.
proof fn lemma_covers_tail(s: Seq<Range>)
    requires
        wf_seq(s),
        s.len() > 0,
    ensures
        forall|a: int|
            seq_covers(s.subrange(1, s.len() as int), a) <==> seq_covers(s, a) && a > s[0].end,
{
    let t = s.subrange(1, s.len() as int);
    assert forall|a: int|
        seq_covers(t, a) <==> seq_covers(s, a) && a > s[0].end by {
        if seq_covers(t, a) {
            let i = choose|i: int| 0 <= i < t.len() && (#[trigger] t[i]).spec_contains(a);
            assert(t[i] == s[i + 1]);
            lemma_wf_ordered(s, 0, i + 1);
            assert(s[i + 1].spec_contains(a));
        }
        if seq_covers(s, a) && a > s[0].end {
            let i = choose|i: int| 0 <= i < s.len() && (#[trigger] s[i]).spec_contains(a);
            assert(i > 0);
            assert(t[i - 1].spec_contains(a));
        }
    }
}

/// Inserting a range a second time changes nothing: starting from the same
/// normal-form content `s0`, the content `s1` after one insert of `r` and the
/// content `s2` after a second insert of `r` are the same.
pub proof fn lemma_insert_idempotent(s0: Seq<Range>, s1: Seq<Range>, s2: Seq<Range>, r: Range)
    requires
        wf_seq(s1),
        wf_seq(s2),
        covers_union(s1, s0, r),
        covers_union(s2, s1, r),
    ensures
        s1 == s2,
{
    assert forall|a: int| seq_covers(s1, a) <==> seq_covers(s2, a) by {}
    lemma_canonical_form(s1, s2);
}

/// Removing a range a second time changes nothing: starting from the same
/// normal-form content `s0`, the content `s1` after one remove of `r` and the
/// content `s2` after a second remove of `r` are the same.
pub proof fn lemma_remove_idempotent(s0: Seq<Range>, s1: Seq<Range>, s2: Seq<Range>, r: Range)
    requires
        wf_seq(s1),
        wf_seq(s2),
        covers_diff(s1, s0, r),
        covers_diff(s2, s1, r),
    ensures
        s1 == s2,
{
    assert forall|a: int| seq_covers(s1, a) <==> seq_covers(s2, a) by {}
    lemma_canonical_form(s1, s2);
}

/// Two inserts commute: inserting `r1` then `r2` yields the same content as
/// inserting `r2` then `r1`. `sa`/`sab` are the contents after `r1` and then
/// `r2`; `sb`/`sba` after `r2` and then `r1`.
pub proof fn lemma_insert_commutes(
    s0: Seq<Range>,
    sa: Seq<Range>,
    sab: Seq<Range>,
    sb: Seq<Range>,
    sba: Seq<Range>,
    r1: Range,
    r2: Range,
)
    requires
        wf_seq(sab),
        wf_seq(sba),
        covers_union(sa, s0, r1),
        covers_union(sab, sa, r2),
        covers_union(sb, s0, r2),
        covers_union(sba, sb, r1),
    ensures
        sab == sba,
{
    assert forall|a: int| seq_covers(sab, a) <==> seq_covers(sba, a) by {}
    lemma_canonical_form(sab, sba);
}

/// Two removes commute: removing `r1` then `r2` yields the same content as
/// removing `r2` then `r1`. `sa`/`sab` are the contents after `r1` and then
/// `r2`; `sb`/`sba` after `r2` and then `r1`.
pub proof fn lemma_remove_commutes(
    s0: Seq<Range>,
    sa: Seq<Range>,
    sab: Seq<Range>,
    sb: Seq<Range>,
    sba: Seq<Range>,
    r1: Range,
    r2: Range,
)
    requires
        wf_seq(sab),
        wf_seq(sba),
        covers_diff(sa, s0, r1),
        covers_diff(sab, sa, r2),
        covers_diff(sb, s0, r2),
        covers_diff(sba, sb, r1),
    ensures
        sab == sba,
{
    assert forall|a: int| seq_covers(sab, a) <==> seq_covers(sba, a) by {}
    lemma_canonical_form(sab, sba);
}

/// Whether the closed range ending at `end` leaves a gap of at least one
/// address before the position `start`: `end + 1 < start` without overflow.
fn gap_between(end: u64, start: u64) -> (b: bool)
    ensures
        b == (end + 1 < start),
{
    end < start && start - end >= 2
}

} // verus!

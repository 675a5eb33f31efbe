//! The block numbers of one body that were seen so far, kept as ranges.
use vstd::prelude::*;

verus! {

/// How many separate ranges of block numbers a [`RangeSet`] opens before it refuses blocks that
/// would need another one.
pub const RBLOCK_CNT: usize = 10;

/// What a [`RangeSet`] stands for: the tracked block numbers, and how many blocks the body has,
/// once its last block was seen.
#[verifier::ext_equal]
pub struct BlockSet {
    pub blocks: Set<u32>,
    pub total: Option<u32>,
}

/// The members of a set that follow no other member.
pub open spec fn run_starts(blocks: Set<u32>) -> Set<u32> {
    Set::new(|n: u32| blocks.contains(n) && (n == 0 || !blocks.contains((n - 1) as u32)))
}

/// Into how many runs of consecutive numbers a set falls.
pub open spec fn run_count(blocks: Set<u32>) -> nat {
    run_starts(blocks).len()
}

/// Whether `n` is the smallest member of a set.
pub open spec fn is_least(blocks: Set<u32>, n: u32) -> bool {
    &&& blocks.contains(n)
    &&& forall|m: u32| #[trigger] blocks.contains(m) ==> n <= m
}

/// The smallest member of a set that has one.
pub open spec fn least(blocks: Set<u32>) -> u32 {
    choose|n: u32| is_least(blocks, n)
}

/// The numbers below `end`.
pub open spec fn blocks_below(end: u32) -> Set<u32> {
    Set::new(|n: u32| n < end)
}

impl BlockSet {
    /// No block tracked, length unknown.
    pub open spec fn empty() -> BlockSet {
        BlockSet { blocks: Set::empty(), total: None }
    }

    /// Whether a neighbour of block `n` is tracked.
    pub open spec fn touches(self, n: u32) -> bool {
        ||| n > 0 && self.blocks.contains((n - 1) as u32)
        ||| n < u32::MAX && self.blocks.contains((n + 1) as u32)
    }

    /// Whether block `n` can be tracked: it is not beyond the end of the body, and it is tracked
    /// already, or extends a run, or there is room for another run.
    pub open spec fn admits(self, n: u32) -> bool {
        &&& self.total matches Some(total) ==> n < total
        &&& self.blocks.contains(n) || self.touches(n) || run_count(self.blocks) < RBLOCK_CNT
    }

    /// With block `n` tracked; the last block of a body tells how many there are.
    pub open spec fn with(self, n: u32, more: bool) -> BlockSet {
        BlockSet {
            blocks: self.blocks.insert(n),
            total: if more {
                self.total
            } else {
                Some((n + 1) as u32)
            },
        }
    }

    /// Without block `n`.
    pub open spec fn without(self, n: u32) -> BlockSet {
        BlockSet { blocks: self.blocks.remove(n), total: self.total }
    }

    /// With block `n` tracked, if it can be.
    pub open spec fn offered(self, n: u32, more: bool) -> BlockSet {
        if self.admits(n) {
            self.with(n, more)
        } else {
            self
        }
    }

    /// Whether every block of the body is tracked.
    pub open spec fn complete(self) -> bool {
        self.total matches Some(total) && forall|n: u32| n < total ==> self.blocks.contains(n)
    }

    /// The numbers up to `last` that are not tracked, in ascending order.
    pub open spec fn missing(self, last: u32) -> Seq<u32> {
        missing_below(self.blocks, last as nat + 1)
    }
}

/// The numbers below `end` outside a set, in ascending order.
pub open spec fn missing_below(blocks: Set<u32>, end: nat) -> Seq<u32>
    decreases end,
{
    if end == 0 {
        Seq::empty()
    } else {
        let before = missing_below(blocks, (end - 1) as nat);
        if blocks.contains((end - 1) as u32) {
            before
        } else {
            before.push((end - 1) as u32)
        }
    }
}

/// The list of missing numbers ascends, and names exactly the numbers below `end` that are not
/// in the set.
pub proof fn law_missing_names_the_gaps(blocks: Set<u32>, end: nat)
    requires
        end <= u32::MAX as nat + 1,
    ensures
        forall|i: int, j: int|
            0 <= i < j < missing_below(blocks, end).len() ==> missing_below(blocks, end)[i]
                < missing_below(blocks, end)[j],
        forall|n: u32| #[trigger]
            missing_below(blocks, end).contains(n) <==> n < end && !blocks.contains(n),
    decreases end,
{
    if end > 0 {
        law_missing_names_the_gaps(blocks, (end - 1) as nat);
        let before = missing_below(blocks, (end - 1) as nat);
        let all = missing_below(blocks, end);
        let last = (end - 1) as u32;
        assert forall|i: int| 0 <= i < before.len() implies (#[trigger] before[i]) < last by {
            assert(before.contains(before[i]));
        }
        assert forall|n: u32| #[trigger] all.contains(n) <==> n < end && !blocks.contains(n) by {
            if all.contains(n) {
                let i = choose|i: int| 0 <= i < all.len() && all[i] == n;
                if i < before.len() {
                    assert(before.contains(n));
                }
            }
            if n < end && !blocks.contains(n) {
                if n < last {
                    assert(before.contains(n));
                    let i = choose|i: int| 0 <= i < before.len() && before[i] == n;
                    assert(all[i] == n);
                } else {
                    assert(all[before.len() as int] == n);
                }
            }
        }
    }
}

/// Numbers in the set add nothing to the list.
proof fn lemma_missing_skip(blocks: Set<u32>, from: nat, to: nat)
    requires
        from <= to <= u32::MAX as nat + 1,
        forall|n: u32| from <= n < to ==> blocks.contains(n),
    ensures
        missing_below(blocks, from) == missing_below(blocks, to),
    decreases to,
{
    if from < to {
        lemma_missing_skip(blocks, from, (to - 1) as nat);
        assert(blocks.contains((to - 1) as u32));
    }
}

/// Whether some range holds `n`.
spec fn covered(ranges: Seq<(u32, u32)>, n: u32) -> bool {
    exists|i: int| 0 <= i < ranges.len() && (#[trigger] ranges[i]).0 <= n < ranges[i].1
}

/// Ranges hold something, ascend, and leave a gap to the next.
spec fn normal(ranges: Seq<(u32, u32)>) -> bool {
    &&& forall|i: int| 0 <= i < ranges.len() ==> (#[trigger] ranges[i]).0 < ranges[i].1
    &&& forall|i: int, j: int|
        0 <= i < j < ranges.len() ==> (#[trigger] ranges[i]).1 < (#[trigger] ranges[j]).0
}

spec fn covered_set(ranges: Seq<(u32, u32)>) -> Set<u32> {
    Set::new(|n: u32| covered(ranges, n))
}

proof fn lemma_run_count(ranges: Seq<(u32, u32)>)
    requires
        normal(ranges),
    ensures
        run_count(covered_set(ranges)) == ranges.len(),
{
    let lows = ranges.map_values(|range: (u32, u32)| range.0);
    let blocks = covered_set(ranges);
    assert(lows.no_duplicates()) by {
        assert forall|i: int, j: int|
            0 <= i < lows.len() && 0 <= j < lows.len() && i != j implies lows[i] != lows[j] by {
            if i < j {
                assert(ranges[i].1 < ranges[j].0);
            } else {
                assert(ranges[j].1 < ranges[i].0);
            }
        }
    }
    lows.unique_seq_to_set();
    assert forall|n: u32| run_starts(blocks).contains(n) <==> lows.to_set().contains(n) by {
        if run_starts(blocks).contains(n) {
            let i = choose|i: int|
                0 <= i < ranges.len() && (#[trigger] ranges[i]).0 <= n < ranges[i].1;
            if ranges[i].0 < n {
                assert(covered(ranges, (n - 1) as u32)) by {
                    assert(ranges[i].0 <= n - 1 < ranges[i].1);
                }
                assert(false);
            }
            assert(lows[i] == n);
        }
        if lows.to_set().contains(n) {
            let i = choose|i: int| 0 <= i < lows.len() && lows[i] == n;
            assert(ranges[i].0 == n);
            assert(covered(ranges, n));
            if n > 0 && covered(ranges, (n - 1) as u32) {
                let j = choose|j: int|
                    0 <= j < ranges.len() && (#[trigger] ranges[j]).0 <= n - 1 < ranges[j].1;
                if j < i {
                    assert(ranges[j].1 < ranges[i].0);
                } else if i < j {
                    assert(ranges[i].1 < ranges[j].0);
                }
                assert(false);
            }
        }
    }
    assert(run_starts(blocks) =~= lows.to_set());
}

/// The numbers below `end` form one run, or none.
pub proof fn lemma_run_count_below(end: u32)
    ensures
        run_count(blocks_below(end)) == (if end == 0 {
            0nat
        } else {
            1nat
        }),
{
    let blocks = blocks_below(end);
    if end == 0 {
        assert(run_starts(blocks) =~= Set::empty());
    } else {
        assert(run_starts(blocks) =~= Set::<u32>::empty().insert(0u32));
    }
}

/// There are finitely many numbers below `end`.
pub proof fn lemma_below_finite(end: nat)
    requires
        end <= u32::MAX,
    ensures
        blocks_below(end as u32).finite(),
    decreases end,
{
    if end == 0 {
        assert(blocks_below(0) =~= Set::<u32>::empty());
    } else {
        lemma_below_finite((end - 1) as nat);
        assert(blocks_below(end as u32) =~= blocks_below((end - 1) as u32).insert((end - 1) as u32));
    }
}

/// A set of block numbers of one body, kept as ranges. It opens at most [`RBLOCK_CNT`] ranges
/// for blocks that arrive out of order.
pub struct RangeSet {
    /// Half-open ranges.
    ranges: Vec<(u32, u32)>,
    total: Option<u32>,
}

impl View for RangeSet {
    type V = BlockSet;

    closed spec fn view(&self) -> BlockSet {
        BlockSet { blocks: covered_set(self.ranges@), total: self.total }
    }
}

impl RangeSet {
    /// Ranges are in order and apart, and a known length is not zero.
    pub closed spec fn wf(&self) -> bool {
        &&& normal(self.ranges@)
        &&& self.total != Some(0u32)
    }

    /// An empty set.
    pub fn new() -> (set: RangeSet)
        ensures
            set.wf(),
            set@ == BlockSet::empty(),
    {
        let set = RangeSet { ranges: Vec::new(), total: None };
        assert(set@.blocks =~= Set::<u32>::empty());
        set
    }

    /// Tracks block `n`, where `more` says whether blocks follow it. Returns whether it could be
    /// tracked; a block that cannot be changes nothing.
    pub fn insert(&mut self, n: u32, more: bool) -> (taken: bool)
        requires
            old(self).wf(),
            n < u32::MAX,
        ensures
            final(self).wf(),
            taken == old(self)@.admits(n),
            final(self)@ == old(self)@.offered(n, more),
    {
        proof {
            lemma_run_count(self.ranges@);
        }
        if let Some(total) = self.total {
            if n >= total {
                return false;
            }
        }
        let ghost before = self.ranges@;
        let mut i: usize = 0;
        while i < self.ranges.len() && self.ranges[i].1 < n
            invariant
                self.ranges@ == before,
                normal(before),
                i <= before.len(),
                forall|j: int| 0 <= j < i ==> (#[trigger] before[j]).1 < n,
            decreases before.len() - i,
        {
            i += 1;
        }
        if i < self.ranges.len() && self.ranges[i].0 <= n && n < self.ranges[i].1 {
            // already tracked
            assert(covered(before, n));
            assert(covered_set(before).insert(n) =~= covered_set(before));
        } else if i < self.ranges.len() && self.ranges[i].1 == n {
            self.extend_up(i, n);
        } else if i < self.ranges.len() && self.ranges[i].0 == n + 1 {
            self.extend_down(i, n);
        } else {
            proof {
                lemma_apart(before, i as int, n);
            }
            if self.ranges.len() >= RBLOCK_CNT {
                return false;
            }
            self.open_range(i, n);
        }
        if !more {
            self.total = Some(n + 1);
        }
        true
    }

    /// Takes block `n` out.
    pub fn remove(&mut self, n: u32)
        requires
            old(self).wf(),
        ensures
            final(self).wf(),
            final(self)@ == old(self)@.without(n),
    {
        let ghost before = self.ranges@;
        let mut i: usize = 0;
        while i < self.ranges.len() && self.ranges[i].1 <= n
            invariant
                self.ranges@ == before,
                normal(before),
                i <= before.len(),
                forall|j: int| 0 <= j < i ==> (#[trigger] before[j]).1 <= n,
            decreases before.len() - i,
        {
            i += 1;
        }
        if i == self.ranges.len() || n < self.ranges[i].0 {
            proof {
                assert forall|j: int| i <= j < before.len() implies n < (#[trigger] before[j]).0 by {
                    if i < j {
                        assert(before[i as int].1 < before[j].0);
                    }
                }
                assert(!covered(before, n));
                assert(covered_set(before) =~= covered_set(before).remove(n));
            }
            return ;
        }
        let (low, high) = self.ranges[i];
        if low == n && n + 1 == high {
            self.ranges.remove(i);
        } else if low == n {
            self.ranges.set(i, (n + 1, high));
        } else if n + 1 == high {
            self.ranges.set(i, (low, n));
        } else {
            self.ranges.set(i, (low, n));
            self.ranges.insert(i + 1, (n + 1, high));
        }
        proof {
            lemma_block_removed(before, self.ranges@, i as int, n);
        }
    }

    /// The smallest block number in the set.
    pub fn first(&self) -> (n: Option<u32>)
        requires
            self.wf(),
        ensures
            n is None ==> self@.blocks =~= Set::<u32>::empty(),
            n matches Some(n) ==> is_least(self@.blocks, n) && n == least(self@.blocks),
    {
        if self.ranges.len() == 0 {
            None
        } else {
            let n = self.ranges[0].0;
            proof {
                assert(self.ranges@[0].0 <= n < self.ranges@[0].1);
                assert forall|m: u32| #[trigger] self@.blocks.contains(m) implies n <= m by {
                    let k = choose|k: int|
                        0 <= k < self.ranges@.len() && (#[trigger] self.ranges@[k]).0 <= m
                            < self.ranges@[k].1;
                    if k > 0 {
                        assert(self.ranges@[0].1 < self.ranges@[k].0);
                    }
                }
                assert(is_least(self@.blocks, n));
                let m = least(self@.blocks);
                assert(is_least(self@.blocks, m));
            }
            Some(n)
        }
    }

    /// Whether the set holds no block.
    pub fn is_empty(&self) -> (empty: bool)
        requires
            self.wf(),
        ensures
            empty == (self@.blocks =~= Set::<u32>::empty()),
    {
        if self.ranges.len() == 0 {
            true
        } else {
            assert(self.ranges@[0].0 <= self.ranges@[0].0 < self.ranges@[0].1);
            assert(self@.blocks.contains(self.ranges@[0].0));
            false
        }
    }

    /// Whether the last block of the body was seen and every block before it too.
    pub fn is_complete(&self) -> (complete: bool)
        requires
            self.wf(),
        ensures
            complete == self@.complete(),
    {
        match self.total {
            None => false,
            Some(total) => {
                if self.ranges.len() > 0 && self.ranges[0].0 == 0 && self.ranges[0].1 >= total {
                    assert forall|n: u32| n < total implies self@.blocks.contains(n) by {
                        assert(self.ranges@[0].0 <= n < self.ranges@[0].1);
                    }
                    true
                } else {
                    proof {
                        if self@.complete() {
                            let ranges = self.ranges@;
                            assert(self@.blocks.contains(0));
                            let k = choose|k: int|
                                0 <= k < ranges.len() && (#[trigger] ranges[k]).0 <= 0
                                    < ranges[k].1;
                            if k > 0 {
                                assert(ranges[0].1 < ranges[k].0);
                            }
                            let gap = ranges[0].1;
                            assert(self@.blocks.contains(gap));
                            let j = choose|j: int|
                                0 <= j < ranges.len() && (#[trigger] ranges[j]).0 <= gap
                                    < ranges[j].1;
                            assert(ranges[0].1 < ranges[j].0);
                        }
                    }
                    false
                }
            },
        }
    }

    /// How many blocks the body has, once its last block was seen.
    pub fn total_blocks(&self) -> (total: Option<u32>)
        requires
            self.wf(),
        ensures
            total == self@.total,
            total != Some(0u32),
    {
        self.total
    }

    /// The block numbers up to `last` that are not in the set, in ascending order.
    pub fn missing(&self, last: u32) -> (missing: Vec<u32>)
        requires
            self.wf(),
        ensures
            missing@ == self@.missing(last),
    {
        let ghost ranges = self.ranges@;
        let mut missing: Vec<u32> = Vec::new();
        let mut next: u64 = 0;
        let mut i: usize = 0;
        while next <= last as u64
            invariant
                ranges == self.ranges@,
                normal(ranges),
                i <= ranges.len(),
                next <= u32::MAX as u64 + 1,
                forall|j: int| 0 <= j < i ==> (#[trigger] ranges[j]).1 <= next,
                missing@ == missing_below(self@.blocks, next as nat),
                forall|n: u32| last < n < next ==> self@.blocks.contains(n),
            decreases (u32::MAX as u64 + 1 - next) + (ranges.len() - i),
        {
            if i < self.ranges.len() && self.ranges[i].1 as u64 <= next {
                i += 1;
            } else if i < self.ranges.len() && self.ranges[i].0 as u64 <= next {
                let high = self.ranges[i].1;
                proof {
                    assert forall|n: u32| next <= n < high implies self@.blocks.contains(n) by {
                        assert(ranges[i as int].0 <= n < ranges[i as int].1);
                    }
                    lemma_missing_skip(self@.blocks, next as nat, high as nat);
                }
                next = high as u64;
            } else {
                let n = next as u32;
                proof {
                    assert forall|j: int| i <= j < ranges.len() implies n < (#[trigger] ranges[j]).0 by {
                        if i < j {
                            assert(ranges[i as int].1 < ranges[j].0);
                        }
                    }
                    assert(!self@.blocks.contains(n));
                }
                missing.push(n);
                next += 1;
            }
        }
        proof {
            lemma_missing_skip(self@.blocks, last as nat + 1, next as nat);
        }
        missing
    }

    /// Moves the upper end of range `i` past block `n`, and joins the range with the next one if
    /// they now meet.
    fn extend_up(&mut self, i: usize, n: u32)
        requires
            normal(old(self).ranges@),
            i < old(self).ranges@.len(),
            old(self).ranges@[i as int].1 == n,
            n < u32::MAX,
        ensures
            normal(final(self).ranges@),
            covered_set(final(self).ranges@) == covered_set(old(self).ranges@).insert(n),
            final(self).total == old(self).total,
            n > 0,
            covered(old(self).ranges@, (n - 1) as u32),
    {
        let ghost before = self.ranges@;
        let low = self.ranges[i].0;
        assert(before[i as int].0 <= n - 1 < before[i as int].1);
        if self.ranges.len() - i > 1 && self.ranges[i + 1].0 == n + 1 {
            let high = self.ranges[i + 1].1;
            self.ranges.remove(i + 1);
            self.ranges.set(i, (low, high));
            let ghost after = self.ranges@;
            assert forall|m: u32| covered(after, m) <==> covered(before, m) || m == n by {
                if covered(after, m) {
                    let k = choose|k: int|
                        0 <= k < after.len() && (#[trigger] after[k]).0 <= m < after[k].1;
                    if k < i {
                        assert(before[k] == after[k]);
                    } else if k == i {
                        assert(before[i as int].0 <= m);
                        assert(m < before[i + 1].1);
                        if m < n {
                            assert(covered(before, m));
                        } else if m > n {
                            assert(before[i + 1].0 <= m);
                        }
                    } else {
                        assert(before[k + 1] == after[k]);
                    }
                }
                if covered(before, m) {
                    let k = choose|k: int|
                        0 <= k < before.len() && (#[trigger] before[k]).0 <= m < before[k].1;
                    if k < i {
                        assert(before[k] == after[k]);
                    } else if k <= i + 1 {
                        assert(before[i as int].1 < before[i + 1].0);
                        assert(after[i as int].0 <= m < after[i as int].1);
                    } else {
                        assert(before[k] == after[k - 1]);
                    }
                }
                if m == n {
                    assert(after[i as int].0 <= m < after[i as int].1);
                }
            }
        } else {
            self.ranges.set(i, (low, n + 1));
            let ghost after = self.ranges@;
            proof {
                lemma_one_range_changed(before, after, i as int, n);
            }
        }
        assert(covered_set(self.ranges@) =~= covered_set(before).insert(n));
    }

    /// Moves the lower end of range `i` down to block `n`.
    fn extend_down(&mut self, i: usize, n: u32)
        requires
            normal(old(self).ranges@),
            i < old(self).ranges@.len(),
            old(self).ranges@[i as int].0 == n + 1,
            forall|j: int| 0 <= j < i ==> (#[trigger] old(self).ranges@[j]).1 < n,
        ensures
            normal(final(self).ranges@),
            covered_set(final(self).ranges@) == covered_set(old(self).ranges@).insert(n),
            final(self).total == old(self).total,
            covered(old(self).ranges@, (n + 1) as u32),
    {
        let ghost before = self.ranges@;
        assert(before[i as int].0 <= n + 1 < before[i as int].1);
        let high = self.ranges[i].1;
        self.ranges.set(i, (n, high));
        proof {
            lemma_one_range_changed(before, self.ranges@, i as int, n);
        }
        assert(covered_set(self.ranges@) =~= covered_set(before).insert(n));
    }

    /// Opens a range for block `n` alone, before range `i`.
    fn open_range(&mut self, i: usize, n: u32)
        requires
            normal(old(self).ranges@),
            i <= old(self).ranges@.len(),
            n < u32::MAX,
            forall|j: int| 0 <= j < i ==> (#[trigger] old(self).ranges@[j]).1 < n,
            i < old(self).ranges@.len() ==> n + 1 < old(self).ranges@[i as int].0,
        ensures
            normal(final(self).ranges@),
            covered_set(final(self).ranges@) == covered_set(old(self).ranges@).insert(n),
            final(self).total == old(self).total,
    {
        let ghost before = self.ranges@;
        self.ranges.insert(i, (n, n + 1));
        let ghost after = self.ranges@;
        assert forall|m: u32| covered(after, m) <==> covered(before, m) || m == n by {
            if covered(after, m) {
                let k = choose|k: int|
                    0 <= k < after.len() && (#[trigger] after[k]).0 <= m < after[k].1;
                if k < i {
                    assert(before[k] == after[k]);
                } else if k > i {
                    assert(before[k - 1] == after[k]);
                }
            }
            if covered(before, m) {
                let k = choose|k: int|
                    0 <= k < before.len() && (#[trigger] before[k]).0 <= m < before[k].1;
                if k < i {
                    assert(before[k] == after[k]);
                } else {
                    assert(before[k] == after[k + 1]);
                }
            }
            if m == n {
                assert(after[i as int].0 <= m < after[i as int].1);
            }
        }
        assert(normal(after)) by {
            assert forall|a: int, b: int| 0 <= a < b < after.len() implies (#[trigger] after[a]).1
                < (#[trigger] after[b]).0 by {
                if b < i {
                    assert(before[a].1 < before[b].0);
                } else if b == i {
                    assert(before[a].1 < n);
                } else if a > i {
                    assert(before[a - 1].1 < before[b - 1].0);
                } else if a < i {
                    assert(before[a].1 < before[b - 1].0);
                } else {
                    if b > i + 1 {
                        assert(before[i as int].1 < before[b - 1].0);
                    }
                }
            }
        }
        assert(covered_set(self.ranges@) =~= covered_set(before).insert(n));
    }
}

/// One range that takes in one more block at one of its ends.
proof fn lemma_one_range_changed(
    before: Seq<(u32, u32)>,
    after: Seq<(u32, u32)>,
    i: int,
    n: u32,
)
    requires
        0 <= i < before.len(),
        after == before.update(i, after[i]),
        before[i].0 < before[i].1,
        (after[i].0 == before[i].0 && before[i].1 == n && after[i].1 == n + 1) || (after[i].1
            == before[i].1 && before[i].0 == n + 1 && after[i].0 == n),
    ensures
        covered_set(after) == covered_set(before).insert(n),
{
    assert forall|m: u32| covered(after, m) <==> covered(before, m) || m == n by {
        if covered(after, m) {
            let k = choose|k: int|
                0 <= k < after.len() && (#[trigger] after[k]).0 <= m < after[k].1;
            assert(k != i ==> before[k] == after[k]);
            assert(k == i && m != n ==> before[i].0 <= m < before[i].1);
        }
        if covered(before, m) {
            let k = choose|k: int|
                0 <= k < before.len() && (#[trigger] before[k]).0 <= m < before[k].1;
            assert(k != i ==> before[k] == after[k]);
            assert(k == i ==> after[i].0 <= m < after[i].1);
        }
        if m == n {
            assert(after[i].0 <= m < after[i].1);
        }
    }
    assert(covered_set(after) =~= covered_set(before).insert(n));
}

/// One block gone from range `i`: the range is gone, shorter at one end, or in two pieces.
proof fn lemma_block_removed(before: Seq<(u32, u32)>, after: Seq<(u32, u32)>, i: int, n: u32)
    requires
        normal(before),
        0 <= i < before.len(),
        before[i].0 <= n < before[i].1,
        ({
            let (low, high) = before[i];
            if low == n && n + 1 == high {
                after == before.remove(i)
            } else if low == n {
                after == before.update(i, ((n + 1) as u32, high))
            } else if n + 1 == high {
                after == before.update(i, (low, n))
            } else {
                after == before.update(i, (low, n)).insert(i + 1, ((n + 1) as u32, high))
            }
        }),
    ensures
        normal(after),
        covered_set(after) == covered_set(before).remove(n),
{
    let (low, high) = before[i];
    let shift: int = after.len() - before.len();
    assert(forall|k: int| 0 <= k < i ==> after[k] == before[k]);
    assert(forall|k: int| i < k < before.len() ==> #[trigger] before[k] == after[k + shift]);
    assert(forall|k: int|
        i + shift < k < after.len() ==> #[trigger] after[k] == before[k - shift]);
    assert forall|m: u32| covered(after, m) <==> covered(before, m) && m != n by {
        if covered(after, m) {
            let k = choose|k: int|
                0 <= k < after.len() && (#[trigger] after[k]).0 <= m < after[k].1;
            if k < i {
                assert(before[k].1 < before[i].0);
            } else if k > i + shift {
                assert(before[i].1 < before[k - shift].0);
            } else {
                assert(before[i].0 <= m < before[i].1);
            }
        }
        if covered(before, m) && m != n {
            let k = choose|k: int|
                0 <= k < before.len() && (#[trigger] before[k]).0 <= m < before[k].1;
            if k < i {
                assert(after[k] == before[k]);
            } else if k > i {
                assert(after[k + shift] == before[k]);
            } else if m < n {
                assert(after[i].0 <= m < after[i].1);
            } else {
                assert(after[i + shift].0 <= m < after[i + shift].1);
            }
        }
    }
    assert forall|a: int, b: int| 0 <= a < b < after.len() implies (#[trigger] after[a]).1 < (
    #[trigger] after[b]).0 by {
        if b < i {
            assert(before[a].1 < before[b].0);
        } else if a > i + shift {
            assert(before[a - shift].1 < before[b - shift].0);
        } else if a < i && b > i + shift {
            assert(before[a].1 < before[b - shift].0);
        } else if a < i {
            assert(before[a].1 < before[i].0);
        } else if b > i + shift {
            assert(before[i].1 < before[b - shift].0);
        }
    }
    assert(covered_set(after) =~= covered_set(before).remove(n));
}

/// Between two ranges, with room on both sides, neither a block nor its neighbours are tracked.
proof fn lemma_apart(ranges: Seq<(u32, u32)>, i: int, n: u32)
    requires
        normal(ranges),
        0 <= i <= ranges.len(),
        n < u32::MAX,
        forall|j: int| 0 <= j < i ==> (#[trigger] ranges[j]).1 < n,
        i < ranges.len() ==> n + 1 < ranges[i].0,
    ensures
        !covered(ranges, n),
        n > 0 ==> !covered(ranges, (n - 1) as u32),
        !covered(ranges, (n + 1) as u32),
{
    assert forall|j: int| i <= j < ranges.len() implies n + 1 < (#[trigger] ranges[j]).0 by {
        if i < j {
            assert(ranges[i].1 < ranges[j].0);
        }
    }
}

} // verus!

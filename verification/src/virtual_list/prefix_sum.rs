//! An extent model backed by per-item extents and a lazily maintained
//! prefix-sum cache.

use crate::virtual_list::fixed::{clamp_negative, non_negative};
use crate::virtual_list::model::{ExtentModel, ResizableExtentModel};
use crate::virtual_list::scalar::Scalar;
use vstd::prelude::*;

verus! {

/// An [`ExtentModel`] backed by per-item extents and a lazily-maintained
/// prefix-sum cache.
///
/// This is suitable for lists with non-uniform item sizes and incremental
/// measurement: callers can start with rough estimates and update extents
/// as real layout information becomes available.
#[derive(Clone, Debug)]
pub struct PrefixSumExtentModel<S: Scalar> {
    /// Extent of each item.
    pub extents: Vec<S>,
    /// Cached start offset of each item; valid below `dirty_from`.
    pub prefix_starts: Vec<S>,
    /// First index whose cached start may be stale; `None` when all are
    /// valid.
    pub dirty_from: Option<usize>,
}

/// Sum of the first `n` extents, added from the left, starting at zero.
pub open spec fn prefix_sum<S: Scalar>(extents: Seq<S>, n: int) -> S
    decreases n,
{
    if n <= 0 {
        S::zero_spec()
    } else {
        prefix_sum(extents, n - 1).add_spec(extents[n - 1])
    }
}

/// Start offset of item `index` in a strip: that of the last item for an
/// index past the end, zero for an empty strip.
pub open spec fn start_of<S: Scalar>(extents: Seq<S>, index: usize) -> S {
    if index == 0 || extents.len() == 0 {
        S::zero_spec()
    } else if index < extents.len() {
        prefix_sum(extents, index as int)
    } else {
        prefix_sum(extents, extents.len() - 1)
    }
}

/// Extent of item `index`, zero past the end.
pub open spec fn extent_at_spec<S: Scalar>(extents: Seq<S>, index: usize) -> S {
    if index < extents.len() {
        extents[index as int]
    } else {
        S::zero_spec()
    }
}

/// Total extent of the first `len` items, `len` clamped to the strip.
pub open spec fn total_for_len<S: Scalar>(extents: Seq<S>, len: usize) -> S {
    let n = if len < extents.len() {
        len as int
    } else {
        extents.len() as int
    };
    if n == 0 {
        S::zero_spec()
    } else {
        start_of(extents, (n - 1) as usize).add_spec(extents[n - 1])
    }
}

/// Result of bisecting the starts of items `lo..hi` for `target`: the
/// number of items, counted from index zero, that the search places at or
/// before `target`. The search halves `lo..hi`, keeping to the right of
/// every probe that is not after `target`.
///
/// Where the starts ascend, that is the number of items that start at or
/// before `target` ([`lemma_bisect_splits`]). The definition follows the
/// search because nothing makes the starts of an arbitrary scalar ascend:
/// it says what is found then too.
pub open spec fn bisect<S: Scalar>(extents: Seq<S>, target: S, lo: int, hi: int) -> int
    decreases hi - lo,
{
    if lo >= hi {
        lo
    } else {
        let mid = lo + (hi - lo) / 2;
        if target.lt_spec(prefix_sum(extents, mid)) {
            bisect(extents, target, lo, mid)
        } else {
            bisect(extents, target, mid + 1, hi)
        }
    }
}

/// Index found for `offset` within the first `len` items: the last item
/// that the bisection places at or before the offset, item zero if there is
/// none. A negative offset counts as zero.
pub open spec fn index_for_len<S: Scalar>(extents: Seq<S>, offset: S, len: usize) -> usize {
    let n = if len < extents.len() {
        len as int
    } else {
        extents.len() as int
    };
    if n == 0 {
        0
    } else {
        let count = bisect(extents, offset.max_spec(S::zero_spec()), 0, n);
        if count == 0 {
            0
        } else {
            (count - 1) as usize
        }
    }
}

/// `extent` is what the size function may return for `item`, with a
/// negative size counted as zero.
pub open spec fn sized_by<T, S: Scalar, F: Fn(&T) -> S>(size_fn: F, item: T, extent: S) -> bool {
    exists|v: S| #[trigger] call_ensures(size_fn, (&item,), v) && extent == non_negative(v)
}

/// Whether the starts of the first `n` items split at `c` for `target`:
/// the first `c` items start at or before `target`, and every later one
/// starts after it. Item `c - 1` is then the last that starts at or before
/// `target`.
pub open spec fn splits_at<S: Scalar>(extents: Seq<S>, target: S, n: int, c: int) -> bool {
    &&& 0 <= c <= n
    &&& forall|j: int| 0 <= j < c ==> !target.lt_spec(#[trigger] prefix_sum(extents, j))
    &&& forall|j: int| c <= j < n ==> target.lt_spec(#[trigger] prefix_sum(extents, j))
}

/// Where the starts split for the target, the bisection finds the split:
/// it returns the number of items that start at or before the target.
pub proof fn lemma_bisect_splits<S: Scalar>(
    extents: Seq<S>,
    target: S,
    n: int,
    c: int,
    lo: int,
    hi: int,
)
    requires
        splits_at(extents, target, n, c),
        0 <= lo <= c <= hi <= n,
    ensures
        bisect(extents, target, lo, hi) == c,
    decreases hi - lo,
{
    if lo < hi {
        let mid = lo + (hi - lo) / 2;
        if target.lt_spec(prefix_sum(extents, mid)) {
            lemma_bisect_splits(extents, target, n, c, lo, mid);
        } else {
            lemma_bisect_splits(extents, target, n, c, mid + 1, hi);
        }
    }
}

/// Where the starts split for the offset, the index found for it is that
/// of the last item that starts at or before the offset, and item zero
/// where none does.
pub proof fn lemma_index_is_last<S: Scalar>(extents: Seq<S>, offset: S, len: usize, c: int)
    requires
        extents.len() > 0,
        len > 0,
        splits_at(
            extents,
            offset.max_spec(S::zero_spec()),
            if len < extents.len() {
                len as int
            } else {
                extents.len() as int
            },
            c,
        ),
    ensures
        index_for_len(extents, offset, len) == if c == 0 {
            0
        } else {
            c - 1
        },
{
    let n = if len < extents.len() {
        len as int
    } else {
        extents.len() as int
    };
    lemma_bisect_splits(extents, offset.max_spec(S::zero_spec()), n, c, 0, n);
}

/// With integer extents that are not negative the starts ascend.
pub proof fn lemma_starts_ascend(extents: Seq<i64>, n: int)
    requires
        0 <= n <= extents.len(),
        forall|i: int| 0 <= i < extents.len() ==> extents[i] >= 0,
    ensures
        prefix_sum(extents, n) >= 0,
        n > 0 ==> prefix_sum(extents, n) >= prefix_sum(extents, n - 1),
    decreases n,
{
    if n > 0 {
        lemma_starts_ascend(extents, n - 1);
    }
}

/// With integer extents that are not negative the starts split for every
/// target: the index found for an offset is that of the last item that
/// starts at or before it.
pub proof fn lemma_starts_split(extents: Seq<i64>, target: i64, n: int) -> (c: int)
    requires
        0 <= n <= extents.len(),
        forall|i: int| 0 <= i < extents.len() ==> extents[i] >= 0,
    ensures
        splits_at(extents, target, n, c),
    decreases n,
{
    if n == 0 {
        0
    } else {
        let c = lemma_starts_split(extents, target, n - 1);
        if c < n - 1 {
            lemma_starts_ascend(extents, n - 1);
            assert(target.lt_spec(prefix_sum(extents, n - 2)));
            c
        } else if target.lt_spec(prefix_sum(extents, n - 1)) {
            c
        } else {
            n
        }
    }
}

/// The sum of the first `n` extents depends on those extents alone.
pub proof fn lemma_prefix_same<S: Scalar>(a: Seq<S>, b: Seq<S>, n: int)
    requires
        n <= a.len(),
        n <= b.len(),
        forall|j: int| 0 <= j < n ==> a[j] == b[j],
    ensures
        prefix_sum(a, n) == prefix_sum(b, n),
    decreases n,
{
    if n > 0 {
        lemma_prefix_same(a, b, n - 1);
    }
}

/// The bisection stays within its bounds.
pub proof fn lemma_bisect_bounds<S: Scalar>(extents: Seq<S>, target: S, lo: int, hi: int)
    requires
        lo <= hi,
    ensures
        lo <= bisect(extents, target, lo, hi) <= hi,
    decreases hi - lo,
{
    if lo < hi {
        let mid = lo + (hi - lo) / 2;
        if target.lt_spec(prefix_sum(extents, mid)) {
            lemma_bisect_bounds(extents, target, lo, mid);
        } else {
            lemma_bisect_bounds(extents, target, mid + 1, hi);
        }
    }
}

impl<S: Scalar> PrefixSumExtentModel<S> {
    /// The cache holds one start per item, the dirty mark lies within the
    /// strip, and every start below the mark is the sum of the extents
    /// before it.
    pub open spec fn cache_ok(&self) -> bool {
        &&& self.prefix_starts.len() >= self.extents.len()
        &&& self.dirty_from matches Some(d) ==> d <= self.extents.len()
        &&& forall|j: int|
            0 <= j < self.valid_below() ==> #[trigger] self.prefix_starts[j] == prefix_sum(
                self.extents@,
                j,
            )
    }

    /// Number of leading cache entries that are valid.
    pub open spec fn valid_below(&self) -> int {
        match self.dirty_from {
            Some(d) => d as int,
            None => self.extents.len() as int,
        }
    }

    /// Creates an empty model.
    pub fn new() -> (r: Self)
        ensures
            r.cache_ok(),
            r.extents@.len() == 0,
    {
        Self { extents: Vec::new(), prefix_starts: Vec::new(), dirty_from: Some(0) }
    }

    /// Grow the cache with zeros until it has one entry per item.
    fn grow_cache(&mut self)
        ensures
            final(self).extents == old(self).extents,
            final(self).dirty_from == old(self).dirty_from,
            final(self).prefix_starts.len() >= final(self).extents.len(),
            final(self).prefix_starts.len() >= old(self).prefix_starts.len(),
            forall|j: int|
                0 <= j < old(self).prefix_starts.len() ==> final(self).prefix_starts[j] == old(self).prefix_starts[j],
    {
        while self.prefix_starts.len() < self.extents.len()
            invariant
                self.extents == old(self).extents,
                self.dirty_from == old(self).dirty_from,
                self.prefix_starts.len() >= old(self).prefix_starts.len(),
                forall|j: int|
                    0 <= j < old(self).prefix_starts.len() ==> self.prefix_starts[j] == old(self).prefix_starts[j],
            decreases self.extents.len() - self.prefix_starts.len(),
        {
            self.prefix_starts.push(S::zero());
        }
    }

    /// Rebuilds the extents from a sequence of items and a size function.
    /// Any previous extents are discarded; a negative size counts as zero.
    pub fn rebuild<T, F: Fn(&T) -> S>(&mut self, items: &Vec<T>, size_fn: F)
        requires
            forall|i: int| 0 <= i < items.len() ==> call_requires(size_fn, (&items[i],)),
        ensures
            final(self).cache_ok(),
            final(self).extents.len() == items.len(),
            forall|i: int|
                0 <= i < items.len() ==> sized_by(size_fn, items[i], #[trigger] final(self).extents[i]),
    {
        self.extents.clear();
        self.prefix_starts.clear();
        self.dirty_from = Some(0);
        let mut i: usize = 0;
        while i < items.len()
            invariant
                i <= items.len(),
                self.extents.len() == i,
                self.dirty_from == Some(0usize),
                forall|i: int| 0 <= i < items.len() ==> call_requires(size_fn, (&items[i],)),
                forall|k: int| 0 <= k < i ==> sized_by(size_fn, items[k], #[trigger] self.extents[k]),
            decreases items.len() - i,
        {
            let v = size_fn(&items[i]);
            let extent = clamp_negative(v);
            self.extents.push(extent);
            assert(call_ensures(size_fn, (&items[i as int],), v) && self.extents[i as int]
                == non_negative(v));
            assert(sized_by(size_fn, items[i as int], self.extents[i as int]));
            i += 1;
        }
        self.grow_cache();
    }

    /// Ensures storage for `len` items. Newly added items receive extent
    /// zero; items at or past `len` are dropped.
    pub fn set_len(&mut self, len: usize)
        requires
            old(self).cache_ok(),
        ensures
            final(self).cache_ok(),
            final(self).extents.len() == len,
            forall|i: int|
                0 <= i < len ==> #[trigger] final(self).extents[i] == extent_at_spec(
                    old(self).extents@,
                    i as usize,
                ),
    {
        let ghost before = self.extents@;
        if self.extents.len() > len {
            self.extents.truncate(len);
        }
        while self.extents.len() < len
            invariant
                self.extents.len() <= len,
                self.extents.len() < len ==> self.extents.len() >= before.len(),
                self.prefix_starts == old(self).prefix_starts,
                self.dirty_from == old(self).dirty_from,
                forall|i: int|
                    0 <= i < self.extents.len() ==> #[trigger] self.extents[i] == extent_at_spec(
                        before,
                        i as usize,
                    ),
            decreases len - self.extents.len(),
        {
            self.extents.push(S::zero());
        }
        self.grow_cache();
        let d = match self.dirty_from {
            Some(d) => d,
            None => 0,
        };
        self.dirty_from = Some(if d < len { d } else { len });
        proof {
            let keep = self.valid_below();
            assert forall|j: int| 0 <= j < keep implies #[trigger] self.prefix_starts[j]
                == prefix_sum(self.extents@, j) by {
                assert(old(self).prefix_starts[j] == prefix_sum(before, j));
                lemma_prefix_sum_agrees(before, self.extents@, j);
            }
        }
    }

    /// Updates the extent of a single item and marks prefix sums dirty
    /// from this index. The strip grows to hold the index; a negative
    /// extent counts as zero.
    pub fn set_extent(&mut self, index: usize, extent: S)
        requires
            old(self).cache_ok(),
            index < usize::MAX,
        ensures
            final(self).cache_ok(),
            final(self).extents.len() == if index < old(self).extents.len() {
                old(self).extents.len()
            } else {
                (index + 1) as usize
            },
            final(self).extents[index as int] == non_negative(extent),
            forall|i: int|
                0 <= i < final(self).extents.len() && i != index ==> #[trigger] final(self).extents[i] == extent_at_spec(old(self).extents@, i as usize),
    {
        if index >= self.extents.len() {
            self.set_len(index + 1);
        }
        let ghost mid = *self;
        self.extents.set(index, clamp_negative(extent));
        let d = match self.dirty_from {
            Some(d) => d,
            None => index,
        };
        self.dirty_from = Some(if d < index { d } else { index });
        proof {
            assert forall|j: int| 0 <= j < self.valid_below() implies #[trigger] self.prefix_starts[j]
                == prefix_sum(self.extents@, j) by {
                assert(mid.prefix_starts[j] == prefix_sum(mid.extents@, j));
                lemma_prefix_sum_agrees(mid.extents@, self.extents@, j);
            }
        }
    }

    /// Bring the cached starts up to date through index `through`.
    fn ensure_prefix_through(&mut self, through: usize)
        requires
            old(self).cache_ok(),
        ensures
            final(self).cache_ok(),
            final(self).extents == old(self).extents,
            through < old(self).extents.len() ==> through < final(self).valid_below(),
    {
        let len = self.extents.len();
        if len == 0 || through >= len {
            return ;
        }
        let dirty_from = match self.dirty_from {
            Some(d) => if d <= through {
                d
            } else {
                return ;
            },
            None => {
                return ;
            },
        };
        let mut pos = if dirty_from == 0 {
            S::zero()
        } else {
            self.prefix_starts[dirty_from - 1].add(self.extents[dirty_from - 1])
        };
        let mut i = dirty_from;
        while i < len
            invariant
                dirty_from <= i <= len,
                len == self.extents.len(),
                self.extents == old(self).extents,
                self.prefix_starts.len() >= len,
                pos == prefix_sum(self.extents@, i as int),
                forall|j: int|
                    0 <= j < i ==> #[trigger] self.prefix_starts[j] == prefix_sum(
                        self.extents@,
                        j,
                    ),
            decreases len - i,
        {
            self.prefix_starts.set(i, pos);
            pos = pos.add(self.extents[i]);
            i += 1;
        }
        if through >= len - 1 {
            self.dirty_from = None;
        } else {
            self.dirty_from = Some(through + 1);
        }
    }

    /// Start of item `index`, through the cache.
    fn offset_at_inner(&mut self, index: usize) -> (r: S)
        requires
            old(self).cache_ok(),
        ensures
            final(self).cache_ok(),
            final(self).extents == old(self).extents,
            r == start_of(old(self).extents@, index),
    {
        if index == 0 || self.extents.len() == 0 {
            return S::zero();
        }
        let last = self.extents.len() - 1;
        let i = if index < last {
            index
        } else {
            last
        };
        self.ensure_prefix_through(i);
        self.prefix_starts[i]
    }

    /// Extent of item `index`, zero past the end.
    fn extent_at_inner(&self, index: usize) -> (r: S)
        ensures
            r == extent_at_spec(self.extents@, index),
    {
        if index < self.extents.len() {
            self.extents[index]
        } else {
            S::zero()
        }
    }

    /// Returns the offset of `index` from the start of the strip. An index
    /// past the end gives the offset of the last item.
    pub fn offset_at(&mut self, index: usize) -> (r: S)
        requires
            old(self).cache_ok(),
        ensures
            final(self).cache_ok(),
            final(self).extents == old(self).extents,
            r == start_of(old(self).extents@, index),
    {
        self.offset_at_inner(index)
    }

    /// Returns the extent of `index`, zero past the end.
    pub fn extent_at(&self, index: usize) -> (r: S)
        ensures
            r == extent_at_spec(self.extents@, index),
    {
        self.extent_at_inner(index)
    }

    /// Returns the total extent for the first `len` items. If `len` exceeds
    /// the current number of extents, it is clamped.
    pub fn total_extent_for_len(&mut self, len: usize) -> (r: S)
        requires
            old(self).cache_ok(),
        ensures
            final(self).cache_ok(),
            final(self).extents == old(self).extents,
            r == total_for_len(old(self).extents@, len),
    {
        let len = if len < self.extents.len() {
            len
        } else {
            self.extents.len()
        };
        if len == 0 {
            return S::zero();
        }
        let last = len - 1;
        self.ensure_prefix_through(last);
        let start = self.offset_at_inner(last);
        start.add(self.extent_at_inner(last))
    }

    /// Returns an index for `offset` within the first `len` items.
    pub fn index_at_offset_for_len(&mut self, offset: S, len: usize) -> (r: usize)
        requires
            old(self).cache_ok(),
        ensures
            final(self).cache_ok(),
            final(self).extents == old(self).extents,
            r == index_for_len(old(self).extents@, offset, len),
    {
        let len = if len < self.extents.len() {
            len
        } else {
            self.extents.len()
        };
        if len == 0 {
            return 0;
        }
        self.ensure_prefix_through(len - 1);
        let target = offset.max(S::zero());
        let mut lo: usize = 0;
        let mut hi: usize = len;
        while lo < hi
            invariant
                lo <= hi <= len,
                len <= self.extents.len(),
                self.cache_ok(),
                len - 1 < self.valid_below(),
                bisect(self.extents@, target, lo as int, hi as int) == bisect(
                    self.extents@,
                    target,
                    0,
                    len as int,
                ),
            decreases hi - lo,
        {
            let mid = lo + (hi - lo) / 2;
            if target.lt(self.prefix_starts[mid]) {
                hi = mid;
            } else {
                lo = mid + 1;
            }
        }
        if lo == 0 {
            0
        } else {
            lo - 1
        }
    }
}

/// Prefix sums depend only on the extents they add up.
pub proof fn lemma_prefix_sum_agrees<S: Scalar>(a: Seq<S>, b: Seq<S>, n: int)
    requires
        forall|i: int| 0 <= i < n ==> a[i] == b[i],
    ensures
        prefix_sum(a, n) == prefix_sum(b, n),
    decreases n,
{
    if n > 0 {
        lemma_prefix_sum_agrees(a, b, n - 1);
    }
}

impl<S: Scalar> ExtentModel for PrefixSumExtentModel<S> {
    type Scalar = S;

    open spec fn wf(&self) -> bool {
        self.cache_ok()
    }

    open spec fn len_spec(&self) -> usize {
        self.extents.len()
    }

    open spec fn total_spec(&self) -> S {
        total_for_len(self.extents@, self.extents.len())
    }

    open spec fn extent_spec(&self, index: usize) -> S {
        extent_at_spec(self.extents@, index)
    }

    open spec fn offset_spec(&self, index: usize) -> S {
        start_of(self.extents@, index)
    }

    open spec fn index_at_spec(&self, offset: S) -> usize {
        index_for_len(self.extents@, offset, self.extents.len())
    }

    fn len(&self) -> (r: usize) {
        self.extents.len()
    }

    fn total_extent(&mut self) -> (r: S) {
        let len = self.extents.len();
        self.total_extent_for_len(len)
    }

    fn extent_of(&mut self, index: usize) -> (r: S) {
        self.extent_at_inner(index)
    }

    fn offset_of(&mut self, index: usize) -> (r: S) {
        self.offset_at_inner(index)
    }

    fn index_at_offset(&mut self, offset: S) -> (r: usize) {
        let len = self.extents.len();
        self.index_at_offset_for_len(offset, len)
    }
}

impl<S: Scalar> ResizableExtentModel for PrefixSumExtentModel<S> {
    fn set_len(&mut self, len: usize) {
        PrefixSumExtentModel::set_len(self, len);
        proof {
            assert forall|i: usize| i < len && i < old(self).len_spec() implies #[trigger]
                self.offset_spec(i) == old(self).offset_spec(i) by {
                lemma_prefix_same(self.extents@, old(self).extents@, i as int);
            }
        }
    }
}

impl<S: Scalar> Default for PrefixSumExtentModel<S> {
    /// An empty model.
    fn default() -> (r: Self)
        ensures
            r.cache_ok(),
            r.extents@.len() == 0,
    {
        PrefixSumExtentModel::new()
    }
}

} // verus!

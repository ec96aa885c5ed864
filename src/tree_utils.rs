//! Ordered trees stored as vectors of `(key, value)` pairs sorted by key.
//!
//! A tree describes runs: the entry at position `j` covers every key from
//! `t[j].0` up to one below the next entry's key (or up to `u32::MAX` for the
//! last entry), and all of those keys carry the value `t[j].1`.
use vstd::prelude::*;

verus! {

/// End reported for the last run of a window: runs have no stored end.
pub const LAST_RANGE_END: u32 = 4294967295;

/// One run of a tree: keys `start..=end`, all with value `size`.
#[derive(Debug, Clone, Copy, PartialEq, Eq, Structural)]
pub struct Range {
    pub start: u32,
    pub end: u32,
    pub size: u32,
}

impl Range {
    pub fn new(start: u32, end: u32, size: u32) -> (r: Self)
        ensures
            r == (Range { start, end, size }),
    {
        Range { start, end, size }
    }
}

/// Keys strictly increase.
pub open spec fn sorted(t: Seq<(u32, u32)>) -> bool {
    forall|i: int, j: int| 0 <= i < j < t.len() ==> t[i].0 < t[j].0
}

/// Some entry lies at or below `k`, so `k` falls in a run.
pub open spec fn covers(t: Seq<(u32, u32)>, k: u32) -> bool {
    t.len() > 0 && t[0].0 <= k
}

/// Entry `j` is the run that holds key `k`: the greatest entry at or below `k`.
pub open spec fn is_floor(t: Seq<(u32, u32)>, j: int, k: u32) -> bool {
    &&& 0 <= j < t.len()
    &&& t[j].0 <= k
    &&& (j + 1 == t.len() || k < t[j + 1].0)
}

/// Position of the run that holds key `k`.
pub open spec fn floor_index(t: Seq<(u32, u32)>, k: u32) -> int {
    choose|j: int| is_floor(t, j, k)
}

/// Start key of the run that holds key `k`.
pub open spec fn floor_key(t: Seq<(u32, u32)>, k: u32) -> u32 {
    t[floor_index(t, k)].0
}

/// Value carried by key `k`: that of the run holding it.
pub open spec fn value_at(t: Seq<(u32, u32)>, k: u32) -> u32 {
    t[floor_index(t, k)].1
}

/// Last key of the run that starts at entry `j`.
pub open spec fn run_end(t: Seq<(u32, u32)>, j: int) -> u32 {
    if j + 1 < t.len() {
        (t[j + 1].0 - 1) as u32
    } else {
        LAST_RANGE_END
    }
}

/// The run at entry `j` as a `Range`, with its end cut at `LAST_RANGE_END`
/// when `last` holds.
pub open spec fn range_at(t: Seq<(u32, u32)>, j: int, last: bool) -> Range {
    Range { start: t[j].0, end: if last { LAST_RANGE_END } else { run_end(t, j) }, size: t[j].1 }
}

/// In a sorted tree every covered key lies in exactly one run.
pub proof fn lemma_floor(t: Seq<(u32, u32)>, k: u32)
    requires
        sorted(t),
        covers(t, k),
    ensures
        is_floor(t, floor_index(t, k), k),
        forall|j: int| #[trigger] is_floor(t, j, k) ==> j == floor_index(t, k),
    decreases t.len(),
{
    if t.len() == 1 {
        assert(is_floor(t, 0, k));
    } else if t.last().0 <= k {
        assert(is_floor(t, t.len() - 1, k));
    } else {
        let p = t.drop_last();
        lemma_floor(p, k);
        let j = floor_index(p, k);
        assert(is_floor(t, j, k));
    }
    let f = floor_index(t, k);
    assert forall|j: int| #[trigger] is_floor(t, j, k) implies j == f by {
        if j < f {
            assert(t[j + 1].0 <= t[f].0);
        } else if f < j {
            assert(t[f + 1].0 <= t[j].0);
        }
    }
}

/// Position of the run holding `start`, by binary search.
pub fn lte_index(tree: &Vec<(u32, u32)>, start: u32) -> (r: usize)
    requires
        sorted(tree@),
        covers(tree@, start),
    ensures
        r == floor_index(tree@, start),
        is_floor(tree@, r as int, start),
{
    proof {
        lemma_floor(tree@, start);
    }
    let mut lo: usize = 0;
    let mut hi: usize = tree.len();
    while hi - lo > 1
        invariant
            sorted(tree@),
            0 <= lo < hi <= tree.len(),
            tree@[lo as int].0 <= start,
            hi == tree.len() || start < tree@[hi as int].0,
        decreases hi - lo,
    {
        let mid = lo + (hi - lo) / 2;
        if tree[mid].0 <= start {
            lo = mid;
        } else {
            hi = mid;
        }
    }
    assert(is_floor(tree@, lo as int, start));
    lo
}

/// The entry of the run that holds `start`.
pub fn lte(tree: &Vec<(u32, u32)>, start: u32) -> (r: (u32, u32))
    requires
        sorted(tree@),
        covers(tree@, start),
    ensures
        r == tree@[floor_index(tree@, start)],
        r.0 == floor_key(tree@, start),
        r.1 == value_at(tree@, start),
{
    let j = lte_index(tree, start);
    tree[j]
}

/// The runs that meet keys `start..=end`, in order: from the run holding
/// `start` to the run holding `end`. Each run ends one below the next one's
/// start, and the last one at `LAST_RANGE_END`.
pub fn ranges_within(tree: &Vec<(u32, u32)>, start: u32, end: u32) -> (r: Vec<Range>)
    requires
        sorted(tree@),
        covers(tree@, start),
        floor_key(tree@, start) <= end,
    ensures
        r@.len() >= 1,
        is_floor(tree@, floor_index(tree@, start) + r@.len() - 1, end),
        forall|i: int|
            0 <= i < r@.len() ==> #[trigger] r@[i] == range_at(
                tree@,
                floor_index(tree@, start) + i,
                i + 1 == r@.len(),
            ),
{
    let f = lte_index(tree, start);
    let mut ranges: Vec<Range> = Vec::new();
    let mut j: usize = f;
    while j + 1 < tree.len() && tree[j + 1].0 <= end
        invariant
            sorted(tree@),
            f <= j < tree.len(),
            f == floor_index(tree@, start),
            tree@[j as int].0 <= end,
            ranges@.len() == j - f,
            forall|i: int|
                0 <= i < ranges@.len() ==> #[trigger] ranges@[i] == range_at(tree@, f + i, false),
        decreases tree.len() - j,
    {
        ranges.push(Range::new(tree[j].0, tree[j + 1].0 - 1, tree[j].1));
        j = j + 1;
    }
    ranges.push(Range::new(tree[j].0, LAST_RANGE_END, tree[j].1));
    assert(is_floor(tree@, j as int, end));
    ranges
}

} // verus!

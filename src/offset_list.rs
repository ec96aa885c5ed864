//! Variable-size item index: per-item sizes stored as runs, with the
//! cumulative pixel offset of every run and the reverse offset-to-index map.
use crate::tree_utils::{
    covers, floor_index, floor_key, is_floor, lemma_floor, lte, lte_index, range_at,
    ranges_within, run_end, sorted, value_at, Range, LAST_RANGE_END,
};
use vstd::prelude::*;

verus! {

/// One resolved element.
#[derive(Debug, Clone, Copy, PartialEq, Eq, Structural)]
pub struct Item {
    pub size: u32,
    pub offset: u32,
    pub index: u32,
}

/// Failure of an operation; the list is left as it was.
#[derive(Debug, Clone, Copy, PartialEq, Eq, Structural)]
pub enum OffsetError {
    /// Some run offset would not fit in `u32`.
    Overflow,
}

/// Three ordered trees over runs of items:
/// the Size Index (run start -> per-item size), the Offset Index (run start ->
/// pixel offset of the run) and the Pixel Index (run offset -> run start).
pub struct OffsetList {
    size_tree: Vec<(u32, u32)>,
    offset_tree: Vec<(u32, u32)>,
    pixel_tree: Vec<(u32, u32)>,
}

/// Both trees carry the same keys at the same positions.
pub open spec fn same_keys(s: Seq<(u32, u32)>, o: Seq<(u32, u32)>) -> bool {
    &&& s.len() == o.len()
    &&& forall|j: int| 0 <= j < s.len() ==> #[trigger] o[j].0 == s[j].0
}

/// Values never decrease along the tree.
pub open spec fn nondecreasing(o: Seq<(u32, u32)>) -> bool {
    forall|i: int, j: int| 0 <= i < j < o.len() ==> o[i].1 <= o[j].1
}

/// Every run starts at the offset where the previous one ends.
pub open spec fn consistent(s: Seq<(u32, u32)>, o: Seq<(u32, u32)>) -> bool {
    forall|j: int|
        0 < j < s.len() ==> #[trigger] o[j].1 == o[j - 1].1 + (s[j].0 - s[j - 1].0) * s[j - 1].1
}

/// The Pixel Index of an Offset Index: each offset mapped to its run start;
/// where several runs share an offset, the last of them.
pub open spec fn pixel_of(o: Seq<(u32, u32)>) -> Seq<(u32, u32)>
    decreases o.len(),
{
    if o.len() == 0 {
        Seq::empty()
    } else {
        let p = pixel_of(o.drop_last());
        let e = o.last();
        if p.len() > 0 && p.last().0 == e.1 {
            p.update(p.len() - 1, (e.1, e.0))
        } else {
            p.push((e.1, e.0))
        }
    }
}

/// Offset of run `j` when runs from `a` on are laid out after `base`.
pub open spec fn prop_off(s: Seq<(u32, u32)>, a: int, base: u32, j: int) -> int
    decreases j - a,
{
    if j <= a {
        base as int
    } else {
        prop_off(s, a, base, j - 1) + (s[j].0 - s[j - 1].0) * s[j - 1].1
    }
}

/// All offsets laid out from run `a` fit in `u32`.
pub open spec fn prop_fits(s: Seq<(u32, u32)>, a: int, base: u32) -> bool {
    forall|j: int| a <= j < s.len() ==> #[trigger] prop_off(s, a, base, j) <= u32::MAX
}

/// Offset Index for sizes `s`: runs before `a` keep their offsets from `o`,
/// runs from `a` on are laid out after `base`.
pub open spec fn propagated(s: Seq<(u32, u32)>, o: Seq<(u32, u32)>, a: int, base: u32) -> Seq<(u32, u32)> {
    Seq::new(s.len(), |j: int| (s[j].0, if j < a { o[j].1 } else { prop_off(s, a, base, j) as u32 }))
}

/// The three trees agree: sorted runs starting at key 0 with offset 0,
/// offsets never decrease, and the Pixel Index inverts the Offset Index.
pub open spec fn trees_wf(s: Seq<(u32, u32)>, o: Seq<(u32, u32)>, p: Seq<(u32, u32)>) -> bool {
    &&& sorted(s)
    &&& same_keys(s, o)
    &&& (s.len() > 0 ==> s[0].0 == 0 && o[0].1 == 0)
    &&& nondecreasing(o)
    &&& p == pixel_of(o)
}

/// Key from which `update_offset_tree(start)` lays runs out again.
pub open spec fn anchor_key(start: u32) -> u32 {
    if start == 0 { 0 } else { (start - 1) as u32 }
}

proof fn lemma_prop_mono(s: Seq<(u32, u32)>, a: int, base: u32, i: int, j: int)
    requires
        sorted(s),
        0 <= a <= i <= j < s.len(),
    ensures
        base <= prop_off(s, a, base, i) <= prop_off(s, a, base, j),
    decreases j - a,
{
    if j > i {
        lemma_prop_mono(s, a, base, i, j - 1);
        let d = s[j].0 - s[j - 1].0;
        let z = s[j - 1].1;
        assert(d * z >= 0) by (nonlinear_arith)
            requires d >= 0, z >= 0;
    } else if i > a {
        lemma_prop_mono(s, a, base, i - 1, i - 1);
    }
}

proof fn lemma_propagated_wf(s: Seq<(u32, u32)>, o: Seq<(u32, u32)>, a: int, base: u32)
    requires
        sorted(s),
        0 <= a < s.len(),
        a <= o.len(),
        s[0].0 == 0,
        forall|j: int| 0 <= j < a ==> #[trigger] o[j].0 == s[j].0,
        forall|i: int, j: int| 0 <= i < j < a ==> o[i].1 <= o[j].1,
        forall|i: int| 0 <= i < a ==> #[trigger] o[i].1 <= base,
        a == 0 ==> base == 0,
        a > 0 ==> o[0].1 == 0,
        prop_fits(s, a, base),
    ensures
        same_keys(s, propagated(s, o, a, base)),
        propagated(s, o, a, base)[0].1 == 0,
        nondecreasing(propagated(s, o, a, base)),
{
    let n = propagated(s, o, a, base);
    assert forall|i: int, j: int| 0 <= i < j < n.len() implies n[i].1 <= n[j].1 by {
        if a <= i {
            lemma_prop_mono(s, a, base, i, j);
        } else if a <= j {
            lemma_prop_mono(s, a, base, j, j);
        }
    }
    if a == 0 {
        assert(prop_off(s, a, base, 0) == base);
    }
}

/// Builds the Pixel Index of an Offset Index.
fn build_pixel_tree(o: &Vec<(u32, u32)>) -> (r: Vec<(u32, u32)>)
    ensures
        r@ == pixel_of(o@),
{
    let mut p: Vec<(u32, u32)> = Vec::new();
    let mut i: usize = 0;
    while i < o.len()
        invariant
            0 <= i <= o.len(),
            p@ == pixel_of(o@.subrange(0, i as int)),
        decreases o.len() - i,
    {
        let e = o[i];
        assert(o@.subrange(0, i + 1).drop_last() == o@.subrange(0, i as int));
        let n = p.len();
        if n > 0 && p[n - 1].0 == e.1 {
            p.set(n - 1, (e.1, e.0));
        } else {
            p.push((e.1, e.0));
        }
        i = i + 1;
    }
    assert(o@.subrange(0, o.len() as int) == o@);
    p
}

/// Lays runs out from position `a` on, starting at `base`; runs before `a`
/// keep their offsets from `o`. `None` when an offset would not fit.
fn propagate(s: &Vec<(u32, u32)>, o: &Vec<(u32, u32)>, a: usize, base: u32) -> (r: Option<
    Vec<(u32, u32)>,
>)
    requires
        a < s.len(),
        a <= o.len(),
        sorted(s@),
    ensures
        r.is_some() <==> prop_fits(s@, a as int, base),
        r.is_some() ==> r.unwrap()@ == propagated(s@, o@, a as int, base),
{
    let mut out: Vec<(u32, u32)> = Vec::new();
    let mut i: usize = 0;
    let mut prev: u32 = base;
    while i < s.len()
        invariant
            0 <= i <= s.len(),
            a < s.len(),
            a <= o.len(),
            sorted(s@),
            out@.len() == i,
            forall|j: int| 0 <= j < i ==> #[trigger] out@[j] == propagated(s@, o@, a as int, base)[j],
            forall|j: int| a <= j < i ==> #[trigger] prop_off(s@, a as int, base, j) <= u32::MAX,
            i > a ==> prev == prop_off(s@, a as int, base, i - 1),
        decreases s.len() - i,
    {
        if i < a {
            out.push((s[i].0, o[i].1));
        } else {
            let off: u32 = if i == a {
                base
            } else {
                let d: u64 = (s[i].0 - s[i - 1].0) as u64;
                let z: u64 = s[i - 1].1 as u64;
                assert(d * z <= 0xFFFF_FFFF * 0xFFFF_FFFF) by (nonlinear_arith)
                    requires d <= 0xFFFF_FFFF, z <= 0xFFFF_FFFF;
                let v: u64 = d * z + prev as u64;
                if v > 0xFFFF_FFFF {
                    assert(prop_off(s@, a as int, base, i as int) > u32::MAX);
                    return None;
                }
                v as u32
            };
            out.push((s[i].0, off));
            prev = off;
        }
        i = i + 1;
    }
    assert(out@ == propagated(s@, o@, a as int, base));
    Some(out)
}


/// Number of runs that start below `k`.
pub open spec fn lower(t: Seq<(u32, u32)>, k: int) -> int
    decreases t.len(),
{
    if t.len() == 0 {
        0
    } else if t.last().0 < k {
        t.len() as int
    } else {
        lower(t.drop_last(), k)
    }
}

/// Size Index after items `start..=end` get `size`: runs below `start` and
/// above `end + 1` stay; a run starts at `start` unless the run before it
/// already has `size`; the items after `end` keep their size in a run at
/// `end + 1` unless that size is `size` too.
pub open spec fn inserted(t: Seq<(u32, u32)>, start: u32, end: u32, size: u32) -> Seq<(u32, u32)> {
    let head: Seq<(u32, u32)> = if start == 0 || value_at(t, (start - 1) as u32) != size {
        seq![(start, size)]
    } else {
        Seq::empty()
    };
    let after = value_at(t, (end + 1) as u32);
    let tail: Seq<(u32, u32)> = if end < u32::MAX && after != size {
        seq![((end + 1) as u32, after)]
    } else {
        Seq::empty()
    };
    t.subrange(0, lower(t, start as int)) + head + tail + t.subrange(lower(t, end + 2), t.len() as int)
}

/// A placeholder run (size 0) starts exactly at `k`.
pub open spec fn placeholder_at(t: Seq<(u32, u32)>, k: u32) -> bool {
    covers(t, k) && floor_key(t, k) == k && value_at(t, k) == 0
}

/// The run before every placeholder already has `size`.
pub open spec fn spots_sized(t: Seq<(u32, u32)>, size: u32) -> bool {
    forall|j: int|
        0 <= j < t.len() && #[trigger] t[j].1 == 0 ==> t[j].0 > 0 && value_at(t, (t[j].0 - 1) as u32) == size
}

/// Every placeholder given `size`.
pub open spec fn rewritten(t: Seq<(u32, u32)>, size: u32) -> Seq<(u32, u32)> {
    Seq::new(t.len(), |j: int| if t[j].1 == 0 { (t[j].0, size) } else { t[j] })
}

/// An insertion that leaves a single run `{0: size}` at offset 0.
pub open spec fn insert_resets(t: Seq<(u32, u32)>, start: u32, size: u32) -> bool {
    t.len() == 0 || (placeholder_at(t, start) && spots_sized(t, size))
}

/// Size Index after `insert(start, end, size)`.
pub open spec fn insert_result(t: Seq<(u32, u32)>, start: u32, end: u32, size: u32) -> Seq<(u32, u32)> {
    if insert_resets(t, start, size) {
        seq![(0u32, size)]
    } else if placeholder_at(t, start) {
        rewritten(t, size)
    } else {
        inserted(t, start, end, size)
    }
}

/// Position of the run from which an insertion lays runs out again: the
/// first run when placeholders anywhere were given a size, else the run
/// holding `start - 1`.
pub open spec fn insert_anchor(t: Seq<(u32, u32)>, start: u32, end: u32, size: u32) -> int {
    if placeholder_at(t, start) {
        0
    } else {
        floor_index(insert_result(t, start, end, size), anchor_key(start))
    }
}

/// Offset Index after `insert(start, end, size)`.
pub open spec fn insert_offsets(t: Seq<(u32, u32)>, o: Seq<(u32, u32)>, start: u32, end: u32, size: u32) -> Seq<(u32, u32)> {
    if insert_resets(t, start, size) {
        seq![(0u32, 0u32)]
    } else {
        let a = insert_anchor(t, start, end, size);
        propagated(insert_result(t, start, end, size), o, a, o[a].1)
    }
}

/// The offsets after `insert(start, end, size)` fit in `u32`.
pub open spec fn insert_fits(t: Seq<(u32, u32)>, o: Seq<(u32, u32)>, start: u32, end: u32, size: u32) -> bool {
    insert_resets(t, start, size) || {
        let a = insert_anchor(t, start, end, size);
        prop_fits(insert_result(t, start, end, size), a, o[a].1)
    }
}

proof fn lemma_lower(t: Seq<(u32, u32)>, k: int, i: int)
    requires
        sorted(t),
        0 <= i <= t.len(),
        forall|m: int| 0 <= m < i ==> #[trigger] t[m].0 < k,
        i == t.len() || t[i].0 >= k,
    ensures
        lower(t, k) == i,
    decreases t.len(),
{
    if t.len() > 0 {
        if t.last().0 < k {
            if i < t.len() {
                assert(t[i].0 <= t.last().0);
            }
        } else {
            lemma_lower(t.drop_last(), k, i);
        }
    }
}

/// First position whose key is at least `k`.
fn lower_exec(t: &Vec<(u32, u32)>, k: u64) -> (r: usize)
    requires
        sorted(t@),
    ensures
        r == lower(t@, k as int),
        r <= t.len(),
        forall|m: int| 0 <= m < r ==> #[trigger] t@[m].0 < k,
        r == t.len() || t@[r as int].0 >= k,
{
    let mut i: usize = 0;
    while i < t.len() && (t[i].0 as u64) < k
        invariant
            0 <= i <= t.len(),
            forall|m: int| 0 <= m < i ==> #[trigger] t@[m].0 < k,
        decreases t.len() - i,
    {
        i = i + 1;
    }
    proof {
        lemma_lower(t@, k as int, i as int);
    }
    i
}

/// Appends `t[from..to]` to `out`.
fn append_range(out: &mut Vec<(u32, u32)>, t: &Vec<(u32, u32)>, from: usize, to: usize)
    requires
        from <= to <= t.len(),
    ensures
        final(out)@ == old(out)@ + t@.subrange(from as int, to as int),
{
    let mut i: usize = from;
    while i < to
        invariant
            from <= i <= to <= t.len(),
            out@ == old(out)@ + t@.subrange(from as int, i as int),
        decreases to - i,
    {
        assert(t@.subrange(from as int, i + 1) == t@.subrange(from as int, i as int).push(t@[i as int]));
        out.push(t[i]);
        i = i + 1;
    }
}

proof fn lemma_inserted(t: Seq<(u32, u32)>, start: u32, end: u32, size: u32)
    requires
        sorted(t),
        covers(t, 0),
        start <= end,
    ensures
        ({
            let n = inserted(t, start, end, size);
            let lo = lower(t, start as int);
            &&& sorted(n)
            &&& n.len() > 0 && n[0].0 == 0
            &&& 0 <= lo <= t.len()
            &&& forall|m: int| 0 <= m < lo ==> #[trigger] n[m] == t[m]
            &&& forall|m: int| lo <= m < n.len() ==> #[trigger] n[m].0 >= start
        }),
{
    let lo = lower(t, start as int);
    let hi = lower(t, end + 2);
    lemma_lower_facts(t, start as int);
    lemma_lower_facts(t, end + 2);
    let n = inserted(t, start, end, size);
    let a = t.subrange(0, lo);
    let c = t.subrange(hi, t.len() as int);
    let h = n.len() - a.len() - c.len();
    assert forall|m: int| 0 <= m < n.len() implies #[trigger] n[m].0 >= (if m < lo { 0 } else { start }) && (m < lo ==> n[m] == t[m]) && (m < lo ==> n[m].0 < start) && (m >= lo + h ==> n[m] == t[hi + m - lo - h] && n[m].0 > end + 1) by {}
    assert(sorted(n)) by {
        assert forall|i: int, j: int| 0 <= i < j < n.len() implies n[i].0 < n[j].0 by {
            if j >= lo + h && i >= lo + h {
                assert(t[hi + i - lo - h].0 < t[hi + j - lo - h].0);
            }
            if i < lo && j < lo {
                assert(t[i].0 < t[j].0);
            }
        }
    }
    if start > 0 {
        assert(t[0].0 < start);
        assert(lo > 0);
    }
}

proof fn lemma_lower_facts(t: Seq<(u32, u32)>, k: int)
    requires
        sorted(t),
    ensures
        0 <= lower(t, k) <= t.len(),
        forall|m: int| 0 <= m < lower(t, k) ==> #[trigger] t[m].0 < k,
        forall|m: int| lower(t, k) <= m < t.len() ==> #[trigger] t[m].0 >= k,
    decreases t.len(),
{
    if t.len() > 0 {
        if t.last().0 < k {
            assert forall|m: int| 0 <= m < t.len() implies #[trigger] t[m].0 < k by {
                if m < t.len() - 1 {
                    assert(t[m].0 < t.last().0);
                }
            }
        } else {
            let p = t.drop_last();
            lemma_lower_facts(p, k);
            assert forall|m: int| 0 <= m < lower(t, k) implies #[trigger] t[m].0 < k by {
                assert(t[m] == p[m]);
            }
            assert forall|m: int| lower(t, k) <= m < t.len() implies #[trigger] t[m].0 >= k by {
                if m < p.len() {
                    assert(t[m] == p[m]);
                }
            }
        }
    }
}

/// Size Index with items `start..=end` set to `size` (general case).
fn inserted_exec(t: &Vec<(u32, u32)>, start: u32, end: u32, size: u32) -> (r: Vec<(u32, u32)>)
    requires
        sorted(t@),
        covers(t@, 0),
        start <= end,
    ensures
        r@ == inserted(t@, start, end, size),
{
    proof {
        lemma_floor(t@, (end + 1) as u32);
        if start > 0 {
            lemma_floor(t@, (start - 1) as u32);
        }
    }
    let lo = lower_exec(t, start as u64);
    let hi = lower_exec(t, end as u64 + 2);
    proof {
        lemma_lower_facts(t@, start as int);
    }
    assert(lo <= hi) by {
        if hi < lo {
            assert(t@[hi as int].0 < start);
        }
    }
    let mut out: Vec<(u32, u32)> = Vec::new();
    append_range(&mut out, t, 0, lo);
    let head_needed = start == 0 || lte(t, start - 1).1 != size;
    if head_needed {
        out.push((start, size));
    }
    let mut after: u32 = 0;
    let mut tail_needed = false;
    if end < u32::MAX {
        after = lte(t, end + 1).1;
        tail_needed = after != size;
    }
    if tail_needed {
        out.push((end + 1, after));
    }
    append_range(&mut out, t, hi, t.len());
    proof {
        let head: Seq<(u32, u32)> = if head_needed { seq![(start, size)] } else { Seq::empty() };
        let tail: Seq<(u32, u32)> = if tail_needed { seq![((end + 1) as u32, after)] } else { Seq::empty() };
        assert(out@ == t@.subrange(0, lo as int) + head + tail + t@.subrange(hi as int, t.len() as int));
    }
    out
}

/// Whether the run before every placeholder already has `size`.
fn spots_sized_exec(t: &Vec<(u32, u32)>, size: u32) -> (r: bool)
    requires
        sorted(t@),
        covers(t@, 0),
    ensures
        r == spots_sized(t@, size),
{
    let mut i: usize = 0;
    while i < t.len()
        invariant
            0 <= i <= t.len(),
            sorted(t@),
            covers(t@, 0),
            forall|j: int|
                0 <= j < i && #[trigger] t@[j].1 == 0 ==> t@[j].0 > 0 && value_at(t@, (t@[j].0 - 1) as u32)
                    == size,
        decreases t.len() - i,
    {
        if t[i].1 == 0 {
            if t[i].0 == 0 {
                return false;
            }
            if lte(t, t[i].0 - 1).1 != size {
                return false;
            }
        }
        i = i + 1;
    }
    true
}

/// Gives every placeholder `size`.
fn rewrite_spots(t: &Vec<(u32, u32)>, size: u32) -> (r: Vec<(u32, u32)>)
    ensures
        r@ == rewritten(t@, size),
{
    let mut out: Vec<(u32, u32)> = Vec::new();
    let mut i: usize = 0;
    while i < t.len()
        invariant
            0 <= i <= t.len(),
            out@.len() == i,
            forall|j: int| 0 <= j < i ==> #[trigger] out@[j] == rewritten(t@, size)[j],
        decreases t.len() - i,
    {
        let e = t[i];
        if e.1 == 0 {
            out.push((e.0, size));
        } else {
            out.push(e);
        }
        i = i + 1;
    }
    assert(out@ == rewritten(t@, size));
    out
}

impl OffsetList {
    /// The Size Index: run start -> per-item size.
    pub closed spec fn size_index(&self) -> Seq<(u32, u32)> {
        self.size_tree@
    }

    /// The Offset Index: run start -> pixel offset of the run.
    pub closed spec fn offset_index(&self) -> Seq<(u32, u32)> {
        self.offset_tree@
    }

    /// The Pixel Index: run offset -> run start.
    pub closed spec fn pixel_index(&self) -> Seq<(u32, u32)> {
        self.pixel_tree@
    }

    /// The three trees agree (see `trees_wf`); every operation keeps this.
    pub open spec fn wf(&self) -> bool {
        trees_wf(self.size_index(), self.offset_index(), self.pixel_index())
    }

    /// An empty list: no runs yet.
    pub fn new() -> (r: OffsetList)
        ensures
            r.wf(),
            r.size_index().len() == 0,
            r.offset_index().len() == 0,
            r.pixel_index().len() == 0,
    {
        let r = OffsetList { size_tree: Vec::new(), offset_tree: Vec::new(), pixel_tree: Vec::new() };
        assert(r.pixel_tree@ == pixel_of(r.offset_tree@));
        r
    }

    /// Lays the runs from the one holding `start - 1` on out again, after that
    /// run's current offset, and rebuilds the Pixel Index.
    pub fn update_offset_tree(&mut self, start: u32) -> (r: Result<(), OffsetError>)
        requires
            old(self).wf(),
            old(self).size_index().len() > 0,
        ensures
            final(self).wf(),
            final(self).size_index() == old(self).size_index(),
            ({
                let s = old(self).size_index();
                let a = floor_index(s, anchor_key(start));
                let base = old(self).offset_index()[a].1;
                &&& r.is_ok() <==> prop_fits(s, a, base)
                &&& r.is_ok() ==> final(self).offset_index() == propagated(
                    s,
                    old(self).offset_index(),
                    a,
                    base,
                )
                &&& r.is_ok() && consistent(s, old(self).offset_index()) ==> consistent(
                    s,
                    final(self).offset_index(),
                )
                &&& r.is_ok() && consistent(s, old(self).offset_index()) && sized_runs(s) ==> final(self).pixel_index().len() == final(self).offset_index().len() && forall|j: int|
                    0 <= j < final(self).offset_index().len() ==> #[trigger] final(self).pixel_index()[j] == (
                    final(self).offset_index()[j].1,
                    final(self).offset_index()[j].0,
                )
                &&& r.is_err() ==> *final(self) == *old(self)
            }),
    {
        let a = lte_index(&self.size_tree, anchor_key_exec(start));
        let base = self.offset_tree[a].1;
        match propagate(&self.size_tree, &self.offset_tree, a, base) {
            Some(v) => {
                proof {
                    lemma_propagated_wf(self.size_tree@, self.offset_tree@, a as int, base);
                    let t = self.size_tree@;
                    let o = self.offset_tree@;
                    if consistent(t, o) {
                        if a > 0 {
                            assert(o[a as int].1 == o[a - 1].1 + (t[a as int].0 - t[a - 1].0) * t[a - 1].1);
                        }
                        lemma_propagated_consistent(t, o, a as int, base);
                    }
                }
                self.pixel_tree = build_pixel_tree(&v);
                self.offset_tree = v;
                proof {
                    if consistent(self.size_tree@, self.offset_tree@) && sized_runs(self.size_tree@) {
                        lemma_pixel_index_inverts_offsets(*self);
                    }
                }
                Ok(())
            },
            None => Err(OffsetError::Overflow),
        }
    }
}

impl OffsetList {
    /// Leaves the single run `{0: size}` at offset 0.
    fn reset(&mut self, size: u32)
        ensures
            final(self).wf(),
            final(self).size_index() == seq![(0u32, size)],
            final(self).offset_index() == seq![(0u32, 0u32)],
    {
        self.size_tree = vec![(0, size)];
        self.offset_tree = vec![(0, 0)];
        self.pixel_tree = vec![(0, 0)];
        assert(self.offset_tree@.drop_last() == Seq::<(u32, u32)>::empty());
        assert(pixel_of(Seq::<(u32, u32)>::empty()) == Seq::<(u32, u32)>::empty());
        assert(self.pixel_tree@ == pixel_of(self.offset_tree@));
    }

    /// Declares that items `start..=end` have `size`: merges with and splits
    /// the neighbouring runs, then lays the runs out again from `start - 1`.
    /// A placeholder run at `start` instead gives every placeholder `size` and
    /// lays all runs out again, or collapses the whole list to one run when
    /// every run before a placeholder already has `size`.
    pub fn insert(&mut self, start: u32, end: u32, size: u32) -> (r: Result<(), OffsetError>)
        requires
            old(self).wf(),
            start <= end,
        ensures
            final(self).wf(),
            ({
                let t = old(self).size_index();
                let o = old(self).offset_index();
                &&& r.is_ok() <==> insert_fits(t, o, start, end, size)
                &&& r.is_ok() ==> final(self).size_index() == insert_result(t, start, end, size)
                &&& r.is_ok() ==> final(self).offset_index() == insert_offsets(t, o, start, end, size)
                &&& r.is_ok() && consistent(t, o) ==> consistent(
                    final(self).size_index(),
                    final(self).offset_index(),
                )
                &&& r.is_ok() && consistent(t, o) && sized_runs(final(self).size_index()) ==> final(self).pixel_index().len() == final(self).offset_index().len() && forall|j: int|
                    0 <= j < final(self).offset_index().len() ==> #[trigger] final(self).pixel_index()[j] == (
                    final(self).offset_index()[j].1,
                    final(self).offset_index()[j].0,
                )
                &&& r.is_err() ==> *final(self) == *old(self)
            }),
    {
        if self.size_tree.len() == 0 {
            self.reset(size);
            proof {
                if consistent(self.size_tree@, self.offset_tree@) && sized_runs(self.size_tree@) {
                    lemma_pixel_index_inverts_offsets(*self);
                }
            }
            return Ok(());
        }
        proof {
            lemma_floor(self.size_tree@, start);
        }
        let j = lte_index(&self.size_tree, start);
        let n: Vec<(u32, u32)>;
        if self.size_tree[j].0 == start && self.size_tree[j].1 == 0 {
            if spots_sized_exec(&self.size_tree, size) {
                self.reset(size);
                proof {
                    if consistent(self.size_tree@, self.offset_tree@) && sized_runs(self.size_tree@) {
                        lemma_pixel_index_inverts_offsets(*self);
                    }
                }
                return Ok(());
            }
            n = rewrite_spots(&self.size_tree, size);
            assert(sorted(n@));
        } else {
            n = inserted_exec(&self.size_tree, start, end, size);
            proof {
                lemma_inserted(self.size_tree@, start, end, size);
            }
        }
        let ghost lo: int = if placeholder_at(self.size_tree@, start) {
            self.size_tree@.len() as int
        } else {
            lower(self.size_tree@, start as int)
        };
        assert(forall|m: int| 0 <= m < lo ==> #[trigger] n@[m].0 == self.size_tree@[m].0);
        let a = if self.size_tree[j].0 == start && self.size_tree[j].1 == 0 {
            0
        } else {
            lte_index(&n, anchor_key_exec(start))
        };
        assert(a < lo || a == 0) by {
            if a >= lo && a > 0 && !placeholder_at(self.size_tree@, start) {
                assert(n@[a as int].0 >= start);
            }
        }
        let base = self.offset_tree[a].1;
        match propagate(&n, &self.offset_tree, a, base) {
            Some(v) => {
                proof {
                    lemma_propagated_wf(n@, self.offset_tree@, a as int, base);
                    if consistent(self.size_tree@, self.offset_tree@) {
                        lemma_insert_keeps_offsets_consistent(
                            self.size_tree@,
                            self.offset_tree@,
                            start,
                            end,
                            size,
                        );
                    }
                }
                self.pixel_tree = build_pixel_tree(&v);
                self.offset_tree = v;
                self.size_tree = n;
                proof {
                    if consistent(self.size_tree@, self.offset_tree@) && sized_runs(self.size_tree@) {
                        lemma_pixel_index_inverts_offsets(*self);
                    }
                }
                Ok(())
            },
            None => Err(OffsetError::Overflow),
        }
    }
}

impl OffsetList {
    /// Size of item `i`: that of the run holding it.
    pub open spec fn size_at(&self, i: u32) -> u32 {
        value_at(self.size_index(), i)
    }

    /// Pixel offset of item `i`: its run's offset plus the items before it in the run.
    pub open spec fn offset_at(&self, i: u32) -> int {
        let s = self.size_index();
        self.offset_index()[floor_index(s, i)].1 + (i - floor_key(s, i)) * value_at(s, i)
    }

    /// Size, offset and start of the run holding `index`.
    fn range_size_and_offset(&self, index: u32) -> (r: (u32, u32, u32))
        requires
            self.wf(),
            self.size_index().len() > 0,
        ensures
            r.0 == self.size_at(index),
            r.1 == self.offset_index()[floor_index(self.size_index(), index)].1,
            r.2 == floor_key(self.size_index(), index),
            r.2 <= index,
    {
        let j = lte_index(&self.size_tree, index);
        (self.size_tree[j].1, self.offset_tree[j].1, self.size_tree[j].0)
    }

    /// Offset of item `index` plus `extra` items of its size, in `u64`.
    fn offset_plus(&self, index: u32, extra: u32) -> (r: u64)
        requires
            self.wf(),
            self.size_index().len() > 0,
            extra <= 1,
        ensures
            r == self.offset_at(index) + extra * self.size_at(index),
    {
        let (size, offset, range_index) = self.range_size_and_offset(index);
        let d: u64 = (index - range_index) as u64 + extra as u64;
        let z: u64 = size as u64;
        assert(d * z <= 0x1_0000_0000 * 0xFFFF_FFFF) by (nonlinear_arith)
            requires d <= 0x1_0000_0000, z <= 0xFFFF_FFFF;
        assert(d * z == (index - range_index) * z + extra * z) by (nonlinear_arith)
            requires d == (index - range_index) + extra;
        d * z + offset as u64
    }

    /// Whether the offset of item `index`, plus its size when `with_size`
    /// holds, fits in `u32`.
    pub fn offset_fits(&self, index: u32, with_size: bool) -> (r: bool)
        requires
            self.wf(),
            self.size_index().len() > 0,
        ensures
            r == (self.offset_at(index) + (if with_size { self.size_at(index) as int } else { 0 })
                <= u32::MAX),
    {
        let v = self.offset_plus(index, if with_size { 1 } else { 0 });
        v <= 0xFFFF_FFFF
    }

    /// Pixel offset of item `index`.
    pub fn offset_of(self, index: u32) -> (r: u32)
        requires
            self.wf(),
            self.size_index().len() > 0,
            self.offset_at(index) <= u32::MAX,
        ensures
            r == self.offset_at(index),
    {
        self.offset_plus(index, 0) as u32
    }

    /// Pixel offset just past item `index`.
    pub fn total(self, index: u32) -> (r: u32)
        requires
            self.wf(),
            self.size_index().len() > 0,
            self.offset_at(index) + self.size_at(index) <= u32::MAX,
        ensures
            r == self.offset_at(index) + self.size_at(index),
    {
        self.offset_plus(index, 1) as u32
    }

    /// Item `index` with its size and offset.
    pub fn item_at(self, index: u32) -> (r: Item)
        requires
            self.wf(),
            self.size_index().len() > 0,
            self.offset_at(index) <= u32::MAX,
        ensures
            r == (Item { index, size: self.size_at(index), offset: self.offset_at(index) as u32 }),
    {
        let (size, _, _) = self.range_size_and_offset(index);
        let offset = self.offset_plus(index, 0) as u32;
        Item { index, size, offset }
    }

    /// Items `start_index..=end_index` with their sizes (offsets left 0).
    /// An empty list gives the single item `{index: 0, size: 0, offset: 0}`.
    pub fn index_range(&self, start_index: u32, end_index: u32) -> (r: Vec<Item>)
        requires
            self.wf(),
        ensures
            self.size_index().len() == 0 ==> r@ == seq![Item { index: 0, size: 0, offset: 0 }],
            self.size_index().len() > 0 ==> {
                &&& r@.len() == (if start_index <= end_index { end_index - start_index + 1 } else { 0 })
                &&& forall|m: int|
                    0 <= m < r@.len() ==> #[trigger] r@[m] == (Item {
                        index: (start_index + m) as u32,
                        size: self.size_at((start_index + m) as u32),
                        offset: 0,
                    })
            },
    {
        if self.size_tree.len() == 0 {
            return vec![Item { index: 0, size: 0, offset: 0 }];
        }
        if start_index > end_index {
            return Vec::new();
        }
        let t = &self.size_tree;
        proof {
            lemma_floor(t@, start_index);
        }
        let ranges = ranges_within(t, start_index, end_index);
        let ghost f = floor_index(t@, start_index);
        let ghost len = ranges@.len();
        let mut result: Vec<Item> = Vec::new();
        let mut i: usize = 0;
        while i < ranges.len()
            invariant
                self.wf(),
                t == &self.size_tree,
                0 <= i <= len,
                len == ranges@.len(),
                len >= 1,
                f == floor_index(t@, start_index),
                is_floor(t@, f, start_index),
                is_floor(t@, f + len - 1, end_index),
                forall|m: int| 0 <= m < len ==> #[trigger] ranges@[m] == range_at(t@, f + m, m + 1 == len),
                result@.len() == (if i == 0 { 0 } else {
                    let c = (if ranges@[i - 1].end < end_index { ranges@[i - 1].end as int } else { end_index as int }) + 1 - start_index;
                    if c > 0 { c } else { 0 }
                }),
                forall|m: int|
                    0 <= m < result@.len() ==> #[trigger] result@[m] == (Item {
                        index: (start_index + m) as u32,
                        size: self.size_at((start_index + m) as u32),
                        offset: 0,
                    }),
            decreases len - i,
        {
            let r = ranges[i];
            proof {
                if i > 0 {
                    assert(t@[f + 1].0 > start_index);
                    assert(t@[f + i].0 >= t@[f + 1].0);
                    assert(t@[f + i].0 <= t@[f + len - 1].0);
                }
            }
            let lo: u32 = if start_index > r.start { start_index } else { r.start };
            let hi: u32 = if r.end < end_index { r.end } else { end_index };
            if lo <= hi {
                let mut x: u64 = lo as u64;
                while x <= hi as u64
                    invariant
                        self.wf(),
                        t == &self.size_tree,
                        0 <= i < len,
                        len == ranges@.len(),
                        f == floor_index(t@, start_index),
                        is_floor(t@, f, start_index),
                        is_floor(t@, f + len - 1, end_index),
                        r == range_at(t@, f + i, i + 1 == len),
                        lo <= x <= hi as int + 1,
                        lo >= r.start,
                        hi <= end_index,
                        hi <= r.end,
                        lo >= start_index,
                        result@.len() == x - start_index,
                        forall|m: int|
                            0 <= m < result@.len() ==> #[trigger] result@[m] == (Item {
                                index: (start_index + m) as u32,
                                size: self.size_at((start_index + m) as u32),
                                offset: 0,
                            }),
                    decreases hi as int + 1 - x,
                {
                    proof {
                        lemma_floor(t@, x as u32);
                        if i + 1 < len {
                            assert(x <= r.end);
                            assert(x < t@[f + i + 1].0);
                        } else {
                            assert(x <= end_index);
                        }
                        assert(is_floor(t@, f + i, x as u32));
                    }
                    result.push(Item { index: x as u32, size: r.size, offset: 0 });
                    x = x + 1;
                }
            }
            i = i + 1;
        }
        result
    }
}

/// The Pixel Index is sorted by offset and spans the offsets of the Offset Index.
pub proof fn lemma_pixel(o: Seq<(u32, u32)>)
    requires
        nondecreasing(o),
    ensures
        sorted(pixel_of(o)),
        o.len() > 0 ==> {
            let p = pixel_of(o);
            &&& p.len() > 0
            &&& p[0].0 == o[0].1
            &&& p.last().0 == o.last().1
        },
    decreases o.len(),
{
    if o.len() > 0 {
        let q = o.drop_last();
        lemma_pixel(q);
        if q.len() > 0 {
            assert(q.last().1 <= o.last().1);
        }
    }
}

/// One item of a pixel-window query.
pub open spec fn item_of(l: OffsetList, it: Item) -> bool {
    &&& it.size == l.size_at(it.index)
    &&& it.offset == l.offset_at(it.index)
}

/// Item `x` lies in the index window and meets the pixel window: it ends
/// after `start_offset` and starts at or before `end_offset`.
pub open spec fn overlaps(l: OffsetList, x: u32, start_offset: u32, end_offset: u32, min_index: u32, max_index: u32) -> bool {
    &&& min_index <= x <= max_index
    &&& l.offset_at(x) + l.size_at(x) > start_offset
    &&& l.offset_at(x) <= end_offset
}

/// Some item of `r` has index `x`.
pub open spec fn listed(r: Seq<Item>, x: u32) -> bool {
    exists|m: int| 0 <= m < r.len() && (#[trigger] r[m]).index == x
}

/// Every item of `r` is sized, true to the list, meets both windows, and
/// the indices increase.
pub open spec fn items_ok(l: OffsetList, r: Seq<Item>, start_offset: u32, end_offset: u32, min_index: u32, max_index: u32) -> bool {
    &&& forall|m: int|
        0 <= m < r.len() ==> {
            let it = #[trigger] r[m];
            &&& it.size > 0
            &&& item_of(l, it)
            &&& overlaps(l, it.index, start_offset, end_offset, min_index, max_index)
        }
    &&& forall|m: int, n: int| 0 <= m < n < r.len() ==> r[m].index < r[n].index
}

/// Offsets are consistent and the pixel window is not empty.
pub open spec fn window_exact(l: OffsetList, start_offset: u32, end_offset: u32) -> bool {
    &&& consistent(l.size_index(), l.offset_index())
    &&& start_offset <= end_offset
}

/// The one item a placeholder run `j` gives: at its start or at `min_index`,
/// whichever is later, with size 0 and the run's offset.
pub open spec fn placeholder_item(l: OffsetList, j: int, min_index: u32) -> Item {
    Item {
        index: if l.size_index()[j].0 < min_index { min_index } else { l.size_index()[j].0 },
        size: 0,
        offset: l.offset_index()[j].1,
    }
}

/// Each Pixel Index entry is some run's `(offset, start)`; starts increase
/// along the Pixel Index, and the last entry is the last run's.
pub proof fn lemma_pixel_entries(o: Seq<(u32, u32)>)
    requires
        nondecreasing(o),
        sorted(o),
    ensures
        forall|m: int|
            0 <= m < pixel_of(o).len() ==> exists|j: int|
                0 <= j < o.len() && #[trigger] pixel_of(o)[m] == (o[j].1, o[j].0),
        forall|a: int, b: int| 0 <= a < b < pixel_of(o).len() ==> pixel_of(o)[a].1 < pixel_of(o)[b].1,
        o.len() > 0 ==> pixel_of(o).len() > 0 && pixel_of(o).last().1 == o.last().0,
    decreases o.len(),
{
    if o.len() > 0 {
        let q = o.drop_last();
        lemma_pixel_entries(q);
        let pq = pixel_of(q);
        let p = pixel_of(o);
        let n = o.len() - 1;
        assert(pq.len() > 0 ==> q.len() > 0);
        assert forall|m: int| 0 <= m < p.len() implies exists|j: int|
            0 <= j < o.len() && #[trigger] p[m] == (o[j].1, o[j].0) by {
            if m < pq.len() && p[m] == pq[m] {
                let j = choose|j: int| 0 <= j < q.len() && #[trigger] pq[m] == (q[j].1, q[j].0);
                assert(o[j] == q[j]);
            } else {
                assert(p[m] == (o[n].1, o[n].0));
            }
        }
        assert forall|a: int, b: int| 0 <= a < b < p.len() implies p[a].1 < p[b].1 by {
            if b < pq.len() && p[b] == pq[b] {
                assert(p[a] == pq[a]);
            } else {
                assert(p[b].1 == o[n].0);
                if a < pq.len() && p[a] == pq[a] {
                    assert(pq[a].1 <= pq.last().1);
                    assert(q.last().0 < o[n].0);
                }
            }
        }
    }
}

proof fn lemma_listed_push(r: Seq<Item>, it: Item)
    ensures
        forall|x: u32| listed(r, x) ==> listed(r.push(it), x),
        listed(r.push(it), it.index),
{
    let n = r.push(it);
    assert forall|x: u32| listed(r, x) implies listed(n, x) by {
        let m = choose|m: int| 0 <= m < r.len() && (#[trigger] r[m]).index == x;
        assert(n[m] == r[m]);
    }
    assert(n[r.len() as int] == it);
}

/// Items of run `j`: their size and offset.
proof fn lemma_in_run(l: OffsetList, j: int, x: u32)
    requires
        l.wf(),
        0 <= j < l.size_index().len(),
        l.size_index()[j].0 <= x <= run_end(l.offset_index(), j),
    ensures
        floor_index(l.size_index(), x) == j,
        l.size_at(x) == l.size_index()[j].1,
        l.offset_at(x) == l.offset_index()[j].1 + (x - l.size_index()[j].0) * l.size_index()[j].1,
{
    let s = l.size_index();
    let o = l.offset_index();
    lemma_floor(s, x);
    if j + 1 < s.len() {
        assert(o[j + 1].0 == s[j + 1].0);
    }
    assert(is_floor(s, j, x));
}

/// With consistent offsets, items before run `j` end by its offset, and items
/// from run `j` on start at or after it.
proof fn lemma_around_run(l: OffsetList, j: int, x: u32)
    requires
        l.wf(),
        consistent(l.size_index(), l.offset_index()),
        0 <= j < l.size_index().len(),
    ensures
        x < l.size_index()[j].0 ==> l.offset_at(x) + l.size_at(x) <= l.offset_index()[j].1,
        x >= l.size_index()[j].0 ==> l.offset_at(x) >= l.offset_index()[j].1,
{
    let s = l.size_index();
    let o = l.offset_index();
    lemma_floor(s, x);
    let g = floor_index(s, x);
    let d = x - s[g].0;
    let z = s[g].1;
    assert(d * z >= 0) by (nonlinear_arith)
        requires d >= 0, z >= 0;
    if x < s[j].0 {
        assert(g < j);
        assert(o[g + 1].1 == o[g].1 + (s[g + 1].0 - s[g].0) * s[g].1);
        let w = s[g + 1].0 - s[g].0;
        assert((d + 1) * z <= w * z) by (nonlinear_arith)
            requires d + 1 <= w, z >= 0;
        assert((d + 1) * z == d * z + z) by (nonlinear_arith);
        assert(o[g + 1].1 <= o[j].1);
    } else {
        assert(g >= j) by {
            if g < j {
                assert(s[g + 1].0 <= s[j].0);
            }
        }
        assert(o[j].1 <= o[g].1);
    }
}

impl OffsetList {
    /// Appends the items of run `j` that meet both windows, in order; `true`
    /// when the run is a placeholder, whose one item (size 0) ends the query.
    #[verifier::rlimit(80)]
    fn emit_run(
        &self,
        result: &mut Vec<Item>,
        j: usize,
        range: Range,
        start_offset: u32,
        end_offset: u32,
        min_index: u32,
        max_index: u32,
    ) -> (stop: bool)
        requires
            self.wf(),
            j < self.offset_index().len(),
            range.start == self.offset_index()[j as int].0,
            range.size == self.offset_index()[j as int].1,
            items_ok(*self, old(result)@, start_offset, end_offset, min_index, max_index),
            forall|m: int| 0 <= m < old(result)@.len() ==> (#[trigger] old(result)@[m]).index < range.start,
            window_exact(*self, start_offset, end_offset) ==> forall|x: u32|
                x < range.start && overlaps(*self, x, start_offset, end_offset, min_index, max_index)
                    ==> #[trigger] listed(old(result)@, x),
        ensures
            stop ==> {
                &&& self.size_index()[j as int].1 == 0
                &&& final(result)@.len() == old(result)@.len() + 1
                &&& final(result)@.drop_last() == old(result)@
                &&& final(result)@.last() == placeholder_item(*self, j as int, min_index)
            },
            !stop ==> self.size_index()[j as int].1 > 0,
            !stop ==> items_ok(*self, final(result)@, start_offset, end_offset, min_index, max_index),
            !stop ==> forall|m: int|
                0 <= m < final(result)@.len() ==> (#[trigger] final(result)@[m]).index <= run_end(
                    self.offset_index(),
                    j as int,
                ),
            !stop && window_exact(*self, start_offset, end_offset) ==> forall|x: u32|
                x <= run_end(self.offset_index(), j as int) && overlaps(
                    *self,
                    x,
                    start_offset,
                    end_offset,
                    min_index,
                    max_index,
                ) ==> #[trigger] listed(final(result)@, x),
    {
        let ghost s = self.size_index();
        let ghost o = self.offset_index();
        let ghost full = window_exact(*self, start_offset, end_offset);
        let ghost k = range.start;
        assert(o.len() == self.offset_tree.len());
        let size = self.size_tree[j].1;
        assert(s[j as int].0 == k);
        let run_end: u32 = if j + 1 < self.offset_tree.len() {
            assert(o[j as int].0 < o[j + 1].0);
            self.offset_tree[j + 1].0 - 1
        } else {
            LAST_RANGE_END
        };
        assert(run_end == crate::tree_utils::run_end(o, j as int));
        let mut offset: u32 = range.size;
        let mut first: u32 = range.start;
        let ghost mut skipped_to: int = k as int;
        if range.size < start_offset && size > 0 {
            let adv: u32 = (start_offset - range.size) / size;
            proof {
                skipped_to = k + adv;
            }
            assert(adv * size <= start_offset - range.size) by (nonlinear_arith)
                requires adv == (start_offset - range.size) / size as int, size > 0;
            assert forall|x: u32| k <= x <= run_end && x - k < adv implies !overlaps(
                *self,
                x,
                start_offset,
                end_offset,
                min_index,
                max_index,
            ) by {
                lemma_in_run(*self, j as int, x);
                let d = x - k;
                assert((d + 1) * size <= adv * size) by (nonlinear_arith)
                    requires d + 1 <= adv, size > 0;
                assert((d + 1) * size == d * size + size) by (nonlinear_arith);
            }
            if range.start as u64 + adv as u64 > run_end as u64 {
                return false;
            }
            first = range.start + adv;
            offset = offset + adv * size;
            assert(offset + size > start_offset) by (nonlinear_arith)
                requires adv == (start_offset - range.size) / size as int, size > 0,
                    offset == range.size + adv * size;
        }
        proof {
            if first == k {
                assert((first - k) * size == 0) by (nonlinear_arith) requires first == k;
            }
        }
        assert(k <= first <= run_end);
        assert(first == skipped_to);
        assert(forall|x2: u32|
            k <= x2 < skipped_to && x2 <= run_end ==> !overlaps(
                *self,
                x2,
                start_offset,
                end_offset,
                min_index,
                max_index,
            ));
        assert(offset == o[j as int].1 + (first - k) * size);
        assert(size > 0 ==> offset + size > start_offset);
        if first < min_index {
            let d: u64 = (min_index - first) as u64;
            assert(d * size <= 0xFFFF_FFFF * 0xFFFF_FFFF) by (nonlinear_arith)
                requires d <= 0xFFFF_FFFF, size <= 0xFFFF_FFFF;
            let v: u64 = offset as u64 + d * size as u64;
            assert(v == o[j as int].1 + (min_index - k) * size) by (nonlinear_arith)
                requires v == offset + d * size, offset == o[j as int].1 + (first - k) * size,
                    d == min_index - first;
            if v > end_offset as u64 && size > 0 {
                assert forall|x: u32| k <= x <= run_end && x >= min_index implies !overlaps(
                    *self,
                    x,
                    start_offset,
                    end_offset,
                    min_index,
                    max_index,
                ) by {
                    lemma_in_run(*self, j as int, x);
                    assert((x - k) * size >= (min_index - k) * size) by (nonlinear_arith)
                        requires x >= min_index, size > 0;
                }
                return false;
            }
            assert(d * size == 0 || v <= end_offset) by (nonlinear_arith)
                requires size == 0 || v <= end_offset, d >= 0;
            assert(size > 0 ==> v >= offset + size) by (nonlinear_arith)
                requires v == offset + d * size, d >= 1;
            offset = v as u32;
            first = min_index;
        }
        assert(offset == o[j as int].1 + (first - k) * size);
        if size == 0 {
            assert((first - k) * size == 0) by (nonlinear_arith) requires size == 0;
            result.push(Item { index: first, size: 0, offset });
            assert(result@.drop_last() == old(result)@);
            return true;
        }
        let last: u32 = if run_end < max_index { run_end } else { max_index };
        let mut x: u64 = first as u64;
        let mut going = offset <= end_offset;
        while going && x <= last as u64
            invariant
                self.wf(),
                s == self.size_index(),
                o == self.offset_index(),
                full == window_exact(*self, start_offset, end_offset),
                0 <= j < o.len(),
                k == o[j as int].0,
                k == s[j as int].0,
                size == s[j as int].1,
                size > 0,
                run_end == crate::tree_utils::run_end(o, j as int),
                last <= run_end,
                last <= max_index,
                last == run_end || last == max_index,
                first >= min_index,
                first == skipped_to || first == min_index,
                forall|x2: u32|
                    k <= x2 < skipped_to && x2 <= run_end ==> !overlaps(
                        *self,
                        x2,
                        start_offset,
                        end_offset,
                        min_index,
                        max_index,
                    ),
                k <= first <= x,
                x <= last as int + 1 || x == first,
                going ==> offset == o[j as int].1 + (x - k) * size && offset <= end_offset,
                going ==> offset + size > start_offset,
                !going ==> o[j as int].1 + (x - k) * size > end_offset,
                items_ok(*self, result@, start_offset, end_offset, min_index, max_index),
                forall|m: int| 0 <= m < result@.len() ==> (#[trigger] result@[m]).index < x,
                full ==> forall|x2: u32|
                    x2 < x && overlaps(*self, x2, start_offset, end_offset, min_index, max_index)
                        ==> #[trigger] listed(result@, x2),
            decreases last as int + 1 - x,
        {
            let ghost before = result@;
            proof {
                lemma_in_run(*self, j as int, x as u32);
                lemma_listed_push(result@, Item { index: x as u32, size, offset });
            }
            result.push(Item { index: x as u32, size, offset });
            x = x + 1;
            proof {
                if full {
                    assert forall|x2: u32|
                        x2 < x && overlaps(*self, x2, start_offset, end_offset, min_index, max_index)
                            implies #[trigger] listed(result@, x2) by {
                        if x2 < x - 1 {
                            assert(listed(before, x2));
                        }
                    }
                }
            }
            assert(o[j as int].1 + (x - k) * size == offset + size) by (nonlinear_arith)
                requires offset == o[j as int].1 + (x - 1 - k) * size;
            if size > end_offset - offset {
                going = false;
            } else {
                offset = offset + size;
            }
        }
        proof {
            if full {
            assert forall|x2: u32|
                x2 <= run_end && overlaps(*self, x2, start_offset, end_offset, min_index, max_index)
                    implies #[trigger] listed(result@, x2) by {
                if x2 >= x && x2 >= k {
                    lemma_in_run(*self, j as int, x2);
                    if !going {
                        assert((x2 - k) * size >= (x - k) * size) by (nonlinear_arith)
                            requires x2 >= x, size > 0;
                    } else if x > last {
                        assert(x2 > max_index);
                    } else {
                        assert(offset > end_offset);
                    }
                } else if x2 >= k && x2 < first && x2 >= min_index {
                    assert(x2 < skipped_to);
                }
            }
            }
        }
        false
    }
}

impl OffsetList {
    /// Items that meet the pixel window `start_offset..=end_offset` (the
    /// first being the item that holds `start_offset`), limited to indices
    /// `min_index..=max_index`, in index order. A placeholder run met on the
    /// way gives one item of size 0 (at its start or `min_index`, with its
    /// offset) and ends the query. Where offsets are consistent, each item
    /// meeting both windows before that placeholder is returned.
    pub fn range(&self, start_offset: u32, end_offset: u32, min_index: u32, max_index: u32) -> (r: Vec<Item>)
        requires
            self.wf(),
            self.size_index().len() > 0,
            end_offset <= self.offset_index().last().1,
        ensures
            forall|m: int|
                0 <= m < r@.len() && (#[trigger] r@[m]).size > 0 ==> item_of(*self, r@[m]) && overlaps(
                    *self,
                    r@[m].index,
                    start_offset,
                    end_offset,
                    min_index,
                    max_index,
                ),
            forall|m: int| 0 <= m < r@.len() ==> min_index <= #[trigger] r@[m].index,
            forall|m: int|
                0 <= m < r@.len() && #[trigger] r@[m].size == 0 ==> m == r@.len() - 1 && exists|j: int|
                    0 <= j < self.size_index().len() && #[trigger] self.size_index()[j].1 == 0 && r@[m]
                        == placeholder_item(*self, j, min_index),
            (forall|j: int| 0 <= j < self.size_index().len() ==> #[trigger] self.size_index()[j].1 > 0)
                ==> forall|m: int| 0 <= m < r@.len() ==> #[trigger] r@[m].size > 0,
            forall|m: int, n: int| 0 <= m < n < r@.len() ==> r@[m].index < r@[n].index,
            window_exact(*self, start_offset, end_offset) ==> forall|x: u32|
                overlaps(*self, x, start_offset, end_offset, min_index, max_index) && (r@.len() == 0
                    || r@.last().size > 0 || x < r@.last().index) ==> #[trigger] listed(r@, x),
    {
        let ghost s = self.size_index();
        let ghost o = self.offset_index();
        let ghost p = self.pixel_tree@;
        let ghost full = window_exact(*self, start_offset, end_offset);
        proof {
            lemma_pixel(o);
            lemma_pixel_entries(o);
            lemma_floor(p, start_offset);
        }
        let (_, start_key) = lte(&self.pixel_tree, start_offset);
        let e = lower_exec(&self.pixel_tree, end_offset as u64);
        let mut result: Vec<Item> = Vec::new();
        if e >= self.pixel_tree.len() {
            assert(!full) by {
                if full {
                    assert(p[p.len() - 1].0 < end_offset);
                }
            }
            return result;
        }
        let end_key = self.pixel_tree[e].1;
        let ghost pf = floor_index(p, start_offset);
        let ghost jp = choose|j: int| 0 <= j < o.len() && p[pf] == (o[j].1, o[j].0);
        let ghost je = choose|j: int| 0 <= j < o.len() && p[e as int] == (o[j].1, o[j].0);
        proof {
            assert(exists|j: int| 0 <= j < o.len() && #[trigger] p[pf] == (o[j].1, o[j].0));
            assert(exists|j: int| 0 <= j < o.len() && #[trigger] p[e as int] == (o[j].1, o[j].0));
            if full {
                assert(pf <= e) by {
                    if pf > e {
                        assert(p[e as int].0 < p[pf].0);
                    }
                }
                assert(p[pf].1 <= p[e as int].1) by {
                    if pf < e {
                        assert(p[pf].1 < p[e as int].1);
                    }
                }
            }
        }
        if start_key > end_key {
            return result;
        }
        assert(sorted(o));
        proof {
            lemma_floor(o, start_key);
        }
        let f = lte_index(&self.offset_tree, start_key);
        let ranges = ranges_within(&self.offset_tree, start_key, end_key);
        let ghost len = ranges@.len();
        proof {
            if full {
                assert(is_floor(o, jp, start_key)) by {
                    if jp + 1 < o.len() {
                        assert(o[jp].0 < o[jp + 1].0);
                    }
                }
                lemma_floor(o, end_key);
                assert(is_floor(o, je, end_key)) by {
                    if je + 1 < o.len() {
                        assert(o[je].0 < o[je + 1].0);
                    }
                }
                assert(o[f as int].1 <= start_offset);
                assert(o[f + len - 1].1 >= end_offset);
                assert forall|x: u32|
                    x < o[f as int].0 && overlaps(*self, x, start_offset, end_offset, min_index, max_index)
                        implies #[trigger] listed(result@, x) by {
                    lemma_around_run(*self, f as int, x);
                }
            }
        }
        let mut i: usize = 0;
        while i < ranges.len()
            invariant
                self.wf(),
                s == self.size_index(),
                o == self.offset_index(),
                full == window_exact(*self, start_offset, end_offset),
                sorted(o),
                0 <= i <= len,
                len == ranges@.len(),
                f == floor_index(o, start_key),
                is_floor(o, f as int, start_key),
                is_floor(o, f + len - 1, end_key),
                forall|m: int| 0 <= m < len ==> #[trigger] ranges@[m] == range_at(o, f + m, m + 1 == len),
                items_ok(*self, result@, start_offset, end_offset, min_index, max_index),
                i < len ==> forall|m: int|
                    0 <= m < result@.len() ==> (#[trigger] result@[m]).index < o[f + i].0,
                full ==> o[f + len - 1].1 >= end_offset,
                i > 0 ==> s[f + i - 1].1 > 0,
                full && i < len ==> forall|x: u32|
                    x < o[f + i].0 && overlaps(*self, x, start_offset, end_offset, min_index, max_index)
                        ==> #[trigger] listed(result@, x),
                full && i == len ==> forall|x: u32|
                    x <= run_end(o, f + len - 1) && overlaps(
                        *self,
                        x,
                        start_offset,
                        end_offset,
                        min_index,
                        max_index,
                    ) ==> #[trigger] listed(result@, x),
            decreases len - i,
        {
            let range = ranges[i];
            assert(o.len() == self.offset_tree.len());
            assert(f + i < o.len());
            let j = f + i;
            if self.emit_run(&mut result, j, range, start_offset, end_offset, min_index, max_index) {
                proof {
                    let q = result@.drop_last();
                    assert forall|m: int, n: int| 0 <= m < n < result@.len() implies result@[m].index
                        < result@[n].index by {
                        if n == result@.len() - 1 {
                            assert(q[m] == result@[m]);
                        } else {
                            assert(q[m] == result@[m] && q[n] == result@[n]);
                        }
                    }
                    assert forall|m: int| 0 <= m < result@.len() - 1 implies (#[trigger] result@[m]).size
                        > 0 && item_of(*self, result@[m]) && overlaps(
                        *self,
                        result@[m].index,
                        start_offset,
                        end_offset,
                        min_index,
                        max_index,
                    ) by {
                        assert(q[m] == result@[m]);
                    }
                    assert forall|m: int| 0 <= m < result@.len() implies min_index <= #[trigger] result@[m].index by {
                        if m < result@.len() - 1 {
                            assert(q[m] == result@[m]);
                        }
                    }
                    assert(result@ == q.push(result@.last()));
                    lemma_listed_push(q, result@.last());
                    assert(s[j as int].1 == 0);
                    if full {
                        assert forall|x: u32|
                            overlaps(*self, x, start_offset, end_offset, min_index, max_index) && x
                                < result@.last().index implies #[trigger] listed(result@, x) by {
                            if x < o[j as int].0 {
                                assert(listed(q, x));
                            }
                        }
                    }
                }
                return result;
            }
            proof {
                if i + 1 < len {
                    assert(o[j as int].0 < o[j + 1].0);
                }
            }
            i = i + 1;
        }
        proof {
            if full {
                assert forall|x: u32| overlaps(*self, x, start_offset, end_offset, min_index, max_index)
                    implies #[trigger] listed(result@, x) by {
                    let last = f + len - 1;
                    if x > run_end(o, last) {
                        assert(last + 1 < o.len());
                        lemma_around_run(*self, last + 1, x);
                        let d = s[last + 1].0 - s[last].0;
                        let z = s[last].1;
                        assert(d * z > 0) by (nonlinear_arith)
                            requires d > 0, z > 0;
                        assert(o[last + 1].1 == o[last].1 + d * z);
                    }
                }
            }
        }
        result
    }
}

/// Key `k` starts a run.
pub open spec fn has_key(t: Seq<(u32, u32)>, k: u32) -> bool {
    exists|j: int| 0 <= j < t.len() && #[trigger] t[j].0 == k
}

/// The tree with key `k` set to `v`.
pub open spec fn tree_set(t: Seq<(u32, u32)>, k: u32, v: u32) -> Seq<(u32, u32)> {
    let lo = lower(t, k as int);
    if lo < t.len() && t[lo].0 == k {
        t.update(lo, (k, v))
    } else {
        t.insert(lo, (k, v))
    }
}

/// Size Index built from reserved spots: each spot gets `size` and the
/// index after it a placeholder, spot by spot in order.
pub open spec fn spots_tree(spots: Seq<u32>, size: u32) -> Seq<(u32, u32)>
    decreases spots.len(),
{
    if spots.len() == 0 {
        Seq::empty()
    } else {
        let x = spots.last();
        tree_set(tree_set(spots_tree(spots.drop_last(), size), x, size), (x + 1) as u32, 0)
    }
}

proof fn lemma_tree_set(t: Seq<(u32, u32)>, k: u32, v: u32)
    requires
        sorted(t),
    ensures
        sorted(tree_set(t, k, v)),
        forall|x: u32| #[trigger] has_key(tree_set(t, k, v), x) <==> (has_key(t, x) || x == k),
{
    lemma_lower_facts(t, k as int);
    let lo = lower(t, k as int);
    let n = tree_set(t, k, v);
    if lo < t.len() && t[lo].0 == k {
        assert forall|x: u32| #[trigger] has_key(n, x) <==> (has_key(t, x) || x == k) by {
            if has_key(t, x) {
                let j = choose|j: int| 0 <= j < t.len() && #[trigger] t[j].0 == x;
                assert(n[j].0 == x);
            }
            if x == k {
                assert(n[lo].0 == x);
            }
            if has_key(n, x) {
                let j = choose|j: int| 0 <= j < n.len() && #[trigger] n[j].0 == x;
                assert(t[j].0 == x);
            }
        }
    } else {
        assert forall|i: int, j: int| 0 <= i < j < n.len() implies n[i].0 < n[j].0 by {
            if i < lo && j > lo {
                assert(t[i].0 < t[j - 1].0);
            } else if i > lo {
                assert(t[i - 1].0 < t[j - 1].0);
            } else if i == lo && j > lo {
                assert(t[j - 1].0 >= k);
            }
        }
        assert forall|x: u32| #[trigger] has_key(n, x) <==> (has_key(t, x) || x == k) by {
            if has_key(t, x) {
                let j = choose|j: int| 0 <= j < t.len() && #[trigger] t[j].0 == x;
                if j < lo {
                    assert(n[j].0 == x);
                } else {
                    assert(n[j + 1].0 == x);
                }
            }
            if x == k {
                assert(n[lo].0 == x);
            }
            if has_key(n, x) {
                let j = choose|j: int| 0 <= j < n.len() && #[trigger] n[j].0 == x;
                if j < lo {
                    assert(t[j].0 == x);
                } else if j > lo {
                    assert(t[j - 1].0 == x);
                }
            }
        }
    }
}

proof fn lemma_spots_tree(spots: Seq<u32>, size: u32)
    ensures
        sorted(spots_tree(spots, size)),
        forall|x: u32| spots.contains(x) ==> #[trigger] has_key(spots_tree(spots, size), x),
    decreases spots.len(),
{
    if spots.len() > 0 {
        let p = spots.drop_last();
        let x = spots.last();
        lemma_spots_tree(p, size);
        let t0 = spots_tree(p, size);
        lemma_tree_set(t0, x, size);
        lemma_tree_set(tree_set(t0, x, size), (x + 1) as u32, 0);
        assert forall|y: u32| spots.contains(y) implies #[trigger] has_key(spots_tree(spots, size), y) by {
            if y != x {
                let i = choose|i: int| 0 <= i < spots.len() && spots[i] == y;
                assert(p[i] == y);
            }
        }
    }
}

/// Sets key `k` to `v` in a sorted tree.
fn tree_set_exec(t: &mut Vec<(u32, u32)>, k: u32, v: u32)
    requires
        sorted(old(t)@),
    ensures
        final(t)@ == tree_set(old(t)@, k, v),
{
    let lo = lower_exec(t, k as u64);
    if lo < t.len() && t[lo].0 == k {
        t.set(lo, (k, v));
    } else {
        t.insert(lo, (k, v));
    }
}

impl OffsetList {
    /// Removes the run starting at `index` from all three trees; the runs
    /// after it keep their offsets.
    pub fn remove_index(&mut self, index: &u32)
        requires
            old(self).wf(),
            *index > 0,
            has_key(old(self).size_index(), *index),
        ensures
            final(self).wf(),
            final(self).size_index() == old(self).size_index().remove(
                floor_index(old(self).size_index(), *index),
            ),
            final(self).offset_index() == old(self).offset_index().remove(
                floor_index(old(self).size_index(), *index),
            ),
    {
        let ghost s = self.size_tree@;
        let ghost o = self.offset_tree@;
        proof {
            let w = choose|w: int| 0 <= w < s.len() && #[trigger] s[w].0 == *index;
            lemma_floor(s, *index);
            assert(is_floor(s, w, *index)) by {
                if w + 1 < s.len() {
                    assert(s[w].0 < s[w + 1].0);
                }
            }
        }
        let j = lte_index(&self.size_tree, *index);
        self.size_tree.remove(j);
        self.offset_tree.remove(j);
        proof {
            let n = self.size_tree@;
            let q = self.offset_tree@;
            assert(sorted(n)) by {
                assert forall|a: int, b: int| 0 <= a < b < n.len() implies n[a].0 < n[b].0 by {
                    let a2 = if a < j { a } else { a + 1 };
                    let b2 = if b < j { b } else { b + 1 };
                    assert(n[a] == s[a2] && n[b] == s[b2]);
                }
            }
            assert(nondecreasing(q)) by {
                assert forall|a: int, b: int| 0 <= a < b < q.len() implies q[a].1 <= q[b].1 by {
                    let a2 = if a < j { a } else { a + 1 };
                    let b2 = if b < j { b } else { b + 1 };
                    assert(q[a] == o[a2] && q[b] == o[b2]);
                }
            }
            assert(j > 0);
            assert(n[0] == s[0] && q[0] == o[0]);
            assert(same_keys(n, q));
        }
        self.pixel_tree = build_pixel_tree(&self.offset_tree);
    }

    /// Reserves spots in an empty list: each spot gets `size` and the index
    /// after it a placeholder run, then the runs are laid out from 0.
    pub fn insert_spots(&mut self, spots: Vec<u32>, size: u32) -> (r: Result<(), OffsetError>)
        requires
            old(self).wf(),
            old(self).size_index().len() == 0,
            spots@.contains(0),
            forall|i: int| 0 <= i < spots@.len() ==> #[trigger] spots@[i] < u32::MAX,
        ensures
            final(self).wf(),
            ({
                let n = spots_tree(spots@, size);
                &&& r.is_ok() <==> prop_fits(n, 0, 0)
                &&& r.is_ok() ==> final(self).size_index() == n
                &&& r.is_ok() ==> final(self).offset_index() == propagated(n, Seq::empty(), 0, 0)
                &&& r.is_ok() ==> consistent(final(self).size_index(), final(self).offset_index())
                &&& r.is_err() ==> *final(self) == *old(self)
            }),
    {
        let mut n: Vec<(u32, u32)> = Vec::new();
        let mut i: usize = 0;
        while i < spots.len()
            invariant
                0 <= i <= spots.len(),
                forall|m: int| 0 <= m < spots@.len() ==> #[trigger] spots@[m] < u32::MAX,
                n@ == spots_tree(spots@.subrange(0, i as int), size),
            decreases spots.len() - i,
        {
            let x = spots[i];
            proof {
                lemma_spots_tree(spots@.subrange(0, i as int), size);
                assert(spots@.subrange(0, i + 1).drop_last() == spots@.subrange(0, i as int));
                lemma_tree_set(n@, x, size);
            }
            tree_set_exec(&mut n, x, size);
            tree_set_exec(&mut n, x + 1, 0);
            i = i + 1;
        }
        proof {
            assert(spots@.subrange(0, spots@.len() as int) == spots@);
            lemma_spots_tree(spots@, size);
            assert(has_key(n@, 0u32));
            let w = choose|w: int| 0 <= w < n@.len() && #[trigger] n@[w].0 == 0;
            assert(n@[0].0 <= n@[w].0);
        }
        let empty: Vec<(u32, u32)> = Vec::new();
        match propagate(&n, &empty, 0, 0) {
            Some(v) => {
                proof {
                    lemma_propagated_wf(n@, empty@, 0, 0);
                    lemma_propagated_consistent(n@, empty@, 0, 0);
                }
                self.pixel_tree = build_pixel_tree(&v);
                self.offset_tree = v;
                self.size_tree = n;
                Ok(())
            },
            None => Err(OffsetError::Overflow),
        }
    }

    /// Keys of the Size Index, in order.
    pub fn size_keys(&self) -> (r: Vec<u32>)
        ensures
            r@ == self.size_index().map_values(|e: (u32, u32)| e.0),
    {
        keys_of(&self.size_tree)
    }

    /// Sizes of the Size Index, in key order.
    pub fn size_values(&self) -> (r: Vec<u32>)
        ensures
            r@ == self.size_index().map_values(|e: (u32, u32)| e.1),
    {
        values_of(&self.size_tree)
    }

    /// Keys of the Offset Index, in order.
    pub fn offset_keys(&self) -> (r: Vec<u32>)
        ensures
            r@ == self.offset_index().map_values(|e: (u32, u32)| e.0),
    {
        keys_of(&self.offset_tree)
    }

    /// Offsets of the Offset Index, in key order.
    pub fn offset_values(&self) -> (r: Vec<u32>)
        ensures
            r@ == self.offset_index().map_values(|e: (u32, u32)| e.1),
    {
        values_of(&self.offset_tree)
    }

    /// Entries `(offset, index)` of the Pixel Index, in offset order.
    pub fn pixel_entries(&self) -> (r: Vec<(u32, u32)>)
        ensures
            r@ == self.pixel_index(),
    {
        let mut r: Vec<(u32, u32)> = Vec::new();
        let mut i: usize = 0;
        while i < self.pixel_tree.len()
            invariant
                0 <= i <= self.pixel_tree.len(),
                r@ == self.pixel_tree@.subrange(0, i as int),
            decreases self.pixel_tree.len() - i,
        {
            r.push(self.pixel_tree[i]);
            i = i + 1;
            assert(r@ == self.pixel_tree@.subrange(0, i as int));
        }
        assert(self.pixel_tree@.subrange(0, i as int) == self.pixel_tree@);
        r
    }
}

fn keys_of(t: &Vec<(u32, u32)>) -> (r: Vec<u32>)
    ensures
        r@ == t@.map_values(|e: (u32, u32)| e.0),
{
    let mut r: Vec<u32> = Vec::new();
    let mut i: usize = 0;
    while i < t.len()
        invariant
            0 <= i <= t.len(),
            r@ == t@.subrange(0, i as int).map_values(|e: (u32, u32)| e.0),
        decreases t.len() - i,
    {
        r.push(t[i].0);
        i = i + 1;
        assert(r@ == t@.subrange(0, i as int).map_values(|e: (u32, u32)| e.0));
    }
    assert(t@.subrange(0, t.len() as int) == t@);
    r
}

fn values_of(t: &Vec<(u32, u32)>) -> (r: Vec<u32>)
    ensures
        r@ == t@.map_values(|e: (u32, u32)| e.1),
{
    let mut r: Vec<u32> = Vec::new();
    let mut i: usize = 0;
    while i < t.len()
        invariant
            0 <= i <= t.len(),
            r@ == t@.subrange(0, i as int).map_values(|e: (u32, u32)| e.1),
        decreases t.len() - i,
    {
        r.push(t[i].1);
        i = i + 1;
        assert(r@ == t@.subrange(0, i as int).map_values(|e: (u32, u32)| e.1));
    }
    assert(t@.subrange(0, t.len() as int) == t@);
    r
}

fn anchor_key_exec(start: u32) -> (r: u32)
    ensures
        r == anchor_key(start),
{
    if start == 0 {
        0
    } else {
        start - 1
    }
}


/// Every run but perhaps the last has a size.
pub open spec fn sized_runs(s: Seq<(u32, u32)>) -> bool {
    forall|j: int| 0 <= j < s.len() - 1 ==> #[trigger] s[j].1 > 0
}

/// Offsets strictly increase along the tree.
pub open spec fn increasing(o: Seq<(u32, u32)>) -> bool {
    forall|i: int, j: int| 0 <= i < j < o.len() ==> o[i].1 < o[j].1
}

/// Where no two runs share an offset, the Pixel Index is the Offset Index
/// with keys and values swapped: one entry per run, `offset(k) -> k`.
pub proof fn lemma_pixel_is_inverse(o: Seq<(u32, u32)>)
    requires
        increasing(o),
    ensures
        pixel_of(o) == o.map_values(|e: (u32, u32)| (e.1, e.0)),
    decreases o.len(),
{
    if o.len() > 0 {
        let q = o.drop_last();
        lemma_pixel_is_inverse(q);
        lemma_pixel(q);
        assert(o.map_values(|e: (u32, u32)| (e.1, e.0)) == q.map_values(|e: (u32, u32)| (e.1, e.0)).push(
            (o.last().1, o.last().0),
        ));
    }
}

/// Consistent offsets of runs that all have a size strictly increase.
pub proof fn lemma_sized_runs_increase(s: Seq<(u32, u32)>, o: Seq<(u32, u32)>)
    requires
        sorted(s),
        same_keys(s, o),
        consistent(s, o),
        forall|j: int| 0 <= j < s.len() - 1 ==> #[trigger] s[j].1 > 0,
    ensures
        increasing(o),
    decreases s.len(),
{
    if s.len() > 1 {
        let s2 = s.drop_last();
        let o2 = o.drop_last();
        assert forall|j: int| 0 < j < s2.len() implies #[trigger] o2[j].1 == o2[j - 1].1 + (s2[j].0 - s2[j - 1].0)
            * s2[j - 1].1 by {
            assert(o[j].1 == o[j - 1].1 + (s[j].0 - s[j - 1].0) * s[j - 1].1);
        }
        lemma_sized_runs_increase(s2, o2);
        let n = s.len() - 1;
        let d = s[n].0 - s[n - 1].0;
        let z = s[n - 1].1;
        assert(d * z > 0) by (nonlinear_arith)
            requires d > 0, z > 0;
        assert(o[n].1 > o[n - 1].1);
        assert forall|i: int, j: int| 0 <= i < j < o.len() implies o[i].1 < o[j].1 by {
            if j < n {
                assert(o2[i].1 < o2[j].1);
            } else if i < n - 1 {
                assert(o2[i].1 < o2[n - 1].1);
            }
        }
    }
}

/// In a list whose offsets are consistent and whose runs, but perhaps the
/// last, all have a size, the Pixel Index holds exactly one entry per run,
/// mapping the run's offset back to its start.
pub proof fn lemma_pixel_index_inverts_offsets(l: OffsetList)
    requires
        l.wf(),
        consistent(l.size_index(), l.offset_index()),
        sized_runs(l.size_index()),
    ensures
        l.pixel_index().len() == l.offset_index().len(),
        forall|j: int|
            0 <= j < l.offset_index().len() ==> #[trigger] l.pixel_index()[j] == (
            l.offset_index()[j].1,
            l.offset_index()[j].0,
        ),
{
    lemma_sized_runs_increase(l.size_index(), l.offset_index());
    lemma_pixel_is_inverse(l.offset_index());
}

proof fn lemma_propagated_consistent(s: Seq<(u32, u32)>, o: Seq<(u32, u32)>, a: int, base: u32)
    requires
        sorted(s),
        0 <= a < s.len(),
        a <= o.len(),
        prop_fits(s, a, base),
        forall|j: int| 0 < j < a ==> #[trigger] o[j].1 == o[j - 1].1 + (s[j].0 - s[j - 1].0) * s[j - 1].1,
        a > 0 ==> base == o[a - 1].1 + (s[a].0 - s[a - 1].0) * s[a - 1].1,
    ensures
        consistent(s, propagated(s, o, a, base)),
{
    let n = propagated(s, o, a, base);
    assert forall|j: int| 0 < j < s.len() implies #[trigger] n[j].1 == n[j - 1].1 + (s[j].0 - s[j - 1].0)
        * s[j - 1].1 by {
        if j > a {
            assert(prop_off(s, a, base, j) <= u32::MAX);
            assert(prop_off(s, a, base, j - 1) <= u32::MAX);
            lemma_prop_mono(s, a, base, j - 1, j - 1);
        } else if j == a {
            assert(prop_off(s, a, base, j) == base);
        }
    }
}

/// An insertion keeps every run starting at the offset where the run before
/// it ends.
pub proof fn lemma_insert_keeps_offsets_consistent(
    t: Seq<(u32, u32)>,
    o: Seq<(u32, u32)>,
    start: u32,
    end: u32,
    size: u32,
)
    requires
        trees_wf(t, o, pixel_of(o)),
        consistent(t, o),
        start <= end,
        insert_fits(t, o, start, end, size),
    ensures
        consistent(insert_result(t, start, end, size), insert_offsets(t, o, start, end, size)),
{
    if placeholder_at(t, start) && !insert_resets(t, start, size) {
        lemma_propagated_consistent(rewritten(t, size), o, 0, o[0].1);
    } else if !insert_resets(t, start, size) {
        let n = insert_result(t, start, end, size);
        lemma_inserted(t, start, end, size);
        lemma_floor(n, anchor_key(start));
        let a = insert_anchor(t, start, end, size);
        let lo = lower(t, start as int);
        assert(a < lo || a == 0) by {
            if a >= lo && a > 0 {
                assert(n[a].0 >= start);
            }
        }
        if a > 0 {
            assert(n[a] == t[a] && n[a - 1] == t[a - 1]);
            assert(o[a].1 == o[a - 1].1 + (t[a].0 - t[a - 1].0) * t[a - 1].1);
        }
        assert forall|j: int| 0 < j < a implies #[trigger] o[j].1 == o[j - 1].1 + (n[j].0 - n[j - 1].0)
            * n[j - 1].1 by {
            assert(n[j] == t[j] && n[j - 1] == t[j - 1]);
            assert(o[j].1 == o[j - 1].1 + (t[j].0 - t[j - 1].0) * t[j - 1].1);
        }
        lemma_propagated_consistent(n, o, a, o[a].1);
    }
}

/// No two neighbouring runs carry the same size.
pub open spec fn distinct_neighbours(t: Seq<(u32, u32)>) -> bool {
    forall|j: int| 0 < j < t.len() ==> #[trigger] t[j].1 != t[j - 1].1
}

/// Facts on the runs around an insertion: the run before `start` and the
/// run holding `end + 1`.
proof fn lemma_insert_borders(t: Seq<(u32, u32)>, start: u32, end: u32)
    requires
        sorted(t),
        covers(t, 0),
        start <= end,
    ensures
        ({
            let lo = lower(t, start as int);
            let hi = lower(t, end + 2);
            &&& 0 <= lo <= hi <= t.len()
            &&& hi >= 1
            &&& end == u32::MAX ==> hi == t.len()
            &&& start > 0 ==> lo >= 1 && value_at(t, (start - 1) as u32) == t[lo - 1].1
            &&& end < u32::MAX ==> value_at(t, (end + 1) as u32) == t[hi - 1].1
        }),
{
    let lo = lower(t, start as int);
    let hi = lower(t, end + 2);
    lemma_lower_facts(t, start as int);
    lemma_lower_facts(t, end + 2);
    assert(lo <= hi) by {
        if hi < lo {
            assert(t[hi].0 < start);
        }
    }
    assert(hi >= 1) by {
        if hi == 0 {
            assert(t[0].0 >= end + 2);
        }
    }
    if end < u32::MAX {
        lemma_floor(t, (end + 1) as u32);
        assert(is_floor(t, hi - 1, (end + 1) as u32));
    } else if hi < t.len() {
        assert(t[hi].0 >= end + 2);
    }
    if start > 0 {
        assert(lo >= 1) by {
            if lo == 0 {
                assert(t[0].0 >= start);
            }
        }
        lemma_floor(t, (start - 1) as u32);
        assert(is_floor(t, lo - 1, (start - 1) as u32));
    }
}

/// An insertion that does not resolve a placeholder keeps neighbouring runs
/// of different sizes apart: it merges equal neighbours instead.
#[verifier::rlimit(100)]
pub proof fn lemma_insert_keeps_neighbours_distinct(t: Seq<(u32, u32)>, start: u32, end: u32, size: u32)
    requires
        sorted(t),
        t.len() > 0 ==> t[0].0 == 0,
        distinct_neighbours(t),
        start <= end,
        !placeholder_at(t, start) || insert_resets(t, start, size),
    ensures
        distinct_neighbours(insert_result(t, start, end, size)),
{
    if !insert_resets(t, start, size) {
        let n = insert_result(t, start, end, size);
        lemma_insert_borders(t, start, end);
        lemma_inserted(t, start, end, size);
        let lo = lower(t, start as int);
        let hi = lower(t, end + 2);
        let h: int = if start == 0 || value_at(t, (start - 1) as u32) != size { 1 } else { 0 };
        let after = value_at(t, (end + 1) as u32);
        let tt: int = if end < u32::MAX && after != size { 1 } else { 0 };
        assert(n.len() == lo + h + tt + t.len() - hi);
        assert forall|j: int| 0 < j < n.len() implies #[trigger] n[j].1 != n[j - 1].1 by {
            if j < lo {
                assert(n[j] == t[j] && n[j - 1] == t[j - 1]);
            } else if j >= lo + h + tt + 1 {
                assert(n[j] == t[hi + j - lo - h - tt]);
                assert(n[j - 1] == t[hi + j - 1 - lo - h - tt]);
            } else if j == lo + h + tt {
                assert(n[j] == t[hi]);
                if tt == 0 {
                    if h == 0 {
                        assert(n[j - 1] == t[lo - 1]);
                    }
                }
            }
        }
    }
}

/// Inserting the same sized run a second time changes no run.
pub proof fn lemma_insert_idempotent(t: Seq<(u32, u32)>, start: u32, end: u32, size: u32)
    requires
        sorted(t),
        t.len() > 0 ==> t[0].0 == 0,
        start <= end,
        size > 0,
        !placeholder_at(t, start),
    ensures
        ({
            let n = insert_result(t, start, end, size);
            insert_result(n, start, end, size) == n
        }),
{
    let n = insert_result(t, start, end, size);
    if t.len() == 0 {
        assert(n == seq![(0u32, size)]);
        lemma_floor(n, start);
        lemma_floor(n, (end + 1) as u32);
        assert(!placeholder_at(n, start));
        if start > 0 {
            lemma_floor(n, (start - 1) as u32);
            lemma_lower(n, start as int, 1);
        } else {
            lemma_lower(n, start as int, 0);
        }
        lemma_lower(n, end + 2, 1);
        assert(inserted(n, start, end, size) =~= n);
    } else {
        lemma_reinserted(t, start, end, size);
        lemma_inserted(t, start, end, size);
    }
}

#[verifier::rlimit(80)]
proof fn lemma_reinserted(t: Seq<(u32, u32)>, start: u32, end: u32, size: u32)
    requires
        sorted(t),
        t.len() > 0,
        t[0].0 == 0,
        start <= end,
        size > 0,
        !placeholder_at(t, start),
    ensures
        !placeholder_at(inserted(t, start, end, size), start),
        inserted(inserted(t, start, end, size), start, end, size) == inserted(t, start, end, size),
{
    let n = inserted(t, start, end, size);
    {
        lemma_insert_borders(t, start, end);
        lemma_inserted(t, start, end, size);
        let lo = lower(t, start as int);
        let hi = lower(t, end + 2);
        let h: int = if start == 0 || value_at(t, (start - 1) as u32) != size { 1 } else { 0 };
        let after = value_at(t, (end + 1) as u32);
        let tt: int = if end < u32::MAX && after != size { 1 } else { 0 };
        let p = lo + h;
        assert(n.len() == lo + h + tt + t.len() - hi);
        assert(forall|m: int| p + tt <= m < n.len() ==> #[trigger] n[m] == t[hi + m - p - tt]);
        lemma_lower_facts(t, end + 2);
        lemma_lower_facts(t, start as int);
        // no placeholder starts at `start` in the result
        lemma_floor(n, start);
        assert(!placeholder_at(n, start)) by {
            let f = floor_index(n, start);
            if n[f].0 == start && h == 0 {
                assert(f >= lo);
                if f >= p + tt {
                    assert(n[f].0 > end + 1);
                }
            }
        }
        // the same borders are found again
        lemma_lower(n, start as int, lo);
        if start > 0 {
            lemma_floor(n, (start - 1) as u32);
            assert(is_floor(n, lo - 1, (start - 1) as u32));
        }
        if end < u32::MAX {
            lemma_floor(n, (end + 1) as u32);
            if tt == 1 {
                assert(is_floor(n, p, (end + 1) as u32));
            } else {
                assert(p >= 1);
                assert(is_floor(n, p - 1, (end + 1) as u32));
                if h == 0 {
                    assert(n[p - 1] == t[lo - 1]);
                }
            }
        }
        assert forall|m: int| 0 <= m < p + tt implies #[trigger] n[m].0 < end + 2 by {
            if m < lo {
                assert(n[m] == t[m]);
            }
        }
        lemma_lower(n, end + 2, p + tt);
        assert(n.subrange(0, lo) =~= t.subrange(0, lo));
        assert(n.subrange(p + tt, n.len() as int) =~= t.subrange(hi, t.len() as int));
        assert(inserted(n, start, end, size) =~= n);
    }
}

/// With consistent offsets, item `i` ends exactly where item `i + 1` starts:
/// `total(i) == offset_of(i + 1)`.
pub proof fn lemma_item_ends_where_next_starts(l: OffsetList, i: u32)
    requires
        l.wf(),
        consistent(l.size_index(), l.offset_index()),
        l.size_index().len() > 0,
        i < u32::MAX,
    ensures
        l.offset_at(i) + l.size_at(i) == l.offset_at((i + 1) as u32),
{
    let s = l.size_index();
    let o = l.offset_index();
    lemma_floor(s, i);
    let g = floor_index(s, i);
    let k = s[g].0;
    let z = s[g].1;
    assert((i - k + 1) * z == (i - k) * z + z) by (nonlinear_arith);
    if g + 1 < s.len() && i + 1 == s[g + 1].0 {
        assert(o[g + 1].0 == s[g + 1].0);
        lemma_in_run(l, g + 1, (i + 1) as u32);
        assert((i + 1 - s[g + 1].0) * s[g + 1].1 == 0) by (nonlinear_arith)
            requires i + 1 == s[g + 1].0;
    } else {
        if g + 1 < s.len() {
            assert(o[g + 1].0 == s[g + 1].0);
        }
        lemma_in_run(l, g, (i + 1) as u32);
    }
}

/// Outside placeholders, an insertion gives items `start..=end` the size
/// `size` and leaves every other item's size as it was.
#[verifier::rlimit(80)]
pub proof fn lemma_insert_sets_item_sizes(t: Seq<(u32, u32)>, start: u32, end: u32, size: u32, i: u32)
    requires
        sorted(t),
        t.len() > 0,
        t[0].0 == 0,
        start <= end,
        !placeholder_at(t, start),
    ensures
        value_at(insert_result(t, start, end, size), i) == if start <= i <= end {
            size
        } else {
            value_at(t, i)
        },
{
    let n = insert_result(t, start, end, size);
    lemma_insert_borders(t, start, end);
    lemma_inserted(t, start, end, size);
    lemma_lower_facts(t, start as int);
    lemma_lower_facts(t, end + 2);
    let lo = lower(t, start as int);
    let hi = lower(t, end + 2);
    let h: int = if start == 0 || value_at(t, (start - 1) as u32) != size { 1 } else { 0 };
    let after = value_at(t, (end + 1) as u32);
    let tt: int = if end < u32::MAX && after != size { 1 } else { 0 };
    let p = lo + h;
    assert(n.len() == lo + h + tt + t.len() - hi);
    assert(forall|m: int| p + tt <= m < n.len() ==> #[trigger] n[m] == t[hi + m - p - tt]);
    lemma_floor(n, i);
    lemma_floor(t, i);
    let g = floor_index(t, i);
    if i < start {
        assert(g < lo) by {
            if g >= lo {
                assert(t[g].0 >= start);
            }
        }
        assert(n[g] == t[g]);
        if g + 1 < n.len() {
            if g + 1 < lo {
                assert(n[g + 1] == t[g + 1]);
            } else {
                assert(n[g + 1].0 >= start);
            }
        }
        assert(is_floor(n, g, i));
    } else if i <= end {
        if h == 1 {
            assert(n[lo] == (start, size));
            if lo + 1 < n.len() {
                assert(n[lo + 1].0 > end);
            }
            assert(is_floor(n, lo, i));
        } else {
            assert(n[lo - 1] == t[lo - 1]);
            if lo < n.len() {
                assert(n[lo].0 > end);
            }
            assert(is_floor(n, lo - 1, i));
        }
    } else if t[g].0 >= end + 2 {
        assert(g >= hi);
        let w = g - hi + p + tt;
        assert(n[w] == t[g]);
        if w + 1 < n.len() {
            assert(n[w + 1] == t[g + 1]);
        }
        assert(is_floor(n, w, i));
    } else {
        assert(g == hi - 1) by {
            assert(g < hi);
            if g + 1 < hi {
                assert(t[g + 1].0 < end + 2);
            }
        }
        if tt == 1 {
            assert(n[p].0 == end + 1);
            if p + 1 < n.len() {
                assert(n[p + 1] == t[hi]);
            }
            assert(is_floor(n, p, i));
        } else {
            if h == 0 {
                assert(n[p - 1] == t[lo - 1]);
            } else {
                assert(n[p - 1] == (start, size));
            }
            if p < n.len() {
                assert(n[p] == t[hi]);
            }
            assert(is_floor(n, p - 1, i));
        }
    }
}

} // verus!

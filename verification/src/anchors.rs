//! The anchors of a store, one per rollup height, kept in ascending order of
//! height so that lookups and truncation take logarithmic time.

use crate::types::Anchor;
use vstd::prelude::*;

verus! {

/// Whether the anchors of `s` stand in strictly ascending order of height.
pub open spec fn ascending(s: Seq<Anchor>) -> bool {
    forall|i: int, j: int| 0 <= i < j < s.len() ==> s[i].l2_height < s[j].l2_height
}

/// Whether `s` holds an anchor for the height `h`.
pub open spec fn holds(s: Seq<Anchor>, h: u64) -> bool {
    exists|i: int| 0 <= i < s.len() && (#[trigger] s[i]).l2_height == h
}

/// The anchors of `s` by their height.
pub open spec fn by_height(s: Seq<Anchor>) -> Map<u64, Anchor> {
    Map::new(
        |h: u64| holds(s, h),
        |h: u64| s[choose|i: int| 0 <= i < s.len() && (#[trigger] s[i]).l2_height == h],
    )
}

/// The part of `m` at heights up to and including `h`.
pub open spec fn up_to(m: Map<u64, Anchor>, h: u64) -> Map<u64, Anchor> {
    Map::new(|k: u64| m.contains_key(k) && k <= h, |k: u64| m[k])
}

/// The anchor that `m` holds for `h`, if any.
pub open spec fn lookup(m: Map<u64, Anchor>, h: u64) -> Option<Anchor> {
    if m.contains_key(h) {
        Some(m[h])
    } else {
        None
    }
}

/// Whether every anchor of `m` speaks of its own key.
pub open spec fn keyed_by_height(m: Map<u64, Anchor>) -> bool {
    forall|k: u64| m.contains_key(k) ==> (#[trigger] m[k]).l2_height == k
}

/// Whether `k` is the greatest height at or below `h` for which `m` holds
/// an anchor.
pub open spec fn is_nearest_below(m: Map<u64, Anchor>, h: u64, k: u64) -> bool {
    &&& m.contains_key(k)
    &&& k <= h
    &&& forall|j: u64| m.contains_key(j) && j <= h ==> j <= k
}

/// The anchor that `m` holds for the greatest height at or below `h`, if
/// it holds one for any.
pub open spec fn nearest_below(m: Map<u64, Anchor>, h: u64) -> Option<Anchor> {
    if exists|k: u64| is_nearest_below(m, h, k) {
        Some(m[choose|k: u64| is_nearest_below(m, h, k)])
    } else {
        None
    }
}

/// The greatest height at or below `h` is the only one of its kind.
pub proof fn lemma_nearest_is(m: Map<u64, Anchor>, h: u64, k: u64)
    requires
        is_nearest_below(m, h, k),
    ensures
        nearest_below(m, h) == Some(m[k]),
{
    let c = choose|c: u64| is_nearest_below(m, h, c);
    assert(c <= k && k <= c);
}

/// Without an anchor at or below `h` there is no nearest one.
pub proof fn lemma_nearest_none(m: Map<u64, Anchor>, h: u64)
    requires
        forall|k: u64| k <= h ==> !m.contains_key(k),
    ensures
        nearest_below(m, h) is None,
{
}

/// Among the heights at or below `h` that hold an anchor, one is the
/// greatest.
pub proof fn lemma_nearest_exists(m: Map<u64, Anchor>, h: u64, k: u64)
    requires
        m.contains_key(k),
        k <= h,
    ensures
        exists|n: u64| is_nearest_below(m, h, n),
    decreases h,
{
    if m.contains_key(h) {
        assert(is_nearest_below(m, h, h));
    } else {
        let below = (h - 1) as u64;
        lemma_nearest_exists(m, below, k);
        let n = choose|n: u64| is_nearest_below(m, below, n);
        assert(is_nearest_below(m, h, n));
    }
}

/// What `nearest_below` gives is an anchor of the map at a height at or
/// below `h`, with no anchor between it and `h`; and it gives `None` only
/// where there is no anchor at or below `h`.
pub proof fn lemma_nearest_below(m: Map<u64, Anchor>, h: u64)
    ensures
        match nearest_below(m, h) {
            Some(a) => exists|k: u64| is_nearest_below(m, h, k) && m[k] == a,
            None => forall|k: u64| k <= h ==> !m.contains_key(k),
        },
{
    if exists|k: u64| is_nearest_below(m, h, k) {
        let c = choose|c: u64| is_nearest_below(m, h, c);
        assert(is_nearest_below(m, h, c) && m[c] == nearest_below(m, h).unwrap());
    } else {
        assert forall|k: u64| k <= h implies !m.contains_key(k) by {
            if m.contains_key(k) {
                lemma_nearest_exists(m, h, k);
            }
        }
    }
}

/// In an ascending sequence each anchor is the map's entry for its height.
pub proof fn lemma_by_height_at(s: Seq<Anchor>, i: int)
    requires
        ascending(s),
        0 <= i < s.len(),
    ensures
        by_height(s).contains_key(s[i].l2_height),
        by_height(s)[s[i].l2_height] == s[i],
{
    let h = s[i].l2_height;
    assert(holds(s, h));
    let c = choose|c: int| 0 <= c < s.len() && (#[trigger] s[c]).l2_height == h;
    if c < i {
        assert(s[c].l2_height < s[i].l2_height);
    } else if i < c {
        assert(s[i].l2_height < s[c].l2_height);
    }
}

/// A map that agrees with an ascending sequence entry by entry is its map.
pub proof fn lemma_by_height_is(s: Seq<Anchor>, m: Map<u64, Anchor>)
    requires
        ascending(s),
        forall|i: int|
            0 <= i < s.len() ==> m.contains_key((#[trigger] s[i]).l2_height) && m[s[i].l2_height]
                == s[i],
        forall|k: u64| m.contains_key(k) ==> holds(s, k),
    ensures
        by_height(s) == m,
{
    assert forall|k: u64| by_height(s).contains_key(k) implies m.contains_key(k) by {
        let i = choose|i: int| 0 <= i < s.len() && (#[trigger] s[i]).l2_height == k;
        assert(m.contains_key(s[i].l2_height));
    }
    assert forall|k: u64| m.contains_key(k) implies by_height(s).contains_key(k)
        && by_height(s)[k] == m[k] by {
        assert(holds(s, k));
        let i = choose|i: int| 0 <= i < s.len() && (#[trigger] s[i]).l2_height == k;
        lemma_by_height_at(s, i);
        assert(m[s[i].l2_height] == s[i]);
    }
    assert(by_height(s) =~= m);
}

/// The anchors of a store: at most one for each rollup height.
#[derive(Debug)]
pub struct AnchorIndex {
    entries: Vec<Anchor>,
}

impl View for AnchorIndex {
    type V = Map<u64, Anchor>;

    closed spec fn view(&self) -> Map<u64, Anchor> {
        by_height(self.entries@)
    }
}

impl AnchorIndex {
    /// The invariant: the entries stand in ascending order of height.
    pub closed spec fn wf(&self) -> bool {
        ascending(self.entries@)
    }

    /// The entries in ascending order of height.
    pub closed spec fn entries(&self) -> Seq<Anchor> {
        self.entries@
    }

    /// What the invariant and the view mean in terms of the entries.
    pub proof fn lemma_entries(&self)
        ensures
            self.wf() == ascending(self.entries()),
            self@ == by_height(self.entries()),
            self.wf() ==> keyed_by_height(self@),
            self.wf() ==> self@.dom().finite(),
            self.wf() ==> self@.dom().len() == self.entries().len(),
    {
        if self.wf() {
            lemma_domain_size(self.entries@);
        }
    }

    /// An index without anchors.
    pub fn new() -> (r: AnchorIndex)
        ensures
            r.wf(),
            r@ == Map::<u64, Anchor>::empty(),
    {
        let r = AnchorIndex { entries: Vec::new() };
        assert(r@ =~= Map::<u64, Anchor>::empty());
        r
    }

    /// The number of anchors.
    pub fn len(&self) -> (n: usize)
        requires
            self.wf(),
        ensures
            n == self.entries().len(),
            n == self@.dom().len(),
    {
        proof {
            self.lemma_entries();
        }
        self.entries.len()
    }

    /// The least position whose anchor stands at height `h` or above.
    fn lower_bound(&self, h: u64) -> (p: usize)
        requires
            self.wf(),
        ensures
            p <= self.entries@.len(),
            forall|i: int| 0 <= i < p ==> self.entries@[i].l2_height < h,
            forall|i: int| p <= i < self.entries@.len() ==> self.entries@[i].l2_height >= h,
    {
        let mut lo: usize = 0;
        let mut hi: usize = self.entries.len();
        while lo < hi
            invariant
                lo <= hi <= self.entries@.len(),
                ascending(self.entries@),
                forall|i: int| 0 <= i < lo ==> self.entries@[i].l2_height < h,
                forall|i: int| hi <= i < self.entries@.len() ==> self.entries@[i].l2_height >= h,
            decreases hi - lo,
        {
            let mid: usize = lo + (hi - lo) / 2;
            if self.entries[mid].l2_height < h {
                lo = mid + 1;
            } else {
                hi = mid;
            }
        }
        lo
    }

    /// The anchor for the height `h`, if there is one.
    pub fn get(&self, h: u64) -> (r: Option<Anchor>)
        requires
            self.wf(),
        ensures
            r == lookup(self@, h),
    {
        let p = self.lower_bound(h);
        if p < self.entries.len() && self.entries[p].l2_height == h {
            proof {
                lemma_by_height_at(self.entries@, p as int);
            }
            Some(self.entries[p])
        } else {
            assert(!holds(self.entries@, h));
            None
        }
    }

    /// The anchor of least height at or above `h`, if there is one.
    pub fn first_at_or_above(&self, h: u64) -> (r: Option<Anchor>)
        requires
            self.wf(),
        ensures
            match r {
                Some(a) => a.l2_height >= h && lookup(self@, a.l2_height) == Some(a) && forall|
                    k: u64,
                | h <= k < a.l2_height ==> !self@.contains_key(k),
                None => forall|k: u64| h <= k ==> !self@.contains_key(k),
            },
    {
        let p = self.lower_bound(h);
        if p < self.entries.len() {
            let a = self.entries[p];
            proof {
                lemma_by_height_at(self.entries@, p as int);
                assert forall|k: u64| h <= k < a.l2_height implies !self@.contains_key(k) by {
                    if holds(self.entries@, k) {
                        let i = choose|i: int|
                            0 <= i < self.entries@.len() && (#[trigger] self.entries@[i]).l2_height
                                == k;
                        if i < p {
                        } else if i > p {
                            assert(self.entries@[p as int].l2_height < self.entries@[i].l2_height);
                        }
                    }
                }
            }
            Some(a)
        } else {
            assert forall|k: u64| h <= k implies !self@.contains_key(k) by {
                if holds(self.entries@, k) {
                    let i = choose|i: int|
                        0 <= i < self.entries@.len() && (#[trigger] self.entries@[i]).l2_height
                            == k;
                }
            }
            None
        }
    }

    /// The anchor of greatest height at or below `h`, if there is one.
    pub fn last_at_or_below(&self, h: u64) -> (r: Option<Anchor>)
        requires
            self.wf(),
        ensures
            r == nearest_below(self@, h),
    {
        let p = if h < u64::MAX {
            self.lower_bound(h + 1)
        } else {
            self.entries.len()
        };
        if p == 0 {
            proof {
                assert forall|k: u64| k <= h implies !self@.contains_key(k) by {
                    if holds(self.entries@, k) {
                        let i = choose|i: int|
                            0 <= i < self.entries@.len() && (#[trigger] self.entries@[i]).l2_height
                                == k;
                    }
                }
                lemma_nearest_none(self@, h);
            }
            None
        } else {
            let a = self.entries[p - 1];
            proof {
                lemma_by_height_at(self.entries@, p - 1);
                assert forall|k: u64| self@.contains_key(k) && k <= h implies k
                    <= a.l2_height by {
                    let i = choose|i: int|
                        0 <= i < self.entries@.len() && (#[trigger] self.entries@[i]).l2_height
                            == k;
                    if i < p - 1 {
                        assert(self.entries@[i].l2_height < self.entries@[p - 1].l2_height);
                    }
                }
                lemma_nearest_is(self@, h, a.l2_height);
            }
            Some(a)
        }
    }

    /// The anchor of greatest height, if there is one.
    pub fn highest(&self) -> (r: Option<Anchor>)
        requires
            self.wf(),
        ensures
            match r {
                Some(a) => lookup(self@, a.l2_height) == Some(a) && forall|k: u64|
                    self@.contains_key(k) ==> k <= a.l2_height,
                None => self@ == Map::<u64, Anchor>::empty(),
            },
    {
        let n = self.entries.len();
        if n == 0 {
            assert(self@ =~= Map::<u64, Anchor>::empty());
            None
        } else {
            let a = self.entries[n - 1];
            proof {
                lemma_by_height_at(self.entries@, n - 1);
                assert forall|k: u64| self@.contains_key(k) implies k <= a.l2_height by {
                    let i = choose|i: int|
                        0 <= i < self.entries@.len() && (#[trigger] self.entries@[i]).l2_height
                            == k;
                    if i < n - 1 {
                        assert(self.entries@[i].l2_height < self.entries@[n - 1].l2_height);
                    }
                }
            }
            Some(a)
        }
    }

    /// Puts `a` in the place for its height, over whatever stood there.
    pub fn upsert(&mut self, a: Anchor)
        requires
            old(self).wf(),
        ensures
            final(self).wf(),
            final(self)@ == old(self)@.insert(a.l2_height, a),
    {
        let p = self.lower_bound(a.l2_height);
        let ghost before = self.entries@;
        if p < self.entries.len() && self.entries[p].l2_height == a.l2_height {
            self.entries.set(p, a);
            proof {
                let after = self.entries@;
                assert(ascending(after)) by {
                    assert forall|i: int, j: int| 0 <= i < j < after.len() implies after[i].l2_height
                        < after[j].l2_height by {
                        assert(before[i].l2_height < before[j].l2_height);
                    }
                }
                let m = by_height(before).insert(a.l2_height, a);
                assert forall|i: int| 0 <= i < after.len() implies m.contains_key(
                    (#[trigger] after[i]).l2_height,
                ) && m[after[i].l2_height] == after[i] by {
                    lemma_by_height_at(before, i);
                }
                assert forall|k: u64| m.contains_key(k) implies holds(after, k) by {
                    if k == a.l2_height {
                        assert(after[p as int].l2_height == k);
                    } else {
                        let i = choose|i: int|
                            0 <= i < before.len() && (#[trigger] before[i]).l2_height == k;
                        assert(after[i].l2_height == k);
                    }
                }
                lemma_by_height_is(after, m);
            }
        } else {
            self.entries.insert(p, a);
            proof {
                let after = self.entries@;
                assert(ascending(after)) by {
                    assert forall|i: int, j: int| 0 <= i < j < after.len() implies after[i].l2_height
                        < after[j].l2_height by {
                        if j < p {
                            assert(before[i].l2_height < before[j].l2_height);
                        } else if j == p {
                        } else if i < p {
                            assert(before[i].l2_height < before[j - 1].l2_height);
                        } else if i == p {
                            assert(before[j - 1].l2_height >= a.l2_height);
                        } else {
                            assert(before[i - 1].l2_height < before[j - 1].l2_height);
                        }
                    }
                }
                let m = by_height(before).insert(a.l2_height, a);
                assert forall|i: int| 0 <= i < after.len() implies m.contains_key(
                    (#[trigger] after[i]).l2_height,
                ) && m[after[i].l2_height] == after[i] by {
                    if i < p {
                        lemma_by_height_at(before, i);
                    } else if i > p {
                        lemma_by_height_at(before, i - 1);
                    }
                }
                assert forall|k: u64| m.contains_key(k) implies holds(after, k) by {
                    if k == a.l2_height {
                        assert(after[p as int].l2_height == k);
                    } else {
                        let i = choose|i: int|
                            0 <= i < before.len() && (#[trigger] before[i]).l2_height == k;
                        if i < p {
                            assert(after[i].l2_height == k);
                        } else {
                            assert(after[i + 1].l2_height == k);
                        }
                    }
                }
                lemma_by_height_is(after, m);
            }
        }
    }

    /// Removes every anchor above the height `h`.
    pub fn truncate_above(&mut self, h: u64)
        requires
            old(self).wf(),
        ensures
            final(self).wf(),
            final(self)@ == up_to(old(self)@, h),
    {
        let ghost before = self.entries@;
        if h < u64::MAX {
            let p = self.lower_bound(h + 1);
            self.entries.truncate(p);
            proof {
                let after = self.entries@;
                let m = up_to(by_height(before), h);
                assert forall|i: int| 0 <= i < after.len() implies m.contains_key(
                    (#[trigger] after[i]).l2_height,
                ) && m[after[i].l2_height] == after[i] by {
                    lemma_by_height_at(before, i);
                }
                assert forall|k: u64| m.contains_key(k) implies holds(after, k) by {
                    let i = choose|i: int|
                        0 <= i < before.len() && (#[trigger] before[i]).l2_height == k;
                    assert(i < p);
                    assert(after[i].l2_height == k);
                }
                lemma_by_height_is(after, m);
            }
        } else {
            assert(self@ =~= up_to(self@, h));
        }
    }

    /// Puts every anchor of `other` in the place for its height.
    pub fn absorb(&mut self, other: &AnchorIndex)
        requires
            old(self).wf(),
            other.wf(),
        ensures
            final(self).wf(),
            final(self)@ == old(self)@.union_prefer_right(other@),
    {
        let ghost start = self@;
        let mut i: usize = 0;
        assert(self@ =~= start.union_prefer_right(by_height(other.entries@.take(0))));
        while i < other.entries.len()
            invariant
                i <= other.entries@.len(),
                self.wf(),
                ascending(other.entries@),
                self@ == start.union_prefer_right(by_height(other.entries@.take(i as int))),
            decreases other.entries.len() - i,
        {
            let a = other.entries[i];
            self.upsert(a);
            proof {
                lemma_by_height_step(other.entries@, i as int);
                assert(self@ =~= start.union_prefer_right(
                    by_height(other.entries@.take(i + 1)),
                ));
            }
            i += 1;
        }
        assert(other.entries@.take(i as int) =~= other.entries@);
    }

    /// The greatest settlement-layer block number among the anchors.
    pub fn latest_l1_block(&self) -> (r: Option<u64>)
        requires
            self.wf(),
        ensures
            latest_l1(self@, r),
    {
        let n = self.entries.len();
        if n == 0 {
            assert(self@ =~= Map::<u64, Anchor>::empty());
            return None;
        }
        let mut best: u64 = self.entries[0].l1_block_number;
        let mut i: usize = 1;
        let ghost mut at: int = 0;
        while i < n
            invariant
                1 <= i <= n,
                n == self.entries@.len(),
                0 <= at < i,
                best == self.entries@[at].l1_block_number,
                forall|j: int| 0 <= j < i ==> self.entries@[j].l1_block_number <= best,
            decreases n - i,
        {
            if self.entries[i].l1_block_number > best {
                best = self.entries[i].l1_block_number;
                proof {
                    at = i as int;
                }
            }
            i += 1;
        }
        proof {
            lemma_by_height_at(self.entries@, at);
            assert forall|k: u64| self@.contains_key(k) implies (#[trigger] self@[k]).l1_block_number
                <= best by {
                let j = choose|j: int|
                    0 <= j < self.entries@.len() && (#[trigger] self.entries@[j]).l2_height == k;
                lemma_by_height_at(self.entries@, j);
            }
        }
        Some(best)
    }

    /// The anchors in ascending order of height.
    pub fn to_vec(&self) -> (v: Vec<Anchor>)
        requires
            self.wf(),
        ensures
            v@ == self.entries(),
            ascending(v@),
            by_height(v@) == self@,
    {
        let mut v: Vec<Anchor> = Vec::new();
        let mut i: usize = 0;
        while i < self.entries.len()
            invariant
                i <= self.entries@.len(),
                v@ == self.entries@.take(i as int),
            decreases self.entries.len() - i,
        {
            v.push(self.entries[i]);
            i += 1;
        }
        assert(self.entries@.take(i as int) =~= self.entries@);
        v
    }

    /// An independent copy with the same anchors.
    pub fn duplicate(&self) -> (r: AnchorIndex)
        requires
            self.wf(),
        ensures
            r.wf(),
            r@ == self@,
            r.entries() == self.entries(),
    {
        AnchorIndex { entries: self.to_vec() }
    }

    /// The index of the given anchors, where they stand in strictly
    /// ascending order of height; `None` where they do not.
    pub fn from_ascending(anchors: Vec<Anchor>) -> (r: Option<AnchorIndex>)
        ensures
            r is Some <==> ascending(anchors@),
            r matches Some(ix) ==> ix.wf() && ix@ == by_height(anchors@) && ix.entries()
                == anchors@,
    {
        let n = anchors.len();
        let mut i: usize = 1;
        while i < n
            invariant
                1 <= i,
                n == anchors@.len(),
                forall|j: int|
                    0 < j < i && j < n ==> anchors@[j - 1].l2_height < (#[trigger] anchors@[j]).l2_height,
            decreases n - i,
        {
            if anchors[i - 1].l2_height >= anchors[i].l2_height {
                assert(!ascending(anchors@)) by {
                    if ascending(anchors@) {
                        assert(anchors@[i - 1].l2_height < anchors@[i as int].l2_height);
                    }
                }
                return None;
            }
            i += 1;
        }
        proof {
            lemma_adjacent_ascending(anchors@);
        }
        Some(AnchorIndex { entries: anchors })
    }
}

/// Whether `r` is the greatest settlement-layer block number among the
/// anchors of `m`, or `None` where `m` is empty.
pub open spec fn latest_l1(m: Map<u64, Anchor>, r: Option<u64>) -> bool {
    match r {
        Some(n) => (exists|k: u64| m.contains_key(k) && (#[trigger] m[k]).l1_block_number == n)
            && forall|k: u64| m.contains_key(k) ==> (#[trigger] m[k]).l1_block_number <= n,
        None => m == Map::<u64, Anchor>::empty(),
    }
}

/// Taking one more entry of an ascending sequence adds that entry to the map.
proof fn lemma_by_height_step(s: Seq<Anchor>, i: int)
    requires
        ascending(s),
        0 <= i < s.len(),
    ensures
        by_height(s.take(i + 1)) == by_height(s.take(i)).insert(s[i].l2_height, s[i]),
{
    let t = s.take(i);
    let u = s.take(i + 1);
    let m = by_height(t).insert(s[i].l2_height, s[i]);
    assert forall|j: int| 0 <= j < u.len() implies m.contains_key((#[trigger] u[j]).l2_height)
        && m[u[j].l2_height] == u[j] by {
        if j < i {
            lemma_by_height_at(t, j);
            assert(s[j].l2_height < s[i].l2_height);
        }
    }
    assert forall|k: u64| m.contains_key(k) implies holds(u, k) by {
        if k == s[i].l2_height {
            assert(u[i].l2_height == k);
        } else {
            let j = choose|j: int| 0 <= j < t.len() && (#[trigger] t[j]).l2_height == k;
            assert(u[j].l2_height == k);
        }
    }
    lemma_by_height_is(u, m);
}

/// A sequence whose neighbours ascend is ascending throughout.
proof fn lemma_adjacent_ascending(s: Seq<Anchor>)
    requires
        forall|j: int| 0 < j < s.len() ==> s[j - 1].l2_height < (#[trigger] s[j]).l2_height,
    ensures
        ascending(s),
{
    assert forall|i: int, j: int| 0 <= i < j < s.len() implies s[i].l2_height
        < s[j].l2_height by {
        lemma_ascending_pair(s, i, j);
    }
}

proof fn lemma_ascending_pair(s: Seq<Anchor>, i: int, j: int)
    requires
        forall|j: int| 0 < j < s.len() ==> s[j - 1].l2_height < (#[trigger] s[j]).l2_height,
        0 <= i < j < s.len(),
    ensures
        s[i].l2_height < s[j].l2_height,
    decreases j - i,
{
    if i + 1 < j {
        lemma_ascending_pair(s, i, j - 1);
    }
    assert(s[j - 1].l2_height < s[j].l2_height);
}

/// An ascending sequence has as many heights as entries.
proof fn lemma_domain_size(s: Seq<Anchor>)
    requires
        ascending(s),
    ensures
        keyed_by_height(by_height(s)),
        by_height(s).dom().finite(),
        by_height(s).dom().len() == s.len(),
    decreases s.len(),
{
    assert forall|k: u64| by_height(s).contains_key(k) implies (#[trigger] by_height(
        s,
    )[k]).l2_height == k by {
        let i = choose|i: int| 0 <= i < s.len() && (#[trigger] s[i]).l2_height == k;
        lemma_by_height_at(s, i);
    }
    if s.len() == 0 {
        assert(by_height(s).dom() =~= Set::<u64>::empty());
    } else {
        let t = s.drop_last();
        let last = s.last();
        assert(ascending(t));
        lemma_domain_size(t);
        assert(!by_height(t).contains_key(last.l2_height)) by {
            if holds(t, last.l2_height) {
                let i = choose|i: int| 0 <= i < t.len() && (#[trigger] t[i]).l2_height
                    == last.l2_height;
                assert(s[i].l2_height < s[s.len() - 1].l2_height);
            }
        }
        assert(by_height(s).dom() =~= by_height(t).dom().insert(last.l2_height)) by {
            assert forall|k: u64| by_height(s).dom().contains(k) implies by_height(
                t,
            ).dom().insert(last.l2_height).contains(k) by {
                let i = choose|i: int| 0 <= i < s.len() && (#[trigger] s[i]).l2_height == k;
                if i < t.len() {
                    assert(t[i].l2_height == k);
                }
            }
            assert forall|k: u64|
                by_height(t).dom().insert(last.l2_height).contains(k) implies by_height(
                s,
            ).dom().contains(k) by {
                if k == last.l2_height {
                    assert(s[s.len() - 1].l2_height == k);
                } else {
                    let i = choose|i: int| 0 <= i < t.len() && (#[trigger] t[i]).l2_height == k;
                    assert(s[i].l2_height == k);
                }
            }
        }
    }
}

} // verus!

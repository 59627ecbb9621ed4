//! Size buckets: a cheap pre-filter that groups file entries by exact
//! size.  Files of different sizes cannot be byte-identical, so only
//! buckets with at least two members are worth comparing further; pruning
//! drops the rest and accumulates the duplicate statistics.
use vstd::prelude::*;

verus! {

/// All file entries (by index) observed with one exact size.
pub struct SizeBucket {
    pub size: u64,
    pub members: Vec<usize>,
}

/// The mapping from exact file size to the entries of that size.
pub struct SizeBucketIndex {
    pub buckets: Vec<SizeBucket>,
}

/// A bucket as a mathematical pair: the size and the member entries.
pub open spec fn bucket_view(b: SizeBucket) -> (u64, Seq<usize>) {
    (b.size, b.members@)
}

pub open spec fn views(bs: Seq<SizeBucket>) -> Seq<(u64, Seq<usize>)> {
    bs.map_values(|b: SizeBucket| bucket_view(b))
}

impl SizeBucketIndex {
    /// The buckets as size/member pairs.
    pub open spec fn view_of(&self) -> Seq<(u64, Seq<usize>)> {
        views(self.buckets@)
    }
}

/// The position of the bucket for `size`, or -1 if there is none.
pub open spec fn find_bucket(bs: Seq<(u64, Seq<usize>)>, size: u64) -> int
    decreases bs.len(),
{
    if bs.len() == 0 {
        -1
    } else if bs[0].0 == size {
        0
    } else {
        let rest = find_bucket(bs.drop_first(), size);
        if rest == -1 {
            -1
        } else {
            rest + 1
        }
    }
}

/// The buckets kept by pruning: those with at least two members.
pub open spec fn retained(bs: Seq<(u64, Seq<usize>)>) -> Seq<(u64, Seq<usize>)>
    decreases bs.len(),
{
    if bs.len() == 0 {
        Seq::empty()
    } else {
        let rest = retained(bs.drop_last());
        if bs.last().1.len() >= 2 {
            rest.push(bs.last())
        } else {
            rest
        }
    }
}

/// The number of duplicate candidates: one less than each retained
/// bucket's population.
pub open spec fn dup_count(bs: Seq<(u64, Seq<usize>)>) -> int
    decreases bs.len(),
{
    if bs.len() == 0 {
        0
    } else {
        dup_count(bs.drop_last()) + if bs.last().1.len() >= 2 {
            bs.last().1.len() - 1
        } else {
            0
        }
    }
}

/// The number of retained buckets.
pub open spec fn group_count(bs: Seq<(u64, Seq<usize>)>) -> int
    decreases bs.len(),
{
    if bs.len() == 0 {
        0
    } else {
        group_count(bs.drop_last()) + if bs.last().1.len() >= 2 {
            1int
        } else {
            0int
        }
    }
}

/// The space that could be reclaimed: for every retained bucket, its size
/// times one less than its population.
pub open spec fn lost_space(bs: Seq<(u64, Seq<usize>)>) -> int
    decreases bs.len(),
{
    if bs.len() == 0 {
        0
    } else {
        lost_space(bs.drop_last()) + if bs.last().1.len() >= 2 {
            bs.last().0 * (bs.last().1.len() - 1)
        } else {
            0
        }
    }
}

/// One insertion step on the bucket views: into the bucket for `size` if
/// present, else a fresh bucket at the end.
pub open spec fn bucket_insert(bs: Seq<(u64, Seq<usize>)>, size: u64, member: usize) -> Seq<
    (u64, Seq<usize>),
> {
    let pos = find_bucket(bs, size);
    if pos >= 0 {
        bs.update(pos, (size, bs[pos].1.push(member)))
    } else {
        bs.push((size, seq![member]))
    }
}

/// `v` capped at the largest `u64`.
pub open spec fn capped(v: int) -> int {
    if v <= u64::MAX {
        v
    } else {
        u64::MAX as int
    }
}

/// Adds with saturation at the largest `u64`.
pub fn sat_add(a: u64, b: u64) -> (r: u64)
    ensures
        r == capped(a + b),
{
    match a.checked_add(b) {
        Some(v) => v,
        None => u64::MAX,
    }
}

/// Multiplies with saturation at the largest `u64`.
pub fn sat_mul(a: u64, b: u64) -> (r: u64)
    ensures
        r == capped(a * b),
{
    match a.checked_mul(b) {
        Some(v) => v,
        None => u64::MAX,
    }
}

impl SizeBucketIndex {
    pub fn new() -> (r: Self)
        ensures
            r.view_of() == Seq::<(u64, Seq<usize>)>::empty(),
    {
        let r = SizeBucketIndex { buckets: Vec::new() };
        proof {
            assert(r.view_of() =~= Seq::<(u64, Seq<usize>)>::empty());
        }
        r
    }

    /// Files the entry with index `member` under its exact size: into the
    /// existing bucket for that size if there is one, else into a fresh
    /// bucket at the end.
    pub fn insert(&mut self, size: u64, member: usize)
        ensures
            final(self).view_of() == bucket_insert(old(self).view_of(), size, member),
    {
        let n = self.buckets.len();
        let mut i: usize = 0;
        while i < n
            invariant
                *self == *old(self),
                n == self.buckets@.len(),
                i <= n,
                forall|w: int| 0 <= w < i ==> self.buckets@[w].size != size,
            decreases n - i,
        {
            if self.buckets[i].size == size {
                proof {
                    lemma_find_bucket_first(views(self.buckets@), size, i as int);
                }
                self.buckets[i].members.push(member);
                proof {
                    assert(self.view_of() =~= old(self).view_of().update(
                        i as int,
                        (size, old(self).view_of()[i as int].1.push(member)),
                    ));
                }
                return ;
            }
            i = i + 1;
        }
        proof {
            lemma_find_bucket_none(views(self.buckets@), size);
        }
        let mut members: Vec<usize> = Vec::new();
        members.push(member);
        self.buckets.push(SizeBucket { size, members });
        proof {
            assert(members@ =~= seq![member]);
            assert(self.view_of() =~= old(self).view_of().push((size, seq![member])));
        }
    }

    /// Drops every bucket with fewer than two members and reports the
    /// duplicate statistics of what remains, each total saturating at the
    /// largest `u64`.
    pub fn prune(&mut self) -> (stats: (u64, u64, u64))
        ensures
            final(self).view_of() == retained(old(self).view_of()),
            stats.0 == capped(dup_count(old(self).view_of())),
            stats.1 == capped(group_count(old(self).view_of())),
            stats.2 == capped(lost_space(old(self).view_of())),
            forall|w: int|
                0 <= w < final(self).view_of().len()
                    ==> (#[trigger] final(self).view_of()[w]).1.len() >= 2,
    {
        let ghost orig = views(self.buckets@);
        let n = self.buckets.len();
        let mut kept: Vec<SizeBucket> = Vec::new();
        let mut dups: u64 = 0;
        let mut groups: u64 = 0;
        let mut lost: u64 = 0;
        let mut i: usize = 0;
        while i < n
            invariant
                *self == *old(self),
                orig == views(self.buckets@),
                orig == old(self).view_of(),
                n == self.buckets@.len(),
                i <= n,
                views(kept@) == retained(orig.subrange(0, i as int)),
                dups == capped(dup_count(orig.subrange(0, i as int))),
                groups == capped(group_count(orig.subrange(0, i as int))),
                lost == capped(lost_space(orig.subrange(0, i as int))),
                forall|w: int| 0 <= w < kept@.len() ==> (#[trigger] kept@[w]).members@.len() >= 2,
            decreases n - i,
        {
            let count = self.buckets[i].members.len();
            proof {
                let pre = orig.subrange(0, i as int);
                let cur = orig.subrange(0, i + 1 as int);
                assert(cur.drop_last() =~= pre);
                assert(cur.last() == orig[i as int]);
            }
            if count >= 2 {
                let size = self.buckets[i].size;
                let members = clone_members(&self.buckets[i].members);
                kept.push(SizeBucket { size, members });
                proof {
                    assert(views(kept@) =~= retained(orig.subrange(0, i + 1 as int)));
                }
                let over = sat_mul(size, (count - 1) as u64);
                lost = sat_add(lost, over);
                dups = sat_add(dups, (count - 1) as u64);
                groups = sat_add(groups, 1);
            } else {
                proof {
                    assert(views(kept@) =~= retained(orig.subrange(0, i + 1 as int)));
                }
            }
            i = i + 1;
        }
        proof {
            assert(orig.subrange(0, n as int) =~= orig);
        }
        self.buckets = kept;
        (dups, groups, lost)
    }
}

/// Copies a member list.
fn clone_members(v: &Vec<usize>) -> (r: Vec<usize>)
    ensures
        r@ == v@,
{
    let mut r: Vec<usize> = Vec::new();
    let mut i: usize = 0;
    while i < v.len()
        invariant
            i <= v@.len(),
            r@ == v@.subrange(0, i as int),
        decreases v@.len() - i,
    {
        r.push(v[i]);
        proof {
            assert(v@.subrange(0, i + 1 as int) =~= v@.subrange(0, i as int).push(v@[i as int]));
        }
        i = i + 1;
    }
    proof {
        assert(v@.subrange(0, v@.len() as int) =~= v@);
    }
    r
}

/// If no bucket before `i` has the size and bucket `i` does, the search
/// finds `i`.
proof fn lemma_find_bucket_first(bs: Seq<(u64, Seq<usize>)>, size: u64, i: int)
    requires
        0 <= i < bs.len(),
        bs[i].0 == size,
        forall|w: int| 0 <= w < i ==> bs[w].0 != size,
    ensures
        find_bucket(bs, size) == i,
    decreases i,
{
    if i > 0 {
        lemma_find_bucket_first(bs.drop_first(), size, i - 1);
    }
}

/// If no bucket has the size, the search finds none.
proof fn lemma_find_bucket_none(bs: Seq<(u64, Seq<usize>)>, size: u64)
    requires
        forall|w: int| 0 <= w < bs.len() ==> bs[w].0 != size,
    ensures
        find_bucket(bs, size) == -1,
    decreases bs.len(),
{
    if bs.len() > 0 {
        lemma_find_bucket_none(bs.drop_first(), size);
    }
}


/// Size-bucket correctness: every bucket kept by pruning has at least
/// two members, and each of the duplicate statistics computed over the
/// whole bucket list equals the same statistic computed over the
/// retained buckets alone — the dropped singletons contribute nothing.
pub proof fn lemma_prune_statistics(bs: Seq<(u64, Seq<usize>)>)
    ensures
        forall|w: int| 0 <= w < retained(bs).len() ==> (#[trigger] retained(bs)[w]).1.len() >= 2,
        lost_space(retained(bs)) == lost_space(bs),
        dup_count(retained(bs)) == dup_count(bs),
        group_count(retained(bs)) == group_count(bs),
    decreases bs.len(),
{
    if bs.len() > 0 {
        lemma_prune_statistics(bs.drop_last());
        let rest = retained(bs.drop_last());
        if bs.last().1.len() >= 2 {
            assert(retained(bs) == rest.push(bs.last()));
            assert(retained(bs).drop_last() =~= rest);
            assert(retained(bs).last() == bs.last());
            assert forall|w: int| 0 <= w < retained(bs).len() implies (#[trigger] retained(
                bs,
            )[w]).1.len() >= 2 by {
                if w < rest.len() {
                    assert(retained(bs)[w] == rest[w]);
                }
            };
        } else {
            assert(retained(bs) == rest);
        }
    }
}

} // verus!

//! The feature-usage aggregation table: one pass over the decoded-instruction
//! records accumulates, per feature key, the occurrence count of every
//! distinct opcode identity, together with the scalar record total.

use vstd::prelude::*;
use crate::text::u32_vec_eq;
use crate::text::copy_u32s;

verus! {

/// One decoded-instruction record: the opcode identity and the feature
/// identifiers this occurrence requires, in decoder order.
pub struct Record {
    pub code: u32,
    pub features: Vec<u32>,
}

pub ghost struct RecordV {
    pub code: u32,
    pub features: Seq<u32>,
}

impl View for Record {
    type V = RecordV;

    open spec fn view(&self) -> RecordV {
        RecordV { code: self.code, features: self.features@ }
    }
}

impl DeepView for Record {
    type V = RecordV;

    open spec fn deep_view(&self) -> RecordV {
        self@
    }
}

/// The occurrence count of one opcode identity under one feature key.
#[derive(Clone, Copy, PartialEq, Eq, Structural)]
pub struct Stat {
    pub code: u32,
    pub count: u64,
}

/// One feature-key bucket: the key and the per-opcode stats seen under it.
pub struct Bucket {
    pub features: Vec<u32>,
    pub stats: Vec<Stat>,
}

pub ghost struct BucketV {
    pub features: Seq<u32>,
    pub stats: Seq<Stat>,
}

impl View for Bucket {
    type V = BucketV;

    open spec fn view(&self) -> BucketV {
        BucketV { features: self.features@, stats: self.stats@ }
    }
}

pub open spec fn buckets_view(bs: Seq<Bucket>) -> Seq<BucketV> {
    bs.map_values(|b: Bucket| b@)
}

/// Index of the first bucket holding this key, or -1 when absent.
pub open spec fn find_bucket(bs: Seq<BucketV>, key: Seq<u32>) -> int
    decreases bs.len(),
{
    if bs.len() == 0 {
        -1
    } else if bs[0].features == key {
        0
    } else {
        let r = find_bucket(bs.drop_first(), key);
        if r < 0 {
            -1
        } else {
            r + 1
        }
    }
}

/// Index of the first stat for this opcode identity, or -1 when absent.
pub open spec fn find_stat(ss: Seq<Stat>, code: u32) -> int
    decreases ss.len(),
{
    if ss.len() == 0 {
        -1
    } else if ss[0].code == code {
        0
    } else {
        let r = find_stat(ss.drop_first(), code);
        if r < 0 {
            -1
        } else {
            r + 1
        }
    }
}

pub proof fn lemma_find_bucket_props(bs: Seq<BucketV>, key: Seq<u32>)
    ensures
        find_bucket(bs, key) == -1 ==> (forall|k: int|
            0 <= k < bs.len() ==> bs[k].features != key),
        find_bucket(bs, key) != -1 ==> 0 <= find_bucket(bs, key) < bs.len() && bs[find_bucket(
            bs,
            key,
        )].features == key && (forall|k: int|
            0 <= k < find_bucket(bs, key) ==> bs[k].features != key),
    decreases bs.len(),
{
    if bs.len() > 0 && bs[0].features != key {
        lemma_find_bucket_props(bs.drop_first(), key);
        let r = find_bucket(bs.drop_first(), key);
        if r < 0 {
            assert forall|k: int| 0 <= k < bs.len() implies bs[k].features != key by {
                if k > 0 {
                    assert(bs.drop_first()[k - 1] == bs[k]);
                }
            }
        } else {
            assert(bs.drop_first()[r] == bs[r + 1]);
            assert forall|k: int| 0 <= k < r + 1 implies bs[k].features != key by {
                if k > 0 {
                    assert(bs.drop_first()[k - 1] == bs[k]);
                }
            }
        }
    }
}

pub proof fn lemma_find_bucket_first(bs: Seq<BucketV>, key: Seq<u32>, i: int)
    requires
        0 <= i < bs.len(),
        bs[i].features == key,
        forall|k: int| 0 <= k < i ==> bs[k].features != key,
    ensures
        find_bucket(bs, key) == i,
    decreases bs.len(),
{
    if i > 0 {
        lemma_find_bucket_first(bs.drop_first(), key, i - 1);
    }
}

pub proof fn lemma_find_bucket_none(bs: Seq<BucketV>, key: Seq<u32>)
    requires
        forall|k: int| 0 <= k < bs.len() ==> bs[k].features != key,
    ensures
        find_bucket(bs, key) == -1,
    decreases bs.len(),
{
    if bs.len() > 0 {
        lemma_find_bucket_none(bs.drop_first(), key);
    }
}

/// `find_bucket` depends only on the keys.
pub proof fn lemma_find_bucket_same(bs: Seq<BucketV>, cs: Seq<BucketV>, key: Seq<u32>)
    requires
        bs.len() == cs.len(),
        forall|k: int| 0 <= k < bs.len() ==> bs[k].features == cs[k].features,
    ensures
        find_bucket(bs, key) == find_bucket(cs, key),
    decreases bs.len(),
{
    if bs.len() > 0 {
        lemma_find_bucket_same(bs.drop_first(), cs.drop_first(), key);
    }
}

pub proof fn lemma_find_stat_props(ss: Seq<Stat>, code: u32)
    ensures
        find_stat(ss, code) == -1 ==> (forall|k: int| 0 <= k < ss.len() ==> ss[k].code != code),
        find_stat(ss, code) != -1 ==> 0 <= find_stat(ss, code) < ss.len() && ss[find_stat(
            ss,
            code,
        )].code == code && (forall|k: int| 0 <= k < find_stat(ss, code) ==> ss[k].code != code),
    decreases ss.len(),
{
    if ss.len() > 0 && ss[0].code != code {
        lemma_find_stat_props(ss.drop_first(), code);
        let r = find_stat(ss.drop_first(), code);
        if r < 0 {
            assert forall|k: int| 0 <= k < ss.len() implies ss[k].code != code by {
                if k > 0 {
                    assert(ss.drop_first()[k - 1] == ss[k]);
                }
            }
        } else {
            assert(ss.drop_first()[r] == ss[r + 1]);
            assert forall|k: int| 0 <= k < r + 1 implies ss[k].code != code by {
                if k > 0 {
                    assert(ss.drop_first()[k - 1] == ss[k]);
                }
            }
        }
    }
}

pub proof fn lemma_find_stat_first(ss: Seq<Stat>, code: u32, i: int)
    requires
        0 <= i < ss.len(),
        ss[i].code == code,
        forall|k: int| 0 <= k < i ==> ss[k].code != code,
    ensures
        find_stat(ss, code) == i,
    decreases ss.len(),
{
    if i > 0 {
        lemma_find_stat_first(ss.drop_first(), code, i - 1);
    }
}

pub proof fn lemma_find_stat_none(ss: Seq<Stat>, code: u32)
    requires
        forall|k: int| 0 <= k < ss.len() ==> ss[k].code != code,
    ensures
        find_stat(ss, code) == -1,
    decreases ss.len(),
{
    if ss.len() > 0 {
        lemma_find_stat_none(ss.drop_first(), code);
    }
}

/// `find_stat` depends only on the codes.
pub proof fn lemma_find_stat_same(ss: Seq<Stat>, ts: Seq<Stat>, code: u32)
    requires
        ss.len() == ts.len(),
        forall|k: int| 0 <= k < ss.len() ==> ss[k].code == ts[k].code,
    ensures
        find_stat(ss, code) == find_stat(ts, code),
    decreases ss.len(),
{
    if ss.len() > 0 {
        lemma_find_stat_same(ss.drop_first(), ts.drop_first(), code);
    }
}

/// The table after counting one occurrence of `code` under `key`: a new
/// bucket or stat when absent, otherwise the stat's count grows by one.
pub open spec fn bump_spec(bs: Seq<BucketV>, key: Seq<u32>, code: u32) -> Seq<BucketV> {
    let bi = find_bucket(bs, key);
    if bi < 0 {
        bs.push(BucketV { features: key, stats: seq![Stat { code: code, count: 1 }] })
    } else {
        let b = bs[bi];
        let si = find_stat(b.stats, code);
        let stats2 = if si < 0 {
            b.stats.push(Stat { code: code, count: 1 })
        } else {
            b.stats.update(si, Stat { code: code, count: (b.stats[si].count + 1) as u64 })
        };
        bs.update(bi, BucketV { features: b.features, stats: stats2 })
    }
}

/// The table after counting one occurrence under each key in turn.
pub open spec fn bump_all(bs: Seq<BucketV>, keys: Seq<Seq<u32>>, code: u32) -> Seq<BucketV>
    decreases keys.len(),
{
    if keys.len() == 0 {
        bs
    } else {
        bump_all(bump_spec(bs, keys[0], code), keys.drop_first(), code)
    }
}

pub proof fn lemma_bump_all_push(bs: Seq<BucketV>, keys: Seq<Seq<u32>>, k: Seq<u32>, code: u32)
    ensures
        bump_all(bs, keys.push(k), code) == bump_spec(bump_all(bs, keys, code), k, code),
    decreases keys.len(),
{
    if keys.len() == 0 {
        reveal_with_fuel(bump_all, 3);
        assert(keys.push(k)[0] == k);
        assert(keys.push(k).drop_first() =~= Seq::<Seq<u32>>::empty());
    } else {
        assert(keys.push(k)[0] == keys[0]);
        assert(keys.push(k).drop_first() =~= keys.drop_first().push(k));
        lemma_bump_all_push(bump_spec(bs, keys[0], code), keys.drop_first(), k, code);
    }
}

/// The feature keys one record touches: every feature on its own when no
/// per-instruction detail was requested (fan-out), otherwise the single
/// feature's key on the fast path or the whole ordered feature sequence as
/// one combined key.
pub open spec fn keys_of(features: Seq<u32>, detail: bool) -> Seq<Seq<u32>> {
    if !detail {
        Seq::new(features.len(), |i: int| seq![features[i]])
    } else if features.len() == 1 {
        seq![seq![features[0]]]
    } else {
        seq![features]
    }
}

/// Well-formed per-opcode stats: at least one, distinct identities, counts
/// between one and the number of increments the table has seen.
pub open spec fn stats_wf(ss: Seq<Stat>, bound: nat) -> bool {
    &&& ss.len() >= 1
    &&& forall|i: int, j: int| 0 <= i < j < ss.len() ==> ss[i].code != ss[j].code
    &&& forall|i: int| 0 <= i < ss.len() ==> 1 <= #[trigger] ss[i].count <= bound
}

/// Well-formed table: distinct keys, each bucket well-formed.
pub open spec fn buckets_wf(bs: Seq<BucketV>, bound: nat) -> bool {
    &&& forall|i: int, j: int| 0 <= i < j < bs.len() ==> bs[i].features != bs[j].features
    &&& forall|i: int| 0 <= i < bs.len() ==> stats_wf(#[trigger] bs[i].stats, bound)
}

/// Bumping a well-formed table keeps it well-formed.
pub proof fn lemma_bump_spec_wf(bs: Seq<BucketV>, key: Seq<u32>, code: u32, bound: nat)
    requires
        buckets_wf(bs, bound),
        bound < u64::MAX,
    ensures
        buckets_wf(bump_spec(bs, key, code), (bound + 1) as nat),
{
    lemma_find_bucket_props(bs, key);
    let bi = find_bucket(bs, key);
    let nt = bump_spec(bs, key, code);
    if bi < 0 {
        let nb = BucketV { features: key, stats: seq![Stat { code: code, count: 1 }] };
        assert(stats_wf(nb.stats, (bound + 1) as nat));
        assert forall|i: int, j: int| 0 <= i < j < nt.len() implies nt[i].features
            != nt[j].features by {
            if j < nt.len() - 1 {
                assert(bs[i].features != bs[j].features);
            }
        }
        assert forall|i: int| 0 <= i < nt.len() implies stats_wf(
            #[trigger] nt[i].stats,
            (bound + 1) as nat,
        ) by {
            if i < nt.len() - 1 {
                assert(stats_wf(bs[i].stats, bound));
            }
        }
    } else {
        let b = bs[bi];
        lemma_find_stat_props(b.stats, code);
        let si = find_stat(b.stats, code);
        let stats2 = if si < 0 {
            b.stats.push(Stat { code: code, count: 1 })
        } else {
            b.stats.update(si, Stat { code: code, count: (b.stats[si].count + 1) as u64 })
        };
        assert(stats_wf(b.stats, bound));
        assert forall|i: int, j: int| 0 <= i < j < stats2.len() implies stats2[i].code
            != stats2[j].code by {
            if si < 0 && j == stats2.len() - 1 {
                assert(b.stats[i].code != code);
            }
        }
        assert forall|i: int| 0 <= i < stats2.len() implies 1 <= #[trigger] stats2[i].count <= (
        bound + 1) as nat by {
            if !(si >= 0 && i == si) && !(si < 0 && i == stats2.len() - 1) {
                assert(1 <= b.stats[i].count <= bound);
            }
        }
        assert(stats_wf(stats2, (bound + 1) as nat));
        assert forall|i: int, j: int| 0 <= i < j < nt.len() implies nt[i].features
            != nt[j].features by {
            assert(nt[i].features == bs[i].features);
            assert(nt[j].features == bs[j].features);
        }
        assert forall|i: int| 0 <= i < nt.len() implies stats_wf(
            #[trigger] nt[i].stats,
            (bound + 1) as nat,
        ) by {
            if i != bi {
                assert(stats_wf(bs[i].stats, bound));
            }
        }
    }
}

/// The count recorded for `code` under `key`, zero when absent.
pub open spec fn count_of(bs: Seq<BucketV>, key: Seq<u32>, code: u32) -> int {
    let bi = find_bucket(bs, key);
    if bi < 0 {
        0
    } else {
        let si = find_stat(bs[bi].stats, code);
        if si < 0 {
            0
        } else {
            bs[bi].stats[si].count as int
        }
    }
}

pub open spec fn sum_counts(ss: Seq<Stat>) -> int
    decreases ss.len(),
{
    if ss.len() == 0 {
        0
    } else {
        sum_counts(ss.drop_last()) + ss.last().count
    }
}

/// The sum of all counts recorded under `key`, zero when absent.
pub open spec fn bucket_total(bs: Seq<BucketV>, key: Seq<u32>) -> int {
    let bi = find_bucket(bs, key);
    if bi < 0 {
        0
    } else {
        sum_counts(bs[bi].stats)
    }
}

proof fn lemma_sum_push(ss: Seq<Stat>, s: Stat)
    ensures
        sum_counts(ss.push(s)) == sum_counts(ss) + s.count,
{
    assert(ss.push(s).drop_last() =~= ss);
}

proof fn lemma_sum_update(ss: Seq<Stat>, i: int, s: Stat)
    requires
        0 <= i < ss.len(),
    ensures
        sum_counts(ss.update(i, s)) == sum_counts(ss) - ss[i].count + s.count,
    decreases ss.len(),
{
    if i == ss.len() - 1 {
        assert(ss.update(i, s).drop_last() =~= ss.drop_last());
    } else {
        assert(ss.update(i, s).drop_last() =~= ss.drop_last().update(i, s));
        lemma_sum_update(ss.drop_last(), i, s);
    }
}

/// How one bump changes each recorded count: the bumped pair gains one,
/// every other pair is unchanged.
pub proof fn lemma_bump_spec_count(
    bs: Seq<BucketV>,
    key: Seq<u32>,
    code: u32,
    bound: nat,
    key2: Seq<u32>,
    code2: u32,
)
    requires
        buckets_wf(bs, bound),
        bound < u64::MAX,
    ensures
        count_of(bump_spec(bs, key, code), key2, code2) == count_of(bs, key2, code2) + (if key2
            == key && code2 == code {
            1int
        } else {
            0int
        }),
{
    lemma_find_bucket_props(bs, key);
    lemma_find_bucket_props(bs, key2);
    let bi = find_bucket(bs, key);
    let nt = bump_spec(bs, key, code);
    if bi < 0 {
        let nb = BucketV { features: key, stats: seq![Stat { code: code, count: 1 }] };
        if key2 == key {
            lemma_find_bucket_first(nt, key2, bs.len() as int);
            if code2 == code {
                lemma_find_stat_first(nb.stats, code2, 0);
            } else {
                lemma_find_stat_none(nb.stats, code2);
            }
        } else {
            let bi2 = find_bucket(bs, key2);
            if bi2 < 0 {
                lemma_find_bucket_none(nt, key2);
            } else {
                lemma_find_bucket_first(nt, key2, bi2);
            }
        }
    } else {
        let b = bs[bi];
        lemma_find_stat_props(b.stats, code);
        let si = find_stat(b.stats, code);
        let stats2 = if si < 0 {
            b.stats.push(Stat { code: code, count: 1 })
        } else {
            b.stats.update(si, Stat { code: code, count: (b.stats[si].count + 1) as u64 })
        };
        assert(nt.len() == bs.len());
        assert(forall|k: int| 0 <= k < nt.len() ==> nt[k].features == bs[k].features);
        lemma_find_bucket_same(bs, nt, key2);
        let bi2 = find_bucket(bs, key2);
        if key2 == key {
            assert(bi2 == bi);
            assert(nt[bi].stats == stats2);
            if si < 0 {
                lemma_find_stat_props(b.stats, code2);
                if code2 == code {
                    lemma_find_stat_first(stats2, code2, b.stats.len() as int);
                } else {
                    let si2 = find_stat(b.stats, code2);
                    if si2 < 0 {
                        lemma_find_stat_none(stats2, code2);
                    } else {
                        lemma_find_stat_first(stats2, code2, si2);
                    }
                }
            } else {
                assert(forall|k: int| 0 <= k < stats2.len() ==> stats2[k].code == b.stats[k].code);
                lemma_find_stat_same(b.stats, stats2, code2);
                if code2 == code {
                    assert(find_stat(stats2, code2) == si);
                } else {
                    let si2 = find_stat(b.stats, code2);
                    lemma_find_stat_props(b.stats, code2);
                    if si2 >= 0 {
                        assert(si2 != si);
                        assert(stats2[si2] == b.stats[si2]);
                    }
                }
            }
        } else {
            if bi2 >= 0 {
                assert(bi2 != bi);
                assert(nt[bi2] == bs[bi2]);
            }
        }
    }
}

/// How one bump changes each bucket's total: the bumped key's total gains
/// one, every other key's total is unchanged.
pub proof fn lemma_bump_spec_total(
    bs: Seq<BucketV>,
    key: Seq<u32>,
    code: u32,
    bound: nat,
    key2: Seq<u32>,
)
    requires
        buckets_wf(bs, bound),
        bound < u64::MAX,
    ensures
        bucket_total(bump_spec(bs, key, code), key2) == bucket_total(bs, key2) + (if key2 == key {
            1int
        } else {
            0int
        }),
{
    lemma_find_bucket_props(bs, key);
    lemma_find_bucket_props(bs, key2);
    let bi = find_bucket(bs, key);
    let nt = bump_spec(bs, key, code);
    if bi < 0 {
        let nb = BucketV { features: key, stats: seq![Stat { code: code, count: 1 }] };
        if key2 == key {
            lemma_find_bucket_first(nt, key2, bs.len() as int);
            reveal_with_fuel(sum_counts, 3);
            assert(nb.stats.drop_last() =~= Seq::<Stat>::empty());
            assert(sum_counts(nb.stats) == 1);
        } else {
            let bi2 = find_bucket(bs, key2);
            if bi2 < 0 {
                lemma_find_bucket_none(nt, key2);
            } else {
                lemma_find_bucket_first(nt, key2, bi2);
            }
        }
    } else {
        let b = bs[bi];
        lemma_find_stat_props(b.stats, code);
        let si = find_stat(b.stats, code);
        assert(forall|k: int| 0 <= k < nt.len() ==> nt[k].features == bs[k].features);
        lemma_find_bucket_same(bs, nt, key2);
        if key2 == key {
            if si < 0 {
                lemma_sum_push(b.stats, Stat { code: code, count: 1 });
            } else {
                lemma_sum_update(
                    b.stats,
                    si,
                    Stat { code: code, count: (b.stats[si].count + 1) as u64 },
                );
            }
        } else {
            let bi2 = find_bucket(bs, key2);
            if bi2 >= 0 {
                assert(nt[bi2] == bs[bi2]);
            }
        }
    }
}

} // verus!

verus! {

fn find_bucket_exec(bs: &Vec<Bucket>, key: &Vec<u32>) -> (r: usize)
    ensures
        r <= bs.len(),
        r == bs.len() ==> find_bucket(buckets_view(bs@), key@) == -1,
        r < bs.len() ==> find_bucket(buckets_view(bs@), key@) == r as int && buckets_view(
            bs@,
        )[r as int].features == key@,
{
    let mut i: usize = 0;
    while i < bs.len()
        invariant
            i <= bs.len(),
            forall|k: int| 0 <= k < i ==> buckets_view(bs@)[k].features != key@,
        decreases bs.len() - i,
    {
        if u32_vec_eq(&bs[i].features, key) {
            proof {
                assert(buckets_view(bs@)[i as int].features == key@);
                lemma_find_bucket_first(buckets_view(bs@), key@, i as int);
            }
            return i;
        }
        i = i + 1;
    }
    proof {
        lemma_find_bucket_none(buckets_view(bs@), key@);
    }
    bs.len()
}

fn find_stat_exec(ss: &Vec<Stat>, code: u32) -> (r: usize)
    ensures
        r <= ss.len(),
        r == ss.len() ==> find_stat(ss@, code) == -1,
        r < ss.len() ==> find_stat(ss@, code) == r as int && ss@[r as int].code == code,
{
    let mut i: usize = 0;
    while i < ss.len()
        invariant
            i <= ss.len(),
            forall|k: int| 0 <= k < i ==> ss@[k].code != code,
        decreases ss.len() - i,
    {
        if ss[i].code == code {
            proof {
                lemma_find_stat_first(ss@, code, i as int);
            }
            return i;
        }
        i = i + 1;
    }
    proof {
        lemma_find_stat_none(ss@, code);
    }
    ss.len()
}

proof fn lemma_remove_insert(s: Seq<Bucket>, i: int, x: Bucket)
    requires
        0 <= i < s.len(),
    ensures
        s.remove(i).insert(i, x) =~= s.update(i, x),
{
}

/// The aggregation table and the scalar record total, built in one pass.
pub struct Aggregator {
    pub buckets: Vec<Bucket>,
    pub total: u64,
    pub bumps: Ghost<nat>,
}

impl Aggregator {
    /// The table's mathematical contents.
    pub open spec fn table(self) -> Seq<BucketV> {
        buckets_view(self.buckets@)
    }

    pub open spec fn wf(self) -> bool {
        buckets_wf(self.table(), self.bumps@)
    }

    /// An empty table with a zero record total.
    pub fn new() -> (r: Aggregator)
        ensures
            r.wf(),
            r.total == 0,
            r.bumps@ == 0,
            r.table() == Seq::<BucketV>::empty(),
    {
        let r = Aggregator { buckets: Vec::new(), total: 0, bumps: Ghost(0nat) };
        proof {
            assert(r.table() =~= Seq::<BucketV>::empty());
        }
        r
    }

    /// Counts one occurrence of `code` under `key`.
    fn bump(&mut self, key: Vec<u32>, code: u32)
        requires
            old(self).wf(),
            old(self).bumps@ < u64::MAX,
        ensures
            final(self).wf(),
            final(self).total == old(self).total,
            final(self).bumps@ == old(self).bumps@ + 1,
            final(self).table() == bump_spec(old(self).table(), key@, code),
    {
        proof {
            lemma_bump_spec_wf(old(self).table(), key@, code, old(self).bumps@);
        }
        let ghost bs0 = self.table();
        let ghost nt = bump_spec(bs0, key@, code);
        let bi = find_bucket_exec(&self.buckets, &key);
        if bi < self.buckets.len() {
            let ghost pre = self.buckets@;
            let mut b = self.buckets.remove(bi);
            let ghost stats0 = b.stats@;
            proof {
                assert(bs0[bi as int] == b@);
                assert(stats_wf(bs0[bi as int].stats, old(self).bumps@));
            }
            let si = find_stat_exec(&b.stats, code);
            if si < b.stats.len() {
                let c = b.stats[si].count;
                proof {
                    assert(1 <= c <= old(self).bumps@);
                }
                b.stats.remove(si);
                b.stats.insert(si, Stat { code: code, count: c + 1 });
                proof {
                    assert(b.stats@ =~= stats0.update(
                        si as int,
                        Stat { code: code, count: (c + 1) as u64 },
                    ));
                }
            } else {
                b.stats.push(Stat { code: code, count: 1 });
            }
            let ghost bv = b@;
            self.buckets.insert(bi, b);
            proof {
                lemma_remove_insert(pre, bi as int, self.buckets@[bi as int]);
                assert(self.buckets@ =~= pre.update(bi as int, self.buckets@[bi as int]));
                assert(self.buckets@[bi as int]@ == bv);
                assert forall|k: int| 0 <= k < nt.len() implies self.table()[k] == nt[k] by {
                    if k != bi {
                        assert(self.buckets@[k] == pre[k]);
                    }
                }
                assert(self.table() =~= nt);
            }
        } else {
            let mut sv: Vec<Stat> = Vec::new();
            sv.push(Stat { code: code, count: 1 });
            let ghost kv = key@;
            self.buckets.push(Bucket { features: key, stats: sv });
            proof {
                assert(self.buckets@[self.buckets@.len() - 1]@ == BucketV {
                    features: kv,
                    stats: seq![Stat { code: code, count: 1 }],
                });
                assert forall|k: int| 0 <= k < nt.len() implies self.table()[k] == nt[k] by {
                }
                assert(self.table() =~= nt);
            }
        }
        self.bumps = Ghost(self.bumps@ + 1);
    }

    /// Consumes one record: the scalar total grows by one and each of the
    /// record's feature keys is counted as `keys_of` describes.
    pub fn ingest(&mut self, code: u32, features: &Vec<u32>, detail: bool)
        requires
            old(self).wf(),
            old(self).total < u64::MAX,
            old(self).bumps@ + features@.len() + 1 <= u64::MAX,
        ensures
            final(self).wf(),
            final(self).total == old(self).total + 1,
            final(self).bumps@ == old(self).bumps@ + keys_of(features@, detail).len(),
            final(self).table() == bump_all(old(self).table(), keys_of(features@, detail), code),
    {
        let ghost t0 = self.table();
        let ghost b0 = self.bumps@;
        self.total = self.total + 1;
        if !detail {
            let ghost ks = keys_of(features@, false);
            let mut i: usize = 0;
            proof {
                assert(ks.take(0) =~= Seq::<Seq<u32>>::empty());
            }
            while i < features.len()
                invariant
                    i <= features@.len(),
                    ks == keys_of(features@, false),
                    ks.len() == features@.len(),
                    b0 + features@.len() + 1 <= u64::MAX,
                    self.total == old(self).total + 1,
                    self.bumps@ == b0 + i,
                    self.wf(),
                    self.table() == bump_all(t0, ks.take(i as int), code),
                decreases features.len() - i,
            {
                let mut k: Vec<u32> = Vec::new();
                k.push(features[i]);
                proof {
                    assert(k@ =~= seq![features@[i as int]]);
                    assert(ks[i as int] == seq![features@[i as int]]);
                }
                let ghost before = self.table();
                self.bump(k, code);
                proof {
                    lemma_bump_all_push(t0, ks.take(i as int), ks[i as int], code);
                    assert(ks.take(i + 1) =~= ks.take(i as int).push(ks[i as int]));
                }
                i = i + 1;
            }
            proof {
                assert(ks.take(ks.len() as int) =~= ks);
            }
        } else if features.len() == 1 {
            let mut k: Vec<u32> = Vec::new();
            k.push(features[0]);
            proof {
                assert(k@ =~= seq![features@[0]]);
            }
            self.bump(k, code);
            proof {
                reveal_with_fuel(bump_all, 3);
                assert(keys_of(features@, true) == seq![seq![features@[0]]]);
                assert(keys_of(features@, true).drop_first() =~= Seq::<Seq<u32>>::empty());
            }
        } else {
            let k = copy_u32s(features);
            self.bump(k, code);
            proof {
                reveal_with_fuel(bump_all, 3);
                assert(keys_of(features@, true) == seq![features@]);
                assert(keys_of(features@, true).drop_first() =~= Seq::<Seq<u32>>::empty());
            }
        }
    }
}

/// The table that one pass over the whole record stream builds.
pub open spec fn agg_fold(rs: Seq<RecordV>, detail: bool) -> Seq<BucketV>
    decreases rs.len(),
{
    if rs.len() == 0 {
        Seq::empty()
    } else {
        bump_all(
            agg_fold(rs.drop_last(), detail),
            keys_of(rs.last().features, detail),
            rs.last().code,
        )
    }
}

/// One record and its feature list weigh `1 + features`; the stream's weight
/// bounds every counter the table holds.
pub open spec fn stream_weight(rs: Seq<RecordV>) -> int
    decreases rs.len(),
{
    if rs.len() == 0 {
        0
    } else {
        stream_weight(rs.drop_last()) + 1 + rs.last().features.len()
    }
}

pub proof fn lemma_weight_ge_len(rs: Seq<RecordV>)
    ensures
        stream_weight(rs) >= rs.len(),
    decreases rs.len(),
{
    if rs.len() > 0 {
        lemma_weight_ge_len(rs.drop_last());
    }
}

pub proof fn lemma_weight_take_step(rs: Seq<RecordV>, i: int)
    requires
        0 <= i < rs.len(),
    ensures
        stream_weight(rs.take(i + 1)) == stream_weight(rs.take(i)) + 1 + rs[i].features.len(),
{
    assert(rs.take(i + 1).drop_last() =~= rs.take(i));
    assert(rs.take(i + 1).last() == rs[i]);
}

pub proof fn lemma_weight_take_le(rs: Seq<RecordV>, i: int)
    requires
        0 <= i <= rs.len(),
    ensures
        stream_weight(rs.take(i)) + (rs.len() - i) <= stream_weight(rs),
    decreases rs.len() - i,
{
    if i == rs.len() {
        assert(rs.take(i) =~= rs);
    } else {
        lemma_weight_take_step(rs, i);
        lemma_weight_take_le(rs, i + 1);
    }
}

/// Builds the table for a whole record stream in one pass. The scalar total
/// equals the number of records, whatever the mode.
pub fn aggregate(records: &Vec<Record>, detail: bool) -> (agg: Aggregator)
    requires
        stream_weight(records.deep_view()) <= u64::MAX,
    ensures
        agg.wf(),
        agg.total == records@.len(),
        agg.table() == agg_fold(records.deep_view(), detail),
        agg.bumps@ <= stream_weight(records.deep_view()),
        detail ==> agg.bumps@ == records@.len(),
{
    let mut agg = Aggregator::new();
    let ghost rs = records.deep_view();
    let mut i: usize = 0;
    proof {
        assert(rs.take(0) =~= Seq::<RecordV>::empty());
    }
    while i < records.len()
        invariant
            i <= records@.len(),
            rs == records.deep_view(),
            rs.len() == records@.len(),
            stream_weight(rs) <= u64::MAX,
            agg.wf(),
            agg.total == i,
            agg.table() == agg_fold(rs.take(i as int), detail),
            agg.bumps@ <= stream_weight(rs.take(i as int)),
            detail ==> agg.bumps@ == i,
        decreases records.len() - i,
    {
        proof {
            lemma_weight_take_step(rs, i as int);
            lemma_weight_take_le(rs, i + 1);
            lemma_weight_ge_len(rs.take(i + 1));
            assert(rs[i as int] == records@[i as int]@);
        }
        let r = &records[i];
        agg.ingest(r.code, &r.features, detail);
        proof {
            assert(rs.take(i + 1).drop_last() =~= rs.take(i as int));
            assert(rs.take(i + 1).last() == rs[i as int]);
        }
        i = i + 1;
    }
    proof {
        assert(rs.take(rs.len() as int) =~= rs);
    }
    agg
}

} // verus!

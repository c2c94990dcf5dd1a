//! Stream-level laws of the engine: conservation of counts, the detail
//! mode's combined-key behaviour, determinism, and the row order's tie break.

use vstd::prelude::*;
use crate::report::DisplayGroupV;
use crate::report::OptionsV;
use crate::report::RowV;
use crate::report::group_lt;
use crate::report::insert_group;
use crate::report::sort_groups_spec;
use crate::report::report_spec;
use crate::report::row_lt;
use crate::report::insert_row;
use crate::report::sort_rows_spec;
use crate::table::BucketV;
use crate::table::RecordV;
use crate::table::agg_fold;
use crate::table::bucket_total;
use crate::table::bump_all;
use crate::table::bump_spec;
use crate::table::buckets_wf;
use crate::table::count_of;
use crate::table::keys_of;
use crate::table::lemma_bump_spec_count;
use crate::table::lemma_bump_spec_total;
use crate::table::lemma_bump_spec_wf;
use crate::table::stream_weight;
use crate::text::chars_lt;
use crate::text::lemma_chars_lt_asym;
use crate::text::lemma_chars_lt_connected;
use crate::text::lemma_chars_lt_trans;
use crate::text::lemma_u32s_lt_asym;
use crate::text::lemma_u32s_lt_connected;
use crate::text::lemma_u32s_lt_trans;

verus! {

/// A feature list without repeats, as the decoder reports feature sets.
pub open spec fn distinct_u32s(s: Seq<u32>) -> bool {
    forall|i: int, j: int| 0 <= i < j < s.len() ==> s[i] != s[j]
}

/// How many records' feature lists contain `f`.
pub open spec fn occurrences(rs: Seq<RecordV>, f: u32) -> int
    decreases rs.len(),
{
    if rs.len() == 0 {
        0
    } else {
        occurrences(rs.drop_last(), f) + if rs.last().features.contains(f) {
            1int
        } else {
            0int
        }
    }
}

/// How often `key` occurs in a key list.
pub open spec fn key_count(keys: Seq<Seq<u32>>, key: Seq<u32>) -> int
    decreases keys.len(),
{
    if keys.len() == 0 {
        0
    } else {
        (if keys[0] == key {
            1int
        } else {
            0int
        }) + key_count(keys.drop_first(), key)
    }
}

/// The number of key bumps a record stream causes.
pub open spec fn keys_len_sum(rs: Seq<RecordV>, detail: bool) -> int
    decreases rs.len(),
{
    if rs.len() == 0 {
        0
    } else {
        keys_len_sum(rs.drop_last(), detail) + keys_of(rs.last().features, detail).len()
    }
}

pub proof fn lemma_keys_len_sum_le(rs: Seq<RecordV>, detail: bool)
    ensures
        0 <= keys_len_sum(rs, detail) <= stream_weight(rs),
    decreases rs.len(),
{
    if rs.len() > 0 {
        lemma_keys_len_sum_le(rs.drop_last(), detail);
    }
}

pub proof fn lemma_bump_all_total(
    bs: Seq<BucketV>,
    keys: Seq<Seq<u32>>,
    code: u32,
    bound: nat,
    key2: Seq<u32>,
)
    requires
        buckets_wf(bs, bound),
        bound + keys.len() <= u64::MAX,
    ensures
        bucket_total(bump_all(bs, keys, code), key2) == bucket_total(bs, key2) + key_count(
            keys,
            key2,
        ),
        buckets_wf(bump_all(bs, keys, code), (bound + keys.len()) as nat),
    decreases keys.len(),
{
    if keys.len() > 0 {
        lemma_bump_spec_total(bs, keys[0], code, bound, key2);
        lemma_bump_spec_wf(bs, keys[0], code, bound);
        lemma_bump_all_total(
            bump_spec(bs, keys[0], code),
            keys.drop_first(),
            code,
            (bound + 1) as nat,
            key2,
        );
    }
}

/// With fan-out (no detail mode), a record with distinct features bumps the
/// single-feature key of `f` exactly once when it requires `f`, never
/// otherwise.
pub proof fn lemma_key_count_singletons(fs: Seq<u32>, f: u32)
    requires
        distinct_u32s(fs),
    ensures
        key_count(keys_of(fs, false), seq![f]) == if fs.contains(f) {
            1int
        } else {
            0int
        },
    decreases fs.len(),
{
    let keys = keys_of(fs, false);
    if fs.len() == 0 {
        assert(!fs.contains(f));
    } else {
        assert(keys[0] == seq![fs[0]]);
        assert(keys.drop_first() =~= keys_of(fs.drop_first(), false));
        assert(distinct_u32s(fs.drop_first())) by {
            assert(forall|k: int|
                0 <= k < fs.drop_first().len() ==> fs.drop_first()[k] == fs[k + 1]);
        }
        lemma_key_count_singletons(fs.drop_first(), f);
        if fs[0] == f {
            assert(keys[0] == seq![f]);
            assert(fs.contains(f)) by {
                assert(fs[0] == f);
            }
            assert(!fs.drop_first().contains(f)) by {
                if fs.drop_first().contains(f) {
                    let j = choose|j: int|
                        0 <= j < fs.drop_first().len() && fs.drop_first()[j] == f;
                    assert(fs[j + 1] == f);
                    assert(fs[0] == fs[j + 1]);
                }
            }
        } else {
            assert(keys[0] != seq![f]) by {
                if keys[0] == seq![f] {
                    assert(keys[0][0] == f);
                }
            }
            assert(fs.contains(f) == fs.drop_first().contains(f)) by {
                if fs.contains(f) {
                    let j = choose|j: int| 0 <= j < fs.len() && fs[j] == f;
                    assert(j != 0);
                    assert(fs.drop_first()[j - 1] == f);
                }
                if fs.drop_first().contains(f) {
                    let j = choose|j: int|
                        0 <= j < fs.drop_first().len() && fs.drop_first()[j] == f;
                    assert(fs[j + 1] == f);
                }
            }
        }
    }
}

/// Conservation under fan-out: after aggregating a stream whose records list
/// each required feature once, the counts recorded under feature `f`'s own
/// key sum to exactly the number of records that required `f`. (A record
/// listing the same feature twice would be counted once per listing, so such
/// records are left out.) The scalar total equals the record count by the
/// contract of `aggregate`, whatever the flags.
pub proof fn lemma_fan_out_conservation(rs: Seq<RecordV>, f: u32)
    requires
        stream_weight(rs) <= u64::MAX,
        forall|i: int| 0 <= i < rs.len() ==> distinct_u32s(#[trigger] rs[i].features),
    ensures
        bucket_total(agg_fold(rs, false), seq![f]) == occurrences(rs, f),
        buckets_wf(agg_fold(rs, false), keys_len_sum(rs, false) as nat),
    decreases rs.len(),
{
    lemma_keys_len_sum_le(rs, false);
    if rs.len() == 0 {
        assert(bucket_total(agg_fold(rs, false), seq![f]) == 0);
    } else {
        let pre = rs.drop_last();
        let last = rs.last();
        assert(stream_weight(pre) <= stream_weight(rs)) by {
            lemma_keys_len_sum_le(pre, false);
        }
        assert(forall|i: int| 0 <= i < pre.len() ==> distinct_u32s(#[trigger] pre[i].features))
            by {
            assert(forall|i: int| 0 <= i < pre.len() ==> pre[i] == rs[i]);
        }
        lemma_fan_out_conservation(pre, f);
        lemma_keys_len_sum_le(pre, false);
        assert(distinct_u32s(last.features)) by {
            assert(rs[rs.len() - 1] == last);
        }
        lemma_bump_all_total(
            agg_fold(pre, false),
            keys_of(last.features, false),
            last.code,
            keys_len_sum(pre, false) as nat,
            seq![f],
        );
        lemma_key_count_singletons(last.features, f);
    }
}

/// No fan-out in detail mode: a record needing two or more features is
/// counted exactly once, under the whole ordered feature sequence as one
/// combined key; every single-feature key's counts are untouched.
pub proof fn lemma_detail_no_fan_out(bs: Seq<BucketV>, features: Seq<u32>, code: u32, bound: nat)
    requires
        buckets_wf(bs, bound),
        bound < u64::MAX,
        features.len() >= 2,
    ensures
        bump_all(bs, keys_of(features, true), code) == bump_spec(bs, features, code),
        count_of(bump_spec(bs, features, code), features, code) == count_of(bs, features, code)
            + 1,
        bucket_total(bump_spec(bs, features, code), features) == bucket_total(bs, features) + 1,
        forall|f: u32, c: u32| #[trigger] count_of(bump_spec(bs, features, code), seq![f], c)
            == count_of(bs, seq![f], c),
        forall|f: u32| #[trigger] bucket_total(bump_spec(bs, features, code), seq![f])
            == bucket_total(bs, seq![f]),
{
    reveal_with_fuel(bump_all, 3);
    assert(keys_of(features, true) == seq![features]);
    assert(keys_of(features, true).drop_first() =~= Seq::<Seq<u32>>::empty());
    lemma_bump_spec_count(bs, features, code, bound, features, code);
    lemma_bump_spec_total(bs, features, code, bound, features);
    assert forall|f: u32, c: u32| #[trigger] count_of(bump_spec(bs, features, code), seq![f], c)
        == count_of(bs, seq![f], c) by {
        assert(seq![f].len() == 1);
        lemma_bump_spec_count(bs, features, code, bound, seq![f], c);
    }
    assert forall|f: u32| #[trigger] bucket_total(bump_spec(bs, features, code), seq![f])
        == bucket_total(bs, seq![f]) by {
        assert(seq![f].len() == 1);
        lemma_bump_spec_total(bs, features, code, bound, seq![f]);
    }
}

/// Determinism: the report text is a function of the record stream and the
/// options alone, so two runs on the same inputs render the same text.
pub proof fn lemma_report_deterministic(
    rs: Seq<RecordV>,
    o: OptionsV,
    first: Seq<char>,
    second: Seq<char>,
)
    requires
        first == report_spec(rs, o),
        second == report_spec(rs, o),
    ensures
        first == second,
{
}

pub proof fn lemma_row_lt_asym(a: RowV, b: RowV)
    ensures
        row_lt(a, b) ==> !row_lt(b, a),
{
    lemma_chars_lt_asym(a.instr, b.instr);
    lemma_chars_lt_asym(b.instr, a.instr);
    lemma_chars_lt_asym(a.opcode, b.opcode);
    lemma_chars_lt_asym(b.opcode, a.opcode);
}

pub proof fn lemma_row_nlt_trans(a: RowV, b: RowV, c: RowV)
    requires
        !row_lt(b, a),
        !row_lt(c, b),
    ensures
        !row_lt(c, a),
{
    lemma_chars_lt_connected(a.instr, b.instr);
    lemma_chars_lt_connected(b.instr, c.instr);
    lemma_chars_lt_connected(a.instr, c.instr);
    lemma_chars_lt_trans(c.instr, b.instr, a.instr);
    lemma_chars_lt_trans(a.instr, b.instr, c.instr);
    lemma_chars_lt_asym(a.instr, b.instr);
    lemma_chars_lt_asym(b.instr, c.instr);
    lemma_chars_lt_asym(a.instr, c.instr);
    lemma_chars_lt_connected(a.opcode, b.opcode);
    lemma_chars_lt_connected(b.opcode, c.opcode);
    lemma_chars_lt_connected(a.opcode, c.opcode);
    lemma_chars_lt_trans(c.opcode, b.opcode, a.opcode);
    lemma_chars_lt_trans(a.opcode, b.opcode, c.opcode);
    lemma_chars_lt_asym(a.opcode, b.opcode);
    lemma_chars_lt_asym(b.opcode, c.opcode);
    lemma_chars_lt_asym(a.opcode, c.opcode);
}

/// No inversion anywhere: a later row is never strictly below an earlier one.
pub open spec fn rows_sorted(s: Seq<RowV>) -> bool {
    forall|i: int, j: int| 0 <= i < j < s.len() ==> !row_lt(s[j], s[i])
}

pub proof fn lemma_insert_row_sorted(s: Seq<RowV>, x: RowV)
    requires
        rows_sorted(s),
    ensures
        rows_sorted(insert_row(s, x)),
        forall|k: int|
            0 <= k < insert_row(s, x).len() ==> insert_row(s, x)[k] == x || (exists|m: int|
                0 <= m < s.len() && insert_row(s, x)[k] == s[m]),
    decreases s.len(),
{
    let out = insert_row(s, x);
    if s.len() > 0 && row_lt(x, s.last()) {
        assert(rows_sorted(s.drop_last())) by {
            assert(forall|k: int| 0 <= k < s.len() - 1 ==> s.drop_last()[k] == s[k]);
        }
        lemma_insert_row_sorted(s.drop_last(), x);
        let inner = insert_row(s.drop_last(), x);
        assert forall|k: int| 0 <= k < inner.len() implies !row_lt(s.last(), inner[k]) by {
            if inner[k] == x {
                lemma_row_lt_asym(x, s.last());
            } else {
                let m = choose|m: int|
                    0 <= m < s.drop_last().len() && inner[k] == s.drop_last()[m];
                assert(s.drop_last()[m] == s[m]);
                assert(!row_lt(s.last(), s[m]));
            }
        }
        assert forall|i: int, j: int| 0 <= i < j < out.len() implies !row_lt(out[j], out[i]) by {
            if j < out.len() - 1 {
                assert(out[i] == inner[i] && out[j] == inner[j]);
            } else {
                assert(out[j] == s.last());
                assert(out[i] == inner[i]);
            }
        }
        assert forall|k: int|
            0 <= k < out.len() implies out[k] == x || (exists|m: int|
                0 <= m < s.len() && out[k] == s[m]) by {
            if k < out.len() - 1 {
                if inner[k] != x {
                    let m = choose|m: int|
                        0 <= m < s.drop_last().len() && inner[k] == s.drop_last()[m];
                    assert(out[k] == s[m]);
                }
            } else {
                assert(out[k] == s[s.len() - 1]);
            }
        }
    } else {
        assert forall|i: int, j: int| 0 <= i < j < out.len() implies !row_lt(out[j], out[i]) by {
            if j == out.len() - 1 {
                assert(out[j] == x);
                assert(out[i] == s[i]);
                if i < s.len() - 1 {
                    assert(!row_lt(x, s[s.len() - 1]));
                    assert(!row_lt(s[s.len() - 1], s[i]));
                    lemma_row_nlt_trans(s[i], s[s.len() - 1], x);
                } else {
                    assert(!row_lt(x, s[s.len() - 1]));
                }
            } else {
                assert(out[i] == s[i] && out[j] == s[j]);
            }
        }
        assert forall|k: int|
            0 <= k < out.len() implies out[k] == x || (exists|m: int|
                0 <= m < s.len() && out[k] == s[m]) by {
            if k < out.len() - 1 {
                assert(out[k] == s[k]);
            }
        }
    }
}

/// Sort order of the detail rows: no inversions, and rows whose two display
/// texts coincide stand in identity order, never in arrival order.
pub proof fn lemma_sort_rows_orders(s: Seq<RowV>)
    ensures
        rows_sorted(sort_rows_spec(s)),
        forall|i: int, j: int|
            0 <= i < j < sort_rows_spec(s).len() && sort_rows_spec(s)[i].instr == sort_rows_spec(
                s,
            )[j].instr && sort_rows_spec(s)[i].opcode == sort_rows_spec(s)[j].opcode
                ==> sort_rows_spec(s)[i].code <= sort_rows_spec(s)[j].code,
    decreases s.len(),
{
    if s.len() > 0 {
        lemma_sort_rows_orders(s.drop_last());
        lemma_insert_row_sorted(sort_rows_spec(s.drop_last()), s.last());
    }
    let out = sort_rows_spec(s);
    assert forall|i: int, j: int|
        0 <= i < j < out.len() && out[i].instr == out[j].instr && out[i].opcode
            == out[j].opcode implies out[i].code <= out[j].code by {
        assert(!row_lt(out[j], out[i]));
    }
}

} // verus!

verus! {

pub proof fn lemma_group_lt_asym(a: DisplayGroupV, b: DisplayGroupV)
    ensures
        group_lt(a, b) ==> !group_lt(b, a),
{
    lemma_chars_lt_asym(a.display, b.display);
    lemma_chars_lt_asym(b.display, a.display);
    lemma_u32s_lt_asym(a.features, b.features);
    lemma_u32s_lt_asym(b.features, a.features);
}

pub proof fn lemma_group_nlt_trans(a: DisplayGroupV, b: DisplayGroupV, c: DisplayGroupV)
    requires
        !group_lt(b, a),
        !group_lt(c, b),
    ensures
        !group_lt(c, a),
{
    lemma_chars_lt_connected(a.display, b.display);
    lemma_chars_lt_connected(b.display, c.display);
    lemma_chars_lt_connected(a.display, c.display);
    lemma_chars_lt_trans(c.display, b.display, a.display);
    lemma_chars_lt_trans(a.display, b.display, c.display);
    lemma_chars_lt_asym(a.display, b.display);
    lemma_chars_lt_asym(b.display, c.display);
    lemma_chars_lt_asym(a.display, c.display);
    lemma_u32s_lt_connected(a.features, b.features);
    lemma_u32s_lt_connected(b.features, c.features);
    lemma_u32s_lt_connected(a.features, c.features);
    lemma_u32s_lt_trans(c.features, b.features, a.features);
    lemma_u32s_lt_trans(a.features, b.features, c.features);
    lemma_u32s_lt_asym(a.features, b.features);
    lemma_u32s_lt_asym(b.features, c.features);
    lemma_u32s_lt_asym(a.features, c.features);
}

/// No inversion anywhere: a later group is never strictly below an earlier
/// one.
pub open spec fn groups_sorted(s: Seq<DisplayGroupV>) -> bool {
    forall|i: int, j: int| 0 <= i < j < s.len() ==> !group_lt(s[j], s[i])
}

pub proof fn lemma_insert_group_sorted(s: Seq<DisplayGroupV>, x: DisplayGroupV)
    requires
        groups_sorted(s),
    ensures
        groups_sorted(insert_group(s, x)),
        forall|k: int|
            0 <= k < insert_group(s, x).len() ==> insert_group(s, x)[k] == x || (exists|m: int|
                0 <= m < s.len() && insert_group(s, x)[k] == s[m]),
    decreases s.len(),
{
    let out = insert_group(s, x);
    if s.len() > 0 && group_lt(x, s.last()) {
        assert(groups_sorted(s.drop_last())) by {
            assert(forall|k: int| 0 <= k < s.len() - 1 ==> s.drop_last()[k] == s[k]);
        }
        lemma_insert_group_sorted(s.drop_last(), x);
        let inner = insert_group(s.drop_last(), x);
        assert forall|k: int| 0 <= k < inner.len() implies !group_lt(s.last(), inner[k]) by {
            if inner[k] == x {
                lemma_group_lt_asym(x, s.last());
            } else {
                let m = choose|m: int|
                    0 <= m < s.drop_last().len() && inner[k] == s.drop_last()[m];
                assert(s.drop_last()[m] == s[m]);
                assert(!group_lt(s.last(), s[m]));
            }
        }
        assert forall|i: int, j: int| 0 <= i < j < out.len() implies !group_lt(out[j], out[i]) by {
            if j < out.len() - 1 {
                assert(out[i] == inner[i] && out[j] == inner[j]);
            } else {
                assert(out[j] == s.last());
                assert(out[i] == inner[i]);
            }
        }
        assert forall|k: int|
            0 <= k < out.len() implies out[k] == x || (exists|m: int|
                0 <= m < s.len() && out[k] == s[m]) by {
            if k < out.len() - 1 {
                if inner[k] != x {
                    let m = choose|m: int|
                        0 <= m < s.drop_last().len() && inner[k] == s.drop_last()[m];
                    assert(out[k] == s[m]);
                }
            } else {
                assert(out[k] == s[s.len() - 1]);
            }
        }
    } else {
        assert forall|i: int, j: int| 0 <= i < j < out.len() implies !group_lt(out[j], out[i]) by {
            if j == out.len() - 1 {
                assert(out[j] == x);
                assert(out[i] == s[i]);
                if i < s.len() - 1 {
                    assert(!group_lt(x, s[s.len() - 1]));
                    assert(!group_lt(s[s.len() - 1], s[i]));
                    lemma_group_nlt_trans(s[i], s[s.len() - 1], x);
                } else {
                    assert(!group_lt(x, s[s.len() - 1]));
                }
            } else {
                assert(out[i] == s[i] && out[j] == s[j]);
            }
        }
        assert forall|k: int|
            0 <= k < out.len() implies out[k] == x || (exists|m: int|
                0 <= m < s.len() && out[k] == s[m]) by {
            if k < out.len() - 1 {
                assert(out[k] == s[k]);
            }
        }
    }
}

/// Sort order of the report's groups: display strings come out in
/// nondecreasing code-point order.
pub proof fn lemma_sort_groups_orders(s: Seq<DisplayGroupV>)
    ensures
        groups_sorted(sort_groups_spec(s)),
        forall|i: int, j: int|
            0 <= i < j < sort_groups_spec(s).len() ==> !chars_lt(
                sort_groups_spec(s)[j].display,
                sort_groups_spec(s)[i].display,
            ),
    decreases s.len(),
{
    if s.len() > 0 {
        lemma_sort_groups_orders(s.drop_last());
        lemma_insert_group_sorted(sort_groups_spec(s.drop_last()), s.last());
    }
    let out = sort_groups_spec(s);
    assert forall|i: int, j: int| 0 <= i < j < out.len() implies !chars_lt(
        out[j].display,
        out[i].display,
    ) by {
        assert(!group_lt(out[j], out[i]));
    }
}

} // verus!

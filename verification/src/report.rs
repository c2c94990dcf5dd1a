//! The report pipeline over an aggregated table: derive each bucket's display
//! string, apply the baseline and user filters, order groups and opcode lines
//! deterministically, and render the requested columns.

use vstd::prelude::*;
use vstd::string::*;
use crate::filters::baseline_name;
use crate::filters::is_baseline;
use crate::optext::feature_name;
use crate::optext::feature_name_of;
use crate::optext::instr_text;
use crate::optext::instr_text_of;
use crate::optext::opcode_text;
use crate::optext::opcode_text_of;
use crate::table::Aggregator;
use crate::table::BucketV;
use crate::table::Record;
use crate::table::RecordV;
use crate::table::Stat;
use crate::table::agg_fold;
use crate::table::aggregate;
use crate::table::stream_weight;
use crate::text::chars_lt;
use crate::text::copy_u32s;
use crate::text::dec_str;
use crate::text::dec_u64;
use crate::text::join_spec;
use crate::text::join_strings;
use crate::text::lemma_chars_lt_connected;
use crate::text::pct_str;
use crate::text::pct_string;
use crate::text::str_lt;
use crate::text::u32_vec_lt;
use crate::text::u32s_lt;

verus! {

/// The report's configuration, as the command line sets it.
pub struct Options {
    pub all: bool,
    pub instr: bool,
    pub opcode: bool,
    pub count: bool,
    pub percent: bool,
    pub cpuid: Vec<String>,
    pub ignore_cpuid: Vec<String>,
}

pub ghost struct OptionsV {
    pub all: bool,
    pub instr: bool,
    pub opcode: bool,
    pub count: bool,
    pub percent: bool,
    pub cpuid: Seq<Seq<char>>,
    pub ignore_cpuid: Seq<Seq<char>>,
}

impl View for Options {
    type V = OptionsV;

    open spec fn view(&self) -> OptionsV {
        OptionsV {
            all: self.all,
            instr: self.instr,
            opcode: self.opcode,
            count: self.count,
            percent: self.percent,
            cpuid: self.cpuid.deep_view(),
            ignore_cpuid: self.ignore_cpuid.deep_view(),
        }
    }
}

/// One bucket ready for reporting: its display string, key and stats.
pub struct DisplayGroup {
    pub display: String,
    pub features: Vec<u32>,
    pub stats: Vec<Stat>,
}

pub ghost struct DisplayGroupV {
    pub display: Seq<char>,
    pub features: Seq<u32>,
    pub stats: Seq<Stat>,
}

impl View for DisplayGroup {
    type V = DisplayGroupV;

    open spec fn view(&self) -> DisplayGroupV {
        DisplayGroupV { display: self.display@, features: self.features@, stats: self.stats@ }
    }
}

pub open spec fn dg_view(v: Seq<DisplayGroup>) -> Seq<DisplayGroupV> {
    v.map_values(|d: DisplayGroup| d@)
}

/// A feature key's display string: the feature names joined by " and ".
pub open spec fn display_of(fs: Seq<u32>) -> Seq<char> {
    join_spec(fs.map_values(|f: u32| feature_name_of(f)), " and "@)
}

/// Renders a feature key's display string.
fn display_string(fs: &Vec<u32>) -> (r: String)
    ensures
        r@ == display_of(fs@),
{
    let mut parts: Vec<String> = Vec::new();
    let ghost names = fs@.map_values(|f: u32| feature_name_of(f));
    let mut i: usize = 0;
    proof {
        assert(parts.deep_view() =~= names.take(0));
    }
    while i < fs.len()
        invariant
            i <= fs@.len(),
            names == fs@.map_values(|f: u32| feature_name_of(f)),
            names.len() == fs@.len(),
            parts.deep_view() == names.take(i as int),
            parts@.len() == i,
            forall|k: int| 0 <= k < i ==> parts@[k]@ == names[k],
        decreases fs.len() - i,
    {
        let ghost oldp = parts@;
        parts.push(feature_name(fs[i]));
        proof {
            assert(parts@.len() == i + 1);
            assert(parts.deep_view().len() == i + 1);
            assert forall|k: int| 0 <= k < i + 1 implies parts.deep_view()[k] == names.take(i + 1)[k] by {
                assert(parts.deep_view()[k] == parts@[k]@);
                if k < i as int {
                    assert(parts@[k] == oldp[k]);
                    assert(oldp[k]@ == names[k]);
                } else {
                    assert(parts@[k]@ == feature_name_of(fs@[k]));
                }
            }
            assert(parts.deep_view() =~= names.take(i + 1));
        }
        i = i + 1;
    }
    proof {
        assert(names.take(names.len() as int) =~= names);
    }
    join_strings(&parts, " and ")
}

/// The buckets of a table, each with its display string.
pub open spec fn display_groups_of(bs: Seq<BucketV>) -> Seq<DisplayGroupV> {
    bs.map_values(
        |b: BucketV|
            DisplayGroupV { display: display_of(b.features), features: b.features, stats: b.stats },
    )
}

fn copy_stats(v: &Vec<Stat>) -> (r: Vec<Stat>)
    ensures
        r@ == v@,
{
    let mut r: Vec<Stat> = Vec::new();
    let mut i: usize = 0;
    while i < v.len()
        invariant
            i <= v.len(),
            r@ == v@.take(i as int),
        decreases v.len() - i,
    {
        r.push(v[i]);
        proof {
            assert(v@.take(i + 1) =~= v@.take(i as int).push(v@[i as int]));
        }
        i = i + 1;
    }
    proof {
        assert(v@.take(v@.len() as int) =~= v@);
    }
    r
}

/// Derives the display groups of an aggregated table.
pub fn build_display_groups(agg: &Aggregator) -> (r: Vec<DisplayGroup>)
    ensures
        dg_view(r@) == display_groups_of(agg.table()),
{
    let mut r: Vec<DisplayGroup> = Vec::new();
    let mut i: usize = 0;
    proof {
        assert(dg_view(r@) =~= display_groups_of(agg.table().take(0)));
    }
    while i < agg.buckets.len()
        invariant
            i <= agg.buckets@.len(),
            agg.table().len() == agg.buckets@.len(),
            r@.len() == i,
            dg_view(r@) == display_groups_of(agg.table().take(i as int)),
        decreases agg.buckets.len() - i,
    {
        let b = &agg.buckets[i];
        let d = DisplayGroup {
            display: display_string(&b.features),
            features: copy_u32s(&b.features),
            stats: copy_stats(&b.stats),
        };
        let ghost dv = d@;
        let ghost oldr = r@;
        r.push(d);
        proof {
            assert(r@.len() == i + 1);
            assert(agg.table()[i as int] == agg.buckets@[i as int]@);
            assert(dv == display_groups_of(agg.table())[i as int]);
            assert forall|k: int| 0 <= k < i + 1 implies dg_view(r@)[k] == display_groups_of(
                agg.table().take(i + 1),
            )[k] by {
                assert(dg_view(r@)[k] == r@[k]@);
                assert(agg.table().take(i + 1)[k] == agg.table()[k]);
                if k < i as int {
                    assert(r@[k] == oldr[k]);
                    assert(dg_view(oldr)[k] == oldr[k]@);
                    assert(agg.table().take(i as int)[k] == agg.table()[k]);
                }
            }
            assert(dg_view(r@) =~= display_groups_of(agg.table().take(i + 1)));
        }
        i = i + 1;
    }
    proof {
        assert(agg.table().take(agg.table().len() as int) =~= agg.table());
    }
    r
}

/// Whether one group survives the filters: dropped when its single feature is
/// baseline and the baseline override is off, dropped when an inclusion list
/// is given and misses its display string, dropped when the exclusion list
/// names its display string.
pub open spec fn keep_group(dg: DisplayGroupV, o: OptionsV) -> bool {
    &&& !(!o.all && dg.features.len() == 1 && baseline_name(dg.display))
    &&& (o.cpuid.len() == 0 || o.cpuid.contains(dg.display))
    &&& !o.ignore_cpuid.contains(dg.display)
}

fn contains_string(v: &Vec<String>, s: &String) -> (r: bool)
    ensures
        r == v.deep_view().contains(s@),
{
    let mut i: usize = 0;
    while i < v.len()
        invariant
            i <= v.len(),
            v.deep_view().len() == v@.len(),
            forall|k: int| 0 <= k < i ==> v.deep_view()[k] != s@,
        decreases v.len() - i,
    {
        if v[i] == *s {
            proof {
                assert(v.deep_view()[i as int] == s@);
            }
            return true;
        }
        i = i + 1;
    }
    false
}

fn keep_group_exec(d: &DisplayGroup, opts: &Options) -> (r: bool)
    ensures
        r == keep_group(d@, opts@),
{
    if !opts.all && d.features.len() == 1 && is_baseline(&d.display) {
        return false;
    }
    if opts.cpuid.len() > 0 && !contains_string(&opts.cpuid, &d.display) {
        return false;
    }
    if contains_string(&opts.ignore_cpuid, &d.display) {
        return false;
    }
    true
}

/// Applies the filters, keeping the groups' order.
pub fn filter_groups(dgs: Vec<DisplayGroup>, opts: &Options) -> (r: Vec<DisplayGroup>)
    ensures
        dg_view(r@) == dg_view(dgs@).filter(|dg: DisplayGroupV| keep_group(dg, opts@)),
{
    let ghost orig = dg_view(dgs@);
    let mut rest = dgs;
    let n = rest.len();
    let mut out: Vec<DisplayGroup> = Vec::new();
    let mut i: usize = 0;
    proof {
        reveal(Seq::filter);
        assert(orig.take(0) =~= Seq::<DisplayGroupV>::empty());
        assert(dg_view(rest@) =~= orig.skip(0));
    }
    while rest.len() > 0
        invariant
            n == orig.len(),
            i <= n,
            orig.len() - i == rest@.len(),
            dg_view(rest@) == orig.skip(i as int),
            dg_view(out@) == orig.take(i as int).filter(|dg: DisplayGroupV| keep_group(dg, opts@)),
        decreases rest.len(),
    {
        let ghost oldrest = rest@;
        let d = rest.remove(0);
        proof {
            reveal(Seq::filter);
            assert(dg_view(oldrest)[0] == oldrest[0]@);
            assert(d@ == orig[i as int]);
            assert forall|k: int| 0 <= k < rest@.len() implies dg_view(rest@)[k] == orig.skip(
                i + 1,
            )[k] by {
                assert(rest@[k] == oldrest[k + 1]);
                assert(dg_view(oldrest)[k + 1] == oldrest[k + 1]@);
                assert(dg_view(rest@)[k] == rest@[k]@);
            }
            assert(dg_view(rest@) =~= orig.skip(i + 1));
            assert(orig.take(i + 1).drop_last() =~= orig.take(i as int));
            assert(orig.take(i + 1).last() == orig[i as int]);
        }
        if keep_group_exec(&d, opts) {
            let ghost oldout = out@;
            out.push(d);
            proof {
                reveal(Seq::filter);
                let ghost fpre = orig.take(i as int).filter(|dg: DisplayGroupV| keep_group(dg, opts@));
                assert forall|k: int| 0 <= k < out@.len() implies dg_view(out@)[k] == fpre.push(
                    orig[i as int],
                )[k] by {
                    assert(dg_view(out@)[k] == out@[k]@);
                    if k < out@.len() - 1 {
                        assert(out@[k] == oldout[k]);
                        assert(dg_view(oldout)[k] == oldout[k]@);
                    }
                }
                assert(dg_view(out@) =~= fpre.push(orig[i as int]));
            }
        }
        i = i + 1;
    }
    proof {
        assert(orig.take(orig.len() as int) =~= orig);
    }
    out
}

/// Group order: display string first, the feature key itself as the tie
/// break, so that the order is total and the report deterministic.
pub open spec fn group_lt(a: DisplayGroupV, b: DisplayGroupV) -> bool {
    chars_lt(a.display, b.display) || (a.display == b.display && u32s_lt(a.features, b.features))
}

fn group_lt_exec(a: &DisplayGroup, b: &DisplayGroup) -> (r: bool)
    ensures
        r == group_lt(a@, b@),
{
    if str_lt(a.display.as_str(), b.display.as_str()) {
        true
    } else if str_lt(b.display.as_str(), a.display.as_str()) {
        false
    } else {
        proof {
            lemma_chars_lt_connected(a.display@, b.display@);
        }
        u32_vec_lt(&a.features, &b.features)
    }
}

/// Stable insertion of a group into a sorted prefix: it lands after every
/// element it is not strictly below.
pub open spec fn insert_group(s: Seq<DisplayGroupV>, x: DisplayGroupV) -> Seq<DisplayGroupV>
    decreases s.len(),
{
    if s.len() > 0 && group_lt(x, s.last()) {
        insert_group(s.drop_last(), x).push(s.last())
    } else {
        s.push(x)
    }
}

/// Insertion sort of the groups.
pub open spec fn sort_groups_spec(s: Seq<DisplayGroupV>) -> Seq<DisplayGroupV>
    decreases s.len(),
{
    if s.len() == 0 {
        Seq::empty()
    } else {
        insert_group(sort_groups_spec(s.drop_last()), s.last())
    }
}

pub proof fn lemma_insert_group_at(s: Seq<DisplayGroupV>, x: DisplayGroupV, j: int)
    requires
        0 <= j <= s.len(),
        forall|k: int| j <= k < s.len() ==> group_lt(x, #[trigger] s[k]),
        j > 0 ==> !group_lt(x, s[j - 1]),
    ensures
        insert_group(s, x) == s.take(j) + seq![x] + s.skip(j),
    decreases s.len(),
{
    if j == s.len() {
        assert(s.take(j) =~= s);
        assert(s.skip(j) =~= Seq::<DisplayGroupV>::empty());
        assert(s.take(j) + seq![x] + s.skip(j) =~= s.push(x));
    } else {
        assert(group_lt(x, s.last()));
        lemma_insert_group_at(s.drop_last(), x, j);
        assert(s.drop_last().take(j) =~= s.take(j));
        let lhs = (s.take(j) + seq![x] + s.drop_last().skip(j)).push(s.last());
        let rhs = s.take(j) + seq![x] + s.skip(j);
        assert(lhs =~= rhs);
    }
}

fn sort_groups(v: Vec<DisplayGroup>) -> (r: Vec<DisplayGroup>)
    ensures
        dg_view(r@) == sort_groups_spec(dg_view(v@)),
{
    let ghost orig = dg_view(v@);
    let mut rest = v;
    let n = rest.len();
    let mut out: Vec<DisplayGroup> = Vec::new();
    let mut i: usize = 0;
    proof {
        assert(dg_view(rest@) =~= orig.skip(0));
        assert(dg_view(out@) =~= sort_groups_spec(orig.take(0)));
    }
    while rest.len() > 0
        invariant
            n == orig.len(),
            i <= n,
            orig.len() - i == rest@.len(),
            dg_view(rest@) == orig.skip(i as int),
            dg_view(out@) == sort_groups_spec(orig.take(i as int)),
        decreases rest.len(),
    {
        let ghost oldrest = rest@;
        let x = rest.remove(0);
        proof {
            assert(dg_view(oldrest)[0] == oldrest[0]@);
            assert(x@ == orig[i as int]);
            assert forall|k: int| 0 <= k < rest@.len() implies dg_view(rest@)[k] == orig.skip(
                i + 1,
            )[k] by {
                assert(rest@[k] == oldrest[k + 1]);
                assert(dg_view(oldrest)[k + 1] == oldrest[k + 1]@);
                assert(dg_view(rest@)[k] == rest@[k]@);
            }
            assert(dg_view(rest@) =~= orig.skip(i + 1));
        }
        let ghost sorted = dg_view(out@);
        let mut j: usize = out.len();
        while j > 0 && group_lt_exec(&x, &out[j - 1])
            invariant
                j <= out@.len(),
                sorted == dg_view(out@),
                forall|k: int| j <= k < out@.len() ==> group_lt(x@, #[trigger] sorted[k]),
            decreases j,
        {
            proof {
                assert(sorted[j - 1] == out@[j - 1]@);
            }
            j = j - 1;
        }
        proof {
            lemma_insert_group_at(sorted, x@, j as int);
        }
        let ghost oldout = out@;
        out.insert(j, x);
        proof {
            assert forall|k: int| 0 <= k < out@.len() implies dg_view(out@)[k] == (sorted.take(
                j as int,
            ) + seq![orig[i as int]] + sorted.skip(j as int))[k] by {
                assert(dg_view(out@)[k] == out@[k]@);
                assert(out@ == oldout.insert(j as int, out@[j as int]));
                if k < j as int {
                    assert(out@[k] == oldout[k]);
                    assert(dg_view(oldout)[k] == oldout[k]@);
                } else if k > j as int {
                    assert(out@[k] == oldout[k - 1]);
                    assert(dg_view(oldout)[k - 1] == oldout[k - 1]@);
                }
            }
            assert(dg_view(out@) =~= sorted.take(j as int) + seq![orig[i as int]] + sorted.skip(
                j as int,
            ));
            assert(orig.take(i + 1).drop_last() =~= orig.take(i as int));
            assert(orig.take(i + 1).last() == orig[i as int]);
        }
        i = i + 1;
    }
    proof {
        assert(orig.take(orig.len() as int) =~= orig);
    }
    out
}

/// One report line in detail mode: texts and count for one opcode identity.
pub struct Row {
    pub instr: String,
    pub opcode: String,
    pub code: u32,
    pub count: u64,
}

pub ghost struct RowV {
    pub instr: Seq<char>,
    pub opcode: Seq<char>,
    pub code: u32,
    pub count: u64,
}

impl View for Row {
    type V = RowV;

    open spec fn view(&self) -> RowV {
        RowV { instr: self.instr@, opcode: self.opcode@, code: self.code, count: self.count }
    }
}

pub open spec fn rows_view(v: Seq<Row>) -> Seq<RowV> {
    v.map_values(|r: Row| r@)
}

/// The rows of one group's stats, with display text for each identity.
pub open spec fn rows_of(ss: Seq<Stat>) -> Seq<RowV> {
    ss.map_values(
        |s: Stat|
            RowV {
                instr: instr_text_of(s.code),
                opcode: opcode_text_of(s.code),
                code: s.code,
                count: s.count,
            },
    )
}

fn build_rows(ss: &Vec<Stat>) -> (r: Vec<Row>)
    ensures
        rows_view(r@) == rows_of(ss@),
{
    let mut r: Vec<Row> = Vec::new();
    let mut i: usize = 0;
    proof {
        assert(rows_view(r@) =~= rows_of(ss@.take(0)));
    }
    while i < ss.len()
        invariant
            i <= ss@.len(),
            r@.len() == i,
            rows_view(r@) == rows_of(ss@.take(i as int)),
        decreases ss.len() - i,
    {
        let s = ss[i];
        let ghost oldr = r@;
        r.push(
            Row {
                instr: instr_text(s.code),
                opcode: opcode_text(s.code),
                code: s.code,
                count: s.count,
            },
        );
        proof {
            assert(r@.len() == i + 1);
            assert(ss@.take(i + 1) =~= ss@.take(i as int).push(ss@[i as int]));
            assert forall|k: int| 0 <= k < i + 1 implies rows_view(r@)[k] == rows_of(
                ss@.take(i + 1),
            )[k] by {
                assert(rows_view(r@)[k] == r@[k]@);
                assert(ss@.take(i + 1)[k] == ss@[k]);
                if k < i as int {
                    assert(r@[k] == oldr[k]);
                    assert(rows_view(oldr)[k] == oldr[k]@);
                    assert(rows_of(ss@.take(i as int))[k] == rows_view(oldr)[k]);
                    assert(ss@.take(i as int)[k] == ss@[k]);
                }
            }
            assert(rows_view(r@) =~= rows_of(ss@.take(i + 1)));
        }
        i = i + 1;
    }
    proof {
        assert(ss@.take(ss@.len() as int) =~= ss@);
    }
    r
}

/// Row order: instruction text, then opcode-syntax text, then the opcode
/// identity itself, so that identical texts still order totally.
pub open spec fn row_lt(a: RowV, b: RowV) -> bool {
    chars_lt(a.instr, b.instr) || (a.instr == b.instr && (chars_lt(a.opcode, b.opcode) || (a.opcode
        == b.opcode && a.code < b.code)))
}

fn row_lt_exec(a: &Row, b: &Row) -> (r: bool)
    ensures
        r == row_lt(a@, b@),
{
    if str_lt(a.instr.as_str(), b.instr.as_str()) {
        return true;
    }
    if str_lt(b.instr.as_str(), a.instr.as_str()) {
        return false;
    }
    proof {
        lemma_chars_lt_connected(a.instr@, b.instr@);
    }
    if str_lt(a.opcode.as_str(), b.opcode.as_str()) {
        return true;
    }
    if str_lt(b.opcode.as_str(), a.opcode.as_str()) {
        return false;
    }
    proof {
        lemma_chars_lt_connected(a.opcode@, b.opcode@);
    }
    a.code < b.code
}

/// Stable insertion of a row into a sorted prefix.
pub open spec fn insert_row(s: Seq<RowV>, x: RowV) -> Seq<RowV>
    decreases s.len(),
{
    if s.len() > 0 && row_lt(x, s.last()) {
        insert_row(s.drop_last(), x).push(s.last())
    } else {
        s.push(x)
    }
}

/// Insertion sort of the rows.
pub open spec fn sort_rows_spec(s: Seq<RowV>) -> Seq<RowV>
    decreases s.len(),
{
    if s.len() == 0 {
        Seq::empty()
    } else {
        insert_row(sort_rows_spec(s.drop_last()), s.last())
    }
}

pub proof fn lemma_insert_row_at(s: Seq<RowV>, x: RowV, j: int)
    requires
        0 <= j <= s.len(),
        forall|k: int| j <= k < s.len() ==> row_lt(x, #[trigger] s[k]),
        j > 0 ==> !row_lt(x, s[j - 1]),
    ensures
        insert_row(s, x) == s.take(j) + seq![x] + s.skip(j),
    decreases s.len(),
{
    if j == s.len() {
        assert(s.take(j) =~= s);
        assert(s.skip(j) =~= Seq::<RowV>::empty());
        assert(s.take(j) + seq![x] + s.skip(j) =~= s.push(x));
    } else {
        assert(row_lt(x, s.last()));
        lemma_insert_row_at(s.drop_last(), x, j);
        assert(s.drop_last().take(j) =~= s.take(j));
        let lhs = (s.take(j) + seq![x] + s.drop_last().skip(j)).push(s.last());
        let rhs = s.take(j) + seq![x] + s.skip(j);
        assert(lhs =~= rhs);
    }
}

fn sort_rows(v: Vec<Row>) -> (r: Vec<Row>)
    ensures
        rows_view(r@) == sort_rows_spec(rows_view(v@)),
{
    let ghost orig = rows_view(v@);
    let mut rest = v;
    let n = rest.len();
    let mut out: Vec<Row> = Vec::new();
    let mut i: usize = 0;
    proof {
        assert(rows_view(rest@) =~= orig.skip(0));
        assert(rows_view(out@) =~= sort_rows_spec(orig.take(0)));
    }
    while rest.len() > 0
        invariant
            n == orig.len(),
            i <= n,
            orig.len() - i == rest@.len(),
            rows_view(rest@) == orig.skip(i as int),
            rows_view(out@) == sort_rows_spec(orig.take(i as int)),
        decreases rest.len(),
    {
        let ghost oldrest = rest@;
        let x = rest.remove(0);
        proof {
            assert(rows_view(oldrest)[0] == oldrest[0]@);
            assert(x@ == orig[i as int]);
            assert forall|k: int| 0 <= k < rest@.len() implies rows_view(rest@)[k] == orig.skip(
                i + 1,
            )[k] by {
                assert(rest@[k] == oldrest[k + 1]);
                assert(rows_view(oldrest)[k + 1] == oldrest[k + 1]@);
                assert(rows_view(rest@)[k] == rest@[k]@);
            }
            assert(rows_view(rest@) =~= orig.skip(i + 1));
        }
        let ghost sorted = rows_view(out@);
        let mut j: usize = out.len();
        while j > 0 && row_lt_exec(&x, &out[j - 1])
            invariant
                j <= out@.len(),
                sorted == rows_view(out@),
                forall|k: int| j <= k < out@.len() ==> row_lt(x@, #[trigger] sorted[k]),
            decreases j,
        {
            proof {
                assert(sorted[j - 1] == out@[j - 1]@);
            }
            j = j - 1;
        }
        proof {
            lemma_insert_row_at(sorted, x@, j as int);
        }
        let ghost oldout = out@;
        out.insert(j, x);
        proof {
            assert forall|k: int| 0 <= k < out@.len() implies rows_view(out@)[k] == (sorted.take(
                j as int,
            ) + seq![orig[i as int]] + sorted.skip(j as int))[k] by {
                assert(rows_view(out@)[k] == out@[k]@);
                assert(out@ == oldout.insert(j as int, out@[j as int]));
                if k < j as int {
                    assert(out@[k] == oldout[k]);
                    assert(rows_view(oldout)[k] == oldout[k]@);
                } else if k > j as int {
                    assert(out@[k] == oldout[k - 1]);
                    assert(rows_view(oldout)[k - 1] == oldout[k - 1]@);
                }
            }
            assert(rows_view(out@) =~= sorted.take(j as int) + seq![orig[i as int]] + sorted.skip(
                j as int,
            ));
            assert(orig.take(i + 1).drop_last() =~= orig.take(i as int));
            assert(orig.take(i + 1).last() == orig[i as int]);
        }
        i = i + 1;
    }
    proof {
        assert(orig.take(orig.len() as int) =~= orig);
    }
    out
}

} // verus!

verus! {

/// The requested columns of one detail line, in the fixed column order:
/// percentage, raw count, opcode-syntax text, instruction text.
pub open spec fn cols_spec(row: RowV, o: OptionsV, total: int) -> Seq<Seq<char>> {
    let c0: Seq<Seq<char>> = if o.percent {
        seq![pct_str(row.count as int, total)]
    } else {
        Seq::empty()
    };
    let c1 = if o.count {
        c0.push(dec_str(row.count as int))
    } else {
        c0
    };
    let c2 = if o.opcode {
        c1.push(row.opcode)
    } else {
        c1
    };
    if o.instr {
        c2.push(row.instr)
    } else {
        c2
    }
}

/// One indented detail line: the columns joined by " | ".
pub open spec fn render_row_spec(row: RowV, o: OptionsV, total: int) -> Seq<char> {
    seq!['\t'] + join_spec(cols_spec(row, o, total), " | "@) + seq!['\n']
}

fn render_row(row: &Row, opts: &Options, total: u64) -> (r: String)
    ensures
        r@ == render_row_spec(row@, opts@, total as int),
{
    let mut parts: Vec<String> = Vec::new();
    let ghost c0: Seq<Seq<char>> = if opts@.percent {
        seq![pct_str(row@.count as int, total as int)]
    } else {
        Seq::empty()
    };
    if opts.percent {
        parts.push(pct_string(row.count, total));
    }
    proof {
        assert(parts.deep_view() =~= c0);
    }
    let ghost c1 = if opts@.count {
        c0.push(dec_str(row@.count as int))
    } else {
        c0
    };
    let ghost p0 = parts@;
    if opts.count {
        parts.push(dec_u64(row.count));
    }
    proof {
        assert forall|k: int| 0 <= k < parts@.len() implies parts.deep_view()[k] == c1[k] by {
            assert(parts.deep_view()[k] == parts@[k]@);
            if k < p0.len() {
                assert(parts@[k] == p0[k]);
            }
        }
        assert(parts.deep_view() =~= c1);
    }
    let ghost c2 = if opts@.opcode {
        c1.push(row@.opcode)
    } else {
        c1
    };
    let ghost p1 = parts@;
    if opts.opcode {
        parts.push(row.opcode.clone());
    }
    proof {
        assert forall|k: int| 0 <= k < parts@.len() implies parts.deep_view()[k] == c2[k] by {
            assert(parts.deep_view()[k] == parts@[k]@);
            if k < p1.len() {
                assert(parts@[k] == p1[k]);
            }
        }
        assert(parts.deep_view() =~= c2);
    }
    let ghost c3 = if opts@.instr {
        c2.push(row@.instr)
    } else {
        c2
    };
    let ghost p2 = parts@;
    if opts.instr {
        parts.push(row.instr.clone());
    }
    proof {
        assert forall|k: int| 0 <= k < parts@.len() implies parts.deep_view()[k] == c3[k] by {
            assert(parts.deep_view()[k] == parts@[k]@);
            if k < p2.len() {
                assert(parts@[k] == p2[k]);
            }
        }
        assert(parts.deep_view() =~= c3);
    }
    let cols = join_strings(&parts, " | ");
    let mut s = String::new();
    proof {
        reveal_strlit("\t");
        reveal_strlit("\n");
    }
    s.append("\t");
    s.append(cols.as_str());
    s.append("\n");
    proof {
        assert(s@ =~= render_row_spec(row@, opts@, total as int));
    }
    s
}

/// The detail lines of one group, in order.
pub open spec fn render_rows_spec(rows: Seq<RowV>, o: OptionsV, total: int) -> Seq<char>
    decreases rows.len(),
{
    if rows.len() == 0 {
        Seq::empty()
    } else {
        render_rows_spec(rows.drop_last(), o, total) + render_row_spec(rows.last(), o, total)
    }
}

/// One group's output: the header line, then, in detail mode, its sorted
/// detail lines.
pub open spec fn render_group_spec(dg: DisplayGroupV, o: OptionsV, total: int) -> Seq<char> {
    let header = dg.display + seq!['\n'];
    if o.instr || o.opcode {
        header + render_rows_spec(sort_rows_spec(rows_of(dg.stats)), o, total)
    } else {
        header
    }
}

fn render_group(dg: &DisplayGroup, opts: &Options, total: u64) -> (r: String)
    ensures
        r@ == render_group_spec(dg@, opts@, total as int),
{
    let mut s = dg.display.clone();
    proof {
        reveal_strlit("\n");
    }
    s.append("\n");
    if opts.instr || opts.opcode {
        let rows = sort_rows(build_rows(&dg.stats));
        let ghost rv = rows_view(rows@);
        proof {
            assert(rv == sort_rows_spec(rows_of(dg@.stats)));
            assert(rv.take(0) =~= Seq::<RowV>::empty());
        }
        let mut i: usize = 0;
        while i < rows.len()
            invariant
                i <= rows@.len(),
                rv == rows_view(rows@),
                rv.len() == rows@.len(),
                s@ == dg@.display + seq!['\n'] + render_rows_spec(rv.take(i as int), opts@, total as int),
            decreases rows.len() - i,
        {
            let line = render_row(&rows[i], opts, total);
            s.append(line.as_str());
            proof {
                assert(rows_view(rows@)[i as int] == rows@[i as int]@);
                assert(rv.take(i + 1).drop_last() =~= rv.take(i as int));
                assert(rv.take(i + 1).last() == rv[i as int]);
                assert(s@ =~= dg@.display + seq!['\n'] + render_rows_spec(rv.take(i + 1), opts@, total as int));
            }
            i = i + 1;
        }
        proof {
            assert(rv.take(rv.len() as int) =~= rv);
        }
    }
    s
}

/// The whole report's text: each surviving group in order.
pub open spec fn render_groups_spec(dgs: Seq<DisplayGroupV>, o: OptionsV, total: int) -> Seq<char>
    decreases dgs.len(),
{
    if dgs.len() == 0 {
        Seq::empty()
    } else {
        render_groups_spec(dgs.drop_last(), o, total) + render_group_spec(dgs.last(), o, total)
    }
}

/// The report of an aggregated table: display strings derived, filters
/// applied, groups and rows ordered, columns rendered.
pub open spec fn table_report_spec(bs: Seq<BucketV>, o: OptionsV, total: int) -> Seq<char> {
    render_groups_spec(
        sort_groups_spec(
            display_groups_of(bs).filter(|dg: DisplayGroupV| keep_group(dg, o)),
        ),
        o,
        total,
    )
}

/// Renders the report of an aggregated table.
pub fn report_table(agg: &Aggregator, opts: &Options) -> (r: String)
    ensures
        r@ == table_report_spec(agg.table(), opts@, agg.total as int),
{
    let groups = build_display_groups(agg);
    let kept = filter_groups(groups, opts);
    let sorted = sort_groups(kept);
    let ghost sv = dg_view(sorted@);
    let mut s = String::new();
    proof {
        assert(sv.take(0) =~= Seq::<DisplayGroupV>::empty());
    }
    let mut i: usize = 0;
    while i < sorted.len()
        invariant
            i <= sorted@.len(),
            sv == dg_view(sorted@),
            sv.len() == sorted@.len(),
            s@ == render_groups_spec(sv.take(i as int), opts@, agg.total as int),
        decreases sorted.len() - i,
    {
        let part = render_group(&sorted[i], opts, agg.total);
        s.append(part.as_str());
        proof {
            assert(dg_view(sorted@)[i as int] == sorted@[i as int]@);
            assert(sv.take(i + 1).drop_last() =~= sv.take(i as int));
            assert(sv.take(i + 1).last() == sv[i as int]);
            assert(s@ =~= render_groups_spec(sv.take(i + 1), opts@, agg.total as int));
        }
        i = i + 1;
    }
    proof {
        assert(sv.take(sv.len() as int) =~= sv);
    }
    s
}

/// The report's full text for one record stream and configuration: what two
/// runs on the same inputs both produce.
pub open spec fn report_spec(rs: Seq<RecordV>, o: OptionsV) -> Seq<char> {
    table_report_spec(agg_fold(rs, o.instr || o.opcode), o, rs.len() as int)
}

/// One run of the engine: aggregates the records in the mode the options
/// imply and renders the report.
pub fn report(records: &Vec<Record>, opts: &Options) -> (r: String)
    requires
        stream_weight(records.deep_view()) <= u64::MAX,
    ensures
        r@ == report_spec(records.deep_view(), opts@),
{
    let detail = opts.instr || opts.opcode;
    let agg = aggregate(records, detail);
    proof {
        assert(records.deep_view().len() == records@.len());
    }
    report_table(&agg, opts)
}

} // verus!

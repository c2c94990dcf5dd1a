//! Parsing of the user's comma-separated group filter lists, and the fixed
//! baseline feature set that default reports leave out.

use vstd::prelude::*;
use vstd::string::*;

verus! {

/// Whitespace, as the filter-list parser strips it from around each entry.
pub open spec fn is_space_char(c: char) -> bool {
    let u = c as u32;
    u == 0x20 || u == 0x09 || u == 0x0A || u == 0x0D || u == 0x0B || u == 0x0C || u == 0x85
        || u == 0xA0 || u == 0x1680 || (0x2000 <= u && u <= 0x200A) || u == 0x2028 || u == 0x2029
        || u == 0x202F || u == 0x205F || u == 0x3000
}

fn is_space(c: char) -> (r: bool)
    ensures
        r == is_space_char(c),
{
    let u = c as u32;
    u == 0x20 || u == 0x09 || u == 0x0A || u == 0x0D || u == 0x0B || u == 0x0C || u == 0x85
        || u == 0xA0 || u == 0x1680 || (0x2000 <= u && u <= 0x200A) || u == 0x2028 || u == 0x2029
        || u == 0x202F || u == 0x205F || u == 0x3000
}

/// The text with leading whitespace removed.
pub open spec fn trim_start_spec(t: Seq<char>) -> Seq<char>
    decreases t.len(),
{
    if t.len() > 0 && is_space_char(t[0]) {
        trim_start_spec(t.drop_first())
    } else {
        t
    }
}

/// The text with trailing whitespace removed.
pub open spec fn trim_end_spec(t: Seq<char>) -> Seq<char>
    decreases t.len(),
{
    if t.len() > 0 && is_space_char(t.last()) {
        trim_end_spec(t.drop_last())
    } else {
        t
    }
}

/// The text with whitespace removed from both ends.
pub open spec fn trim_spec(t: Seq<char>) -> Seq<char> {
    trim_end_spec(trim_start_spec(t))
}

proof fn lemma_trim_start_skip(t: Seq<char>, i: int)
    requires
        0 <= i <= t.len(),
        forall|k: int| 0 <= k < i ==> is_space_char(t[k]),
    ensures
        trim_start_spec(t) == trim_start_spec(t.skip(i)),
    decreases i,
{
    if i > 0 {
        assert(t.drop_first() =~= t.skip(1));
        lemma_trim_start_skip(t.skip(1), i - 1);
        assert(t.skip(1).skip(i - 1) =~= t.skip(i));
    } else {
        assert(t.skip(0) =~= t);
    }
}

proof fn lemma_trim_end_take(u: Seq<char>, j: int)
    requires
        0 <= j <= u.len(),
        forall|k: int| j <= k < u.len() ==> is_space_char(u[k]),
    ensures
        trim_end_spec(u) == trim_end_spec(u.take(j)),
    decreases u.len() - j,
{
    if j < u.len() {
        assert(u.drop_last() =~= u.take(u.len() - 1));
        lemma_trim_end_take(u.take(u.len() - 1), j);
        assert(u.take(u.len() - 1).take(j) =~= u.take(j));
    } else {
        assert(u.take(u.len() as int) =~= u);
    }
}

/// Strips whitespace from both ends of one filter entry.
pub fn trim(t: &str) -> (r: String)
    ensures
        r@ == trim_spec(t@),
{
    let len = t.unicode_len();
    let mut lo: usize = 0;
    while lo < len && is_space(t.get_char(lo))
        invariant
            lo <= len,
            len == t@.len(),
            forall|k: int| 0 <= k < lo ==> is_space_char(t@[k]),
        decreases len - lo,
    {
        lo = lo + 1;
    }
    proof {
        lemma_trim_start_skip(t@, lo as int);
        if lo < len {
            assert(trim_start_spec(t@.skip(lo as int)) == t@.skip(lo as int));
        } else {
            assert(t@.skip(lo as int) =~= Seq::<char>::empty());
        }
    }
    let ghost u = t@.skip(lo as int);
    let mut hi: usize = len;
    while hi > lo && is_space(t.get_char(hi - 1))
        invariant
            lo <= hi <= len,
            len == t@.len(),
            forall|k: int| hi <= k < len ==> is_space_char(t@[k]),
        decreases hi,
    {
        hi = hi - 1;
    }
    proof {
        assert(forall|k: int| hi - lo <= k < u.len() ==> is_space_char(u[k]));
        lemma_trim_end_take(u, hi - lo);
        if hi > lo {
            assert(!is_space_char(u[hi - lo - 1]));
            assert(trim_end_spec(u.take(hi - lo)) == u.take(hi - lo));
        } else {
            assert(u.take(0) =~= Seq::<char>::empty());
        }
        assert(u.take(hi - lo) =~= t@.subrange(lo as int, hi as int));
    }
    let piece = t.substring_char(lo, hi);
    piece.to_owned()
}

/// The text split at every comma; splitting empty text gives one empty entry.
pub open spec fn split_commas(s: Seq<char>) -> Seq<Seq<char>>
    decreases s.len(),
{
    if s.len() == 0 {
        seq![Seq::empty()]
    } else {
        let rest = split_commas(s.drop_last());
        if s.last() == ',' {
            rest.push(Seq::empty())
        } else {
            rest.update(rest.len() - 1, rest.last().push(s.last()))
        }
    }
}

/// Splits the text at commas.
pub fn split_commas_exec(s: &str) -> (r: Vec<String>)
    ensures
        r.deep_view() == split_commas(s@),
{
    let len = s.unicode_len();
    let mut out: Vec<String> = Vec::new();
    let mut start: usize = 0;
    let mut i: usize = 0;
    proof {
        assert(s@.take(0) =~= Seq::<char>::empty());
        assert(s@.subrange(0, 0) =~= Seq::<char>::empty());
    }
    while i < len
        invariant
            start <= i <= len,
            len == s@.len(),
            split_commas(s@.take(i as int)) == out.deep_view().push(
                s@.subrange(start as int, i as int),
            ),
        decreases len - i,
    {
        let ghost pre = s@.take(i as int);
        proof {
            assert(s@.take(i + 1).drop_last() =~= pre);
            assert(s@.take(i + 1).last() == s@[i as int]);
        }
        if s.get_char(i) == ',' {
            let piece = s.substring_char(start, i);
            out.push(piece.to_owned());
            start = i + 1;
            proof {
                assert(s@.subrange(start as int, start as int) =~= Seq::<char>::empty());
                assert(split_commas(s@.take(i + 1)) =~= out.deep_view().push(
                    s@.subrange(start as int, i + 1),
                ));
            }
        } else {
            proof {
                let prev = out.deep_view().push(s@.subrange(start as int, i as int));
                assert(prev.last() == s@.subrange(start as int, i as int));
                assert(prev.update(prev.len() - 1, prev.last().push(s@[i as int]))
                    =~= out.deep_view().push(s@.subrange(start as int, i as int).push(s@[i as int])));
                assert(s@.subrange(start as int, i as int).push(s@[i as int]) =~= s@.subrange(
                    start as int,
                    i + 1,
                ));
            }
        }
        i = i + 1;
    }
    let piece = s.substring_char(start, len);
    out.push(piece.to_owned());
    proof {
        assert(s@.take(len as int) =~= s@);
        assert(out.deep_view() =~= split_commas(s@));
    }
    out
}

/// The entries of a comma-separated filter list: split at commas, each entry
/// trimmed, empty entries dropped.
pub open spec fn filter_tokens(s: Seq<char>) -> Seq<Seq<char>> {
    split_commas(s).map_values(|t: Seq<char>| trim_spec(t)).filter(|t: Seq<char>| t.len() > 0)
}

/// Parses one comma-separated filter list as given on the command line.
pub fn parse_filter_list(s: &str) -> (r: Vec<String>)
    ensures
        r.deep_view() == filter_tokens(s@),
{
    let raw = split_commas_exec(s);
    let mut out: Vec<String> = Vec::new();
    let mut i: usize = 0;
    let ghost trimmed = raw.deep_view().map_values(|t: Seq<char>| trim_spec(t));
    proof {
        reveal(Seq::filter);
        assert(trimmed.take(0) =~= Seq::<Seq<char>>::empty());
    }
    while i < raw.len()
        invariant
            i <= raw.len(),
            raw.deep_view().len() == raw.len(),
            trimmed == raw.deep_view().map_values(|t: Seq<char>| trim_spec(t)),
            out.deep_view() == trimmed.take(i as int).filter(|t: Seq<char>| t.len() > 0),
        decreases raw.len() - i,
    {
        let entry = trim(raw[i].as_str());
        proof {
            reveal(Seq::filter);
            assert(trimmed.take(i + 1).drop_last() =~= trimmed.take(i as int));
            assert(trimmed.take(i + 1).last() == trim_spec(raw.deep_view()[i as int]));
        }
        proof {
            assert(entry@ == trim_spec(raw.deep_view()[i as int]));
        }
        if !entry.as_str().is_empty() {
            out.push(entry);
            proof {
                reveal(Seq::filter);
                assert(trimmed.take(i + 1).filter(|t: Seq<char>| t.len() > 0)
                    == trimmed.take(i as int).filter(|t: Seq<char>| t.len() > 0).push(
                    trimmed.take(i + 1).last(),
                ));
                assert(out.deep_view() =~= trimmed.take(i as int).filter(
                    |t: Seq<char>| t.len() > 0,
                ).push(trim_spec(raw.deep_view()[i as int])));
            }
        } else {
            proof {
                reveal(Seq::filter);
                assert(trimmed.take(i + 1).filter(|t: Seq<char>| t.len() > 0)
                    == trimmed.take(i as int).filter(|t: Seq<char>| t.len() > 0));
            }
        }
        i = i + 1;
    }
    proof {
        assert(trimmed.take(raw.deep_view().len() as int) =~= trimmed);
    }
    out
}

/// A feature name in the fixed baseline set: features that every processor
/// of the targeted family already has, left out of default reports as
/// uninformative.
pub open spec fn baseline_name(s: Seq<char>) -> bool {
    ||| s == "INTEL8086"@
    ||| s == "INTEL8086_ONLY"@
    ||| s == "INTEL186"@
    ||| s == "INTEL286"@
    ||| s == "INTEL286_ONLY"@
    ||| s == "INTEL386"@
    ||| s == "INTEL386_ONLY"@
    ||| s == "INTEL386_A0_ONLY"@
    ||| s == "INTEL486"@
    ||| s == "INTEL486_A_ONLY"@
    ||| s == "X64"@
    ||| s == "CPUID"@
    ||| s == "FPU"@
    ||| s == "FPU287"@
    ||| s == "FPU287XL_ONLY"@
    ||| s == "FPU387"@
    ||| s == "FPU387SL_ONLY"@
    ||| s == "MULTIBYTENOP"@
    ||| s == "PAUSE"@
    ||| s == "RDPMC"@
    ||| s == "SMM"@
}

/// Decides whether a feature name lies in the fixed baseline set.
pub fn is_baseline(name: &String) -> (r: bool)
    ensures
        r == baseline_name(name@),
{
    *name == String::from_str("INTEL8086") || *name == String::from_str("INTEL8086_ONLY")
        || *name == String::from_str("INTEL186") || *name == String::from_str("INTEL286")
        || *name == String::from_str("INTEL286_ONLY") || *name == String::from_str("INTEL386")
        || *name == String::from_str("INTEL386_ONLY") || *name == String::from_str(
        "INTEL386_A0_ONLY",
    ) || *name == String::from_str("INTEL486") || *name == String::from_str("INTEL486_A_ONLY")
        || *name == String::from_str("X64") || *name == String::from_str("CPUID")
        || *name == String::from_str("FPU") || *name == String::from_str("FPU287")
        || *name == String::from_str("FPU287XL_ONLY") || *name == String::from_str("FPU387")
        || *name == String::from_str("FPU387SL_ONLY") || *name == String::from_str("MULTIBYTENOP")
        || *name == String::from_str("PAUSE") || *name == String::from_str("RDPMC")
        || *name == String::from_str("SMM")
}

} // verus!

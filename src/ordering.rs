use vstd::prelude::*;

use crate::part::PartInfo;

verus! {

broadcast use {vstd::seq_lib::group_seq_lib_default, vstd::seq_lib::group_to_multiset_ensures};

/// A catalog ordered by destination offset.
#[derive(Debug)]
pub struct OrderedPartInfos(pub Vec<PartInfo>);

/// Summary of how far the ordered catalog covers the stream without a gap.
#[derive(Clone, Copy, Debug, PartialEq, Eq, Structural)]
pub struct ContiguityReport {
    /// The entry with the lowest destination offset.
    pub first_part: PartInfo,
    /// The entry with the highest destination offset.
    pub last_part: PartInfo,
    /// Index of the last entry of the unbroken run that begins at the first entry.
    pub last_contiguous_index: usize,
    /// The entry at `last_contiguous_index`.
    pub last_contiguous: PartInfo,
    /// One past the last byte that the unbroken run covers.
    pub last_contiguous_offset: u64,
    /// How far the last entry starts beyond the end of the unbroken run, or zero
    /// when it does not start beyond it.
    pub discontinuity_len: u64,
}

/// Holds of an entry whose destination offset is `k`.
pub open spec fn has_out_offset(k: u32) -> spec_fn(PartInfo) -> bool {
    |p: PartInfo| p.out_offset == k
}

/// The entries of `s` whose destination offset is `k`, in their order in `s`.
pub open spec fn with_out_offset(s: Seq<PartInfo>, k: u32) -> Seq<PartInfo> {
    s.filter(has_out_offset(k))
}

/// Entries appear in ascending order of destination offset.
pub open spec fn sorted_by_out_offset(s: Seq<PartInfo>) -> bool {
    forall|i: int, j: int| 0 <= i < j < s.len() ==> s[i].out_offset <= s[j].out_offset
}

/// `out` holds the entries of `input` ordered by destination offset, each entry
/// as often as in `input`, and entries that share a destination offset in the
/// order they had in `input`.
pub open spec fn stable_sort_of(out: Seq<PartInfo>, input: Seq<PartInfo>) -> bool {
    &&& sorted_by_out_offset(out)
    &&& out.to_multiset() == input.to_multiset()
    &&& forall|k: u32| #[trigger] with_out_offset(out, k) == with_out_offset(input, k)
}

/// Entry `j` starts exactly where entry `j - 1` ends.
pub open spec fn joins_previous(s: Seq<PartInfo>, j: int) -> bool {
    s[j].out_offset == s[j - 1].out_end()
}

/// Entry `i` ends the unbroken run that begins at the first entry of `s`.
pub open spec fn is_contiguous_run_end(s: Seq<PartInfo>, i: int) -> bool {
    &&& 0 <= i < s.len()
    &&& forall|j: int| 0 < j <= i ==> #[trigger] joins_previous(s, j)
    &&& i + 1 < s.len() ==> !joins_previous(s, i + 1)
}

/// `r` is the contiguity summary of `s`: none for fewer than two entries.
pub open spec fn reports_contiguity(s: Seq<PartInfo>, r: Option<ContiguityReport>) -> bool {
    if s.len() < 2 {
        r is None
    } else {
        r matches Some(rep) && {
            let i = rep.last_contiguous_index as int;
            let last = s[s.len() - 1];
            &&& rep.first_part == s[0]
            &&& rep.last_part == last
            &&& is_contiguous_run_end(s, i)
            &&& rep.last_contiguous == s[i]
            &&& rep.last_contiguous_offset == s[i].out_end()
            &&& rep.discontinuity_len == if last.out_offset > s[i].out_end() {
                last.out_offset - s[i].out_end()
            } else {
                0
            }
        }
    }
}

/// Inserting `x` after every entry with a destination offset no greater than its
/// own, and before every greater one, keeps the entries grouped by destination
/// offset in order.
proof fn lemma_insert_keeps_groups(s: Seq<PartInfo>, p: int, x: PartInfo, k: u32)
    requires
        0 <= p <= s.len(),
        forall|j: int| p <= j < s.len() ==> s[j].out_offset > x.out_offset,
    ensures
        with_out_offset(s.insert(p, x), k) == with_out_offset(s.push(x), k),
{
    let a = s.subrange(0, p);
    let b = s.subrange(p, s.len() as int);
    let pred = has_out_offset(k);
    assert(s =~= a + b);
    assert(s.insert(p, x) =~= a + (seq![x] + b));
    assert(s.push(x) =~= a + (b + seq![x]));
    if k == x.out_offset && b.filter(pred).len() > 0 {
        let y = b.filter(pred)[0];
        assert(pred(y));
        assert(b.filter(pred).contains(y));
        b.lemma_filter_contains_rev(pred, y);
    }
    if k != x.out_offset {
        let e = Seq::<PartInfo>::empty();
        assert(seq![x] =~= e.push(x));
        e.lemma_filter_push(x, pred);
        assert(e.filter(pred) =~= e);
        assert(seq![x].filter(pred) =~= e);
    } else {
        assert(b.filter(pred) =~= Seq::<PartInfo>::empty());
    }
    assert(seq![x] =~= Seq::<PartInfo>::empty().push(x));
    Seq::<PartInfo>::empty().lemma_filter_push(x, pred);
    assert(Seq::<PartInfo>::empty().filter(pred) =~= Seq::<PartInfo>::empty());
}

/// Orders a catalog by destination offset; entries with equal destination
/// offsets keep their discovery order.
pub fn sort_by_out_offset(info: &Vec<PartInfo>) -> (r: Vec<PartInfo>)
    ensures
        stable_sort_of(r@, info@),
{
    let mut out: Vec<PartInfo> = Vec::new();
    let mut i: usize = 0;
    proof {
        assert(info@.subrange(0, 0) =~= out@);
    }
    while i < info.len()
        invariant
            i <= info.len(),
            sorted_by_out_offset(out@),
            out@.to_multiset() == info@.subrange(0, i as int).to_multiset(),
            forall|k: u32| #[trigger]
                with_out_offset(out@, k) == with_out_offset(info@.subrange(0, i as int), k),
        decreases info.len() - i,
    {
        let x = info[i];
        let mut p: usize = out.len();
        while p > 0 && out[p - 1].out_offset > x.out_offset
            invariant
                p <= out.len(),
                forall|j: int| p <= j < out.len() ==> out@[j].out_offset > x.out_offset,
            decreases p,
        {
            p = p - 1;
        }
        let ghost before = out@;
        out.insert(p, x);
        proof {
            let prefix = info@.subrange(0, i as int);
            assert(info@.subrange(0, i + 1) =~= prefix.push(x));
            assert forall|k: u32| #[trigger]
                with_out_offset(out@, k) == with_out_offset(info@.subrange(0, i + 1), k) by {
                lemma_insert_keeps_groups(before, p as int, x, k);
                before.lemma_filter_push(x, has_out_offset(k));
                prefix.lemma_filter_push(x, has_out_offset(k));
                assert(with_out_offset(before, k) == with_out_offset(prefix, k));
            }
            assert forall|a: int, b: int| 0 <= a < b < out@.len() implies out@[a].out_offset
                <= out@[b].out_offset by {
                if p > 0 {
                    assert(before[p - 1].out_offset <= x.out_offset);
                }
                if a < p as int && b > p as int {
                    assert(before[a].out_offset <= before[b - 1].out_offset);
                }
            }
        }
        i = i + 1;
    }
    proof {
        assert(info@.subrange(0, info@.len() as int) =~= info@);
    }
    out
}

/// Summarises how far an ordered catalog covers the stream without a gap,
/// starting from its first entry. Fewer than two entries give no summary.
pub fn contiguity_report(info: &Vec<PartInfo>) -> (r: Option<ContiguityReport>)
    ensures
        reports_contiguity(info@, r),
{
    let len = info.len();
    if len < 2 {
        return None;
    }
    let mut i: usize = 0;
    while i + 1 < len && info[i + 1].out_offset as u64 == info[i].out_offset as u64
        + info[i].part_size as u64
        invariant
            len == info@.len(),
            i < len,
            forall|j: int| 0 < j <= i ==> #[trigger] joins_previous(info@, j),
        decreases len - i,
    {
        i = i + 1;
    }
    let last_contiguous = info[i];
    let last_part = info[len - 1];
    let last_contiguous_offset = last_contiguous.out_offset as u64 + last_contiguous.part_size as u64;
    let discontinuity_len = if last_part.out_offset as u64 > last_contiguous_offset {
        last_part.out_offset as u64 - last_contiguous_offset
    } else {
        0
    };
    Some(
        ContiguityReport {
            first_part: info[0],
            last_part,
            last_contiguous_index: i,
            last_contiguous,
            last_contiguous_offset,
            discontinuity_len,
        },
    )
}

/// Orders a catalog by destination offset and summarises its contiguous prefix.
pub fn order_and_report_info(info: Vec<PartInfo>) -> (r: (OrderedPartInfos, Option<ContiguityReport>))
    ensures
        stable_sort_of(r.0.0@, info@),
        reports_contiguity(r.0.0@, r.1),
{
    let ordered = sort_by_out_offset(&info);
    let report = contiguity_report(&ordered);
    (OrderedPartInfos(ordered), report)
}

} // verus!

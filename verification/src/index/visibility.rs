//! Gated publish boundary: which committed events readers may see.

use std::collections::BTreeMap;
use vstd::prelude::*;

verus! {

broadcast use vstd::std_specs::btree::group_btree_axioms;

/// Sequence `x` lies in one of the half-open `ranges`.
pub open spec fn covered(ranges: Seq<(u64, u64)>, x: u64) -> bool {
    exists|i: int| 0 <= i < ranges.len() && (#[trigger] ranges[i]).0 <= x < ranges[i].1
}

/// Every range is non-empty, and ranges ascend with a gap between neighbours.
pub open spec fn normalized(ranges: Seq<(u64, u64)>) -> bool {
    &&& forall|i: int| 0 <= i < ranges.len() ==> (#[trigger] ranges[i]).0 < ranges[i].1
    &&& forall|i: int, j: int|
        0 <= i < j < ranges.len() ==> (#[trigger] ranges[i]).1 < (#[trigger] ranges[j]).0
}

/// Normal forms that cover the same sequences are equal.
pub proof fn law_normal_form_is_unique(a: Seq<(u64, u64)>, b: Seq<(u64, u64)>)
    requires
        normalized(a),
        normalized(b),
        forall|x: u64| covered(a, x) == covered(b, x),
    ensures
        a == b,
    decreases a.len(),
{
    if a.len() == 0 {
        if b.len() > 0 {
            assert(covered(b, b[0].0));
            assert(covered(a, b[0].0));
        }
        assert(a =~= b);
    } else if b.len() == 0 {
        assert(covered(a, a[0].0));
        assert(covered(b, a[0].0));
    } else {
        assert(covered(a, a[0].0));
        assert(covered(b, b[0].0));
        assert(covered(b, a[0].0));
        assert(covered(a, b[0].0));
        assert(a[0].0 == b[0].0);
        if a[0].1 < b[0].1 {
            assert(covered(b, a[0].1));
            assert(covered(a, a[0].1));
            assert(false);
        }
        if b[0].1 < a[0].1 {
            assert(covered(a, b[0].1));
            assert(covered(b, b[0].1));
            assert(false);
        }
        let ta = a.drop_first();
        let tb = b.drop_first();
        assert(normalized(ta));
        assert(normalized(tb));
        assert forall|x: u64| covered(ta, x) == covered(tb, x) by {
            if covered(ta, x) {
                let i = choose|i: int| 0 <= i < ta.len() && (#[trigger] ta[i]).0 <= x < ta[i].1;
                assert(a[i + 1].0 <= x < a[i + 1].1);
                assert(covered(a, x));
                let j = choose|j: int| 0 <= j < b.len() && (#[trigger] b[j]).0 <= x < b[j].1;
                assert(a[0].1 < a[i + 1].0);
                assert(j > 0);
                assert(tb[j - 1] == b[j]);
            }
            if covered(tb, x) {
                let i = choose|i: int| 0 <= i < tb.len() && (#[trigger] tb[i]).0 <= x < tb[i].1;
                assert(b[i + 1].0 <= x < b[i + 1].1);
                assert(covered(b, x));
                let j = choose|j: int| 0 <= j < a.len() && (#[trigger] a[j]).0 <= x < a[j].1;
                assert(b[0].1 < b[i + 1].0);
                assert(j > 0);
                assert(ta[j - 1] == a[j]);
            }
        }
        law_normal_form_is_unique(ta, tb);
        assert(a =~= seq![a[0]] + ta);
        assert(b =~= seq![b[0]] + tb);
    }
}

/// The normal form that covers what `ranges` covers and `[start, end)`.
pub open spec fn with_range(ranges: Seq<(u64, u64)>, start: u64, end: u64) -> Seq<(u64, u64)> {
    choose|r: Seq<(u64, u64)>| #[trigger] is_with_range(r, ranges, start, end)
}

/// `r` is in normal form and covers `ranges` together with `[start, end)`.
pub open spec fn is_with_range(
    r: Seq<(u64, u64)>,
    ranges: Seq<(u64, u64)>,
    start: u64,
    end: u64,
) -> bool {
    &&& normalized(r)
    &&& forall|x: u64| #[trigger] covered(r, x) == (covered(ranges, x) || start <= x < end)
}

/// A sequence that meets the description of `with_range` is it.
pub proof fn lemma_is_with_range(
    r: Seq<(u64, u64)>,
    ranges: Seq<(u64, u64)>,
    start: u64,
    end: u64,
)
    requires
        is_with_range(r, ranges, start, end),
    ensures
        r == with_range(ranges, start, end),
        is_with_range(with_range(ranges, start, end), ranges, start, end),
{
    let w = with_range(ranges, start, end);
    assert(is_with_range(w, ranges, start, end));
    assert forall|x: u64| covered(r, x) == covered(w, x) by {}
    law_normal_form_is_unique(r, w);
}

/// Add `[start, end)` to `ranges` and restore the normal form. An empty range
/// adds nothing.
pub fn insert_cancelled_range(ranges: &mut Vec<(u64, u64)>, start: u64, end: u64)
    requires
        normalized(old(ranges)@),
    ensures
        is_with_range(final(ranges)@, old(ranges)@, start, end),
        final(ranges)@ == with_range(old(ranges)@, start, end),
{
    if start >= end {
        proof {
            lemma_is_with_range(ranges@, ranges@, start, end);
        }
        return;
    }
    let ghost before = ranges@;
    let mut merged: Vec<(u64, u64)> = Vec::new();
    let mut lo: u64 = start;
    let mut hi: u64 = end;
    let mut placed: bool = false;
    let mut i: usize = 0;
    while i < ranges.len()
        invariant
            ranges@ == before,
            normalized(before),
            start < end,
            lo < hi,
            i <= before.len(),
            normalized(merged@),
            lo <= start && end <= hi,
            forall|x: u64|
                lo <= x < hi ==> (start <= x < end || covered(before.take(i as int), x)),
            forall|x: u64|
                #![trigger covered(merged@, x)]
                covered(merged@, x) || (!placed && lo <= x < hi) <==> (covered(
                    before.take(i as int),
                    x,
                ) || start <= x < end),
            !placed ==> forall|k: int|
                0 <= k < merged@.len() ==> (#[trigger] merged@[k]).1 < lo,
            placed && i < before.len() ==> forall|k: int|
                0 <= k < merged@.len() ==> (#[trigger] merged@[k]).1 < before[i as int].0,
            !placed ==> forall|k: int|
                0 <= k < merged@.len() ==> i < before.len() ==> (#[trigger] merged@[k]).1
                    < before[i as int].0,
        decreases before.len() - i,
    {
        let (a, b) = ranges[i];
        let ghost was = merged@;
        let ghost was_placed = placed;
        let ghost lo0 = lo;
        let ghost hi0 = hi;
        assert(before.take(i + 1) =~= before.take(i as int).push(before[i as int]));
        assert forall|x: u64|
            #![trigger covered(before.take(i + 1), x)]
            covered(before.take(i + 1), x) == (covered(before.take(i as int), x) || a <= x
                < b) by {
            lemma_covered_push(before.take(i as int), before[i as int], x);
        }
        if placed || b < lo {
            merged.push((a, b));
            proof {
                assert forall|x: u64|
                    #![trigger covered(merged@, x)]
                    covered(merged@, x) == (covered(was, x) || a <= x < b) by {
                    lemma_covered_push(was, (a, b), x);
                }
                assert forall|x: u64|
                    #![trigger covered(merged@, x)]
                    covered(merged@, x) || (!placed && lo <= x < hi) <==> (covered(
                        before.take(i + 1),
                        x,
                    ) || start <= x < end) by {
                    assert(covered(was, x) || (!placed && lo <= x < hi) <==> (covered(
                        before.take(i as int),
                        x,
                    ) || start <= x < end));
                }
            }
        } else if hi < a {
            merged.push((lo, hi));
            let ghost mid = merged@;
            merged.push((a, b));
            placed = true;
            proof {
                assert forall|x: u64|
                    #![trigger covered(merged@, x)]
                    covered(merged@, x) == (covered(was, x) || lo <= x < hi || a <= x < b) by {
                    lemma_covered_push(was, (lo, hi), x);
                    lemma_covered_push(mid, (a, b), x);
                }
                assert forall|x: u64|
                    #![trigger covered(merged@, x)]
                    covered(merged@, x) || (!placed && lo <= x < hi) <==> (covered(
                        before.take(i + 1),
                        x,
                    ) || start <= x < end) by {
                    assert(covered(was, x) || (!was_placed && lo <= x < hi) <==> (covered(
                        before.take(i as int),
                        x,
                    ) || start <= x < end));
                }
            }
        } else {
            if a < lo {
                lo = a;
            }
            if b > hi {
                hi = b;
            }
            proof {
                assert forall|x: u64|
                    #![trigger covered(merged@, x)]
                    covered(merged@, x) || (!placed && lo <= x < hi) <==> (covered(
                        before.take(i + 1),
                        x,
                    ) || start <= x < end) by {
                    assert(covered(was, x) || (!was_placed && lo0 <= x < hi0) <==> (covered(
                        before.take(i as int),
                        x,
                    ) || start <= x < end));
                }
            }
        }
        i += 1;
    }
    assert(before.take(before.len() as int) =~= before);
    if !placed {
        let ghost was = merged@;
        merged.push((lo, hi));
        proof {
            assert forall|x: u64|
                #![trigger covered(merged@, x)]
                covered(merged@, x) == (covered(was, x) || lo <= x < hi) by {
                lemma_covered_push(was, (lo, hi), x);
            }
        }
    }
    *ranges = merged;
    proof {
        assert forall|x: u64|
            #[trigger] covered(ranges@, x) == (covered(before, x) || start <= x < end) by {}
        lemma_is_with_range(ranges@, before, start, end);
    }
}

proof fn lemma_covered_push(ranges: Seq<(u64, u64)>, r: (u64, u64), x: u64)
    ensures
        covered(ranges.push(r), x) == (covered(ranges, x) || r.0 <= x < r.1),
{
    let all = ranges.push(r);
    if covered(ranges, x) {
        let i = choose|i: int| 0 <= i < ranges.len() && (#[trigger] ranges[i]).0 <= x
            < ranges[i].1;
        assert(all[i] == ranges[i]);
    }
    if r.0 <= x < r.1 {
        assert(all[ranges.len() as int] == r);
    }
    if covered(all, x) {
        let i = choose|i: int| 0 <= i < all.len() && (#[trigger] all[i]).0 <= x < all[i].1;
        if i < ranges.len() {
            assert(all[i] == ranges[i]);
        }
    }
}

/// Whether `sequence` lies in one of the `ranges`.
pub fn range_contains(ranges: &Vec<(u64, u64)>, sequence: u64) -> (r: bool)
    ensures
        r == covered(ranges@, sequence),
{
    let mut i: usize = 0;
    while i < ranges.len()
        invariant
            i <= ranges@.len(),
            forall|k: int| 0 <= k < i ==> !((#[trigger] ranges@[k]).0 <= sequence < ranges@[k].1),
        decreases ranges@.len() - i,
    {
        let (start, end) = ranges[i];
        if sequence >= start && sequence < end {
            return true;
        }
        i += 1;
    }
    false
}

/// `base` with every range of `added` merged in, in order.
pub open spec fn with_ranges(base: Seq<(u64, u64)>, added: Seq<(u64, u64)>) -> Seq<(u64, u64)>
    decreases added.len(),
{
    if added.len() == 0 {
        base
    } else {
        with_range(with_ranges(base, added.drop_last()), added.last().0, added.last().1)
    }
}

/// Merging ranges keeps the normal form and covers exactly the union.
pub proof fn law_with_ranges_is_union(base: Seq<(u64, u64)>, added: Seq<(u64, u64)>)
    requires
        normalized(base),
    ensures
        normalized(with_ranges(base, added)),
        forall|x: u64|
            #[trigger] covered(with_ranges(base, added), x) == (covered(base, x) || covered(
                added,
                x,
            )),
    decreases added.len(),
{
    if added.len() > 0 {
        let head = added.drop_last();
        let last = added.last();
        law_with_ranges_is_union(base, head);
        lemma_with_range_exists(with_ranges(base, head), last.0, last.1);
        assert(added =~= head.push(last));
        assert forall|x: u64|
            #[trigger] covered(with_ranges(base, added), x) == (covered(base, x) || covered(
                added,
                x,
            )) by {
            lemma_covered_push(head, last, x);
            assert(covered(with_ranges(base, head), x) == (covered(base, x) || covered(head, x)));
        }
    }
}

/// Every normal form has a normal form with one more range.
proof fn lemma_with_range_exists(ranges: Seq<(u64, u64)>, start: u64, end: u64)
    requires
        normalized(ranges),
    ensures
        is_with_range(with_range(ranges, start, end), ranges, start, end),
    decreases ranges.len(),
{
    if start >= end {
        lemma_is_with_range(ranges, ranges, start, end);
    } else if ranges.len() == 0 {
        let r = seq![(start, end)];
        assert forall|x: u64|
            #[trigger] covered(r, x) == (covered(ranges, x) || start <= x < end) by {
            assert(r[0] == (start, end));
        }
        lemma_is_with_range(r, ranges, start, end);
    } else {
        let head = ranges.drop_last();
        let last = ranges.last();
        assert(ranges =~= head.push(last));
        assert(normalized(head));
        if last.1 < start {
            let r = ranges.push((start, end));
            assert forall|x: u64|
                #[trigger] covered(r, x) == (covered(ranges, x) || start <= x < end) by {
                lemma_covered_push(ranges, (start, end), x);
            }
            lemma_is_with_range(r, ranges, start, end);
        } else if end < last.0 {
            lemma_with_range_exists(head, start, end);
            let w = with_range(head, start, end);
            assert forall|i: int| 0 <= i < w.len() implies (#[trigger] w[i]).1 < last.0 by {
                let top = (w[i].1 - 1) as u64;
                assert(covered(w, top));
                if covered(head, top) {
                    let k = choose|k: int|
                        0 <= k < head.len() && (#[trigger] head[k]).0 <= top < head[k].1;
                    assert(ranges[k] == head[k]);
                    assert(ranges[ranges.len() - 1] == last);
                }
            }
            let r = w.push(last);
            assert forall|x: u64|
                #[trigger] covered(r, x) == (covered(ranges, x) || start <= x < end) by {
                lemma_covered_push(w, last, x);
                lemma_covered_push(head, last, x);
                assert(covered(w, x) == (covered(head, x) || start <= x < end));
            }
            lemma_is_with_range(r, ranges, start, end);
        } else {
            let lo = if last.0 < start {
                last.0
            } else {
                start
            };
            let hi = if last.1 > end {
                last.1
            } else {
                end
            };
            lemma_with_range_exists(head, lo, hi);
            let r = with_range(head, lo, hi);
            assert forall|x: u64|
                #[trigger] covered(r, x) == (covered(ranges, x) || start <= x < end) by {
                lemma_covered_push(head, last, x);
                assert(covered(r, x) == (covered(head, x) || lo <= x < hi));
            }
            lemma_is_with_range(r, ranges, start, end);
        }
    }
}

/// Cancelled ranges of a lane, or none.
pub open spec fn lane_ranges_of(m: Map<u32, Seq<(u64, u64)>>, lane: u32) -> Seq<(u64, u64)> {
    if m.contains_key(lane) {
        m[lane]
    } else {
        Seq::empty()
    }
}

/// `base` with the ranges of every lane of `added` merged in.
pub open spec fn merged_lanes(
    base: Map<u32, Seq<(u64, u64)>>,
    added: Map<u32, Seq<(u64, u64)>>,
) -> Map<u32, Seq<(u64, u64)>> {
    Map::new(
        |lane: u32| base.contains_key(lane) || added.contains_key(lane),
        |lane: u32|
            if added.contains_key(lane) {
                with_ranges(lane_ranges_of(base, lane), added[lane])
            } else {
                base[lane]
            },
    )
}

/// The ranges held by a table of range vectors.
pub open spec fn lanes_view(m: Map<u32, Vec<(u64, u64)>>) -> Map<u32, Seq<(u64, u64)>> {
    m.map_values(|v: Vec<(u64, u64)>| v@)
}

/// Every lane of the table is in normal form.
pub open spec fn lanes_normalized(m: Map<u32, Seq<(u64, u64)>>) -> bool {
    forall|lane: u32| #[trigger] m.contains_key(lane) ==> normalized(m[lane])
}

/// A copy of a range vector.
pub fn copy_ranges(ranges: &Vec<(u64, u64)>) -> (copy: Vec<(u64, u64)>)
    ensures
        copy@ == ranges@,
{
    let mut copy: Vec<(u64, u64)> = Vec::new();
    let mut i: usize = 0;
    while i < ranges.len()
        invariant
            i <= ranges@.len(),
            copy@ == ranges@.take(i as int),
        decreases ranges@.len() - i,
    {
        copy.push(ranges[i]);
        i += 1;
        assert(copy@ =~= ranges@.take(i as int));
    }
    assert(copy@ =~= ranges@);
    copy
}

/// Merge every range of `added` into `base`, in order.
pub fn insert_cancelled_ranges(base: &mut Vec<(u64, u64)>, added: &Vec<(u64, u64)>)
    requires
        normalized(old(base)@),
    ensures
        normalized(final(base)@),
        final(base)@ == with_ranges(old(base)@, added@),
{
    let mut i: usize = 0;
    let ghost start = base@;
    while i < added.len()
        invariant
            i <= added@.len(),
            normalized(base@),
            base@ == with_ranges(start, added@.take(i as int)),
        decreases added@.len() - i,
    {
        let (lo, hi) = added[i];
        insert_cancelled_range(base, lo, hi);
        i += 1;
        assert(added@.take(i as int).drop_last() =~= added@.take(i - 1));
    }
    assert(added@.take(added@.len() as int) =~= added@);
}

/// A copy of `base` with the ranges of every lane of `added` merged in.
pub fn merge_lane_ranges(
    base: &BTreeMap<u32, Vec<(u64, u64)>>,
    added: &BTreeMap<u32, Vec<(u64, u64)>>,
) -> (merged: BTreeMap<u32, Vec<(u64, u64)>>)
    requires
        lanes_normalized(lanes_view(base@)),
    ensures
        lanes_view(merged@) == merged_lanes(lanes_view(base@), lanes_view(added@)),
        lanes_normalized(lanes_view(merged@)),
{
    let mut merged = base.clone();
    let ghost items = vstd::std_specs::iter::IteratorSpec::remaining(
        &vstd::std_specs::btree::spec_btree_map_iter(added),
    );
    for (lane, ranges) in it: added.iter()
        invariant
            items == it.seq(),
            items == vstd::std_specs::iter::IteratorSpec::remaining(
                &vstd::std_specs::btree::spec_btree_map_iter(added),
            ),
            items.no_duplicates(),
            lanes_normalized(lanes_view(base@)),
            lanes_normalized(lanes_view(merged@)),
            forall|l: u32|
                #[trigger] merged@.contains_key(l) <==> base@.contains_key(l) || exists|j: int|
                    0 <= j < it.index() && *(#[trigger] items[j]).0 == l,
            forall|l: u32|
                #![trigger merged@[l]]
                (forall|j: int| 0 <= j < it.index() ==> *(#[trigger] items[j]).0 != l)
                    && base@.contains_key(l) ==> merged@[l] == base@[l],
            forall|j: int|
                0 <= j < it.index() ==> merged@[*(#[trigger] items[j]).0]@ == with_ranges(
                    lane_ranges_of(lanes_view(base@), *items[j].0),
                    items[j].1@,
                ),
    {
        let ghost here = it.index();
        assert(items[here] == (lane, ranges));
        assert forall|j: int| 0 <= j < items.len() && j != here implies *(#[trigger] items[j]).0
            != *lane by {
            assert(added@.contains_key(*items[j].0) && added@[*items[j].0] == *items[j].1);
            assert(added@.contains_key(*items[here].0) && added@[*items[here].0]
                == *items[here].1);
            assert(items[j] != items[here]);
        }
        let mut current: Vec<(u64, u64)> = match merged.get(lane) {
            Some(held) => copy_ranges(held),
            None => Vec::new(),
        };
        proof {
            if merged@.contains_key(*lane) {
                assert(lanes_view(merged@).contains_key(*lane));
            }
            assert(current@ == lane_ranges_of(lanes_view(base@), *lane));
        }
        insert_cancelled_ranges(&mut current, ranges);
        let ghost before = merged@;
        merged.insert(*lane, current);
        proof {
            assert(merged@ == before.insert(*lane, current));
            assert forall|l: u32| #[trigger] merged@.contains_key(l) <==> base@.contains_key(l)
                || exists|j: int| 0 <= j < here + 1 && *(#[trigger] items[j]).0 == l by {
                if l == *lane {
                    assert(*items[here].0 == l);
                }
                if before.contains_key(l) && !base@.contains_key(l) {
                    let j = choose|j: int| 0 <= j < here && *(#[trigger] items[j]).0 == l;
                    assert(0 <= j < here + 1 && *items[j].0 == l);
                }
            }
            assert forall|l: u32| #[trigger] lanes_view(merged@).contains_key(l) implies normalized(
                lanes_view(merged@)[l],
            ) by {
                if l != *lane {
                    assert(lanes_view(before).contains_key(l));
                    assert(lanes_view(before)[l] == lanes_view(merged@)[l]);
                }
            }
        }
    }
    proof {
        let left = lanes_view(merged@);
        let right = merged_lanes(lanes_view(base@), lanes_view(added@));
        assert forall|l: u32| left.contains_key(l) == right.contains_key(l) by {
            if added@.contains_key(l) {
                assert(items.contains((&l, &added@[l])));
                let j = choose|j: int| 0 <= j < items.len() && items[j] == (&l, &added@[l]);
                assert(*items[j].0 == l);
                assert(merged@.contains_key(l));
            }
            if merged@.contains_key(l) && !base@.contains_key(l) {
                let j = choose|j: int| 0 <= j < items.len() && *(#[trigger] items[j]).0 == l;
                assert(added@.contains_key(*items[j].0));
            }
        }
        assert forall|l: u32| #[trigger] left.contains_key(l) implies left[l] == right[l] by {
            if added@.contains_key(l) {
                assert(items.contains((&l, &added@[l])));
                let j = choose|j: int| 0 <= j < items.len() && items[j] == (&l, &added@[l]);
                assert(*items[j].0 == l);
                assert(merged@[*items[j].0]@ == with_ranges(
                    lane_ranges_of(lanes_view(base@), l),
                    items[j].1@,
                ));
            } else {
                assert forall|j: int| 0 <= j < items.len() implies *(#[trigger] items[j]).0
                    != l by {
                    assert(added@.contains_key(*items[j].0));
                }
                assert(merged@.contains_key(l));
                assert(merged@[l] == base@[l]);
            }
        }
        assert(left =~= right);
    }
    merged
}

/// A sequence is covered where it is no lower than the start and lower than the end
/// of one of the ranges.
pub proof fn law_covered_lies_in_a_range(ranges: Seq<(u64, u64)>, sequence: u64)
    ensures
        covered(ranges, sequence) <==> exists|i: int|
            0 <= i < ranges.len() && (#[trigger] ranges[i]).0 <= sequence && sequence < ranges[i].1,
{
    if covered(ranges, sequence) {
        let i = choose|i: int|
            0 <= i < ranges.len() && (#[trigger] ranges[i]).0 <= sequence < ranges[i].1;
        assert(ranges[i].0 <= sequence && sequence < ranges[i].1);
    }
    if exists|i: int|
        0 <= i < ranges.len() && (#[trigger] ranges[i]).0 <= sequence && sequence < ranges[i].1 {
        let i = choose|i: int|
            0 <= i < ranges.len() && (#[trigger] ranges[i]).0 <= sequence && sequence < ranges[i].1;
        assert(ranges[i].0 <= sequence < ranges[i].1);
    }
}

/// Looking a sequence up in ranges finds it where it is no lower than the start and
/// lower than the end of one of them.
pub proof fn law_ranges_hold_start_and_not_end(
    ranges: Vec<(u64, u64)>,
    sequence: u64,
    r: bool,
)
    requires
        call_ensures(range_contains, (&ranges, sequence), r),
    ensures
        r <==> exists|i: int|
            0 <= i < ranges@.len() && (#[trigger] ranges@[i]).0 <= sequence && sequence
                < ranges@[i].1,
{
    law_covered_lies_in_a_range(ranges@, sequence);
}

/// The ranges of a table are those of its lanes, each as it is.
pub proof fn law_table_shows_every_lane(m: Map<u32, Vec<(u64, u64)>>, lane: u32)
    ensures
        lanes_view(m).contains_key(lane) <==> m.contains_key(lane),
        m.contains_key(lane) ==> lanes_view(m)[lane] == m[lane]@,
{
}

} // verus!

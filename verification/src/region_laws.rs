use vstd::prelude::*;
use vstd::seq_lib::*;

use crate::field::BlockFieldModel;
use crate::order::{law_by_offset, lemma_by_offset_contains, starting_at};
use crate::regions::{
    added, all_fields, can_add, highest, hit, is_common_prefix, joined_descriptions, lowest, max_of,
    merged, missed, names_of, prefix_of, region_models, regions_wf, shared_len, shared_start,
    Region, RegionModel,
};

verus! {

/// Whether `x` comes before `y` in `s`.
pub open spec fn in_turn(s: Seq<RegionModel>, x: RegionModel, y: RegionModel) -> bool {
    exists|a: int, b: int| 0 <= a < b < s.len() && s[a] == x && s[b] == y
}

pub(crate) proof fn lemma_filter(s: Seq<RegionModel>, pred: spec_fn(RegionModel) -> bool)
    ensures
        s.filter(pred).len() <= s.len(),
        forall|i: int|
            0 <= i < s.filter(pred).len() ==> pred(#[trigger] s.filter(pred)[i]) && s.contains(
                s.filter(pred)[i],
            ),
        forall|i: int| 0 <= i < s.len() && pred(s[i]) ==> s.filter(pred).contains(#[trigger] s[i]),
        forall|i: int, j: int|
            0 <= i < j < s.filter(pred).len() ==> in_turn(
                s,
                #[trigger] s.filter(pred)[i],
                #[trigger] s.filter(pred)[j],
            ),
    decreases s.len(),
{
    reveal(Seq::filter);
    if s.len() > 0 {
        let front = s.drop_last();
        lemma_filter(front, pred);
        let out = s.filter(pred);
        let f = front.filter(pred);
        assert forall|i: int| 0 <= i < out.len() implies pred(#[trigger] out[i]) && s.contains(
            out[i],
        ) by {
            if i < f.len() {
                assert(out[i] == f[i]);
                let k = choose|k: int| 0 <= k < front.len() && front[k] == f[i];
                assert(s[k] == out[i]);
            } else {
                assert(s[s.len() - 1] == out[i]);
            }
        }
        assert forall|i: int|
            0 <= i < s.len() && pred(s[i]) implies out.contains(#[trigger] s[i]) by {
            if i < front.len() {
                assert(f.contains(front[i]));
                let k = choose|k: int| 0 <= k < f.len() && f[k] == front[i];
                assert(out[k] == s[i]);
            } else {
                assert(out[out.len() - 1] == s[i]);
            }
        }
        assert forall|i: int, j: int| 0 <= i < j < out.len() implies in_turn(
            s,
            #[trigger] out[i],
            #[trigger] out[j],
        ) by {
            if j < f.len() {
                assert(in_turn(front, f[i], f[j]));
                let (a, b) = choose|a: int, b: int|
                    0 <= a < b < front.len() && front[a] == f[i] && front[b] == f[j];
                assert(s[a] == out[i] && s[b] == out[j]);
            } else {
                assert(front.contains(f[i]));
                let a = choose|a: int| 0 <= a < front.len() && front[a] == f[i];
                assert(s[a] == out[i] && s[s.len() - 1] == out[j]);
            }
        }
    }
}

proof fn lemma_lowest(regions: Seq<RegionModel>, start: int)
    ensures
        lowest(regions, start) <= start,
        forall|i: int|
            0 <= i < regions.len() ==> lowest(regions, start) <= (#[trigger] regions[i]).offset,
        lowest(regions, start) == start || exists|i: int|
            0 <= i < regions.len() && (#[trigger] regions[i]).offset == lowest(regions, start),
    decreases regions.len(),
{
    if regions.len() > 0 {
        let front = regions.drop_last();
        lemma_lowest(front, start);
        assert forall|i: int| 0 <= i < regions.len() implies lowest(regions, start) <= (
        #[trigger] regions[i]).offset by {
            if i < front.len() {
                assert(front[i] == regions[i]);
            }
        }
        if lowest(front, start) <= regions.last().offset {
            if lowest(front, start) != start {
                let i = choose|i: int|
                    0 <= i < front.len() && (#[trigger] front[i]).offset == lowest(front, start);
                assert(regions[i].offset == lowest(regions, start));
            }
        } else {
            assert(regions[regions.len() - 1].offset == lowest(regions, start));
        }
    }
}

proof fn lemma_highest(regions: Seq<RegionModel>, stop: int)
    ensures
        highest(regions, stop) >= stop,
        forall|i: int|
            0 <= i < regions.len() ==> highest(regions, stop) >= (#[trigger] regions[i]).end,
        highest(regions, stop) == stop || exists|i: int|
            0 <= i < regions.len() && (#[trigger] regions[i]).end == highest(regions, stop),
    decreases regions.len(),
{
    if regions.len() > 0 {
        let front = regions.drop_last();
        lemma_highest(front, stop);
        assert forall|i: int| 0 <= i < regions.len() implies highest(regions, stop) >= (
        #[trigger] regions[i]).end by {
            if i < front.len() {
                assert(front[i] == regions[i]);
            }
        }
        if highest(front, stop) >= regions.last().end {
            if highest(front, stop) != stop {
                let i = choose|i: int|
                    0 <= i < front.len() && (#[trigger] front[i]).end == highest(front, stop);
                assert(regions[i].end == highest(regions, stop));
            }
        } else {
            assert(regions[regions.len() - 1].end == highest(regions, stop));
        }
    }
}

pub(crate) proof fn lemma_all_fields_contains(regions: Seq<RegionModel>, x: BlockFieldModel)
    ensures
        all_fields(regions).contains(x) <==> exists|i: int|
            0 <= i < regions.len() && (#[trigger] regions[i]).fields.contains(x),
    decreases regions.len(),
{
    if regions.len() > 0 {
        let front = regions.drop_last();
        let last = regions.last().fields;
        lemma_all_fields_contains(front, x);
        let all = all_fields(regions);
        if all.contains(x) {
            let k = choose|k: int| 0 <= k < all.len() && all[k] == x;
            if k < all_fields(front).len() {
                assert(all_fields(front)[k] == x);
                assert(all_fields(front).contains(x));
                let i = choose|i: int|
                    0 <= i < front.len() && (#[trigger] front[i]).fields.contains(x);
                assert(regions[i].fields.contains(x));
            } else {
                assert(last[k - all_fields(front).len()] == x);
                assert(regions[regions.len() - 1].fields.contains(x));
            }
        }
        if exists|i: int| 0 <= i < regions.len() && (#[trigger] regions[i]).fields.contains(x) {
            let i = choose|i: int|
                0 <= i < regions.len() && (#[trigger] regions[i]).fields.contains(x);
            if i < front.len() {
                assert(front[i].fields.contains(x));
                let k = choose|k: int|
                    0 <= k < all_fields(front).len() && all_fields(front)[k] == x;
                assert(all[k] == x);
            } else {
                let k = choose|k: int| 0 <= k < last.len() && last[k] == x;
                assert(all[all_fields(front).len() + k] == x);
            }
        }
    }
}

/// The merged region holds `field` and the fields of the regions it hits, and no other.
proof fn lemma_merged_contains(
    regions: Seq<RegionModel>,
    field: BlockFieldModel,
    x: BlockFieldModel,
)
    ensures
        merged(regions, field).fields.contains(x) <==> x == field || exists|i: int|
            0 <= i < hit(regions, field).len() && (#[trigger] hit(regions, field)[i]).fields.contains(x),
{
    let folded = hit(regions, field);
    let pool = seq![field] + all_fields(folded);
    lemma_by_offset_contains(pool, x);
    lemma_all_fields_contains(folded, x);
    assert(pool[0] == field);
    if all_fields(folded).contains(x) {
        let k = choose|k: int| 0 <= k < all_fields(folded).len() && all_fields(folded)[k] == x;
        assert(pool[k + 1] == x);
    }
    if pool.contains(x) && x != field {
        let k = choose|k: int| 0 <= k < pool.len() && pool[k] == x;
        assert(all_fields(folded)[k - 1] == x);
    }
}

/// The place that a field of a region that is hit has in the merged region.
proof fn lemma_folded_field(
    regions: Seq<RegionModel>,
    field: BlockFieldModel,
    i: int,
    k: int,
) -> (m: int)
    requires
        0 <= i < hit(regions, field).len(),
        0 <= k < hit(regions, field)[i].fields.len(),
    ensures
        0 <= m < merged(regions, field).fields.len(),
        merged(regions, field).fields[m] == hit(regions, field)[i].fields[k],
{
    let r = hit(regions, field)[i];
    let x = r.fields[k];
    lemma_merged_contains(regions, field, x);
    assert(r.fields.contains(x));
    choose|m: int|
        0 <= m < merged(regions, field).fields.len() && merged(regions, field).fields[m] == x
}

/// The regions that are hit are well formed and meet the field.
proof fn lemma_hit(regions: Seq<RegionModel>, field: BlockFieldModel)
    requires
        regions_wf(regions),
    ensures
        forall|i: int|
            0 <= i < hit(regions, field).len() ==> (#[trigger] hit(regions, field)[i]).wf() && hit(
                regions,
                field,
            )[i].meets(field.offset, field.end()),
{
    let folded = hit(regions, field);
    lemma_filter(regions, |r: RegionModel| r.meets(field.offset, field.end()));
    assert forall|i: int| 0 <= i < folded.len() implies (#[trigger] folded[i]).wf()
        && folded[i].meets(field.offset, field.end()) by {
        assert(regions.contains(folded[i]));
    }
}

proof fn lemma_merged_ends(regions: Seq<RegionModel>, field: BlockFieldModel)
    requires
        regions_wf(regions),
    ensures
        exists|k: int|
            0 <= k < merged(regions, field).fields.len() && (#[trigger] merged(
                regions,
                field,
            ).fields[k]).offset == merged(regions, field).offset,
        exists|k: int|
            0 <= k < merged(regions, field).fields.len() && (#[trigger] merged(
                regions,
                field,
            ).fields[k]).end() == merged(regions, field).end,
{
    let folded = hit(regions, field);
    let new = merged(regions, field);
    lemma_hit(regions, field);
    lemma_lowest(folded, field.offset);
    lemma_highest(folded, field.end());
    lemma_merged_contains(regions, field, field);
    let own = choose|k: int| 0 <= k < new.fields.len() && new.fields[k] == field;
    if new.offset != field.offset {
        let i = choose|i: int| 0 <= i < folded.len() && (#[trigger] folded[i]).offset == new.offset;
        let k = choose|k: int|
            0 <= k < folded[i].fields.len() && (#[trigger] folded[i].fields[k]).offset
                == folded[i].offset;
        let m = lemma_folded_field(regions, field, i, k);
        assert(new.fields[m].offset == new.offset);
    } else {
        assert(new.fields[own].offset == new.offset);
    }
    if new.end != field.end() {
        let i = choose|i: int| 0 <= i < folded.len() && (#[trigger] folded[i]).end == new.end;
        let k = choose|k: int|
            0 <= k < folded[i].fields.len() && (#[trigger] folded[i].fields[k]).end()
                == folded[i].end;
        let m = lemma_folded_field(regions, field, i, k);
        assert(new.fields[m].end() == new.end);
    } else {
        assert(new.fields[own].end() == new.end);
    }
}

proof fn lemma_merged_within(regions: Seq<RegionModel>, field: BlockFieldModel, k: int)
    requires
        regions_wf(regions),
        field.size >= 0,
        0 <= k < merged(regions, field).fields.len(),
    ensures
        merged(regions, field).offset <= merged(regions, field).fields[k].offset,
        merged(regions, field).fields[k].offset <= merged(regions, field).fields[k].end(),
        merged(regions, field).fields[k].end() <= merged(regions, field).end,
{
    let folded = hit(regions, field);
    let x = merged(regions, field).fields[k];
    lemma_hit(regions, field);
    lemma_lowest(folded, field.offset);
    lemma_highest(folded, field.end());
    lemma_merged_contains(regions, field, x);
    assert(merged(regions, field).fields.contains(x));
    if x != field {
        let i = choose|i: int| 0 <= i < folded.len() && (#[trigger] folded[i]).fields.contains(x);
        let m = choose|m: int| 0 <= m < folded[i].fields.len() && folded[i].fields[m] == x;
        assert(folded[i].offset <= folded[i].fields[m].offset);
    }
}

proof fn lemma_merged_holds(regions: Seq<RegionModel>, field: BlockFieldModel, b: int)
    requires
        regions_wf(regions),
        merged(regions, field).offset <= b < merged(regions, field).end,
    ensures
        merged(regions, field).holds(b),
{
    let folded = hit(regions, field);
    let new = merged(regions, field);
    lemma_hit(regions, field);
    lemma_lowest(folded, field.offset);
    lemma_highest(folded, field.end());
    if field.covers(b) {
        lemma_merged_contains(regions, field, field);
        let own = choose|k: int| 0 <= k < new.fields.len() && new.fields[k] == field;
        assert(new.fields[own].covers(b));
    } else {
        let i = if b < field.offset {
            choose|i: int| 0 <= i < folded.len() && (#[trigger] folded[i]).offset == new.offset
        } else {
            choose|i: int| 0 <= i < folded.len() && (#[trigger] folded[i]).end == new.end
        };
        assert(folded[i].holds(b));
        let k = choose|k: int|
            0 <= k < folded[i].fields.len() && (#[trigger] folded[i].fields[k]).covers(b);
        let m = lemma_folded_field(regions, field, i, k);
        assert(new.fields[m].covers(b));
    }
}

proof fn lemma_merged_wf(regions: Seq<RegionModel>, field: BlockFieldModel)
    requires
        regions_wf(regions),
        field.size >= 0,
    ensures
        merged(regions, field).wf(),
{
    let folded = hit(regions, field);
    let new = merged(regions, field);
    lemma_lowest(folded, field.offset);
    lemma_highest(folded, field.end());
    law_by_offset(seq![field] + all_fields(folded));
    lemma_merged_ends(regions, field);
    assert forall|k: int| 0 <= k < new.fields.len() implies new.offset <= (
    #[trigger] new.fields[k]).offset <= new.fields[k].end() <= new.end by {
        lemma_merged_within(regions, field, k);
    }
    assert forall|b: int| #![trigger new.holds(b)] new.offset <= b < new.end implies new.holds(
        b,
    ) by {
        lemma_merged_holds(regions, field, b);
    }
}

/// A region that the new field misses has no byte in common with the merged region.
proof fn lemma_merged_apart(regions: Seq<RegionModel>, field: BlockFieldModel, r: RegionModel)
    requires
        regions_wf(regions),
        field.size >= 0,
        missed(regions, field).contains(r),
    ensures
        !merged(regions, field).meets(r.offset, r.end),
        !r.meets(merged(regions, field).offset, merged(regions, field).end),
{
    let folded = hit(regions, field);
    let new = merged(regions, field);
    lemma_filter(regions, |r: RegionModel| r.meets(field.offset, field.end()));
    lemma_filter(regions, |r: RegionModel| !r.meets(field.offset, field.end()));
    lemma_lowest(folded, field.offset);
    lemma_highest(folded, field.end());
    if new.meets(r.offset, r.end) {
        let b = max_of(new.offset, r.offset);
        assert(!r.meets(field.offset, field.end()));
        assert(b < field.offset || b >= field.end());
        let i = if b < field.offset {
            choose|i: int| 0 <= i < folded.len() && (#[trigger] folded[i]).offset == new.offset
        } else {
            choose|i: int| 0 <= i < folded.len() && (#[trigger] folded[i]).end == new.end
        };
        let h = folded[i];
        assert(h.meets(field.offset, field.end()));
        assert(regions.contains(h));
        let x = choose|x: int| 0 <= x < regions.len() && regions[x] == h;
        let y = choose|y: int| 0 <= y < regions.len() && regions[y] == r;
        assert(x != y);
        assert(h.offset <= b < h.end);
        assert(h.meets(r.offset, r.end));
        if x < y {
            assert(!regions[x].meets(regions[y].offset, regions[y].end));
        } else {
            assert(!regions[y].meets(regions[x].offset, regions[x].end));
        }
        assert(false);
    }
}

/// Adding a field keeps the regions in order and apart.
pub proof fn law_added_wf(regions: Seq<RegionModel>, field: BlockFieldModel)
    requires
        regions_wf(regions),
        field.size >= 0,
        can_add(regions, field),
    ensures
        regions_wf(added(regions, field)),
{
    let new = merged(regions, field);
    let others = missed(regions, field);
    let below = others.filter(|r: RegionModel| r.offset < new.offset);
    let above = others.filter(|r: RegionModel| r.offset >= new.offset);
    let all = added(regions, field);
    lemma_filter(regions, |r: RegionModel| !r.meets(field.offset, field.end()));
    lemma_filter(others, |r: RegionModel| r.offset < new.offset);
    lemma_filter(others, |r: RegionModel| r.offset >= new.offset);
    lemma_merged_wf(regions, field);
    let at = below.len() as int;
    assert(all[at] == new);
    assert forall|i: int| 0 <= i < all.len() && i != at implies others.contains(#[trigger] all[i])
        && regions.contains(all[i]) && (i < at ==> all[i].offset < new.offset) && (i > at
        ==> all[i].offset > new.offset) by {
        if i < at {
            assert(all[i] == below[i]);
        } else {
            assert(all[i] == above[i - at - 1]);
        }
        let k = choose|k: int| 0 <= k < others.len() && others[k] == all[i];
        assert(others[k].offset != new.offset);
    }
    assert forall|i: int| 0 <= i < all.len() implies (#[trigger] all[i]).wf() by {
        if i != at {
            assert(regions.contains(all[i]));
        }
    }
    assert forall|i: int, j: int| 0 <= i < j < all.len() implies all[i].offset < all[j].offset by {
        if j < at {
            assert(in_turn(others, below[i], below[j]));
            lemma_in_turn_offsets(regions, field, below[i], below[j]);
        } else if i > at {
            assert(in_turn(others, above[i - at - 1], above[j - at - 1]));
            lemma_in_turn_offsets(regions, field, above[i - at - 1], above[j - at - 1]);
        }
    }
    assert forall|i: int, j: int| 0 <= i < j < all.len() implies !(#[trigger] all[i]).meets(
        (#[trigger] all[j]).offset,
        all[j].end,
    ) by {
        if i == at {
            lemma_merged_apart(regions, field, all[j]);
        } else if j == at {
            lemma_merged_apart(regions, field, all[i]);
        } else {
            let x = choose|x: int| 0 <= x < regions.len() && regions[x] == all[i];
            let y = choose|y: int| 0 <= y < regions.len() && regions[y] == all[j];
            assert(regions[x].offset < regions[y].offset);
            assert(x < y);
        }
    }
}

proof fn lemma_in_turn_offsets(
    regions: Seq<RegionModel>,
    field: BlockFieldModel,
    x: RegionModel,
    y: RegionModel,
)
    requires
        regions_wf(regions),
        in_turn(missed(regions, field), x, y),
    ensures
        x.offset < y.offset,
{
    let others = missed(regions, field);
    lemma_filter(regions, |r: RegionModel| !r.meets(field.offset, field.end()));
    let (a, b) = choose|a: int, b: int|
        0 <= a < b < others.len() && others[a] == x && others[b] == y;
    assert(in_turn(regions, others[a], others[b]));
}

/// Adding a field loses no field and adds no other.
pub proof fn law_added_keeps_fields(regions: Seq<RegionModel>, field: BlockFieldModel)
    ensures
        all_fields(added(regions, field)).to_multiset() == all_fields(regions).to_multiset().insert(
            field,
        ),
{
    broadcast use group_to_multiset_ensures;

    let new = merged(regions, field);
    let folded = hit(regions, field);
    let others = missed(regions, field);
    let below = others.filter(|r: RegionModel| r.offset < new.offset);
    let above = others.filter(|r: RegionModel| r.offset >= new.offset);
    let pool = seq![field] + all_fields(folded);
    law_by_offset(pool);
    lemma_all_fields_add(below + seq![new], above);
    lemma_all_fields_add(below, seq![new]);
    assert(all_fields(seq![new]) =~= new.fields) by {
        assert(seq![new].drop_last() =~= Seq::<RegionModel>::empty());
        assert(all_fields(Seq::<RegionModel>::empty()) =~= Seq::<BlockFieldModel>::empty());
    }
    lemma_multiset_commutative(all_fields(below) + new.fields, all_fields(above));
    lemma_multiset_commutative(all_fields(below), new.fields);
    lemma_multiset_commutative(seq![field], all_fields(folded));
    lemma_all_fields_split(regions, |r: RegionModel| r.meets(field.offset, field.end()),
        |r: RegionModel| !r.meets(field.offset, field.end()));
    lemma_all_fields_split(others, |r: RegionModel| r.offset < new.offset,
        |r: RegionModel| r.offset >= new.offset);
    assert(seq![field].to_multiset() =~= vstd::multiset::Multiset::singleton(field)) by {
        assert(seq![field] =~= Seq::<BlockFieldModel>::empty().push(field));
        assert(Seq::<BlockFieldModel>::empty().to_multiset() =~= vstd::multiset::Multiset::empty());
    }
    assert(all_fields(added(regions, field)).to_multiset() =~= all_fields(
        regions,
    ).to_multiset().insert(field));
}

proof fn lemma_all_fields_add(a: Seq<RegionModel>, b: Seq<RegionModel>)
    ensures
        all_fields(a + b) == all_fields(a) + all_fields(b),
    decreases b.len(),
{
    if b.len() == 0 {
        assert(a + b =~= a);
        assert(all_fields(a) + all_fields(b) =~= all_fields(a));
    } else {
        lemma_all_fields_add(a, b.drop_last());
        assert((a + b).drop_last() =~= a + b.drop_last());
        assert(all_fields(a + b) =~= all_fields(a) + all_fields(b));
    }
}

proof fn lemma_all_fields_split(
    regions: Seq<RegionModel>,
    yes: spec_fn(RegionModel) -> bool,
    no: spec_fn(RegionModel) -> bool,
)
    requires
        forall|r: RegionModel| #[trigger] yes(r) <==> !no(r),
    ensures
        all_fields(regions).to_multiset() == all_fields(regions.filter(yes)).to_multiset().add(
            all_fields(regions.filter(no)).to_multiset(),
        ),
    decreases regions.len(),
{
    broadcast use group_to_multiset_ensures;

    reveal(Seq::filter);
    if regions.len() == 0 {
        assert(Seq::<BlockFieldModel>::empty().to_multiset() =~= vstd::multiset::Multiset::empty());
        assert(all_fields(regions).to_multiset() =~= all_fields(regions.filter(yes)).to_multiset().add(
            all_fields(regions.filter(no)).to_multiset(),
        ));
    } else {
        let front = regions.drop_last();
        let last = regions.last();
        lemma_all_fields_split(front, yes, no);
        lemma_multiset_commutative(all_fields(front), last.fields);
        lemma_multiset_commutative(all_fields(front.filter(yes)), last.fields);
        lemma_multiset_commutative(all_fields(front.filter(no)), last.fields);
        if yes(last) {
            assert(regions.filter(yes).drop_last() =~= front.filter(yes));
        } else {
            assert(no(last));
            assert(regions.filter(no).drop_last() =~= front.filter(no));
        }
        assert(all_fields(regions).to_multiset() =~= all_fields(regions.filter(yes)).to_multiset().add(
            all_fields(regions.filter(no)).to_multiset(),
        ));
    }
}

/// Two fields with a byte in common are in one region.
pub proof fn law_overlapping_fields_share_a_region(
    regions: Seq<RegionModel>,
    i: int,
    f: BlockFieldModel,
    j: int,
    g: BlockFieldModel,
    address: int,
)
    requires
        regions_wf(regions),
        0 <= i < regions.len(),
        regions[i].fields.contains(f),
        0 <= j < regions.len(),
        regions[j].fields.contains(g),
        f.covers(address),
        g.covers(address),
    ensures
        i == j,
{
    let k = choose|k: int| 0 <= k < regions[i].fields.len() && regions[i].fields[k] == f;
    let m = choose|m: int| 0 <= m < regions[j].fields.len() && regions[j].fields[m] == g;
    assert(regions[i].fields[k].offset <= address);
    assert(regions[j].fields[m].offset <= address);
    if i < j {
        assert(!regions[i].meets(regions[j].offset, regions[j].end));
    } else if j < i {
        assert(!regions[j].meets(regions[i].offset, regions[i].end));
    }
}

/// Where no region is empty, a field that is not empty can always be added, if it ends within
/// the address space.
pub proof fn law_can_add(regions: Seq<RegionModel>, field: BlockFieldModel)
    requires
        regions_wf(regions),
        forall|i: int| 0 <= i < regions.len() ==> (#[trigger] regions[i]).offset < regions[i].end,
        field.offset < field.end() <= u32::MAX,
    ensures
        can_add(regions, field),
        forall|i: int|
            0 <= i < added(regions, field).len() ==> (#[trigger] added(regions, field)[i]).offset
                < added(regions, field)[i].end,
{
    let new = merged(regions, field);
    let others = missed(regions, field);
    lemma_filter(regions, |r: RegionModel| !r.meets(field.offset, field.end()));
    lemma_filter(others, |r: RegionModel| r.offset < new.offset);
    lemma_filter(others, |r: RegionModel| r.offset >= new.offset);
    lemma_lowest(hit(regions, field), field.offset);
    lemma_highest(hit(regions, field), field.end());
    assert forall|i: int| 0 <= i < others.len() implies (#[trigger] others[i]).offset
        != new.offset && others[i].offset < others[i].end by {
        lemma_merged_apart(regions, field, others[i]);
        assert(regions.contains(others[i]));
    }
    let below = others.filter(|r: RegionModel| r.offset < new.offset);
    let above = others.filter(|r: RegionModel| r.offset >= new.offset);
    let all = added(regions, field);
    assert forall|i: int| 0 <= i < all.len() implies (#[trigger] all[i]).offset < all[i].end by {
        if i < below.len() {
            assert(all[i] == below[i]);
            assert(others.contains(below[i]));
        } else if i > below.len() {
            assert(all[i] == above[i - below.len() - 1]);
            assert(others.contains(above[i - below.len() - 1]));
        }
    }
}

pub(crate) proof fn lemma_shared_len(a: Seq<char>, b: Seq<char>)
    ensures
        shared_len(a, b) <= a.len(),
        shared_len(a, b) <= b.len(),
        forall|i: int| 0 <= i < shared_len(a, b) ==> a[i] == b[i],
        shared_len(a, b) < a.len() && shared_len(a, b) < b.len() ==> a[shared_len(a, b) as int]
            != b[shared_len(a, b) as int],
    decreases a.len(),
{
    if a.len() > 0 && b.len() > 0 && a[0] == b[0] {
        lemma_shared_len(a.skip(1), b.skip(1));
        let n = shared_len(a.skip(1), b.skip(1));
        assert forall|i: int| 0 <= i < 1 + n implies a[i] == b[i] by {
            if i > 0 {
                assert(a.skip(1)[i - 1] == b.skip(1)[i - 1]);
            }
        }
        if 1 + n < a.len() && 1 + n < b.len() {
            assert(a.skip(1)[n as int] != b.skip(1)[n as int]);
        }
    }
}

/// What names start with in common is a prefix of each of them, and no common prefix is longer.
pub proof fn law_shared_start(names: Seq<Seq<char>>)
    requires
        names.len() > 0,
    ensures
        is_common_prefix(names, shared_start(names)),
        forall|p: Seq<char>| #[trigger]
            is_common_prefix(names, p) ==> p.is_prefix_of(shared_start(names)),
    decreases names.len(),
{
    if names.len() > 1 {
        let front = names.drop_last();
        let last = names.last();
        law_shared_start(front);
        let start = shared_start(front);
        lemma_shared_len(start, last);
        let n = shared_len(start, last) as int;
        assert forall|i: int| 0 <= i < names.len() implies start.take(n).is_prefix_of(
            #[trigger] names[i],
        ) by {
            if i < front.len() {
                assert(start.is_prefix_of(front[i]));
            }
        }
        assert forall|p: Seq<char>| #[trigger] is_common_prefix(names, p) implies p.is_prefix_of(
            start.take(n),
        ) by {
            assert(is_common_prefix(front, p)) by {
                assert forall|i: int| 0 <= i < front.len() implies p.is_prefix_of(
                    #[trigger] front[i],
                ) by {
                    assert(p.is_prefix_of(names[i]));
                }
            }
            assert(p.is_prefix_of(names[names.len() - 1]));
            assert(p.len() <= n) by {
                if p.len() > n {
                    assert(start[n] == p[n] && last[n] == p[n]);
                }
            }
            assert(start.take(n).subrange(0, p.len() as int) =~= p);
        }
    } else {
        assert(names[0].subrange(0, names[0].len() as int) =~= names[0]);
        assert forall|p: Seq<char>| #[trigger] is_common_prefix(names, p) implies p.is_prefix_of(
            shared_start(names),
        ) by {
            assert(p.is_prefix_of(names[0]));
        }
    }
}

/// Fields that share one description are described by it once.
pub proof fn law_one_description(fields: Seq<BlockFieldModel>, description: Seq<char>)
    requires
        fields.len() > 0,
        forall|i: int| 0 <= i < fields.len() ==> (#[trigger] fields[i]).description == description,
    ensures
        joined_descriptions(fields) == description,
    decreases fields.len(),
{
    let front = fields.drop_last();
    assert(fields[fields.len() - 1].description == description);
    if front.len() > 0 {
        assert forall|i: int| 0 <= i < front.len() implies (#[trigger] front[i]).description
            == description by {
            assert(front[i] == fields[i]);
        }
        law_one_description(front, description);
    } else {
        assert(joined_descriptions(front) =~= Seq::<char>::empty());
    }
}

pub(crate) proof fn lemma_filter_step(
    s: Seq<RegionModel>,
    k: int,
    pred: spec_fn(RegionModel) -> bool,
)
    requires
        0 <= k < s.len(),
    ensures
        s.take(k + 1).filter(pred) == if pred(s[k]) {
            s.take(k).filter(pred).push(s[k])
        } else {
            s.take(k).filter(pred)
        },
{
    reveal(Seq::filter);
    assert(s.take(k + 1).drop_last() =~= s.take(k));
}

pub(crate) proof fn lemma_filter_split(
    s: Seq<RegionModel>,
    idx: int,
    yes: spec_fn(RegionModel) -> bool,
)
    requires
        0 <= idx <= s.len(),
        forall|i: int| 0 <= i < idx ==> yes(#[trigger] s[i]),
        forall|i: int| idx <= i < s.len() ==> !yes(#[trigger] s[i]),
    ensures
        s.filter(yes) == s.take(idx),
    decreases s.len(),
{
    reveal(Seq::filter);
    if s.len() > 0 {
        let front = s.drop_last();
        if idx == s.len() {
            lemma_filter_split(front, idx - 1, yes);
            assert(front.take(idx - 1).push(s.last()) =~= s.take(idx));
            assert(yes(s[s.len() - 1]));
        } else {
            lemma_filter_split(front, idx, yes);
            assert(front.take(idx) =~= s.take(idx));
            assert(!yes(s[s.len() - 1]));
        }
    } else {
        assert(s.take(idx) =~= s);
    }
}

pub(crate) proof fn lemma_filter_rest(
    s: Seq<RegionModel>,
    idx: int,
    no: spec_fn(RegionModel) -> bool,
)
    requires
        0 <= idx <= s.len(),
        forall|i: int| 0 <= i < idx ==> !no(#[trigger] s[i]),
        forall|i: int| idx <= i < s.len() ==> no(#[trigger] s[i]),
    ensures
        s.filter(no) == s.skip(idx),
    decreases s.len(),
{
    reveal(Seq::filter);
    if s.len() > 0 {
        let front = s.drop_last();
        if idx == s.len() {
            lemma_filter_rest(front, idx - 1, no);
            assert(!no(s[s.len() - 1]));
            assert(front.skip(idx - 1) =~= s.skip(idx));
        } else {
            lemma_filter_rest(front, idx, no);
            assert(no(s[s.len() - 1]));
            assert(front.skip(idx).push(s.last()) =~= s.skip(idx));
        }
    } else {
        assert(s.skip(idx) =~= s);
    }
}

pub(crate) proof fn lemma_removed(
    listed: Seq<Region>,
    i: int,
    front: Seq<RegionModel>,
    back: Seq<RegionModel>,
)
    requires
        i == front.len(),
        back.len() > 0,
        region_models(listed) == front + back,
    ensures
        region_models(listed.remove(i)) == front + back.skip(1),
{
    let now = region_models(listed.remove(i));
    let all = front + back;
    assert(all.len() == listed.len());
    assert forall|j: int|
        0 <= j < now.len() implies #[trigger] now[j] == (front + back.skip(1))[j] by {
        if j < i {
            assert(all[j] == listed[j].model());
        } else {
            assert(all[j + 1] == listed[j + 1].model());
        }
    }
    assert(now =~= front + back.skip(1));
}

pub(crate) proof fn lemma_missed_ordered(regions: Seq<RegionModel>, field: BlockFieldModel)
    requires
        regions_wf(regions),
    ensures
        forall|a: int, b: int|
            0 <= a < b < missed(regions, field).len() ==> missed(regions, field)[a].offset < missed(
                regions,
                field,
            )[b].offset,
{
    let others = missed(regions, field);
    lemma_filter(regions, |r: RegionModel| !r.meets(field.offset, field.end()));
    assert forall|a: int, b: int| 0 <= a < b < others.len() implies others[a].offset
        < others[b].offset by {
        assert(in_turn(regions, others[a], others[b]));
        lemma_in_turn_offsets(regions, field, others[a], others[b]);
    }
}

/// The prefix of a region's fields is the longest that all of their names have in common; there is
/// none just where a field has no name or the names share no character.
pub proof fn law_longest_common_prefix(fields: Seq<BlockFieldModel>)
    requires
        fields.len() > 0,
    ensures
        prefix_of(fields) is Some <==> names_of(fields) is Some && exists|p: Seq<char>|
            p.len() > 0 && #[trigger] is_common_prefix(names_of(fields)->0, p),
        prefix_of(fields) matches Some(prefix) ==> {
            &&& is_common_prefix(names_of(fields)->0, prefix)
            &&& forall|p: Seq<char>| #[trigger]
                is_common_prefix(names_of(fields)->0, p) ==> p.len() <= prefix.len()
        },
{
    if names_of(fields) is Some {
        let names = names_of(fields)->0;
        law_shared_start(names);
        assert(is_common_prefix(names, shared_start(names)));
    }
}

/// Every field of a region has a name that starts with the prefix, and nothing longer is a prefix
/// of all names; where there is none, nothing but the empty text is.
pub proof fn law_prefix_of_fields(fields: Seq<BlockFieldModel>)
    requires
        fields.len() > 0,
    ensures
        prefix_of(fields) matches Some(prefix) ==> {
            &&& prefix.len() > 0
            &&& all_start_with(fields, prefix)
            &&& forall|p: Seq<char>| #[trigger]
                all_start_with(fields, p) ==> p.len() <= prefix.len()
        },
        prefix_of(fields) is None ==> forall|p: Seq<char>| #[trigger]
            all_start_with(fields, p) ==> p.len() == 0,
{
    if names_of(fields) is Some {
        let names = names_of(fields)->0;
        law_shared_start(names);
        assert(is_common_prefix(names, shared_start(names)));
        assert(all_start_with(fields, shared_start(names))) by {
            assert forall|i: int| 0 <= i < fields.len() implies (
            #[trigger] fields[i]).field.ident is Some && shared_start(names).is_prefix_of(
                fields[i].field.ident->0,
            ) by {
                assert(shared_start(names).is_prefix_of(names[i]));
            }
        }
        assert forall|p: Seq<char>| #[trigger] all_start_with(fields, p) implies p.len()
            <= shared_start(names).len() by {
            assert(is_common_prefix(names, p)) by {
                assert forall|i: int| 0 <= i < names.len() implies p.is_prefix_of(
                    #[trigger] names[i],
                ) by {
                    assert(p.is_prefix_of(fields[i].field.ident->0));
                }
            }
        }
    } else {
        assert forall|p: Seq<char>| #[trigger] all_start_with(fields, p) implies p.len() == 0 by {
            let i = choose|i: int|
                0 <= i < fields.len() && (#[trigger] fields[i]).field.ident is None;
            assert(fields[i].field.ident is Some);
        }
    }
}

/// Whether every field has a name, and that name starts with `prefix`.
pub open spec fn all_start_with(fields: Seq<BlockFieldModel>, prefix: Seq<char>) -> bool {
    forall|i: int|
        0 <= i < fields.len() ==> (#[trigger] fields[i]).field.ident is Some && prefix.is_prefix_of(
            fields[i].field.ident->0,
        )
}

/// The description of one field more is joined to the others behind a space, unless it is what has
/// been joined already; the first description stands alone.
pub proof fn law_one_description_more(fields: Seq<BlockFieldModel>, f: BlockFieldModel)
    ensures
        joined_descriptions(Seq::empty()) == Seq::<char>::empty(),
        joined_descriptions(seq![f]) == f.description,
        joined_descriptions(fields).len() == 0 ==> joined_descriptions(fields.push(f))
            == f.description,
        f.description == joined_descriptions(fields) ==> joined_descriptions(fields.push(f))
            == joined_descriptions(fields),
        f.description != joined_descriptions(fields) && joined_descriptions(fields).len() > 0
            ==> joined_descriptions(fields.push(f)) == joined_descriptions(fields) + seq![' ']
            + f.description,
{
    assert(fields.push(f).drop_last() =~= fields);
    reveal_with_fuel(joined_descriptions, 2);
    assert(seq![f].drop_last() =~= Seq::<BlockFieldModel>::empty());
    assert(joined_descriptions(seq![f]) =~= f.description);
    let before = joined_descriptions(fields);
    assert(before.push(' ') + f.description =~= before + seq![' '] + f.description);
}

/// A field that is added stands before the other fields of its region that start at the same
/// place, and those keep their order.
pub proof fn law_newest_first(regions: Seq<RegionModel>, field: BlockFieldModel, offset: int)
    ensures
        starting_at(merged(regions, field).fields, offset) == if offset == field.offset {
            seq![field] + starting_at(all_fields(hit(regions, field)), offset)
        } else {
            starting_at(all_fields(hit(regions, field)), offset)
        },
{
    let old = all_fields(hit(regions, field));
    let pool = seq![field] + old;
    law_by_offset(pool);
    assert(starting_at(merged(regions, field).fields, offset) == starting_at(pool, offset));
    lemma_starting_at_front(field, old, offset);
}

proof fn lemma_starting_at_front(f: BlockFieldModel, s: Seq<BlockFieldModel>, offset: int)
    ensures
        starting_at(seq![f] + s, offset) == if offset == f.offset {
            seq![f] + starting_at(s, offset)
        } else {
            starting_at(s, offset)
        },
    decreases s.len(),
{
    reveal_with_fuel(Seq::filter, 2);
    if s.len() == 0 {
        assert(seq![f] + s =~= seq![f]);
        assert(seq![f].drop_last() =~= Seq::<BlockFieldModel>::empty());
        assert(starting_at(seq![f] + s, offset) =~= if offset == f.offset {
            seq![f] + starting_at(s, offset)
        } else {
            starting_at(s, offset)
        });
    } else {
        lemma_starting_at_front(f, s.drop_last(), offset);
        assert((seq![f] + s).drop_last() =~= seq![f] + s.drop_last());
        assert(starting_at(seq![f] + s, offset) =~= if offset == f.offset {
            seq![f] + starting_at(s, offset)
        } else {
            starting_at(s, offset)
        });
    }
}

/// Whether every address strictly inside the region lies strictly inside one of its fields, so
/// that no cut through the region leaves all fields whole.
pub open spec fn is_linked(region: RegionModel) -> bool {
    forall|b: int|
        #![trigger is_bridged(region, b)]
        region.offset < b < region.end ==> is_bridged(region, b)
}

/// Whether the address lies strictly inside one of the region's fields.
pub open spec fn is_bridged(region: RegionModel, address: int) -> bool {
    exists|k: int|
        0 <= k < region.fields.len() && (#[trigger] region.fields[k]).offset < address
            < region.fields[k].end()
}

/// Adding a field keeps regions linked: fields that merely touch are not made one region.
pub proof fn law_added_linked(regions: Seq<RegionModel>, field: BlockFieldModel)
    requires
        regions_wf(regions),
        forall|i: int| 0 <= i < regions.len() ==> is_linked(#[trigger] regions[i]),
    ensures
        forall|i: int|
            0 <= i < added(regions, field).len() ==> is_linked(#[trigger] added(regions, field)[i]),
{
    let new = merged(regions, field);
    let others = missed(regions, field);
    let below = others.filter(|r: RegionModel| r.offset < new.offset);
    let above = others.filter(|r: RegionModel| r.offset >= new.offset);
    let all = added(regions, field);
    lemma_filter(regions, |r: RegionModel| !r.meets(field.offset, field.end()));
    lemma_filter(others, |r: RegionModel| r.offset < new.offset);
    lemma_filter(others, |r: RegionModel| r.offset >= new.offset);
    assert forall|i: int| 0 <= i < all.len() implies is_linked(#[trigger] all[i]) by {
        if i == below.len() {
            assert(all[i] == new);
            assert forall|b: int|
                #![trigger is_bridged(new, b)]
                new.offset < b < new.end implies is_bridged(new, b) by {
                lemma_merged_bridged(regions, field, b);
            }
        } else {
            if i < below.len() {
                assert(all[i] == below[i]);
            } else {
                assert(all[i] == above[i - below.len() - 1]);
            }
            assert(others.contains(all[i]));
            let k = choose|k: int| 0 <= k < others.len() && others[k] == all[i];
            assert(regions.contains(others[k]));
        }
    }
}

proof fn lemma_merged_bridged(regions: Seq<RegionModel>, field: BlockFieldModel, b: int)
    requires
        regions_wf(regions),
        forall|i: int| 0 <= i < regions.len() ==> is_linked(#[trigger] regions[i]),
        merged(regions, field).offset < b < merged(regions, field).end,
    ensures
        is_bridged(merged(regions, field), b),
{
    let new = merged(regions, field);
    let folded = hit(regions, field);
    lemma_hit(regions, field);
    lemma_filter(regions, |r: RegionModel| r.meets(field.offset, field.end()));
    lemma_lowest(folded, field.offset);
    lemma_highest(folded, field.end());
    if field.offset < b < field.end() {
        lemma_merged_contains(regions, field, field);
        let m = choose|m: int| 0 <= m < new.fields.len() && new.fields[m] == field;
        assert(new.fields[m].offset < b < new.fields[m].end());
    } else {
        // The region that reaches furthest on the side of `b` also reaches into the field.
        let i = if b <= field.offset {
            choose|i: int| 0 <= i < folded.len() && (#[trigger] folded[i]).offset == new.offset
        } else {
            choose|i: int| 0 <= i < folded.len() && (#[trigger] folded[i]).end == new.end
        };
        let r = folded[i];
        assert(r.meets(field.offset, field.end()));
        assert(r.offset < b < r.end);
        assert(regions.contains(r));
        assert(is_linked(r));
        assert(is_bridged(r, b));
        let k = choose|k: int|
            0 <= k < r.fields.len() && (#[trigger] r.fields[k]).offset < b < r.fields[k].end();
        let m = lemma_folded_field(regions, field, i, k);
        assert(new.fields[m].offset < b < new.fields[m].end());
    }
}

} // verus!

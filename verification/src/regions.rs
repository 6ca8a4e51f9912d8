use vstd::prelude::*;

use crate::field::{block_fields, BlockFieldModel, RegisterBlockField, BITS_PER_BYTE};
use crate::order::{by_offset, is_ordered, sort_by_offset};
use crate::region_laws::{
    law_added_wf, lemma_filter, lemma_filter_rest, lemma_filter_split, lemma_filter_step,
    lemma_missed_ordered, lemma_removed, lemma_shared_len,
};
use crate::text::{chars_of, string_of};

verus! {

/// A stretch of addresses, and the fields that lie in it.
#[derive(Debug)]
pub struct Region {
    pub fields: Vec<RegisterBlockField>,
    pub offset: u32,
    pub end: u32,
}

/// The mathematical model of a [`Region`].
#[verifier::ext_equal]
pub ghost struct RegionModel {
    pub fields: Seq<BlockFieldModel>,
    pub offset: int,
    pub end: int,
}

impl Region {
    pub open spec fn model(self) -> RegionModel {
        RegionModel {
            fields: block_fields(self.fields@),
            offset: self.offset as int,
            end: self.end as int,
        }
    }
}

/// The models of a list of regions.
pub open spec fn region_models(list: Seq<Region>) -> Seq<RegionModel> {
    Seq::new(list.len(), |i: int| list[i].model())
}

pub open spec fn min_of(a: int, b: int) -> int {
    if a <= b {
        a
    } else {
        b
    }
}

pub open spec fn max_of(a: int, b: int) -> int {
    if a >= b {
        a
    } else {
        b
    }
}

impl RegionModel {
    /// Whether the region and the bytes from `start` up to `stop` have a byte in common.
    pub open spec fn meets(self, start: int, stop: int) -> bool {
        max_of(self.offset, start) < min_of(self.end, stop)
    }

    /// The region is what its fields make it: it starts with the lowest and ends with the
    /// highest of them, each of its bytes belongs to one of them, and they stand in order.
    pub open spec fn wf(self) -> bool {
        &&& self.fields.len() > 0
        &&& is_ordered(self.fields)
        &&& self.offset <= self.end
        &&& exists|k: int|
            0 <= k < self.fields.len() && (#[trigger] self.fields[k]).offset == self.offset
        &&& exists|k: int|
            0 <= k < self.fields.len() && (#[trigger] self.fields[k]).end() == self.end
        &&& forall|k: int|
            0 <= k < self.fields.len() ==> self.offset <= (#[trigger] self.fields[k]).offset
                <= self.fields[k].end() <= self.end
        &&& forall|b: int| #![trigger self.holds(b)] self.offset <= b < self.end ==> self.holds(b)
    }

    /// Whether one of the region's fields covers the byte at `address`.
    pub open spec fn holds(self, address: int) -> bool {
        exists|k: int| 0 <= k < self.fields.len() && (#[trigger] self.fields[k]).covers(address)
    }
}

/// A list of regions as [`FieldRegions`] keeps it: in the order of their offsets, of which no two
/// are equal, and without a byte that belongs to two regions.
pub open spec fn regions_wf(regions: Seq<RegionModel>) -> bool {
    &&& forall|i: int| 0 <= i < regions.len() ==> (#[trigger] regions[i]).wf()
    &&& forall|i: int, j: int| 0 <= i < j < regions.len() ==> regions[i].offset < regions[j].offset
    &&& forall|i: int, j: int|
        0 <= i < j < regions.len() ==> !(#[trigger] regions[i]).meets(
            (#[trigger] regions[j]).offset,
            regions[j].end,
        )
}

/// The regions that `field` has a byte in common with.
pub open spec fn hit(regions: Seq<RegionModel>, field: BlockFieldModel) -> Seq<RegionModel> {
    regions.filter(|r: RegionModel| r.meets(field.offset, field.end()))
}

/// The regions that `field` has no byte in common with.
pub open spec fn missed(regions: Seq<RegionModel>, field: BlockFieldModel) -> Seq<RegionModel> {
    regions.filter(|r: RegionModel| !r.meets(field.offset, field.end()))
}

/// The fields of all regions, region by region.
pub open spec fn all_fields(regions: Seq<RegionModel>) -> Seq<BlockFieldModel>
    decreases regions.len(),
{
    if regions.len() == 0 {
        Seq::empty()
    } else {
        all_fields(regions.drop_last()) + regions.last().fields
    }
}

/// The least of `start` and the offsets of the regions.
pub open spec fn lowest(regions: Seq<RegionModel>, start: int) -> int
    decreases regions.len(),
{
    if regions.len() == 0 {
        start
    } else {
        min_of(lowest(regions.drop_last(), start), regions.last().offset)
    }
}

/// The greatest of `stop` and the ends of the regions.
pub open spec fn highest(regions: Seq<RegionModel>, stop: int) -> int
    decreases regions.len(),
{
    if regions.len() == 0 {
        stop
    } else {
        max_of(highest(regions.drop_last(), stop), regions.last().end)
    }
}

/// The region that `field` and the regions it hits become.
pub open spec fn merged(regions: Seq<RegionModel>, field: BlockFieldModel) -> RegionModel {
    let folded = hit(regions, field);
    RegionModel {
        fields: by_offset(seq![field] + all_fields(folded)),
        offset: lowest(folded, field.offset),
        end: highest(folded, field.end()),
    }
}

/// The regions after `field` has been added: it and the regions that it hits become one, which
/// takes its place by offset among the others.
pub open spec fn added(regions: Seq<RegionModel>, field: BlockFieldModel) -> Seq<RegionModel> {
    let new = merged(regions, field);
    let others = missed(regions, field);
    others.filter(|r: RegionModel| r.offset < new.offset) + seq![new] + others.filter(
        |r: RegionModel| r.offset >= new.offset,
    )
}

/// Whether `field` can be added: it ends within the address space, and no region that it misses
/// starts where the merged region does. Only a region or a field of no bytes can stand in the way.
pub open spec fn can_add(regions: Seq<RegionModel>, field: BlockFieldModel) -> bool {
    &&& field.end() <= u32::MAX
    &&& forall|i: int|
        0 <= i < missed(regions, field).len() ==> (#[trigger] missed(regions, field)[i]).offset
            != merged(regions, field).offset
}

/// The names of the fields, as far as all of them have one.
pub open spec fn names_of(fields: Seq<BlockFieldModel>) -> Option<Seq<Seq<char>>> {
    if forall|i: int| 0 <= i < fields.len() ==> (#[trigger] fields[i]).field.ident is Some {
        Some(Seq::new(fields.len(), |i: int| fields[i].field.ident->0))
    } else {
        None
    }
}

/// The number of characters that `a` and `b` start with in common.
pub open spec fn shared_len(a: Seq<char>, b: Seq<char>) -> nat
    decreases a.len(),
{
    if a.len() > 0 && b.len() > 0 && a[0] == b[0] {
        1 + shared_len(a.skip(1), b.skip(1))
    } else {
        0
    }
}

/// What all names start with in common.
pub open spec fn shared_start(names: Seq<Seq<char>>) -> Seq<char>
    decreases names.len(),
{
    if names.len() == 0 {
        Seq::empty()
    } else if names.len() == 1 {
        names[0]
    } else {
        let front = shared_start(names.drop_last());
        front.take(shared_len(front, names.last()) as int)
    }
}

/// The longest common prefix of the names of the fields; `None` where a field has no name, or
/// the names have no common prefix.
pub open spec fn prefix_of(fields: Seq<BlockFieldModel>) -> Option<Seq<char>> {
    match names_of(fields) {
        Some(names) if shared_start(names).len() > 0 => Some(shared_start(names)),
        _ => None,
    }
}

/// Whether every name starts with `prefix`.
pub open spec fn is_common_prefix(names: Seq<Seq<char>>, prefix: Seq<char>) -> bool {
    forall|i: int| 0 <= i < names.len() ==> prefix.is_prefix_of(#[trigger] names[i])
}

/// The descriptions of the fields, one behind the other; one that equals what has been joined so
/// far is not joined again.
pub open spec fn joined_descriptions(fields: Seq<BlockFieldModel>) -> Seq<char>
    decreases fields.len(),
{
    if fields.len() == 0 {
        Seq::empty()
    } else {
        let before = joined_descriptions(fields.drop_last());
        let next = fields.last().description;
        if next == before {
            before
        } else if before.len() > 0 {
            before.push(' ') + next
        } else {
            next
        }
    }
}

impl Region {
    /// Find the longest common prefix of the identifier names for the fields in this region, if
    /// any.
    pub fn common_prefix(&self) -> (r: Option<String>)
        requires
            self.fields@.len() > 0,
        ensures
            r is Some <==> prefix_of(self.model().fields) is Some,
            r matches Some(s) ==> s@ == prefix_of(self.model().fields)->0,
    {
        let ghost fields = self.model().fields;
        let mut start: Vec<char> = Vec::new();
        let mut i: usize = 0;
        let ghost names = Seq::new(fields.len(), |i: int| fields[i].field.ident->0);
        while i < self.fields.len()
            invariant
                i <= self.fields@.len(),
                fields == block_fields(self.fields@),
                names == Seq::new(fields.len(), |i: int| fields[i].field.ident->0),
                forall|j: int| 0 <= j < i ==> (#[trigger] fields[j]).field.ident is Some,
                start@ == shared_start(names.take(i as int)),
            decreases self.fields@.len() - i,
        {
            assert(fields[i as int] == self.fields@[i as int].model());
            match &self.fields[i].field.ident {
                None => {
                    return None;
                },
                Some(ident) => {
                    let chars = chars_of(ident.as_str());
                    assert(names.take(i + 1).drop_last() =~= names.take(i as int));
                    assert(names.take(i + 1).last() == ident@);
                    if i == 0 {
                        start = chars;
                    } else {
                        shorten(&mut start, &chars);
                    }
                },
            }
            i += 1;
        }
        assert(names.take(i as int) =~= names);
        assert(names_of(fields) == Some(names));
        let n: usize = start.len();
        if n == 0 {
            None
        } else {
            let s = string_of(&start, 0, n);
            assert(s@ =~= shared_start(names));
            Some(s)
        }
    }

    /// Return a description of this region.
    pub fn description(&self) -> (r: String)
        ensures
            r@ == joined_descriptions(self.model().fields),
    {
        let ghost fields = self.model().fields;
        let mut result = String::new();
        let mut i: usize = 0;
        while i < self.fields.len()
            invariant
                i <= self.fields@.len(),
                fields == block_fields(self.fields@),
                result@ == joined_descriptions(fields.take(i as int)),
            decreases self.fields@.len() - i,
        {
            assert(fields.take(i + 1).drop_last() =~= fields.take(i as int));
            assert(fields.take(i + 1).last() == self.fields@[i as int].model());
            let next = &self.fields[i].description;
            // The variants of a union tend to be described alike. A text is joined only where
            // it differs from what is there.
            if *next != result {
                if !result.as_str().is_empty() {
                    result.push(' ');
                }
                let ghost before = result@;
                result.append(next.as_str());
                assert(result@ =~= before + next@);
                assert(Seq::<char>::empty() + next@ =~= next@);
            }
            i += 1;
        }
        assert(fields.take(i as int) =~= fields);
        result
    }
}

/// Cuts `start` down to what it has in common with the start of `other`.
fn shorten(start: &mut Vec<char>, other: &Vec<char>)
    ensures
        final(start)@ == old(start)@.take(shared_len(old(start)@, other@) as int),
{
    let ghost a = start@;
    let ghost b = other@;
    let mut n: usize = 0;
    proof {
        lemma_shared_len(a, b);
    }
    while n < start.len() && n < other.len() && start[n] == other[n]
        invariant
            a == start@,
            b == other@,
            n <= a.len(),
            n <= b.len(),
            n <= shared_len(a, b),
            shared_len(a, b) < a.len() && shared_len(a, b) < b.len() ==> a[shared_len(a, b) as int]
                != b[shared_len(a, b) as int],
            shared_len(a, b) <= a.len(),
            shared_len(a, b) <= b.len(),
        decreases a.len() - n,
    {
        n += 1;
    }
    assert(n == shared_len(a, b)) by {
        lemma_shared_len(a, b);
    }
    start.truncate(n);
}

/// FieldRegions keeps track of overlapping field regions, merging fields into appropriate regions
/// as we process them. This allows us to reason about when to create a union rather than a
/// struct.
#[derive(Debug)]
pub struct FieldRegions {
    /// The set of regions we know about. This is maintained in sorted order, keyed by
    /// `Region::offset`.
    pub regions: Vec<Region>,
}

impl Default for FieldRegions {
    fn default() -> (r: FieldRegions)
        ensures
            r.model() == Seq::<RegionModel>::empty(),
            r.wf(),
    {
        let r = FieldRegions { regions: Vec::new() };
        assert(r.model() =~= Seq::<RegionModel>::empty());
        r
    }
}

impl FieldRegions {
    pub open spec fn model(self) -> Seq<RegionModel> {
        region_models(self.regions@)
    }

    pub open spec fn wf(self) -> bool {
        regions_wf(self.model())
    }

    /// Tells whether `field` can be added.
    pub fn has_room_for(&self, field: &RegisterBlockField) -> (b: bool)
        requires
            self.wf(),
        ensures
            b == can_add(self.model(), field.model()),
    {
        let ghost f = field.model();
        let ghost all = self.model();
        let start = field.offset;
        let size = field.size / BITS_PER_BYTE;
        if start > u32::MAX - size {
            return false;
        }
        let stop = start + size;
        let mut low = start;
        let mut i: usize = 0;
        assert(hit(all.take(0), f) =~= Seq::<RegionModel>::empty()) by {
            reveal(Seq::filter);
        }
        while i < self.regions.len()
            invariant
                i <= self.regions@.len(),
                all == region_models(self.regions@),
                f == field.model(),
                start == f.offset,
                stop == f.end(),
                low == lowest(hit(all.take(i as int), f), f.offset),
            decreases self.regions@.len() - i,
        {
            let r = &self.regions[i];
            proof {
                assert(all[i as int] == r.model());
                lemma_filter_step(all, i as int, |r: RegionModel| r.meets(f.offset, f.end()));
                let folded = hit(all.take(i as int), f);
                assert(folded.push(r.model()).drop_last() =~= folded);
            }
            if meet(r, start, stop) && r.offset < low {
                low = r.offset;
            }
            i += 1;
        }
        assert(all.take(i as int) =~= all);
        let mut j: usize = 0;
        while j < self.regions.len()
            invariant
                j <= self.regions@.len(),
                all == region_models(self.regions@),
                f == field.model(),
                start == f.offset,
                stop == f.end(),
                stop <= u32::MAX,
                low == merged(all, f).offset,
                forall|k: int|
                    0 <= k < missed(all.take(j as int), f).len() ==> (#[trigger] missed(
                        all.take(j as int),
                        f,
                    )[k]).offset != low,
            decreases self.regions@.len() - j,
        {
            let r = &self.regions[j];
            proof {
                assert(all[j as int] == r.model());
                lemma_filter_step(all, j as int, |r: RegionModel| !r.meets(f.offset, f.end()));
            }
            if !meet(r, start, stop) && r.offset == low {
                proof {
                    lemma_filter(all, |r: RegionModel| !r.meets(f.offset, f.end()));
                    assert(missed(all, f).contains(all[j as int]));
                    let k = choose|k: int|
                        0 <= k < missed(all, f).len() && missed(all, f)[k] == all[j as int];
                    assert(missed(all, f)[k].offset == merged(all, f).offset);
                }
                return false;
            }
            let ghost before = missed(all.take(j as int), f);
            j += 1;
            assert forall|k: int| 0 <= k < missed(all.take(j as int), f).len() implies (
            #[trigger] missed(all.take(j as int), f)[k]).offset != low by {
                if k < before.len() {
                    assert(before[k].offset != low);
                }
            }
        }
        assert(all.take(j as int) =~= all);
        true
    }

    /// Track a field. If the field overlaps with 1 or more existing entries, they will be merged
    /// together.
    pub fn add(&mut self, field: &RegisterBlockField)
        requires
            old(self).wf(),
            can_add(old(self).model(), field.model()),
        ensures
            final(self).wf(),
            final(self).model() == added(old(self).model(), field.model()),
    {
        let ghost all = self.model();
        let region = self.fold(field);
        proof {
            law_added_wf(all, field.model());
            lemma_missed_ordered(all, field.model());
        }
        self.insert(region);
    }

    /// Removes the regions that the field meets, and makes one region of them and the field.
    fn fold(&mut self, field: &RegisterBlockField) -> (region: Region)
        requires
            field.model().end() <= u32::MAX,
        ensures
            final(self).model() == missed(old(self).model(), field.model()),
            region.model() == merged(old(self).model(), field.model()),
    {
        let ghost f = field.model();
        let ghost all = self.model();
        let start = field.offset;
        let stop = start + field.size / BITS_PER_BYTE;
        let mut fields: Vec<RegisterBlockField> = Vec::new();
        fields.push(field.clone());
        let mut offset = start;
        let mut end = stop;

        // There may be multiple regions that we intersect with, so we keep looping to find them
        // all.
        let mut i: usize = 0;
        let ghost mut k: int = 0;
        proof {
            reveal(Seq::filter);
            assert(hit(all.take(0), f) =~= Seq::<RegionModel>::empty());
            assert(missed(all.take(0), f) =~= Seq::<RegionModel>::empty());
            assert(self.model() =~= missed(all.take(0), f) + all.skip(0));
            assert(block_fields(fields@) =~= seq![f] + all_fields(hit(all.take(0), f)));
        }
        while i < self.regions.len()
            invariant
                0 <= k <= all.len(),
                f == field.model(),
                start == f.offset,
                stop == f.end(),
                i == missed(all.take(k), f).len(),
                self.model() == missed(all.take(k), f) + all.skip(k),
                block_fields(fields@) == seq![f] + all_fields(hit(all.take(k), f)),
                offset == lowest(hit(all.take(k), f), f.offset),
                end == highest(hit(all.take(k), f), f.end()),
            decreases self.regions@.len() - i,
        {
            let ghost before = self.model();
            let ghost folded = hit(all.take(k), f);
            let ghost others = missed(all.take(k), f);
            let ghost r = all[k];
            proof {
                assert(before[i as int] == self.regions@[i as int].model());
                assert(before[i as int] == r);
                lemma_filter_step(all, k, |r: RegionModel| r.meets(f.offset, f.end()));
                lemma_filter_step(all, k, |r: RegionModel| !r.meets(f.offset, f.end()));
            }
            if meet(&self.regions[i], start, stop) {
                let ghost listed = self.regions@;
                let mut gone = self.regions.remove(i);
                // Expand the new region.
                if gone.offset < offset {
                    offset = gone.offset;
                }
                if gone.end > end {
                    end = gone.end;
                }
                let ghost so_far = block_fields(fields@);
                let ghost moved = gone.fields@;
                // And merge in the fields.
                fields.append(&mut gone.fields);
                proof {
                    assert(block_fields(fields@) =~= so_far + block_fields(moved));
                    assert(folded.push(r).drop_last() =~= folded);
                    assert(so_far + r.fields =~= seq![f] + all_fields(folded.push(r)));
                    lemma_removed(listed, i as int, others, all.skip(k));
                    assert(all.skip(k).skip(1) =~= all.skip(k + 1));
                    k = k + 1;
                }
            } else {
                i += 1;
                proof {
                    assert(others + all.skip(k) =~= others.push(r) + all.skip(k + 1));
                    k = k + 1;
                }
            }
        }
        proof {
            assert(k == all.len());
            assert(all.take(k) =~= all);
            assert(self.model() =~= missed(all, f));
        }
        Region { fields: sort_by_offset(fields), offset, end }
    }

    /// Puts a region in its place by offset.
    fn insert(&mut self, region: Region)
        requires
            forall|a: int, b: int|
                0 <= a < b < old(self).model().len() ==> old(self).model()[a].offset
                    < old(self).model()[b].offset,
        ensures
            final(self).model() == old(self).model().filter(
                |r: RegionModel| r.offset < region.model().offset,
            ) + seq![region.model()] + old(self).model().filter(
                |r: RegionModel| r.offset >= region.model().offset,
            ),
    {
        let ghost others = self.model();
        let ghost new = region.model();
        let offset = region.offset;
        let mut low: usize = 0;
        let mut high: usize = self.regions.len();
        while low < high
            invariant
                low <= high <= self.regions@.len(),
                others == region_models(self.regions@),
                forall|a: int, b: int|
                    0 <= a < b < others.len() ==> others[a].offset < others[b].offset,
                forall|a: int| 0 <= a < low ==> (#[trigger] others[a]).offset < offset,
                forall|a: int| high <= a < others.len() ==> (#[trigger] others[a]).offset >= offset,
            decreases high - low,
        {
            let mid = low + (high - low) / 2;
            assert(others[mid as int] == self.regions@[mid as int].model());
            if self.regions[mid].offset < offset {
                low = mid + 1;
            } else {
                high = mid;
            }
        }
        proof {
            lemma_filter_split(others, low as int, |r: RegionModel| r.offset < new.offset);
            lemma_filter_rest(others, low as int, |r: RegionModel| r.offset >= new.offset);
        }
        self.regions.insert(low, region);
        assert(self.model() =~= others.take(low as int) + seq![new] + others.skip(low as int));
    }
}

/// Tells whether the region and the bytes from `start` up to `stop` have a byte in common.
fn meet(r: &Region, start: u32, stop: u32) -> (b: bool)
    ensures
        b == r.model().meets(start as int, stop as int),
{
    let begin = if r.offset > start {
        r.offset
    } else {
        start
    };
    let end = if r.end < stop {
        r.end
    } else {
        stop
    };
    end > begin
}

} // verus!

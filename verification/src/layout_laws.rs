use vstd::prelude::*;

use crate::block::{
    block_body, block_def, block_text, documented_field, gaps_fit, helper_types, is_union,
    needs_union, padding, region_fields, regions_of, union_def, union_field,
};
use crate::device::{Defaults, NodeModel};
use crate::error::ErrorModel;
use crate::expand::expansion;
use crate::field::BlockFieldModel;
use crate::name_laws::lemma_padded;
use crate::names::Conventions;
use crate::regions::{joined_descriptions, prefix_of, RegionModel};
use crate::text::{decimal, numeral, zero_padded};
use crate::text_laws::{all_digits, law_numeral, law_zero_padded, reading};
use crate::token_laws::{law_glued, law_spaced};
use crate::tokens::{field_text, glued, quoted, spaced};

verus! {

/// What stands between the braces of a block: bytes that are kept free before a region, or the
/// field or fields of a region.
pub ghost enum Item {
    Reserved(int, int),
    Region(int),
}

/// The bytes that an item takes.
pub open spec fn bytes_of(regions: Seq<RegionModel>, item: Item) -> int {
    match item {
        Item::Reserved(_, bytes) => bytes,
        Item::Region(i) => regions[i].end - regions[i].offset,
    }
}

/// The bytes that the items take together.
pub open spec fn all_bytes(regions: Seq<RegionModel>, items: Seq<Item>) -> int
    decreases items.len(),
{
    if items.len() == 0 {
        0
    } else {
        all_bytes(regions, items.drop_last()) + bytes_of(regions, items.last())
    }
}

/// The names of the field and of the type for a union.
pub open spec fn names_of_union(region: RegionModel, i: int) -> (Seq<char>, Seq<char>) {
    match prefix_of(region.fields) {
        Some(prefix) => (prefix, prefix + "_union"@),
        None => ("u"@ + decimal(i as nat), "u"@ + decimal(i as nat)),
    }
}

/// All fields, one behind the other.
pub open spec fn in_a_row<N: Conventions>(style: N, fields: Seq<BlockFieldModel>) -> Seq<char> {
    spaced(Seq::new(fields.len(), |k: int| documented_field(style, fields[k])))
}

/// An item as it is written. Where a block has several regions, one of several fields is a single
/// field of a union type.
pub open spec fn item_text<N: Conventions>(
    style: N,
    regions: Seq<RegionModel>,
    item: Item,
) -> Seq<char> {
    match item {
        Item::Reserved(number, bytes) => spaced(
            seq![
                "_reserved"@ + decimal(number as nat),
                ": [ u8 ;"@,
                decimal(bytes as nat) + "usize"@,
                "] ,"@,
            ],
        ),
        Item::Region(i) => if regions.len() > 1 && regions[i].fields.len() > 1 {
            spaced(
                seq![
                    "# [ doc ="@,
                    quoted(joined_descriptions(regions[i].fields)),
                    "] pub"@,
                    names_of_union(regions[i], i).0,
                    ":"@,
                    names_of_union(regions[i], i).1,
                    ","@,
                ],
            )
        } else {
            in_a_row(style, regions[i].fields)
        },
    }
}

/// The items as they are written.
pub open spec fn item_texts<N: Conventions>(
    style: N,
    regions: Seq<RegionModel>,
    items: Seq<Item>,
) -> Seq<Seq<char>> {
    Seq::new(items.len(), |p: int| item_text(style, regions, items[p]))
}

/// Whether a region is among the items.
pub open spec fn occurs(items: Seq<Item>, i: int) -> bool {
    exists|p: int| 0 <= p < items.len() && #[trigger] items[p] == Item::Region(i)
}

/// Whether the item at `p` stands where it should: a region just behind as many bytes as there are
/// from the start of the block to it, and free bytes, if any, right before the region that they
/// are numbered by.
pub open spec fn is_placed(regions: Seq<RegionModel>, items: Seq<Item>, p: int) -> bool {
    match items[p] {
        Item::Region(i) => 0 <= i < regions.len() && all_bytes(regions, items.take(p))
            == regions[i].offset - regions[0].offset,
        Item::Reserved(i, bytes) => bytes > 0 && p + 1 < items.len() && items[p + 1]
            == Item::Region(i),
    }
}

/// Whether the items lay out the regions: each region occurs once, in turn, and every item stands
/// where it should.
pub open spec fn lays_out(regions: Seq<RegionModel>, items: Seq<Item>) -> bool {
    &&& forall|i: int| 0 <= i < regions.len() ==> #[trigger] occurs(items, i)
    &&& forall|p: int| 0 <= p < items.len() ==> #[trigger] is_placed(regions, items, p)
    &&& forall|p: int, q: int|
        0 <= p < q < items.len() ==> (#[trigger] items[p] matches Item::Region(i) ==> (
        #[trigger] items[q] matches Item::Region(j) ==> i < j))
}

/// The items for the first `k` regions.
spec fn items_for(regions: Seq<RegionModel>, k: int) -> Seq<Item>
    decreases k,
{
    if k <= 0 {
        Seq::empty()
    } else {
        let before = items_for(regions, k - 1);
        let free = if k > 1 {
            regions[k - 1].offset - regions[k - 2].end
        } else {
            0
        };
        if free != 0 {
            before.push(Item::Reserved(k - 1, free)).push(Item::Region(k - 1))
        } else {
            before.push(Item::Region(k - 1))
        }
    }
}

/// Where the items for the first `k` regions stand.
proof fn lemma_items(regions: Seq<RegionModel>, k: int)
    requires
        gaps_fit(regions),
        0 <= k <= regions.len(),
    ensures
        ({
            let items = items_for(regions, k);
            &&& k > 0 ==> items.len() > 0 && items.last() == Item::Region(k - 1) && all_bytes(
                regions,
                items,
            ) == regions[k - 1].end - regions[0].offset
            &&& k == 0 ==> items.len() == 0
            &&& forall|i: int| 0 <= i < k ==> #[trigger] occurs(items, i)
            &&& forall|p: int| 0 <= p < items.len() ==> #[trigger] is_placed(regions, items, p)
            &&& forall|p: int|
                0 <= p < items.len() ==> (#[trigger] items[p] matches Item::Region(i) ==> i < k)
            &&& forall|p: int, q: int|
                0 <= p < q < items.len() ==> (#[trigger] items[p] matches Item::Region(i) ==> (
                #[trigger] items[q] matches Item::Region(j) ==> i < j))
        }),
    decreases k,
{
    if k > 0 {
        lemma_items(regions, k - 1);
        let before = items_for(regions, k - 1);
        let items = items_for(regions, k);
        let free = if k > 1 {
            regions[k - 1].offset - regions[k - 2].end
        } else {
            0
        };
        let m = before.len() as int;
        assert(items.take(m) =~= before);
        if k > 1 {
            assert(regions[k - 2].end <= regions[k - 1].offset);
        }
        assert(all_bytes(regions, Seq::<Item>::empty()) == 0);
        if free != 0 {
            let middle = before.push(Item::Reserved(k - 1, free));
            assert(middle.drop_last() =~= before);
            assert(items.drop_last() =~= middle);
            assert(items.take(m + 1) =~= middle);
            assert(all_bytes(regions, middle) == all_bytes(regions, before) + free);
            assert(all_bytes(regions, items) == all_bytes(regions, middle) + bytes_of(
                regions,
                Item::Region(k - 1),
            ));
        } else {
            assert(items.drop_last() =~= before);
            assert(all_bytes(regions, items) == all_bytes(regions, before) + bytes_of(
                regions,
                Item::Region(k - 1),
            ));
        }
        if k == 1 {
            assert(before =~= Seq::<Item>::empty());
        }
        assert forall|i: int| 0 <= i < k implies #[trigger] occurs(items, i) by {
            if i < k - 1 {
                assert(occurs(before, i));
                let p = choose|p: int|
                    0 <= p < before.len() && #[trigger] before[p] == Item::Region(i);
                assert(items[p] == Item::Region(i));
            } else {
                assert(items[items.len() - 1] == Item::Region(i));
            }
        }
        assert forall|p: int| 0 <= p < items.len() implies #[trigger] is_placed(
            regions,
            items,
            p,
        ) by {
            if p < m {
                assert(is_placed(regions, before, p));
                assert(items[p] == before[p]);
                assert(items.take(p) =~= before.take(p));
                if p + 1 < m {
                    assert(items[p + 1] == before[p + 1]);
                }
            }
        }
        assert forall|p: int| 0 <= p < items.len() implies (
        #[trigger] items[p] matches Item::Region(i) ==> i < k) by {
            if p < m {
                assert(items[p] == before[p]);
            }
        }
        assert forall|p: int, q: int| 0 <= p < q < items.len() implies (
        #[trigger] items[p] matches Item::Region(i) ==> (
        #[trigger] items[q] matches Item::Region(j) ==> i < j)) by {
            if p < m {
                assert(items[p] == before[p]);
            }
            if q < m {
                assert(items[q] == before[q]);
            }
        }
    }
}

/// The text for the first `k` regions is that of their items.
proof fn lemma_body<N: Conventions>(style: N, regions: Seq<RegionModel>, k: int)
    requires
        0 <= k <= regions.len(),
    ensures
        block_body(style, regions, k) == spaced(
            item_texts(style, regions, items_for(regions, k)),
        ),
    decreases k,
{
    let items = items_for(regions, k);
    let all = item_texts(style, regions, items);
    if k == 0 {
        assert(all =~= Seq::<Seq<char>>::empty());
        assert(block_body(style, regions, k) =~= spaced(all));
    } else {
        lemma_body(style, regions, k - 1);
        let before = items_for(regions, k - 1);
        let front = item_texts(style, regions, before);
        let free = if k > 1 {
            regions[k - 1].offset - regions[k - 2].end
        } else {
            0
        };
        let own = item_text(style, regions, Item::Region(k - 1));
        lemma_region_text(style, regions, k - 1);
        if free != 0 {
            let gap = item_text(style, regions, Item::Reserved(k - 1, free));
            assert(all =~= front + seq![gap] + seq![own]);
            law_spaced(front, seq![gap], gap);
            law_spaced(front + seq![gap], seq![own], own);
            assert(padding(regions, k - 1) == gap);
        } else {
            assert(all =~= front + seq![own]);
            law_spaced(front, seq![own], own);
            assert(padding(regions, k - 1) =~= Seq::<char>::empty());
            law_glued(spaced(front), Seq::empty(), own);
        }
        let padded = glued(spaced(front), padding(regions, k - 1));
        law_glued(padded, union_field(regions, k - 1), ","@);
    }
}

proof fn lemma_region_text<N: Conventions>(style: N, regions: Seq<RegionModel>, i: int)
    requires
        0 <= i < regions.len(),
    ensures
        needs_union(regions, i) <==> regions.len() > 1 && regions[i].fields.len() > 1,
        item_text(style, regions, Item::Region(i)) == if needs_union(regions, i) {
            glued(union_field(regions, i), ","@)
        } else {
            region_fields(style, regions[i].fields)
        },
{
    lemma_row(style, regions[i].fields);
    let pieces = seq![
        "# [ doc ="@,
        quoted(joined_descriptions(regions[i].fields)),
        "] pub"@,
        names_of_union(regions[i], i).0,
        ":"@,
        names_of_union(regions[i], i).1,
        ","@,
    ];
    assert(pieces.drop_last() =~= seq![
        "# [ doc ="@,
        quoted(joined_descriptions(regions[i].fields)),
        "] pub"@,
        names_of_union(regions[i], i).0,
        ":"@,
        names_of_union(regions[i], i).1,
    ]);
    assert(spaced(pieces) == glued(spaced(pieces.drop_last()), ","@));
}

proof fn lemma_row<N: Conventions>(style: N, fields: Seq<BlockFieldModel>)
    ensures
        region_fields(style, fields) == in_a_row(style, fields),
    decreases fields.len(),
{
    let row = Seq::new(fields.len(), |k: int| documented_field(style, fields[k]));
    if fields.len() == 0 {
        assert(region_fields(style, fields) =~= spaced(row));
    } else {
        let front = fields.drop_last();
        lemma_row(style, front);
        assert(row.drop_last() =~= Seq::new(
            front.len(),
            |k: int| documented_field(style, front[k]),
        ));
    }
}

/// The fields of a block, as they are written, put every region at its offset: before it stand
/// free bytes and regions that take just the bytes from the start of the block to it. There are as
/// many free bytes as the description leaves between two regions.
pub proof fn law_every_region_at_its_offset<N: Conventions>(style: N, regions: Seq<RegionModel>)
    requires
        gaps_fit(regions),
    ensures
        exists|items: Seq<Item>| #[trigger]
            lays_out(regions, items) && block_body(style, regions, regions.len() as int) == spaced(
                item_texts(style, regions, items),
            ),
{
    lemma_items(regions, regions.len() as int);
    lemma_body(style, regions, regions.len() as int);
    assert(lays_out(regions, items_for(regions, regions.len() as int)));
}

/// Before a region, just the bytes between it and the region in front of it are kept free, as the
/// text says, and nothing is written where there are none.
pub proof fn law_free_bytes_before_region<N: Conventions>(
    style: N,
    regions: Seq<RegionModel>,
    i: int,
)
    requires
        gaps_fit(regions),
        0 < i < regions.len(),
    ensures
        ({
            let free = regions[i].offset - regions[i - 1].end;
            let before = block_body(style, regions, i);
            let own = item_text(style, regions, Item::Region(i));
            block_body(style, regions, i + 1) == if free > 0 {
                glued(glued(before, item_text(style, regions, Item::Reserved(i, free))), own)
            } else {
                glued(before, own)
            }
        }),
{
    lemma_region_text(style, regions, i);
    assert(regions[i - 1].end <= regions[i].offset);
    let before = block_body(style, regions, i);
    law_glued(before, padding(regions, i), ","@);
    let padded = glued(before, padding(regions, i));
    law_glued(padded, union_field(regions, i), ","@);
}

/// The definition of a union: its description, its name, and its fields.
pub open spec fn union_text<N: Conventions>(
    style: N,
    regions: Seq<RegionModel>,
    i: int,
) -> Seq<char> {
    spaced(
        seq![
            "# [ doc ="@,
            quoted(joined_descriptions(regions[i].fields)),
            "] # [ repr ( C ) ] pub union"@,
            names_of_union(regions[i], i).1,
            "{"@,
            in_a_row(style, regions[i].fields),
            "}"@,
        ],
    )
}

/// Whether the list names, in turn and once each, the regions that become a union within a block.
pub open spec fn lists_unions(regions: Seq<RegionModel>, list: Seq<int>) -> bool {
    &&& forall|j: int, k: int| 0 <= j < k < list.len() ==> list[j] < list[k]
    &&& forall|i: int| #[trigger]
        list.contains(i) <==> 0 <= i < regions.len() && regions.len() > 1 && regions[i].fields.len()
            > 1
}

/// The definitions of the unions that are listed.
pub open spec fn union_texts<N: Conventions>(
    style: N,
    regions: Seq<RegionModel>,
    list: Seq<int>,
) -> Seq<Seq<char>> {
    Seq::new(list.len(), |j: int| union_text(style, regions, list[j]))
}

/// Behind a block stands the definition of every union that its fields name, once each and in
/// their order, and nothing else.
pub proof fn law_every_union_is_defined<N: Conventions>(style: N, regions: Seq<RegionModel>)
    ensures
        exists|list: Seq<int>| #[trigger]
            lists_unions(regions, list) && helper_types(style, regions, regions.len() as int)
                == spaced(union_texts(style, regions, list)),
{
    lemma_unions(style, regions, regions.len() as int);
    let list = unions_in(regions, regions.len() as int);
    assert(lists_unions(regions, list));
}

spec fn unions_in(regions: Seq<RegionModel>, k: int) -> Seq<int>
    decreases k,
{
    if k <= 0 {
        Seq::empty()
    } else if regions.len() > 1 && regions[k - 1].fields.len() > 1 {
        unions_in(regions, k - 1).push(k - 1)
    } else {
        unions_in(regions, k - 1)
    }
}

proof fn lemma_unions<N: Conventions>(style: N, regions: Seq<RegionModel>, k: int)
    requires
        0 <= k <= regions.len(),
    ensures
        ({
            let list = unions_in(regions, k);
            &&& helper_types(style, regions, k) == spaced(union_texts(style, regions, list))
            &&& forall|j: int, m: int| 0 <= j < m < list.len() ==> list[j] < list[m]
            &&& forall|i: int| #[trigger]
                list.contains(i) <==> 0 <= i < k && regions.len() > 1 && regions[i].fields.len() > 1
        }),
    decreases k,
{
    let list = unions_in(regions, k);
    let all = union_texts(style, regions, list);
    if k == 0 {
        assert(all =~= Seq::<Seq<char>>::empty());
        assert(helper_types(style, regions, k) =~= spaced(all));
    } else {
        lemma_unions(style, regions, k - 1);
        let before = unions_in(regions, k - 1);
        lemma_region_text(style, regions, k - 1);
        lemma_row(style, regions[k - 1].fields);
        if needs_union(regions, k - 1) {
            assert(all.drop_last() =~= union_texts(style, regions, before));
            assert(all.last() == union_text(style, regions, k - 1));
            assert(union_def(style, regions, k - 1) == union_text(style, regions, k - 1));
            assert forall|j: int, m: int| 0 <= j < m < list.len() implies list[j] < list[m] by {
                if m == before.len() {
                    assert(before.contains(before[j]));
                }
            }
            assert forall|i: int| #[trigger] list.contains(i) <==> 0 <= i < k && regions.len() > 1
                && regions[i].fields.len() > 1 by {
                if i == k - 1 {
                    assert(list[before.len() as int] == i);
                } else {
                    if before.contains(i) {
                        let m = choose|m: int| 0 <= m < before.len() && before[m] == i;
                        assert(list[m] == i);
                    }
                    if list.contains(i) {
                        let m = choose|m: int| 0 <= m < list.len() && list[m] == i;
                        assert(before[m] == i);
                        assert(before.contains(i));
                    }
                }
            }
        } else {
            assert forall|i: int| #[trigger] list.contains(i) <==> 0 <= i < k && regions.len() > 1
                && regions[i].fields.len() > 1 by {
                assert(before.contains(i) <==> 0 <= i < k - 1 && regions.len() > 1
                    && regions[i].fields.len() > 1);
            }
        }
    }
}

/// Whether the digits are those of a number in hexadecimal, at least two of them, and else without
/// zeros in front.
pub open spec fn is_offset(s: Seq<char>, n: int) -> bool {
    &&& all_digits(s, 16)
    &&& reading(s, 16) == n
    &&& s.len() >= 2
    &&& s.len() > 2 ==> s[0] != '0'
}

proof fn lemma_offset(n: nat)
    ensures
        is_offset(zero_padded(numeral(n, 16), 2), n as int),
{
    let plain = numeral(n, 16);
    let s = zero_padded(plain, 2);
    lemma_padded(n, 2);
    law_numeral(n, 16);
    law_zero_padded(plain, 2);
    if s.len() > 2 {
        assert(s.skip(0) =~= s);
        assert(s == plain);
        assert(n > 0);
    }
}

/// A field is written with its offset in hexadecimal and its description with single spaces, before
/// the field itself.
pub proof fn law_documented_field<N: Conventions>(style: N, f: BlockFieldModel)
    requires
        f.offset >= 0,
    ensures
        exists|s: Seq<char>| #[trigger]
            is_offset(s, f.offset) && documented_field(style, f) == spaced(
                seq![
                    "# [ doc ="@,
                    quoted("0x"@ + s + " - "@ + style.respaced(f.description)),
                    "]"@,
                    field_text(f.field),
                    ","@,
                ],
            ),
{
    let s = zero_padded(numeral(f.offset as nat, 16), 2);
    lemma_offset(f.offset as nat);
    assert(is_offset(s, f.offset));
}

/// A block with these items and unions: a union where all of its fields, and several, make one
/// region, else a struct; named as its cluster, or `RegisterBlock`.
pub open spec fn whole_block<N: Conventions>(
    style: N,
    regions: Seq<RegionModel>,
    name: Option<Seq<char>>,
    items: Seq<Item>,
    unions: Seq<int>,
) -> Seq<char> {
    let kind = if regions.len() == 1 && regions[0].fields.len() > 1 {
        "union"@
    } else {
        "struct"@
    };
    let title = match name {
        Some(name) => style.upper(name),
        None => "RegisterBlock"@,
    };
    spaced(
        seq![
            "# [ doc = r\" Register block\" ] # [ repr ( C ) ] pub"@,
            kind,
            title,
            "{"@,
            spaced(item_texts(style, regions, items)),
            "}"@,
            spaced(union_texts(style, regions, unions)),
        ],
    )
}

/// A block has its regions at their offsets, and the definitions of its unions behind it.
pub proof fn law_block_of_regions<N: Conventions>(
    style: N,
    regions: Seq<RegionModel>,
    name: Option<Seq<char>>,
)
    requires
        gaps_fit(regions),
    ensures
        exists|items: Seq<Item>, unions: Seq<int>|
            #![trigger whole_block(style, regions, name, items, unions)]
            lays_out(regions, items) && lists_unions(regions, unions) && block_def(
                style,
                regions,
                name,
            ) == whole_block(style, regions, name, items, unions),
{
    law_every_region_at_its_offset(style, regions);
    law_every_union_is_defined(style, regions);
    let items = choose|items: Seq<Item>| #[trigger]
        lays_out(regions, items) && block_body(style, regions, regions.len() as int) == spaced(
            item_texts(style, regions, items),
        );
    let unions = choose|unions: Seq<int>| #[trigger]
        lists_unions(regions, unions) && helper_types(style, regions, regions.len() as int)
            == spaced(union_texts(style, regions, unions));
    lemma_whole_block(style, regions, name, items, unions);
}

proof fn lemma_whole_block<N: Conventions>(
    style: N,
    regions: Seq<RegionModel>,
    name: Option<Seq<char>>,
    items: Seq<Item>,
    unions: Seq<int>,
)
    requires
        block_body(style, regions, regions.len() as int) == spaced(
            item_texts(style, regions, items),
        ),
        helper_types(style, regions, regions.len() as int) == spaced(
            union_texts(style, regions, unions),
        ),
    ensures
        block_def(style, regions, name) == whole_block(style, regions, name, items, unions),
{
    let kind = if is_union(regions) {
        "union"@
    } else {
        "struct"@
    };
    let title = match name {
        Some(name) => style.upper(name),
        None => "RegisterBlock"@,
    };
    let head = "# [ doc = r\" Register block\" ] # [ repr ( C ) ] pub"@;
    let body = block_body(style, regions, regions.len() as int);
    let types = helper_types(style, regions, regions.len() as int);
    let pieces = seq![head, kind, title, "{"@, body, "}"@, types];
    assert(block_def(style, regions, name) == spaced(pieces));
    assert(whole_block(style, regions, name, items, unions) == spaced(pieces));
}

/// The text of a block, from the nodes on: the error of their expansion, else the block of the
/// regions that their fields make.
pub proof fn law_block_text<N: Conventions>(
    style: N,
    list: Seq<NodeModel>,
    defs: Defaults,
    name: Option<Seq<char>>,
)
    ensures
        expansion(style, list, defs, name) matches Err(e) ==> block_text(style, list, defs, name)
            == Err::<Seq<char>, ErrorModel>(e),
        expansion(style, list, defs, name) matches Ok(fields) ==> block_text(
            style,
            list,
            defs,
            name,
        ) == Ok::<Seq<char>, ErrorModel>(block_def(style, regions_of(fields), name)),
{
    reveal(block_text);
}

} // verus!

use vstd::prelude::*;
use vstd::seq_lib::*;

use crate::block::{
    block_fits, block_text, gap, gaps_fit, helper_types, is_union, needs_union, regions_fit,
    regions_of,
};
use crate::convert::index_names;
use crate::device::{ArrayModel, ClusterModel, Defaults, NodeModel, RegisterModel};
use crate::expand::{
    children_end, expand_fits, expansion, node_end, node_expansion, register_size,
};
use crate::expand_laws::{law_cluster_end, law_cluster_size, law_expansion, law_register_end};
use crate::field::{BlockFieldModel, BITS_PER_BYTE};
use crate::names::Conventions;
use crate::order::by_offset;
use crate::region_laws::{
    is_bridged, is_linked, law_added_keeps_fields, law_added_linked, law_added_wf, law_can_add,
    law_overlapping_fields_share_a_region, lemma_all_fields_contains,
};
use crate::regions::{added, all_fields, hit, merged, regions_wf, RegionModel};

verus! {

/// The regions of a block are in order and apart, and they hold the fields of the block: each as
/// often as it was added, and no other.
pub proof fn law_regions_of(fields: Seq<BlockFieldModel>)
    requires
        forall|i: int| 0 <= i < fields.len() ==> (#[trigger] fields[i]).size >= 0,
        regions_fit(fields),
    ensures
        regions_wf(regions_of(fields)),
        all_fields(regions_of(fields)).to_multiset() == fields.to_multiset(),
    decreases fields.len(),
{
    broadcast use group_to_multiset_ensures;

    if fields.len() > 0 {
        let front = fields.drop_last();
        assert forall|i: int| 0 <= i < front.len() implies (#[trigger] front[i]).size >= 0 by {
            assert(fields[i].size >= 0);
        }
        law_regions_of(front);
        assert(fields[fields.len() - 1].size >= 0);
        law_added_wf(regions_of(front), fields.last());
        law_added_keeps_fields(regions_of(front), fields.last());
        assert(fields =~= front.push(fields.last()));
    }
}

/// Whether every field has at least one byte, and none ends behind the address space.
pub open spec fn all_have_bytes(fields: Seq<BlockFieldModel>) -> bool {
    forall|i: int|
        0 <= i < fields.len() ==> (#[trigger] fields[i]).size >= 0 && fields[i].offset
            < fields[i].end() <= u32::MAX
}

/// A block can be laid out whenever each of its fields has bytes within the address space.
pub proof fn law_fields_with_bytes_fit(fields: Seq<BlockFieldModel>)
    requires
        all_have_bytes(fields),
    ensures
        regions_fit(fields),
        gaps_fit(regions_of(fields)),
{
    lemma_fields_with_bytes(fields);
    law_regions_of(fields);
    let regions = regions_of(fields);
    assert forall|i: int| 0 < i < regions.len() implies regions[i - 1].end <= (
    #[trigger] regions[i]).offset by {
        assert(!regions[i - 1].meets(regions[i].offset, regions[i].end));
        assert(regions[i - 1].offset < regions[i].offset);
    }
}

proof fn lemma_fields_with_bytes(fields: Seq<BlockFieldModel>)
    requires
        all_have_bytes(fields),
    ensures
        regions_fit(fields),
        forall|i: int|
            0 <= i < regions_of(fields).len() ==> (#[trigger] regions_of(fields)[i]).offset
                < regions_of(fields)[i].end,
    decreases fields.len(),
{
    if fields.len() > 0 {
        let front = fields.drop_last();
        assert(all_have_bytes(front)) by {
            assert forall|i: int| 0 <= i < front.len() implies (#[trigger] front[i]).size >= 0
                && front[i].offset < front[i].end() <= u32::MAX by {
                assert(fields[i].size >= 0);
            }
        }
        lemma_fields_with_bytes(front);
        law_regions_of(front);
        assert(fields[fields.len() - 1].size >= 0);
        law_can_add(regions_of(front), fields.last());
    }
}

/// What the padding and the regions take, up to region `k`.
pub open spec fn taken(regions: Seq<RegionModel>, k: int) -> int
    decreases k,
{
    if k <= 0 {
        0
    } else {
        taken(regions, k - 1) + gap(regions, k - 1) + (regions[k - 1].end - regions[k - 1].offset)
    }
}

/// Padding and regions leave no hole: what stands before a region takes just the bytes from the
/// start of the block up to it.
pub proof fn law_no_holes(regions: Seq<RegionModel>, k: int)
    requires
        0 < k <= regions.len(),
    ensures
        taken(regions, k) == regions[k - 1].end - regions[0].offset,
    decreases k,
{
    if k > 1 {
        law_no_holes(regions, k - 1);
    } else {
        assert(taken(regions, 0) == 0);
    }
}

/// Two fields with a byte in common stand in one region, and a union is made of it.
pub proof fn law_overlapping_fields_stand_together(
    fields: Seq<BlockFieldModel>,
    a: int,
    b: int,
    address: int,
)
    requires
        forall|i: int| 0 <= i < fields.len() ==> (#[trigger] fields[i]).size >= 0,
        regions_fit(fields),
        0 <= a < b < fields.len(),
        fields[a].covers(address),
        fields[b].covers(address),
    ensures
        exists|i: int|
            0 <= i < regions_of(fields).len() && (#[trigger] regions_of(fields)[i]).fields.contains(
                fields[a],
            ) && regions_of(fields)[i].fields.contains(fields[b]) && regions_of(
                fields,
            )[i].fields.len() > 1 && (is_union(regions_of(fields)) || needs_union(
                regions_of(fields),
                i,
            )),
{
    broadcast use group_to_multiset_ensures;

    let regions = regions_of(fields);
    let f = fields[a];
    let g = fields[b];
    law_regions_of(fields);
    assert(fields.contains(f) && fields.contains(g));
    assert(all_fields(regions).to_multiset().count(f) > 0);
    assert(all_fields(regions).to_multiset().count(g) > 0);
    lemma_all_fields_contains(regions, f);
    lemma_all_fields_contains(regions, g);
    let i = choose|i: int| 0 <= i < regions.len() && (#[trigger] regions[i]).fields.contains(f);
    let j = choose|j: int| 0 <= j < regions.len() && (#[trigger] regions[j]).fields.contains(g);
    law_overlapping_fields_share_a_region(regions, i, f, j, g, address);
    let own = regions[i].fields;
    if own.len() <= 1 {
        assert(own[0] == f && own[0] == g);
        assert forall|m: int| 0 <= m < regions.len() && m != i implies !(
        #[trigger] regions[m]).fields.contains(f) by {
            if regions[m].fields.contains(f) {
                law_overlapping_fields_share_a_region(regions, i, f, m, f, address);
            }
        }
        lemma_in_one_region(regions, i, f);
        let head = fields.take(b);
        let tail = fields.skip(b);
        assert(fields =~= head + tail);
        assert(head[a] == f && tail[0] == f);
        lemma_multiset_commutative(head, tail);
        assert(head.to_multiset().count(f) > 0);
        assert(tail.to_multiset().count(f) > 0);
        assert(fields.to_multiset().count(f) >= 2);
        assert(own =~= Seq::empty().push(f));
        assert(own.to_multiset() =~= vstd::multiset::Multiset::empty().insert(f));
        assert(false);
    }
    assert(is_union(regions) || needs_union(regions, i));
}

/// Where only one region holds a field, that region holds all of its copies.
proof fn lemma_in_one_region(regions: Seq<RegionModel>, i: int, f: BlockFieldModel)
    requires
        0 <= i < regions.len(),
        forall|m: int|
            0 <= m < regions.len() && m != i ==> !(#[trigger] regions[m]).fields.contains(f),
    ensures
        all_fields(regions).to_multiset().count(f) == regions[i].fields.to_multiset().count(f),
    decreases regions.len(),
{
    broadcast use group_to_multiset_ensures;

    let front = regions.drop_last();
    lemma_multiset_commutative(all_fields(front), regions.last().fields);
    if i == regions.len() - 1 {
        lemma_all_fields_contains(front, f);
        if all_fields(front).contains(f) {
            let m = choose|m: int| 0 <= m < front.len() && (#[trigger] front[m]).fields.contains(f);
            assert(regions[m].fields.contains(f));
        }
    } else {
        assert forall|m: int| 0 <= m < front.len() && m != i implies !(
        #[trigger] front[m]).fields.contains(f) by {
            assert(front[m] == regions[m]);
        }
        lemma_in_one_region(front, i, f);
        assert(!regions[regions.len() - 1].fields.contains(f));
    }
}

/// Whether each field ends before the next one starts.
pub open spec fn stand_apart(fields: Seq<BlockFieldModel>) -> bool {
    forall|i: int, j: int|
        0 <= i < j < fields.len() ==> (#[trigger] fields[i]).end() <= (#[trigger] fields[j]).offset
}

/// A region of one field.
pub open spec fn alone(f: BlockFieldModel) -> RegionModel {
    RegionModel { fields: seq![f], offset: f.offset, end: f.end() }
}

/// Fields that have no byte in common need no union: the block is a struct, each field is a
/// region of its own, and no type is added to the block.
pub proof fn law_no_union_without_overlap<N: Conventions>(style: N, fields: Seq<BlockFieldModel>)
    requires
        all_have_bytes(fields),
        stand_apart(fields),
    ensures
        regions_of(fields) == Seq::new(fields.len(), |i: int| alone(fields[i])),
        !is_union(regions_of(fields)),
        forall|k: int|
            k <= regions_of(fields).len() ==> #[trigger] helper_types(style, regions_of(fields), k)
                == Seq::<char>::empty(),
{
    lemma_regions_apart(fields);
    let regions = regions_of(fields);
    assert forall|k: int| k <= regions.len() implies #[trigger] helper_types(style, regions, k)
        == Seq::<char>::empty() by {
        lemma_no_helpers(style, regions, k);
    }
}

proof fn lemma_no_helpers<N: Conventions>(style: N, regions: Seq<RegionModel>, k: int)
    requires
        k <= regions.len(),
        forall|i: int| 0 <= i < regions.len() ==> (#[trigger] regions[i]).fields.len() == 1,
    ensures
        helper_types(style, regions, k) == Seq::<char>::empty(),
    decreases k,
{
    if k > 0 {
        lemma_no_helpers(style, regions, k - 1);
        assert(regions[k - 1].fields.len() == 1);
    }
}

proof fn lemma_regions_apart(fields: Seq<BlockFieldModel>)
    requires
        all_have_bytes(fields),
        stand_apart(fields),
    ensures
        regions_of(fields) == Seq::new(fields.len(), |i: int| alone(fields[i])),
    decreases fields.len(),
{
    let want = Seq::new(fields.len(), |i: int| alone(fields[i]));
    if fields.len() == 0 {
        assert(regions_of(fields) =~= want);
    } else {
        let front = fields.drop_last();
        let f = fields.last();
        assert(all_have_bytes(front)) by {
            assert forall|i: int| 0 <= i < front.len() implies (#[trigger] front[i]).size >= 0
                && front[i].offset < front[i].end() <= u32::MAX by {
                assert(fields[i].size >= 0);
            }
        }
        assert(stand_apart(front)) by {
            assert forall|i: int, j: int| 0 <= i < j < front.len() implies (
            #[trigger] front[i]).end() <= (#[trigger] front[j]).offset by {
                assert(fields[i].end() <= fields[j].offset);
            }
        }
        lemma_regions_apart(front);
        let regions = regions_of(front);
        assert forall|i: int| 0 <= i < regions.len() implies (#[trigger] regions[i]).end <= f.offset
            && regions[i].offset < f.offset by {
            assert(regions[i] == alone(fields[i]));
            assert(fields[i].size >= 0);
            assert(fields[i].end() <= fields[fields.len() - 1].offset);
        }
        lemma_add_behind(regions, f);
        assert(regions_of(fields) =~= want);
    }
}

proof fn lemma_all_pass(s: Seq<RegionModel>, pred: spec_fn(RegionModel) -> bool)
    requires
        forall|i: int| 0 <= i < s.len() ==> pred(#[trigger] s[i]),
    ensures
        s.filter(pred) == s,
    decreases s.len(),
{
    reveal(Seq::filter);
    if s.len() > 0 {
        let front = s.drop_last();
        assert forall|i: int| 0 <= i < front.len() implies pred(#[trigger] front[i]) by {
            assert(pred(s[i]));
        }
        lemma_all_pass(front, pred);
        assert(pred(s[s.len() - 1]));
        assert(s.filter(pred) =~= s);
    }
}

proof fn lemma_none_pass(s: Seq<RegionModel>, pred: spec_fn(RegionModel) -> bool)
    requires
        forall|i: int| 0 <= i < s.len() ==> !pred(#[trigger] s[i]),
    ensures
        s.filter(pred) == Seq::<RegionModel>::empty(),
    decreases s.len(),
{
    reveal(Seq::filter);
    if s.len() > 0 {
        let front = s.drop_last();
        assert forall|i: int| 0 <= i < front.len() implies !pred(#[trigger] front[i]) by {
            assert(!pred(s[i]));
        }
        lemma_none_pass(front, pred);
        assert(!pred(s[s.len() - 1]));
    }
}

/// A field behind all regions becomes a region behind them.
proof fn lemma_add_behind(regions: Seq<RegionModel>, f: BlockFieldModel)
    requires
        forall|i: int|
            0 <= i < regions.len() ==> (#[trigger] regions[i]).end <= f.offset && regions[i].offset
                < f.offset,
    ensures
        added(regions, f) == regions.push(alone(f)),
{
    lemma_none_pass(regions, |r: RegionModel| r.meets(f.offset, f.end()));
    lemma_all_pass(regions, |r: RegionModel| !r.meets(f.offset, f.end()));
    let new = merged(regions, f);
    reveal_with_fuel(by_offset, 2);
    assert(seq![f] + all_fields(hit(regions, f)) =~= seq![f]);
    assert(seq![f].drop_last() =~= Seq::<BlockFieldModel>::empty());
    assert(new.fields =~= seq![f]);
    assert(new == alone(f));
    lemma_all_pass(regions, |r: RegionModel| r.offset < new.offset);
    lemma_none_pass(regions, |r: RegionModel| r.offset >= new.offset);
    assert(added(regions, f) =~= regions.push(alone(f)));
}

/// A block of plain registers can be laid out whenever each of them has a size of at least one
/// byte and ends within the address space.
pub proof fn law_plain_registers_fit<N: Conventions>(
    style: N,
    list: Seq<NodeModel>,
    defs: Defaults,
    name: Option<Seq<char>>,
)
    requires
        forall|i: int| 0 <= i < list.len() ==> is_plain(#[trigger] list[i], defs),
    ensures
        block_text(style, list, defs, name) is Ok,
        block_fits(style, list, defs, name),
{
    reveal(block_text);
    reveal(block_fits);
    lemma_plain_fits(style, list, defs, name);
    lemma_plain_expansion(style, list, defs, name);
    law_fields_with_bytes_fit(expansion(style, list, defs, name)->Ok_0);
}

proof fn lemma_plain_expansion<N: Conventions>(
    style: N,
    list: Seq<NodeModel>,
    defs: Defaults,
    name: Option<Seq<char>>,
)
    requires
        forall|i: int| 0 <= i < list.len() ==> is_plain(#[trigger] list[i], defs),
    ensures
        expansion(style, list, defs, name) is Ok,
        all_have_bytes(expansion(style, list, defs, name)->Ok_0),
{
    law_expansion(style, list, defs, name);
    assert forall|i: int| 0 <= i < list.len() implies node_expansion(
        style,
        #[trigger] list[i],
        defs,
        name,
    ) is Ok by {
        assert(is_plain(list[i], defs));
    }
    let fields = expansion(style, list, defs, name)->Ok_0;
    assert forall|k: int| 0 <= k < fields.len() implies (#[trigger] fields[k]).size >= 0
        && fields[k].offset < fields[k].end() <= u32::MAX by {
        assert(fields.contains(fields[k]));
        let i = choose|i: int|
            0 <= i < list.len() && node_expansion(
                style,
                #[trigger] list[i],
                defs,
                name,
            )->Ok_0.contains(fields[k]);
        assert(is_plain(list[i], defs));
    }
}

/// Whether a node is a single register with a size of at least one byte, which ends within the
/// address space.
pub open spec fn is_plain(node: NodeModel, defs: Defaults) -> bool {
    node matches NodeModel::Register(register) && register is Single && (register_size(
        register,
        defs,
    ) matches Some(size) && size >= BITS_PER_BYTE && register.info().address_offset + size as int
        / BITS_PER_BYTE as int <= u32::MAX)
}

proof fn lemma_plain_fits<N: Conventions>(
    style: N,
    list: Seq<NodeModel>,
    defs: Defaults,
    name: Option<Seq<char>>,
)
    requires
        forall|i: int| 0 <= i < list.len() ==> is_plain(#[trigger] list[i], defs),
    ensures
        expand_fits(style, list, defs, name),
    decreases list.len(),
{
    if list.len() > 0 {
        let front = list.drop_last();
        assert forall|i: int| 0 <= i < front.len() implies is_plain(#[trigger] front[i], defs) by {
            assert(is_plain(list[i], defs));
        }
        lemma_plain_fits(style, front, defs, name);
        assert(is_plain(list[list.len() - 1], defs));
    }
}

/// Whether a node, or each element of it, has a size of whole bytes. An array has at least one
/// element, and a cluster sets no other size than the one that its children give it.
pub open spec fn is_whole(node: NodeModel, defs: Defaults) -> bool {
    match node {
        NodeModel::Register(register) => {
            &&& register_size(register, defs) matches Some(size) && size % BITS_PER_BYTE == 0
            &&& register matches RegisterModel::Array(_, array) ==> index_names(array).len() > 0
        },
        NodeModel::Cluster(cluster) => {
            &&& children_end(cluster.info().children, defs) matches Ok(size) && size
                % BITS_PER_BYTE as int == 0 && (cluster.info().size matches Some(own) ==> own
                == size)
            &&& cluster matches ClusterModel::Array(_, array) ==> index_names(array).len() > 0
        },
    }
}

/// The field that holds a cluster is as large as the cluster's own block: the size that is
/// computed from the children, arrays and clusters among them, is where the last region of the
/// block ends.
pub proof fn law_cluster_ends_with_its_block<N: Conventions>(
    style: N,
    children: Seq<NodeModel>,
    defs: Defaults,
    name: Option<Seq<char>>,
)
    requires
        children.len() > 0,
        forall|i: int| 0 <= i < children.len() ==> is_whole(#[trigger] children[i], defs),
        expansion(style, children, defs, name) matches Ok(fields) ==> regions_fit(fields)
            && gaps_fit(regions_of(fields)),
    ensures
        expansion(style, children, defs, name) is Ok,
        children_end(children, defs) is Ok,
        children_end(children, defs)->Ok_0 == BITS_PER_BYTE * regions_of(
            expansion(style, children, defs, name)->Ok_0,
        ).last().end,
{
    broadcast use group_to_multiset_ensures;

    assert forall|i: int| 0 <= i < children.len() implies node_end(
        #[trigger] children[i],
        defs,
    ) is Ok && node_expansion(style, children[i], defs, name) is Ok by {
        assert(is_whole(children[i], defs));
        lemma_whole(style, children[i], defs, name);
    }
    law_cluster_size(children, defs);
    law_expansion(style, children, defs, name);
    let size = children_end(children, defs)->Ok_0;
    let fields = expansion(style, children, defs, name)->Ok_0;
    let regions = regions_of(fields);
    let last = regions.len() - 1;
    assert forall|k: int| 0 <= k < fields.len() implies (#[trigger] fields[k]).size >= 0
        && fields[k].offset >= 0 && 8 * fields[k].end() <= size by {
        lemma_whole_field(style, children, defs, name, fields[k]);
    }
    law_regions_of(fields);

    // One of the fields ends where the last child ends.
    let i = if size == 0 {
        0
    } else {
        choose|i: int|
            0 <= i < children.len() && node_end(#[trigger] children[i], defs)->Ok_0 == size
    };
    assert(is_whole(children[i], defs));
    lemma_whole(style, children[i], defs, name);
    let own = node_expansion(style, children[i], defs, name)->Ok_0;
    let k = choose|k: int|
        0 <= k < own.len() && 8 * (#[trigger] own[k]).end() == node_end(children[i], defs)->Ok_0;
    let f = own[k];
    assert(own.contains(f));
    assert(fields.contains(f));
    assert(all_fields(regions).to_multiset().count(f) > 0);
    lemma_all_fields_contains(regions, f);
    let j = choose|j: int| 0 <= j < regions.len() && (#[trigger] regions[j]).fields.contains(f);
    let m = choose|m: int| 0 <= m < regions[j].fields.len() && regions[j].fields[m] == f;
    assert(regions[j].fields[m].end() <= regions[j].end);
    lemma_ends_rise(regions, j, last);
    assert(size <= 8 * regions[last].end);

    // The last region ends with one of the fields.
    assert(regions[last].wf());
    let n = choose|n: int|
        0 <= n < regions[last].fields.len() && (#[trigger] regions[last].fields[n]).end()
            == regions[last].end;
    let g = regions[last].fields[n];
    assert(regions[last].fields.contains(g));
    lemma_all_fields_contains(regions, g);
    assert(fields.to_multiset().count(g) > 0);
    assert(fields.contains(g));
}

/// No region ends before one in front of it.
proof fn lemma_ends_rise(regions: Seq<RegionModel>, i: int, j: int)
    requires
        regions_wf(regions),
        gaps_fit(regions),
        0 <= i <= j < regions.len(),
    ensures
        regions[i].end <= regions[j].end,
    decreases j - i,
{
    if i < j {
        lemma_ends_rise(regions, i, j - 1);
        assert(regions[j].wf());
        assert(regions[j - 1].end <= regions[j].offset);
    }
}

/// A field of a cluster's block ends where the cluster ends, or before.
proof fn lemma_whole_field<N: Conventions>(
    style: N,
    children: Seq<NodeModel>,
    defs: Defaults,
    name: Option<Seq<char>>,
    f: BlockFieldModel,
)
    requires
        forall|i: int| 0 <= i < children.len() ==> is_whole(#[trigger] children[i], defs),
        expansion(style, children, defs, name) matches Ok(fields) && fields.contains(f),
        children_end(children, defs) is Ok,
    ensures
        f.size >= 0,
        f.offset >= 0,
        8 * f.end() <= children_end(children, defs)->Ok_0,
{
    law_expansion(style, children, defs, name);
    law_cluster_size(children, defs);
    let i = choose|i: int|
        0 <= i < children.len() && node_expansion(
            style,
            #[trigger] children[i],
            defs,
            name,
        )->Ok_0.contains(f);
    assert(is_whole(children[i], defs));
    lemma_whole(style, children[i], defs, name);
    let own = node_expansion(style, children[i], defs, name)->Ok_0;
    let k = choose|k: int| 0 <= k < own.len() && own[k] == f;
    assert(8 * own[k].end() <= node_end(children[i], defs)->Ok_0);
}

/// The block fields of a node of whole bytes: none ends behind the node, and one ends with it.
proof fn lemma_whole<N: Conventions>(
    style: N,
    node: NodeModel,
    defs: Defaults,
    name: Option<Seq<char>>,
)
    requires
        is_whole(node, defs),
    ensures
        node_end(node, defs) is Ok,
        node_expansion(style, node, defs, name) is Ok,
        ({
            let fields = node_expansion(style, node, defs, name)->Ok_0;
            let end = node_end(node, defs)->Ok_0;
            &&& forall|k: int|
                0 <= k < fields.len() ==> (#[trigger] fields[k]).size >= 0 && fields[k].offset >= 0
                    && 8 * fields[k].end() <= end
            &&& exists|k: int| 0 <= k < fields.len() && 8 * (#[trigger] fields[k]).end() == end
        }),
{
    reveal_with_fuel(node_end, 2);
    let fields = node_expansion(style, node, defs, name)->Ok_0;
    let end = node_end(node, defs)->Ok_0;
    let size = match node {
        NodeModel::Register(register) => {
            law_register_end(style, register, defs, name);
            register_size(register, defs)->0 as int
        },
        NodeModel::Cluster(cluster) => {
            law_cluster_end(style, cluster, defs);
            lemma_children_end(cluster.info().children, defs);
            children_end(cluster.info().children, defs)->Ok_0
        },
    };
    assert(fields.len() > 0);
    assert forall|k: int| 0 <= k < fields.len() implies (#[trigger] fields[k]).size >= 0
        && fields[k].size % 8 == 0 && fields[k].offset >= 0 by {
        match node {
            NodeModel::Register(RegisterModel::Array(_, array)) => {
                lemma_whole_elements(array, size, k);
            },
            NodeModel::Cluster(ClusterModel::Array(_, array)) => {
                lemma_whole_elements(array, size, k);
            },
            _ => {},
        }
    }
    assert forall|k: int| 0 <= k < fields.len() implies 8 * (#[trigger] fields[k]).end() == 8
        * fields[k].offset + fields[k].size by {
        assert(fields[k].size % 8 == 0);
    }
    let k = choose|k: int|
        0 <= k < fields.len() && (#[trigger] fields[k]).offset * BITS_PER_BYTE + fields[k].size
            == end;
    assert(8 * fields[k].end() == end);
}

proof fn lemma_whole_elements(array: ArrayModel, size: int, k: int)
    requires
        size >= 0,
        size % 8 == 0,
        k >= 0,
    ensures
        size * array.dim >= 0,
        (size * array.dim) % 8 == 0,
        k * array.dim_increment >= 0,
{
    let n = array.dim as int;
    let bytes = size / 8;
    assert(size * n >= 0) by (nonlinear_arith)
        requires
            size >= 0,
            n >= 0,
    ;
    assert(size * n == (bytes * n) * 8) by (nonlinear_arith)
        requires
            size == bytes * 8,
    ;
    assert(((bytes * n) * 8) % 8 == 0) by (nonlinear_arith);
    assert(k * array.dim_increment >= 0) by (nonlinear_arith)
        requires
            k >= 0,
            array.dim_increment >= 0,
    ;
}

proof fn lemma_children_end(children: Seq<NodeModel>, defs: Defaults)
    ensures
        children_end(children, defs) matches Ok(size) ==> size >= 0,
    decreases children.len(),
{
    if children.len() > 0 {
        lemma_children_end(children.drop_last(), defs);
    }
}

/// Every address strictly inside a region of a block lies strictly inside one of its fields:
/// fields that merely touch stand in regions of their own.
pub proof fn law_regions_are_linked(fields: Seq<BlockFieldModel>)
    requires
        forall|i: int| 0 <= i < fields.len() ==> (#[trigger] fields[i]).size >= 0,
        regions_fit(fields),
    ensures
        forall|i: int|
            0 <= i < regions_of(fields).len() ==> is_linked(#[trigger] regions_of(fields)[i]),
    decreases fields.len(),
{
    if fields.len() > 0 {
        let front = fields.drop_last();
        assert forall|i: int| 0 <= i < front.len() implies (#[trigger] front[i]).size >= 0 by {
            assert(fields[i].size >= 0);
        }
        law_regions_are_linked(front);
        law_regions_of(front);
        law_added_linked(regions_of(front), fields.last());
    }
}

/// The regions of a block do not depend on the order in which its fields are added: there are as
/// many of them, and each starts and ends at the same place and holds the same fields.
pub proof fn law_order_of_adding(fs: Seq<BlockFieldModel>, gs: Seq<BlockFieldModel>)
    requires
        fs.to_multiset() == gs.to_multiset(),
        all_have_bytes(fs),
    ensures
        regions_of(fs).len() == regions_of(gs).len(),
        forall|i: int|
            0 <= i < regions_of(fs).len() ==> {
                &&& (#[trigger] regions_of(fs)[i]).offset == regions_of(gs)[i].offset
                &&& regions_of(fs)[i].end == regions_of(gs)[i].end
                &&& regions_of(fs)[i].fields.to_multiset() == regions_of(
                    gs,
                )[i].fields.to_multiset()
            },
{
    let r = regions_of(fs);
    let s = regions_of(gs);
    assert(all_have_bytes(gs)) by {
        broadcast use group_to_multiset_ensures;

        assert forall|i: int| 0 <= i < gs.len() implies (#[trigger] gs[i]).size >= 0 && gs[i].offset
            < gs[i].end() <= u32::MAX by {
            assert(gs.contains(gs[i]));
            assert(gs.to_multiset().count(gs[i]) > 0);
            assert(fs.contains(gs[i]));
            let k = choose|k: int| 0 <= k < fs.len() && fs[k] == gs[i];
            assert(fs[k].size >= 0);
        }
    }
    lemma_partition(fs);
    lemma_partition(gs);
    let starts = Seq::new(r.len(), |i: int| r[i].offset);
    let others = Seq::new(s.len(), |i: int| s[i].offset);
    assert forall|i: int| 0 <= i < starts.len() implies others.contains(#[trigger] starts[i]) by {
        let j = lemma_same_start(r, s, i);
        assert(others[j] == starts[i]);
    }
    assert forall|j: int| 0 <= j < others.len() implies starts.contains(#[trigger] others[j]) by {
        let i = lemma_same_start(s, r, j);
        assert(starts[i] == others[j]);
    }
    lemma_rising(starts, others);
    assert forall|i: int| 0 <= i < r.len() implies (#[trigger] r[i]).offset == s[i].offset by {
        assert(starts[i] == others[i]);
    }
    assert forall|i: int| 0 <= i < r.len() implies (#[trigger] r[i]).end == s[i].end by {
        lemma_same_end(r, s, i);
    }
    assert forall|i: int| 0 <= i < r.len() implies (#[trigger] r[i]).fields.to_multiset()
        == s[i].fields.to_multiset() by {
        assert forall|f: BlockFieldModel| #[trigger]
            r[i].fields.to_multiset().count(f) == s[i].fields.to_multiset().count(f) by {
            lemma_same_fields(r, s, i, f);
        }
        assert(r[i].fields.to_multiset() =~= s[i].fields.to_multiset());
    }
}

/// Regions of fields with bytes, as adding one field after the other makes them.
spec fn is_partition(regions: Seq<RegionModel>) -> bool {
    &&& regions_wf(regions)
    &&& forall|i: int| 0 <= i < regions.len() ==> (#[trigger] regions[i]).offset < regions[i].end
    &&& forall|i: int| 0 <= i < regions.len() ==> is_linked(#[trigger] regions[i])
    &&& forall|f: BlockFieldModel| #[trigger]
        all_fields(regions).contains(f) ==> f.offset < f.end()
}

proof fn lemma_partition(fields: Seq<BlockFieldModel>)
    requires
        all_have_bytes(fields),
    ensures
        is_partition(regions_of(fields)),
        all_fields(regions_of(fields)).to_multiset() == fields.to_multiset(),
{
    broadcast use group_to_multiset_ensures;

    lemma_fields_with_bytes(fields);
    law_regions_of(fields);
    law_regions_are_linked(fields);
    let all = all_fields(regions_of(fields));
    assert forall|f: BlockFieldModel| #[trigger] all.contains(f) implies f.offset < f.end() by {
        assert(all.to_multiset().count(f) > 0);
        assert(fields.contains(f));
        let k = choose|k: int| 0 <= k < fields.len() && fields[k] == f;
        assert(fields[k].size >= 0);
    }
}

/// The region that holds a field of another partition of the same fields.
proof fn lemma_holder(
    r: Seq<RegionModel>,
    s: Seq<RegionModel>,
    i: int,
    f: BlockFieldModel,
) -> (j: int)
    requires
        is_partition(r),
        is_partition(s),
        all_fields(r).to_multiset() == all_fields(s).to_multiset(),
        0 <= i < r.len(),
        r[i].fields.contains(f),
    ensures
        0 <= j < s.len(),
        s[j].fields.contains(f),
        s[j].offset <= f.offset < f.end() <= s[j].end,
        r[i].offset <= f.offset < f.end() <= r[i].end,
{
    broadcast use group_to_multiset_ensures;

    lemma_all_fields_contains(r, f);
    assert(all_fields(r).contains(f));
    assert(all_fields(r).to_multiset().count(f) > 0);
    assert(all_fields(s).contains(f));
    lemma_all_fields_contains(s, f);
    let j = choose|j: int| 0 <= j < s.len() && (#[trigger] s[j]).fields.contains(f);
    let m = choose|m: int| 0 <= m < s[j].fields.len() && s[j].fields[m] == f;
    assert(s[j].wf());
    assert(s[j].offset <= s[j].fields[m].offset);
    let n = choose|n: int| 0 <= n < r[i].fields.len() && r[i].fields[n] == f;
    assert(r[i].wf());
    assert(r[i].offset <= r[i].fields[n].offset);
    j
}

/// A region of one partition starts where a region of the other does.
proof fn lemma_same_start(r: Seq<RegionModel>, s: Seq<RegionModel>, i: int) -> (j: int)
    requires
        is_partition(r),
        is_partition(s),
        all_fields(r).to_multiset() == all_fields(s).to_multiset(),
        0 <= i < r.len(),
    ensures
        0 <= j < s.len(),
        s[j].offset == r[i].offset,
{
    assert(r[i].wf());
    let k = choose|k: int|
        0 <= k < r[i].fields.len() && (#[trigger] r[i].fields[k]).offset == r[i].offset;
    let f = r[i].fields[k];
    assert(r[i].fields.contains(f));
    let j = lemma_holder(r, s, i, f);
    let b = r[i].offset;
    if s[j].offset < b {
        // A field that reaches over the start would stand in the region that starts there.
        assert(is_linked(s[j]));
        assert(is_bridged(s[j], b));
        let m = choose|m: int|
            0 <= m < s[j].fields.len() && (#[trigger] s[j].fields[m]).offset < b
                < s[j].fields[m].end();
        let g = s[j].fields[m];
        assert(s[j].fields.contains(g));
        let n = lemma_holder(s, r, j, g);
        law_overlapping_fields_share_a_region(r, i, f, n, g, b);
    }
    j
}

/// Regions that start at the same place end at the same place.
proof fn lemma_same_end(r: Seq<RegionModel>, s: Seq<RegionModel>, i: int)
    requires
        is_partition(r),
        is_partition(s),
        all_fields(r).to_multiset() == all_fields(s).to_multiset(),
        r.len() == s.len(),
        forall|i: int| 0 <= i < r.len() ==> (#[trigger] r[i]).offset == s[i].offset,
        0 <= i < r.len(),
    ensures
        r[i].end == s[i].end,
{
    assert(r[i].wf());
    let k = choose|k: int|
        0 <= k < r[i].fields.len() && (#[trigger] r[i].fields[k]).end() == r[i].end;
    let f = r[i].fields[k];
    assert(r[i].fields.contains(f));
    let j = lemma_holder(r, s, i, f);
    let b = r[i].end;
    if b < s[j].end {
        assert(is_linked(s[j]));
        assert(is_bridged(s[j], b));
        let m = choose|m: int|
            0 <= m < s[j].fields.len() && (#[trigger] s[j].fields[m]).offset < b
                < s[j].fields[m].end();
        let g = s[j].fields[m];
        assert(s[j].fields.contains(g));
        let n = lemma_holder(s, r, j, g);
        law_overlapping_fields_share_a_region(r, i, f, n, g, b - 1);
    }
    assert(s[j].end == b);
    assert(r[i].offset == s[i].offset);
    assert(r[j].offset == s[j].offset);
    if j < i {
        assert(!s[j].meets(s[i].offset, s[i].end));
    } else if i < j {
        assert(!r[i].meets(r[j].offset, r[j].end));
        assert(r[i].offset < r[j].offset);
    }
}

/// Regions at the same place hold a field equally often.
proof fn lemma_same_fields(
    r: Seq<RegionModel>,
    s: Seq<RegionModel>,
    i: int,
    f: BlockFieldModel,
)
    requires
        is_partition(r),
        is_partition(s),
        all_fields(r).to_multiset() == all_fields(s).to_multiset(),
        r.len() == s.len(),
        forall|i: int| 0 <= i < r.len() ==> (#[trigger] r[i]).offset == s[i].offset,
        forall|i: int| 0 <= i < r.len() ==> (#[trigger] r[i]).end == s[i].end,
        0 <= i < r.len(),
    ensures
        r[i].fields.to_multiset().count(f) == s[i].fields.to_multiset().count(f),
{
    broadcast use group_to_multiset_ensures;

    if r[i].fields.contains(f) {
        let j = lemma_holder(r, s, i, f);
        lemma_one_place(s, i, j, f);
        lemma_counted(r, i, f);
        lemma_counted(s, i, f);
    } else if s[i].fields.contains(f) {
        let j = lemma_holder(s, r, i, f);
        lemma_one_place(r, i, j, f);
    }
}

/// A field lies in one region only.
proof fn lemma_one_place(s: Seq<RegionModel>, i: int, j: int, f: BlockFieldModel)
    requires
        is_partition(s),
        0 <= i < s.len(),
        0 <= j < s.len(),
        s[i].offset <= f.offset < f.end() <= s[i].end,
        s[j].offset <= f.offset < f.end() <= s[j].end,
    ensures
        i == j,
{
    if i < j {
        assert(!s[i].meets(s[j].offset, s[j].end));
    } else if j < i {
        assert(!s[j].meets(s[i].offset, s[i].end));
    }
}

/// A region that holds a field holds all of its copies.
proof fn lemma_counted(r: Seq<RegionModel>, i: int, f: BlockFieldModel)
    requires
        is_partition(r),
        0 <= i < r.len(),
        r[i].fields.contains(f),
    ensures
        all_fields(r).to_multiset().count(f) == r[i].fields.to_multiset().count(f),
{
    lemma_all_fields_contains(r, f);
    assert forall|m: int| 0 <= m < r.len() && m != i implies !(
    #[trigger] r[m]).fields.contains(f) by {
        if r[m].fields.contains(f) {
            law_overlapping_fields_share_a_region(r, i, f, m, f, f.offset);
        }
    }
    lemma_in_one_region(r, i, f);
}

/// Rising sequences of the same numbers are equal.
proof fn lemma_rising(a: Seq<int>, b: Seq<int>)
    requires
        forall|i: int, j: int| 0 <= i < j < a.len() ==> a[i] < a[j],
        forall|i: int, j: int| 0 <= i < j < b.len() ==> b[i] < b[j],
        forall|i: int| 0 <= i < a.len() ==> b.contains(#[trigger] a[i]),
        forall|i: int| 0 <= i < b.len() ==> a.contains(#[trigger] b[i]),
    ensures
        a == b,
    decreases a.len(),
{
    if a.len() == 0 {
        if b.len() > 0 {
            assert(a.contains(b[0]));
        }
    } else {
        assert(b.contains(a[a.len() - 1]));
        let j = choose|j: int| 0 <= j < b.len() && b[j] == a.last();
        assert(a.contains(b[b.len() - 1]));
        let i = choose|i: int| 0 <= i < a.len() && a[i] == b.last();
        assert(a.last() == b.last());
        let front = a.drop_last();
        let other = b.drop_last();
        assert forall|k: int| 0 <= k < front.len() implies other.contains(#[trigger] front[k]) by {
            assert(b.contains(a[k]));
            let m = choose|m: int| 0 <= m < b.len() && b[m] == a[k];
            assert(a[k] < a.last());
            assert(other[m] == front[k]);
        }
        assert forall|k: int| 0 <= k < other.len() implies front.contains(#[trigger] other[k]) by {
            assert(a.contains(b[k]));
            let m = choose|m: int| 0 <= m < a.len() && a[m] == b[k];
            assert(b[k] < b.last());
            assert(front[m] == other[k]);
        }
        lemma_rising(front, other);
        assert(a =~= front.push(a.last()));
        assert(b =~= other.push(b.last()));
    }
}

/// Regions of fields with bytes follow each other: each has bytes and ends before the next one
/// starts, starts with the first of its fields and ends with the last of them.
pub proof fn law_regions_in_order(fields: Seq<BlockFieldModel>, i: int)
    requires
        all_have_bytes(fields),
        0 <= i < regions_of(fields).len(),
    ensures
        ({
            let r = regions_of(fields)[i];
            &&& r.offset < r.end
            &&& forall|j: int| i < j < regions_of(fields).len() ==> r.end <= (
            #[trigger] regions_of(fields)[j]).offset
            &&& r.fields.len() > 0
            &&& r.fields[0].offset == r.offset
            &&& forall|k: int, m: int|
                0 <= k < m < r.fields.len() ==> r.fields[k].offset <= r.fields[m].offset
            &&& forall|k: int|
                0 <= k < r.fields.len() ==> fields.contains(#[trigger] r.fields[k])
                    && r.fields[k].end() <= r.end
            &&& exists|k: int| 0 <= k < r.fields.len() && (#[trigger] r.fields[k]).end() == r.end
        }),
{
    broadcast use group_to_multiset_ensures;

    let regions = regions_of(fields);
    let r = regions[i];
    lemma_fields_with_bytes(fields);
    law_regions_of(fields);
    assert(r.wf());
    assert forall|j: int| i < j < regions.len() implies r.end <= (#[trigger] regions[j]).offset by {
        assert(!regions[i].meets(regions[j].offset, regions[j].end));
        assert(regions[i].offset < regions[j].offset);
    }
    let k = choose|k: int| 0 <= k < r.fields.len() && (#[trigger] r.fields[k]).offset == r.offset;
    assert(r.fields[0].offset <= r.fields[k].offset);
    assert forall|k: int| 0 <= k < r.fields.len() implies fields.contains(#[trigger] r.fields[k])
        && r.fields[k].end() <= r.end by {
        let f = r.fields[k];
        assert(r.fields.contains(f));
        lemma_all_fields_contains(regions, f);
        assert(all_fields(regions).contains(f));
        assert(fields.to_multiset().count(f) > 0);
    }
}

} // verus!

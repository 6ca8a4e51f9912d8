use vstd::prelude::*;

use crate::block::{block_fits, gaps_fit, regions_fit, regions_of};
use crate::cluster::{cluster_block_fits, clusters_fit, groups_in, module_name};
use crate::convert::index_names;
use crate::derive::clusters_of;
use crate::device::{
    ArrayModel, ClusterInfoModel, ClusterModel, Defaults, NodeModel, PeripheralModel,
    RegisterInfoModel, RegisterModel,
};
use crate::error::ErrorModel;
use crate::expand::{
    array_fits, children_end_fits, cluster_bits, cluster_fits, expand_fits, expansion, node_end,
    node_end_fits, node_fits, register_fits,
};
use crate::names::Conventions;
use crate::render::{answers, block_nodes, completed, peripheral_fits};

verus! {

/// A single register fits wherever it is; one of a cluster fits where it ends within 32 bits.
pub proof fn law_single_register_fits(info: RegisterInfoModel, defs: Defaults)
    ensures
        register_fits(RegisterModel::Single(info), defs),
        node_fits(NodeModel::Register(RegisterModel::Single(info)), defs),
        node_end(NodeModel::Register(RegisterModel::Single(info)), defs) matches Ok(end) ==> end
            <= u32::MAX ==> node_end_fits(NodeModel::Register(RegisterModel::Single(info)), defs),
{
    reveal_with_fuel(node_end_fits, 2);
    reveal_with_fuel(node_end, 2);
}

/// An array fits where its increment stays within 32 bits, in bits, and its elements do: their
/// offsets where it is taken apart, and their whole size where it is kept.
pub proof fn law_elements_fit(array: ArrayModel, offset: int, size: int)
    requires
        8 * array.dim_increment <= u32::MAX,
        size * array.dim <= u32::MAX,
        index_names(array).len() <= u32::MAX,
        forall|i: int|
            0 <= i < index_names(array).len() ==> offset + #[trigger] (i * array.dim_increment)
                <= u32::MAX,
    ensures
        array_fits(array, offset, size),
{
    let n = index_names(array).len() as int;
    if n > 0 {
        assert(offset + (n - 1) * array.dim_increment <= u32::MAX);
    }
}

/// Nodes of a cluster fit where each of them does; a cluster within a cluster fits where it starts
/// and ends within 32 bits and its children fit.
pub proof fn law_children_fit(children: Seq<NodeModel>, defs: Defaults)
    requires
        forall|i: int| 0 <= i < children.len() ==> node_end_fits(#[trigger] children[i], defs),
    ensures
        children_end_fits(children, defs),
    decreases children.len(),
{
    if children.len() > 0 {
        let front = children.drop_last();
        assert forall|i: int| 0 <= i < front.len() implies node_end_fits(
            #[trigger] front[i],
            defs,
        ) by {
            assert(node_end_fits(children[i], defs));
        }
        law_children_fit(front, defs);
        assert(node_end_fits(children[children.len() - 1], defs));
    }
}

/// An array of registers, or a cluster, of a cluster fits where it does on its own, starts and ends
/// within 32 bits.
pub proof fn law_node_end_fits(
    info: RegisterInfoModel,
    other: ClusterInfoModel,
    array: ArrayModel,
    defs: Defaults,
)
    ensures
        register_fits(RegisterModel::Array(info, array), defs) ==> (node_end(
            NodeModel::Register(RegisterModel::Array(info, array)),
            defs,
        ) matches Ok(end) ==> end <= u32::MAX ==> node_end_fits(
            NodeModel::Register(RegisterModel::Array(info, array)),
            defs,
        )),
        children_end_fits(other.children, defs) && 8 * other.address_offset <= u32::MAX ==> (
        node_end(NodeModel::Cluster(ClusterModel::Single(other)), defs) matches Ok(end) ==> end
            <= u32::MAX ==> node_end_fits(NodeModel::Cluster(ClusterModel::Single(other)), defs)),
        children_end_fits(other.children, defs) && 8 * other.address_offset <= u32::MAX ==> (
        node_end(NodeModel::Cluster(ClusterModel::Array(other, array)), defs) matches Ok(end)
            ==> end <= u32::MAX ==> node_end_fits(
            NodeModel::Cluster(ClusterModel::Array(other, array)),
            defs,
        )),
{
    reveal_with_fuel(node_end_fits, 2);
    reveal_with_fuel(node_end, 2);
}

/// A cluster fits where it sets its own size or its children fit, and, if it is an array, its
/// elements fit.
pub proof fn law_cluster_fits(info: ClusterInfoModel, array: ArrayModel, defs: Defaults)
    requires
        info.size is Some || children_end_fits(info.children, defs),
    ensures
        cluster_fits(ClusterModel::Single(info), defs),
        node_fits(NodeModel::Cluster(ClusterModel::Single(info)), defs),
        (cluster_bits(ClusterModel::Array(info, array), defs) matches Ok(size) ==> array_fits(
            array,
            info.address_offset as int,
            size,
        )) ==> cluster_fits(ClusterModel::Array(info, array), defs),
{
}

/// A block can be laid out where each of its nodes fits and its fields do.
pub proof fn law_block_fits<N: Conventions>(
    style: N,
    list: Seq<NodeModel>,
    defs: Defaults,
    name: Option<Seq<char>>,
)
    requires
        forall|i: int| 0 <= i < list.len() ==> node_fits(#[trigger] list[i], defs),
        expansion(style, list, defs, name) matches Ok(fields) ==> regions_fit(fields) && gaps_fit(
            regions_of(fields),
        ),
    ensures
        block_fits(style, list, defs, name),
{
    reveal(block_fits);
    lemma_nodes_fit(style, list, defs, name);
}

proof fn lemma_nodes_fit<N: Conventions>(
    style: N,
    list: Seq<NodeModel>,
    defs: Defaults,
    name: Option<Seq<char>>,
)
    requires
        forall|i: int| 0 <= i < list.len() ==> node_fits(#[trigger] list[i], defs),
    ensures
        expand_fits(style, list, defs, name),
    decreases list.len(),
{
    if list.len() > 0 {
        let front = list.drop_last();
        assert forall|i: int| 0 <= i < front.len() implies node_fits(#[trigger] front[i], defs) by {
            assert(node_fits(list[i], defs));
        }
        lemma_nodes_fit(style, front, defs, name);
        assert(node_fits(list[list.len() - 1], defs));
    }
}

/// Clusters can be laid out where each of them can; a cluster can where its own block and the
/// clusters within it can. Without clusters there is nothing to lay out.
pub proof fn law_clusters_fit<N: Conventions>(
    style: N,
    list: Seq<NodeModel>,
    info: ClusterInfoModel,
    array: ArrayModel,
    defs: Defaults,
    rendered: Seq<Seq<Result<Seq<Seq<char>>, ErrorModel>>>,
)
    ensures
        clusters_of(list).len() == 0 ==> clusters_fit(style, list, defs, rendered),
        clusters_fit(style, list, defs, rendered) && cluster_block_fits(
            style,
            info,
            defs,
            rendered.skip(groups_in(list).len() as int),
        ) ==> clusters_fit(
            style,
            list.push(NodeModel::Cluster(ClusterModel::Single(info))),
            defs,
            rendered,
        ) && clusters_fit(
            style,
            list.push(NodeModel::Cluster(ClusterModel::Array(info, array))),
            defs,
            rendered,
        ),
        block_fits(style, info.children, defs, Some(module_name(info.name))) && clusters_fit(
            style,
            info.children,
            defs,
            rendered.skip(1),
        ) ==> cluster_block_fits(style, info, defs, rendered),
    decreases list.len(),
{
    reveal_with_fuel(clusters_fit, 2);
    reveal_with_fuel(cluster_block_fits, 2);
    assert(list.push(NodeModel::Cluster(ClusterModel::Single(info))).drop_last() =~= list);
    assert(list.push(NodeModel::Cluster(ClusterModel::Array(info, array))).drop_last() =~= list);
    if list.len() > 0 {
        law_clusters_fit(style, list.drop_last(), info, array, defs, rendered);
    }
}

/// A peripheral can be laid out where its block and its clusters can.
pub proof fn law_peripheral_fits<N: Conventions>(
    style: N,
    p: PeripheralModel,
    all: Seq<PeripheralModel>,
    defs: Defaults,
    rendered: Seq<Seq<Result<Seq<Seq<char>>, ErrorModel>>>,
)
    requires
        block_fits(style, block_nodes(completed(p, all)), defs, None),
        clusters_fit(style, block_nodes(completed(p, all)), defs, rendered),
    ensures
        peripheral_fits(style, p, all, defs, rendered),
{
}

/// The code of registers answers to groups just where there are as many lists as groups, each as
/// long as its group.
pub proof fn law_answers(
    rendered: Seq<Seq<Result<Seq<Seq<char>>, ErrorModel>>>,
    groups: Seq<Seq<RegisterModel>>,
)
    ensures
        answers(rendered, groups) <==> rendered.map_values(
            |group: Seq<Result<Seq<Seq<char>>, ErrorModel>>| group.len(),
        ) == groups.map_values(|group: Seq<RegisterModel>| group.len()),
{
    let a = rendered.map_values(
        |group: Seq<Result<Seq<Seq<char>>, ErrorModel>>| group.len(),
    );
    let b = groups.map_values(|group: Seq<RegisterModel>| group.len());
    if answers(rendered, groups) {
        assert(a =~= b) by {
            assert forall|i: int| 0 <= i < a.len() implies a[i] == b[i] by {
                assert(rendered[i].len() == groups[i].len());
            }
        }
    }
    if a == b {
        assert(a.len() == rendered.len() && b.len() == groups.len());
        assert forall|i: int| 0 <= i < groups.len() implies (#[trigger] rendered[i]).len()
            == groups[i].len() by {
            assert(a[i] == b[i]);
        }
    }
}

} // verus!

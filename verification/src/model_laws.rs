use quote::Tokens;
use vstd::prelude::*;

use crate::block::tokens_result;
use crate::cluster::{group_model, groups_model, items_result, texts, Rendered};
use crate::convert::field_models;
use crate::derive::{cluster_ref_models, register_ref_models};
use crate::device::{
    nodes, peripherals, register_models, strings, ArrayInfo, Cluster, ClusterInfo, ClusterModel,
    NodeModel, Peripheral, Register, RegisterCluster, RegisterInfo, RegisterModel,
};
use crate::error::{Error, ErrorModel};
use crate::expand::fields_result;
use crate::field::{
    block_fields, opt_chars, BlockFieldModel, Field, FieldType, RegisterBlockField, TypeModel,
};
use crate::regions::{region_models, FieldRegions, Region};
use crate::render::register_groups_model;
use crate::tokens::{strs, tokens_text};

verus! {

/// The model of an array keeps all that the array says.
pub proof fn law_array_model(array: ArrayInfo)
    ensures
        array.model().dim == array.dim,
        array.model().dim_increment == array.dim_increment,
        array.dim_index is None <==> array.model().dim_index is None,
        array.dim_index matches Some(list) ==> array.model().dim_index->0.len() == list@.len()
            && forall|i: int|
            0 <= i < list@.len() ==> #[trigger] array.model().dim_index->0[i] == list@[i]@,
{
}

/// The model of a register keeps all that the register says.
pub proof fn law_register_model(info: RegisterInfo, array: ArrayInfo)
    ensures
        info.model().name == info.name@,
        info.model().description == info.description@,
        info.model().address_offset == info.address_offset,
        info.model().size == info.size,
        info.model().access == info.access,
        info.model().reset_value == info.reset_value,
        info.model().reset_mask == info.reset_mask,
        info.model().fields == info.fields,
        info.model().write_constraint == info.write_constraint,
        info.derived_from is None <==> info.model().derived_from is None,
        info.derived_from matches Some(name) ==> info.model().derived_from == Some(name@),
        Register::Single(info).model() == RegisterModel::Single(info.model()),
        Register::Array(info, array).model() == RegisterModel::Array(info.model(), array.model()),
        RegisterModel::Single(info.model()).info() == info.model(),
        RegisterModel::Array(info.model(), array.model()).info() == info.model(),
{
}

/// The model of a cluster keeps all that the cluster says, and the models of its children in their
/// order.
pub proof fn law_cluster_model(info: ClusterInfo, array: ArrayInfo)
    ensures
        info.model().name == info.name@,
        info.model().description == info.description@,
        info.model().address_offset == info.address_offset,
        info.model().size == info.size,
        info.model().children.len() == info.children@.len(),
        forall|i: int|
            0 <= i < info.children@.len() ==> #[trigger] info.model().children[i]
                == info.children@[i].model(),
        Cluster::Single(info).model() == ClusterModel::Single(info.model()),
        Cluster::Array(info, array).model() == ClusterModel::Array(info.model(), array.model()),
        ClusterModel::Single(info.model()).info() == info.model(),
        ClusterModel::Array(info.model(), array.model()).info() == info.model(),
{
    reveal_with_fuel(Cluster::model, 2);
}

/// The models of nodes, one for each, in their order.
pub proof fn law_node_models(list: Seq<RegisterCluster>, register: Register, cluster: Cluster)
    ensures
        RegisterCluster::Register(register).model() == NodeModel::Register(register.model()),
        RegisterCluster::Cluster(cluster).model() == NodeModel::Cluster(cluster.model()),
        nodes(list).len() == list.len(),
        forall|i: int| 0 <= i < list.len() ==> #[trigger] nodes(list)[i] == list[i].model(),
{
    reveal_with_fuel(RegisterCluster::model, 2);
}

/// The model of a peripheral keeps all that the peripheral says.
pub proof fn law_peripheral_model(p: Peripheral, list: Seq<Peripheral>)
    ensures
        p.model().name == p.name@,
        p.model().base_address == p.base_address,
        p.group_name is None <==> p.model().group_name is None,
        p.group_name matches Some(text) ==> p.model().group_name == Some(text@),
        p.description is None <==> p.model().description is None,
        p.description matches Some(text) ==> p.model().description == Some(text@),
        p.derived_from is None <==> p.model().derived_from is None,
        p.derived_from matches Some(name) ==> p.model().derived_from == Some(name@),
        p.registers is None <==> p.model().registers is None,
        p.registers matches Some(nodes_of) ==> p.model().registers == Some(nodes(nodes_of@)),
        p.model().interrupt.len() == p.interrupt@.len(),
        forall|i: int|
            0 <= i < p.interrupt@.len() ==> {
                &&& (#[trigger] p.model().interrupt[i]).name == p.interrupt@[i].name@
                &&& p.model().interrupt[i].value == p.interrupt@[i].value
                &&& p.model().interrupt[i].description == opt_chars(p.interrupt@[i].description)
            },
        peripherals(list).len() == list.len(),
        forall|i: int| 0 <= i < list.len() ==> #[trigger] peripherals(list)[i] == list[i].model(),
{
}

/// The models of texts, registers, block fields and regions, one for each, in their order.
pub proof fn law_list_models(
    texts: Seq<String>,
    registers: Seq<Register>,
    fields: Seq<RegisterBlockField>,
    regions: Seq<Region>,
)
    ensures
        strings(texts).len() == texts.len(),
        forall|i: int| 0 <= i < texts.len() ==> #[trigger] strings(texts)[i] == texts[i]@,
        register_models(registers).len() == registers.len(),
        forall|i: int|
            0 <= i < registers.len() ==> #[trigger] register_models(registers)[i]
                == registers[i].model(),
        block_fields(fields).len() == fields.len(),
        forall|i: int|
            0 <= i < fields.len() ==> #[trigger] block_fields(fields)[i] == fields[i].model(),
        region_models(regions).len() == regions.len(),
        forall|i: int|
            0 <= i < regions.len() ==> #[trigger] region_models(regions)[i] == regions[i].model(),
{
}

/// The model of a block field keeps its name, its type, its description and its place.
pub proof fn law_block_field_model(f: RegisterBlockField, name: String, len: u64)
    ensures
        f.model().description == f.description@,
        f.model().offset == f.offset,
        f.model().size == f.size,
        f.model().field.ty == f.field.ty.model(),
        f.field.ident is None <==> f.model().field.ident is None,
        f.field.ident matches Some(ident) ==> f.model().field.ident == Some(ident@),
        FieldType::Path(name).model() == TypeModel::Path(name@),
        FieldType::Array(name, len).model() == TypeModel::Array(name@, len as nat),
{
}

/// The model of a region keeps its fields and its place.
pub proof fn law_region_model(r: Region)
    ensures
        r.model().fields == block_fields(r.fields@),
        r.model().offset == r.offset,
        r.model().end == r.end,
{
}

/// The model of an error keeps what it names, and its cause.
pub proof fn law_error_model(name: String, cause: Box<Error>)
    ensures
        Error::RegisterSize(name).model() == ErrorModel::RegisterSize(name@),
        Error::ClusterSize(name, cause).model() == ErrorModel::ClusterSize(
            name@,
            Box::new(cause.model()),
        ),
        Error::Register(name).model() == ErrorModel::Register(name@),
{
    reveal_with_fuel(Error::model, 2);
}

/// The texts of items, and the results that hold them, one for each, in their order.
pub proof fn law_item_models(
    items: Seq<Tokens>,
    group: Rendered,
    groups: Seq<Rendered>,
    pieces: Seq<&str>,
    e: Error,
    ok: Vec<Tokens>,
)
    ensures
        texts(items).len() == items.len(),
        forall|i: int| 0 <= i < items.len() ==> #[trigger] texts(items)[i] == tokens_text(items[i]),
        items_result(Ok(ok)) == Ok::<Seq<Seq<char>>, ErrorModel>(texts(ok@)),
        items_result(Err(e)) == Err::<Seq<Seq<char>>, ErrorModel>(e.model()),
        group_model(group).len() == group@.len(),
        forall|i: int|
            0 <= i < group@.len() ==> #[trigger] group_model(group)[i] == items_result(group@[i]),
        groups_model(groups).len() == groups.len(),
        forall|i: int|
            0 <= i < groups.len() ==> #[trigger] groups_model(groups)[i] == group_model(groups[i]),
        strs(pieces).len() == pieces.len(),
        forall|i: int| 0 <= i < pieces.len() ==> #[trigger] strs(pieces)[i] == pieces[i]@,
{
}

/// The results of expanding nodes and of writing a block keep what they hold, or the error.
pub proof fn law_result_models(fields: Vec<RegisterBlockField>, t: Tokens, e: Error)
    ensures
        fields_result(Ok(fields)) == Ok::<Seq<BlockFieldModel>, ErrorModel>(
            block_fields(fields@),
        ),
        fields_result(Err(e)) == Err::<Seq<BlockFieldModel>, ErrorModel>(e.model()),
        tokens_result(Ok(t)) == Ok::<Seq<char>, ErrorModel>(tokens_text(t)),
        tokens_result(Err(e)) == Err::<Seq<char>, ErrorModel>(e.model()),
{
}

/// The models of references, of struct fields and of groups, one for each, in their order.
pub proof fn law_more_list_models(
    registers: Seq<&Register>,
    clusters: Seq<&Cluster>,
    fields: Seq<Field>,
    groups: Seq<Vec<Register>>,
    found: FieldRegions,
)
    ensures
        register_ref_models(registers).len() == registers.len(),
        forall|i: int|
            0 <= i < registers.len() ==> #[trigger] register_ref_models(registers)[i]
                == registers[i].model(),
        cluster_ref_models(clusters).len() == clusters.len(),
        forall|i: int|
            0 <= i < clusters.len() ==> #[trigger] cluster_ref_models(clusters)[i]
                == clusters[i].model(),
        field_models(fields).len() == fields.len(),
        forall|i: int|
            0 <= i < fields.len() ==> #[trigger] field_models(fields)[i] == fields[i].model(),
        register_groups_model(groups).len() == groups.len(),
        forall|i: int|
            0 <= i < groups.len() ==> #[trigger] register_groups_model(groups)[i]
                == register_models(groups[i]@),
        found.model() == region_models(found.regions@),
{
}

} // verus!

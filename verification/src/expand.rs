use vstd::prelude::*;

use crate::convert::{
    cluster_field, cluster_fields, convert_svd_cluster, convert_svd_register, expand_svd_cluster,
    expand_svd_register, field_models, index_names, opt_text, register_field, register_fields,
};
use crate::derive::first_of;
use crate::device::{
    lemma_children, nodes, strings, ArrayInfo, ArrayModel, Cluster, ClusterInfo, ClusterModel,
    Defaults, NodeModel, Register, RegisterCluster, RegisterModel,
};
use crate::error::{Error, ErrorModel};
use crate::field::{
    block_fields, BlockFieldModel, Field, FieldModel, RegisterBlockField, BITS_PER_BYTE,
};
use crate::names::Conventions;
use crate::order::{by_offset, sort_by_offset};
use crate::regions::max_of;
use crate::text::{number_named, parse_number};

verus! {

/// Whether the elements of an array are numbered from zero on.
pub open spec fn has_sequential_indexes(array: ArrayModel) -> bool {
    match array.dim_index {
        Some(list) => list.len() == array.dim && forall|i: int|
            0 <= i < list.len() ==> number_named(#[trigger] list[i]) == Some(i as nat),
        None => true,
    }
}

/// Whether the elements of an array, of `size` bits each, follow each other without a gap.
pub open spec fn has_sequential_addresses(array: ArrayModel, size: int) -> bool {
    size == array.dim_increment * BITS_PER_BYTE
}

/// Whether an array whose elements have `size` bits can be an array of the generated code.
pub open spec fn is_convertible(array: ArrayModel, size: int) -> bool {
    has_sequential_indexes(array) && has_sequential_addresses(array, size)
}

/// The block fields of an array that starts at `offset`: one for the whole of it if the generated
/// code can have it as an array, else one for each element.
pub open spec fn array_block_fields(
    whole: FieldModel,
    parts: Seq<FieldModel>,
    description: Seq<char>,
    offset: int,
    array: ArrayModel,
    size: int,
) -> Seq<BlockFieldModel> {
    if is_convertible(array, size) {
        seq![BlockFieldModel { field: whole, description, offset, size: size * array.dim }]
    } else {
        Seq::new(
            parts.len(),
            |i: int|
                BlockFieldModel {
                    field: parts[i],
                    description,
                    offset: offset + i * array.dim_increment,
                    size,
                },
        )
    }
}

/// Whether the offsets and sizes of an array's block fields stay within 32 bits.
pub open spec fn array_fits(array: ArrayModel, offset: int, size: int) -> bool {
    let n = index_names(array).len();
    &&& array.dim_increment * BITS_PER_BYTE <= u32::MAX
    &&& is_convertible(array, size) ==> size * array.dim <= u32::MAX
    &&& !is_convertible(array, size) ==> n <= u32::MAX && (n > 0 ==> offset + (n - 1)
        * array.dim_increment <= u32::MAX)
}

/// The size of a register: its own, or the one that the device sets.
pub open spec fn register_size(register: RegisterModel, defs: Defaults) -> Option<u32> {
    first_of(register.info().size, defs.size)
}

/// The block fields of a register.
pub open spec fn register_expansion<N: Conventions>(
    style: N,
    register: RegisterModel,
    defs: Defaults,
    ns: Option<Seq<char>>,
) -> Result<Seq<BlockFieldModel>, ErrorModel> {
    let info = register.info();
    match register_size(register, defs) {
        None => Err(ErrorModel::RegisterSize(info.name)),
        Some(size) => Ok(
            match register {
                RegisterModel::Single(_) => seq![
                    BlockFieldModel {
                        field: register_field(style, register, ns),
                        description: info.description,
                        offset: info.address_offset as int,
                        size: size as int,
                    },
                ],
                RegisterModel::Array(_, array) => array_block_fields(
                    register_field(style, register, ns),
                    register_fields(style, register, ns),
                    info.description,
                    info.address_offset as int,
                    array,
                    size as int,
                ),
            },
        ),
    }
}

/// Whether the block fields of a register stay within 32 bits.
pub open spec fn register_fits(register: RegisterModel, defs: Defaults) -> bool {
    match (register, register_size(register, defs)) {
        (RegisterModel::Array(info, array), Some(size)) => array_fits(
            array,
            info.address_offset as int,
            size as int,
        ),
        _ => true,
    }
}

/// Where an array that starts at `offset` ends, in bits: with the last of its elements, of `size`
/// bits each, or where it starts if it has none.
pub open spec fn array_end(array: ArrayModel, offset: int, size: int) -> int {
    let n = index_names(array).len();
    if n == 0 {
        offset * BITS_PER_BYTE
    } else {
        (offset + (n - 1) * array.dim_increment) * BITS_PER_BYTE + size
    }
}

/// Where a register of that size ends, in bits.
pub open spec fn register_end(register: RegisterModel, size: int) -> int {
    match register {
        RegisterModel::Single(info) => info.address_offset * BITS_PER_BYTE + size,
        RegisterModel::Array(info, array) => array_end(array, info.address_offset as int, size),
    }
}

/// Where a node of a cluster ends, in bits from the start of the cluster.
pub open spec fn node_end(node: NodeModel, defs: Defaults) -> Result<int, ErrorModel>
    decreases node,
{
    match node {
        NodeModel::Register(register) => match register_size(register, defs) {
            None => Err(ErrorModel::RegisterSize(register.info().name)),
            Some(size) => Ok(register_end(register, size as int)),
        },
        NodeModel::Cluster(ClusterModel::Single(info)) => match children_end(info.children, defs) {
            Err(e) => Err(e),
            Ok(size) => Ok(info.address_offset * BITS_PER_BYTE + size),
        },
        NodeModel::Cluster(ClusterModel::Array(info, array)) => match children_end(
            info.children,
            defs,
        ) {
            Err(e) => Err(e),
            Ok(size) => Ok(array_end(array, info.address_offset as int, size)),
        },
    }
}

/// Where the last of the nodes ends, in bits; the error of the first that has no end.
pub open spec fn children_end(children: Seq<NodeModel>, defs: Defaults) -> Result<int, ErrorModel>
    decreases children,
{
    if children.len() == 0 {
        Ok(0)
    } else {
        match children_end(children.drop_last(), defs) {
            Err(e) => Err(e),
            Ok(size) => match node_end(children.last(), defs) {
                Err(e) => Err(e),
                Ok(end) => Ok(max_of(size, end)),
            },
        }
    }
}

/// Whether the end of a node stays within 32 bits.
pub open spec fn node_end_fits(node: NodeModel, defs: Defaults) -> bool
    decreases node,
{
    match node {
        NodeModel::Register(register) => register_size(register, defs) matches Some(size) ==> {
            &&& register_fits(register, defs)
            &&& register_end(register, size as int) <= u32::MAX
        },
        NodeModel::Cluster(ClusterModel::Single(info)) => {
            &&& info.address_offset * BITS_PER_BYTE <= u32::MAX
            &&& children_end_fits(info.children, defs)
            &&& node_end(node, defs) matches Ok(end) ==> end <= u32::MAX
        },
        NodeModel::Cluster(ClusterModel::Array(info, _)) => {
            &&& info.address_offset * BITS_PER_BYTE <= u32::MAX
            &&& children_end_fits(info.children, defs)
            &&& node_end(node, defs) matches Ok(end) ==> end <= u32::MAX
        },
    }
}

/// Whether the ends of the nodes stay within 32 bits, up to the first that has none.
pub open spec fn children_end_fits(children: Seq<NodeModel>, defs: Defaults) -> bool
    decreases children,
{
    children.len() > 0 ==> {
        &&& children_end_fits(children.drop_last(), defs)
        &&& children_end(children.drop_last(), defs) is Ok ==> node_end_fits(children.last(), defs)
    }
}

/// The size of a cluster in bits: its own, or up to where the last of its children ends.
pub open spec fn cluster_bits(cluster: ClusterModel, defs: Defaults) -> Result<int, ErrorModel> {
    let info = cluster.info();
    match info.size {
        Some(size) => Ok(size as int),
        None => match children_end(info.children, defs) {
            Ok(size) => Ok(size),
            Err(e) => Err(ErrorModel::ClusterSize(info.name, Box::new(e))),
        },
    }
}

/// The block fields of a cluster.
pub open spec fn cluster_expansion<N: Conventions>(
    style: N,
    cluster: ClusterModel,
    defs: Defaults,
) -> Result<Seq<BlockFieldModel>, ErrorModel> {
    let info = cluster.info();
    match cluster_bits(cluster, defs) {
        Err(e) => Err(e),
        Ok(size) => Ok(
            match cluster {
                ClusterModel::Single(_) => seq![
                    BlockFieldModel {
                        field: cluster_field(style, cluster),
                        description: info.description,
                        offset: info.address_offset as int,
                        size,
                    },
                ],
                ClusterModel::Array(_, array) => array_block_fields(
                    cluster_field(style, cluster),
                    cluster_fields(style, cluster),
                    info.description,
                    info.address_offset as int,
                    array,
                    size,
                ),
            },
        ),
    }
}

/// Whether the block fields of a cluster stay within 32 bits.
pub open spec fn cluster_fits(cluster: ClusterModel, defs: Defaults) -> bool {
    &&& cluster.info().size is None ==> children_end_fits(cluster.info().children, defs)
    &&& match (cluster, cluster_bits(cluster, defs)) {
        (ClusterModel::Array(info, array), Ok(size)) => array_fits(
            array,
            info.address_offset as int,
            size,
        ),
        _ => true,
    }
}

/// The block fields of a node.
pub open spec fn node_expansion<N: Conventions>(
    style: N,
    node: NodeModel,
    defs: Defaults,
    ns: Option<Seq<char>>,
) -> Result<Seq<BlockFieldModel>, ErrorModel> {
    match node {
        NodeModel::Register(register) => register_expansion(style, register, defs, ns),
        NodeModel::Cluster(cluster) => cluster_expansion(style, cluster, defs),
    }
}

/// Whether the block fields of a node stay within 32 bits.
pub open spec fn node_fits(node: NodeModel, defs: Defaults) -> bool {
    match node {
        NodeModel::Register(register) => register_fits(register, defs),
        NodeModel::Cluster(cluster) => cluster_fits(cluster, defs),
    }
}

/// The block fields of all nodes, node by node; the error of the first that has one.
pub open spec fn nodes_expansion<N: Conventions>(
    style: N,
    list: Seq<NodeModel>,
    defs: Defaults,
    ns: Option<Seq<char>>,
) -> Result<Seq<BlockFieldModel>, ErrorModel>
    decreases list.len(),
{
    if list.len() == 0 {
        Ok(Seq::empty())
    } else {
        match nodes_expansion(style, list.drop_last(), defs, ns) {
            Err(e) => Err(e),
            Ok(before) => match node_expansion(style, list.last(), defs, ns) {
                Err(e) => Err(e),
                Ok(more) => Ok(before + more),
            },
        }
    }
}

/// Whether the block fields of all nodes stay within 32 bits, up to the first node with an error.
pub open spec fn expand_fits<N: Conventions>(
    style: N,
    list: Seq<NodeModel>,
    defs: Defaults,
    ns: Option<Seq<char>>,
) -> bool
    decreases list.len(),
{
    list.len() > 0 ==> {
        &&& expand_fits(style, list.drop_last(), defs, ns)
        &&& nodes_expansion(style, list.drop_last(), defs, ns) is Ok ==> node_fits(
            list.last(),
            defs,
        )
    }
}

/// The block fields of all nodes, in the order of their offsets.
pub open spec fn expansion<N: Conventions>(
    style: N,
    list: Seq<NodeModel>,
    defs: Defaults,
    ns: Option<Seq<char>>,
) -> Result<Seq<BlockFieldModel>, ErrorModel> {
    match nodes_expansion(style, list, defs, ns) {
        Ok(fields) => Ok(by_offset(fields)),
        Err(e) => Err(e),
    }
}

/// The models of block fields, or of the error in their place.
pub open spec fn fields_result(
    r: Result<Vec<RegisterBlockField>, Error>,
) -> Result<Seq<BlockFieldModel>, ErrorModel> {
    match r {
        Ok(list) => Ok(block_fields(list@)),
        Err(e) => Err(e.model()),
    }
}

/// Tells whether the elements of an array are numbered from zero on.
pub fn sequential_indexes(array: &ArrayInfo) -> (b: bool)
    ensures
        b == has_sequential_indexes(array.model()),
{
    match &array.dim_index {
        None => true,
        Some(list) => {
            if list.len() as u64 != array.dim as u64 {
                return false;
            }
            let mut i: usize = 0;
            while i < list.len()
                invariant
                    i <= list@.len(),
                    list@.len() == array.dim,
                    array.dim_index == Some(*list),
                    forall|j: int|
                        0 <= j < i ==> number_named(#[trigger] strings(list@)[j]) == Some(j as nat),
                decreases list@.len() - i,
            {
                let number = parse_number(list[i].as_str());
                let same = match number {
                    Some(n) => n as u64 == i as u64,
                    None => false,
                };
                if !same {
                    assert(number_named(strings(list@)[i as int]) != Some(i as nat));
                    return false;
                }
                i += 1;
            }
            true
        },
    }
}

/// Tells whether an array whose elements have `size` bits can be an array of the generated code.
pub fn array_convertible(array: &ArrayInfo, size: u32) -> (b: bool)
    requires
        array.dim_increment * BITS_PER_BYTE <= u32::MAX,
    ensures
        b == is_convertible(array.model(), size as int),
{
    let sequential_addresses = size == array.dim_increment * BITS_PER_BYTE;
    sequential_indexes(array) && sequential_addresses
}

/// Places the elements of an array one after the other.
fn place_elements(
    parts: Vec<Field>,
    description: &String,
    offset: u32,
    increment: u32,
    size: u32,
) -> (r: Vec<RegisterBlockField>)
    requires
        parts@.len() <= u32::MAX,
        parts@.len() > 0 ==> offset + (parts@.len() - 1) * increment <= u32::MAX,
    ensures
        block_fields(r@) == Seq::new(
            parts@.len(),
            |i: int|
                BlockFieldModel {
                    field: field_models(parts@)[i],
                    description: description@,
                    offset: offset + i * increment,
                    size: size as int,
                },
        ),
{
    let ghost want = Seq::new(
        parts@.len(),
        |i: int|
            BlockFieldModel {
                field: field_models(parts@)[i],
                description: description@,
                offset: offset + i * increment,
                size: size as int,
            },
    );
    let mut r: Vec<RegisterBlockField> = Vec::new();
    let mut field_num: u32 = 0;
    let n: usize = parts.len();
    while (field_num as usize) < n
        invariant
            field_num <= n,
            n == parts@.len(),
            n <= u32::MAX,
            n > 0 ==> offset + (n - 1) * increment <= u32::MAX,
            r@.len() == field_num,
            want == Seq::new(
                parts@.len(),
                |i: int|
                    BlockFieldModel {
                        field: field_models(parts@)[i],
                        description: description@,
                        offset: offset + i * increment,
                        size: size as int,
                    },
            ),
            forall|j: int| 0 <= j < field_num ==> (#[trigger] r@[j]).model() == want[j],
        decreases n - field_num,
    {
        assert(0 <= field_num * increment <= (n - 1) * increment) by (nonlinear_arith)
            requires
                0 <= field_num <= n - 1,
                increment >= 0,
        ;
        let f = RegisterBlockField {
            field: parts[field_num as usize].clone(),
            description: description.clone(),
            offset: offset + field_num * increment,
            size,
        };
        assert(f.model() == want[field_num as int]);
        r.push(f);
        field_num += 1;
    }
    assert(block_fields(r@) =~= want);
    r
}

/// If register arrays can't be converted to rust arrays (non sequential addresses, non numeral
/// indexes, or not containing all elements from 0 to size) they will be expanded.
pub fn expand_register<N: Conventions>(
    register: &Register,
    defs: &Defaults,
    name: Option<&str>,
    style: &N,
) -> (r: Result<Vec<RegisterBlockField>, Error>)
    requires
        register_fits(register.model(), *defs),
    ensures
        fields_result(r) == register_expansion(*style, register.model(), *defs, opt_text(name)),
{
    let info = register.info();
    let own = info.size;
    let size = match own {
        Some(size) => Some(size),
        None => defs.size,
    };
    let size = match size {
        Some(size) => size,
        None => {
            return Err(Error::RegisterSize(info.name.clone()));
        },
    };
    let mut fields: Vec<RegisterBlockField> = Vec::new();
    match register {
        Register::Single(_) => {
            fields.push(
                RegisterBlockField {
                    field: convert_svd_register(register, name, style),
                    description: info.description.clone(),
                    offset: info.address_offset,
                    size,
                },
            );
        },
        Register::Array(_, array) => {
            if array_convertible(array, size) {
                fields.push(
                    RegisterBlockField {
                        field: convert_svd_register(register, name, style),
                        description: info.description.clone(),
                        offset: info.address_offset,
                        size: size * array.dim,
                    },
                );
            } else {
                let parts = expand_svd_register(register, name, style);
                assert(field_models(parts@).len() == parts@.len());
                fields = place_elements(
                    parts,
                    &info.description,
                    info.address_offset,
                    array.dim_increment,
                    size,
                );
            }
        },
    }
    assert(block_fields(fields@) =~= register_expansion(
        *style,
        register.model(),
        *defs,
        opt_text(name),
    )->Ok_0);
    Ok(fields)
}

/// Recursively calculate the size of a cluster. A cluster's size is the maximum end position of
/// its recursive children.
pub fn cluster_size_in_bits(info: &ClusterInfo, defs: &Defaults) -> (r: Result<u32, Error>)
    requires
        children_end_fits(info.model().children, *defs),
    ensures
        match r {
            Ok(size) => children_end(info.model().children, *defs) == Ok::<int, ErrorModel>(
                size as int,
            ),
            Err(e) => children_end(info.model().children, *defs) == Err::<int, ErrorModel>(
                e.model(),
            ),
        },
    decreases info,
{
    broadcast use lemma_children;

    let ghost all = info.model().children;
    let mut size: u32 = 0;
    let mut i: usize = 0;
    assert(all.take(all.len() as int) =~= all);
    while i < info.children.len()
        invariant
            i <= info.children@.len(),
            all == nodes(info.children@),
            all == info.model().children,
            children_end_fits(all, *defs),
            children_end(all.take(i as int), *defs) == Ok::<int, ErrorModel>(size as int),
        decreases info.children@.len() - i,
    {
        let ghost node = all[i as int];
        proof {
            lemma_children_prefix(all, i + 1, *defs);
            assert(all.take(i + 1).drop_last() =~= all.take(i as int));
            assert(all.take(i + 1).last() == node);
            assert(node == info.children@[i as int].model());
            reveal_with_fuel(node_end, 2);
            reveal_with_fuel(node_end_fits, 2);
            assert(node_end_fits(node, *defs));
        }
        let end: u32 = match &info.children[i] {
            RegisterCluster::Register(register) => {
                let own = register.info().size;
                let wanted = match own {
                    Some(size) => Some(size),
                    None => defs.size,
                };
                match wanted {
                    None => {
                        return Err(Error::RegisterSize(register.info().name.clone()));
                    },
                    Some(bits) => match register {
                        Register::Single(inner) => inner.address_offset * BITS_PER_BYTE + bits,
                        Register::Array(inner, array) => find_array_end(
                            array,
                            inner.address_offset,
                            bits,
                        ),
                    },
                }
            },
            RegisterCluster::Cluster(cluster) => {
                let inner = cluster.info();
                match cluster_size_in_bits(inner, defs) {
                    Err(e) => {
                        return Err(e);
                    },
                    Ok(bits) => match cluster {
                        Cluster::Single(_) => inner.address_offset * BITS_PER_BYTE + bits,
                        Cluster::Array(_, array) => find_array_end(
                            array,
                            inner.address_offset,
                            bits,
                        ),
                    },
                }
            },
        };
        if end > size {
            size = end;
        }
        i += 1;
    }
    assert(all.take(i as int) =~= all);
    Ok(size)
}

/// What holds of the ends of some nodes holds of the first of them; and the first error stays.
pub(crate) proof fn lemma_children_prefix(children: Seq<NodeModel>, k: int, defs: Defaults)
    requires
        0 <= k <= children.len(),
    ensures
        children_end_fits(children, defs) ==> children_end_fits(children.take(k), defs),
        children_end(children.take(k), defs) is Err ==> {
            &&& children_end(children, defs) == children_end(children.take(k), defs)
            &&& children_end_fits(children.take(k), defs) ==> children_end_fits(children, defs)
        },
    decreases children.len(),
{
    if k == children.len() {
        assert(children.take(k) =~= children);
    } else {
        lemma_children_prefix(children.drop_last(), k, defs);
        assert(children.drop_last().take(k) =~= children.take(k));
    }
}

/// The number of elements of an array.
pub(crate) fn count_elements(array: &ArrayInfo) -> (n: usize)
    ensures
        n == index_names(array.model()).len(),
{
    match &array.dim_index {
        Some(list) => list.len(),
        None => array.dim as usize,
    }
}

/// Where an array that starts at `offset` ends, in bits.
fn find_array_end(array: &ArrayInfo, offset: u32, size: u32) -> (r: u32)
    requires
        array_end(array.model(), offset as int, size as int) <= u32::MAX,
    ensures
        r == array_end(array.model(), offset as int, size as int),
{
    let n: usize = count_elements(array);
    if n == 0 {
        return offset * BITS_PER_BYTE;
    }
    let steps: u64 = (n - 1) as u64;
    let step: u64 = array.dim_increment as u64;
    assert(steps * step >= 0) by (nonlinear_arith)
        requires
            steps >= 0,
            step >= 0,
    ;
    let start: u64 = offset as u64 + steps * step;
    assert(BITS_PER_BYTE as u64 == 8);
    (start * BITS_PER_BYTE as u64 + size as u64) as u32
}

/// Render a given cluster (and any children) into `RegisterBlockField`s.
pub fn expand_cluster<N: Conventions>(
    cluster: &Cluster,
    defs: &Defaults,
    style: &N,
) -> (r: Result<Vec<RegisterBlockField>, Error>)
    requires
        cluster_fits(cluster.model(), *defs),
    ensures
        fields_result(r) == cluster_expansion(*style, cluster.model(), *defs),
{
    let info = cluster.info();
    let own = info.size;
    let size = match own {
        Some(size) => size,
        None => match cluster_size_in_bits(info, defs) {
            Ok(size) => size,
            Err(e) => {
                return Err(Error::ClusterSize(info.name.clone(), Box::new(e)));
            },
        },
    };
    let mut fields: Vec<RegisterBlockField> = Vec::new();
    match cluster {
        Cluster::Single(_) => {
            fields.push(
                RegisterBlockField {
                    field: convert_svd_cluster(cluster, style),
                    description: info.description.clone(),
                    offset: info.address_offset,
                    size,
                },
            );
        },
        Cluster::Array(_, array) => {
            if array_convertible(array, size) {
                fields.push(
                    RegisterBlockField {
                        field: convert_svd_cluster(cluster, style),
                        description: info.description.clone(),
                        offset: info.address_offset,
                        size: size * array.dim,
                    },
                );
            } else {
                let parts = expand_svd_cluster(cluster, style);
                assert(field_models(parts@).len() == parts@.len());
                fields = place_elements(
                    parts,
                    &info.description,
                    info.address_offset,
                    array.dim_increment,
                    size,
                );
            }
        },
    }
    assert(block_fields(fields@) =~= cluster_expansion(*style, cluster.model(), *defs)->Ok_0);
    Ok(fields)
}

/// What holds of the block fields of some nodes holds of those of the first of them; and the first
/// error stays.
pub(crate) proof fn lemma_expansion_prefix<N: Conventions>(
    style: N,
    list: Seq<NodeModel>,
    k: int,
    defs: Defaults,
    ns: Option<Seq<char>>,
)
    requires
        0 <= k <= list.len(),
    ensures
        expand_fits(style, list, defs, ns) ==> expand_fits(style, list.take(k), defs, ns),
        nodes_expansion(style, list.take(k), defs, ns) is Err ==> {
            &&& nodes_expansion(style, list, defs, ns) == nodes_expansion(
                style,
                list.take(k),
                defs,
                ns,
            )
            &&& expand_fits(style, list.take(k), defs, ns) ==> expand_fits(style, list, defs, ns)
        },
    decreases list.len(),
{
    if k == list.len() {
        assert(list.take(k) =~= list);
    } else {
        lemma_expansion_prefix(style, list.drop_last(), k, defs, ns);
        assert(list.drop_last().take(k) =~= list.take(k));
    }
}

/// Expand a list of registers or clusters, and render them to `RegisterBlockField`s containing
/// `Field`s.
pub fn expand<N: Conventions>(
    ercs: &Vec<RegisterCluster>,
    defs: &Defaults,
    name: Option<&str>,
    style: &N,
) -> (r: Result<Vec<RegisterBlockField>, Error>)
    requires
        expand_fits(*style, nodes(ercs@), *defs, opt_text(name)),
    ensures
        fields_result(r) == expansion(*style, nodes(ercs@), *defs, opt_text(name)),
{
    let ghost all = nodes(ercs@);
    let ghost ns = opt_text(name);
    let mut expanded: Vec<RegisterBlockField> = Vec::new();
    let mut i: usize = 0;
    assert(block_fields(expanded@) =~= Seq::<BlockFieldModel>::empty());
    while i < ercs.len()
        invariant
            i <= ercs@.len(),
            all == nodes(ercs@),
            ns == opt_text(name),
            expand_fits(*style, all, *defs, ns),
            nodes_expansion(*style, all.take(i as int), *defs, ns) == Ok::<
                Seq<BlockFieldModel>,
                ErrorModel,
            >(block_fields(expanded@)),
        decreases ercs@.len() - i,
    {
        proof {
            lemma_expansion_prefix(*style, all, i + 1, *defs, ns);
            assert(all.take(i + 1).drop_last() =~= all.take(i as int));
            assert(all.take(i + 1).last() == ercs@[i as int].model());
        }
        let part = match &ercs[i] {
            RegisterCluster::Register(register) => expand_register(register, defs, name, style),
            RegisterCluster::Cluster(cluster) => expand_cluster(cluster, defs, style),
        };
        match part {
            Err(e) => {
                return Err(e);
            },
            Ok(part) => {
                let mut part = part;
                let ghost before = block_fields(expanded@);
                let ghost more = block_fields(part@);
                expanded.append(&mut part);
                assert(block_fields(expanded@) =~= before + more);
            },
        }
        i += 1;
    }
    assert(all.take(i as int) =~= all);
    Ok(sort_by_offset(expanded))
}

} // verus!

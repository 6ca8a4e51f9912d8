use quote::Tokens;
use vstd::prelude::*;

use crate::block::{
    block_fits, gaps_fit, lemma_regions_fit_prefix, register_or_cluster_block, regions_fit,
    regions_of,
};
use crate::cluster::{
    cluster_block, cluster_block_fits, cluster_groups, clusters_fit, clusters_text, collected,
    group_model, groups_in, groups_model, items_result, lemma_clusters_prefix,
    lemma_collected_error, strip_slots, Rendered,
};
use crate::convert::opt_text;
use crate::device::{
    lemma_children, nodes, peripherals, ArrayInfo, Cluster, ClusterInfo, Defaults, NodeModel,
    Peripheral, Register, RegisterCluster,
};
use crate::error::Error;
use crate::expand::{
    array_end, array_fits, children_end, children_end_fits, cluster_bits, cluster_fits,
    cluster_size_in_bits, count_elements, expand, expand_fits, is_convertible,
    lemma_children_prefix, lemma_expansion_prefix, node_end, node_end_fits, nodes_expansion,
    register_fits, register_size, sequential_indexes,
};
use crate::field::{block_fields, RegisterBlockField, BITS_PER_BYTE};
use crate::names::Conventions;
use crate::regions::{region_models, FieldRegions, Region};
use crate::render::{
    answers, complete, groups_of, list_block_nodes, peripheral_fits, peripheral_text,
    register_groups, register_groups_model, render,
};

verus! {

/// A number of bytes, in bits.
fn in_bits(bytes: u32) -> (r: u64)
    ensures
        r == bytes * BITS_PER_BYTE,
{
    assert(BITS_PER_BYTE as u64 == 8);
    bytes as u64 * BITS_PER_BYTE as u64
}

/// Tells whether the elements of an array can be an array of the generated code, for any
/// increment.
fn convertible(array: &ArrayInfo, size: u32) -> (b: bool)
    ensures
        b == is_convertible(array.model(), size as int),
{
    let addresses = size as u64 == in_bits(array.dim_increment);
    sequential_indexes(array) && addresses
}

/// Tells whether the offsets and sizes of an array's block fields stay within 32 bits.
fn array_in_range(array: &ArrayInfo, offset: u32, size: u32) -> (b: bool)
    ensures
        b == array_fits(array.model(), offset as int, size as int),
{
    if in_bits(array.dim_increment) > u32::MAX as u64 {
        return false;
    }
    if convertible(array, size) {
        assert(0 <= size * array.dim <= u32::MAX * u32::MAX) by (nonlinear_arith)
            requires
                0 <= size <= u32::MAX,
                0 <= array.dim <= u32::MAX,
        ;
        size as u64 * array.dim as u64 <= u32::MAX as u64
    } else {
        let n: u64 = count_elements(array) as u64;
        if n > u32::MAX as u64 {
            return false;
        }
        if n == 0 {
            return true;
        }
        assert(0 <= (n - 1) * array.dim_increment <= (u32::MAX - 1) * u32::MAX) by (nonlinear_arith)
            requires
                1 <= n <= u32::MAX,
                0 <= array.dim_increment <= u32::MAX,
        ;
        offset as u64 + (n - 1) * array.dim_increment as u64 <= u32::MAX as u64
    }
}

/// The size of a register: its own, or the one that the device sets.
fn find_size(register: &Register, defs: &Defaults) -> (r: Option<u32>)
    ensures
        r == register_size(register.model(), *defs),
{
    let own = register.info().size;
    match own {
        Some(size) => Some(size),
        None => defs.size,
    }
}

/// Tells whether the block fields of a register stay within 32 bits.
fn register_in_range(register: &Register, defs: &Defaults) -> (b: bool)
    ensures
        b == register_fits(register.model(), *defs),
{
    match (register, find_size(register, defs)) {
        (Register::Array(info, array), Some(size)) => array_in_range(
            array,
            info.address_offset,
            size,
        ),
        _ => true,
    }
}

/// Tells whether the end of an array stays within 32 bits.
fn array_end_in_range(array: &ArrayInfo, offset: u32, size: u32) -> (b: bool)
    ensures
        b == (array_end(array.model(), offset as int, size as int) <= u32::MAX),
{
    let n: usize = count_elements(array);
    if n == 0 {
        return in_bits(offset) <= u32::MAX as u64;
    }
    let steps: u128 = (n - 1) as u128;
    let step: u128 = array.dim_increment as u128;
    assert(0 <= steps * step <= u64::MAX * u32::MAX) by (nonlinear_arith)
        requires
            0 <= steps <= u64::MAX,
            0 <= step <= u32::MAX,
    ;
    let start: u128 = offset as u128 + steps * step;
    start * 8 + size as u128 <= u32::MAX as u128
}

/// Tells whether the end of a register, of that size, stays within 32 bits.
fn register_end_in_range(register: &Register, defs: &Defaults, size: u32) -> (b: bool)
    requires
        register_size(register.model(), *defs) == Some(size),
    ensures
        b == node_end_fits(NodeModel::Register(register.model()), *defs),
{
    if !register_in_range(register, defs) {
        return false;
    }
    match register {
        Register::Single(info) => in_bits(info.address_offset) + size as u64 <= u32::MAX as u64,
        Register::Array(info, array) => array_end_in_range(array, info.address_offset, size),
    }
}

/// Tells whether the end of a node stays within 32 bits, and whether it has one.
fn node_end_in_range(node: &RegisterCluster, defs: &Defaults) -> (r: (bool, bool))
    ensures
        r.0 == node_end_fits(node.model(), *defs),
        r.0 ==> r.1 == (node_end(node.model(), *defs) is Ok),
    decreases node,
{
    broadcast use lemma_children;

    match node {
        RegisterCluster::Register(register) => match find_size(register, defs) {
            None => (true, false),
            Some(size) => (register_end_in_range(register, defs, size), true),
        },
        RegisterCluster::Cluster(cluster) => {
            let inner = cluster.info();
            let offset = in_bits(inner.address_offset);
            if offset > u32::MAX as u64 || !children_in_range(inner, defs) {
                return (false, false);
            }
            match cluster_size_in_bits(inner, defs) {
                Err(_) => (true, false),
                Ok(bits) => match cluster {
                    Cluster::Single(_) => (offset + bits as u64 <= u32::MAX as u64, true),
                    Cluster::Array(_, array) => (
                        array_end_in_range(array, inner.address_offset, bits),
                        true,
                    ),
                },
            }
        },
    }
}

/// Tells whether the ends of the children of a cluster stay within 32 bits, up to the first that
/// has none.
fn children_in_range(info: &ClusterInfo, defs: &Defaults) -> (b: bool)
    ensures
        b == children_end_fits(info.model().children, *defs),
    decreases info,
{
    broadcast use lemma_children;

    let ghost all = info.model().children;
    let mut i: usize = 0;
    while i < info.children.len()
        invariant
            i <= info.children@.len(),
            all == nodes(info.children@),
            all == info.model().children,
            children_end_fits(all.take(i as int), *defs),
            children_end(all.take(i as int), *defs) is Ok,
        decreases info.children@.len() - i,
    {
        proof {
            lemma_children_prefix(all, i + 1, *defs);
            assert(all.take(i + 1).drop_last() =~= all.take(i as int));
            assert(all.take(i + 1).last() == info.children@[i as int].model());
            reveal_with_fuel(children_end, 2);
            reveal_with_fuel(children_end_fits, 2);
        }
        let (fits, has_end) = node_end_in_range(&info.children[i], defs);
        if !fits {
            return false;
        }
        if !has_end {
            return true;
        }
        i += 1;
    }
    assert(all.take(i as int) =~= all);
    true
}

/// Tells whether the block fields of a cluster stay within 32 bits, and whether it has a size.
fn cluster_in_range(cluster: &Cluster, defs: &Defaults) -> (r: (bool, bool))
    ensures
        r.0 == cluster_fits(cluster.model(), *defs),
        r.0 ==> r.1 == (cluster_bits(cluster.model(), *defs) is Ok),
{
    broadcast use lemma_children;

    let info = cluster.info();
    let own = info.size;
    let size = match own {
        Some(size) => size,
        None => {
            if !children_in_range(info, defs) {
                return (false, false);
            }
            match cluster_size_in_bits(info, defs) {
                Ok(size) => size,
                Err(_) => {
                    return (true, false);
                },
            }
        },
    };
    match cluster {
        Cluster::Single(_) => (true, true),
        Cluster::Array(info, array) => (array_in_range(array, info.address_offset, size), true),
    }
}

/// Tells whether the block fields of all nodes stay within 32 bits, up to the first node with an
/// error.
fn expand_in_range<N: Conventions>(
    ercs: &Vec<RegisterCluster>,
    defs: &Defaults,
    name: Option<&str>,
    style: &N,
) -> (b: bool)
    ensures
        b == expand_fits(*style, nodes(ercs@), *defs, opt_text(name)),
{
    let ghost all = nodes(ercs@);
    let ghost ns = opt_text(name);
    let mut i: usize = 0;
    while i < ercs.len()
        invariant
            i <= ercs@.len(),
            all == nodes(ercs@),
            ns == opt_text(name),
            expand_fits(*style, all.take(i as int), *defs, ns),
            nodes_expansion(*style, all.take(i as int), *defs, ns) is Ok,
        decreases ercs@.len() - i,
    {
        proof {
            lemma_expansion_prefix(*style, all, i + 1, *defs, ns);
            assert(all.take(i + 1).drop_last() =~= all.take(i as int));
            assert(all.take(i + 1).last() == ercs@[i as int].model());
        }
        let (fits, has_size) = match &ercs[i] {
            RegisterCluster::Register(register) => (
                register_in_range(register, defs),
                find_size(register, defs).is_some(),
            ),
            RegisterCluster::Cluster(cluster) => cluster_in_range(cluster, defs),
        };
        if !fits {
            return false;
        }
        if !has_size {
            return true;
        }
        i += 1;
    }
    assert(all.take(i as int) =~= all);
    true
}

/// Tells whether no region starts before the one in front of it ends.
fn gaps_in_range(regions: &Vec<Region>) -> (b: bool)
    ensures
        b == gaps_fit(region_models(regions@)),
{
    let ghost all = region_models(regions@);
    let mut i: usize = 1;
    while i < regions.len()
        invariant
            1 <= i,
            regions@.len() > 0 ==> i <= regions@.len(),
            all == region_models(regions@),
            forall|j: int|
                0 < j < i && j < all.len() ==> all[j - 1].end <= (#[trigger] all[j]).offset,
        decreases regions@.len() - i,
    {
        assert(all[i as int] == regions@[i as int].model());
        assert(all[i - 1] == regions@[i - 1].model());
        if regions[i - 1].end > regions[i].offset {
            return false;
        }
        i += 1;
    }
    true
}

/// Tells whether the fields of a block can be laid out.
fn fields_in_range(fields: &Vec<RegisterBlockField>) -> (b: bool)
    ensures
        b == (regions_fit(block_fields(fields@)) && gaps_fit(regions_of(block_fields(fields@)))),
{
    let ghost all = block_fields(fields@);
    let mut r = FieldRegions::default();
    let mut i: usize = 0;
    while i < fields.len()
        invariant
            i <= fields@.len(),
            all == block_fields(fields@),
            regions_fit(all.take(i as int)),
            r.wf(),
            r.model() == regions_of(all.take(i as int)),
        decreases fields@.len() - i,
    {
        assert(all.take(i + 1).drop_last() =~= all.take(i as int));
        assert(all.take(i + 1).last() == fields@[i as int].model());
        if !r.has_room_for(&fields[i]) {
            proof {
                if regions_fit(all) {
                    lemma_regions_fit_prefix(all, i + 1);
                }
            }
            return false;
        }
        r.add(&fields[i]);
        i += 1;
    }
    assert(all.take(i as int) =~= all);
    gaps_in_range(&r.regions)
}

/// Tells whether a block can be laid out.
pub fn block_in_range<N: Conventions>(
    ercs: &Vec<RegisterCluster>,
    defs: &Defaults,
    name: Option<&str>,
    style: &N,
) -> (b: bool)
    ensures
        b == block_fits(*style, nodes(ercs@), *defs, opt_text(name)),
{
    reveal(block_fits);
    if !expand_in_range(ercs, defs, name, style) {
        return false;
    }
    match expand(ercs, defs, name, style) {
        Err(_) => true,
        Ok(fields) => fields_in_range(&fields),
    }
}

/// Tells whether no item of a group is missing.
fn all_there(group: &Rendered) -> (b: bool)
    ensures
        b == (collected(group_model(*group)) is Ok),
{
    let ghost all = group_model(*group);
    let mut i: usize = 0;
    while i < group.len()
        invariant
            i <= group@.len(),
            all == group_model(*group),
            collected(all.take(i as int)) is Ok,
        decreases group@.len() - i,
    {
        assert(all.take(i + 1).drop_last() =~= all.take(i as int));
        assert(all.take(i + 1).last() == items_result(group@[i as int]));
        if group[i].is_err() {
            proof {
                lemma_collected_error(all, i + 1);
            }
            return false;
        }
        i += 1;
    }
    assert(all.take(i as int) =~= all);
    true
}

/// Tells whether the blocks of a cluster and of the clusters within it can be laid out, up to the
/// first error. The code of its registers is in `rendered`, from `start` on.
pub fn cluster_block_in_range<N: Conventions>(
    c: &Cluster,
    defs: &Defaults,
    rendered: &Vec<Rendered>,
    start: usize,
    style: &N,
) -> (b: bool)
    requires
        start + cluster_groups(c.model().info()).len() <= rendered@.len(),
    ensures
        b == cluster_block_fits(
            *style,
            c.model().info(),
            *defs,
            groups_model(rendered@).skip(start as int),
        ),
    decreases c,
{
    broadcast use lemma_children;

    let info = c.info();
    let ghost given = groups_model(rendered@).skip(start as int);
    assert(start < rendered.len());
    let mod_name = strip_slots(info.name.as_str());
    if !block_in_range(&info.children, defs, Some(mod_name.as_str()), style) {
        return false;
    }
    let block = register_or_cluster_block(&info.children, defs, Some(mod_name.as_str()), style);
    assert(given[0] == group_model(rendered@[start as int]));
    if block.is_err() || !all_there(&rendered[start]) {
        return true;
    }
    assert(given.skip(1) =~= groups_model(rendered@).skip(start + 1));
    clusters_in_range(&info.children, defs, rendered, start + 1, style)
}

/// Tells whether the blocks of all clusters among the nodes can be laid out, up to the first
/// error. The code of their registers is in `rendered`, from `start` on.
pub fn clusters_in_range<N: Conventions>(
    list: &Vec<RegisterCluster>,
    defs: &Defaults,
    rendered: &Vec<Rendered>,
    start: usize,
    style: &N,
) -> (b: bool)
    requires
        start + groups_in(nodes(list@)).len() <= rendered@.len(),
    ensures
        b == clusters_fit(
            *style,
            nodes(list@),
            *defs,
            groups_model(rendered@).skip(start as int),
        ),
    decreases list@,
{
    let ghost all = nodes(list@);
    let ghost given = groups_model(rendered@).skip(start as int);
    let mut next: usize = start;
    let mut i: usize = 0;
    while i < list.len()
        invariant
            i <= list@.len(),
            all == nodes(list@),
            given == groups_model(rendered@).skip(start as int),
            start + groups_in(all).len() <= rendered@.len(),
            next == start + groups_in(all.take(i as int)).len(),
            clusters_fit(*style, all.take(i as int), *defs, given),
            clusters_text(*style, all.take(i as int), *defs, given) is Ok,
        decreases list@.len() - i,
    {
        proof {
            lemma_clusters_prefix(*style, all, i + 1, *defs, given);
            assert(all.take(i + 1).drop_last() =~= all.take(i as int));
            assert(all.take(i + 1).last() == list@[i as int].model());
            assert(given.skip(groups_in(all.take(i as int)).len() as int) =~= groups_model(
                rendered@,
            ).skip(next as int));
            reveal_with_fuel(cluster_groups, 2);
            reveal_with_fuel(groups_in, 2);
        }
        match &list[i] {
            RegisterCluster::Register(_) => {},
            RegisterCluster::Cluster(cluster) => {
                if !cluster_block_in_range(cluster, defs, rendered, next, style) {
                    return false;
                }
                match cluster_block(cluster, defs, rendered, next, style) {
                    Err(_) => {
                        return true;
                    },
                    Ok((_, behind)) => {
                        next = behind;
                    },
                }
            },
        }
        i += 1;
    }
    assert(all.take(i as int) =~= all);
    true
}

/// Tells whether there is one result for each register of the groups.
fn answered(rendered: &Vec<Rendered>, groups: &Vec<Vec<Register>>) -> (b: bool)
    ensures
        b == answers(groups_model(rendered@), register_groups_model(groups@)),
{
    let ghost given = groups_model(rendered@);
    let ghost asked = register_groups_model(groups@);
    if rendered.len() != groups.len() {
        return false;
    }
    let mut i: usize = 0;
    while i < groups.len()
        invariant
            i <= groups@.len(),
            rendered@.len() == groups@.len(),
            given == groups_model(rendered@),
            asked == register_groups_model(groups@),
            forall|j: int| 0 <= j < i ==> (#[trigger] given[j]).len() == asked[j].len(),
        decreases groups@.len() - i,
    {
        assert(given[i as int].len() == rendered@[i as int]@.len());
        assert(asked[i as int].len() == groups@[i as int]@.len());
        if rendered[i].len() != groups[i].len() {
            return false;
        }
        i += 1;
    }
    true
}

/// Tells whether [`render`] can write the code of a peripheral.
pub fn can_render<N: Conventions>(
    p_original: &Peripheral,
    all_peripherals: &[Peripheral],
    defaults: &Defaults,
    rendered: &Vec<Rendered>,
    style: &N,
) -> (b: bool)
    ensures
        b == (answers(
            groups_model(rendered@),
            groups_of(p_original.model(), peripherals(all_peripherals@)),
        ) && peripheral_fits(
            *style,
            p_original.model(),
            peripherals(all_peripherals@),
            *defaults,
            groups_model(rendered@),
        )),
{
    let groups = register_groups(p_original, all_peripherals);
    if !answered(rendered, &groups) {
        return false;
    }
    assert(register_groups_model(groups@).len() == groups@.len());
    if groups.len() == 0 {
        return true;
    }
    let p = complete(p_original, all_peripherals);
    let list = list_block_nodes(&p);
    if !block_in_range(&list, defaults, None, style) {
        return false;
    }
    if register_or_cluster_block(&list, defaults, None, style).is_err() {
        return true;
    }
    assert(groups_model(rendered@).skip(0) =~= groups_model(rendered@));
    clusters_in_range(&list, defaults, rendered, 0, style)
}

/// The code of a peripheral, as [`render`] writes it; `None` where a block cannot be laid out, or
/// where `rendered` is not the code of the registers of [`register_groups`].
pub fn checked_render<N: Conventions>(
    p_original: &Peripheral,
    all_peripherals: &[Peripheral],
    defaults: &Defaults,
    rendered: &Vec<Rendered>,
    style: &N,
) -> (r: Option<Result<Vec<Tokens>, Error>>)
    ensures
        r is Some <==> answers(
            groups_model(rendered@),
            groups_of(p_original.model(), peripherals(all_peripherals@)),
        ) && peripheral_fits(
            *style,
            p_original.model(),
            peripherals(all_peripherals@),
            *defaults,
            groups_model(rendered@),
        ),
        r matches Some(code) ==> items_result(code) == peripheral_text(
            *style,
            p_original.model(),
            peripherals(all_peripherals@),
            *defaults,
            groups_model(rendered@),
        ),
{
    if can_render(p_original, all_peripherals, defaults, rendered, style) {
        Some(render(p_original, all_peripherals, defaults, rendered, style))
    } else {
        None
    }
}

} // verus!

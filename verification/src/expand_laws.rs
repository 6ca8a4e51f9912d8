use vstd::prelude::*;
use vstd::seq_lib::*;

use crate::convert::{
    cluster_field, cluster_fields, index_names, register_field, register_fields,
};
use crate::device::{
    ArrayModel, ClusterInfoModel, ClusterModel, Defaults, NodeModel, RegisterInfoModel,
    RegisterModel,
};
use crate::error::ErrorModel;
use crate::expand::{
    array_block_fields, array_end, children_end, cluster_bits, cluster_expansion, expand_fits,
    expansion, has_sequential_indexes, is_convertible, node_end, node_expansion, nodes_expansion,
    register_end, register_expansion, register_fits, register_size,
};
use crate::field::{BlockFieldModel, FieldModel, BITS_PER_BYTE};
use crate::names::Conventions;
use crate::order::{
    by_offset, inserted, is_ordered, law_by_offset, lemma_by_offset_contains, starting_at,
};
use crate::text::{law_number_named, number_named};

verus! {

/// A cluster is as large as the maximum end position of its children: none ends behind it, and it
/// ends with one of them, unless they take no bits.
pub proof fn law_cluster_size(children: Seq<NodeModel>, defs: Defaults)
    ensures
        children_end(children, defs) is Ok <==> forall|i: int|
            0 <= i < children.len() ==> node_end(#[trigger] children[i], defs) is Ok,
        children_end(children, defs) matches Ok(size) ==> {
            &&& forall|i: int|
                0 <= i < children.len() ==> node_end(#[trigger] children[i], defs)->Ok_0 <= size
            &&& size == 0 || exists|i: int|
                0 <= i < children.len() && node_end(#[trigger] children[i], defs)->Ok_0 == size
        },
    decreases children.len(),
{
    if children.len() > 0 {
        let front = children.drop_last();
        law_cluster_size(front, defs);
        assert(children[children.len() - 1] == children.last());
        if forall|i: int| 0 <= i < children.len() ==> node_end(#[trigger] children[i], defs) is Ok {
            assert forall|i: int| 0 <= i < front.len() implies node_end(
                #[trigger] front[i],
                defs,
            ) is Ok by {
                assert(node_end(children[i], defs) is Ok);
            }
        }
        if children_end(children, defs) is Ok {
            let size = children_end(children, defs)->Ok_0;
            assert forall|i: int| 0 <= i < children.len() implies node_end(
                #[trigger] children[i],
                defs,
            ) is Ok && node_end(children[i], defs)->Ok_0 <= size by {
                if i < front.len() {
                    assert(children[i] == front[i]);
                }
            }
            let before = children_end(front, defs)->Ok_0;
            if size != node_end(children.last(), defs)->Ok_0 && size != 0 {
                let i = choose|i: int|
                    0 <= i < front.len() && node_end(#[trigger] front[i], defs)->Ok_0 == before;
                assert(children[i] == front[i]);
            }
        }
    }
}

/// No block field of an array ends behind the array, and one of them ends with it.
pub(crate) proof fn lemma_array_fields(
    whole: FieldModel,
    parts: Seq<FieldModel>,
    description: Seq<char>,
    offset: int,
    array: ArrayModel,
    size: int,
)
    requires
        parts.len() == index_names(array).len(),
    ensures
        ({
            let fields = array_block_fields(whole, parts, description, offset, array, size);
            let end = array_end(array, offset, size);
            &&& forall|k: int|
                0 <= k < fields.len() ==> (#[trigger] fields[k]).offset * BITS_PER_BYTE
                    + fields[k].size <= end
            &&& parts.len() > 0 ==> fields.len() > 0
            &&& fields.len() > 0 ==> exists|k: int|
                0 <= k < fields.len() && (#[trigger] fields[k]).offset * BITS_PER_BYTE
                    + fields[k].size == end
        }),
{
    let fields = array_block_fields(whole, parts, description, offset, array, size);
    let end = array_end(array, offset, size);
    let n = parts.len() as int;
    let step = array.dim_increment as int;
    if is_convertible(array, size) {
        assert(n == array.dim);
        assert(size * n == (n * step) * 8) by (nonlinear_arith)
            requires
                size == step * 8,
        ;
        assert(n * step == (n - 1) * step + step) by (nonlinear_arith);
        if n == 0 {
            assert(n * step == 0) by (nonlinear_arith)
                requires
                    n == 0,
            ;
        }
        assert(fields[0].offset * BITS_PER_BYTE + fields[0].size == end);
    } else {
        assert forall|k: int| 0 <= k < fields.len() implies (#[trigger] fields[k]).offset
            * BITS_PER_BYTE + fields[k].size <= end by {
            assert(k * step <= (n - 1) * step) by (nonlinear_arith)
                requires
                    k <= n - 1,
                    step >= 0,
            ;
        }
        if n > 0 {
            assert(fields[n - 1].offset * BITS_PER_BYTE + fields[n - 1].size == end);
        }
    }
}

/// A register ends, within its cluster, with the last of its block fields: none ends behind it,
/// and one ends with it. One without block fields ends where it starts.
pub proof fn law_register_end<N: Conventions>(
    style: N,
    register: RegisterModel,
    defs: Defaults,
    ns: Option<Seq<char>>,
)
    requires
        register_size(register, defs) is Some,
    ensures
        node_end(NodeModel::Register(register), defs) is Ok,
        register_expansion(style, register, defs, ns) is Ok,
        ({
            let fields = register_expansion(style, register, defs, ns)->Ok_0;
            let end = node_end(NodeModel::Register(register), defs)->Ok_0;
            &&& forall|k: int|
                0 <= k < fields.len() ==> (#[trigger] fields[k]).offset * BITS_PER_BYTE
                    + fields[k].size <= end
            &&& fields.len() > 0 ==> exists|k: int|
                0 <= k < fields.len() && (#[trigger] fields[k]).offset * BITS_PER_BYTE
                    + fields[k].size == end
            &&& fields.len() == 0 ==> end == register.info().address_offset * BITS_PER_BYTE
        }),
{
    let size = register_size(register, defs)->0 as int;
    let fields = register_expansion(style, register, defs, ns)->Ok_0;
    match register {
        RegisterModel::Single(info) => {
            assert(fields[0].offset * BITS_PER_BYTE + fields[0].size == register_end(
                register,
                size,
            ));
        },
        RegisterModel::Array(info, array) => {
            lemma_array_fields(
                register_field(style, register, ns),
                register_fields(style, register, ns),
                info.description,
                info.address_offset as int,
                array,
                size,
            );
        },
    }
}

/// A cluster that sets no other size than its children give it ends, within the cluster that holds
/// it, with the last of its block fields: none ends behind it, and one ends with it. One without
/// block fields ends where it starts.
pub proof fn law_cluster_end<N: Conventions>(style: N, cluster: ClusterModel, defs: Defaults)
    requires
        children_end(cluster.info().children, defs) matches Ok(size) && (
        cluster.info().size matches Some(own) ==> own == size),
    ensures
        node_end(NodeModel::Cluster(cluster), defs) is Ok,
        cluster_expansion(style, cluster, defs) is Ok,
        ({
            let fields = cluster_expansion(style, cluster, defs)->Ok_0;
            let end = node_end(NodeModel::Cluster(cluster), defs)->Ok_0;
            &&& forall|k: int|
                0 <= k < fields.len() ==> (#[trigger] fields[k]).offset * BITS_PER_BYTE
                    + fields[k].size <= end
            &&& fields.len() > 0 ==> exists|k: int|
                0 <= k < fields.len() && (#[trigger] fields[k]).offset * BITS_PER_BYTE
                    + fields[k].size == end
            &&& fields.len() == 0 ==> end == cluster.info().address_offset * BITS_PER_BYTE
        }),
{
    reveal_with_fuel(node_end, 2);
    let size = children_end(cluster.info().children, defs)->Ok_0;
    let fields = cluster_expansion(style, cluster, defs)->Ok_0;
    match cluster {
        ClusterModel::Single(info) => {
            assert(node_end(NodeModel::Cluster(cluster), defs)->Ok_0 == info.address_offset
                * BITS_PER_BYTE + size);
            assert(fields[0].offset * BITS_PER_BYTE + fields[0].size == info.address_offset
                * BITS_PER_BYTE + size);
        },
        ClusterModel::Array(info, array) => {
            lemma_array_fields(
                cluster_field(style, cluster),
                cluster_fields(style, cluster),
                info.description,
                info.address_offset as int,
                array,
                size,
            );
        },
    }
}

/// An array of the generated code takes just the bytes that its elements are placed in.
pub proof fn law_array_end(
    whole: FieldModel,
    parts: Seq<FieldModel>,
    description: Seq<char>,
    offset: int,
    array: ArrayModel,
    size: int,
)
    requires
        is_convertible(array, size),
    ensures
        array_block_fields(whole, parts, description, offset, array, size).len() == 1,
        array_block_fields(whole, parts, description, offset, array, size)[0].offset == offset,
        array_block_fields(whole, parts, description, offset, array, size)[0].end() == offset
            + array.dim * array.dim_increment,
{
    let step = array.dim_increment as int;
    let n = array.dim as int;
    assert(size * n == (n * step) * 8) by (nonlinear_arith)
        requires
            size == step * 8,
    ;
    assert(((n * step) * 8) / 8 == n * step) by (nonlinear_arith);
}

/// An array that is taken apart has a field for each element: the first starts with the array,
/// and each starts one increment behind the one before it.
pub proof fn law_elements_in_place(
    whole: FieldModel,
    parts: Seq<FieldModel>,
    description: Seq<char>,
    offset: int,
    array: ArrayModel,
    size: int,
    i: int,
)
    requires
        !is_convertible(array, size),
        0 <= i < parts.len(),
    ensures
        array_block_fields(whole, parts, description, offset, array, size).len() == parts.len(),
        array_block_fields(whole, parts, description, offset, array, size)[i].field == parts[i],
        i == 0 ==> array_block_fields(
            whole,
            parts,
            description,
            offset,
            array,
            size,
        )[i].offset == offset,
        i > 0 ==> array_block_fields(whole, parts, description, offset, array, size)[i].offset
            == array_block_fields(whole, parts, description, offset, array, size)[i - 1].offset
            + array.dim_increment,
{
    let step = array.dim_increment as int;
    assert(i * step == (i - 1) * step + step) by (nonlinear_arith);
    assert(0 * step == 0) by (nonlinear_arith);
}

/// The fields of a block are those of all its nodes, in the order of their offsets; there is an
/// error just where one of the nodes has one.
pub proof fn law_expansion<N: Conventions>(
    style: N,
    list: Seq<NodeModel>,
    defs: Defaults,
    ns: Option<Seq<char>>,
)
    ensures
        expansion(style, list, defs, ns) is Ok <==> forall|i: int|
            0 <= i < list.len() ==> node_expansion(style, #[trigger] list[i], defs, ns) is Ok,
        expansion(style, list, defs, ns) matches Ok(fields) ==> {
            &&& is_ordered(fields)
            &&& forall|f: BlockFieldModel| #[trigger]
                fields.contains(f) <==> exists|i: int|
                    0 <= i < list.len() && node_expansion(
                        style,
                        #[trigger] list[i],
                        defs,
                        ns,
                    )->Ok_0.contains(f)
        },
{
    lemma_nodes_ok(style, list, defs, ns);
    if nodes_expansion(style, list, defs, ns) is Ok {
        let raw = nodes_expansion(style, list, defs, ns)->Ok_0;
        let fields = expansion(style, list, defs, ns)->Ok_0;
        law_by_offset(raw);
        assert forall|f: BlockFieldModel| #[trigger] fields.contains(f) <==> exists|i: int|
            0 <= i < list.len() && node_expansion(style, #[trigger] list[i], defs, ns)->Ok_0.contains(
                f,
            ) by {
            lemma_by_offset_contains(raw, f);
            lemma_nodes_contain(style, list, defs, ns, f);
        }
    }
}

proof fn lemma_nodes_ok<N: Conventions>(
    style: N,
    list: Seq<NodeModel>,
    defs: Defaults,
    ns: Option<Seq<char>>,
)
    ensures
        nodes_expansion(style, list, defs, ns) is Ok <==> forall|i: int|
            0 <= i < list.len() ==> node_expansion(style, #[trigger] list[i], defs, ns) is Ok,
    decreases list.len(),
{
    if list.len() > 0 {
        let front = list.drop_last();
        lemma_nodes_ok(style, front, defs, ns);
        assert(list[list.len() - 1] == list.last());
        if forall|i: int|
            0 <= i < list.len() ==> node_expansion(style, #[trigger] list[i], defs, ns) is Ok {
            assert forall|i: int| 0 <= i < front.len() implies node_expansion(
                style,
                #[trigger] front[i],
                defs,
                ns,
            ) is Ok by {
                assert(node_expansion(style, list[i], defs, ns) is Ok);
            }
        }
        if nodes_expansion(style, list, defs, ns) is Ok {
            assert forall|i: int| 0 <= i < list.len() implies node_expansion(
                style,
                #[trigger] list[i],
                defs,
                ns,
            ) is Ok by {
                if i < front.len() {
                    assert(list[i] == front[i]);
                }
            }
        }
    }
}

proof fn lemma_nodes_contain<N: Conventions>(
    style: N,
    list: Seq<NodeModel>,
    defs: Defaults,
    ns: Option<Seq<char>>,
    f: BlockFieldModel,
)
    requires
        nodes_expansion(style, list, defs, ns) is Ok,
    ensures
        nodes_expansion(style, list, defs, ns)->Ok_0.contains(f) <==> exists|i: int|
            0 <= i < list.len() && node_expansion(style, #[trigger] list[i], defs, ns)->Ok_0.contains(
                f,
            ),
    decreases list.len(),
{
    if list.len() > 0 {
        let front = list.drop_last();
        lemma_nodes_contain(style, front, defs, ns, f);
        let before = nodes_expansion(style, front, defs, ns)->Ok_0;
        let more = node_expansion(style, list.last(), defs, ns)->Ok_0;
        let all = before + more;
        assert(list[list.len() - 1] == list.last());
        if all.contains(f) {
            let k = choose|k: int| 0 <= k < all.len() && all[k] == f;
            if k < before.len() {
                assert(before[k] == f);
                assert(before.contains(f));
                let i = choose|i: int|
                    0 <= i < front.len() && node_expansion(
                        style,
                        #[trigger] front[i],
                        defs,
                        ns,
                    )->Ok_0.contains(f);
                assert(list[i] == front[i]);
            } else {
                assert(more[k - before.len()] == f);
                assert(more.contains(f));
            }
        }
        if exists|i: int|
            0 <= i < list.len() && node_expansion(style, #[trigger] list[i], defs, ns)->Ok_0.contains(
                f,
            ) {
            let i = choose|i: int|
                0 <= i < list.len() && node_expansion(
                    style,
                    #[trigger] list[i],
                    defs,
                    ns,
                )->Ok_0.contains(f);
            if i < front.len() {
                assert(front[i] == list[i]);
                let k = choose|k: int| 0 <= k < before.len() && before[k] == f;
                assert(all[k] == f);
            } else {
                let k = choose|k: int| 0 <= k < more.len() && more[k] == f;
                assert(all[before.len() + k] == f);
            }
        }
    }
}

/// An array that says its elements are called 0, 1, 2 and so on is one that says nothing of them:
/// both are numbered from zero on, and both have the same names.
pub proof fn law_plain_indexes(array: ArrayModel)
    requires
        array.dim_index is None,
    ensures
        has_sequential_indexes(array),
        has_sequential_indexes((ArrayModel { dim_index: Some(index_names(array)), ..array })),
        index_names((ArrayModel { dim_index: Some(index_names(array)), ..array })) == index_names(
            array,
        ),
{
    let list = index_names(array);
    assert forall|i: int| 0 <= i < list.len() implies number_named(#[trigger] list[i]) == Some(
        i as nat,
    ) by {
        law_number_named(i as nat);
    }
}

/// The places of fields: where they start, and how large they are.
pub open spec fn places(fields: Seq<BlockFieldModel>) -> Seq<(int, int)> {
    Seq::new(fields.len(), |i: int| (fields[i].offset, fields[i].size))
}

/// The layout of a block rests neither on how names are spelled nor on the module that the types
/// stand in.
pub proof fn law_layout_without_names<N: Conventions, M: Conventions>(
    style: N,
    other: M,
    list: Seq<NodeModel>,
    defs: Defaults,
    ns: Option<Seq<char>>,
    other_ns: Option<Seq<char>>,
)
    ensures
        expand_fits(style, list, defs, ns) == expand_fits(other, list, defs, other_ns),
        match (expansion(style, list, defs, ns), expansion(other, list, defs, other_ns)) {
            (Ok(a), Ok(b)) => places(a) == places(b),
            (Err(a), Err(b)) => a == b,
            _ => false,
        },
{
    lemma_places(style, other, list, defs, ns, other_ns);
    if nodes_expansion(style, list, defs, ns) is Ok {
        lemma_places_by_offset(
            nodes_expansion(style, list, defs, ns)->Ok_0,
            nodes_expansion(other, list, defs, other_ns)->Ok_0,
        );
    }
}

proof fn lemma_places<N: Conventions, M: Conventions>(
    style: N,
    other: M,
    list: Seq<NodeModel>,
    defs: Defaults,
    ns: Option<Seq<char>>,
    other_ns: Option<Seq<char>>,
)
    ensures
        expand_fits(style, list, defs, ns) == expand_fits(other, list, defs, other_ns),
        match (nodes_expansion(style, list, defs, ns), nodes_expansion(other, list, defs, other_ns)) {
            (Ok(a), Ok(b)) => places(a) == places(b),
            (Err(a), Err(b)) => a == b,
            _ => false,
        },
    decreases list.len(),
{
    if list.len() > 0 {
        let front = list.drop_last();
        lemma_places(style, other, front, defs, ns, other_ns);
        let a = nodes_expansion(style, front, defs, ns);
        let b = nodes_expansion(other, front, defs, other_ns);
        let c = node_expansion(style, list.last(), defs, ns);
        let d = node_expansion(other, list.last(), defs, other_ns);
        if c is Ok {
            assert(places(c->Ok_0) =~= places(d->Ok_0));
        }
        if a is Ok && c is Ok {
            assert(places(a->Ok_0 + c->Ok_0) =~= places(a->Ok_0) + places(c->Ok_0));
            assert(places(b->Ok_0 + d->Ok_0) =~= places(b->Ok_0) + places(d->Ok_0));
        }
    } else {
        assert(places(nodes_expansion(style, list, defs, ns)->Ok_0) =~= places(
            nodes_expansion(other, list, defs, other_ns)->Ok_0,
        ));
    }
}

proof fn lemma_places_inserted(
    a: Seq<BlockFieldModel>,
    b: Seq<BlockFieldModel>,
    x: BlockFieldModel,
    y: BlockFieldModel,
)
    requires
        places(a) == places(b),
        x.offset == y.offset,
        x.size == y.size,
    ensures
        places(inserted(a, x)) == places(inserted(b, y)),
    decreases a.len(),
{
    assert(places(a).len() == a.len() && places(b).len() == b.len());
    if a.len() > 0 {
        assert(places(a).last() == (a.last().offset, a.last().size));
        assert(places(b).last() == (b.last().offset, b.last().size));
        assert(places(a.drop_last()) =~= places(a).drop_last());
        assert(places(b.drop_last()) =~= places(b).drop_last());
        if a.last().offset > x.offset {
            let front = inserted(a.drop_last(), x);
            let other = inserted(b.drop_last(), y);
            lemma_places_inserted(a.drop_last(), b.drop_last(), x, y);
            assert(places(front.push(a.last())) =~= places(front).push(
                (a.last().offset, a.last().size),
            ));
            assert(places(other.push(b.last())) =~= places(other).push(
                (b.last().offset, b.last().size),
            ));
        } else {
            assert(places(a.push(x)) =~= places(a).push((x.offset, x.size)));
            assert(places(b.push(y)) =~= places(b).push((y.offset, y.size)));
        }
    } else {
        assert(places(a.push(x)) =~= places(b.push(y)));
    }
}

proof fn lemma_places_by_offset(a: Seq<BlockFieldModel>, b: Seq<BlockFieldModel>)
    requires
        places(a) == places(b),
    ensures
        places(by_offset(a)) == places(by_offset(b)),
    decreases a.len(),
{
    assert(places(a).len() == a.len() && places(b).len() == b.len());
    if a.len() > 0 {
        assert(places(a).last() == (a.last().offset, a.last().size));
        assert(places(b).last() == (b.last().offset, b.last().size));
        assert(places(a.drop_last()) =~= places(a).drop_last());
        assert(places(b.drop_last()) =~= places(b).drop_last());
        lemma_places_by_offset(a.drop_last(), b.drop_last());
        lemma_places_inserted(
            by_offset(a.drop_last()),
            by_offset(b.drop_last()),
            a.last(),
            b.last(),
        );
    }
}

/// An array of registers is kept as an array just where its elements follow each other without a
/// gap and, if they are named, are named by the numbers from zero on, all of them; else it is taken
/// apart, with a field for each element, one increment behind the one before it.
pub proof fn law_register_array<N: Conventions>(
    style: N,
    info: RegisterInfoModel,
    array: ArrayModel,
    defs: Defaults,
    ns: Option<Seq<char>>,
    size: u32,
)
    requires
        register_size(RegisterModel::Array(info, array), defs) == Some(size),
    ensures
        register_expansion(style, RegisterModel::Array(info, array), defs, ns) is Ok,
        ({
            let fields = register_expansion(style, RegisterModel::Array(info, array), defs, ns)->Ok_0;
            let dense = size == 8 * array.dim_increment;
            let counted = array.dim_index matches Some(list) ==> list.len() == array.dim && (
            forall|i: int|
                0 <= i < array.dim ==> number_named(#[trigger] list[i]) == Some(i as nat));
            let count = match array.dim_index {
                Some(list) => list.len(),
                None => array.dim as nat,
            };
            &&& dense && counted ==> fields == seq![
                BlockFieldModel {
                    field: register_field(style, RegisterModel::Array(info, array), ns),
                    description: info.description,
                    offset: info.address_offset as int,
                    size: size * array.dim,
                },
            ]
            &&& !(dense && counted) ==> fields.len() == count && forall|i: int|
                0 <= i < count ==> #[trigger] fields[i] == (BlockFieldModel {
                    field: register_fields(style, RegisterModel::Array(info, array), ns)[i],
                    description: info.description,
                    offset: info.address_offset + i * array.dim_increment,
                    size: size as int,
                })
        }),
{
    if array.dim_index is Some {
        let list = array.dim_index->0;
        if list.len() == array.dim {
            assert((forall|i: int|
                0 <= i < array.dim ==> number_named(#[trigger] list[i]) == Some(i as nat))
                == has_sequential_indexes(array));
        }
    }
}

/// An array of clusters is kept as an array just where its elements follow each other without a gap
/// and, if they are named, are named by the numbers from zero on, all of them; else it is taken
/// apart, with a field for each element, one increment behind the one before it.
pub proof fn law_cluster_array<N: Conventions>(
    style: N,
    info: ClusterInfoModel,
    array: ArrayModel,
    defs: Defaults,
    size: int,
)
    requires
        cluster_bits(ClusterModel::Array(info, array), defs) == Ok::<int, ErrorModel>(size),
    ensures
        cluster_expansion(style, ClusterModel::Array(info, array), defs) is Ok,
        ({
            let fields = cluster_expansion(style, ClusterModel::Array(info, array), defs)->Ok_0;
            let dense = size == 8 * array.dim_increment;
            let counted = array.dim_index matches Some(list) ==> list.len() == array.dim && (
            forall|i: int|
                0 <= i < array.dim ==> number_named(#[trigger] list[i]) == Some(i as nat));
            let count = match array.dim_index {
                Some(list) => list.len(),
                None => array.dim as nat,
            };
            &&& dense && counted ==> fields == seq![
                BlockFieldModel {
                    field: cluster_field(style, ClusterModel::Array(info, array)),
                    description: info.description,
                    offset: info.address_offset as int,
                    size: size * array.dim,
                },
            ]
            &&& !(dense && counted) ==> fields.len() == count && forall|i: int|
                0 <= i < count ==> #[trigger] fields[i] == (BlockFieldModel {
                    field: cluster_fields(style, ClusterModel::Array(info, array))[i],
                    description: info.description,
                    offset: info.address_offset + i * array.dim_increment,
                    size: size as int,
                })
        }),
{
    if array.dim_index is Some {
        let list = array.dim_index->0;
        if list.len() == array.dim {
            assert((forall|i: int|
                0 <= i < array.dim ==> number_named(#[trigger] list[i]) == Some(i as nat))
                == has_sequential_indexes(array));
        }
    }
}

/// A single register, or a single cluster, is one field at its offset, of its size.
pub proof fn law_single_expansion<N: Conventions>(
    style: N,
    info: RegisterInfoModel,
    other: ClusterInfoModel,
    defs: Defaults,
    ns: Option<Seq<char>>,
)
    ensures
        register_size(RegisterModel::Single(info), defs) matches Some(size) ==> register_expansion(
            style,
            RegisterModel::Single(info),
            defs,
            ns,
        ) == Ok::<Seq<BlockFieldModel>, ErrorModel>(
            seq![
                BlockFieldModel {
                    field: register_field(style, RegisterModel::Single(info), ns),
                    description: info.description,
                    offset: info.address_offset as int,
                    size: size as int,
                },
            ],
        ),
        cluster_bits(ClusterModel::Single(other), defs) matches Ok(size) ==> cluster_expansion(
            style,
            ClusterModel::Single(other),
            defs,
        ) == Ok::<Seq<BlockFieldModel>, ErrorModel>(
            seq![
                BlockFieldModel {
                    field: cluster_field(style, ClusterModel::Single(other)),
                    description: other.description,
                    offset: other.address_offset as int,
                    size,
                },
            ],
        ),
{
}

/// A register has its own size, else that of the device; without both there is an error that names
/// the register. A cluster has its own size, else that of its children; without both there is an
/// error that names the cluster and holds that of the child.
pub proof fn law_sizes<N: Conventions>(
    style: N,
    register: RegisterModel,
    cluster: ClusterModel,
    defs: Defaults,
    ns: Option<Seq<char>>,
)
    ensures
        register.info().size is Some ==> register_size(register, defs) == register.info().size,
        register.info().size is None ==> register_size(register, defs) == defs.size,
        register.info().size is None && defs.size is None ==> register_expansion(
            style,
            register,
            defs,
            ns,
        ) == Err::<Seq<BlockFieldModel>, ErrorModel>(
            ErrorModel::RegisterSize(register.info().name),
        ) && node_end(NodeModel::Register(register), defs) == Err::<int, ErrorModel>(
            ErrorModel::RegisterSize(register.info().name),
        ),
        cluster.info().size matches Some(size) ==> cluster_bits(cluster, defs) == Ok::<
            int,
            ErrorModel,
        >(size as int),
        cluster.info().size is None ==> match children_end(cluster.info().children, defs) {
            Ok(size) => cluster_bits(cluster, defs) == Ok::<int, ErrorModel>(size),
            Err(e) => cluster_bits(cluster, defs) == Err::<int, ErrorModel>(
                ErrorModel::ClusterSize(cluster.info().name, Box::new(e)),
            ),
        },
        cluster_bits(cluster, defs) matches Err(e) ==> cluster_expansion(style, cluster, defs)
            == Err::<Seq<BlockFieldModel>, ErrorModel>(e),
{
}

/// Where the ends of nodes stand, in bytes from the place of the node: one register or one cluster
/// ends its size behind its start, and each further element of an array ends one increment later.
pub proof fn law_node_ends(
    info: RegisterInfoModel,
    other: ClusterInfoModel,
    array: ArrayModel,
    defs: Defaults,
)
    ensures
        register_size(RegisterModel::Single(info), defs) matches Some(size) ==> node_end(
            NodeModel::Register(RegisterModel::Single(info)),
            defs,
        ) == Ok::<int, ErrorModel>(8 * info.address_offset + size),
        children_end(other.children, defs) matches Ok(size) ==> node_end(
            NodeModel::Cluster(ClusterModel::Single(other)),
            defs,
        ) == Ok::<int, ErrorModel>(8 * other.address_offset + size),
        index_names(array).len() > 0 ==> (register_size(
            RegisterModel::Array(info, array),
            defs,
        ) matches Some(size) ==> node_end(
            NodeModel::Register(RegisterModel::Array(info, array)),
            defs,
        ) == Ok::<int, ErrorModel>(
            8 * (info.address_offset + (index_names(array).len() - 1) * array.dim_increment) + size,
        )),
        index_names(array).len() > 0 ==> (children_end(other.children, defs) matches Ok(size)
            ==> node_end(NodeModel::Cluster(ClusterModel::Array(other, array)), defs) == Ok::<
            int,
            ErrorModel,
        >(8 * (other.address_offset + (index_names(array).len() - 1) * array.dim_increment)
            + size)),
        children_end(other.children, defs) matches Err(e) ==> node_end(
            NodeModel::Cluster(ClusterModel::Single(other)),
            defs,
        ) == Err::<int, ErrorModel>(e) && node_end(
            NodeModel::Cluster(ClusterModel::Array(other, array)),
            defs,
        ) == Err::<int, ErrorModel>(e),
{
    reveal_with_fuel(node_end, 2);
}

/// The error of a cluster's size is that of the first child that has one.
pub proof fn law_first_error_of_size(children: Seq<NodeModel>, defs: Defaults)
    ensures
        children_end(children, defs) matches Err(e) ==> exists|i: int|
            0 <= i < children.len() && node_end(#[trigger] children[i], defs) == Err::<
                int,
                ErrorModel,
            >(e) && forall|j: int|
                0 <= j < i ==> node_end(#[trigger] children[j], defs) is Ok,
    decreases children.len(),
{
    if children.len() > 0 && children_end(children, defs) is Err {
        let front = children.drop_last();
        let e = children_end(children, defs)->Err_0;
        law_first_error_of_size(front, defs);
        if children_end(front, defs) is Err {
            let i = choose|i: int|
                0 <= i < front.len() && node_end(#[trigger] front[i], defs) == Err::<
                    int,
                    ErrorModel,
                >(e) && forall|j: int|
                    0 <= j < i ==> node_end(#[trigger] front[j], defs) is Ok;
            assert(children[i] == front[i]);
            assert forall|j: int| 0 <= j < i implies node_end(
                #[trigger] children[j],
                defs,
            ) is Ok by {
                assert(node_end(front[j], defs) is Ok);
            }
        } else {
            law_cluster_size(front, defs);
            let i = children.len() - 1;
            assert(children[i] == children.last());
            assert forall|j: int| 0 <= j < i implies node_end(
                #[trigger] children[j],
                defs,
            ) is Ok by {
                assert(node_end(front[j], defs) is Ok);
            }
        }
    }
}

/// One node more adds just its own block fields, each behind those that start at the same place;
/// an error stays, and a first error comes from the node that has it.
pub proof fn law_one_node_more<N: Conventions>(
    style: N,
    list: Seq<NodeModel>,
    node: NodeModel,
    defs: Defaults,
    ns: Option<Seq<char>>,
)
    ensures
        expansion(style, Seq::empty(), defs, ns) == Ok::<Seq<BlockFieldModel>, ErrorModel>(
            Seq::empty(),
        ),
        match expansion(style, list, defs, ns) {
            Err(e) => expansion(style, list.push(node), defs, ns) == Err::<
                Seq<BlockFieldModel>,
                ErrorModel,
            >(e),
            Ok(before) => match node_expansion(style, node, defs, ns) {
                Err(e) => expansion(style, list.push(node), defs, ns) == Err::<
                    Seq<BlockFieldModel>,
                    ErrorModel,
                >(e),
                Ok(more) => expansion(style, list.push(node), defs, ns) matches Ok(fields) && {
                    &&& is_ordered(fields)
                    &&& fields.to_multiset() == before.to_multiset().add(more.to_multiset())
                    &&& forall|offset: int| #[trigger]
                        starting_at(fields, offset) == starting_at(before, offset) + starting_at(
                            more,
                            offset,
                        )
                },
            },
        },
{
    assert(list.push(node).drop_last() =~= list);
    assert(by_offset(Seq::<BlockFieldModel>::empty()) =~= Seq::<BlockFieldModel>::empty());
    if nodes_expansion(style, list.push(node), defs, ns) is Ok {
        let raw = nodes_expansion(style, list, defs, ns)->Ok_0;
        let more = node_expansion(style, node, defs, ns)->Ok_0;
        let fields = expansion(style, list.push(node), defs, ns)->Ok_0;
        law_by_offset(raw);
        law_by_offset(raw + more);
        lemma_multiset_commutative(raw, more);
        assert forall|offset: int| #[trigger] starting_at(fields, offset) == starting_at(
            by_offset(raw),
            offset,
        ) + starting_at(more, offset) by {
            assert(starting_at(by_offset(raw), offset) == starting_at(raw, offset));
            lemma_starting_at_both(raw, more, offset);
        }
    }
}

proof fn lemma_starting_at_both(a: Seq<BlockFieldModel>, b: Seq<BlockFieldModel>, offset: int)
    ensures
        starting_at(a + b, offset) == starting_at(a, offset) + starting_at(b, offset),
    decreases b.len(),
{
    reveal(Seq::filter);
    if b.len() == 0 {
        assert(a + b =~= a);
        assert(starting_at(a, offset) + starting_at(b, offset) =~= starting_at(a, offset));
    } else {
        lemma_starting_at_both(a, b.drop_last(), offset);
        assert((a + b).drop_last() =~= a + b.drop_last());
        assert((a + b).last() == b.last());
        assert(starting_at(a + b, offset) =~= starting_at(a, offset) + starting_at(b, offset));
    }
}

/// A node is expanded as the register or the cluster that it is.
pub proof fn law_node_expansion<N: Conventions>(
    style: N,
    register: RegisterModel,
    cluster: ClusterModel,
    defs: Defaults,
    ns: Option<Seq<char>>,
)
    ensures
        node_expansion(style, NodeModel::Register(register), defs, ns) == register_expansion(
            style,
            register,
            defs,
            ns,
        ),
        node_expansion(style, NodeModel::Cluster(cluster), defs, ns) == cluster_expansion(
            style,
            cluster,
            defs,
        ),
{
}

/// An array fits whenever its increment, its whole size and the place behind its last element stay
/// within 32 bits.
pub proof fn law_array_fits(info: RegisterInfoModel, array: ArrayModel, defs: Defaults, size: u32)
    requires
        register_size(RegisterModel::Array(info, array), defs) == Some(size),
        8 * array.dim_increment <= u32::MAX,
        size * array.dim <= u32::MAX,
        index_names(array).len() <= u32::MAX,
        info.address_offset + index_names(array).len() * array.dim_increment <= u32::MAX,
    ensures
        register_fits(RegisterModel::Array(info, array), defs),
{
    let n = index_names(array).len() as int;
    let step = array.dim_increment as int;
    assert((n - 1) * step <= n * step) by (nonlinear_arith)
        requires
            step >= 0,
    ;
}

} // verus!

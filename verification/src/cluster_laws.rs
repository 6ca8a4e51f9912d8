use vstd::prelude::*;

use crate::block::block_text;
use crate::cluster::{
    cluster_groups, cluster_text, clusters_text, collected, groups_in, module_name,
};
use crate::convert_laws::stands_once;
use crate::derive::{clusters_of, registers_of};
use crate::device::{
    ArrayModel, ClusterInfoModel, ClusterModel, Defaults, NodeModel, RegisterModel,
};
use crate::error::ErrorModel;
use crate::names::Conventions;
use crate::text::matches_at;
use crate::text_laws::{law_replaced_nothing, law_replaced_once};
use crate::tokens::{quoted, spaced};

verus! {

/// The items of registers are collected one register after the other, all items of each.
pub proof fn law_all_items_collected(
    a: Seq<Result<Seq<Seq<char>>, ErrorModel>>,
    b: Seq<Result<Seq<Seq<char>>, ErrorModel>>,
    one: Result<Seq<Seq<char>>, ErrorModel>,
)
    ensures
        collected(Seq::empty()) == Ok::<Seq<Seq<char>>, ErrorModel>(Seq::empty()),
        collected(seq![one]) == one,
        match (collected(a), collected(b)) {
            (Ok(x), Ok(y)) => collected(a + b) == Ok::<Seq<Seq<char>>, ErrorModel>(x + y),
            (Ok(_), Err(e)) => collected(a + b) == Err::<Seq<Seq<char>>, ErrorModel>(e),
            (Err(e), _) => collected(a + b) == Err::<Seq<Seq<char>>, ErrorModel>(e),
        },
    decreases b.len(),
{
    reveal_with_fuel(collected, 2);
    assert(seq![one].drop_last() =~= Seq::<Result<Seq<Seq<char>>, ErrorModel>>::empty());
    if one is Ok {
        assert(Seq::<Seq<char>>::empty() + one->Ok_0 =~= one->Ok_0);
    }
    if b.len() == 0 {
        assert(a + b =~= a);
        if collected(a) is Ok {
            assert(collected(a)->Ok_0 + Seq::<Seq<char>>::empty() =~= collected(a)->Ok_0);
        }
    } else {
        let front = b.drop_last();
        law_all_items_collected(a, front, one);
        assert((a + b).drop_last() =~= a + front);
        assert((a + b).last() == b.last());
        if collected(a) is Ok && collected(b) is Ok {
            let x = collected(a)->Ok_0;
            let y = collected(front)->Ok_0;
            let z = b.last()->Ok_0;
            assert(x + y + z =~= x + (y + z));
        }
    }
}

/// The groups of registers are those of the clusters, one cluster after the other; those of a
/// cluster are its own registers and then the groups of the clusters within it.
pub proof fn law_groups(
    a: Seq<NodeModel>,
    b: Seq<NodeModel>,
    register: RegisterModel,
    info: ClusterInfoModel,
    array: ArrayModel,
)
    ensures
        groups_in(a + b) == groups_in(a) + groups_in(b),
        groups_in(Seq::empty()) == Seq::<Seq<RegisterModel>>::empty(),
        groups_in(seq![NodeModel::Register(register)]) == Seq::<Seq<RegisterModel>>::empty(),
        groups_in(seq![NodeModel::Cluster(ClusterModel::Single(info))]) == seq![
            registers_of(info.children),
        ] + groups_in(info.children),
        groups_in(seq![NodeModel::Cluster(ClusterModel::Array(info, array))]) == seq![
            registers_of(info.children),
        ] + groups_in(info.children),
        cluster_groups(info) == seq![registers_of(info.children)] + groups_in(info.children),
    decreases b.len(),
{
    reveal_with_fuel(groups_in, 3);
    reveal_with_fuel(cluster_groups, 3);
    let none = Seq::<NodeModel>::empty();
    let one = seq![NodeModel::Register(register)];
    let single = seq![NodeModel::Cluster(ClusterModel::Single(info))];
    let many = seq![NodeModel::Cluster(ClusterModel::Array(info, array))];
    assert(one.drop_last() =~= none);
    assert(single.drop_last() =~= none);
    assert(many.drop_last() =~= none);
    assert(groups_in(single) =~= cluster_groups(info));
    assert(groups_in(many) =~= cluster_groups(info));
    if b.len() == 0 {
        assert(a + b =~= a);
        assert(groups_in(a) + groups_in(b) =~= groups_in(a));
    } else {
        let front = b.drop_last();
        law_groups(a, front, register, info, array);
        assert((a + b).drop_last() =~= a + front);
        assert((a + b).last() == b.last());
        assert(groups_in(a + b) =~= groups_in(a) + groups_in(b));
    }
}

/// The number of groups of the first `i` clusters.
pub open spec fn groups_before(clusters: Seq<ClusterModel>, i: int) -> int
    decreases i,
{
    if i <= 0 {
        0
    } else {
        groups_before(clusters, i - 1) + cluster_groups(clusters[i - 1].info()).len()
    }
}

proof fn lemma_groups_before(a: Seq<ClusterModel>, c: ClusterModel, i: int)
    requires
        0 <= i <= a.len(),
    ensures
        groups_before(a.push(c), i) == groups_before(a, i),
    decreases i,
{
    if i > 0 {
        lemma_groups_before(a, c, i - 1);
    }
}

proof fn lemma_groups_counted(list: Seq<NodeModel>)
    ensures
        groups_in(list).len() == groups_before(clusters_of(list), clusters_of(list).len() as int),
    decreases list.len(),
{
    reveal_with_fuel(groups_in, 2);
    if list.len() > 0 {
        let front = list.drop_last();
        lemma_groups_counted(front);
        match list.last() {
            NodeModel::Register(_) => {},
            NodeModel::Cluster(c) => {
                lemma_groups_before(clusters_of(front), c, clusters_of(front).len() as int);
            },
        }
    }
}

/// The text of the cluster at `i`, made with the code of its own registers: that behind the groups
/// of the clusters before it.
pub open spec fn text_at<N: Conventions>(
    style: N,
    clusters: Seq<ClusterModel>,
    defs: Defaults,
    rendered: Seq<Seq<Result<Seq<Seq<char>>, ErrorModel>>>,
    i: int,
) -> Result<Seq<char>, ErrorModel> {
    cluster_text(style, clusters[i].info(), defs, rendered.skip(groups_before(clusters, i)))
}

/// There is one text for each cluster among the nodes, in their order, and it is the text of that
/// cluster, made with the code of its own registers. An error is that of the first cluster that
/// has one.
pub proof fn law_a_text_for_every_cluster<N: Conventions>(
    style: N,
    list: Seq<NodeModel>,
    defs: Defaults,
    rendered: Seq<Seq<Result<Seq<Seq<char>>, ErrorModel>>>,
)
    ensures
        match clusters_text(style, list, defs, rendered) {
            Ok(items) => items.len() == clusters_of(list).len() && forall|i: int|
                0 <= i < items.len() ==> #[trigger] text_at(
                    style,
                    clusters_of(list),
                    defs,
                    rendered,
                    i,
                ) == Ok::<Seq<char>, ErrorModel>(items[i]),
            Err(e) => exists|i: int|
                0 <= i < clusters_of(list).len() && #[trigger] text_at(
                    style,
                    clusters_of(list),
                    defs,
                    rendered,
                    i,
                ) == Err::<Seq<char>, ErrorModel>(e) && forall|j: int|
                    0 <= j < i ==> #[trigger] text_at(
                        style,
                        clusters_of(list),
                        defs,
                        rendered,
                        j,
                    ) is Ok,
        },
    decreases list.len(),
{
    reveal_with_fuel(clusters_text, 2);
    if list.len() > 0 {
        let front = list.drop_last();
        law_a_text_for_every_cluster(style, front, defs, rendered);
        match list.last() {
            NodeModel::Register(_) => {},
            NodeModel::Cluster(c) => {
                let before = clusters_of(front);
                let clusters = clusters_of(list);
                let n = before.len() as int;
                assert(clusters == before.push(c));
                lemma_groups_counted(front);
                assert forall|i: int| 0 <= i < n implies #[trigger] text_at(
                    style,
                    clusters,
                    defs,
                    rendered,
                    i,
                ) == text_at(style, before, defs, rendered, i) by {
                    lemma_groups_before(before, c, i);
                }
                lemma_groups_before(before, c, n);
                assert(text_at(style, clusters, defs, rendered, n) == cluster_text(
                    style,
                    c.info(),
                    defs,
                    rendered.skip(groups_in(front).len() as int),
                ));
                if clusters_text(style, front, defs, rendered) is Err {
                    let e = clusters_text(style, front, defs, rendered)->Err_0;
                    let i = choose|i: int|
                        0 <= i < n && #[trigger] text_at(style, before, defs, rendered, i) == Err::<
                            Seq<char>,
                            ErrorModel,
                        >(e) && forall|j: int|
                            0 <= j < i ==> #[trigger] text_at(
                                style,
                                before,
                                defs,
                                rendered,
                                j,
                            ) is Ok;
                    assert(text_at(style, clusters, defs, rendered, i) == Err::<
                        Seq<char>,
                        ErrorModel,
                    >(e));
                    assert forall|j: int| 0 <= j < i implies #[trigger] text_at(
                        style,
                        clusters,
                        defs,
                        rendered,
                        j,
                    ) is Ok by {
                        assert(text_at(style, before, defs, rendered, j) is Ok);
                    }
                } else {
                    let old = clusters_text(style, front, defs, rendered)->Ok_0;
                    assert forall|i: int| 0 <= i < n implies #[trigger] text_at(
                        style,
                        clusters,
                        defs,
                        rendered,
                        i,
                    ) == Ok::<Seq<char>, ErrorModel>(old[i]) by {
                        assert(text_at(style, before, defs, rendered, i) == Ok::<
                            Seq<char>,
                            ErrorModel,
                        >(old[i]));
                    }
                }
            },
        }
    }
}

/// The code of a cluster is its block, and then a module of its name with its description, which
/// holds all items of its registers and then the code of all clusters within it. An error comes
/// first from the block, then from the registers, then from the clusters within.
pub proof fn law_cluster_text<N: Conventions>(
    style: N,
    info: ClusterInfoModel,
    defs: Defaults,
    rendered: Seq<Seq<Result<Seq<Seq<char>>, ErrorModel>>>,
)
    ensures
        ({
            let block = block_text(style, info.children, defs, Some(module_name(info.name)));
            let items = collected(rendered[0]);
            let inner = clusters_text(style, info.children, defs, rendered.skip(1));
            let text = cluster_text(style, info, defs, rendered);
            &&& block matches Err(e) ==> text == Err::<Seq<char>, ErrorModel>(e)
            &&& block is Ok ==> (items matches Err(e) ==> text == Err::<Seq<char>, ErrorModel>(e))
            &&& block is Ok && items is Ok ==> (inner matches Err(e) ==> text == Err::<
                Seq<char>,
                ErrorModel,
            >(e))
            &&& block is Ok && items is Ok && inner is Ok ==> text == Ok::<Seq<char>, ErrorModel>(
                spaced(
                    seq![
                        block->Ok_0,
                        "# [ doc = r\" Register block\" ] # [ doc ="@,
                        quoted(style.respaced(info.description)),
                        "] pub mod"@,
                        style.snake(module_name(info.name)),
                        "{"@,
                        spaced(items->Ok_0 + inner->Ok_0),
                        "}"@,
                    ],
                ),
            )
        }),
{
    reveal_with_fuel(cluster_text, 2);
}

/// The name of a cluster's module is the name of the cluster without the place for an element.
pub proof fn law_module_name(a: Seq<char>, b: Seq<char>)
    requires
        forall|i: int| !#[trigger] matches_at(a + b, "%s"@, i),
    ensures
        module_name(a + b) == a + b,
        stands_once(a, "[%s]"@, b) ==> module_name(a + "[%s]"@ + b) == a + b,
        stands_once(a, "%s"@, b) && (forall|i: int|
            !#[trigger] matches_at(a + "%s"@ + b, "[%s]"@, i)) ==> module_name(a + "%s"@ + b) == a
            + b,
{
    reveal_strlit("%s");
    reveal_strlit("[%s]");
    let s = a + b;
    let none = Seq::<char>::empty();
    assert(a + none + b =~= s);
    assert forall|i: int| !#[trigger] matches_at(s, "[%s]"@, i) by {
        if matches_at(s, "[%s]"@, i) {
            assert(s.subrange(i + 1, i + 3) =~= s.subrange(i, i + 4).subrange(1, 3));
            assert("[%s]"@.subrange(1, 3) =~= "%s"@);
            assert(matches_at(s, "%s"@, i + 1));
        }
    }
    law_replaced_nothing(s, "[%s]"@, none);
    law_replaced_nothing(s, "%s"@, none);
    if stands_once(a, "[%s]"@, b) {
        law_replaced_once(a, "[%s]"@, b, none);
    }
    if stands_once(a, "%s"@, b) && (forall|i: int|
        !#[trigger] matches_at(a + "%s"@ + b, "[%s]"@, i)) {
        law_replaced_nothing(a + "%s"@ + b, "[%s]"@, none);
        law_replaced_once(a, "%s"@, b, none);
    }
}

/// The code of a cluster depends on the code of its own registers and those of the clusters within
/// it, and on that of no other.
pub proof fn law_own_registers_only<N: Conventions>(
    style: N,
    info: ClusterInfoModel,
    defs: Defaults,
    r: Seq<Seq<Result<Seq<Seq<char>>, ErrorModel>>>,
    s: Seq<Seq<Result<Seq<Seq<char>>, ErrorModel>>>,
)
    requires
        r.len() >= cluster_groups(info).len(),
        s.len() >= cluster_groups(info).len(),
        r.take(cluster_groups(info).len() as int) == s.take(cluster_groups(info).len() as int),
    ensures
        cluster_text(style, info, defs, r) == cluster_text(style, info, defs, s),
    decreases info,
{
    reveal_with_fuel(cluster_text, 2);
    reveal_with_fuel(cluster_groups, 2);
    let n = cluster_groups(info).len() as int;
    assert(cluster_groups(info) == seq![registers_of(info.children)] + groups_in(info.children));
    assert(r[0] == r.take(n)[0] && s[0] == s.take(n)[0]);
    assert(r.skip(1).take(n - 1) =~= r.take(n).skip(1));
    assert(s.skip(1).take(n - 1) =~= s.take(n).skip(1));
    lemma_own_groups(style, info.children, defs, r.skip(1), s.skip(1));
}

proof fn lemma_own_groups<N: Conventions>(
    style: N,
    list: Seq<NodeModel>,
    defs: Defaults,
    r: Seq<Seq<Result<Seq<Seq<char>>, ErrorModel>>>,
    s: Seq<Seq<Result<Seq<Seq<char>>, ErrorModel>>>,
)
    requires
        r.len() >= groups_in(list).len(),
        s.len() >= groups_in(list).len(),
        r.take(groups_in(list).len() as int) == s.take(groups_in(list).len() as int),
    ensures
        clusters_text(style, list, defs, r) == clusters_text(style, list, defs, s),
    decreases list,
{
    reveal_with_fuel(clusters_text, 2);
    reveal_with_fuel(groups_in, 2);
    if list.len() > 0 {
        let front = list.drop_last();
        let n = groups_in(list).len() as int;
        let m = groups_in(front).len() as int;
        assert(m <= n);
        assert(r.take(m) =~= r.take(n).take(m));
        assert(s.take(m) =~= s.take(n).take(m));
        lemma_own_groups(style, front, defs, r, s);
        match list.last() {
            NodeModel::Register(_) => {},
            NodeModel::Cluster(ClusterModel::Single(info)) => {
                assert(n == m + cluster_groups(info).len());
                assert(r.skip(m).take(n - m) =~= r.take(n).skip(m));
                assert(s.skip(m).take(n - m) =~= s.take(n).skip(m));
                law_own_registers_only(style, info, defs, r.skip(m), s.skip(m));
            },
            NodeModel::Cluster(ClusterModel::Array(info, _)) => {
                assert(n == m + cluster_groups(info).len());
                assert(r.skip(m).take(n - m) =~= r.take(n).skip(m));
                assert(s.skip(m).take(n - m) =~= s.take(n).skip(m));
                law_own_registers_only(style, info, defs, r.skip(m), s.skip(m));
            },
        }
    }
}

} // verus!

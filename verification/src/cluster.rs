use quote::Tokens;
use vstd::prelude::*;

use crate::block::{block_fits, block_text, register_or_cluster_block};
use crate::derive::registers_of;
use crate::device::{
    lemma_children, nodes, Cluster, ClusterInfo, ClusterInfoModel, ClusterModel, Defaults,
    NodeModel, RegisterCluster, RegisterModel,
};
use crate::error::{Error, ErrorModel};
use crate::names::Conventions;
use crate::text::{replace, replaced};
use crate::tokens::{append, put_together, quoted, spaced, string_literal, strs, tokens_text};

verus! {

/// The code of a list of registers that stand side by side: for each of them its items, or why
/// there are none.
pub type Rendered = Vec<Result<Vec<Tokens>, Error>>;

/// The texts of a list of tokens.
pub open spec fn texts(list: Seq<Tokens>) -> Seq<Seq<char>> {
    Seq::new(list.len(), |i: int| tokens_text(list[i]))
}

/// The texts of items, or the error in their place.
pub open spec fn items_result(
    r: Result<Vec<Tokens>, Error>,
) -> Result<Seq<Seq<char>>, ErrorModel> {
    match r {
        Ok(list) => Ok(texts(list@)),
        Err(e) => Err(e.model()),
    }
}

/// The mathematical model of one [`Rendered`].
pub open spec fn group_model(group: Rendered) -> Seq<Result<Seq<Seq<char>>, ErrorModel>> {
    Seq::new(group@.len(), |i: int| items_result(group@[i]))
}

/// The mathematical models of a list of [`Rendered`].
pub open spec fn groups_model(
    list: Seq<Rendered>,
) -> Seq<Seq<Result<Seq<Seq<char>>, ErrorModel>>> {
    Seq::new(list.len(), |i: int| group_model(list[i]))
}

/// All items, one behind the other; the error of the first that is missing.
pub open spec fn collected(
    group: Seq<Result<Seq<Seq<char>>, ErrorModel>>,
) -> Result<Seq<Seq<char>>, ErrorModel>
    decreases group.len(),
{
    if group.len() == 0 {
        Ok(Seq::empty())
    } else {
        match collected(group.drop_last()) {
            Err(e) => Err(e),
            Ok(before) => match group.last() {
                Err(e) => Err(e),
                Ok(items) => Ok(before + items),
            },
        }
    }
}

/// The registers that stand side by side in a cluster, and in each cluster within it.
pub open spec fn cluster_groups(info: ClusterInfoModel) -> Seq<Seq<RegisterModel>>
    decreases info,
{
    seq![registers_of(info.children)] + groups_in(info.children)
}

/// The registers that stand side by side in each cluster among the nodes, and within those.
pub open spec fn groups_in(list: Seq<NodeModel>) -> Seq<Seq<RegisterModel>>
    decreases list,
{
    if list.len() == 0 {
        Seq::empty()
    } else {
        let before = groups_in(list.drop_last());
        match list.last() {
            NodeModel::Register(_) => before,
            NodeModel::Cluster(ClusterModel::Single(info)) => before + cluster_groups(info),
            NodeModel::Cluster(ClusterModel::Array(info, _)) => before + cluster_groups(info),
        }
    }
}

/// The name of a cluster, without the part that stands for an element.
pub open spec fn module_name(name: Seq<char>) -> Seq<char> {
    replaced(replaced(name, "[%s]"@, Seq::empty()), "%s"@, Seq::empty())
}

/// The block of a cluster and its module, which holds the code of its registers and the blocks
/// of the clusters within it.
pub open spec fn cluster_def<N: Conventions>(
    style: N,
    info: ClusterInfoModel,
    block: Seq<char>,
    items: Seq<Seq<char>>,
) -> Seq<char> {
    spaced(
        seq![
            block,
            "# [ doc = r\" Register block\" ] # [ doc ="@,
            quoted(style.respaced(info.description)),
            "] pub mod"@,
            style.snake(module_name(info.name)),
            "{"@,
            spaced(items),
            "}"@,
        ],
    )
}

/// The code of a cluster. `rendered` holds the code of the registers of [`cluster_groups`].
pub open spec fn cluster_text<N: Conventions>(
    style: N,
    info: ClusterInfoModel,
    defs: Defaults,
    rendered: Seq<Seq<Result<Seq<Seq<char>>, ErrorModel>>>,
) -> Result<Seq<char>, ErrorModel>
    decreases info,
{
    match block_text(style, info.children, defs, Some(module_name(info.name))) {
        Err(e) => Err(e),
        Ok(block) => match collected(rendered[0]) {
            Err(e) => Err(e),
            Ok(items) => match clusters_text(style, info.children, defs, rendered.skip(1)) {
                Err(e) => Err(e),
                Ok(inner) => Ok(cluster_def(style, info, block, items + inner)),
            },
        },
    }
}

/// The code of each cluster among the nodes; the error of the first that has one. `rendered`
/// holds the code of the registers of [`groups_in`].
pub open spec fn clusters_text<N: Conventions>(
    style: N,
    list: Seq<NodeModel>,
    defs: Defaults,
    rendered: Seq<Seq<Result<Seq<Seq<char>>, ErrorModel>>>,
) -> Result<Seq<Seq<char>>, ErrorModel>
    decreases list,
{
    if list.len() == 0 {
        Ok(Seq::empty())
    } else {
        let front = list.drop_last();
        match clusters_text(style, front, defs, rendered) {
            Err(e) => Err(e),
            Ok(before) => match list.last() {
                NodeModel::Register(_) => Ok(before),
                NodeModel::Cluster(ClusterModel::Single(info)) => match cluster_text(
                    style,
                    info,
                    defs,
                    rendered.skip(groups_in(front).len() as int),
                ) {
                    Err(e) => Err(e),
                    Ok(text) => Ok(before.push(text)),
                },
                NodeModel::Cluster(ClusterModel::Array(info, _)) => match cluster_text(
                    style,
                    info,
                    defs,
                    rendered.skip(groups_in(front).len() as int),
                ) {
                    Err(e) => Err(e),
                    Ok(text) => Ok(before.push(text)),
                },
            },
        }
    }
}

/// Whether the blocks of a cluster and of the clusters within it can be laid out, up to the first
/// error.
pub open spec fn cluster_block_fits<N: Conventions>(
    style: N,
    info: ClusterInfoModel,
    defs: Defaults,
    rendered: Seq<Seq<Result<Seq<Seq<char>>, ErrorModel>>>,
) -> bool
    decreases info,
{
    &&& block_fits(style, info.children, defs, Some(module_name(info.name)))
    &&& block_text(style, info.children, defs, Some(module_name(info.name))) is Ok && collected(
        rendered[0],
    ) is Ok ==> clusters_fit(style, info.children, defs, rendered.skip(1))
}

/// Whether the blocks of all clusters among the nodes can be laid out, up to the first error.
pub open spec fn clusters_fit<N: Conventions>(
    style: N,
    list: Seq<NodeModel>,
    defs: Defaults,
    rendered: Seq<Seq<Result<Seq<Seq<char>>, ErrorModel>>>,
) -> bool
    decreases list,
{
    list.len() > 0 ==> {
        let front = list.drop_last();
        &&& clusters_fit(style, front, defs, rendered)
        &&& clusters_text(style, front, defs, rendered) is Ok ==> match list.last() {
            NodeModel::Register(_) => true,
            NodeModel::Cluster(ClusterModel::Single(info)) => cluster_block_fits(
                style,
                info,
                defs,
                rendered.skip(groups_in(front).len() as int),
            ),
            NodeModel::Cluster(ClusterModel::Array(info, _)) => cluster_block_fits(
                style,
                info,
                defs,
                rendered.skip(groups_in(front).len() as int),
            ),
        }
    }
}

/// Puts copies of the items behind `out`; stops at the first that is missing.
pub(crate) fn collect_items(group: &Rendered, out: &mut Vec<Tokens>) -> (r: Result<(), Error>)
    ensures
        match r {
            Ok(_) => collected(group_model(*group)) is Ok && texts(final(out)@) == texts(old(out)@)
                + collected(group_model(*group))->Ok_0,
            Err(e) => collected(group_model(*group)) == Err::<Seq<Seq<char>>, ErrorModel>(
                e.model(),
            ),
        },
{
    let ghost all = group_model(*group);
    let ghost start = texts(out@);
    let mut i: usize = 0;
    assert(texts(out@) =~= start + Seq::<Seq<char>>::empty());
    while i < group.len()
        invariant
            i <= group@.len(),
            all == group_model(*group),
            collected(all.take(i as int)) is Ok,
            texts(out@) == start + collected(all.take(i as int))->Ok_0,
        decreases group@.len() - i,
    {
        assert(all.take(i + 1).drop_last() =~= all.take(i as int));
        assert(all.take(i + 1).last() == items_result(group@[i as int]));
        match &group[i] {
            Err(e) => {
                proof {
                    lemma_collected_error(all, i + 1);
                }
                return Err(e.clone());
            },
            Ok(items) => {
                let ghost before = texts(out@);
                copy_items(items, out);
                assert(before + texts(items@) =~= start + (collected(all.take(i as int))->Ok_0
                    + texts(items@)));
            },
        }
        i += 1;
    }
    assert(all.take(i as int) =~= all);
    Ok(())
}

fn copy_items(items: &Vec<Tokens>, out: &mut Vec<Tokens>)
    ensures
        texts(final(out)@) == texts(old(out)@) + texts(items@),
{
    let ghost start = texts(out@);
    let mut i: usize = 0;
    assert(texts(out@) =~= start + texts(items@).take(0));
    while i < items.len()
        invariant
            i <= items@.len(),
            texts(out@) == start + texts(items@).take(i as int),
        decreases items@.len() - i,
    {
        let ghost before = out@;
        let pieces: Vec<&str> = vec![items[i].as_str()];
        let copy = put_together(&pieces);
        proof {
            let s = strs(pieces@);
            assert(s =~= seq![tokens_text(items@[i as int])]);
            assert(s.drop_last() =~= Seq::<Seq<char>>::empty());
            assert(spaced(s.drop_last()) =~= Seq::<char>::empty());
            assert(tokens_text(copy) =~= tokens_text(items@[i as int]));
        }
        out.push(copy);
        i += 1;
        assert(texts(out@) =~= texts(before).push(tokens_text(items@[i - 1])));
        assert(texts(items@).take(i as int) =~= texts(items@).take(i - 1).push(
            tokens_text(items@[i - 1]),
        ));
        assert(texts(out@) =~= start + texts(items@).take(i as int));
    }
    assert(texts(items@).take(i as int) =~= texts(items@));
}

pub(crate) proof fn lemma_collected_error(group: Seq<Result<Seq<Seq<char>>, ErrorModel>>, k: int)
    requires
        0 <= k <= group.len(),
        collected(group.take(k)) is Err,
    ensures
        collected(group) == collected(group.take(k)),
    decreases group.len(),
{
    if k == group.len() {
        assert(group.take(k) =~= group);
    } else {
        assert(group.drop_last().take(k) =~= group.take(k));
        lemma_collected_error(group.drop_last(), k);
    }
}

/// Puts a list of items together.
pub(crate) fn join_items(items: &Vec<Tokens>) -> (t: Tokens)
    ensures
        tokens_text(t) == spaced(texts(items@)),
{
    let ghost all = texts(items@);
    let mut t = Tokens::new();
    let mut i: usize = 0;
    while i < items.len()
        invariant
            i <= items@.len(),
            all == texts(items@),
            tokens_text(t) == spaced(all.take(i as int)),
        decreases items@.len() - i,
    {
        append(&mut t, items[i].as_str());
        i += 1;
        assert(all.take(i as int).drop_last() =~= all.take(i - 1));
    }
    assert(all.take(i as int) =~= all);
    t
}

fn write_module<N: Conventions>(
    info: &ClusterInfo,
    mod_name: &str,
    block: &str,
    items: &str,
    style: &N,
) -> (t: Tokens)
    ensures
        tokens_text(t) == spaced(
            seq![
                block@,
                "# [ doc = r\" Register block\" ] # [ doc ="@,
                quoted(style.respaced(info.description@)),
                "] pub mod"@,
                style.snake(mod_name@),
                "{"@,
                items@,
                "}"@,
            ],
        ),
{
    let description = style.respace(info.description.as_str());
    let literal = string_literal(description.as_str());
    let name_sc = style.to_sanitized_snake_case(mod_name);
    let pieces: Vec<&str> = vec![
        block,
        "# [ doc = r\" Register block\" ] # [ doc =",
        literal.as_str(),
        "] pub mod",
        name_sc.as_str(),
        "{",
        items,
        "}",
    ];
    assert(strs(pieces@) =~= seq![
        block@,
        "# [ doc = r\" Register block\" ] # [ doc ="@,
        quoted(style.respaced(info.description@)),
        "] pub mod"@,
        style.snake(mod_name@),
        "{"@,
        items@,
        "}"@,
    ]);
    put_together(&pieces)
}

pub(crate) fn strip_slots(name: &str) -> (r: String)
    ensures
        r@ == module_name(name@),
{
    proof {
        reveal_strlit("[%s]");
        reveal_strlit("%s");
        reveal_strlit("");
        assert(""@ =~= Seq::<char>::empty());
    }
    replace(replace(name, "[%s]", "").as_str(), "%s", "")
}

/// What holds of the clusters among some nodes holds of those among the first of them; and the
/// first error stays.
pub(crate) proof fn lemma_clusters_prefix<N: Conventions>(
    style: N,
    list: Seq<NodeModel>,
    k: int,
    defs: Defaults,
    rendered: Seq<Seq<Result<Seq<Seq<char>>, ErrorModel>>>,
)
    requires
        0 <= k <= list.len(),
    ensures
        groups_in(list.take(k)).len() <= groups_in(list).len(),
        clusters_fit(style, list, defs, rendered) ==> clusters_fit(
            style,
            list.take(k),
            defs,
            rendered,
        ),
        clusters_text(style, list.take(k), defs, rendered) is Err ==> {
            &&& clusters_text(style, list, defs, rendered) == clusters_text(
                style,
                list.take(k),
                defs,
                rendered,
            )
            &&& clusters_fit(style, list.take(k), defs, rendered) ==> clusters_fit(
                style,
                list,
                defs,
                rendered,
            )
        },
    decreases list.len(),
{
    if k == list.len() {
        assert(list.take(k) =~= list);
    } else {
        lemma_clusters_prefix(style, list.drop_last(), k, defs, rendered);
        assert(list.drop_last().take(k) =~= list.take(k));
    }
}

/// Puts the code of each cluster among the nodes behind `out`. The code of their registers is
/// taken from `rendered`, from `start` on; the result is the place behind it.
pub(crate) fn cluster_blocks<N: Conventions>(
    list: &Vec<RegisterCluster>,
    defs: &Defaults,
    rendered: &Vec<Rendered>,
    start: usize,
    out: &mut Vec<Tokens>,
    style: &N,
) -> (r: Result<usize, Error>)
    requires
        start + groups_in(nodes(list@)).len() <= rendered@.len(),
        clusters_fit(*style, nodes(list@), *defs, groups_model(rendered@).skip(start as int)),
    ensures
        match r {
            Ok(next) => {
                let text = clusters_text(
                    *style,
                    nodes(list@),
                    *defs,
                    groups_model(rendered@).skip(start as int),
                );
                &&& next == start + groups_in(nodes(list@)).len()
                &&& text is Ok
                &&& texts(final(out)@) == texts(old(out)@) + text->Ok_0
            },
            Err(e) => clusters_text(
                *style,
                nodes(list@),
                *defs,
                groups_model(rendered@).skip(start as int),
            ) == Err::<Seq<Seq<char>>, ErrorModel>(e.model()),
        },
    decreases list@,
{
    let ghost all = nodes(list@);
    let ghost given = groups_model(rendered@).skip(start as int);
    let ghost begin = texts(out@);
    let mut next: usize = start;
    let mut i: usize = 0;
    assert(texts(out@) =~= begin + Seq::<Seq<char>>::empty());
    while i < list.len()
        invariant
            i <= list@.len(),
            all == nodes(list@),
            given == groups_model(rendered@).skip(start as int),
            start + groups_in(all).len() <= rendered@.len(),
            clusters_fit(*style, all, *defs, given),
            next == start + groups_in(all.take(i as int)).len(),
            clusters_text(*style, all.take(i as int), *defs, given) is Ok,
            texts(out@) == begin + clusters_text(*style, all.take(i as int), *defs, given)->Ok_0,
        decreases list@.len() - i,
    {
        let ghost node = all[i as int];
        proof {
            lemma_clusters_prefix(*style, all, i + 1, *defs, given);
            assert(all.take(i + 1).drop_last() =~= all.take(i as int));
            assert(all.take(i + 1).last() == node);
            assert(node == list@[i as int].model());
            assert(given.skip(groups_in(all.take(i as int)).len() as int) =~= groups_model(
                rendered@,
            ).skip(next as int));
            reveal_with_fuel(cluster_groups, 2);
            reveal_with_fuel(groups_in, 2);
        }
        match &list[i] {
            RegisterCluster::Register(_) => {},
            RegisterCluster::Cluster(cluster) => {
                let ghost before = out@;
                match cluster_block(cluster, defs, rendered, next, style) {
                    Err(e) => {
                        return Err(e);
                    },
                    Ok((block, behind)) => {
                        out.push(block);
                        next = behind;
                        assert(texts(out@) =~= texts(before).push(tokens_text(block)));
                        assert(texts(out@) =~= begin + clusters_text(
                            *style,
                            all.take(i as int),
                            *defs,
                            given,
                        )->Ok_0.push(tokens_text(block)));
                    },
                }
            },
        }
        i += 1;
    }
    assert(all.take(i as int) =~= all);
    Ok(next)
}

/// Render a cluster block. The code of its registers is taken from `rendered`, from `start` on;
/// the second result is the place behind it.
pub fn cluster_block<N: Conventions>(
    c: &Cluster,
    defaults: &Defaults,
    rendered: &Vec<Rendered>,
    start: usize,
    style: &N,
) -> (r: Result<(Tokens, usize), Error>)
    requires
        start + cluster_groups(c.model().info()).len() <= rendered@.len(),
        cluster_block_fits(
            *style,
            c.model().info(),
            *defaults,
            groups_model(rendered@).skip(start as int),
        ),
    ensures
        match r {
            Ok((t, next)) => {
                &&& next == start + cluster_groups(c.model().info()).len()
                &&& cluster_text(
                    *style,
                    c.model().info(),
                    *defaults,
                    groups_model(rendered@).skip(start as int),
                ) == Ok::<Seq<char>, ErrorModel>(tokens_text(t))
            },
            Err(e) => cluster_text(
                *style,
                c.model().info(),
                *defaults,
                groups_model(rendered@).skip(start as int),
            ) == Err::<Seq<char>, ErrorModel>(e.model()),
        },
    decreases c,
{
    broadcast use lemma_children;

    let info = c.info();
    let ghost given = groups_model(rendered@).skip(start as int);
    assert(start < rendered.len());

    // Generate the register block.
    let mod_name = strip_slots(info.name.as_str());
    let block = match register_or_cluster_block(
        &info.children,
        defaults,
        Some(mod_name.as_str()),
        style,
    ) {
        Err(e) => {
            return Err(e);
        },
        Ok(block) => block,
    };

    // Definitions for each of the registers.
    let mut mod_items: Vec<Tokens> = Vec::new();
    assert(texts(mod_items@) =~= Seq::<Seq<char>>::empty());
    assert(given[0] == group_model(rendered@[start as int]));
    match collect_items(&rendered[start], &mut mod_items) {
        Err(e) => {
            return Err(e);
        },
        Ok(_) => {},
    }
    let ghost own = collected(given[0])->Ok_0;
    assert(texts(mod_items@) =~= own);

    // Generate the sub-cluster blocks.
    assert(given.skip(1) =~= groups_model(rendered@).skip(start + 1));
    let next = match cluster_blocks(
        &info.children,
        defaults,
        rendered,
        start + 1,
        &mut mod_items,
        style,
    ) {
        Err(e) => {
            return Err(e);
        },
        Ok(next) => next,
    };
    let items = join_items(&mod_items);
    let t = write_module(info, mod_name.as_str(), block.as_str(), items.as_str(), style);
    Ok((t, next))
}

/// The code of registers can be collected just where that of each of them is there.
pub proof fn law_collected(group: Seq<Result<Seq<Seq<char>>, ErrorModel>>)
    ensures
        collected(group) is Ok <==> forall|i: int|
            0 <= i < group.len() ==> #[trigger] group[i] is Ok,
        collected(group) matches Err(e) ==> exists|i: int|
            0 <= i < group.len() && #[trigger] group[i] == Err::<Seq<Seq<char>>, ErrorModel>(e)
                && forall|j: int| 0 <= j < i ==> #[trigger] group[j] is Ok,
    decreases group.len(),
{
    if group.len() > 0 {
        let front = group.drop_last();
        law_collected(front);
        assert(group[group.len() - 1] == group.last());
        if collected(front) is Err {
            let e = collected(front)->Err_0;
            let i = choose|i: int|
                0 <= i < front.len() && #[trigger] front[i] == Err::<Seq<Seq<char>>, ErrorModel>(e)
                    && forall|j: int| 0 <= j < i ==> #[trigger] front[j] is Ok;
            assert(group[i] == front[i]);
            assert forall|j: int| 0 <= j < i implies #[trigger] group[j] is Ok by {
                assert(front[j] is Ok);
            }
        } else {
            assert forall|j: int| 0 <= j < front.len() implies #[trigger] group[j] is Ok by {
                assert(front[j] is Ok);
            }
        }
    }
}

} // verus!

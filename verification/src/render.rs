use quote::Tokens;
use vstd::prelude::*;

use crate::block::{block_fits, block_text, register_or_cluster_block};
use crate::cluster::{
    cluster_blocks, cluster_groups, clusters_fit, clusters_text, collect_items, collected,
    group_model, groups_in, groups_model, items_result, join_items, texts, Rendered,
};
use crate::derive::{
    all_resolved, cluster_ref_models, clusters_of, derive_peripheral, derive_registers,
    derived_peripheral, missing_register_lines, missing_registers, only_clusters, only_registers,
    register_ref_models, registers_of,
};
use crate::device::{
    lemma_children, nodes, peripherals, register_models, strings, ClusterModel, Defaults,
    NodeModel, Peripheral, PeripheralModel, Register, RegisterCluster, RegisterModel,
};
use crate::error::{Error, ErrorModel};
use crate::names::Conventions;
use crate::tokens::{put_together, quoted, spaced, string_literal, strs, tokens_text};

verus! {

/// The first peripheral of that name.
pub open spec fn first_named(all: Seq<PeripheralModel>, name: Seq<char>) -> Option<PeripheralModel>
    decreases all.len(),
{
    if all.len() == 0 {
        None
    } else {
        match first_named(all.drop_last(), name) {
            Some(p) => Some(p),
            None => if all.last().name == name {
                Some(all.last())
            } else {
                None
            },
        }
    }
}

/// The peripheral that `p` is derived from.
pub open spec fn ancestor(
    p: PeripheralModel,
    all: Seq<PeripheralModel>,
) -> Option<PeripheralModel> {
    match p.derived_from {
        Some(name) => first_named(all, name),
        None => None,
    }
}

/// Whether `p` is derived from a peripheral that is not there.
pub open spec fn is_orphan(p: PeripheralModel, all: Seq<PeripheralModel>) -> bool {
    p.derived_from is Some && ancestor(p, all) is None
}

/// `p`, with what it does not say itself taken from the peripheral that it is derived from.
pub open spec fn completed(p: PeripheralModel, all: Seq<PeripheralModel>) -> PeripheralModel {
    match ancestor(p, all) {
        Some(other) => derived_peripheral(p, other),
        None => p,
    }
}

/// Whether `p` uses the register block of the peripheral that it is derived from.
pub open spec fn shares_block(p: PeripheralModel, all: Seq<PeripheralModel>) -> bool {
    ancestor(p, all) is Some && p.registers is None
}

/// The name of the peripheral whose module holds the register block of `p`.
pub open spec fn block_owner(p: PeripheralModel, all: Seq<PeripheralModel>) -> Seq<char> {
    if shares_block(p, all) {
        ancestor(p, all)->0.name
    } else {
        p.name
    }
}

/// The documentation of a peripheral: its description, or its name where it has none.
pub open spec fn peripheral_doc<N: Conventions>(style: N, p: PeripheralModel) -> Seq<char> {
    style.respaced(
        match p.description {
            Some(description) => description,
            None => p.name,
        },
    )
}

/// The struct of a peripheral, which leads to its register block.
pub open spec fn peripheral_def<N: Conventions>(
    style: N,
    p: PeripheralModel,
    owner: Seq<char>,
) -> Seq<char> {
    let name = style.upper(p.name);
    let base = style.snake(owner);
    spaced(
        seq![
            "# [ doc ="@,
            quoted(peripheral_doc(style, p)),
            "] pub struct"@,
            name,
            "{ _marker : PhantomData < * const ( ) > } unsafe impl Send for"@,
            name,
            "{ } impl"@,
            name,
            "{ # [ doc = r\" Returns a pointer to the register block\" ] pub fn ptr ( ) -> * const"@,
            base,
            ":: RegisterBlock {"@,
            style.address(p.base_address),
            "as * const _ } } impl Deref for"@,
            name,
            "{ type Target ="@,
            base,
            ":: RegisterBlock ; fn deref ( & self ) -> &"@,
            base,
            ":: RegisterBlock { unsafe { & *"@,
            name,
            ":: ptr ( ) } } }"@,
        ],
    )
}

/// The module of a peripheral.
pub open spec fn peripheral_module<N: Conventions>(
    style: N,
    p: PeripheralModel,
    items: Seq<Seq<char>>,
) -> Seq<char> {
    spaced(
        seq![
            "# [ doc ="@,
            quoted(peripheral_doc(style, p)),
            "] pub mod"@,
            style.snake(p.name),
            "{"@,
            spaced(items),
            "}"@,
        ],
    )
}

/// What a peripheral holds.
pub open spec fn contents(p: PeripheralModel) -> Seq<NodeModel> {
    match p.registers {
        Some(list) => list,
        None => Seq::empty(),
    }
}

/// The registers of a peripheral after derivation.
pub open spec fn final_registers(p: PeripheralModel) -> Seq<RegisterModel> {
    all_resolved(registers_of(contents(p)), registers_of(contents(p)))
}

/// What the register block of a peripheral is made of: its registers after derivation, and then
/// its clusters.
pub open spec fn block_nodes(p: PeripheralModel) -> Seq<NodeModel> {
    let registers = final_registers(p);
    let clusters = clusters_of(contents(p));
    Seq::new(registers.len(), |i: int| NodeModel::Register(registers[i])) + Seq::new(
        clusters.len(),
        |i: int| NodeModel::Cluster(clusters[i]),
    )
}

/// Whether a module with a register block is generated for `p`.
pub open spec fn has_module(p: PeripheralModel, all: Seq<PeripheralModel>) -> bool {
    !is_orphan(p, all) && !shares_block(p, all) && block_nodes(completed(p, all)).len() > 0
}

/// The registers whose code goes into the module of `p`, those side by side in one list: first
/// those of each cluster, then those of the peripheral itself.
pub open spec fn groups_of(
    p: PeripheralModel,
    all: Seq<PeripheralModel>,
) -> Seq<Seq<RegisterModel>> {
    if has_module(p, all) {
        groups_in(block_nodes(completed(p, all))) + seq![final_registers(completed(p, all))]
    } else {
        Seq::empty()
    }
}

/// Whether there is one result for each register of the groups.
pub open spec fn answers(
    rendered: Seq<Seq<Result<Seq<Seq<char>>, ErrorModel>>>,
    groups: Seq<Seq<RegisterModel>>,
) -> bool {
    &&& rendered.len() == groups.len()
    &&& forall|i: int|
        0 <= i < groups.len() ==> (#[trigger] rendered[i]).len() == groups[i].len()
}

/// What the module of a peripheral holds: the register block, the code of the clusters, and the
/// code of the registers.
pub open spec fn module_items<N: Conventions>(
    style: N,
    list: Seq<NodeModel>,
    defs: Defaults,
    rendered: Seq<Seq<Result<Seq<Seq<char>>, ErrorModel>>>,
) -> Result<Seq<Seq<char>>, ErrorModel> {
    match block_text(style, list, defs, None) {
        Err(e) => Err(e),
        Ok(block) => match clusters_text(style, list, defs, rendered) {
            Err(e) => Err(e),
            Ok(clusters) => match collected(rendered.last()) {
                Err(e) => Err(e),
                Ok(registers) => Ok(seq![block] + clusters + registers),
            },
        },
    }
}

/// The code of a peripheral: nothing for one that is derived from a missing one or that has no
/// register block, its struct alone for one that shares another's block, else its struct and its
/// module. `rendered` holds the code of the registers of [`groups_of`].
pub open spec fn peripheral_text<N: Conventions>(
    style: N,
    p: PeripheralModel,
    all: Seq<PeripheralModel>,
    defs: Defaults,
    rendered: Seq<Seq<Result<Seq<Seq<char>>, ErrorModel>>>,
) -> Result<Seq<Seq<char>>, ErrorModel> {
    let whole = completed(p, all);
    let def = peripheral_def(style, whole, block_owner(p, all));
    if is_orphan(p, all) {
        Ok(Seq::empty())
    } else if shares_block(p, all) {
        Ok(seq![def])
    } else if block_nodes(whole).len() == 0 {
        Ok(Seq::empty())
    } else {
        match module_items(style, block_nodes(whole), defs, rendered) {
            Err(e) => Err(e),
            Ok(items) => Ok(seq![def, peripheral_module(style, whole, items)]),
        }
    }
}

/// Whether all blocks of a peripheral can be laid out, up to the first error.
pub open spec fn peripheral_fits<N: Conventions>(
    style: N,
    p: PeripheralModel,
    all: Seq<PeripheralModel>,
    defs: Defaults,
    rendered: Seq<Seq<Result<Seq<Seq<char>>, ErrorModel>>>,
) -> bool {
    has_module(p, all) ==> {
        let list = block_nodes(completed(p, all));
        &&& block_fits(style, list, defs, None)
        &&& block_text(style, list, defs, None) is Ok ==> clusters_fit(style, list, defs, rendered)
    }
}

/// The line that tells of a peripheral that is derived from a missing one.
pub open spec fn missing_peripheral_line(p: PeripheralModel) -> Seq<char> {
    "Couldn't find derivedFrom original: "@ + p.derived_from->0 + " for "@ + p.name
        + ", skipping"@
}

/// The lines that tell what is left out of the code of a peripheral.
pub open spec fn warning_lines(
    p: PeripheralModel,
    all: Seq<PeripheralModel>,
) -> Seq<Seq<char>> {
    if is_orphan(p, all) {
        seq![missing_peripheral_line(p)]
    } else if shares_block(p, all) {
        Seq::empty()
    } else {
        let registers = registers_of(contents(completed(p, all)));
        missing_register_lines(registers, registers)
    }
}

fn find_peripheral<'a>(all: &'a [Peripheral], name: &String) -> (r: Option<&'a Peripheral>)
    ensures
        r is Some <==> first_named(peripherals(all@), name@) is Some,
        r matches Some(found) ==> found.model() == first_named(peripherals(all@), name@)->0,
{
    let ghost list = peripherals(all@);
    let mut i: usize = 0;
    while i < all.len()
        invariant
            i <= all@.len(),
            list == peripherals(all@),
            first_named(list.take(i as int), name@) is None,
        decreases all@.len() - i,
    {
        assert(list.take(i + 1).drop_last() =~= list.take(i as int));
        assert(list.take(i + 1).last() == all@[i as int].model());
        if all[i].name == *name {
            proof {
                lemma_first_named_prefix(list, i + 1, name@);
            }
            return Some(&all[i]);
        }
        i += 1;
    }
    assert(list.take(i as int) =~= list);
    None
}

proof fn lemma_first_named_prefix(all: Seq<PeripheralModel>, k: int, name: Seq<char>)
    requires
        0 <= k <= all.len(),
        first_named(all.take(k), name) is Some,
    ensures
        first_named(all, name) == first_named(all.take(k), name),
    decreases all.len(),
{
    if k == all.len() {
        assert(all.take(k) =~= all);
    } else {
        assert(all.drop_last().take(k) =~= all.take(k));
        lemma_first_named_prefix(all.drop_last(), k, name);
    }
}

fn find_ancestor<'a>(p: &Peripheral, all: &'a [Peripheral]) -> (r: Option<&'a Peripheral>)
    ensures
        r is Some <==> ancestor(p.model(), peripherals(all@)) is Some,
        r matches Some(found) ==> found.model() == ancestor(p.model(), peripherals(all@))->0,
{
    match &p.derived_from {
        Some(name) => find_peripheral(all, name),
        None => None,
    }
}

/// What the register block of a peripheral is made of.
pub(crate) fn list_block_nodes(p: &Peripheral) -> (r: Vec<RegisterCluster>)
    ensures
        nodes(r@) == block_nodes(p.model()),
{
    match &p.registers {
        None => {
            let r: Vec<RegisterCluster> = Vec::new();
            proof {
                let none = Seq::<RegisterModel>::empty();
                assert(registers_of(contents(p.model())) =~= none);
                assert(all_resolved(none, none) =~= none);
                assert(clusters_of(contents(p.model())) =~= Seq::<ClusterModel>::empty());
            }
            assert(nodes(r@) =~= block_nodes(p.model()));
            r
        },
        Some(list) => {
            let registers = only_registers(list);
            let derived = derive_registers(&registers);
            let clusters = only_clusters(list);
            let mut r: Vec<RegisterCluster> = Vec::new();
            let ghost regs = final_registers(p.model());
            let ghost clus = clusters_of(contents(p.model()));
            assert(register_models(derived@) == regs);
            assert(cluster_ref_models(clusters@) == clus);
            let mut i: usize = 0;
            while i < derived.len()
                invariant
                    i <= derived@.len(),
                    register_models(derived@) == regs,
                    r@.len() == i,
                    forall|j: int|
                        0 <= j < i ==> (#[trigger] r@[j]).model() == NodeModel::Register(regs[j]),
                decreases derived@.len() - i,
            {
                assert(regs[i as int] == derived@[i as int].model());
                r.push(RegisterCluster::Register(derived[i].clone()));
                i += 1;
            }
            let n: usize = r.len();
            let mut k: usize = 0;
            while k < clusters.len()
                invariant
                    k <= clusters@.len(),
                    cluster_ref_models(clusters@) == clus,
                    n == regs.len(),
                    r@.len() == n + k,
                    forall|j: int|
                        0 <= j < n ==> (#[trigger] r@[j]).model() == NodeModel::Register(regs[j]),
                    forall|j: int|
                        n <= j < n + k ==> (#[trigger] r@[j]).model() == NodeModel::Cluster(clus[j - n]),
                decreases clusters@.len() - k,
            {
                assert(clus[k as int] == clusters@[k as int].model());
                r.push(RegisterCluster::Cluster(clusters[k].clone()));
                k += 1;
            }
            assert(nodes(r@) =~= block_nodes(p.model()));
            r
        },
    }
}

/// The registers of a block are those after derivation.
proof fn lemma_block_registers(p: PeripheralModel)
    ensures
        registers_of(block_nodes(p)) == final_registers(p),
{
    let regs = final_registers(p);
    let clus = clusters_of(contents(p));
    let front = Seq::new(regs.len(), |i: int| NodeModel::Register(regs[i]));
    let back = Seq::new(clus.len(), |i: int| NodeModel::Cluster(clus[i]));
    lemma_only_registers(regs);
    lemma_no_registers(front, clus, clus.len() as int);
    assert(back.take(clus.len() as int) =~= back);
}

proof fn lemma_only_registers(regs: Seq<RegisterModel>)
    ensures
        registers_of(Seq::new(regs.len(), |i: int| NodeModel::Register(regs[i]))) == regs,
    decreases regs.len(),
{
    let list = Seq::new(regs.len(), |i: int| NodeModel::Register(regs[i]));
    if regs.len() > 0 {
        let front = regs.drop_last();
        lemma_only_registers(front);
        assert(list.drop_last() =~= Seq::new(front.len(), |i: int| NodeModel::Register(front[i])));
        assert(registers_of(list) =~= regs);
    } else {
        assert(registers_of(list) =~= regs);
    }
}

proof fn lemma_no_registers(front: Seq<NodeModel>, clus: Seq<ClusterModel>, k: int)
    requires
        0 <= k <= clus.len(),
    ensures
        registers_of(
            front + Seq::new(clus.len(), |i: int| NodeModel::Cluster(clus[i])).take(k),
        ) == registers_of(front),
    decreases k,
{
    let back = Seq::new(clus.len(), |i: int| NodeModel::Cluster(clus[i]));
    let list = front + back.take(k);
    if k > 0 {
        lemma_no_registers(front, clus, k - 1);
        assert(list.drop_last() =~= front + back.take(k - 1));
        assert(list.last() == NodeModel::Cluster(clus[k - 1]));
    } else {
        assert(list =~= front);
    }
}

fn write_doc<N: Conventions>(p: &Peripheral, style: &N) -> (r: String)
    ensures
        r@ == quoted(peripheral_doc(*style, p.model())),
{
    let description = match &p.description {
        Some(description) => style.respace(description.as_str()),
        None => style.respace(p.name.as_str()),
    };
    string_literal(description.as_str())
}

fn write_peripheral<N: Conventions>(p: &Peripheral, owner: &str, style: &N) -> (t: Tokens)
    ensures
        tokens_text(t) == peripheral_def(*style, p.model(), owner@),
{
    let doc = write_doc(p, style);
    let name = style.to_sanitized_upper_case(p.name.as_str());
    let base = style.to_sanitized_snake_case(owner);
    let address = style.hex(p.base_address);
    let pieces: Vec<&str> = vec![
        "# [ doc =",
        doc.as_str(),
        "] pub struct",
        name.as_str(),
        "{ _marker : PhantomData < * const ( ) > } unsafe impl Send for",
        name.as_str(),
        "{ } impl",
        name.as_str(),
        "{ # [ doc = r\" Returns a pointer to the register block\" ] pub fn ptr ( ) -> * const",
        base.as_str(),
        ":: RegisterBlock {",
        address.as_str(),
        "as * const _ } } impl Deref for",
        name.as_str(),
        "{ type Target =",
        base.as_str(),
        ":: RegisterBlock ; fn deref ( & self ) -> &",
        base.as_str(),
        ":: RegisterBlock { unsafe { & *",
        name.as_str(),
        ":: ptr ( ) } } }",
    ];
    let ghost n = style.upper(p.model().name);
    let ghost b = style.snake(owner@);
    assert(strs(pieces@) =~= seq![
        "# [ doc ="@,
        quoted(peripheral_doc(*style, p.model())),
        "] pub struct"@,
        n,
        "{ _marker : PhantomData < * const ( ) > } unsafe impl Send for"@,
        n,
        "{ } impl"@,
        n,
        "{ # [ doc = r\" Returns a pointer to the register block\" ] pub fn ptr ( ) -> * const"@,
        b,
        ":: RegisterBlock {"@,
        style.address(p.model().base_address),
        "as * const _ } } impl Deref for"@,
        n,
        "{ type Target ="@,
        b,
        ":: RegisterBlock ; fn deref ( & self ) -> &"@,
        b,
        ":: RegisterBlock { unsafe { & *"@,
        n,
        ":: ptr ( ) } } }"@,
    ]);
    put_together(&pieces)
}

fn write_peripheral_module<N: Conventions>(
    p: &Peripheral,
    items: &Vec<Tokens>,
    style: &N,
) -> (t: Tokens)
    ensures
        tokens_text(t) == peripheral_module(*style, p.model(), texts(items@)),
{
    let doc = write_doc(p, style);
    let name = style.to_sanitized_snake_case(p.name.as_str());
    let body = join_items(items);
    let pieces: Vec<&str> = vec![
        "# [ doc =",
        doc.as_str(),
        "] pub mod",
        name.as_str(),
        "{",
        body.as_str(),
        "}",
    ];
    assert(strs(pieces@) =~= seq![
        "# [ doc ="@,
        quoted(peripheral_doc(*style, p.model())),
        "] pub mod"@,
        style.snake(p.model().name),
        "{"@,
        spaced(texts(items@)),
        "}"@,
    ]);
    put_together(&pieces)
}

/// What the module of a peripheral holds.
fn write_module_items<N: Conventions>(
    list: &Vec<RegisterCluster>,
    defaults: &Defaults,
    rendered: &Vec<Rendered>,
    style: &N,
) -> (r: Result<Vec<Tokens>, Error>)
    requires
        rendered@.len() == groups_in(nodes(list@)).len() + 1,
        block_fits(*style, nodes(list@), *defaults, None),
        block_text(*style, nodes(list@), *defaults, None) is Ok ==> clusters_fit(
            *style,
            nodes(list@),
            *defaults,
            groups_model(rendered@),
        ),
    ensures
        items_result(r) == module_items(
            *style,
            nodes(list@),
            *defaults,
            groups_model(rendered@),
        ),
{
    let ghost given = groups_model(rendered@);
    // Push any register or cluster blocks into the output.
    let mut mod_items: Vec<Tokens> = Vec::new();
    let ghost mut block: Seq<char> = Seq::empty();
    match register_or_cluster_block(list, defaults, None, style) {
        Err(e) => {
            return Err(e);
        },
        Ok(t) => {
            proof {
                block = tokens_text(t);
            }
            mod_items.push(t);
        },
    }
    assert(texts(mod_items@) =~= seq![block]);

    // Push all cluster related information into the peripheral module.
    assert(given.skip(0) =~= given);
    let next = match cluster_blocks(list, defaults, rendered, 0, &mut mod_items, style) {
        Err(e) => {
            return Err(e);
        },
        Ok(next) => next,
    };

    // Push all register related information into the peripheral module.
    assert(given.last() == group_model(rendered@[next as int]));
    match collect_items(&rendered[next], &mut mod_items) {
        Err(e) => Err(e),
        Ok(_) => Ok(mod_items),
    }
}

/// The models of lists of registers.
pub open spec fn register_groups_model(list: Seq<Vec<Register>>) -> Seq<Seq<RegisterModel>> {
    Seq::new(list.len(), |i: int| register_models(list[i]@))
}

/// Copies of the registers among the nodes.
fn dup_registers(list: &Vec<RegisterCluster>) -> (r: Vec<Register>)
    ensures
        register_models(r@) == registers_of(nodes(list@)),
{
    let found = only_registers(list);
    let ghost all = registers_of(nodes(list@));
    let mut r: Vec<Register> = Vec::new();
    let mut i: usize = 0;
    while i < found.len()
        invariant
            i <= found@.len(),
            register_ref_models(found@) == all,
            r@.len() == i,
            forall|j: int| 0 <= j < i ==> (#[trigger] r@[j]).model() == all[j],
        decreases found@.len() - i,
    {
        assert(all[i as int] == found@[i as int].model());
        r.push(found[i].clone());
        i += 1;
    }
    assert(register_models(r@) =~= all);
    r
}

/// Puts the registers of each cluster among the nodes behind `out`, a list for each cluster.
fn push_cluster_groups(list: &Vec<RegisterCluster>, out: &mut Vec<Vec<Register>>)
    ensures
        register_groups_model(final(out)@) == register_groups_model(old(out)@) + groups_in(
            nodes(list@),
        ),
    decreases list@,
{
    broadcast use lemma_children;

    let ghost all = nodes(list@);
    let ghost begin = register_groups_model(out@);
    let mut i: usize = 0;
    assert(begin =~= begin + groups_in(all.take(0)));
    while i < list.len()
        invariant
            i <= list@.len(),
            all == nodes(list@),
            register_groups_model(out@) == begin + groups_in(all.take(i as int)),
        decreases list@.len() - i,
    {
        let ghost before = register_groups_model(out@);
        proof {
            assert(all.take(i + 1).drop_last() =~= all.take(i as int));
            assert(all.take(i + 1).last() == list@[i as int].model());
            reveal_with_fuel(groups_in, 2);
            reveal_with_fuel(cluster_groups, 2);
        }
        match &list[i] {
            RegisterCluster::Register(_) => {},
            RegisterCluster::Cluster(cluster) => {
                let info = cluster.info();
                let own = dup_registers(&info.children);
                let ghost first = register_models(own@);
                out.push(own);
                assert(register_groups_model(out@) =~= before.push(first));
                push_cluster_groups(&info.children, out);
                assert(info.model().children == nodes(info.children@));
                assert(cluster_groups(info.model()) == seq![first] + groups_in(
                    nodes(info.children@),
                ));
                assert(register_groups_model(out@) =~= before + cluster_groups(info.model()));
            },
        }
        assert(register_groups_model(out@) =~= begin + groups_in(all.take(i + 1)));
        i += 1;
    }
    assert(all.take(i as int) =~= all);
}

/// A peripheral with what it does not say itself taken from the one that it is derived from.
pub fn complete(p_original: &Peripheral, all_peripherals: &[Peripheral]) -> (r: Peripheral)
    ensures
        r.model() == completed(p_original.model(), peripherals(all_peripherals@)),
{
    match find_ancestor(p_original, all_peripherals) {
        Some(other) => derive_peripheral(p_original, other),
        None => p_original.clone(),
    }
}

/// The registers whose code [`render`] needs, those side by side in one list: first those of each
/// cluster, then those of the peripheral itself.
pub fn register_groups(
    p_original: &Peripheral,
    all_peripherals: &[Peripheral],
) -> (r: Vec<Vec<Register>>)
    ensures
        register_groups_model(r@) == groups_of(
            p_original.model(),
            peripherals(all_peripherals@),
        ),
{
    let mut out: Vec<Vec<Register>> = Vec::new();
    let ghost whole = completed(p_original.model(), peripherals(all_peripherals@));
    assert(register_groups_model(out@) =~= Seq::<Seq<RegisterModel>>::empty());
    let found = find_ancestor(p_original, all_peripherals);
    if found.is_none() && p_original.derived_from.is_some() {
        return out;
    }
    if found.is_some() && p_original.registers.is_none() {
        return out;
    }
    let p = complete(p_original, all_peripherals);
    let list = list_block_nodes(&p);
    if list.len() == 0 {
        return out;
    }
    push_cluster_groups(&list, &mut out);
    assert(register_groups_model(out@) =~= groups_in(block_nodes(whole)));
    let own = dup_registers(&list);
    proof {
        lemma_block_registers(whole);
    }
    let ghost last = register_models(own@);
    let ghost before = out@;
    out.push(own);
    assert(register_groups_model(out@) =~= register_groups_model(before).push(last));
    assert(register_groups_model(out@) =~= groups_of(
        p_original.model(),
        peripherals(all_peripherals@),
    ));
    out
}

/// One line for each thing that is left out of the code of a peripheral.
pub fn warnings(p_original: &Peripheral, all_peripherals: &[Peripheral]) -> (r: Vec<String>)
    ensures
        strings(r@) == warning_lines(p_original.model(), peripherals(all_peripherals@)),
{
    let mut out: Vec<String> = Vec::new();
    assert(strings(out@) =~= Seq::<Seq<char>>::empty());
    let found = find_ancestor(p_original, all_peripherals);
    if found.is_none() {
        if let Some(name) = &p_original.derived_from {
            let line = "Couldn't find derivedFrom original: ".to_owned().concat(
                name.as_str(),
            ).concat(" for ").concat(p_original.name.as_str()).concat(", skipping");
            let ghost text = line@;
            out.push(line);
            assert(strings(out@) =~= seq![text]);
            return out;
        }
    }
    if found.is_some() && p_original.registers.is_none() {
        return out;
    }
    let p = complete(p_original, all_peripherals);
    match &p.registers {
        None => {
            let ghost none = registers_of(contents(p.model()));
            assert(none =~= Seq::<RegisterModel>::empty());
            assert(missing_register_lines(none, none) =~= Seq::<Seq<char>>::empty());
            out
        },
        Some(list) => missing_registers(&only_registers(list)),
    }
}

/// The code of a peripheral, where the code of its registers is at hand.
pub fn render<N: Conventions>(
    p_original: &Peripheral,
    all_peripherals: &[Peripheral],
    defaults: &Defaults,
    rendered: &Vec<Rendered>,
    style: &N,
) -> (r: Result<Vec<Tokens>, Error>)
    requires
        answers(
            groups_model(rendered@),
            groups_of(p_original.model(), peripherals(all_peripherals@)),
        ),
        peripheral_fits(
            *style,
            p_original.model(),
            peripherals(all_peripherals@),
            *defaults,
            groups_model(rendered@),
        ),
    ensures
        items_result(r) == peripheral_text(
            *style,
            p_original.model(),
            peripherals(all_peripherals@),
            *defaults,
            groups_model(rendered@),
        ),
{
    let mut out: Vec<Tokens> = Vec::new();
    assert(texts(out@) =~= Seq::<Seq<char>>::empty());
    let found = find_ancestor(p_original, all_peripherals);
    if p_original.derived_from.is_some() && found.is_none() {
        return Ok(out);
    }
    let merged: Option<Peripheral> = match found {
        Some(other) => Some(derive_peripheral(p_original, other)),
        None => None,
    };
    let p: &Peripheral = match &merged {
        Some(p) => p,
        None => p_original,
    };
    let ghost whole = completed(p_original.model(), peripherals(all_peripherals@));
    assert(p.model() == whole);

    // Derived peripherals may not require re-implementation, and will instead use a single
    // definition of the non-derived version.
    if let Some(other) = found {
        if p_original.registers.is_none() {
            let def = write_peripheral(p, other.name.as_str(), style);
            out.push(def);
            assert(texts(out@) =~= seq![tokens_text(def)]);
            return Ok(out);
        }
    }
    let list = list_block_nodes(p);

    // No `struct RegisterBlock` can be generated.
    if list.len() == 0 {
        return Ok(out);
    }
    match write_module_items(&list, defaults, rendered, style) {
        Err(e) => Err(e),
        Ok(items) => {
            let def = write_peripheral(p, p.name.as_str(), style);
            let module = write_peripheral_module(p, &items, style);
            out.push(def);
            out.push(module);
            assert(texts(out@) =~= seq![tokens_text(def), tokens_text(module)]);
            Ok(out)
        },
    }
}

/// Derived peripherals may not require re-implementation: one without registers of its own is its
/// struct alone, which leads to the block of its ancestor, and needs the code of no register.
pub proof fn law_single_definition<N: Conventions>(
    style: N,
    p: PeripheralModel,
    all: Seq<PeripheralModel>,
    defs: Defaults,
    rendered: Seq<Seq<Result<Seq<Seq<char>>, ErrorModel>>>,
)
    requires
        ancestor(p, all) is Some,
        p.registers is None,
    ensures
        peripheral_text(style, p, all, defs, rendered) == Ok::<Seq<Seq<char>>, ErrorModel>(
            seq![
                peripheral_def(
                    style,
                    derived_peripheral(p, ancestor(p, all)->0),
                    ancestor(p, all)->0.name,
                ),
            ],
        ),
        groups_of(p, all).len() == 0,
        peripheral_fits(style, p, all, defs, rendered),
{
}

/// A peripheral that is derived from a missing one is skipped.
pub proof fn law_orphan_is_skipped<N: Conventions>(
    style: N,
    p: PeripheralModel,
    all: Seq<PeripheralModel>,
    defs: Defaults,
    rendered: Seq<Seq<Result<Seq<Seq<char>>, ErrorModel>>>,
)
    requires
        p.derived_from is Some,
        forall|i: int| 0 <= i < all.len() ==> (#[trigger] all[i]).name != p.derived_from->0,
    ensures
        peripheral_text(style, p, all, defs, rendered) == Ok::<Seq<Seq<char>>, ErrorModel>(
            Seq::empty(),
        ),
        warning_lines(p, all) == seq![missing_peripheral_line(p)],
{
    law_first_named(all, p.derived_from->0);
}

/// A peripheral is found by its name where there is one of that name, and the first of them.
pub proof fn law_first_named(all: Seq<PeripheralModel>, name: Seq<char>)
    ensures
        first_named(all, name) is None <==> forall|i: int|
            0 <= i < all.len() ==> (#[trigger] all[i]).name != name,
        first_named(all, name) matches Some(p) ==> exists|i: int|
            0 <= i < all.len() && #[trigger] all[i] == p && p.name == name && forall|j: int|
                0 <= j < i ==> (#[trigger] all[j]).name != name,
    decreases all.len(),
{
    if all.len() > 0 {
        let front = all.drop_last();
        law_first_named(front, name);
        assert(all[all.len() - 1] == all.last());
        if first_named(front, name) is Some {
            let p = first_named(front, name)->0;
            let i = choose|i: int|
                0 <= i < front.len() && #[trigger] front[i] == p && p.name == name && forall|j: int|
                    0 <= j < i ==> (#[trigger] front[j]).name != name;
            assert(all[i] == p);
            assert forall|j: int| 0 <= j < i implies (#[trigger] all[j]).name != name by {
                assert(front[j].name != name);
            }
        } else {
            assert forall|j: int| 0 <= j < front.len() implies (#[trigger] all[j]).name != name by {
                assert(front[j].name != name);
            }
        }
    }
}

/// The code of a peripheral is nothing, its struct, or its struct and its module.
pub proof fn law_item_count<N: Conventions>(
    style: N,
    p: PeripheralModel,
    all: Seq<PeripheralModel>,
    defs: Defaults,
    rendered: Seq<Seq<Result<Seq<Seq<char>>, ErrorModel>>>,
)
    ensures
        peripheral_text(style, p, all, defs, rendered) matches Ok(items) ==> items.len() == (
        if has_module(p, all) {
            2int
        } else if shares_block(p, all) {
            1int
        } else {
            0int
        }),
        !has_module(p, all) ==> peripheral_text(style, p, all, defs, rendered) is Ok,
{
}

/// Whatever a peripheral is derived from, its struct has its own name and address.
pub proof fn law_own_identity(p: PeripheralModel, all: Seq<PeripheralModel>)
    ensures
        completed(p, all).name == p.name,
        completed(p, all).base_address == p.base_address,
        p.registers is Some ==> completed(p, all).registers == p.registers,
        p.derived_from is None ==> completed(p, all) == p,
{
}

} // verus!

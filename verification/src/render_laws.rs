use vstd::prelude::*;

use crate::block::block_text;
use crate::cluster::{clusters_text, collected, groups_in};
use crate::derive::{
    all_resolved, clusters_of, derived_peripheral, law_no_register_lost_in_silence,
    missing_register_lines, registers_of,
};
use crate::device::{Defaults, NodeModel, PeripheralModel, RegisterModel};
use crate::error::ErrorModel;
use crate::names::Conventions;
use crate::render::{
    ancestor, block_nodes, completed, final_registers, first_named, groups_of, has_module,
    module_items, peripheral_def, peripheral_module, peripheral_text, warning_lines,
};
use crate::tokens::{quoted, spaced};

verus! {

/// The documentation of a peripheral: what it says of itself, else its name.
pub open spec fn says<N: Conventions>(style: N, p: PeripheralModel) -> Seq<char> {
    if p.description is Some {
        style.respaced(p.description->0)
    } else {
        style.respaced(p.name)
    }
}

/// The struct of a peripheral has its documentation and its name, and leads from its own address
/// to the register block in the module of the owner.
pub proof fn law_peripheral_struct<N: Conventions>(
    style: N,
    p: PeripheralModel,
    owner: Seq<char>,
)
    ensures
        ({
            let name = style.upper(p.name);
            let module = style.snake(owner);
            peripheral_def(style, p, owner) == spaced(
                seq![
                    "# [ doc ="@,
                    quoted(says(style, p)),
                    "] pub struct"@,
                    name,
                    "{ _marker : PhantomData < * const ( ) > } unsafe impl Send for"@,
                    name,
                    "{ } impl"@,
                    name,
                    "{ # [ doc = r\" Returns a pointer to the register block\" ] pub fn ptr ( ) -> * const"@,
                    module,
                    ":: RegisterBlock {"@,
                    style.address(p.base_address),
                    "as * const _ } } impl Deref for"@,
                    name,
                    "{ type Target ="@,
                    module,
                    ":: RegisterBlock ; fn deref ( & self ) -> &"@,
                    module,
                    ":: RegisterBlock { unsafe { & *"@,
                    name,
                    ":: ptr ( ) } } }"@,
                ],
            )
        }),
{
}

/// The module of a peripheral has its documentation and its name, and holds the items.
pub proof fn law_peripheral_module<N: Conventions>(
    style: N,
    p: PeripheralModel,
    items: Seq<Seq<char>>,
)
    ensures
        peripheral_module(style, p, items) == spaced(
            seq![
                "# [ doc ="@,
                quoted(says(style, p)),
                "] pub mod"@,
                style.snake(p.name),
                "{"@,
                spaced(items),
                "}"@,
            ],
        ),
{
}

/// A block is made of the registers of the peripheral after derivation and then of its clusters,
/// both in their order, and of nothing else.
pub proof fn law_block_nodes(p: PeripheralModel, list: Seq<NodeModel>)
    requires
        p.registers == Some(list),
    ensures
        ({
            let registers = all_resolved(registers_of(list), registers_of(list));
            let clusters = clusters_of(list);
            let nodes = block_nodes(p);
            &&& final_registers(p) == registers
            &&& nodes.len() == registers.len() + clusters.len()
            &&& forall|i: int|
                0 <= i < registers.len() ==> #[trigger] nodes[i] == NodeModel::Register(
                    registers[i],
                )
            &&& forall|i: int|
                registers.len() <= i < nodes.len() ==> #[trigger] nodes[i] == NodeModel::Cluster(
                    clusters[i - registers.len()],
                )
        }),
{
}

/// A peripheral without a list of registers has an empty block.
pub proof fn law_no_nodes(p: PeripheralModel)
    requires
        p.registers is None,
    ensures
        block_nodes(p).len() == 0,
        final_registers(p).len() == 0,
{
    let none = Seq::<NodeModel>::empty();
    assert(registers_of(none) =~= Seq::<RegisterModel>::empty());
    assert(clusters_of(none).len() == 0);
    assert(all_resolved(registers_of(none), registers_of(none)).len() == 0);
}

/// The module of a peripheral holds its register block, then the code of its clusters, then that of
/// its registers; an error comes from the first of them that has one.
pub proof fn law_module_items<N: Conventions>(
    style: N,
    list: Seq<NodeModel>,
    defs: Defaults,
    rendered: Seq<Seq<Result<Seq<Seq<char>>, ErrorModel>>>,
)
    ensures
        ({
            let block = block_text(style, list, defs, None);
            let clusters = clusters_text(style, list, defs, rendered);
            let registers = collected(rendered.last());
            let items = module_items(style, list, defs, rendered);
            &&& block matches Err(e) ==> items == Err::<Seq<Seq<char>>, ErrorModel>(e)
            &&& block is Ok ==> (clusters matches Err(e) ==> items == Err::<
                Seq<Seq<char>>,
                ErrorModel,
            >(e))
            &&& block is Ok && clusters is Ok ==> (registers matches Err(e) ==> items == Err::<
                Seq<Seq<char>>,
                ErrorModel,
            >(e))
            &&& block is Ok && clusters is Ok && registers is Ok ==> items == Ok::<
                Seq<Seq<char>>,
                ErrorModel,
            >(seq![block->Ok_0] + clusters->Ok_0 + registers->Ok_0)
        }),
{
}

/// What a peripheral is derived from is the first peripheral of that name; what it does not say
/// itself it has from there, and one that is derived from none stays as it is.
pub proof fn law_completed(p: PeripheralModel, all: Seq<PeripheralModel>)
    ensures
        p.derived_from is None ==> ancestor(p, all) is None && completed(p, all) == p,
        p.derived_from matches Some(name) ==> ancestor(p, all) == first_named(all, name),
        ancestor(p, all) matches Some(other) ==> completed(p, all) == derived_peripheral(p, other),
{
}

/// A peripheral with nodes that stands on its own, because it is derived from none or has registers
/// of its own, is a struct that leads to the block in its own module, and that module, which holds
/// the items of the nodes.
pub proof fn law_own_module<N: Conventions>(
    style: N,
    p: PeripheralModel,
    all: Seq<PeripheralModel>,
    defs: Defaults,
    rendered: Seq<Seq<Result<Seq<Seq<char>>, ErrorModel>>>,
)
    requires
        p.derived_from is None || ancestor(p, all) is Some && p.registers is Some,
    ensures
        has_module(p, all) <==> block_nodes(completed(p, all)).len() > 0,
        has_module(p, all) ==> groups_of(p, all) == groups_in(block_nodes(completed(p, all))).push(
            final_registers(completed(p, all)),
        ),
        has_module(p, all) ==> match module_items(
            style,
            block_nodes(completed(p, all)),
            defs,
            rendered,
        ) {
            Ok(items) => peripheral_text(style, p, all, defs, rendered) == Ok::<
                Seq<Seq<char>>,
                ErrorModel,
            >(
                seq![
                    peripheral_def(style, completed(p, all), p.name),
                    peripheral_module(style, completed(p, all), items),
                ],
            ),
            Err(e) => peripheral_text(style, p, all, defs, rendered) == Err::<
                Seq<Seq<char>>,
                ErrorModel,
            >(e),
        },
        !has_module(p, all) ==> peripheral_text(style, p, all, defs, rendered) == Ok::<
            Seq<Seq<char>>,
            ErrorModel,
        >(Seq::empty()) && groups_of(p, all).len() == 0,
{
    let whole = completed(p, all);
    if has_module(p, all) {
        assert(groups_of(p, all) =~= groups_in(block_nodes(whole)).push(final_registers(whole)));
    }
}

/// The warnings of a peripheral tell of its registers that are left out, one line for each; where
/// what it is derived from is missing, one line tells of that alone.
pub proof fn law_warnings(p: PeripheralModel, all: Seq<PeripheralModel>)
    ensures
        p.derived_from matches Some(name) ==> (first_named(all, name) is None ==> warning_lines(
            p,
            all,
        ) == seq![
            "Couldn't find derivedFrom original: "@ + name + " for "@ + p.name + ", skipping"@,
        ]),
        p.derived_from matches Some(name) ==> (first_named(all, name) is Some && p.registers is None
            ==> warning_lines(p, all).len() == 0),
        p.registers matches Some(list) ==> (p.derived_from is None || ancestor(p, all) is Some
            ==> warning_lines(p, all) == missing_register_lines(
            registers_of(list),
            registers_of(list),
        ) && warning_lines(p, all).len() + final_registers(completed(p, all)).len()
            == registers_of(list).len()),
{
    if p.registers is Some {
        let registers = registers_of(p.registers->0);
        law_no_register_lost_in_silence(registers, registers);
    }
}

} // verus!

use vstd::prelude::*;

use crate::device::{
    dup_interrupts, dup_nodes, dup_string, nodes, register_models, strings, Cluster, ClusterModel,
    NodeModel, Peripheral, PeripheralModel, Register, RegisterCluster, RegisterInfo,
    RegisterInfoModel, RegisterModel,
};

verus! {

/// The first of two values that is there.
pub open spec fn first_of<T>(own: Option<T>, inherited: Option<T>) -> Option<T> {
    match own {
        Some(v) => Some(v),
        None => inherited,
    }
}

/// `p` with what it does not say itself taken from `other`.
pub open spec fn derived_peripheral(p: PeripheralModel, other: PeripheralModel) -> PeripheralModel {
    PeripheralModel {
        group_name: first_of(p.group_name, other.group_name),
        description: first_of(p.description, other.description),
        registers: first_of(p.registers, other.registers),
        interrupt: if p.interrupt.len() == 0 {
            other.interrupt
        } else {
            p.interrupt
        },
        ..p
    }
}

/// Deriving a second time from the same peripheral changes nothing.
pub proof fn law_derive_peripheral_twice(p: PeripheralModel, other: PeripheralModel)
    ensures
        derived_peripheral(derived_peripheral(p, other), other) == derived_peripheral(p, other),
{
}

/// A peripheral that says everything itself is not changed by deriving it.
pub proof fn law_derive_complete_peripheral(p: PeripheralModel, other: PeripheralModel)
    requires
        p.group_name is Some,
        p.description is Some,
        p.registers is Some,
        p.interrupt.len() > 0,
    ensures
        derived_peripheral(p, other) == p,
{
}

/// Makes `p` a peripheral of its own: what it does not say itself is taken from `other`.
pub fn derive_peripheral(p: &Peripheral, other: &Peripheral) -> (r: Peripheral)
    ensures
        r.model() == derived_peripheral(p.model(), other.model()),
{
    let group_name = match &p.group_name {
        Some(name) => Some(name.clone()),
        None => dup_string(&other.group_name),
    };
    let description = match &p.description {
        Some(text) => Some(text.clone()),
        None => dup_string(&other.description),
    };
    let registers = match &p.registers {
        Some(list) => Some(dup_nodes(list)),
        None => match &other.registers {
            Some(list) => Some(dup_nodes(list)),
            None => None,
        },
    };
    let interrupt = if p.interrupt.len() == 0 {
        dup_interrupts(&other.interrupt)
    } else {
        dup_interrupts(&p.interrupt)
    };
    Peripheral {
        name: p.name.clone(),
        group_name,
        description,
        base_address: p.base_address,
        interrupt,
        registers,
        derived_from: dup_string(&p.derived_from),
    }
}

/// `info` with what it does not say itself taken from `ancestor`.
pub open spec fn derived_register_info(
    info: RegisterInfoModel,
    ancestor: RegisterInfoModel,
) -> RegisterInfoModel {
    RegisterInfoModel {
        size: first_of(info.size, ancestor.size),
        access: first_of(info.access, ancestor.access),
        reset_value: first_of(info.reset_value, ancestor.reset_value),
        reset_mask: first_of(info.reset_mask, ancestor.reset_mask),
        fields: first_of(info.fields, ancestor.fields),
        write_constraint: first_of(info.write_constraint, ancestor.write_constraint),
        ..info
    }
}

/// Makes `info` a register of its own: what it does not say itself is taken from `ancestor`.
pub fn derive_reg_info(info: &RegisterInfo, ancestor: &RegisterInfo) -> (r: RegisterInfo)
    ensures
        r.model() == derived_register_info(info.model(), ancestor.model()),
{
    let mut derived = info.clone();
    if derived.size.is_none() {
        derived.size = ancestor.size;
    }
    if derived.access.is_none() {
        derived.access = ancestor.access;
    }
    if derived.reset_value.is_none() {
        derived.reset_value = ancestor.reset_value;
    }
    if derived.reset_mask.is_none() {
        derived.reset_mask = ancestor.reset_mask;
    }
    if derived.fields.is_none() {
        derived.fields = ancestor.fields;
    }
    if derived.write_constraint.is_none() {
        derived.write_constraint = ancestor.write_constraint;
    }
    derived
}

/// The registers among the nodes, in their order.
pub open spec fn registers_of(list: Seq<NodeModel>) -> Seq<RegisterModel>
    decreases list.len(),
{
    if list.len() == 0 {
        Seq::empty()
    } else {
        match list.last() {
            NodeModel::Register(register) => registers_of(list.drop_last()).push(register),
            NodeModel::Cluster(_) => registers_of(list.drop_last()),
        }
    }
}

/// The clusters among the nodes, in their order.
pub open spec fn clusters_of(list: Seq<NodeModel>) -> Seq<ClusterModel>
    decreases list.len(),
{
    if list.len() == 0 {
        Seq::empty()
    } else {
        match list.last() {
            NodeModel::Register(_) => clusters_of(list.drop_last()),
            NodeModel::Cluster(cluster) => clusters_of(list.drop_last()).push(cluster),
        }
    }
}

/// The models of a list of references to registers.
pub open spec fn register_ref_models(list: Seq<&Register>) -> Seq<RegisterModel> {
    Seq::new(list.len(), |i: int| list[i].model())
}

/// The models of a list of references to clusters.
pub open spec fn cluster_ref_models(list: Seq<&Cluster>) -> Seq<ClusterModel> {
    Seq::new(list.len(), |i: int| list[i].model())
}

/// The registers among the nodes.
pub fn only_registers(list: &Vec<RegisterCluster>) -> (r: Vec<&Register>)
    ensures
        register_ref_models(r@) == registers_of(nodes(list@)),
{
    let ghost all = nodes(list@);
    let mut r: Vec<&Register> = Vec::new();
    let mut i: usize = 0;
    assert(register_ref_models(r@) =~= registers_of(all.take(0)));
    while i < list.len()
        invariant
            i <= list@.len(),
            all == nodes(list@),
            register_ref_models(r@) == registers_of(all.take(i as int)),
        decreases list@.len() - i,
    {
        let ghost before = r@;
        assert(all.take(i + 1).drop_last() =~= all.take(i as int));
        assert(all.take(i + 1).last() == list@[i as int].model());
        match &list[i] {
            RegisterCluster::Register(register) => {
                r.push(register);
                assert(register_ref_models(r@) =~= register_ref_models(before).push(
                    register.model(),
                ));
            },
            RegisterCluster::Cluster(_) => {},
        }
        i += 1;
    }
    assert(all.take(i as int) =~= all);
    r
}

/// The clusters among the nodes.
pub fn only_clusters(list: &Vec<RegisterCluster>) -> (r: Vec<&Cluster>)
    ensures
        cluster_ref_models(r@) == clusters_of(nodes(list@)),
{
    let ghost all = nodes(list@);
    let mut r: Vec<&Cluster> = Vec::new();
    let mut i: usize = 0;
    assert(cluster_ref_models(r@) =~= clusters_of(all.take(0)));
    while i < list.len()
        invariant
            i <= list@.len(),
            all == nodes(list@),
            cluster_ref_models(r@) == clusters_of(all.take(i as int)),
        decreases list@.len() - i,
    {
        let ghost before = r@;
        assert(all.take(i + 1).drop_last() =~= all.take(i as int));
        assert(all.take(i + 1).last() == list@[i as int].model());
        match &list[i] {
            RegisterCluster::Register(_) => {},
            RegisterCluster::Cluster(cluster) => {
                r.push(cluster);
                assert(cluster_ref_models(r@) =~= cluster_ref_models(before).push(cluster.model()));
            },
        }
        i += 1;
    }
    assert(all.take(i as int) =~= all);
    r
}

/// The last register of that name.
pub open spec fn last_named(list: Seq<RegisterModel>, name: Seq<char>) -> Option<RegisterModel>
    decreases list.len(),
{
    if list.len() == 0 {
        None
    } else if list.last().info().name == name {
        Some(list.last())
    } else {
        last_named(list.drop_last(), name)
    }
}

/// A register after derivation, among the registers `all`: one that is derived from another has
/// the shape of the other, and takes from it what it does not say itself. `None` where there is
/// no register of that name.
pub open spec fn resolved(all: Seq<RegisterModel>, r: RegisterModel) -> Option<RegisterModel> {
    match r.info().derived_from {
        None => Some(r),
        Some(name) => match last_named(all, name) {
            None => None,
            Some(RegisterModel::Single(info)) => Some(
                RegisterModel::Single(derived_register_info(r.info(), info)),
            ),
            Some(RegisterModel::Array(info, array)) => Some(
                RegisterModel::Array(derived_register_info(r.info(), info), array),
            ),
        },
    }
}

/// The registers of `list` after derivation, without those that cannot be derived.
pub open spec fn all_resolved(
    all: Seq<RegisterModel>,
    list: Seq<RegisterModel>,
) -> Seq<RegisterModel>
    decreases list.len(),
{
    if list.len() == 0 {
        Seq::empty()
    } else {
        let before = all_resolved(all, list.drop_last());
        match resolved(all, list.last()) {
            Some(r) => before.push(r),
            None => before,
        }
    }
}

/// The line that tells of a register that cannot be derived.
pub open spec fn missing_register_line(name: Seq<char>, ancestor: Seq<char>) -> Seq<char> {
    "register "@ + name + " derivedFrom missing register "@ + ancestor
}

/// The lines that tell of the registers of `list` that cannot be derived.
pub open spec fn missing_register_lines(
    all: Seq<RegisterModel>,
    list: Seq<RegisterModel>,
) -> Seq<Seq<char>>
    decreases list.len(),
{
    if list.len() == 0 {
        Seq::empty()
    } else {
        let before = missing_register_lines(all, list.drop_last());
        match resolved(all, list.last()) {
            Some(_) => before,
            None => before.push(
                missing_register_line(
                    list.last().info().name,
                    list.last().info().derived_from->0,
                ),
            ),
        }
    }
}

fn find_register<'a>(list: &Vec<&'a Register>, name: &String) -> (r: Option<&'a Register>)
    ensures
        r is Some <==> last_named(register_ref_models(list@), name@) is Some,
        r matches Some(found) ==> found.model() == last_named(
            register_ref_models(list@),
            name@,
        )->0,
{
    let ghost all = register_ref_models(list@);
    let mut i: usize = list.len();
    assert(all.take(i as int) =~= all);
    while i > 0
        invariant
            i <= list@.len(),
            all == register_ref_models(list@),
            last_named(all, name@) == last_named(all.take(i as int), name@),
        decreases i,
    {
        let candidate = list[i - 1];
        assert(all.take(i as int).last() == candidate.model());
        assert(all.take(i as int).drop_last() =~= all.take(i - 1));
        if candidate.info().name == *name {
            return Some(candidate);
        }
        i -= 1;
    }
    None
}

/// One register after derivation.
fn resolve(all: &Vec<&Register>, r: &Register) -> (res: Option<Register>)
    ensures
        res is Some <==> resolved(register_ref_models(all@), r.model()) is Some,
        res matches Some(d) ==> d.model() == resolved(register_ref_models(all@), r.model())->0,
{
    match &r.info().derived_from {
        None => Some(r.clone()),
        Some(name) => match find_register(all, name) {
            None => None,
            Some(Register::Single(info)) => Some(Register::Single(derive_reg_info(r.info(), info))),
            Some(Register::Array(info, array)) => Some(
                Register::Array(derive_reg_info(r.info(), info), array.clone()),
            ),
        },
    }
}

/// Expands derived registers, and drops those whose ancestor is missing.
pub fn derive_registers(registers: &Vec<&Register>) -> (r: Vec<Register>)
    ensures
        register_models(r@) == all_resolved(
            register_ref_models(registers@),
            register_ref_models(registers@),
        ),
{
    let ghost all = register_ref_models(registers@);
    let mut r: Vec<Register> = Vec::new();
    let mut i: usize = 0;
    assert(register_models(r@) =~= all_resolved(all, all.take(0)));
    while i < registers.len()
        invariant
            i <= registers@.len(),
            all == register_ref_models(registers@),
            register_models(r@) == all_resolved(all, all.take(i as int)),
        decreases registers@.len() - i,
    {
        let ghost before = r@;
        assert(all.take(i + 1).drop_last() =~= all.take(i as int));
        assert(all.take(i + 1).last() == registers@[i as int].model());
        if let Some(d) = resolve(registers, registers[i]) {
            let ghost m = d.model();
            r.push(d);
            assert(register_models(r@) =~= register_models(before).push(m));
        }
        i += 1;
    }
    assert(all.take(i as int) =~= all);
    r
}

/// One line for each register whose ancestor is missing.
pub fn missing_registers(registers: &Vec<&Register>) -> (r: Vec<String>)
    ensures
        strings(r@) == missing_register_lines(
            register_ref_models(registers@),
            register_ref_models(registers@),
        ),
{
    let ghost all = register_ref_models(registers@);
    let mut r: Vec<String> = Vec::new();
    let mut i: usize = 0;
    assert(strings(r@) =~= missing_register_lines(all, all.take(0)));
    while i < registers.len()
        invariant
            i <= registers@.len(),
            all == register_ref_models(registers@),
            strings(r@) == missing_register_lines(all, all.take(i as int)),
        decreases registers@.len() - i,
    {
        let ghost before = r@;
        let register = registers[i];
        assert(all.take(i + 1).drop_last() =~= all.take(i as int));
        assert(all.take(i + 1).last() == register.model());
        if let Some(name) = &register.info().derived_from {
            if find_register(registers, name).is_none() {
                let line = "register ".to_owned().concat(register.info().name.as_str()).concat(
                    " derivedFrom missing register ",
                ).concat(name.as_str());
                let ghost text = line@;
                r.push(line);
                assert(strings(r@) =~= strings(before).push(text));
            }
        }
        i += 1;
    }
    assert(all.take(i as int) =~= all);
    r
}

/// A register that is derived from no other stays as it is.
pub proof fn law_plain_register(all: Seq<RegisterModel>, r: RegisterModel)
    requires
        r.info().derived_from is None,
    ensures
        resolved(all, r) == Some(r),
{
}

/// A derived register keeps its name, its description and its place, and all that it says itself;
/// whether it is an array is decided by its ancestor.
pub proof fn law_derived_register(all: Seq<RegisterModel>, r: RegisterModel)
    requires
        resolved(all, r) is Some,
    ensures
        ({
            let own = r.info();
            let whole = resolved(all, r)->0.info();
            &&& whole.name == own.name
            &&& whole.description == own.description
            &&& whole.address_offset == own.address_offset
            &&& whole.derived_from == own.derived_from
            &&& own.size is Some ==> whole.size == own.size
            &&& own.access is Some ==> whole.access == own.access
            &&& own.reset_value is Some ==> whole.reset_value == own.reset_value
            &&& own.reset_mask is Some ==> whole.reset_mask == own.reset_mask
            &&& own.fields is Some ==> whole.fields == own.fields
            &&& own.write_constraint is Some ==> whole.write_constraint == own.write_constraint
        }),
        r.info().derived_from matches Some(name) ==> (resolved(all, r)->0 is Array <==> last_named(
            all,
            name,
        )->0 is Array),
{
}

/// A derived register keeps its name, its description and its place, and all that it says itself.
/// What it does not say it has from its ancestor, and so it is an array just where its ancestor is
/// one, with the same elements.
pub proof fn law_inherited_from_ancestor(
    all: Seq<RegisterModel>,
    r: RegisterModel,
    name: Seq<char>,
)
    requires
        r.info().derived_from == Some(name),
    ensures
        resolved(all, r) is Some <==> last_named(all, name) is Some,
        resolved(all, r) matches Some(d) ==> {
            let own = r.info();
            let whole = d.info();
            let other = last_named(all, name)->0;
            let from = other.info();
            &&& whole.name == own.name
            &&& whole.description == own.description
            &&& whole.address_offset == own.address_offset
            &&& whole.derived_from == own.derived_from
            &&& whole.size == if own.size is Some { own.size } else { from.size }
            &&& whole.access == if own.access is Some { own.access } else { from.access }
            &&& whole.reset_value == if own.reset_value is Some {
                own.reset_value
            } else {
                from.reset_value
            }
            &&& whole.reset_mask == if own.reset_mask is Some {
                own.reset_mask
            } else {
                from.reset_mask
            }
            &&& whole.fields == if own.fields is Some { own.fields } else { from.fields }
            &&& whole.write_constraint == if own.write_constraint is Some {
                own.write_constraint
            } else {
                from.write_constraint
            }
            &&& d is Single <==> other is Single
            &&& d is Array ==> d->Array_1 == other->Array_1
        },
{
}

/// What a derived peripheral does not say itself it has from its ancestor; its name, its address
/// and what it is derived from stay its own.
pub proof fn law_derived_peripheral(p: PeripheralModel, other: PeripheralModel)
    ensures
        ({
            let whole = derived_peripheral(p, other);
            &&& whole.name == p.name
            &&& whole.base_address == p.base_address
            &&& whole.derived_from == p.derived_from
            &&& whole.group_name == if p.group_name is Some { p.group_name } else {
                other.group_name
            }
            &&& whole.description == if p.description is Some { p.description } else {
                other.description
            }
            &&& whole.registers == if p.registers is Some { p.registers } else { other.registers }
            &&& whole.interrupt == if p.interrupt.len() > 0 { p.interrupt } else {
                other.interrupt
            }
        }),
{
}

/// What a register that is derived by hand does not say itself it has from the other.
pub proof fn law_derived_info(info: RegisterInfoModel, from: RegisterInfoModel)
    ensures
        ({
            let whole = derived_register_info(info, from);
            &&& whole.name == info.name
            &&& whole.description == info.description
            &&& whole.address_offset == info.address_offset
            &&& whole.derived_from == info.derived_from
            &&& whole.size == if info.size is Some { info.size } else { from.size }
            &&& whole.access == if info.access is Some { info.access } else { from.access }
            &&& whole.reset_value == if info.reset_value is Some { info.reset_value } else {
                from.reset_value
            }
            &&& whole.reset_mask == if info.reset_mask is Some { info.reset_mask } else {
                from.reset_mask
            }
            &&& whole.fields == if info.fields is Some { info.fields } else { from.fields }
            &&& whole.write_constraint == if info.write_constraint is Some {
                info.write_constraint
            } else {
                from.write_constraint
            }
        }),
{
}

/// The registers and the clusters among the nodes of two lists are those of the one and then those
/// of the other; a single node is itself.
pub proof fn law_nodes_told_apart(
    a: Seq<NodeModel>,
    b: Seq<NodeModel>,
    register: RegisterModel,
    cluster: ClusterModel,
)
    ensures
        registers_of(a + b) == registers_of(a) + registers_of(b),
        clusters_of(a + b) == clusters_of(a) + clusters_of(b),
        registers_of(Seq::empty()) == Seq::<RegisterModel>::empty(),
        clusters_of(Seq::empty()) == Seq::<ClusterModel>::empty(),
        registers_of(seq![NodeModel::Register(register)]) == seq![register],
        clusters_of(seq![NodeModel::Register(register)]) == Seq::<ClusterModel>::empty(),
        registers_of(seq![NodeModel::Cluster(cluster)]) == Seq::<RegisterModel>::empty(),
        clusters_of(seq![NodeModel::Cluster(cluster)]) == seq![cluster],
    decreases b.len(),
{
    reveal_with_fuel(registers_of, 2);
    reveal_with_fuel(clusters_of, 2);
    assert(seq![NodeModel::Register(register)].drop_last() =~= Seq::<NodeModel>::empty());
    assert(seq![NodeModel::Cluster(cluster)].drop_last() =~= Seq::<NodeModel>::empty());
    assert(registers_of(seq![NodeModel::Register(register)]) =~= seq![register]);
    assert(clusters_of(seq![NodeModel::Cluster(cluster)]) =~= seq![cluster]);
    if b.len() == 0 {
        assert(a + b =~= a);
        assert(registers_of(a) + registers_of(b) =~= registers_of(a));
        assert(clusters_of(a) + clusters_of(b) =~= clusters_of(a));
    } else {
        let front = b.drop_last();
        law_nodes_told_apart(a, front, register, cluster);
        assert((a + b).drop_last() =~= a + front);
        assert((a + b).last() == b.last());
        assert(registers_of(a + b) =~= registers_of(a) + registers_of(b));
        assert(clusters_of(a + b) =~= clusters_of(a) + clusters_of(b));
    }
}

/// Registers are derived one by one, in their order: those of two lists are those of the one and
/// then those of the other, and so are the lines that tell of what is missing. A register is kept
/// as it is after derivation, or told of by its name and the name of what is missing.
pub proof fn law_registers_one_by_one(
    all: Seq<RegisterModel>,
    a: Seq<RegisterModel>,
    b: Seq<RegisterModel>,
    r: RegisterModel,
)
    ensures
        all_resolved(all, a + b) == all_resolved(all, a) + all_resolved(all, b),
        missing_register_lines(all, a + b) == missing_register_lines(all, a)
            + missing_register_lines(all, b),
        all_resolved(all, Seq::empty()) == Seq::<RegisterModel>::empty(),
        missing_register_lines(all, Seq::empty()) == Seq::<Seq<char>>::empty(),
        resolved(all, r) matches Some(d) ==> all_resolved(all, seq![r]) == seq![d]
            && missing_register_lines(all, seq![r]).len() == 0,
        resolved(all, r) is None ==> all_resolved(all, seq![r]).len() == 0
            && missing_register_lines(all, seq![r]) == seq![
            "register "@ + r.info().name + " derivedFrom missing register "@
                + r.info().derived_from->0,
        ],
    decreases b.len(),
{
    reveal_with_fuel(all_resolved, 2);
    reveal_with_fuel(missing_register_lines, 2);
    assert(seq![r].drop_last() =~= Seq::<RegisterModel>::empty());
    if resolved(all, r) is Some {
        assert(all_resolved(all, seq![r]) =~= seq![resolved(all, r)->0]);
    } else {
        assert(missing_register_lines(all, seq![r]) =~= seq![
            "register "@ + r.info().name + " derivedFrom missing register "@
                + r.info().derived_from->0,
        ]);
    }
    if b.len() == 0 {
        assert(a + b =~= a);
        assert(all_resolved(all, a) + all_resolved(all, b) =~= all_resolved(all, a));
        assert(missing_register_lines(all, a) + missing_register_lines(all, b)
            =~= missing_register_lines(all, a));
    } else {
        let front = b.drop_last();
        law_registers_one_by_one(all, a, front, r);
        assert((a + b).drop_last() =~= a + front);
        assert((a + b).last() == b.last());
        assert(all_resolved(all, a + b) =~= all_resolved(all, a) + all_resolved(all, b));
        assert(missing_register_lines(all, a + b) =~= missing_register_lines(all, a)
            + missing_register_lines(all, b));
    }
}

/// Every register is either kept or told of.
pub proof fn law_no_register_lost_in_silence(all: Seq<RegisterModel>, list: Seq<RegisterModel>)
    ensures
        all_resolved(all, list).len() + missing_register_lines(all, list).len() == list.len(),
    decreases list.len(),
{
    if list.len() > 0 {
        law_no_register_lost_in_silence(all, list.drop_last());
    }
}

/// Registers that are derived from none, or from one that is there, are all kept.
pub proof fn law_all_registers_kept(all: Seq<RegisterModel>, list: Seq<RegisterModel>)
    requires
        forall|i: int|
            0 <= i < list.len() ==> ((#[trigger] list[i]).info().derived_from matches Some(name)
                ==> last_named(all, name) is Some),
    ensures
        all_resolved(all, list).len() == list.len(),
        forall|i: int|
            0 <= i < list.len() ==> #[trigger] all_resolved(all, list)[i] == resolved(
                all,
                list[i],
            )->0,
    decreases list.len(),
{
    if list.len() > 0 {
        let front = list.drop_last();
        assert forall|i: int|
            0 <= i < front.len() implies ((#[trigger] front[i]).info().derived_from
            matches Some(name) ==> last_named(all, name) is Some) by {
            assert(front[i] == list[i]);
        }
        law_all_registers_kept(all, front);
        assert(list[list.len() - 1] == list.last());
        assert(resolved(all, list.last()) is Some);
    }
}

/// A register is found by its name where there is one of that name, and the last of them.
pub proof fn law_last_named(list: Seq<RegisterModel>, name: Seq<char>)
    ensures
        last_named(list, name) is None <==> forall|i: int|
            0 <= i < list.len() ==> (#[trigger] list[i]).info().name != name,
        last_named(list, name) matches Some(r) ==> exists|i: int|
            0 <= i < list.len() && #[trigger] list[i] == r && r.info().name == name && forall|j: int|
                i < j < list.len() ==> (#[trigger] list[j]).info().name != name,
    decreases list.len(),
{
    if list.len() > 0 {
        let front = list.drop_last();
        law_last_named(front, name);
        assert(list[list.len() - 1] == list.last());
        if list.last().info().name != name {
            if last_named(front, name) is Some {
                let r = last_named(front, name)->0;
                let i = choose|i: int|
                    0 <= i < front.len() && #[trigger] front[i] == r && r.info().name == name
                        && forall|j: int|
                        i < j < front.len() ==> (#[trigger] front[j]).info().name != name;
                assert(list[i] == r);
                assert forall|j: int| i < j < list.len() implies (#[trigger] list[j]).info().name
                    != name by {
                    if j < front.len() {
                        assert(front[j].info().name != name);
                    }
                }
            } else {
                assert forall|j: int| 0 <= j < list.len() implies (#[trigger] list[j]).info().name
                    != name by {
                    if j < front.len() {
                        assert(front[j].info().name != name);
                    }
                }
            }
        }
    }
}

} // verus!

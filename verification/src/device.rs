use vstd::prelude::*;

use crate::field::opt_chars;

verus! {

/// What a register or a field can be used for.
#[derive(Clone, Copy, Debug, PartialEq, Eq, Structural)]
pub enum Access {
    ReadOnly,
    ReadWrite,
    ReadWriteOnce,
    WriteOnce,
    WriteOnly,
}

/// What may be written to a register.
#[derive(Clone, Copy, Debug, PartialEq, Eq, Structural)]
pub enum WriteConstraint {
    WriteAsRead(bool),
    UseEnumeratedValues(bool),
    Range(u32, u32),
}

/// Values that a device sets for all registers that do not set their own.
#[derive(Clone, Copy, Debug, PartialEq, Eq, Structural)]
pub struct Defaults {
    pub size: Option<u32>,
    pub reset_value: Option<u32>,
    pub reset_mask: Option<u32>,
    pub access: Option<Access>,
}

/// How often, and how far apart, the element of an array occurs. `dim_index` names the elements;
/// without it they are numbered from zero.
#[derive(Debug)]
pub struct ArrayInfo {
    pub dim: u32,
    pub dim_increment: u32,
    pub dim_index: Option<Vec<String>>,
}

/// A register. Addresses are counted in bytes and sizes in bits. The bit fields of a register do
/// not matter for its place in a block: `fields` is the number of a list that the caller keeps.
#[derive(Debug)]
pub struct RegisterInfo {
    pub name: String,
    pub description: String,
    pub address_offset: u32,
    pub size: Option<u32>,
    pub access: Option<Access>,
    pub reset_value: Option<u32>,
    pub reset_mask: Option<u32>,
    pub fields: Option<u32>,
    pub write_constraint: Option<WriteConstraint>,
    pub derived_from: Option<String>,
}

/// A register, or an array of registers.
#[derive(Debug)]
pub enum Register {
    Single(RegisterInfo),
    Array(RegisterInfo, ArrayInfo),
}

/// A group of registers and further groups.
#[derive(Debug)]
pub struct ClusterInfo {
    pub name: String,
    pub description: String,
    pub address_offset: u32,
    pub size: Option<u32>,
    pub children: Vec<RegisterCluster>,
}

/// A cluster, or an array of clusters.
#[derive(Debug)]
pub enum Cluster {
    Single(ClusterInfo),
    Array(ClusterInfo, ArrayInfo),
}

/// What a block is made of.
#[derive(Debug)]
pub enum RegisterCluster {
    Register(Register),
    Cluster(Cluster),
}

/// An interrupt that a peripheral raises.
#[derive(Debug)]
pub struct Interrupt {
    pub name: String,
    pub description: Option<String>,
    pub value: u32,
}

/// A peripheral.
#[derive(Debug)]
pub struct Peripheral {
    pub name: String,
    pub group_name: Option<String>,
    pub description: Option<String>,
    pub base_address: u32,
    pub interrupt: Vec<Interrupt>,
    pub registers: Option<Vec<RegisterCluster>>,
    pub derived_from: Option<String>,
}

/// The mathematical model of an [`ArrayInfo`].
#[verifier::ext_equal]
pub ghost struct ArrayModel {
    pub dim: u32,
    pub dim_increment: u32,
    pub dim_index: Option<Seq<Seq<char>>>,
}

/// The mathematical model of a [`RegisterInfo`].
#[verifier::ext_equal]
pub ghost struct RegisterInfoModel {
    pub name: Seq<char>,
    pub description: Seq<char>,
    pub address_offset: u32,
    pub size: Option<u32>,
    pub access: Option<Access>,
    pub reset_value: Option<u32>,
    pub reset_mask: Option<u32>,
    pub fields: Option<u32>,
    pub write_constraint: Option<WriteConstraint>,
    pub derived_from: Option<Seq<char>>,
}

/// The mathematical model of a [`Register`].
#[verifier::ext_equal]
pub ghost enum RegisterModel {
    Single(RegisterInfoModel),
    Array(RegisterInfoModel, ArrayModel),
}

/// The mathematical model of a [`ClusterInfo`].
#[verifier::ext_equal]
pub ghost struct ClusterInfoModel {
    pub name: Seq<char>,
    pub description: Seq<char>,
    pub address_offset: u32,
    pub size: Option<u32>,
    pub children: Seq<NodeModel>,
}

/// The mathematical model of a [`Cluster`].
#[verifier::ext_equal]
pub ghost enum ClusterModel {
    Single(ClusterInfoModel),
    Array(ClusterInfoModel, ArrayModel),
}

/// The mathematical model of a [`RegisterCluster`].
#[verifier::ext_equal]
pub ghost enum NodeModel {
    Register(RegisterModel),
    Cluster(ClusterModel),
}

/// The mathematical model of an [`Interrupt`].
#[verifier::ext_equal]
pub ghost struct InterruptModel {
    pub name: Seq<char>,
    pub description: Option<Seq<char>>,
    pub value: u32,
}

/// The mathematical model of a [`Peripheral`].
#[verifier::ext_equal]
pub ghost struct PeripheralModel {
    pub name: Seq<char>,
    pub group_name: Option<Seq<char>>,
    pub description: Option<Seq<char>>,
    pub base_address: u32,
    pub interrupt: Seq<InterruptModel>,
    pub registers: Option<Seq<NodeModel>>,
    pub derived_from: Option<Seq<char>>,
}

/// The characters of each string of a list.
pub open spec fn strings(list: Seq<String>) -> Seq<Seq<char>> {
    Seq::new(list.len(), |i: int| list[i]@)
}

impl ArrayInfo {
    pub open spec fn model(self) -> ArrayModel {
        ArrayModel {
            dim: self.dim,
            dim_increment: self.dim_increment,
            dim_index: match self.dim_index {
                Some(list) => Some(strings(list@)),
                None => None,
            },
        }
    }
}

impl RegisterInfo {
    pub open spec fn model(self) -> RegisterInfoModel {
        RegisterInfoModel {
            name: self.name@,
            description: self.description@,
            address_offset: self.address_offset,
            size: self.size,
            access: self.access,
            reset_value: self.reset_value,
            reset_mask: self.reset_mask,
            fields: self.fields,
            write_constraint: self.write_constraint,
            derived_from: opt_chars(self.derived_from),
        }
    }
}

impl RegisterModel {
    /// What the register, or each register of the array, is.
    pub open spec fn info(self) -> RegisterInfoModel {
        match self {
            RegisterModel::Single(info) => info,
            RegisterModel::Array(info, _) => info,
        }
    }
}

impl ClusterModel {
    /// What the cluster, or each cluster of the array, is.
    pub open spec fn info(self) -> ClusterInfoModel {
        match self {
            ClusterModel::Single(info) => info,
            ClusterModel::Array(info, _) => info,
        }
    }
}

impl Register {
    pub open spec fn model(self) -> RegisterModel {
        match self {
            Register::Single(info) => RegisterModel::Single(info.model()),
            Register::Array(info, array) => RegisterModel::Array(info.model(), array.model()),
        }
    }
}

impl ClusterInfo {
    pub open spec fn model(self) -> ClusterInfoModel
        decreases self,
    {
        ClusterInfoModel {
            name: self.name@,
            description: self.description@,
            address_offset: self.address_offset,
            size: self.size,
            children: Seq::new(
                self.children@.len(),
                |i: int|
                    if 0 <= i < self.children@.len() {
                        self.children@[i].model()
                    } else {
                        arbitrary()
                    },
            ),
        }
    }
}

impl Cluster {
    pub open spec fn model(self) -> ClusterModel
        decreases self,
    {
        match self {
            Cluster::Single(info) => ClusterModel::Single(info.model()),
            Cluster::Array(info, array) => ClusterModel::Array(info.model(), array.model()),
        }
    }
}

impl RegisterCluster {
    pub open spec fn model(self) -> NodeModel
        decreases self,
    {
        match self {
            RegisterCluster::Register(register) => NodeModel::Register(register.model()),
            RegisterCluster::Cluster(cluster) => NodeModel::Cluster(cluster.model()),
        }
    }
}

/// The models of what a block is made of.
pub open spec fn nodes(list: Seq<RegisterCluster>) -> Seq<NodeModel> {
    Seq::new(list.len(), |i: int| list[i].model())
}

/// The models of a list of registers.
pub open spec fn register_models(list: Seq<Register>) -> Seq<RegisterModel> {
    Seq::new(list.len(), |i: int| list[i].model())
}

impl Interrupt {
    pub open spec fn model(self) -> InterruptModel {
        InterruptModel {
            name: self.name@,
            description: opt_chars(self.description),
            value: self.value,
        }
    }
}

impl Peripheral {
    pub open spec fn model(self) -> PeripheralModel {
        PeripheralModel {
            name: self.name@,
            group_name: opt_chars(self.group_name),
            description: opt_chars(self.description),
            base_address: self.base_address,
            interrupt: interrupts(self.interrupt@),
            registers: match self.registers {
                Some(list) => Some(nodes(list@)),
                None => None,
            },
            derived_from: opt_chars(self.derived_from),
        }
    }
}

/// The models of a list of peripherals.
pub open spec fn peripherals(list: Seq<Peripheral>) -> Seq<PeripheralModel> {
    Seq::new(list.len(), |i: int| list[i].model())
}

/// A cluster's children, by their models.
pub broadcast proof fn lemma_children(info: ClusterInfo)
    ensures
        #[trigger] info.model().children == nodes(info.children@),
{
    assert(info.model().children =~= nodes(info.children@));
}

/// A copy of a string that may be missing.
pub fn dup_string(s: &Option<String>) -> (r: Option<String>)
    ensures
        opt_chars(r) == opt_chars(*s),
{
    match s {
        Some(text) => Some(text.clone()),
        None => None,
    }
}

/// A copy of a list of strings.
pub fn dup_strings(list: &Vec<String>) -> (r: Vec<String>)
    ensures
        strings(r@) == strings(list@),
{
    let mut r: Vec<String> = Vec::new();
    let mut i: usize = 0;
    while i < list.len()
        invariant
            i <= list@.len(),
            r@.len() == i,
            forall|j: int| 0 <= j < i ==> (#[trigger] r@[j])@ == list@[j]@,
        decreases list@.len() - i,
    {
        r.push(list[i].clone());
        i += 1;
    }
    assert(strings(r@) =~= strings(list@));
    r
}

impl Clone for ArrayInfo {
    fn clone(&self) -> (r: ArrayInfo)
        ensures
            r.model() == self.model(),
    {
        let dim_index = match &self.dim_index {
            Some(list) => Some(dup_strings(list)),
            None => None,
        };
        ArrayInfo { dim: self.dim, dim_increment: self.dim_increment, dim_index }
    }
}

impl Clone for RegisterInfo {
    fn clone(&self) -> (r: RegisterInfo)
        ensures
            r.model() == self.model(),
    {
        RegisterInfo {
            name: self.name.clone(),
            description: self.description.clone(),
            address_offset: self.address_offset,
            size: self.size,
            access: self.access,
            reset_value: self.reset_value,
            reset_mask: self.reset_mask,
            fields: self.fields,
            write_constraint: self.write_constraint,
            derived_from: dup_string(&self.derived_from),
        }
    }
}

impl Register {
    /// What the register, or each register of the array, is.
    pub fn info(&self) -> (r: &RegisterInfo)
        ensures
            r.model() == self.model().info(),
    {
        match self {
            Register::Single(info) => info,
            Register::Array(info, _) => info,
        }
    }
}

impl Clone for Register {
    fn clone(&self) -> (r: Register)
        ensures
            r.model() == self.model(),
    {
        match self {
            Register::Single(info) => Register::Single(info.clone()),
            Register::Array(info, array) => Register::Array(info.clone(), array.clone()),
        }
    }
}

impl Clone for ClusterInfo {
    fn clone(&self) -> (r: ClusterInfo)
        ensures
            r.model() == self.model(),
        decreases self,
    {
        let mut children: Vec<RegisterCluster> = Vec::new();
        let mut i: usize = 0;
        while i < self.children.len()
            invariant
                i <= self.children@.len(),
                children@.len() == i,
                forall|j: int|
                    0 <= j < i ==> (#[trigger] children@[j]).model() == self.children@[j].model(),
            decreases self.children@.len() - i,
        {
            children.push(self.children[i].clone());
            i += 1;
        }
        let r = ClusterInfo {
            name: self.name.clone(),
            description: self.description.clone(),
            address_offset: self.address_offset,
            size: self.size,
            children,
        };
        assert(r.model().children =~= self.model().children);
        r
    }
}

impl Cluster {
    /// What the cluster, or each cluster of the array, is.
    pub fn info(&self) -> (r: &ClusterInfo)
        ensures
            r.model() == self.model().info(),
            decreases_to!(*self => *r),
    {
        match self {
            Cluster::Single(info) => info,
            Cluster::Array(info, _) => info,
        }
    }
}

impl Clone for Cluster {
    fn clone(&self) -> (r: Cluster)
        ensures
            r.model() == self.model(),
        decreases self,
    {
        match self {
            Cluster::Single(info) => Cluster::Single(info.clone()),
            Cluster::Array(info, array) => Cluster::Array(info.clone(), array.clone()),
        }
    }
}

impl Clone for RegisterCluster {
    fn clone(&self) -> (r: RegisterCluster)
        ensures
            r.model() == self.model(),
        decreases self,
    {
        match self {
            RegisterCluster::Register(register) => RegisterCluster::Register(register.clone()),
            RegisterCluster::Cluster(cluster) => RegisterCluster::Cluster(cluster.clone()),
        }
    }
}

/// A copy of what a block is made of.
pub fn dup_nodes(list: &Vec<RegisterCluster>) -> (r: Vec<RegisterCluster>)
    ensures
        nodes(r@) == nodes(list@),
{
    let mut r: Vec<RegisterCluster> = Vec::new();
    let mut i: usize = 0;
    while i < list.len()
        invariant
            i <= list@.len(),
            r@.len() == i,
            forall|j: int| 0 <= j < i ==> (#[trigger] r@[j]).model() == list@[j].model(),
        decreases list@.len() - i,
    {
        r.push(list[i].clone());
        i += 1;
    }
    assert(nodes(r@) =~= nodes(list@));
    r
}

impl Clone for Interrupt {
    fn clone(&self) -> (r: Interrupt)
        ensures
            r.model() == self.model(),
    {
        Interrupt {
            name: self.name.clone(),
            description: dup_string(&self.description),
            value: self.value,
        }
    }
}

/// The models of a list of interrupts.
pub open spec fn interrupts(list: Seq<Interrupt>) -> Seq<InterruptModel> {
    Seq::new(list.len(), |i: int| list[i].model())
}

/// A copy of a list of interrupts.
pub fn dup_interrupts(list: &Vec<Interrupt>) -> (r: Vec<Interrupt>)
    ensures
        interrupts(r@) == interrupts(list@),
{
    let mut r: Vec<Interrupt> = Vec::new();
    let mut i: usize = 0;
    while i < list.len()
        invariant
            i <= list@.len(),
            r@.len() == i,
            forall|j: int| 0 <= j < i ==> (#[trigger] r@[j]).model() == list@[j].model(),
        decreases list@.len() - i,
    {
        r.push(list[i].clone());
        i += 1;
    }
    assert(interrupts(r@) =~= interrupts(list@));
    r
}

impl Clone for Peripheral {
    fn clone(&self) -> (r: Peripheral)
        ensures
            r.model() == self.model(),
    {
        let registers = match &self.registers {
            Some(list) => Some(dup_nodes(list)),
            None => None,
        };
        Peripheral {
            name: self.name.clone(),
            group_name: dup_string(&self.group_name),
            description: dup_string(&self.description),
            base_address: self.base_address,
            interrupt: dup_interrupts(&self.interrupt),
            registers,
            derived_from: dup_string(&self.derived_from),
        }
    }
}

} // verus!

use vstd::prelude::*;

use crate::device::{ArrayInfo, ArrayModel, Cluster, ClusterModel, Register, RegisterModel};
use crate::field::{Field, FieldModel, FieldType, TypeModel};
use crate::names::Conventions;
use crate::text::{contains, decimal, has, replace, replaced, write_numeral};

verus! {

/// The characters of a string slice that may be missing.
pub open spec fn opt_text(s: Option<&str>) -> Option<Seq<char>> {
    match s {
        Some(s) => Some(s@),
        None => None,
    }
}

/// The path of the type of a register or cluster, as seen from the block that holds it: the
/// types of a cluster's registers stand in the module of the cluster.
pub open spec fn type_path<N: Conventions>(
    style: N,
    name: Seq<char>,
    ns: Option<Seq<char>>,
) -> Seq<char> {
    match ns {
        Some(ns) => "self::"@ + style.snake(ns) + "::"@ + style.upper(name),
        None => style.upper(name),
    }
}

/// The part of an array's name that stands for the element: `[%s]` if it occurs, else `%s`.
pub open spec fn slot(name: Seq<char>) -> Seq<char> {
    if has(name, "[%s]"@) {
        "[%s]"@
    } else {
        "%s"@
    }
}

/// The name of one element of an array.
pub open spec fn element_name(name: Seq<char>, index: Seq<char>) -> Seq<char> {
    replaced(name, slot(name), index)
}

/// The name of an array, without the part that stands for the element.
pub open spec fn array_name(name: Seq<char>) -> Seq<char> {
    replaced(name, slot(name), Seq::empty())
}

/// The names of the elements of an array.
pub open spec fn index_names(array: ArrayModel) -> Seq<Seq<char>> {
    match array.dim_index {
        Some(list) => list,
        None => Seq::new(array.dim as nat, |i: int| decimal(i as nat)),
    }
}

/// The field for something that occurs once.
pub open spec fn single_field<N: Conventions>(
    style: N,
    name: Seq<char>,
    ns: Option<Seq<char>>,
) -> FieldModel {
    FieldModel {
        ident: Some(style.snake(name)),
        ty: TypeModel::Path(type_path(style, name, ns)),
    }
}

/// The field for a whole array.
pub open spec fn array_field<N: Conventions>(
    style: N,
    name: Seq<char>,
    array: ArrayModel,
    ns: Option<Seq<char>>,
) -> FieldModel {
    FieldModel {
        ident: Some(style.snake(array_name(name))),
        ty: TypeModel::Array(type_path(style, array_name(name), ns), array.dim as nat),
    }
}

/// One field for each element of an array.
pub open spec fn element_fields<N: Conventions>(
    style: N,
    name: Seq<char>,
    array: ArrayModel,
    ns: Option<Seq<char>>,
) -> Seq<FieldModel> {
    Seq::new(
        index_names(array).len(),
        |i: int|
            FieldModel {
                ident: Some(style.snake(element_name(name, index_names(array)[i]))),
                ty: TypeModel::Path(type_path(style, array_name(name), ns)),
            },
    )
}

/// The field for a register, or for a whole array of registers.
pub open spec fn register_field<N: Conventions>(
    style: N,
    register: RegisterModel,
    ns: Option<Seq<char>>,
) -> FieldModel {
    match register {
        RegisterModel::Single(info) => single_field(style, info.name, ns),
        RegisterModel::Array(info, array) => array_field(style, info.name, array, ns),
    }
}

/// The fields for a register, with an array taken apart.
pub open spec fn register_fields<N: Conventions>(
    style: N,
    register: RegisterModel,
    ns: Option<Seq<char>>,
) -> Seq<FieldModel> {
    match register {
        RegisterModel::Single(info) => seq![single_field(style, info.name, ns)],
        RegisterModel::Array(info, array) => element_fields(style, info.name, array, ns),
    }
}

/// The field for a cluster, or for a whole array of clusters.
pub open spec fn cluster_field<N: Conventions>(style: N, cluster: ClusterModel) -> FieldModel {
    match cluster {
        ClusterModel::Single(info) => single_field(style, info.name, None),
        ClusterModel::Array(info, array) => array_field(style, info.name, array, None),
    }
}

/// The fields for a cluster, with an array taken apart.
pub open spec fn cluster_fields<N: Conventions>(
    style: N,
    cluster: ClusterModel,
) -> Seq<FieldModel> {
    match cluster {
        ClusterModel::Single(info) => seq![single_field(style, info.name, None)],
        ClusterModel::Array(info, array) => element_fields(style, info.name, array, None),
    }
}

/// The models of a list of fields.
pub open spec fn field_models(list: Seq<Field>) -> Seq<FieldModel> {
    Seq::new(list.len(), |i: int| list[i].model())
}

fn name_to_ty<N: Conventions>(style: &N, name: &str, ns: Option<&str>) -> (r: String)
    ensures
        r@ == type_path(*style, name@, opt_text(ns)),
{
    match ns {
        Some(ns) => "self::".to_owned().concat(style.to_sanitized_snake_case(ns).as_str()).concat(
            "::",
        ).concat(style.to_sanitized_upper_case(name).as_str()),
        None => style.to_sanitized_upper_case(name),
    }
}

proof fn lemma_slots()
    ensures
        "[%s]"@.len() > 0,
        "%s"@.len() > 0,
{
    reveal_strlit("[%s]");
    reveal_strlit("%s");
}

fn fill_slot(name: &str, index: &str) -> (r: String)
    ensures
        r@ == element_name(name@, index@),
{
    proof {
        lemma_slots();
    }
    if contains(name, "[%s]") {
        replace(name, "[%s]", index)
    } else {
        replace(name, "%s", index)
    }
}

fn drop_slot(name: &str) -> (r: String)
    ensures
        r@ == array_name(name@),
{
    proof {
        reveal_strlit("");
        assert(""@ =~= Seq::<char>::empty());
    }
    fill_slot(name, "")
}

fn convert_single<N: Conventions>(style: &N, name: &str, ns: Option<&str>) -> (r: Field)
    ensures
        r.model() == single_field(*style, name@, opt_text(ns)),
{
    Field {
        ident: Some(style.to_sanitized_snake_case(name)),
        ty: FieldType::Path(name_to_ty(style, name, ns)),
    }
}

fn convert_array<N: Conventions>(
    style: &N,
    name: &str,
    array: &ArrayInfo,
    ns: Option<&str>,
) -> (r: Field)
    ensures
        r.model() == array_field(*style, name@, array.model(), opt_text(ns)),
{
    let bare = drop_slot(name);
    Field {
        ident: Some(style.to_sanitized_snake_case(bare.as_str())),
        ty: FieldType::Array(name_to_ty(style, bare.as_str(), ns), array.dim as u64),
    }
}

fn element_field<N: Conventions>(
    style: &N,
    name: &str,
    index: &str,
    ns: Option<&str>,
) -> (r: Field)
    ensures
        r.model() == (FieldModel {
            ident: Some(style.snake(element_name(name@, index@))),
            ty: TypeModel::Path(type_path(*style, array_name(name@), opt_text(ns))),
        }),
{
    let own = fill_slot(name, index);
    let bare = drop_slot(name);
    Field {
        ident: Some(style.to_sanitized_snake_case(own.as_str())),
        ty: FieldType::Path(name_to_ty(style, bare.as_str(), ns)),
    }
}

fn expand_array<N: Conventions>(
    style: &N,
    name: &str,
    array: &ArrayInfo,
    ns: Option<&str>,
) -> (r: Vec<Field>)
    ensures
        field_models(r@) == element_fields(*style, name@, array.model(), opt_text(ns)),
{
    let ghost want = element_fields(*style, name@, array.model(), opt_text(ns));
    let mut r: Vec<Field> = Vec::new();
    match &array.dim_index {
        Some(list) => {
            let mut i: usize = 0;
            while i < list.len()
                invariant
                    i <= list@.len(),
                    array.dim_index == Some(*list),
                    want == element_fields(*style, name@, array.model(), opt_text(ns)),
                    r@.len() == i,
                    forall|j: int| 0 <= j < i ==> (#[trigger] r@[j]).model() == want[j],
                decreases list@.len() - i,
            {
                r.push(element_field(style, name, list[i].as_str(), ns));
                i += 1;
            }
        },
        None => {
            let mut i: u32 = 0;
            while i < array.dim
                invariant
                    i <= array.dim,
                    array.dim_index is None,
                    want == element_fields(*style, name@, array.model(), opt_text(ns)),
                    r@.len() == i,
                    forall|j: int| 0 <= j < i ==> (#[trigger] r@[j]).model() == want[j],
                decreases array.dim - i,
            {
                let index = write_numeral(i as u64, 10);
                r.push(element_field(style, name, index.as_str(), ns));
                i += 1;
            }
        },
    }
    assert(field_models(r@) =~= want);
    r
}

/// Takes a register which may be a register array, and turns it into a list of fields where the
/// register arrays have been expanded.
pub fn expand_svd_register<N: Conventions>(
    register: &Register,
    name: Option<&str>,
    style: &N,
) -> (r: Vec<Field>)
    ensures
        field_models(r@) == register_fields(*style, register.model(), opt_text(name)),
{
    match register {
        Register::Single(info) => {
            let mut out: Vec<Field> = Vec::new();
            out.push(convert_single(style, info.name.as_str(), name));
            assert(field_models(out@) =~= register_fields(
                *style,
                register.model(),
                opt_text(name),
            ));
            out
        },
        Register::Array(info, array) => expand_array(style, info.name.as_str(), array, name),
    }
}

/// Convert a register into its field equivalent.
pub fn convert_svd_register<N: Conventions>(
    register: &Register,
    name: Option<&str>,
    style: &N,
) -> (r: Field)
    ensures
        r.model() == register_field(*style, register.model(), opt_text(name)),
{
    match register {
        Register::Single(info) => convert_single(style, info.name.as_str(), name),
        Register::Array(info, array) => convert_array(style, info.name.as_str(), array, name),
    }
}

/// Takes a cluster which may be a cluster array, and turns it into a list of fields where the
/// cluster arrays have been expanded.
pub fn expand_svd_cluster<N: Conventions>(cluster: &Cluster, style: &N) -> (r: Vec<Field>)
    ensures
        field_models(r@) == cluster_fields(*style, cluster.model()),
{
    match cluster {
        Cluster::Single(info) => {
            let mut out: Vec<Field> = Vec::new();
            out.push(convert_single(style, info.name.as_str(), None));
            assert(field_models(out@) =~= cluster_fields(*style, cluster.model()));
            out
        },
        Cluster::Array(info, array) => expand_array(style, info.name.as_str(), array, None),
    }
}

/// Convert a cluster into its field equivalent.
pub fn convert_svd_cluster<N: Conventions>(cluster: &Cluster, style: &N) -> (r: Field)
    ensures
        r.model() == cluster_field(*style, cluster.model()),
{
    match cluster {
        Cluster::Single(info) => convert_single(style, info.name.as_str(), None),
        Cluster::Array(info, array) => convert_array(style, info.name.as_str(), array, None),
    }
}

} // verus!

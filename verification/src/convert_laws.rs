use vstd::prelude::*;

use crate::convert::{
    array_name, cluster_field, cluster_fields, element_name, index_names, register_field,
    register_fields,
};
use crate::device::{ArrayModel, ClusterInfoModel, ClusterModel, RegisterInfoModel, RegisterModel};
use crate::field::{FieldModel, TypeModel};
use crate::names::Conventions;
use crate::text::{decimal, matches_at};
use crate::text_laws::{law_replaced_nothing, law_replaced_once};

verus! {

/// What occurs once is a field that has its name in snake case and its type in upper case; the
/// type of a register of a cluster stands in the module of the cluster.
pub proof fn law_field_of_one<N: Conventions>(
    style: N,
    register: RegisterInfoModel,
    cluster: ClusterInfoModel,
    module: Seq<char>,
)
    ensures
        register_field(style, RegisterModel::Single(register), None) == (FieldModel {
            ident: Some(style.snake(register.name)),
            ty: TypeModel::Path(style.upper(register.name)),
        }),
        register_field(style, RegisterModel::Single(register), Some(module)) == (FieldModel {
            ident: Some(style.snake(register.name)),
            ty: TypeModel::Path(
                "self::"@ + style.snake(module) + "::"@ + style.upper(register.name),
            ),
        }),
        cluster_field(style, ClusterModel::Single(cluster)) == (FieldModel {
            ident: Some(style.snake(cluster.name)),
            ty: TypeModel::Path(style.upper(cluster.name)),
        }),
        register_fields(style, RegisterModel::Single(register), None) == seq![
            register_field(style, RegisterModel::Single(register), None),
        ],
        register_fields(style, RegisterModel::Single(register), Some(module)) == seq![
            register_field(style, RegisterModel::Single(register), Some(module)),
        ],
        cluster_fields(style, ClusterModel::Single(cluster)) == seq![
            cluster_field(style, ClusterModel::Single(cluster)),
        ],
{
}

/// The elements of an array have the names that it gives them, else they are numbered from zero.
pub proof fn law_index_names(array: ArrayModel)
    ensures
        array.dim_index matches Some(list) ==> index_names(array) == list,
        array.dim_index is None ==> index_names(array).len() == array.dim && forall|i: int|
            0 <= i < array.dim ==> #[trigger] index_names(array)[i] == decimal(i as nat),
{
}

/// Whether `pat` stands in `a + pat + b` at one place only.
pub open spec fn stands_once(a: Seq<char>, pat: Seq<char>, b: Seq<char>) -> bool {
    forall|i: int| #[trigger] matches_at(a + pat + b, pat, i) ==> i == a.len()
}

/// In the name of an array, `[%s]` gives way to the name of an element, and to nothing in the name
/// of the whole.
pub proof fn law_bracketed_name(a: Seq<char>, b: Seq<char>, index: Seq<char>)
    requires
        stands_once(a, "[%s]"@, b),
    ensures
        element_name(a + "[%s]"@ + b, index) == a + index + b,
        array_name(a + "[%s]"@ + b) == a + b,
{
    reveal_strlit("[%s]");
    let name = a + "[%s]"@ + b;
    assert(name.subrange(a.len() as int, a.len() as int + 4) =~= "[%s]"@);
    assert(matches_at(name, "[%s]"@, a.len() as int));
    law_replaced_once(a, "[%s]"@, b, index);
    law_replaced_once(a, "[%s]"@, b, Seq::empty());
    assert(a + Seq::<char>::empty() + b =~= a + b);
}

/// In the name of an array without brackets, `%s` gives way to the name of an element, and to
/// nothing in the name of the whole.
pub proof fn law_plain_name(a: Seq<char>, b: Seq<char>, index: Seq<char>)
    requires
        stands_once(a, "%s"@, b),
        forall|i: int| !#[trigger] matches_at(a + "%s"@ + b, "[%s]"@, i),
    ensures
        element_name(a + "%s"@ + b, index) == a + index + b,
        array_name(a + "%s"@ + b) == a + b,
{
    reveal_strlit("%s");
    law_replaced_once(a, "%s"@, b, index);
    law_replaced_once(a, "%s"@, b, Seq::empty());
    assert(a + Seq::<char>::empty() + b =~= a + b);
}

/// A name without a place for the element is the name of the whole and of every element.
pub proof fn law_name_without_place(name: Seq<char>, index: Seq<char>)
    requires
        forall|i: int| !#[trigger] matches_at(name, "%s"@, i),
    ensures
        element_name(name, index) == name,
        array_name(name) == name,
{
    reveal_strlit("%s");
    reveal_strlit("[%s]");
    assert forall|i: int| !#[trigger] matches_at(name, "[%s]"@, i) by {
        if matches_at(name, "[%s]"@, i) {
            assert(name.subrange(i + 1, i + 3) =~= name.subrange(i, i + 4).subrange(1, 3));
            assert("[%s]"@.subrange(1, 3) =~= "%s"@);
            assert(matches_at(name, "%s"@, i + 1));
        }
    }
    law_replaced_nothing(name, "%s"@, index);
    law_replaced_nothing(name, "%s"@, Seq::empty());
}

/// Arrays of registers and of clusters have a field for the whole, of an array type with their
/// length, and a field for each element, named by its index; all of them are of the type that the
/// whole is named by.
pub proof fn law_fields_of_array<N: Conventions>(
    style: N,
    register: RegisterInfoModel,
    cluster: ClusterInfoModel,
    array: ArrayModel,
    i: int,
)
    ensures
        ({
            let whole = register_field(style, RegisterModel::Array(register, array), None);
            &&& whole.ident == Some(style.snake(array_name(register.name)))
            &&& whole.ty == TypeModel::Array(
                style.upper(array_name(register.name)),
                array.dim as nat,
            )
        }),
        ({
            let whole = cluster_field(style, ClusterModel::Array(cluster, array));
            &&& whole.ident == Some(style.snake(array_name(cluster.name)))
            &&& whole.ty == TypeModel::Array(
                style.upper(array_name(cluster.name)),
                array.dim as nat,
            )
        }),
        ({
            let parts = register_fields(style, RegisterModel::Array(register, array), None);
            &&& parts.len() == index_names(array).len()
            &&& 0 <= i < parts.len() ==> parts[i].ident == Some(
                style.snake(element_name(register.name, index_names(array)[i])),
            ) && parts[i].ty == TypeModel::Path(style.upper(array_name(register.name)))
        }),
        ({
            let parts = cluster_fields(style, ClusterModel::Array(cluster, array));
            &&& parts.len() == index_names(array).len()
            &&& 0 <= i < parts.len() ==> parts[i].ident == Some(
                style.snake(element_name(cluster.name, index_names(array)[i])),
            ) && parts[i].ty == TypeModel::Path(style.upper(array_name(cluster.name)))
        }),
{
}

/// Within a cluster, the types of an array of registers stand in the module of the cluster, and
/// nothing else changes.
pub proof fn law_array_in_module<N: Conventions>(
    style: N,
    register: RegisterInfoModel,
    array: ArrayModel,
    module: Seq<char>,
    i: int,
)
    ensures
        ({
            let ty = "self::"@ + style.snake(module) + "::"@ + style.upper(
                array_name(register.name),
            );
            let model = RegisterModel::Array(register, array);
            let whole = register_field(style, model, Some(module));
            let parts = register_fields(style, model, Some(module));
            let plain = register_fields(style, model, None);
            &&& whole.ident == register_field(style, model, None).ident
            &&& whole.ty == TypeModel::Array(ty, array.dim as nat)
            &&& parts.len() == plain.len()
            &&& 0 <= i < parts.len() ==> parts[i].ident == plain[i].ident && parts[i].ty
                == TypeModel::Path(ty)
        }),
{
}

} // verus!

use vstd::prelude::*;

verus! {

pub const BITS_PER_BYTE: u32 = 8;

/// The type of a block field: a named type, or an array of a named type.
#[derive(Debug)]
pub enum FieldType {
    Path(String),
    Array(String, u64),
}

/// A public struct field: its name, if it has one, and its type.
#[derive(Debug)]
pub struct Field {
    pub ident: Option<String>,
    pub ty: FieldType,
}

/// The mathematical model of a [`FieldType`].
pub ghost enum TypeModel {
    Path(Seq<char>),
    Array(Seq<char>, nat),
}

/// The mathematical model of a [`Field`].
pub ghost struct FieldModel {
    pub ident: Option<Seq<char>>,
    pub ty: TypeModel,
}

/// The characters of a string that may be missing.
pub open spec fn opt_chars(s: Option<String>) -> Option<Seq<char>> {
    match s {
        Some(s) => Some(s@),
        None => None,
    }
}

impl FieldType {
    pub open spec fn model(self) -> TypeModel {
        match self {
            FieldType::Path(name) => TypeModel::Path(name@),
            FieldType::Array(name, len) => TypeModel::Array(name@, len as nat),
        }
    }
}

impl Field {
    pub open spec fn model(self) -> FieldModel {
        FieldModel { ident: opt_chars(self.ident), ty: self.ty.model() }
    }
}

impl Clone for FieldType {
    fn clone(&self) -> (r: FieldType)
        ensures
            r.model() == self.model(),
    {
        match self {
            FieldType::Path(name) => FieldType::Path(name.clone()),
            FieldType::Array(name, len) => FieldType::Array(name.clone(), *len),
        }
    }
}

impl Clone for Field {
    fn clone(&self) -> (r: Field)
        ensures
            r.model() == self.model(),
    {
        let ident = match &self.ident {
            Some(name) => Some(name.clone()),
            None => None,
        };
        Field { ident, ty: self.ty.clone() }
    }
}

/// A field of a register block: the field, its description, the address where it starts, counted
/// in bytes from the start of the block, and its size in bits.
#[derive(Debug)]
pub struct RegisterBlockField {
    pub field: Field,
    pub description: String,
    pub offset: u32,
    pub size: u32,
}

/// The mathematical model of a [`RegisterBlockField`].
pub ghost struct BlockFieldModel {
    pub field: FieldModel,
    pub description: Seq<char>,
    pub offset: int,
    pub size: int,
}

impl BlockFieldModel {
    /// The first byte behind the field.
    pub open spec fn end(self) -> int {
        self.offset + self.size / BITS_PER_BYTE as int
    }

    /// Whether the byte at `address` belongs to the field.
    pub open spec fn covers(self, address: int) -> bool {
        self.offset <= address < self.end()
    }
}

impl RegisterBlockField {
    pub open spec fn model(self) -> BlockFieldModel {
        BlockFieldModel {
            field: self.field.model(),
            description: self.description@,
            offset: self.offset as int,
            size: self.size as int,
        }
    }
}

impl Clone for RegisterBlockField {
    fn clone(&self) -> (r: RegisterBlockField)
        ensures
            r.model() == self.model(),
    {
        RegisterBlockField {
            field: self.field.clone(),
            description: self.description.clone(),
            offset: self.offset,
            size: self.size,
        }
    }
}

/// The models of a list of block fields.
pub open spec fn block_fields(list: Seq<RegisterBlockField>) -> Seq<BlockFieldModel> {
    Seq::new(list.len(), |i: int| list[i].model())
}

/// A field of whole bytes takes as many bytes as it has, from its offset on; bits that are left
/// over take none.
pub proof fn law_field_end(f: BlockFieldModel)
    requires
        f.size >= 0,
    ensures
        8 * (f.end() - f.offset) <= f.size < 8 * (f.end() - f.offset) + 8,
        f.covers(f.offset) <==> f.size >= 8,
        !f.covers(f.end()),
        !f.covers(f.offset - 1),
{
}

} // verus!

use quote::{ToTokens, Tokens};
use vstd::prelude::*;

use crate::field::{Field, FieldType};
use crate::text::{decimal, numeral};

verus! {

/// `quote::Tokens`, the text of generated code.
#[verifier::external_type_specification]
#[verifier::external_body]
pub struct ExTokens(quote::Tokens);

/// The text that tokens hold.
pub uninterp spec fn tokens_text(tokens: Tokens) -> Seq<char>;

/// `text` followed by `token`, with a space between them unless one of them is empty.
pub open spec fn glued(text: Seq<char>, token: Seq<char>) -> Seq<char> {
    if text.len() > 0 && token.len() > 0 {
        text + seq![' '] + token
    } else {
        text + token
    }
}

/// The pieces one after the other, the empty ones left out, with one space between two of them.
pub open spec fn spaced(pieces: Seq<Seq<char>>) -> Seq<char>
    decreases pieces.len(),
{
    if pieces.len() == 0 {
        Seq::empty()
    } else {
        glued(spaced(pieces.drop_last()), pieces.last())
    }
}

/// `Tokens::new` of quote: tokens that hold no text.
pub assume_specification[ Tokens::new ]() -> (tokens: Tokens)
    ensures
        tokens_text(tokens) == Seq::<char>::empty(),
;

/// `Tokens::as_str` of quote: the text that the tokens hold.
pub assume_specification[ Tokens::as_str ](tokens: &Tokens) -> (s: &str)
    ensures
        s@ == tokens_text(*tokens),
;

/// `Tokens::append` of quote: the token goes behind the text, after a space if neither of the two
/// is empty.
#[verifier::external_body]
pub(crate) fn append(tokens: &mut Tokens, token: &str)
    ensures
        tokens_text(*final(tokens)) == glued(tokens_text(*old(tokens)), token@),
{
    tokens.append(token);
}

/// A character as it is written inside a string literal.
pub open spec fn escaped(c: char) -> Seq<char> {
    if c == '\0' {
        seq!['\\', '0']
    } else if c == '\t' {
        seq!['\\', 't']
    } else if c == '\r' {
        seq!['\\', 'r']
    } else if c == '\n' {
        seq!['\\', 'n']
    } else if c == '"' {
        seq!['\\', '"']
    } else if c == '\\' {
        seq!['\\', '\\']
    } else if ' ' <= c <= '~' {
        seq![c]
    } else {
        seq!['\\', 'u', '{'] + numeral(c as nat, 16) + seq!['}']
    }
}

/// The characters of `s` as they are written inside a string literal.
pub open spec fn escaped_text(s: Seq<char>) -> Seq<char>
    decreases s.len(),
{
    if s.len() == 0 {
        Seq::empty()
    } else {
        escaped_text(s.drop_last()) + escaped(s.last())
    }
}

/// `s` as a string literal.
pub open spec fn quoted(s: Seq<char>) -> Seq<char> {
    seq!['"'] + escaped_text(s) + seq!['"']
}

/// `<str as ToTokens>::to_tokens` of quote: a string becomes one token, a string literal. The
/// null character is written `\0`, a single quote stands for itself, and every other character
/// is written as `char::escape_default` of std writes it.
#[verifier::external_body]
pub(crate) fn string_literal(s: &str) -> (r: String)
    ensures
        r@ == quoted(s@),
{
    let mut tokens = Tokens::new();
    s.to_tokens(&mut tokens);
    tokens.into_string()
}

/// `<usize as ToTokens>::to_tokens` of quote: a number becomes one token, its decimal digits
/// followed by the suffix `usize`.
#[verifier::external_body]
pub(crate) fn usize_literal(n: usize) -> (r: String)
    ensures
        r@ == decimal(n as nat) + "usize"@,
{
    let mut tokens = Tokens::new();
    n.to_tokens(&mut tokens);
    tokens.into_string()
}

/// The tokens of a type path with one segment; a segment without a name is written `< >`.
pub open spec fn path_pieces(name: Seq<char>) -> Seq<Seq<char>> {
    if name.len() == 0 {
        seq!["<"@, ">"@]
    } else {
        seq![name]
    }
}

/// The tokens of a field's type.
pub open spec fn type_pieces(ty: crate::field::TypeModel) -> Seq<Seq<char>> {
    match ty {
        crate::field::TypeModel::Path(name) => path_pieces(name),
        crate::field::TypeModel::Array(name, len) => seq!["["@] + path_pieces(name) + seq![
            ";"@,
            decimal(len),
            "]"@,
        ],
    }
}

/// A public field as it is written in a struct: visibility, name and colon if it has a name, type.
pub open spec fn field_text(field: crate::field::FieldModel) -> Seq<char> {
    let name = match field.ident {
        Some(ident) => seq![ident, ":"@],
        None => seq![],
    };
    spaced(seq!["pub"@] + name + type_pieces(field.ty))
}

/// `<syn::Field as ToTokens>::to_tokens` of syn, for a public field without attributes: the
/// tokens `pub`, the name and a colon where there is a name, and the type. A path of one segment
/// is the segment's name, or `< >` where that is empty; an array type is `[`, the element type,
/// `;`, the length in decimal digits, and `]`.
#[verifier::external_body]
pub(crate) fn field_tokens(field: &Field) -> (r: String)
    ensures
        r@ == field_text(field.model()),
{
    let ident = field.ident.as_ref().map(|name| syn::Ident::new(name.as_str()));
    let ty = match &field.ty {
        FieldType::Path(name) => syn::Ty::Path(None, name.as_str().into()),
        FieldType::Array(name, len) => syn::Ty::Array(
            Box::new(syn::Ty::Path(None, name.as_str().into())),
            syn::ConstExpr::Lit(syn::Lit::Int(*len, syn::IntTy::Unsuffixed)),
        ),
    };
    let mut tokens = Tokens::new();
    syn::Field { ident, vis: syn::Visibility::Public, attrs: vec![], ty }.to_tokens(&mut tokens);
    tokens.into_string()
}

/// The characters of each string of a list.
pub open spec fn strs(list: Seq<&str>) -> Seq<Seq<char>> {
    Seq::new(list.len(), |i: int| list[i]@)
}

/// Puts the pieces together, with one space between two of them.
pub fn put_together(pieces: &Vec<&str>) -> (tokens: Tokens)
    ensures
        tokens_text(tokens) == spaced(strs(pieces@)),
{
    let mut tokens = Tokens::new();
    let mut i: usize = 0;
    while i < pieces.len()
        invariant
            i <= pieces@.len(),
            tokens_text(tokens) == spaced(strs(pieces@).take(i as int)),
        decreases pieces@.len() - i,
    {
        append(&mut tokens, pieces[i]);
        i += 1;
        assert(strs(pieces@).take(i as int).drop_last() =~= strs(pieces@).take(i - 1));
    }
    assert(strs(pieces@).take(i as int) =~= strs(pieces@));
    tokens
}

} // verus!

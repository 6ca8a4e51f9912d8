use vstd::prelude::*;

use crate::field::{FieldModel, TypeModel};
use crate::text::decimal;
use crate::text_laws::law_numeral;
use crate::tokens::{escaped_text, field_text, glued, quoted, spaced};

verus! {

/// Gluing puts one space between two texts; an empty text leaves the other as it is, and it does
/// not matter which of three texts are glued first.
pub proof fn law_glued(a: Seq<char>, b: Seq<char>, c: Seq<char>)
    ensures
        a.len() > 0 && b.len() > 0 ==> glued(a, b) == a + seq![' '] + b,
        glued(a, Seq::empty()) == a,
        glued(Seq::empty(), b) == b,
        glued(glued(a, b), c) == glued(a, glued(b, c)),
{
    assert(glued(a, Seq::empty()) =~= a);
    assert(glued(Seq::empty(), b) =~= b);
    assert(glued(glued(a, b), c) =~= glued(a, glued(b, c)));
}

/// Pieces can be put together in two parts. No piece is nothing, and one piece is that piece.
pub proof fn law_spaced(a: Seq<Seq<char>>, b: Seq<Seq<char>>, piece: Seq<char>)
    ensures
        spaced(a + b) == glued(spaced(a), spaced(b)),
        spaced(Seq::empty()) == Seq::<char>::empty(),
        spaced(seq![piece]) == piece,
    decreases b.len(),
{
    assert(seq![piece].drop_last() =~= Seq::<Seq<char>>::empty());
    reveal_with_fuel(spaced, 2);
    law_glued(spaced(a), piece, piece);
    assert(spaced(seq![piece]) =~= piece);
    if b.len() == 0 {
        assert(a + b =~= a);
        assert(glued(spaced(a), spaced(b)) =~= spaced(a));
    } else {
        let front = b.drop_last();
        law_spaced(a, front, piece);
        assert((a + b).drop_last() =~= a + front);
        law_glued(spaced(a), spaced(front), b.last());
    }
}

/// A named field of a named type is written `pub name : Type`.
pub proof fn law_field_of_path(ident: Seq<char>, ty: Seq<char>)
    requires
        ident.len() > 0,
        ty.len() > 0,
    ensures
        field_text(FieldModel { ident: Some(ident), ty: TypeModel::Path(ty) }) == "pub"@ + seq![
            ' ',
        ] + ident + seq![' '] + ":"@ + seq![' '] + ty,
{
    reveal_strlit("pub");
    reveal_strlit(":");
    let pieces = seq!["pub"@, ident, ":"@, ty];
    assert(seq!["pub"@] + seq![ident, ":"@] + seq![ty] =~= pieces);
    lemma_four("pub"@, ident, ":"@, ty);
}

/// A named field of an array type is written `pub name : [ Type ; length ]`.
pub proof fn law_field_of_array(ident: Seq<char>, ty: Seq<char>, len: nat)
    requires
        ident.len() > 0,
        ty.len() > 0,
    ensures
        field_text(FieldModel { ident: Some(ident), ty: TypeModel::Array(ty, len) }) == "pub"@
            + seq![' '] + ident + seq![' '] + ":"@ + seq![' '] + "["@ + seq![' '] + ty + seq![' ']
            + ";"@ + seq![' '] + decimal(len) + seq![' '] + "]"@,
{
    reveal_strlit("pub");
    reveal_strlit(":");
    reveal_strlit("[");
    reveal_strlit(";");
    reveal_strlit("]");
    law_numeral(len, 10);
    let front = seq!["pub"@, ident, ":"@, "["@];
    let back = seq![ty, ";"@, decimal(len), "]"@];
    assert(seq!["pub"@] + seq![ident, ":"@] + (seq!["["@] + seq![ty] + seq![
        ";"@,
        decimal(len),
        "]"@,
    ]) =~= front + back);
    law_spaced(front, back, ident);
    lemma_four("pub"@, ident, ":"@, "["@);
    lemma_four(ty, ";"@, decimal(len), "]"@);
    assert(glued(spaced(front), spaced(back)) =~= "pub"@ + seq![' '] + ident + seq![' '] + ":"@
        + seq![' '] + "["@ + seq![' '] + ty + seq![' '] + ";"@ + seq![' '] + decimal(len) + seq![' ']
        + "]"@);
}

proof fn lemma_four(a: Seq<char>, b: Seq<char>, c: Seq<char>, d: Seq<char>)
    requires
        a.len() > 0,
        b.len() > 0,
        c.len() > 0,
        d.len() > 0,
    ensures
        spaced(seq![a, b, c, d]) == a + seq![' '] + b + seq![' '] + c + seq![' '] + d,
{
    let s = seq![a, b, c, d];
    assert(s.drop_last() =~= seq![a, b, c]);
    assert(seq![a, b, c].drop_last() =~= seq![a, b]);
    assert(seq![a, b].drop_last() =~= seq![a]);
    law_spaced(Seq::empty(), Seq::empty(), a);
    assert(spaced(seq![a, b]) == a + seq![' '] + b);
    assert(spaced(seq![a, b, c]) == a + seq![' '] + b + seq![' '] + c);
}

/// A string literal of printable characters is the text in quotation marks, with a backslash before
/// each quotation mark and each backslash; characters are written one after the other.
pub proof fn law_quoted(a: Seq<char>, b: Seq<char>, c: char)
    ensures
        quoted(a + b) == seq!['"'] + escaped_text(a) + escaped_text(b) + seq!['"'],
        escaped_text(a + b) == escaped_text(a) + escaped_text(b),
        escaped_text(Seq::empty()) == Seq::<char>::empty(),
        ' ' <= c <= '~' && c != '"' && c != '\\' ==> escaped_text(seq![c]) == seq![c],
        c == '"' || c == '\\' ==> escaped_text(seq![c]) == seq!['\\', c],
    decreases b.len(),
{
    reveal_with_fuel(escaped_text, 2);
    assert(seq![c].drop_last() =~= Seq::<char>::empty());
    assert(escaped_text(seq![c]) =~= crate::tokens::escaped(c));
    if b.len() == 0 {
        assert(a + b =~= a);
        assert(escaped_text(a + b) =~= escaped_text(a) + escaped_text(b));
    } else {
        law_quoted(a, b.drop_last(), c);
        assert((a + b).drop_last() =~= a + b.drop_last());
        assert(escaped_text(a + b) =~= escaped_text(a) + escaped_text(b));
    }
    assert(quoted(a + b) =~= seq!['"'] + escaped_text(a) + escaped_text(b) + seq!['"']);
}

} // verus!

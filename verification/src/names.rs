use vstd::prelude::*;

use crate::text::{chars_of, numeral, pad_zeros, write_numeral, zero_padded};
use crate::tokens::{glued, spaced, strs};

verus! {

/// How generated code spells names, descriptions and addresses.
///
/// The layout of a block rests on none of these choices: it is proved for every type that
/// implements this trait. [`SvdConventions`] is the usual one.
pub trait Conventions {
    /// The name of a module or a struct field.
    spec fn snake(&self, name: Seq<char>) -> Seq<char>;

    /// The name of a type.
    spec fn upper(&self, name: Seq<char>) -> Seq<char>;

    /// The text of a documentation comment.
    spec fn respaced(&self, text: Seq<char>) -> Seq<char>;

    /// An address.
    spec fn address(&self, n: u32) -> Seq<char>;

    fn to_sanitized_snake_case(&self, name: &str) -> (r: String)
        ensures
            r@ == self.snake(name@),
    ;

    fn to_sanitized_upper_case(&self, name: &str) -> (r: String)
        ensures
            r@ == self.upper(name@),
    ;

    fn respace(&self, text: &str) -> (r: String)
        ensures
            r@ == self.respaced(text@),
    ;

    fn hex(&self, n: u32) -> (r: String)
        ensures
            r@ == self.address(n),
    ;
}

/// Identifiers in snake case and upper case, with an underscore where a name is a keyword or starts
/// with a digit, descriptions with single spaces, and addresses in hexadecimal.
#[derive(Clone, Copy, Debug)]
pub struct SvdConventions;

/// `case::to_snake_case` of inflections, by its result.
pub uninterp spec fn snake_case_of(s: Seq<char>) -> Seq<char>;

/// `case::to_upper_case` of inflections, by its result.
pub uninterp spec fn upper_case_of(s: Seq<char>) -> Seq<char>;

/// `case::to_snake_case` of inflections: words are separated by underscores, and letters are in
/// lower case. The result depends on the argument alone; what it is for a given name rests on the
/// tables of Unicode and is not stated.
#[verifier::external_body]
fn to_snake_case(s: &str) -> (r: String)
    ensures
        r@ == snake_case_of(s@),
{
    inflections::case::to_snake_case(s)
}

/// `case::to_upper_case` of inflections: letters are in upper case, and all else stays. The result
/// depends on the argument alone; what it is for a given name rests on the tables of Unicode and
/// is not stated.
#[verifier::external_body]
fn to_upper_case(s: &str) -> (r: String)
    ensures
        r@ == upper_case_of(s@),
{
    inflections::case::to_upper_case(s)
}

/// Characters that vendors put into names and that no identifier can hold.
pub open spec fn blacklisted(c: char) -> bool {
    c == '(' || c == ')' || c == '[' || c == ']'
}

/// `name` without the characters that no identifier can hold.
pub open spec fn stripped(name: Seq<char>) -> Seq<char> {
    name.filter(|c: char| !blacklisted(c))
}

pub open spec fn starts_with_digit(s: Seq<char>) -> bool {
    s.len() > 0 && '0' <= s[0] <= '9'
}

/// The words that cannot be used as the name of a field or a module.
pub open spec fn keywords() -> Seq<Seq<char>> {
    seq![
        "abstract"@, "alignof"@, "as"@, "become"@, "bit"@, "bits"@, "box"@, "break"@,
        "clear_bit"@, "const"@, "continue"@, "crate"@, "do"@, "else"@, "enum"@, "extern"@,
        "false"@, "final"@, "fn"@, "for"@, "if"@, "impl"@, "in"@, "let"@, "loop"@, "macro"@,
        "match"@, "mod"@, "move"@, "mut"@, "offsetof"@, "override"@, "priv"@, "proc"@, "pub"@,
        "pure"@, "ref"@, "return"@, "self"@, "set_bit"@, "sizeof"@, "static"@, "struct"@,
        "super"@, "trait"@, "true"@, "try"@, "type"@, "typeof"@, "unsafe"@, "unsized"@, "use"@,
        "virtual"@, "where"@, "while"@, "yield"@,
    ]
}

/// The identifier for a name in snake case: `cased` is `plain` in snake case.
pub open spec fn safe_snake(plain: Seq<char>, cased: Seq<char>) -> Seq<char> {
    if starts_with_digit(plain) {
        seq!['_'] + cased
    } else if keywords().contains(cased) {
        cased + seq!['_']
    } else {
        cased
    }
}

/// The identifier for a name in upper case: `cased` is `plain` in upper case.
pub open spec fn safe_upper(plain: Seq<char>, cased: Seq<char>) -> Seq<char> {
    if starts_with_digit(plain) {
        seq!['_'] + cased
    } else {
        cased
    }
}

proof fn lemma_keywords(word: Seq<char>)
    requires
        keywords().contains(word),
    ensures
        word.len() > 0,
        word[0] != '_',
        word.last() != '_',
{
    reveal_strlit("abstract");
    reveal_strlit("alignof");
    reveal_strlit("as");
    reveal_strlit("become");
    reveal_strlit("bit");
    reveal_strlit("bits");
    reveal_strlit("box");
    reveal_strlit("break");
    reveal_strlit("clear_bit");
    reveal_strlit("const");
    reveal_strlit("continue");
    reveal_strlit("crate");
    reveal_strlit("do");
    reveal_strlit("else");
    reveal_strlit("enum");
    reveal_strlit("extern");
    reveal_strlit("false");
    reveal_strlit("final");
    reveal_strlit("fn");
    reveal_strlit("for");
    reveal_strlit("if");
    reveal_strlit("impl");
    reveal_strlit("in");
    reveal_strlit("let");
    reveal_strlit("loop");
    reveal_strlit("macro");
    reveal_strlit("match");
    reveal_strlit("mod");
    reveal_strlit("move");
    reveal_strlit("mut");
    reveal_strlit("offsetof");
    reveal_strlit("override");
    reveal_strlit("priv");
    reveal_strlit("proc");
    reveal_strlit("pub");
    reveal_strlit("pure");
    reveal_strlit("ref");
    reveal_strlit("return");
    reveal_strlit("self");
    reveal_strlit("set_bit");
    reveal_strlit("sizeof");
    reveal_strlit("static");
    reveal_strlit("struct");
    reveal_strlit("super");
    reveal_strlit("trait");
    reveal_strlit("true");
    reveal_strlit("try");
    reveal_strlit("type");
    reveal_strlit("typeof");
    reveal_strlit("unsafe");
    reveal_strlit("unsized");
    reveal_strlit("use");
    reveal_strlit("virtual");
    reveal_strlit("where");
    reveal_strlit("while");
    reveal_strlit("yield");
}

/// The identifier for a name is never a keyword, and starts with an underscore where the name
/// starts with a digit.
pub proof fn law_safe_snake(plain: Seq<char>, cased: Seq<char>)
    ensures
        !keywords().contains(safe_snake(plain, cased)),
        starts_with_digit(plain) ==> safe_snake(plain, cased)[0] == '_',
{
    let r = safe_snake(plain, cased);
    if keywords().contains(r) {
        lemma_keywords(r);
        if !starts_with_digit(plain) && keywords().contains(cased) {
            assert(r.last() == '_');
        }
    }
}

fn strip(name: &str) -> (r: String)
    ensures
        r@ == stripped(name@),
{
    let chars = chars_of(name);
    let mut r = String::new();
    let mut i: usize = 0;
    let ghost keep = |c: char| !blacklisted(c);
    reveal(Seq::filter);
    while i < chars.len()
        invariant
            i <= chars@.len(),
            chars@ == name@,
            keep == (|c: char| !blacklisted(c)),
            r@ == name@.take(i as int).filter(keep),
        decreases chars@.len() - i,
    {
        let c = chars[i];
        proof {
            reveal(Seq::filter);
            assert(name@.take(i + 1).drop_last() =~= name@.take(i as int));
            assert(name@.take(i + 1).last() == c);
        }
        if c != '(' && c != ')' && c != '[' && c != ']' {
            r.push(c);
        }
        i += 1;
    }
    assert(name@.take(i as int) =~= name@);
    r
}

fn digit_first(s: &str) -> (b: bool)
    ensures
        b == starts_with_digit(s@),
{
    let chars = chars_of(s);
    chars.len() > 0 && '0' <= chars[0] && chars[0] <= '9'
}

fn is_keyword(s: &str) -> (b: bool)
    ensures
        b == keywords().contains(s@),
{
    let list: Vec<&str> = vec![
        "abstract", "alignof", "as", "become", "bit", "bits", "box", "break",
        "clear_bit", "const", "continue", "crate", "do", "else", "enum", "extern",
        "false", "final", "fn", "for", "if", "impl", "in", "let", "loop", "macro",
        "match", "mod", "move", "mut", "offsetof", "override", "priv", "proc", "pub",
        "pure", "ref", "return", "self", "set_bit", "sizeof", "static", "struct",
        "super", "trait", "true", "try", "type", "typeof", "unsafe", "unsized", "use",
        "virtual", "where", "while", "yield",
    ];
    assert(strs(list@) =~= keywords());
    let word = s.to_owned();
    let mut i: usize = 0;
    while i < list.len()
        invariant
            i <= list@.len(),
            strs(list@) == keywords(),
            word@ == s@,
            forall|j: int| 0 <= j < i ==> #[trigger] keywords()[j] != s@,
        decreases list@.len() - i,
    {
        assert(keywords()[i as int] == list@[i as int]@);
        if list[i].to_owned() == word {
            return true;
        }
        i += 1;
    }
    false
}

/// Makes an identifier of a name in snake case.
pub fn protect_snake(plain: &str, cased: &str) -> (r: String)
    ensures
        r@ == safe_snake(plain@, cased@),
{
    let mut r = String::new();
    if digit_first(plain) {
        r.push('_');
        r.append(cased);
        assert(r@ =~= seq!['_'] + cased@);
    } else if is_keyword(cased) {
        r.append(cased);
        r.push('_');
        assert(r@ =~= cased@ + seq!['_']);
    } else {
        r.append(cased);
        assert(r@ =~= cased@);
    }
    r
}

/// Makes an identifier of a name in upper case.
pub fn protect_upper(plain: &str, cased: &str) -> (r: String)
    ensures
        r@ == safe_upper(plain@, cased@),
{
    let mut r = String::new();
    if digit_first(plain) {
        r.push('_');
    }
    r.append(cased);
    assert(r@ =~= safe_upper(plain@, cased@));
    r
}

/// White space, as Unicode has it.
pub open spec fn is_space(c: char) -> bool {
    ||| '\u{9}' <= c <= '\u{d}'
    ||| c == ' '
    ||| c == '\u{85}'
    ||| c == '\u{a0}'
    ||| c == '\u{1680}'
    ||| '\u{2000}' <= c <= '\u{200a}'
    ||| c == '\u{2028}'
    ||| c == '\u{2029}'
    ||| c == '\u{202f}'
    ||| c == '\u{205f}'
    ||| c == '\u{3000}'
}

/// The words of a text: its longest runs without white space.
pub open spec fn words(s: Seq<char>) -> Seq<Seq<char>>
    decreases s.len(),
{
    if s.len() == 0 {
        Seq::empty()
    } else {
        let before = words(s.drop_last());
        if is_space(s.last()) {
            before
        } else if s.len() >= 2 && !is_space(s[s.len() - 2]) {
            before.drop_last().push(before.last().push(s.last()))
        } else {
            before.push(seq![s.last()])
        }
    }
}

fn space(c: char) -> (b: bool)
    ensures
        b == is_space(c),
{
    ('\u{9}' <= c && c <= '\u{d}') || c == ' ' || c == '\u{85}' || c == '\u{a0}' || c == '\u{1680}'
        || ('\u{2000}' <= c && c <= '\u{200a}') || c == '\u{2028}' || c == '\u{2029}' || c
        == '\u{202f}' || c == '\u{205f}' || c == '\u{3000}'
}

proof fn lemma_words_not_empty(s: Seq<char>)
    ensures
        forall|i: int| 0 <= i < words(s).len() ==> (#[trigger] words(s)[i]).len() > 0,
        s.len() > 0 && !is_space(s.last()) ==> words(s).len() > 0,
    decreases s.len(),
{
    if s.len() > 0 {
        lemma_words_not_empty(s.drop_last());
        let before = words(s.drop_last());
        assert forall|i: int|
            0 <= i < words(s).len() implies (#[trigger] words(s)[i]).len() > 0 by {
            if i < before.len() {
                assert(before[i].len() > 0);
            }
        }
    }
}

proof fn lemma_spaced_empty(pieces: Seq<Seq<char>>)
    requires
        forall|i: int| 0 <= i < pieces.len() ==> (#[trigger] pieces[i]).len() > 0,
    ensures
        spaced(pieces).len() == 0 <==> pieces.len() == 0,
{
    if pieces.len() > 0 {
        assert(pieces.last().len() > 0);
    }
}

/// A text with its words separated by single spaces, and nothing around them.
pub fn respace_words(text: &str) -> (r: String)
    ensures
        r@ == spaced(words(text@)),
{
    let chars = chars_of(text);
    let mut r = String::new();
    let mut i: usize = 0;
    while i < chars.len()
        invariant
            i <= chars@.len(),
            chars@ == text@,
            r@ == spaced(words(text@.take(i as int))),
        decreases chars@.len() - i,
    {
        let c = chars[i];
        let ghost done = text@.take(i as int);
        let ghost more = text@.take(i + 1);
        let ghost before = r@;
        proof {
            assert(more.drop_last() =~= done);
            lemma_words_not_empty(done);
            lemma_spaced_empty(words(done));
        }
        if !space(c) {
            if i > 0 && !space(chars[i - 1]) {
                r.push(c);
                proof {
                    let w = words(done);
                    let grown = w.drop_last().push(w.last().push(c));
                    assert(words(more) == grown);
                    assert(grown.drop_last() =~= w.drop_last());
                    assert(w.last().len() > 0);
                    assert(glued(spaced(w.drop_last()), w.last().push(c)) =~= before.push(c));
                }
            } else {
                if !r.as_str().is_empty() {
                    r.push(' ');
                }
                r.push(c);
                proof {
                    let w = words(done);
                    assert(words(more) == w.push(seq![c]));
                    assert(w.push(seq![c]).drop_last() =~= w);
                    assert(glued(spaced(w), seq![c]) =~= r@);
                }
            }
        }
        i += 1;
    }
    assert(text@.take(i as int) =~= text@);
    r
}

/// `n` in hexadecimal with the two halves separated; no more digits than two, four or eight of
/// them, and zero as a single digit.
pub open spec fn separated_hex(n: u32) -> Seq<char> {
    let high = zero_padded(numeral((n / 0x1_0000) as nat, 16), 4);
    let low = zero_padded(numeral((n % 0x1_0000) as nat, 16), 4);
    if n >= 0x1_0000 {
        "0x"@ + high + "_"@ + low
    } else if n >= 0x100 {
        "0x"@ + low
    } else if n > 0 {
        "0x"@ + zero_padded(numeral(n as nat, 16), 2)
    } else {
        "0"@
    }
}

impl Conventions for SvdConventions {
    open spec fn snake(&self, name: Seq<char>) -> Seq<char> {
        safe_snake(stripped(name), snake_case_of(stripped(name)))
    }

    open spec fn upper(&self, name: Seq<char>) -> Seq<char> {
        safe_upper(stripped(name), upper_case_of(stripped(name)))
    }

    open spec fn respaced(&self, text: Seq<char>) -> Seq<char> {
        spaced(words(text))
    }

    open spec fn address(&self, n: u32) -> Seq<char> {
        separated_hex(n)
    }

    fn to_sanitized_snake_case(&self, name: &str) -> (r: String) {
        let plain = strip(name);
        let cased = to_snake_case(plain.as_str());
        protect_snake(plain.as_str(), cased.as_str())
    }

    fn to_sanitized_upper_case(&self, name: &str) -> (r: String) {
        let plain = strip(name);
        let cased = to_upper_case(plain.as_str());
        protect_upper(plain.as_str(), cased.as_str())
    }

    fn respace(&self, text: &str) -> (r: String) {
        respace_words(text)
    }

    fn hex(&self, n: u32) -> (r: String) {
        let low = n % 0x1_0000;
        let mut r = "0x".to_owned();
        if n >= 0x1_0000 {
            r.append(pad_zeros(write_numeral((n / 0x1_0000) as u64, 16).as_str(), 4).as_str());
            r.append("_");
            r.append(pad_zeros(write_numeral(low as u64, 16).as_str(), 4).as_str());
        } else if n >= 0x100 {
            r.append(pad_zeros(write_numeral(low as u64, 16).as_str(), 4).as_str());
        } else if n > 0 {
            r.append(pad_zeros(write_numeral(n as u64, 16).as_str(), 2).as_str());
        } else {
            r = "0".to_owned();
        }
        r
    }
}

} // verus!

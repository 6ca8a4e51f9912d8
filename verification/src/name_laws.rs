use vstd::prelude::*;

use crate::names::{
    blacklisted, is_space, keywords, snake_case_of, stripped, upper_case_of, words, Conventions,
    SvdConventions,
};
use crate::text::{numeral, zero_padded};
use crate::text_laws::{all_digits, law_numeral, law_zero_padded, reading, worth};
use crate::tokens::spaced;

verus! {

/// White space separates words: what stands on both sides of it are the words of both sides.
pub proof fn law_words_apart(a: Seq<char>, c: char, b: Seq<char>)
    requires
        is_space(c),
    ensures
        words(a + seq![c] + b) == words(a) + words(b),
    decreases b.len(),
{
    let s = a + seq![c] + b;
    if b.len() == 0 {
        assert(s =~= a.push(c));
        assert(s.drop_last() =~= a);
        assert(words(a) + words(b) =~= words(a));
    } else {
        let x = b.last();
        let front = b.drop_last();
        law_words_apart(a, c, front);
        assert(s.drop_last() =~= a + seq![c] + front);
        assert(s.last() == x);
        if is_space(x) {
        } else if front.len() > 0 && !is_space(front.last()) {
            lemma_words(front);
            assert(s[s.len() - 2] == front.last());
            assert(b[b.len() - 2] == front.last());
            let all = words(a) + words(front);
            assert(all.last() == words(front).last());
            assert(all.drop_last().push(all.last().push(x)) =~= words(a) + words(
                front,
            ).drop_last().push(words(front).last().push(x)));
        } else {
            if front.len() > 0 {
                assert(s[s.len() - 2] == front.last());
                assert(b[b.len() - 2] == front.last());
            } else {
                assert(s[s.len() - 2] == c);
            }
            assert((words(a) + words(front)).push(seq![x]) =~= words(a) + words(front).push(
                seq![x],
            ));
        }
    }
}

/// A text without white space is one word; nothing has no words.
pub proof fn law_one_word(s: Seq<char>)
    requires
        forall|i: int| 0 <= i < s.len() ==> !is_space(#[trigger] s[i]),
    ensures
        words(s) == if s.len() == 0 {
            Seq::<Seq<char>>::empty()
        } else {
            seq![s]
        },
    decreases s.len(),
{
    if s.len() > 0 {
        let front = s.drop_last();
        assert forall|i: int| 0 <= i < front.len() implies !is_space(#[trigger] front[i]) by {
            assert(!is_space(s[i]));
        }
        law_one_word(front);
        assert(!is_space(s[s.len() - 1]));
        if front.len() > 0 {
            assert(!is_space(s[s.len() - 2]));
            assert(words(s) =~= seq![s]) by {
                assert(front.push(s.last()) =~= s);
            }
        } else {
            assert(words(s) =~= seq![s]) by {
                assert(seq![s.last()] =~= s);
            }
        }
    }
}

/// Words are not empty and hold no white space.
proof fn lemma_words(s: Seq<char>)
    ensures
        forall|i: int| 0 <= i < words(s).len() ==> (#[trigger] words(s)[i]).len() > 0,
        forall|i: int, j: int|
            0 <= i < words(s).len() && 0 <= j < words(s)[i].len() ==> !is_space(
                #[trigger] words(s)[i][j],
            ),
        s.len() > 0 && !is_space(s.last()) ==> words(s).len() > 0,
    decreases s.len(),
{
    if s.len() > 0 {
        let front = s.drop_last();
        lemma_words(front);
        let before = words(front);
        let all = words(s);
        if s.len() >= 2 {
            assert(front.last() == s[s.len() - 2]);
        }
        assert forall|i: int| 0 <= i < all.len() implies (#[trigger] all[i]).len() > 0 by {
            if i < before.len() {
                assert(before[i].len() > 0);
            }
        }
        assert forall|i: int, j: int| 0 <= i < all.len() && 0 <= j < all[i].len() implies !is_space(
            #[trigger] all[i][j],
        ) by {
            if i < before.len() {
                if j < before[i].len() {
                    assert(!is_space(before[i][j]));
                }
            }
        }
    }
}

/// Single spaces between the words do not change the words, so a description that has been spaced
/// anew stays as it is.
pub proof fn law_respaced_twice(style: SvdConventions, s: Seq<char>)
    ensures
        words(style.respaced(s)) == words(s),
        style.respaced(style.respaced(s)) == style.respaced(s),
{
    lemma_words(s);
    lemma_words_of_spaced(words(s));
}

proof fn lemma_words_of_spaced(list: Seq<Seq<char>>)
    requires
        forall|i: int| 0 <= i < list.len() ==> (#[trigger] list[i]).len() > 0,
        forall|i: int, j: int|
            0 <= i < list.len() && 0 <= j < list[i].len() ==> !is_space(#[trigger] list[i][j]),
    ensures
        words(spaced(list)) == list,
        list.len() > 0 ==> spaced(list).len() > 0,
    decreases list.len(),
{
    if list.len() == 0 {
        assert(words(spaced(list)) =~= list);
    } else {
        let front = list.drop_last();
        let w = list.last();
        assert forall|i: int| 0 <= i < front.len() implies (#[trigger] front[i]).len() > 0 by {
            assert(list[i].len() > 0);
        }
        assert forall|i: int, j: int| 0 <= i < front.len() && 0 <= j < front[i].len() implies !is_space(
            #[trigger] front[i][j],
        ) by {
            assert(!is_space(list[i][j]));
        }
        lemma_words_of_spaced(front);
        assert(list[list.len() - 1].len() > 0);
        assert forall|j: int| 0 <= j < w.len() implies !is_space(#[trigger] w[j]) by {
            assert(!is_space(list[list.len() - 1][j]));
        }
        law_one_word(w);
        if front.len() > 0 {
            law_words_apart(spaced(front), ' ', w);
            assert(words(spaced(list)) =~= list);
        } else {
            assert(spaced(list) =~= w);
            assert(words(spaced(list)) =~= list);
        }
    }
}

/// Brackets and parentheses are taken out of a name, and nothing else; the rest keeps its order.
pub proof fn law_stripped(a: Seq<char>, b: Seq<char>, c: char)
    ensures
        stripped(a + b) == stripped(a) + stripped(b),
        stripped(Seq::empty()) == Seq::<char>::empty(),
        stripped(seq![c]) == if c == '(' || c == ')' || c == '[' || c == ']' {
            Seq::<char>::empty()
        } else {
            seq![c]
        },
    decreases b.len(),
{
    reveal(Seq::filter);
    reveal_with_fuel(Seq::filter, 2);
    let keep = |c: char| !blacklisted(c);
    assert(seq![c].drop_last() =~= Seq::<char>::empty());
    assert(stripped(seq![c]) =~= if blacklisted(c) {
        Seq::<char>::empty()
    } else {
        seq![c]
    });
    if b.len() == 0 {
        assert(a + b =~= a);
        assert(stripped(a) + stripped(b) =~= stripped(a));
    } else {
        let front = b.drop_last();
        law_stripped(a, front, c);
        assert((a + b).drop_last() =~= a + front);
        assert((a + b).last() == b.last());
        assert(stripped(a + b) =~= stripped(a) + stripped(b));
    }
}

/// A name is spelled in its case, with an underscore in front where it starts with a digit, and,
/// in snake case, an underscore behind it where it is a keyword.
pub proof fn law_spelling(style: SvdConventions, name: Seq<char>)
    ensures
        ({
            let plain = stripped(name);
            let digit = plain.len() > 0 && '0' <= plain[0] <= '9';
            let snake = snake_case_of(plain);
            let upper = upper_case_of(plain);
            &&& digit ==> style.snake(name) == seq!['_'] + snake && style.upper(name) == seq!['_']
                + upper
            &&& !digit ==> style.upper(name) == upper
            &&& !digit && !keywords().contains(snake) ==> style.snake(name) == snake
            &&& !digit && keywords().contains(snake) ==> style.snake(name) == snake.push('_')
        }),
{
    let snake = snake_case_of(stripped(name));
    assert(snake + seq!['_'] =~= snake.push('_'));
}

/// The words that no field or module can be named by.
pub proof fn law_keywords()
    ensures
        keywords().contains("abstract"@),
        keywords().contains("alignof"@),
        keywords().contains("as"@),
        keywords().contains("become"@),
        keywords().contains("bit"@),
        keywords().contains("bits"@),
        keywords().contains("box"@),
        keywords().contains("break"@),
        keywords().contains("clear_bit"@),
        keywords().contains("const"@),
        keywords().contains("continue"@),
        keywords().contains("crate"@),
        keywords().contains("do"@),
        keywords().contains("else"@),
        keywords().contains("enum"@),
        keywords().contains("extern"@),
        keywords().contains("false"@),
        keywords().contains("final"@),
        keywords().contains("fn"@),
        keywords().contains("for"@),
        keywords().contains("if"@),
        keywords().contains("impl"@),
        keywords().contains("in"@),
        keywords().contains("let"@),
        keywords().contains("loop"@),
        keywords().contains("macro"@),
        keywords().contains("match"@),
        keywords().contains("mod"@),
        keywords().contains("move"@),
        keywords().contains("mut"@),
        keywords().contains("offsetof"@),
        keywords().contains("override"@),
        keywords().contains("priv"@),
        keywords().contains("proc"@),
        keywords().contains("pub"@),
        keywords().contains("pure"@),
        keywords().contains("ref"@),
        keywords().contains("return"@),
        keywords().contains("self"@),
        keywords().contains("set_bit"@),
        keywords().contains("sizeof"@),
        keywords().contains("static"@),
        keywords().contains("struct"@),
        keywords().contains("super"@),
        keywords().contains("trait"@),
        keywords().contains("true"@),
        keywords().contains("try"@),
        keywords().contains("type"@),
        keywords().contains("typeof"@),
        keywords().contains("unsafe"@),
        keywords().contains("unsized"@),
        keywords().contains("use"@),
        keywords().contains("virtual"@),
        keywords().contains("where"@),
        keywords().contains("while"@),
        keywords().contains("yield"@),
{
    assert(keywords()[0] == "abstract"@);
    assert(keywords()[1] == "alignof"@);
    assert(keywords()[2] == "as"@);
    assert(keywords()[3] == "become"@);
    assert(keywords()[4] == "bit"@);
    assert(keywords()[5] == "bits"@);
    assert(keywords()[6] == "box"@);
    assert(keywords()[7] == "break"@);
    assert(keywords()[8] == "clear_bit"@);
    assert(keywords()[9] == "const"@);
    assert(keywords()[10] == "continue"@);
    assert(keywords()[11] == "crate"@);
    assert(keywords()[12] == "do"@);
    assert(keywords()[13] == "else"@);
    assert(keywords()[14] == "enum"@);
    assert(keywords()[15] == "extern"@);
    assert(keywords()[16] == "false"@);
    assert(keywords()[17] == "final"@);
    assert(keywords()[18] == "fn"@);
    assert(keywords()[19] == "for"@);
    assert(keywords()[20] == "if"@);
    assert(keywords()[21] == "impl"@);
    assert(keywords()[22] == "in"@);
    assert(keywords()[23] == "let"@);
    assert(keywords()[24] == "loop"@);
    assert(keywords()[25] == "macro"@);
    assert(keywords()[26] == "match"@);
    assert(keywords()[27] == "mod"@);
    assert(keywords()[28] == "move"@);
    assert(keywords()[29] == "mut"@);
    assert(keywords()[30] == "offsetof"@);
    assert(keywords()[31] == "override"@);
    assert(keywords()[32] == "priv"@);
    assert(keywords()[33] == "proc"@);
    assert(keywords()[34] == "pub"@);
    assert(keywords()[35] == "pure"@);
    assert(keywords()[36] == "ref"@);
    assert(keywords()[37] == "return"@);
    assert(keywords()[38] == "self"@);
    assert(keywords()[39] == "set_bit"@);
    assert(keywords()[40] == "sizeof"@);
    assert(keywords()[41] == "static"@);
    assert(keywords()[42] == "struct"@);
    assert(keywords()[43] == "super"@);
    assert(keywords()[44] == "trait"@);
    assert(keywords()[45] == "true"@);
    assert(keywords()[46] == "try"@);
    assert(keywords()[47] == "type"@);
    assert(keywords()[48] == "typeof"@);
    assert(keywords()[49] == "unsafe"@);
    assert(keywords()[50] == "unsized"@);
    assert(keywords()[51] == "use"@);
    assert(keywords()[52] == "virtual"@);
    assert(keywords()[53] == "where"@);
    assert(keywords()[54] == "while"@);
    assert(keywords()[55] == "yield"@);
}

/// An address reads as the number that it was written for: zero is a single digit, else there are
/// two, four or eight hexadecimal digits, the eight of them in two halves.
pub proof fn law_address(style: SvdConventions, n: u32)
    ensures
        n == 0 ==> style.address(n) == "0"@,
        0 < n < 0x100 ==> exists|s: Seq<char>| #[trigger]
            reading(s, 16) == n && all_digits(s, 16) && s.len() == 2 && style.address(n) == "0x"@ + s,
        0x100 <= n < 0x1_0000 ==> exists|s: Seq<char>| #[trigger]
            reading(s, 16) == n && all_digits(s, 16) && s.len() == 4 && style.address(n) == "0x"@ + s,
        0x1_0000 <= n ==> exists|s: Seq<char>, t: Seq<char>| #[trigger]
            reading(s, 16) * 0x1_0000 + #[trigger] reading(t, 16) == n && all_digits(s, 16)
                && all_digits(t, 16) && s.len() == 4 && t.len() == 4 && style.address(n) == "0x"@ + s + "_"@ + t,
{
    let high = (n / 0x1_0000) as nat;
    let low = (n % 0x1_0000) as nat;
    lemma_padded(high, 4);
    lemma_padded(low, 4);
    lemma_hex_len(high, 4);
    lemma_hex_len(low, 4);
    if n < 0x100 {
        lemma_padded(n as nat, 2);
        lemma_hex_len(n as nat, 2);
        assert(reading(zero_padded(numeral(n as nat, 16), 2), 16) == n);
    } else if n < 0x1_0000 {
        assert(reading(zero_padded(numeral(low, 16), 4), 16) == n);
    } else {
        assert(reading(zero_padded(numeral(high, 16), 4), 16) * 0x1_0000 + reading(
            zero_padded(numeral(low, 16), 4),
            16,
        ) == n);
    }
}

/// Zeros in front do not change what digits read as.
pub(crate) proof fn lemma_padded(n: nat, width: nat)
    ensures
        reading(zero_padded(numeral(n, 16), width), 16) == n,
        all_digits(zero_padded(numeral(n, 16), width), 16),
        zero_padded(numeral(n, 16), width).len() >= width,
{
    let s = numeral(n, 16);
    let r = zero_padded(s, width);
    law_numeral(n, 16);
    law_zero_padded(s, width);
    let k = r.len() - s.len();
    lemma_reading(r, k, s.len() as int);
    assert(r.take(r.len() as int) =~= r);
    assert(r.skip(k).take(s.len() as int) =~= s);
    assert forall|i: int| 0 <= i < r.len() implies 0 <= worth(#[trigger] r[i]) < 16 by {
        if i >= k {
            assert(r[i] == r.skip(k)[i - k]);
            assert(0 <= worth(s[i - k]) < 16);
        }
    }
}

proof fn lemma_reading(r: Seq<char>, k: int, m: int)
    requires
        0 <= k <= k + m <= r.len(),
        forall|i: int| 0 <= i < k ==> #[trigger] r[i] == '0',
    ensures
        reading(r.take(k + m), 16) == reading(r.skip(k).take(m), 16),
    decreases k + m,
{
    reveal_with_fuel(reading, 2);
    let s = r.take(k + m);
    let t = r.skip(k).take(m);
    if m > 0 {
        lemma_reading(r, k, m - 1);
        assert(s.drop_last() =~= r.take(k + m - 1));
        assert(t.drop_last() =~= r.skip(k).take(m - 1));
        assert(s.last() == t.last());
    } else if k > 0 {
        lemma_reading(r, k - 1, 0);
        assert(s.drop_last() =~= r.take(k - 1));
        assert(r.skip(k - 1).take(0) =~= t);
        assert(s.last() == '0');
        assert(reading(t, 16) == 0);
    } else {
        assert(s =~= t);
    }
}

proof fn lemma_hex_len(n: nat, width: nat)
    requires
        width == 2 && n < 0x100 || width == 4 && n < 0x1_0000,
    ensures
        numeral(n, 16).len() <= width,
        zero_padded(numeral(n, 16), width).len() == width,
{
    reveal_with_fuel(numeral, 5);
    law_zero_padded(numeral(n, 16), width);
}

} // verus!

use vstd::prelude::*;

use crate::text::{
    decimal, digit, digits_value, has, law_number_named, matches_at, number_named, numeral,
    replaced, zero_padded,
};

verus! {

/// The number that a digit stands for.
pub open spec fn worth(c: char) -> int {
    if '0' <= c <= '9' {
        c as int - '0' as int
    } else if 'a' <= c <= 'f' {
        c as int - 'a' as int + 10
    } else {
        -1
    }
}

/// The number that digits of a base stand for: each place counts `base` times the next one.
pub open spec fn reading(s: Seq<char>, base: int) -> int
    decreases s.len(),
{
    if s.len() == 0 {
        0
    } else {
        reading(s.drop_last(), base) * base + worth(s.last())
    }
}

/// Whether all characters are digits of a base.
pub open spec fn all_digits(s: Seq<char>, base: int) -> bool {
    forall|i: int| 0 <= i < s.len() ==> 0 <= worth(#[trigger] s[i]) < base
}

/// A numeral is made of digits of its base, reads as the number that it was written for, and
/// starts with a zero only where it is zero.
pub proof fn law_numeral(n: nat, base: nat)
    requires
        2 <= base <= 16,
    ensures
        numeral(n, base).len() > 0,
        forall|i: int|
            0 <= i < numeral(n, base).len() ==> 0 <= worth(#[trigger] numeral(n, base)[i]) < base,
        reading(numeral(n, base), base as int) == n,
        n > 0 ==> numeral(n, base)[0] != '0',
        n == 0 ==> numeral(n, base) == seq!['0'],
    decreases n,
{
    let s = numeral(n, base);
    reveal_with_fuel(reading, 2);
    if n < base {
        assert(s =~= seq![digit(n as int)]);
        assert(s.drop_last() =~= Seq::<char>::empty());
        assert(reading(s, base as int) == reading(Seq::<char>::empty(), base as int) * base + worth(
            digit(n as int),
        ));
        assert(0 * base == 0) by (nonlinear_arith);
    } else {
        assert(n / base < n && n / base > 0) by (nonlinear_arith)
            requires
                n >= base,
                base >= 2,
        ;
        law_numeral(n / base, base);
        let front = numeral(n / base, base);
        let d = digit((n % base) as int);
        assert(0 <= n % base < base) by (nonlinear_arith)
            requires
                base >= 2,
        ;
        assert(s == front.push(d));
        assert(s.drop_last() =~= front);
        assert(worth(d) == n % base);
        assert(n == (n / base) * base + n % base) by (nonlinear_arith)
            requires
                base >= 2,
        ;
        assert forall|i: int| 0 <= i < s.len() implies 0 <= worth(#[trigger] s[i]) < base by {
            if i < front.len() {
                assert(s[i] == front[i]);
            }
        }
        assert(s[0] == front[0]);
    }
}

/// Padding puts zeros in front, as many as it takes to reach the width and no more.
pub proof fn law_zero_padded(s: Seq<char>, width: nat)
    ensures
        zero_padded(s, width).len() == if s.len() >= width {
            s.len()
        } else {
            width
        },
        zero_padded(s, width).skip(zero_padded(s, width).len() - s.len()) == s,
        forall|i: int|
            0 <= i < zero_padded(s, width).len() - s.len() ==> #[trigger] zero_padded(s, width)[i]
                == '0',
    decreases width - s.len(),
{
    let r = zero_padded(s, width);
    if s.len() >= width {
        assert(r.skip(0) =~= s);
    } else {
        let t = seq!['0'] + s;
        law_zero_padded(t, width);
        let k = r.len() - t.len();
        assert(r.skip(k + 1) =~= r.skip(k).skip(1));
        assert(r.skip(k).skip(1) =~= s);
        assert(r[k] == r.skip(k)[0]);
    }
}

/// The parts one behind the other, with `sep` between them.
pub open spec fn joined_by(parts: Seq<Seq<char>>, sep: Seq<char>) -> Seq<char>
    decreases parts.len(),
{
    if parts.len() == 0 {
        Seq::empty()
    } else if parts.len() == 1 {
        parts[0]
    } else {
        parts[0] + sep + joined_by(parts.skip(1), sep)
    }
}

/// Whether `parts` is what is left of `s` between the occurrences of `pat`: each part reaches up
/// to the first occurrence behind it, and the last part holds none.
pub open spec fn splits(s: Seq<char>, pat: Seq<char>, parts: Seq<Seq<char>>) -> bool {
    &&& parts.len() > 0
    &&& s == joined_by(parts, pat)
    &&& forall|i: int, j: int|
        0 <= i < parts.len() - 1 && #[trigger] matches_at(#[trigger] parts[i] + pat, pat, j) ==> j
            == parts[i].len()
    &&& forall|j: int| !#[trigger] matches_at(parts.last(), pat, j)
}

/// Replacing keeps the parts between the occurrences, and puts the new text in their place.
pub proof fn law_replaced(s: Seq<char>, pat: Seq<char>, with: Seq<char>)
    requires
        pat.len() > 0,
    ensures
        exists|parts: Seq<Seq<char>>| #[trigger]
            splits(s, pat, parts) && replaced(s, pat, with) == joined_by(parts, with),
{
    let parts = lemma_split(s, pat, with);
    assert(splits(s, pat, parts));
}

proof fn lemma_split(s: Seq<char>, pat: Seq<char>, with: Seq<char>) -> (parts: Seq<Seq<char>>)
    requires
        pat.len() > 0,
    ensures
        splits(s, pat, parts),
        replaced(s, pat, with) == joined_by(parts, with),
    decreases s.len(),
{
    if s.len() < pat.len() {
        let parts = seq![s];
        assert(parts.last() == s);
        parts
    } else if s.take(pat.len() as int) == pat {
        let rest = s.skip(pat.len() as int);
        let old = lemma_split(rest, pat, with);
        let none = Seq::<char>::empty();
        let parts = seq![none] + old;
        assert(parts.skip(1) =~= old);
        assert(s =~= none + pat + rest);
        assert(joined_by(parts, pat) == none + pat + rest);
        assert(joined_by(parts, with) =~= with + joined_by(old, with));
        assert forall|i: int, j: int|
            0 <= i < parts.len() - 1 && #[trigger] matches_at(
                #[trigger] parts[i] + pat,
                pat,
                j,
            ) implies j == parts[i].len() by {
            if i > 0 {
                assert(parts[i] == old[i - 1]);
                assert(matches_at(old[i - 1] + pat, pat, j));
            } else {
                assert(parts[i] + pat =~= pat);
            }
        }
        assert(parts.last() == old.last());
        parts
    } else {
        let rest = s.skip(1);
        let old = lemma_split(rest, pat, with);
        let head = seq![s[0]] + old[0];
        let parts = seq![head] + old.skip(1);
        assert(parts.skip(1) =~= old.skip(1));
        lemma_head(s[0], old, pat);
        lemma_head(s[0], old, with);
        assert(s =~= seq![s[0]] + rest);
        assert(joined_by(parts, pat) == s);
        // An occurrence at the very start would be one in `s`.
        assert forall|j: int| #[trigger] matches_at(head + pat, pat, j) && old.len() > 1 implies j
            == head.len() by {
            let longer = head + pat;
            if j == 0 {
                assert(longer.subrange(0, pat.len() as int) == pat);
                let tail = joined_by(old.skip(1), pat);
                assert(s =~= longer + tail);
                assert(s.take(pat.len() as int) =~= longer.subrange(0, pat.len() as int));
            } else {
                let shorter = old[0] + pat;
                assert(longer.subrange(j, j + pat.len()) =~= shorter.subrange(
                    j - 1,
                    j - 1 + pat.len(),
                ));
                assert(matches_at(shorter, pat, j - 1));
                assert(matches_at(old[0] + pat, pat, j - 1));
            }
        }
        assert forall|i: int, j: int|
            0 <= i < parts.len() - 1 && #[trigger] matches_at(
                #[trigger] parts[i] + pat,
                pat,
                j,
            ) implies j == parts[i].len() by {
            if i > 0 {
                assert(parts[i] == old[i]);
                assert(matches_at(old[i] + pat, pat, j));
            }
        }
        if old.len() > 1 {
            assert(parts.last() == old.last());
        } else {
            assert(parts.last() == head);
            assert(head =~= s);
            assert forall|j: int| !#[trigger] matches_at(head, pat, j) by {
                if !matches_at(head, pat, j) {
                } else if j == 0 {
                    assert(s.take(pat.len() as int) =~= head.subrange(0, pat.len() as int));
                } else {
                    assert(old[0].subrange(j - 1, j - 1 + pat.len()) =~= head.subrange(
                        j,
                        j + pat.len(),
                    ));
                    assert(matches_at(old[0], pat, j - 1));
                    assert(old.last() == old[0]);
                }
            }
        }
        parts
    }
}

proof fn lemma_head(c: char, old: Seq<Seq<char>>, sep: Seq<char>)
    requires
        old.len() > 0,
    ensures
        joined_by(seq![seq![c] + old[0]] + old.skip(1), sep) == seq![c] + joined_by(old, sep),
{
    let parts = seq![seq![c] + old[0]] + old.skip(1);
    assert(parts.skip(1) =~= old.skip(1));
    assert(joined_by(parts, sep) =~= seq![c] + joined_by(old, sep));
}

/// A text that holds the pattern just once has the new text in its place, and all else stays.
pub proof fn law_replaced_once(a: Seq<char>, pat: Seq<char>, b: Seq<char>, with: Seq<char>)
    requires
        pat.len() > 0,
        forall|i: int| #[trigger] matches_at(a + pat + b, pat, i) ==> i == a.len(),
    ensures
        replaced(a + pat + b, pat, with) == a + with + b,
    decreases a.len(),
{
    let s = a + pat + b;
    if a.len() == 0 {
        assert(s.take(pat.len() as int) =~= pat);
        assert(s.skip(pat.len() as int) =~= b);
        assert forall|i: int| !#[trigger] matches_at(b, pat, i) by {
            if matches_at(b, pat, i) {
                assert(s.subrange(pat.len() + i, pat.len() + i + pat.len()) =~= b.subrange(
                    i,
                    i + pat.len(),
                ));
                assert(matches_at(s, pat, pat.len() + i));
            }
        }
        law_replaced_nothing(b, pat, with);
        assert(a + with + b =~= with + b);
    } else {
        if s.take(pat.len() as int) == pat {
            assert(s.subrange(0, pat.len() as int) =~= s.take(pat.len() as int));
            assert(matches_at(s, pat, 0));
        }
        let c = a.skip(1);
        assert(s.skip(1) =~= c + pat + b);
        assert forall|i: int| #[trigger] matches_at(c + pat + b, pat, i) implies i == c.len() by {
            assert(s.subrange(i + 1, i + 1 + pat.len()) =~= (c + pat + b).subrange(
                i,
                i + pat.len(),
            ));
            assert(matches_at(s, pat, i + 1));
        }
        law_replaced_once(c, pat, b, with);
        assert(seq![s[0]] + (c + with + b) =~= a + with + b);
    }
}

/// A text without the pattern stays as it is.
pub proof fn law_replaced_nothing(s: Seq<char>, pat: Seq<char>, with: Seq<char>)
    requires
        forall|i: int| !#[trigger] matches_at(s, pat, i),
    ensures
        replaced(s, pat, with) == s,
    decreases s.len(),
{
    if pat.len() > 0 && s.len() >= pat.len() {
        if s.take(pat.len() as int) == pat {
            assert(s.subrange(0, pat.len() as int) =~= s.take(pat.len() as int));
            assert(matches_at(s, pat, 0));
        }
        let t = s.skip(1);
        assert forall|i: int| !#[trigger] matches_at(t, pat, i) by {
            if matches_at(t, pat, i) {
                assert(s.subrange(i + 1, i + 1 + pat.len()) =~= t.subrange(i, i + pat.len()));
                assert(matches_at(s, pat, i + 1));
            }
        }
        law_replaced_nothing(t, pat, with);
        assert(seq![s[0]] + t =~= s);
    }
}

/// As many zeros.
pub open spec fn zeros(k: nat) -> Seq<char> {
    Seq::new(k, |i: int| '0')
}

/// A text names a number just where it is that number in decimal digits, behind any number of
/// zeros and at most one plus sign, and the number stays within 32 bits.
pub proof fn law_what_names_a_number(s: Seq<char>, v: nat)
    ensures
        number_named(s) == Some(v) <==> v <= u32::MAX && exists|k: nat|
            s == zeros(k) + decimal(v) || s == seq!['+'] + #[trigger] zeros(k) + decimal(v),
{
    if number_named(s) == Some(v) {
        let digits = if s[0] == '+' {
            s.skip(1)
        } else {
            s
        };
        let k = lemma_leading_zeros(digits, v);
        if s[0] == '+' {
            assert(s =~= seq!['+'] + digits);
            assert(seq!['+'] + (zeros(k) + decimal(v)) =~= seq!['+'] + zeros(k) + decimal(v));
        } else {
            assert(s == zeros(k) + decimal(v));
        }
    }
    if v <= u32::MAX && exists|k: nat|
        s == zeros(k) + decimal(v) || s == seq!['+'] + #[trigger] zeros(k) + decimal(v) {
        let k = choose|k: nat|
            s == zeros(k) + decimal(v) || s == seq!['+'] + #[trigger] zeros(k) + decimal(v);
        let digits = zeros(k) + decimal(v);
        law_numeral(v, 10);
        law_number_named(v);
        assert(decimal(v)[0] != '+') by {
            assert(0 <= worth(decimal(v)[0]));
        }
        assert(digits_value(decimal(v)) == Some(v)) by {
            assert(number_named(decimal(v)) == Some(v));
        }
        lemma_zeros_in_front(k, decimal(v));
        assert(digits[0] != '+');
        if s != digits {
            assert(s =~= seq!['+'] + digits);
            assert(s.skip(1) =~= digits);
        }
    }
}

proof fn lemma_zeros_in_front(k: nat, s: Seq<char>)
    ensures
        digits_value(zeros(k) + s) == digits_value(s),
    decreases s.len(), k,
{
    if s.len() > 0 {
        lemma_zeros_in_front(k, s.drop_last());
        assert((zeros(k) + s).drop_last() =~= zeros(k) + s.drop_last());
    } else if k > 0 {
        lemma_zeros_in_front((k - 1) as nat, s);
        assert((zeros(k) + s).drop_last() =~= zeros((k - 1) as nat) + s);
    } else {
        assert(zeros(k) + s =~= s);
    }
}

proof fn lemma_leading_zeros(s: Seq<char>, v: nat) -> (k: nat)
    requires
        s.len() > 0,
        digits_value(s) == Some(v),
    ensures
        s == zeros(k) + decimal(v),
    decreases s.len(),
{
    let front = s.drop_last();
    let d = (s.last() as int - '0' as int) as nat;
    if front.len() == 0 {
        assert(digits_value(front) == Some(0nat));
        assert(v == d);
        assert(s =~= zeros(0) + decimal(v));
        0
    } else {
        let u = digits_value(front)->0;
        let k = lemma_leading_zeros(front, u);
        assert(v == 10 * u + d);
        assert(s =~= front.push(s.last()));
        if u == 0 {
            law_numeral(0, 10);
            assert(decimal(v) =~= seq![s.last()]);
            assert(s =~= zeros(k + 1) + decimal(v));
            k + 1
        } else {
            assert(v / 10 == u && v % 10 == d);
            assert(decimal(v) == decimal(u).push(s.last()));
            assert(s =~= zeros(k) + decimal(v));
            k
        }
    }
}

/// A pattern stands at a place just where the text is what comes before that place, the pattern,
/// and what comes behind it; and it is in the text just where it stands somewhere.
pub proof fn law_matches_at(s: Seq<char>, pat: Seq<char>, i: int)
    requires
        0 <= i <= i + pat.len() <= s.len(),
    ensures
        matches_at(s, pat, i) <==> s == s.take(i) + pat + s.skip(i + pat.len()),
        matches_at(s, pat, i) ==> has(s, pat),
        has(s, pat) ==> exists|a: Seq<char>, b: Seq<char>| s == #[trigger] (a + pat + b),
{
    let around = s.take(i) + pat + s.skip(i + pat.len());
    if matches_at(s, pat, i) {
        assert(s =~= around) by {
            assert forall|k: int| 0 <= k < s.len() implies s[k] == around[k] by {
                if i <= k < i + pat.len() {
                    assert(s.subrange(i, i + pat.len())[k - i] == s[k]);
                }
            }
        }
    }
    if s == around {
        assert(around.subrange(i, i + pat.len()) =~= pat);
    }
    if has(s, pat) {
        let k = choose|k: int| matches_at(s, pat, k);
        let whole = s.take(k) + pat + s.skip(k + pat.len());
        assert(s =~= whole) by {
            assert forall|m: int| 0 <= m < s.len() implies s[m] == whole[m] by {
                if k <= m < k + pat.len() {
                    assert(s.subrange(k, k + pat.len())[m - k] == s[m]);
                }
            }
        }
    }
}

} // verus!

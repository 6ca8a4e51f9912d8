use vstd::prelude::*;

verus! {

/// `String::push` of std: the character becomes the last one of the string.
pub assume_specification[ String::push ](s: &mut String, c: char)
    ensures
        final(s)@ == old(s)@.push(c),
;

/// The digit that stands for `d` in a number of base 16 or less.
pub open spec fn digit(d: int) -> char {
    if d < 10 {
        ('0' as int + d) as char
    } else {
        ('a' as int + (d - 10)) as char
    }
}

/// `n` written in base `base`, without leading zeros.
pub open spec fn numeral(n: nat, base: nat) -> Seq<char>
    decreases n,
{
    if n < base || base < 2 {
        seq![digit(n as int)]
    } else {
        proof {
            assert(n / base < n) by (nonlinear_arith)
                requires
                    n >= base,
                    base >= 2,
            ;
        }
        numeral(n / base, base).push(digit((n % base) as int))
    }
}

/// `n` written in base ten.
pub open spec fn decimal(n: nat) -> Seq<char> {
    numeral(n, 10)
}

/// `s` with as many zeros in front as it takes to reach `width` characters.
pub open spec fn zero_padded(s: Seq<char>, width: nat) -> Seq<char>
    decreases width - s.len(),
{
    if s.len() >= width {
        s
    } else {
        zero_padded(seq!['0'] + s, width)
    }
}

/// The characters of a string, one per element.
pub fn chars_of(s: &str) -> (v: Vec<char>)
    ensures
        v@ == s@,
{
    let mut v: Vec<char> = Vec::new();
    for c in it: s.chars()
        invariant
            v@ == it.seq().take(it.index() as int),
            it.seq() == s@,
    {
        v.push(c);
    }
    v
}

/// The string made of the characters `v[from..to]`.
pub fn string_of(v: &Vec<char>, from: usize, to: usize) -> (s: String)
    requires
        from <= to <= v@.len(),
    ensures
        s@ == v@.subrange(from as int, to as int),
{
    let mut s = String::new();
    let mut i = from;
    while i < to
        invariant
            from <= i <= to <= v@.len(),
            s@ == v@.subrange(from as int, i as int),
        decreases to - i,
    {
        s.push(v[i]);
        i += 1;
        assert(v@.subrange(from as int, i as int) == v@.subrange(from as int, i - 1).push(v@[i - 1]));
    }
    s
}

fn digit_char(d: u8) -> (c: char)
    requires
        d < 16,
    ensures
        c == digit(d as int),
{
    if d < 10 {
        (48u8 + d) as char
    } else {
        (87u8 + d) as char
    }
}

/// Writes `n` in base `base`.
pub fn write_numeral(n: u64, base: u64) -> (s: String)
    requires
        2 <= base <= 16,
    ensures
        s@ == numeral(n as nat, base as nat),
    decreases n,
{
    if n < base {
        let mut s = String::new();
        s.push(digit_char(n as u8));
        assert(s@ =~= seq![digit(n as int)]);
        s
    } else {
        assert(n / base < n) by (nonlinear_arith)
            requires
                n >= base,
                base >= 2,
        ;
        let mut s = write_numeral(n / base, base);
        assert(n % base < base) by (nonlinear_arith)
            requires
                base >= 2,
        ;
        s.push(digit_char((n % base) as u8));
        s
    }
}

/// Writes `s` with zeros in front up to `width` characters.
pub fn pad_zeros(s: &str, width: usize) -> (r: String)
    ensures
        r@ == zero_padded(s@, width as nat),
{
    let mut r = s.to_owned();
    let mut n: usize = chars_of(s).len();
    while n < width
        invariant
            n == r@.len(),
            zero_padded(r@, width as nat) == zero_padded(s@, width as nat),
        decreases width - n,
    {
        let mut longer = String::new();
        longer.push('0');
        longer.append(r.as_str());
        assert(longer@ =~= seq!['0'] + r@);
        r = longer;
        n += 1;
    }
    r
}

/// Whether `pat` stands in `s` from position `i` on.
pub open spec fn matches_at(s: Seq<char>, pat: Seq<char>, i: int) -> bool {
    0 <= i && i + pat.len() <= s.len() && s.subrange(i, i + pat.len()) == pat
}

/// Whether `pat` stands somewhere in `s`.
pub open spec fn has(s: Seq<char>, pat: Seq<char>) -> bool {
    exists|i: int| matches_at(s, pat, i)
}

/// `s` with every occurrence of `pat` replaced by `with`; occurrences are taken from left to
/// right and do not overlap.
pub open spec fn replaced(s: Seq<char>, pat: Seq<char>, with: Seq<char>) -> Seq<char>
    decreases s.len(),
{
    if pat.len() == 0 || s.len() < pat.len() {
        s
    } else if s.take(pat.len() as int) == pat {
        with + replaced(s.skip(pat.len() as int), pat, with)
    } else {
        seq![s[0]] + replaced(s.skip(1), pat, with)
    }
}

fn is_at(s: &Vec<char>, pat: &Vec<char>, i: usize) -> (b: bool)
    requires
        i <= s@.len(),
    ensures
        b == matches_at(s@, pat@, i as int),
{
    let n: usize = s.len();
    if n - i < pat.len() {
        return false;
    }
    let mut k: usize = 0;
    while k < pat.len()
        invariant
            k <= pat@.len(),
            n == s@.len(),
            i + pat@.len() <= n,
            forall|j: int| 0 <= j < k ==> s@[i + j] == #[trigger] pat@[j],
        decreases pat@.len() - k,
    {
        if s[i + k] != pat[k] {
            assert(s@.subrange(i as int, i + pat@.len())[k as int] != pat@[k as int]);
            return false;
        }
        k += 1;
    }
    assert(s@.subrange(i as int, i + pat@.len()) =~= pat@);
    true
}

/// Tells whether `pat` occurs in `s`.
pub fn contains(s: &str, pat: &str) -> (b: bool)
    ensures
        b == has(s@, pat@),
{
    let chars = chars_of(s);
    let wanted = chars_of(pat);
    let mut i: usize = 0;
    while i < chars.len()
        invariant
            i <= chars@.len(),
            chars@ == s@,
            wanted@ == pat@,
            forall|j: int| 0 <= j < i ==> !#[trigger] matches_at(s@, pat@, j),
        decreases chars@.len() - i,
    {
        if is_at(&chars, &wanted, i) {
            return true;
        }
        i += 1;
    }
    is_at(&chars, &wanted, i)
}

/// What replacing does at position `i`: it takes the whole of `pat`, or one character.
proof fn lemma_replaced_at(s: Seq<char>, pat: Seq<char>, with: Seq<char>, i: int)
    requires
        0 <= i < s.len(),
        pat.len() > 0,
    ensures
        matches_at(s, pat, i) ==> replaced(s.skip(i), pat, with) == with + replaced(
            s.skip(i + pat.len()),
            pat,
            with,
        ),
        !matches_at(s, pat, i) ==> replaced(s.skip(i), pat, with) == seq![s[i]] + replaced(
            s.skip(i + 1),
            pat,
            with,
        ),
{
    let rest = s.skip(i);
    assert(rest.skip(1) =~= s.skip(i + 1));
    if rest.len() >= pat.len() {
        assert(rest.take(pat.len() as int) =~= s.subrange(i, i + pat.len()));
        assert(rest.skip(pat.len() as int) =~= s.skip(i + pat.len()));
    } else {
        assert(rest =~= seq![s[i]] + rest.skip(1));
    }
}

/// Replaces every occurrence of `pat` in `s` by `with`.
pub fn replace(s: &str, pat: &str, with: &str) -> (r: String)
    requires
        pat@.len() > 0,
    ensures
        r@ == replaced(s@, pat@, with@),
{
    let chars = chars_of(s);
    let wanted = chars_of(pat);
    let mut r = String::new();
    let mut i: usize = 0;
    assert(s@.skip(0) =~= s@);
    assert(replaced(s@, pat@, with@) =~= r@ + replaced(s@.skip(0), pat@, with@));
    while i < chars.len()
        invariant
            i <= chars@.len(),
            chars@ == s@,
            wanted@ == pat@,
            pat@.len() > 0,
            replaced(s@, pat@, with@) == r@ + replaced(s@.skip(i as int), pat@, with@),
        decreases chars@.len() - i,
    {
        let ghost before = r@;
        proof {
            lemma_replaced_at(s@, pat@, with@, i as int);
        }
        if is_at(&chars, &wanted, i) {
            r.append(with);
            i += wanted.len();
            assert(r@ + replaced(s@.skip(i as int), pat@, with@) =~= before + (with@ + replaced(
                s@.skip(i as int),
                pat@,
                with@,
            )));
        } else {
            let c = chars[i];
            r.push(c);
            i += 1;
            assert(r@ + replaced(s@.skip(i as int), pat@, with@) =~= before + (seq![c] + replaced(
                s@.skip(i as int),
                pat@,
                with@,
            )));
        }
    }
    assert(replaced(s@.skip(i as int), pat@, with@) =~= Seq::<char>::empty());
    assert(r@ + replaced(s@.skip(i as int), pat@, with@) =~= r@);
    r
}

/// The number that a run of decimal digits stands for; `None` if another character occurs.
pub open spec fn digits_value(s: Seq<char>) -> Option<nat>
    decreases s.len(),
{
    if s.len() == 0 {
        Some(0)
    } else {
        match digits_value(s.drop_last()) {
            Some(v) if '0' <= s.last() <= '9' => Some((10 * v + (s.last() as int - '0' as int)) as nat),
            _ => None,
        }
    }
}

/// The number that `s` names: an optional plus sign, then at least one decimal digit. Numbers
/// beyond 32 bits are not taken.
pub open spec fn number_named(s: Seq<char>) -> Option<nat> {
    let digits = if s.len() > 0 && s[0] == '+' {
        s.skip(1)
    } else {
        s
    };
    if digits.len() == 0 {
        None
    } else {
        match digits_value(digits) {
            Some(v) if v <= u32::MAX => Some(v),
            _ => None,
        }
    }
}

proof fn lemma_digits_value_prefix(s: Seq<char>, k: int)
    requires
        0 <= k <= s.len(),
    ensures
        digits_value(s) is Some ==> digits_value(s.take(k)) is Some && digits_value(s.take(k))->0
            <= digits_value(s)->0,
    decreases s.len(),
{
    if k == s.len() {
        assert(s.take(k) =~= s);
    } else {
        lemma_digits_value_prefix(s.drop_last(), k);
        assert(s.drop_last().take(k) =~= s.take(k));
    }
}

/// Reads the number that `s` names.
pub fn parse_number(s: &str) -> (r: Option<u32>)
    ensures
        r is Some <==> number_named(s@) is Some,
        r matches Some(v) ==> v == number_named(s@)->0,
{
    let chars = chars_of(s);
    let start: usize = if chars.len() > 0 && chars[0] == '+' {
        1
    } else {
        0
    };
    let ghost digits = s@.skip(start as int);
    assert(s@.skip(0) =~= s@);
    if chars.len() == start {
        return None;
    }
    let mut i: usize = start;
    let mut v: u64 = 0;
    assert(digits.take(0) =~= Seq::<char>::empty());
    while i < chars.len()
        invariant
            start <= i <= chars@.len(),
            chars@ == s@,
            start == if s@.len() > 0 && s@[0] == '+' {
                1int
            } else {
                0int
            },
            digits == s@.skip(start as int),
            start == 0 ==> digits == s@,
            digits.len() > 0,
            digits_value(digits.take(i - start)) == Some(v as nat),
            v <= u32::MAX,
        decreases chars@.len() - i,
    {
        let c = chars[i];
        proof {
            lemma_digits_value_prefix(digits, i + 1 - start);
            assert(digits.take(i + 1 - start).drop_last() =~= digits.take(i - start));
            assert(digits.take(i + 1 - start).last() == c);
        }
        if c < '0' || c > '9' {
            return None;
        }
        v = 10 * v + (c as u64 - '0' as u64);
        i += 1;
        if v > u32::MAX as u64 {
            return None;
        }
    }
    assert(digits.take(i - start) =~= digits);
    Some(v as u32)
}

/// Reading a number undoes writing it.
pub proof fn law_number_named(n: nat)
    requires
        n <= u32::MAX,
    ensures
        number_named(decimal(n)) == Some(n),
{
    lemma_decimal(n);
}

proof fn lemma_decimal(n: nat)
    ensures
        decimal(n).len() > 0,
        decimal(n)[0] != '+',
        digits_value(decimal(n)) == Some(n),
    decreases n,
{
    let s = decimal(n);
    if n < 10 {
        reveal_with_fuel(digits_value, 2);
        assert(s =~= seq![digit(n as int)]);
        assert(s.drop_last() =~= Seq::<char>::empty());
        assert('0' <= s.last() <= '9');
    } else {
        lemma_decimal(n / 10);
        let front = decimal(n / 10);
        assert(s == front.push(digit((n % 10) as int)));
        assert(s.drop_last() =~= front);
        assert('0' <= s.last() <= '9');
        assert(s[0] == front[0]);
    }
}

} // verus!

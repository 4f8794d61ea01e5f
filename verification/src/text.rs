//! Decimal numerals and the names that end in one.

use vstd::prelude::*;

verus! {

/// The character of a decimal digit.
pub open spec fn digit_char(d: nat) -> char
    recommends
        d < 10,
{
    (('0' as nat) + d) as char
}

/// The decimal numeral of `n`: no sign, no leading zero, `0` for zero.
pub open spec fn decimal(n: nat) -> Seq<char>
    decreases n,
{
    if n < 10 {
        seq![digit_char(n)]
    } else {
        decimal(n / 10).push(digit_char(n % 10))
    }
}

/// `prefix` followed by the decimal numeral of `n`.
pub open spec fn tagged(prefix: Seq<char>, n: nat) -> Seq<char> {
    prefix + decimal(n)
}

/// The numeral of one digit.
fn digit_str(d: u64) -> (s: &'static str)
    requires
        d < 10,
    ensures
        s@ == seq![digit_char(d as nat)],
{
    proof {
        reveal_strlit("0");
        reveal_strlit("1");
        reveal_strlit("2");
        reveal_strlit("3");
        reveal_strlit("4");
        reveal_strlit("5");
        reveal_strlit("6");
        reveal_strlit("7");
        reveal_strlit("8");
        reveal_strlit("9");
    }
    match d {
        0 => "0",
        1 => "1",
        2 => "2",
        3 => "3",
        4 => "4",
        5 => "5",
        6 => "6",
        7 => "7",
        8 => "8",
        _ => "9",
    }
}

/// Appends the decimal numeral of `n` to `text`.
fn append_decimal(text: &mut String, n: u64)
    ensures
        final(text)@ == old(text)@ + decimal(n as nat),
    decreases n,
{
    if n >= 10 {
        append_decimal(text, n / 10);
    }
    text.append(digit_str(n % 10));
}

/// Writes `prefix` followed by the decimal numeral of `n`.
pub fn tag(prefix: &str, n: u64) -> (text: String)
    ensures
        text@ == tagged(prefix@, n as nat),
        text@ == prefix@ + decimal(n as nat),
{
    let mut text = prefix.to_owned();
    append_decimal(&mut text, n);
    text
}

/// Whether `c` is a decimal digit.
pub open spec fn is_digit(c: char) -> bool {
    '0' <= c <= '9'
}

/// A numeral is not empty and consists of digits.
pub proof fn lemma_decimal_digits(n: nat)
    ensures
        decimal(n).len() > 0,
        forall|i: int| 0 <= i < decimal(n).len() ==> is_digit(#[trigger] decimal(n)[i]),
    decreases n,
{
    if n >= 10 {
        lemma_decimal_digits(n / 10);
    }
}

/// The number that a digit stands for.
pub open spec fn digit_value(c: char) -> int {
    c as int - '0' as int
}

/// The number that digits stand for, the most significant first.
pub open spec fn digits_value(digits: Seq<char>) -> int
    decreases digits.len(),
{
    if digits.len() == 0 {
        0
    } else {
        10 * digits_value(digits.drop_last()) + digit_value(digits.last())
    }
}

/// A numeral stands for its number, and has no leading zero.
pub proof fn lemma_decimal_value(n: nat)
    ensures
        digits_value(decimal(n)) == n,
        decimal(n).len() > 0,
        forall|i: int| 0 <= i < decimal(n).len() ==> '0' <= #[trigger] decimal(n)[i] <= '9',
        n > 0 ==> decimal(n)[0] != '0',
        n == 0 ==> decimal(n) == seq!['0'],
    decreases n,
{
    lemma_decimal_digits(n);
    assert(decimal(n).last() == digit_char(n % 10));
    if n >= 10 {
        lemma_decimal_value(n / 10);
        lemma_decimal_digits(n / 10);
        assert(decimal(n).drop_last() =~= decimal(n / 10));
        assert(decimal(n)[0] == decimal(n / 10)[0]);
    } else {
        assert(decimal(n).drop_last() =~= Seq::<char>::empty());
        assert(digits_value(Seq::<char>::empty()) == 0);
    }
}

/// A tagged name is the prefix with a numeral behind it, which stands for the number.
pub proof fn lemma_tagged_value(prefix: Seq<char>, n: nat)
    ensures
        tagged(prefix, n).len() > prefix.len(),
        tagged(prefix, n).subrange(0, prefix.len() as int) == prefix,
        ({
            let numeral = tagged(prefix, n).subrange(
                prefix.len() as int,
                tagged(prefix, n).len() as int,
            );
            &&& digits_value(numeral) == n
            &&& forall|i: int| 0 <= i < numeral.len() ==> '0' <= #[trigger] numeral[i] <= '9'
            &&& numeral[0] == '0' ==> numeral.len() == 1
        }),
{
    lemma_decimal_value(n);
    let name = tagged(prefix, n);
    assert(name.subrange(0, prefix.len() as int) =~= prefix);
    assert(name.subrange(prefix.len() as int, name.len() as int) =~= decimal(n));
}

/// Two numbers with the same numeral are the same number.
pub proof fn lemma_decimal_injective(m: nat, n: nat)
    requires
        decimal(m) == decimal(n),
    ensures
        m == n,
    decreases m,
{
    lemma_decimal_digits(m / 10);
    lemma_decimal_digits(n / 10);
    assert(decimal(m).last() == digit_char(m % 10));
    assert(decimal(n).last() == digit_char(n % 10));
    assert(m % 10 == n % 10);
    if m >= 10 {
        assert(n >= 10) by {
            if n < 10 {
                assert(decimal(n).len() == 1);
            }
        }
        assert(decimal(m).drop_last() =~= decimal(m / 10));
        assert(decimal(n).drop_last() =~= decimal(n / 10));
        lemma_decimal_injective(m / 10, n / 10);
    } else if n >= 10 {
        assert(decimal(m).len() == 1);
    }
}

/// The numeral at the end of a name can be read back: where the prefixes do not end in a
/// digit, two equal tagged names have equal prefixes and equal numbers.
pub proof fn lemma_tagged_injective(p: Seq<char>, m: nat, q: Seq<char>, n: nat)
    requires
        p.len() > 0,
        q.len() > 0,
        !is_digit(p.last()),
        !is_digit(q.last()),
        tagged(p, m) == tagged(q, n),
    ensures
        p == q,
        m == n,
{
    lemma_decimal_digits(m);
    lemma_decimal_digits(n);
    let s = tagged(p, m);
    assert(s.len() == p.len() + decimal(m).len());
    assert(s.len() == q.len() + decimal(n).len());
    if p.len() < q.len() {
        assert(s[q.len() - 1] == q.last());
        assert(s[q.len() - 1] == decimal(m)[q.len() - 1 - p.len()]);
    }
    if q.len() < p.len() {
        assert(s[p.len() - 1] == p.last());
        assert(s[p.len() - 1] == decimal(n)[p.len() - 1 - q.len()]);
    }
    assert(p.len() == q.len());
    assert(p =~= s.subrange(0, p.len() as int));
    assert(q =~= s.subrange(0, q.len() as int));
    assert(decimal(m) =~= s.subrange(p.len() as int, s.len() as int));
    assert(decimal(n) =~= s.subrange(q.len() as int, s.len() as int));
    lemma_decimal_injective(m, n);
}

} // verus!

use crate::util::string_push;
use vstd::prelude::*;

verus! {

/// A decimal number as written in a stylesheet: `mantissa * 10^exponent / 10^scale`, negated
/// when `negative` holds (the sign is kept for zero as well).
#[derive(Clone, Copy, Debug, PartialEq, Eq, Structural)]
pub struct Number {
    pub negative: bool,
    pub mantissa: u64,
    pub scale: usize,
    pub exponent: usize,
}

pub open spec fn digit_char(d: nat) -> char {
    ('0' as nat + d) as char
}

/// The decimal digits of `m`, without leading zeros ("0" for zero).
pub open spec fn decimal_digits(m: nat) -> Seq<char>
    decreases m,
{
    if m < 10 {
        seq![digit_char(m)]
    } else {
        decimal_digits(m / 10).push(digit_char(m % 10))
    }
}

/// `s` without its trailing zeros.
pub open spec fn trim_trailing_zeros(s: Seq<char>) -> Seq<char>
    decreases s.len(),
{
    if s.len() > 0 && s.last() == '0' {
        trim_trailing_zeros(s.drop_last())
    } else {
        s
    }
}

/// The digits of `mantissa * 10^exponent`, padded with leading zeros so that at least one
/// digit stands before the decimal point.
pub open spec fn padded_digits(n: Number) -> Seq<char> {
    let d = decimal_digits(n.mantissa as nat) + Seq::new(n.exponent as nat, |i: int| '0');
    if d.len() <= n.scale {
        Seq::new((n.scale + 1 - d.len()) as nat, |i: int| '0') + d
    } else {
        d
    }
}

/// How a number is written out: an optional minus sign, the integer digits, and the
/// fraction digits without trailing zeros after a dot, if any remain.
pub open spec fn number_text(n: Number) -> Seq<char> {
    let p = padded_digits(n);
    let split = p.len() - n.scale;
    let int_part = p.subrange(0, split);
    let frac = trim_trailing_zeros(p.subrange(split, p.len() as int));
    let sign = if n.negative { seq!['-'] } else { Seq::empty() };
    sign + int_part + if frac.len() > 0 { seq!['.'] + frac } else { Seq::empty() }
}

proof fn lemma_decimal_digits_len(m: nat)
    ensures
        decimal_digits(m).len() >= 1,
    decreases m,
{
    if m >= 10 {
        lemma_decimal_digits_len(m / 10);
    }
}

fn push_decimal_digits(v: &mut Vec<char>, m: u64)
    ensures
        final(v)@ == old(v)@ + decimal_digits(m as nat),
    decreases m,
{
    if m < 10 {
        v.push(((('0' as u32) + (m as u32)) as u8) as char);
        assert(((('0' as u32) + (m as u32)) as u8) as char == digit_char(m as nat));
        assert(old(v)@ + seq![digit_char(m as nat)] == old(v)@.push(digit_char(m as nat)));
    } else {
        push_decimal_digits(v, m / 10);
        let d = m % 10;
        v.push(((('0' as u32) + (d as u32)) as u8) as char);
        assert(((('0' as u32) + (d as u32)) as u8) as char == digit_char(m as nat % 10));
        assert(old(v)@ + decimal_digits(m as nat) == (old(v)@ + decimal_digits(m as nat / 10)).push(
            digit_char(m as nat % 10),
        ));
    }
}

fn padded_digits_vec(n: Number) -> (res: Vec<char>)
    ensures
        res@ == padded_digits(n),
{
    let mut digits: Vec<char> = Vec::new();
    push_decimal_digits(&mut digits, n.mantissa);
    assert(digits@ == decimal_digits(n.mantissa as nat));
    proof {
        lemma_decimal_digits_len(n.mantissa as nat);
    }
    let mut e: usize = 0;
    while e < n.exponent
        invariant
            e <= n.exponent,
            digits@ == decimal_digits(n.mantissa as nat) + Seq::new(e as nat, |i: int| '0'),
        decreases n.exponent - e,
    {
        digits.push('0');
        e = e + 1;
        assert(digits@ =~= decimal_digits(n.mantissa as nat) + Seq::new(e as nat, |i: int| '0'));
    }
    if digits.len() <= n.scale {
        let zeros = n.scale - digits.len() + 1;
        let mut padded: Vec<char> = Vec::new();
        let mut k: usize = 0;
        while k < zeros
            invariant
                k <= zeros,
                padded@ == Seq::new(k as nat, |i: int| '0'),
            decreases zeros - k,
        {
            padded.push('0');
            k = k + 1;
            assert(padded@ =~= Seq::new(k as nat, |i: int| '0'));
        }
        let mut j: usize = 0;
        while j < digits.len()
            invariant
                j <= digits@.len(),
                padded@ == Seq::new(zeros as nat, |i: int| '0') + digits@.subrange(0, j as int),
            decreases digits@.len() - j,
        {
            padded.push(digits[j]);
            j = j + 1;
            assert(padded@ =~= Seq::new(zeros as nat, |i: int| '0') + digits@.subrange(0, j as int));
        }
        assert(digits@.subrange(0, digits@.len() as int) == digits@);
        padded
    } else {
        digits
    }
}

/// The end of `v[split..]` without its trailing zeros.
fn trimmed_end(v: &Vec<char>, split: usize) -> (end: usize)
    requires
        split <= v@.len(),
    ensures
        split <= end <= v@.len(),
        trim_trailing_zeros(v@.subrange(split as int, v@.len() as int)) == v@.subrange(split as int, end as int),
{
    let mut end = v.len();
    while end > split && v[end - 1] == '0'
        invariant
            split <= end <= v@.len(),
            trim_trailing_zeros(v@.subrange(split as int, v@.len() as int)) == trim_trailing_zeros(
                v@.subrange(split as int, end as int),
            ),
        decreases end,
    {
        assert(v@.subrange(split as int, end as int).drop_last() == v@.subrange(split as int, end - 1));
        end = end - 1;
    }
    end
}

fn push_chars_range(s: &mut String, v: &Vec<char>, from: usize, to: usize)
    requires
        from <= to <= v@.len(),
    ensures
        final(s)@ == old(s)@ + v@.subrange(from as int, to as int),
{
    let mut i = from;
    while i < to
        invariant
            from <= i <= to <= v@.len(),
            s@ == old(s)@ + v@.subrange(from as int, i as int),
        decreases to - i,
    {
        string_push(s, v[i]);
        i = i + 1;
        assert(v@.subrange(from as int, i as int) == v@.subrange(from as int, i - 1).push(v@[i - 1]));
    }
}

/// Appends the decimal text of a number to `s`.
pub fn push_number_text(s: &mut String, n: Number)
    ensures
        final(s)@ == old(s)@ + number_text(n),
{
    let padded = padded_digits_vec(n);
    proof {
        lemma_decimal_digits_len(n.mantissa as nat);
    }
    let split = padded.len() - n.scale;
    let end = trimmed_end(&padded, split);
    let ghost before = s@;
    if n.negative {
        string_push(s, '-');
    }
    let ghost with_sign = s@;
    push_chars_range(s, &padded, 0, split);
    if end > split {
        string_push(s, '.');
        push_chars_range(s, &padded, split, end);
    }
    assert(s@ =~= before + number_text(n));
}

/// The decimal text of a number.
pub fn number_to_string(n: Number) -> (res: String)
    ensures
        res@ == number_text(n),
{
    let mut s = String::new();
    push_number_text(&mut s, n);
    s
}

} // verus!

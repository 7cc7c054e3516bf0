//! Exact decimal literals as the language writes them.

use vstd::prelude::*;

verus! {

/// A non-negative decimal literal: its decimal digits, most significant
/// first, each below ten, with a point before the last `scale` of them. Any
/// number of digits is held exactly.
#[derive(Clone, Debug, PartialEq, Eq)]
pub struct Number {
    pub digits: Vec<u8>,
    pub scale: usize,
}

pub struct NumberView {
    pub digits: Seq<u8>,
    pub scale: nat,
}

impl View for Number {
    type V = NumberView;

    open spec fn view(&self) -> NumberView {
        NumberView { digits: self.digits@, scale: self.scale as nat }
    }
}

pub open spec fn is_digit(c: char) -> bool {
    '0' <= c && c <= '9'
}

pub open spec fn digit_value(c: char) -> nat {
    ((c as u32) - ('0' as u32)) as nat
}

/// The digit values of a run of decimal digit characters.
pub open spec fn digit_values(s: Seq<char>) -> Seq<u8> {
    s.map_values(|c: char| digit_value(c) as u8)
}

/// The literal `int_part.frac_part` (the dot left out when `frac_part` is empty).
pub open spec fn number_of(int_part: Seq<char>, frac_part: Seq<char>) -> NumberView {
    NumberView { digits: digit_values(int_part + frac_part), scale: frac_part.len() }
}

/// The value of a sequence of decimal digits, most significant first.
pub open spec fn value_of(ds: Seq<u8>) -> nat
    decreases ds.len(),
{
    if ds.len() == 0 {
        0
    } else {
        value_of(ds.drop_last()) * 10 + ds.last() as nat
    }
}

/// The digits before the point.
pub open spec fn whole_part(n: NumberView) -> Seq<u8> {
    if n.digits.len() > n.scale {
        n.digits.subrange(0, n.digits.len() - n.scale)
    } else {
        Seq::empty()
    }
}

/// The first digit after the point (0 where the literal has none there).
pub open spec fn first_fraction_digit(n: NumberView) -> nat {
    if n.scale > 0 && n.digits.len() >= n.scale {
        n.digits[n.digits.len() - n.scale] as nat
    } else {
        0
    }
}

/// The value rounded to the nearest integer, halves away from zero: the whole
/// part, plus one when the first digit after the point is 5 or more.
pub open spec fn rounded(n: NumberView) -> nat {
    value_of(whole_part(n)) + if first_fraction_digit(n) >= 5 {
        1nat
    } else {
        0nat
    }
}

/// The count a `REPEAT` runs: the rounded value, held at `u64::MAX`.
pub open spec fn repeat_count(n: NumberView) -> nat {
    if rounded(n) <= u64::MAX {
        rounded(n)
    } else {
        u64::MAX as nat
    }
}

pub open spec fn digit_char(d: nat) -> char {
    if d == 0 { '0' }
    else if d == 1 { '1' }
    else if d == 2 { '2' }
    else if d == 3 { '3' }
    else if d == 4 { '4' }
    else if d == 5 { '5' }
    else if d == 6 { '6' }
    else if d == 7 { '7' }
    else if d == 8 { '8' }
    else { '9' }
}

pub open spec fn digit_chars(ds: Seq<u8>) -> Seq<char> {
    ds.map_values(|d: u8| digit_char(d as nat))
}

/// The decimal digits of `v`, without leading zeros.
pub open spec fn decimal_digits(v: nat) -> Seq<char>
    decreases v,
{
    if v < 10 {
        seq![digit_char(v)]
    } else {
        decimal_digits(v / 10).push(digit_char(v % 10))
    }
}

pub open spec fn zeros(k: nat) -> Seq<char> {
    Seq::new(k, |i: int| '0')
}

/// How a number is written back as text: its digits, with a dot before the
/// last `scale` of them and `0.` and zeros in front where there are too few.
pub open spec fn decimal_text(n: NumberView) -> Seq<char> {
    let ds = digit_chars(n.digits);
    if n.scale == 0 {
        ds
    } else if ds.len() > n.scale {
        let k = ds.len() - n.scale;
        ds.subrange(0, k) + seq!['.'] + ds.subrange(k, ds.len() as int)
    } else {
        seq!['0', '.'] + zeros((n.scale - ds.len()) as nat) + ds
    }
}

fn digit_to_char(d: u64) -> (c: char)
    ensures
        c == digit_char(d as nat),
{
    if d == 0 { '0' }
    else if d == 1 { '1' }
    else if d == 2 { '2' }
    else if d == 3 { '3' }
    else if d == 4 { '4' }
    else if d == 5 { '5' }
    else if d == 6 { '6' }
    else if d == 7 { '7' }
    else if d == 8 { '8' }
    else { '9' }
}

pub(crate) fn push_decimal_digits(v: u64, out: &mut Vec<char>)
    ensures
        final(out)@ == old(out)@ + decimal_digits(v as nat),
    decreases v,
{
    if v < 10 {
        out.push(digit_to_char(v));
    } else {
        push_decimal_digits(v / 10, out);
        out.push(digit_to_char(v % 10));
        proof {
            let a = old(out)@;
            assert(a + decimal_digits((v / 10) as nat) + seq![digit_char((v % 10) as nat)]
                =~= a + decimal_digits(v as nat));
        }
    }
}

/// Appends the characters of `src[lo..hi]` to `out`.
fn push_digit_chars(src: &Vec<u8>, lo: usize, hi: usize, out: &mut Vec<char>)
    requires
        lo <= hi <= src@.len(),
    ensures
        final(out)@ == old(out)@ + digit_chars(src@.subrange(lo as int, hi as int)),
{
    let mut i: usize = lo;
    while i < hi
        invariant
            lo <= i <= hi <= src@.len(),
            out@ == old(out)@ + digit_chars(src@.subrange(lo as int, i as int)),
        decreases hi - i,
    {
        out.push(digit_to_char(src[i] as u64));
        proof {
            assert(digit_chars(src@.subrange(lo as int, i + 1)) =~= digit_chars(
                src@.subrange(lo as int, i as int),
            ).push(digit_char(src@[i as int] as nat)));
        }
        i = i + 1;
    }
}

/// The digit values of a run of decimal digit characters.
pub fn digits_of(cs: &Vec<char>) -> (r: Vec<u8>)
    requires
        forall|i: int| 0 <= i < cs@.len() ==> is_digit(#[trigger] cs@[i]),
    ensures
        r@ == digit_values(cs@),
{
    let mut r: Vec<u8> = Vec::new();
    let mut i: usize = 0;
    while i < cs.len()
        invariant
            i <= cs@.len(),
            forall|j: int| 0 <= j < cs@.len() ==> is_digit(#[trigger] cs@[j]),
            r@ == digit_values(cs@.subrange(0, i as int)),
        decreases cs@.len() - i,
    {
        let c = cs[i];
        assert(is_digit(cs@[i as int]));
        r.push((c as u32 - '0' as u32) as u8);
        assert(digit_values(cs@.subrange(0, i + 1)) =~= digit_values(cs@.subrange(0, i as int)).push(
            digit_value(cs@[i as int]) as u8,
        ));
        i = i + 1;
    }
    assert(cs@.subrange(0, cs@.len() as int) =~= cs@);
    r
}

impl Number {
    /// A copy of the number.
    pub fn duplicate(&self) -> (r: Number)
        ensures
            r@ == self@,
    {
        let mut digits: Vec<u8> = Vec::new();
        let mut i: usize = 0;
        while i < self.digits.len()
            invariant
                i <= self.digits@.len(),
                digits@ == self.digits@.subrange(0, i as int),
            decreases self.digits@.len() - i,
        {
            digits.push(self.digits[i]);
            assert(digits@ =~= self.digits@.subrange(0, i + 1));
            i = i + 1;
        }
        assert(digits@ =~= self.digits@);
        Number { digits, scale: self.scale }
    }

    /// The repeat count this literal stands for: its value rounded to the
    /// nearest integer, halves away from zero, and held at `u64::MAX` where
    /// it is larger.
    pub fn round(&self) -> (r: u64)
        ensures
            r as nat == repeat_count(self@),
    {
        let len = self.digits.len();
        let whole_len: usize = if len > self.scale { len - self.scale } else { 0 };
        let ghost w = whole_part(self@);
        assert(w =~= self.digits@.subrange(0, whole_len as int));
        let mut acc: u64 = 0;
        let mut i: usize = 0;
        while i < whole_len
            invariant
                whole_len <= len == self.digits@.len(),
                w == self.digits@.subrange(0, whole_len as int),
                i <= whole_len,
                acc as nat == if value_of(w.subrange(0, i as int)) <= u64::MAX {
                    value_of(w.subrange(0, i as int))
                } else {
                    u64::MAX as nat
                },
            decreases whole_len - i,
        {
            let d = self.digits[i] as u64;
            let ghost before = value_of(w.subrange(0, i as int));
            assert(w.subrange(0, i + 1).drop_last() =~= w.subrange(0, i as int));
            acc = match acc.checked_mul(10) {
                Some(t) => match t.checked_add(d) {
                    Some(v) => v,
                    None => u64::MAX,
                },
                None => u64::MAX,
            };
            proof {
                if before > u64::MAX {
                    assert(before * 10 + d >= before) by (nonlinear_arith)
                        requires before >= 0, d >= 0;
                }
            }
            i = i + 1;
        }
        assert(w.subrange(0, whole_len as int) =~= w);
        let first = if self.scale > 0 && len >= self.scale {
            self.digits[len - self.scale]
        } else {
            0
        };
        if first >= 5 {
            if acc < u64::MAX { acc + 1 } else { u64::MAX }
        } else {
            acc
        }
    }

    /// The literal written back as text (`55.5`, `0.05`, `10`).
    pub fn to_chars(&self) -> (r: Vec<char>)
        ensures
            r@ == decimal_text(self@),
    {
        let len = self.digits.len();
        let mut out: Vec<char> = Vec::new();
        if self.scale == 0 {
            push_digit_chars(&self.digits, 0, len, &mut out);
            assert(self.digits@.subrange(0, len as int) =~= self.digits@);
        } else if len > self.scale {
            let k = len - self.scale;
            push_digit_chars(&self.digits, 0, k, &mut out);
            out.push('.');
            push_digit_chars(&self.digits, k, len, &mut out);
            let ghost ds = digit_chars(self.digits@);
            assert(digit_chars(self.digits@.subrange(0, k as int)) =~= ds.subrange(0, k as int));
            assert(digit_chars(self.digits@.subrange(k as int, len as int)) =~= ds.subrange(k as int, len as int));
            assert(out@ =~= decimal_text(self@));
        } else {
            out.push('0');
            out.push('.');
            let missing = self.scale - len;
            let mut i: usize = 0;
            while i < missing
                invariant
                    i <= missing,
                    out@ =~= seq!['0', '.'] + zeros(i as nat),
                decreases missing - i,
            {
                out.push('0');
                i = i + 1;
            }
            push_digit_chars(&self.digits, 0, len, &mut out);
            assert(self.digits@.subrange(0, len as int) =~= self.digits@);
            assert(out@ =~= decimal_text(self@));
        }
        out
    }
}

} // verus!

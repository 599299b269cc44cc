//! Names of the output files.
//!
//! Every partition writes to a file of its own, named by a common prefix and
//! the partition's number in decimal, with zeros in front so that all numbers
//! are as wide as the largest.

use vstd::prelude::*;

verus! {

/// The digit 0 in ASCII.
pub const ZERO: u8 = 48;

/// How many decimal digits `n` has.
pub open spec fn decimal_width(n: nat) -> nat
    decreases n,
{
    if n < 10 {
        1
    } else {
        1 + decimal_width(n / 10)
    }
}

/// `n` in decimal: its digits in ASCII, the most significant first.
pub open spec fn decimal(n: nat) -> Seq<u8>
    decreases n,
{
    if n < 10 {
        seq![(ZERO + n) as u8]
    } else {
        decimal(n / 10).push((ZERO + n % 10) as u8)
    }
}

/// `digits` with as many zeros in front as it takes to make them `width`
/// long; `digits` themselves where they are as long or longer.
pub open spec fn zero_padded(digits: Seq<u8>, width: nat) -> Seq<u8> {
    if digits.len() >= width {
        digits
    } else {
        Seq::new((width - digits.len()) as nat, |i: int| ZERO) + digits
    }
}

/// What the name of the output file of partition `index`, of `npartitions`,
/// ends with: `index` in decimal, as wide as the largest index.
pub open spec fn suffix_of(index: nat, npartitions: nat) -> Seq<u8>
    recommends
        npartitions > 0,
{
    zero_padded(decimal(index), decimal_width((npartitions - 1) as nat))
}

/// A number in decimal has as many digits as its width says.
pub proof fn lemma_decimal_len(n: nat)
    ensures
        decimal(n).len() == decimal_width(n),
    decreases n,
{
    if n >= 10 {
        lemma_decimal_len(n / 10);
    }
}

/// A number has no more digits than a larger one.
pub proof fn lemma_decimal_width_grows(a: nat, b: nat)
    requires
        a <= b,
    ensures
        decimal_width(a) <= decimal_width(b),
    decreases b,
{
    if a >= 10 {
        lemma_decimal_width_grows(a / 10, b / 10);
    }
}

/// How many decimal digits `n` has.
pub fn width_of(n: usize) -> (width: usize)
    ensures
        width == decimal_width(n as nat),
{
    let mut rest: usize = n;
    let mut width: usize = 1;
    while rest >= 10
        invariant
            1 <= width,
            width + rest <= n + 1,
            decimal_width(n as nat) == width - 1 + decimal_width(rest as nat),
        decreases rest,
    {
        rest = rest / 10;
        width = width + 1;
    }
    width
}

/// What the name of the output file of partition `index`, of `npartitions`,
/// ends with: `index` in decimal, with zeros in front to the width of the
/// largest index, `npartitions - 1`.
pub fn shard_suffix(index: usize, npartitions: usize) -> (suffix: Vec<u8>)
    requires
        npartitions > 0,
    ensures
        suffix@ == suffix_of(index as nat, npartitions as nat),
        index < npartitions ==> suffix@.len() == decimal_width((npartitions - 1) as nat),
{
    let width = width_of(npartitions - 1);
    proof {
        lemma_decimal_len(index as nat);
        if index < npartitions {
            lemma_decimal_width_grows(index as nat, (npartitions - 1) as nat);
        }
    }
    let mut reversed: Vec<u8> = Vec::new();
    let mut rest: usize = index;
    while rest >= 10
        invariant
            decimal(index as nat) == decimal(rest as nat) + reversed@.reverse(),
        decreases rest,
    {
        let ghost before = reversed@;
        let digit: u8 = ZERO + (rest % 10) as u8;
        reversed.push(digit);
        proof {
            assert(reversed@.reverse() =~= seq![digit] + before.reverse());
            assert(decimal(rest as nat) == decimal((rest / 10) as nat).push(digit));
            assert(decimal(index as nat) =~= decimal((rest / 10) as nat) + reversed@.reverse());
        }
        rest = rest / 10;
    }
    let ghost before = reversed@;
    reversed.push(ZERO + rest as u8);
    proof {
        assert(reversed@.reverse() =~= seq![(ZERO + rest) as u8] + before.reverse());
        assert(decimal(index as nat) =~= reversed@.reverse());
    }
    let digits: usize = reversed.len();
    let mut suffix: Vec<u8> = Vec::new();
    let mut zeros: usize = 0;
    while zeros + digits < width
        invariant
            digits == reversed@.len(),
            suffix@ == Seq::new(zeros as nat, |i: int| ZERO),
            zeros + digits <= width || zeros == 0,
        decreases width - zeros,
    {
        suffix.push(ZERO);
        zeros = zeros + 1;
        assert(suffix@ =~= Seq::new(zeros as nat, |i: int| ZERO));
    }
    let ghost padding = suffix@;
    let mut left: usize = digits;
    while left > 0
        invariant
            left <= digits,
            digits == reversed@.len(),
            suffix@ == padding + reversed@.reverse().take(digits - left),
        decreases left,
    {
        left = left - 1;
        suffix.push(reversed[left]);
        proof {
            let forward = reversed@.reverse();
            assert(forward[digits - left - 1] == reversed@[left as int]);
            assert(forward.take(digits - left) =~= forward.take(digits - left - 1).push(
                forward[digits - left - 1],
            ));
            assert(suffix@ =~= padding + forward.take(digits - left));
        }
    }
    proof {
        let forward = reversed@.reverse();
        assert(forward.take(digits as int) =~= forward);
        if digits >= width {
            assert(padding =~= Seq::<u8>::empty());
            assert(suffix@ =~= forward);
        }
    }
    suffix
}

} // verus!

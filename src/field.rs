//! Goldilocks field elements, held as their canonical `u64` representative.
use vstd::prelude::*;

verus! {

/// The order of the Goldilocks field, `2^64 - 2^32 + 1`.
pub const ORDER: u64 = 0xFFFF_FFFF_0000_0001;

/// The field order as a mathematical integer.
pub open spec fn modulus() -> int {
    ORDER as int
}

/// Reduction of an integer to its canonical field representative.
pub open spec fn fe(x: int) -> int {
    x % modulus()
}

/// A field element in canonical form.
pub open spec fn canonical(x: int) -> bool {
    0 <= x < modulus()
}

/// The integers that a sequence of `u64` values stands for.
pub open spec fn ints(s: Seq<u64>) -> Seq<int> {
    s.map_values(|x: u64| x as int)
}

/// Every value of the sequence is a canonical field element.
pub open spec fn all_canonical(s: Seq<int>) -> bool {
    forall|i: int| 0 <= i < s.len() ==> canonical(#[trigger] s[i])
}

/// Doubling in the field.
pub open spec fn dbl(x: int) -> int {
    fe(2 * x)
}

/// Reduces a `u64` to its canonical representative.
pub fn reduce(x: u64) -> (r: u64)
    ensures
        r as int == fe(x as int),
{
    if x >= ORDER {
        proof {
            vstd::arithmetic::div_mod::lemma_fundamental_div_mod_converse(
                x as int, modulus(), 1, x - modulus());
        }
        x - ORDER
    } else {
        proof {
            vstd::arithmetic::div_mod::lemma_small_mod(x as nat, modulus() as nat);
        }
        x
    }
}

/// Field addition of canonical elements.
pub fn add_mod(x: u64, y: u64) -> (r: u64)
    requires
        x < ORDER,
        y < ORDER,
    ensures
        r as int == fe(x + y),
{
    let s: u128 = x as u128 + y as u128;
    (s % (ORDER as u128)) as u64
}

/// Field subtraction of canonical elements.
pub fn sub_mod(x: u64, y: u64) -> (r: u64)
    requires
        x < ORDER,
        y < ORDER,
    ensures
        r as int == fe(x - y),
{
    if x >= y {
        x - y
    } else {
        proof {
            assert(fe(x - y) == x - y + modulus()) by {
                vstd::arithmetic::div_mod::lemma_fundamental_div_mod_converse(
                    x - y, modulus(), -1, x - y + modulus());
            }
        }
        ORDER - (y - x)
    }
}

/// Field multiplication of canonical elements.
pub fn mul_mod(x: u64, y: u64) -> (r: u64)
    requires
        x < ORDER,
        y < ORDER,
    ensures
        r as int == fe(x * y),
{
    proof {
        assert((x as int) * (y as int) <= 0xFFFF_FFFF_0000_0001int * 0xFFFF_FFFF_0000_0001int) by (nonlinear_arith)
            requires
                0 <= x < 0xFFFF_FFFF_0000_0001int,
                0 <= y < 0xFFFF_FFFF_0000_0001int,
        ;
        assert(0xFFFF_FFFF_0000_0001int * 0xFFFF_FFFF_0000_0001int <= 0xFFFF_FFFF_FFFF_FFFF_FFFF_FFFF_FFFF_FFFFint);
    }
    let p: u128 = x as u128 * y as u128;
    (p % (ORDER as u128)) as u64
}

/// Doubles a canonical field element.
pub fn double(x: u64) -> (r: u64)
    requires
        x < ORDER,
    ensures
        r as int == dbl(x as int),
        r < ORDER,
{
    add_mod(x, x)
}

} // verus!

//! Numbers as bits: the binary64 numbers of IEEE 754, each held as the 64
//! bits that write it. What can be told from the bits alone is told here:
//! zero, what is no number, and how two absolute values compare. What takes
//! arithmetic is asked of a unit that the caller supplies.

use vstd::prelude::*;

verus! {

/// The 64 bits of the binary64 number zero.
pub const ZERO: u64 = 0;

/// The 64 bits of the binary64 number one.
pub const ONE: u64 = 0x3FF0_0000_0000_0000;

/// The 64 bits of the binary64 number minus one half.
pub const MINUS_HALF: u64 = 0xBFE0_0000_0000_0000;

/// The bits of a binary64 number without its sign: the bits of its absolute
/// value. Among numbers, a larger absolute value has the larger bits.
pub open spec fn magnitude(x: u64) -> u64 {
    x & 0x7FFF_FFFF_FFFF_FFFF
}

/// Whether the bits are those of no number: of a NaN.
pub open spec fn is_nan(x: u64) -> bool {
    magnitude(x) > 0x7FF0_0000_0000_0000
}

/// Whether the bits are those of zero, of either sign.
pub open spec fn is_zero(x: u64) -> bool {
    magnitude(x) == 0
}

/// Whether the absolute value of `x` is greater than that of `y`. No
/// comparison with a NaN holds.
pub open spec fn outweighs(x: u64, y: u64) -> bool {
    !is_nan(x) && !is_nan(y) && magnitude(x) > magnitude(y)
}

/// Tells whether the absolute value of `x` is greater than that of `y`.
pub fn heavier(x: u64, y: u64) -> (b: bool)
    ensures
        b == outweighs(x, y),
{
    let mx: u64 = x & 0x7FFF_FFFF_FFFF_FFFF;
    let my: u64 = y & 0x7FFF_FFFF_FFFF_FFFF;
    mx <= 0x7FF0_0000_0000_0000 && my <= 0x7FF0_0000_0000_0000 && mx > my
}

/// Tells whether the bits are those of zero, of either sign.
pub fn zero(x: u64) -> (b: bool)
    ensures
        b == is_zero(x),
{
    x & 0x7FFF_FFFF_FFFF_FFFF == 0
}

/// Tells whether the bits are those of no number.
pub fn not_a_number(x: u64) -> (b: bool)
    ensures
        b == is_nan(x),
{
    x & 0x7FFF_FFFF_FFFF_FFFF > 0x7FF0_0000_0000_0000
}

/// The bits of the absolute value.
pub fn absolute(x: u64) -> (m: u64)
    ensures
        m == magnitude(x),
{
    x & 0x7FFF_FFFF_FFFF_FFFF
}

/// Whether `error`, the bits of a number that is not negative, is less than
/// `eps`. Nothing is less than a NaN, than a negative number or than zero.
pub open spec fn below(error: u64, eps: u64) -> bool {
    eps <= 0x7FF0_0000_0000_0000 && error < eps
}

/// Tells whether `error`, the bits of a number that is not negative, is
/// less than `eps`.
pub fn is_below(error: u64, eps: u64) -> (b: bool)
    ensures
        b == below(error, eps),
{
    eps <= 0x7FF0_0000_0000_0000 && error < eps
}

/// The four operations of arithmetic.
#[derive(Debug, Clone, Copy, PartialEq, Eq, Structural)]
pub enum Op {
    Add,
    Sub,
    Mul,
    Div,
}

/// What an arithmetic unit computes: for each operation and each pair of
/// operands, as bits, the bits of the result.
pub type Arith = spec_fn(Op, u64, u64) -> u64;

/// What the arithmetic unit `unit` computes.
pub open spec fn arith<F: Fn(Op, u64, u64) -> u64>(unit: F) -> Arith {
    |op: Op, x: u64, y: u64| choose|r: u64| call_ensures(unit, (op, x, y), r)
}

/// Whether `unit` takes every operation on every pair of operands, and
/// gives the same result whenever it is asked the same.
pub open spec fn reliable<F: Fn(Op, u64, u64) -> u64>(unit: F) -> bool {
    forall|op: Op, x: u64, y: u64|
        #![trigger call_requires(unit, (op, x, y))]
        call_requires(unit, (op, x, y)) && forall|r: u64|
            call_ensures(unit, (op, x, y), r) ==> r == arith(unit)(op, x, y)
}

/// Has `unit` carry out `op` on `x` and `y`.
pub fn apply<F: Fn(Op, u64, u64) -> u64>(unit: &F, op: Op, x: u64, y: u64) -> (r: u64)
    requires
        reliable(*unit),
    ensures
        r == arith(*unit)(op, x, y),
{
    assert(call_requires(*unit, (op, x, y)));
    unit(op, x, y)
}

/// The number with the sign of `x` turned.
pub open spec fn negated(x: u64) -> u64 {
    x ^ 0x8000_0000_0000_0000
}

/// Turns the sign of `x`.
pub fn negate(x: u64) -> (y: u64)
    ensures
        y == negated(x),
{
    x ^ 0x8000_0000_0000_0000
}

/// The count `n` as a number of the arithmetic `c`: zero for none, and
/// for more the number for half the count, doubled, with a one added where
/// the count is odd.
pub open spec fn counted(c: Arith, n: nat) -> u64
    decreases n,
{
    if n == 0 {
        ZERO
    } else {
        let half = counted(c, n / 2);
        let twice = c(Op::Add, half, half);
        if n % 2 == 1 {
            c(Op::Add, twice, ONE)
        } else {
            twice
        }
    }
}

/// Turns a count into a number, by the arithmetic of `unit`.
pub fn count<F: Fn(Op, u64, u64) -> u64>(n: usize, unit: &F) -> (x: u64)
    requires
        reliable(*unit),
    ensures
        x == counted(arith(*unit), n as nat),
    decreases n,
{
    if n == 0 {
        ZERO
    } else {
        let half = count(n / 2, unit);
        let twice = apply(unit, Op::Add, half, half);
        if n % 2 == 1 {
            apply(unit, Op::Add, twice, ONE)
        } else {
            twice
        }
    }
}

} // verus!

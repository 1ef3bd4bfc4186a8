//! Integer rounding helpers and conversions between inclusive LBA ranges and sizes.
use vstd::prelude::*;

verus! {

/// Rounds `number` down to the nearest multiple of `multiple`.
pub fn round_down(number: usize, multiple: usize) -> (r: usize)
    requires
        multiple > 0,
    ensures
        r as int == (number as int / multiple as int) * multiple as int,
        r <= number,
        r as int % multiple as int == 0,
        number - r < multiple,
{
    let div = number / multiple;
    proof {
        vstd::arithmetic::div_mod::lemma_fundamental_div_mod(number as int, multiple as int);
        vstd::arithmetic::div_mod::lemma_mod_multiples_basic(div as int, multiple as int);
    }
    div * multiple
}

/// Rounds `number` up to the nearest multiple of `multiple`.
///
/// The result must fit in a `usize`.
pub fn round_up(number: usize, multiple: usize) -> (r: usize)
    requires
        multiple > 0,
        ((number as int + multiple as int - 1) / multiple as int) * multiple as int <= usize::MAX,
    ensures
        r as int == ((number as int + multiple as int - 1) / multiple as int) * multiple as int,
        r >= number,
        r as int % multiple as int == 0,
        r - number < multiple,
{
    let rem = number % multiple;
    let div = number / multiple;
    proof {
        let n = number as int;
        let m = multiple as int;
        vstd::arithmetic::div_mod::lemma_fundamental_div_mod(n, m);
        lemma_div_shift(n, m);
        vstd::arithmetic::div_mod::lemma_mod_multiples_basic(div as int, m);
        vstd::arithmetic::div_mod::lemma_mod_multiples_basic(div as int + 1, m);
        assert((div as int + 1) * m == div as int * m + m) by (nonlinear_arith);
    }
    if rem == 0 {
        return number;
    }
    (div + 1) * multiple
}

proof fn lemma_div_shift(n: int, m: int)
    requires
        n >= 0,
        m > 0,
    ensures
        n % m == 0 ==> (n + m - 1) / m == n / m,
        n % m != 0 ==> (n + m - 1) / m == n / m + 1,
        n == (n / m) * m + n % m,
{
    vstd::arithmetic::div_mod::lemma_fundamental_div_mod(n, m);
    let q = n / m;
    let r = n % m;
    assert(n == q * m + r) by (nonlinear_arith)
        requires
            n == m * (n / m) + (n % m),
            q == n / m,
            r == n % m,
    ;
    if r == 0 {
        vstd::arithmetic::div_mod::lemma_fundamental_div_mod_converse(n + m - 1, m, q, m - 1);
    } else {
        assert(n + m - 1 == (q + 1) * m + (r - 1)) by (nonlinear_arith)
            requires
                n == q * m + r,
        ;
        vstd::arithmetic::div_mod::lemma_fundamental_div_mod_converse(n + m - 1, m, q + 1, r - 1);
    }
}

/// Returns `numerator / denominator`, rounded up.
pub fn div_round_up(numerator: usize, denominator: usize) -> (r: usize)
    requires
        denominator > 0,
    ensures
        r as int == (numerator as int + denominator as int - 1) / denominator as int,
        r as int * denominator as int >= numerator,
        (r as int - 1) * (denominator as int) < numerator as int,
{
    let div = numerator / denominator;
    let rem = numerator % denominator;
    proof {
        let n = numerator as int;
        let d = denominator as int;
        lemma_div_shift(n, d);
        assert((div as int + 1) * d == div as int * d + d) by (nonlinear_arith);
        assert((div as int - 1) * d == div as int * d - d) by (nonlinear_arith);
        assert(div as int * d <= n);
        if rem != 0 {
            assert(d >= 2);
            assert(div as int * 2 <= div as int * d) by (nonlinear_arith)
                requires
                    d >= 2,
                    div >= 0,
            ;
        }
    }
    if rem == 0 {
        div
    } else {
        div + 1
    }
}

/// Number of LBAs in the inclusive range `start..=end`.
pub fn start_end_to_size(start: usize, end: usize) -> (r: usize)
    requires
        start <= end,
        end - start < usize::MAX,
    ensures
        r == end - start + 1,
{
    (end - start) + 1
}

/// Last LBA of a range of `size` LBAs that starts at `start`.
pub fn start_size_to_end(start: usize, size: usize) -> (r: usize)
    requires
        size >= 1,
        start + size - 1 <= usize::MAX,
    ensures
        r == start + size - 1,
{
    start + (size - 1)
}

/// First LBA of a range of `size` LBAs that ends at `end`.
pub fn size_end_to_start(size: usize, end: usize) -> (r: usize)
    requires
        size >= 1,
        end >= size - 1,
    ensures
        r == end - (size - 1),
{
    end - (size - 1)
}

} // verus!

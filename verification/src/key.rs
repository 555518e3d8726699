//! Key-to-digit indexing. A fixed-width integer key is read as a sequence
//! of digits in base `branching_factor`, most significant first; the trie
//! uses one digit per level. The digit at `e` levels above the units place
//! is `(key / bf^e) % bf`; `max_depth` is the position of the most
//! significant digit that any key of the type can populate.

use vstd::prelude::*;
use vstd::arithmetic::logarithm::{log, lemma_log0, lemma_log_s};
use vstd::arithmetic::power::{
    pow, lemma_pow0, lemma_pow1, lemma_pow_adds, lemma_pow_positive, lemma_pow_increases,
    lemma_pow_multiplies,
};
use vstd::arithmetic::power2::{pow2, lemma_pow2, lemma_pow2_pos, lemma_pow2_unfold, lemma_pow2_strictly_increases, lemma2_to64};
use vstd::arithmetic::div_mod::{
    lemma_div_decreases, lemma_div_pos_is_pos, lemma_fundamental_div_mod,
    lemma_fundamental_div_mod_converse, lemma_div_denominator, lemma_mod_breakdown,
    lemma_small_mod, lemma_mod_bound, lemma_div_is_ordered, lemma_remainder_lower,
};
use vstd::arithmetic::mul::lemma_mul_inequality;
use vstd::bits::{low_bits_mask, lemma_usize_shr_is_div, lemma_usize_low_bits_mask_is_mod};

verus! {

/// The digit of `key`, in base `bf`, standing `e` places above the units
/// place: `(key / bf^e) % bf`.
pub open spec fn digit_of(key: nat, bf: nat, e: nat) -> nat {
    ((key as int / pow(bf as int, e)) % (bf as int)) as nat
}

/// The number of digit positions above the units place that the largest
/// key `max` reaches in base `bf`: the floor logarithm of `max`.
pub open spec fn max_depth_spec(bf: nat, max: nat) -> nat {
    log(bf as int, max as int) as nat
}

/// The value written by the digits of `key` at places `0 .. e`, i.e.
/// `sum of digit_of(key, bf, i) * bf^i` for `i < e`.
pub open spec fn digits_value(key: nat, bf: nat, e: nat) -> nat
    decreases e,
{
    if e == 0 {
        0
    } else {
        (digits_value(key, bf, (e - 1) as nat) + digit_of(key, bf, (e - 1) as nat) * pow(
            bf as int,
            (e - 1) as nat,
        )) as nat
    }
}

/// The floor logarithm splits the value space into powers of the base:
/// `max_depth_spec(bf, max)` is the unique `d` with `bf^d <= max < bf^(d+1)`.
pub proof fn lemma_max_depth_char(bf: nat, max: nat)
    requires
        2 <= bf,
        1 <= max,
    ensures
        pow(bf as int, max_depth_spec(bf, max)) <= max as int,
        (max as int) < pow(bf as int, (max_depth_spec(bf, max) + 1) as nat),
    decreases max,
{
    let b = bf as int;
    let m = max as int;
    vstd::arithmetic::logarithm::lemma_log_nonnegative(b, m);
    if m < b {
        lemma_log0(b, m);
        lemma_pow0(b);
        lemma_pow1(b);
    } else {
        lemma_div_pos_is_pos(m, b);
        lemma_div_decreases(m, b);
        lemma_remainder_lower(m, b);
        vstd::arithmetic::div_mod::lemma_div_non_zero(m, b);
        assert(1 <= m / b < m);
        lemma_max_depth_char(bf, (m / b) as nat);
        lemma_log_s(b, m);
        vstd::arithmetic::logarithm::lemma_log_nonnegative(b, m / b);
        let d = log(b, m / b) as nat;
        assert(log(b, m) as nat == d + 1);
        assert(log(b, m) == 1 + log(b, m / b));
        // lift pow(b, d) <= m/b < pow(b, d+1) by one factor of b
        lemma_pow_adds(b, d, 1);
        lemma_pow_adds(b, (d + 1) as nat, 1);
        lemma_pow1(b);
        lemma_fundamental_div_mod(m, b);
        lemma_mod_bound(m, b);
        assert(pow(b, (d + 1) as nat) == pow(b, d) * b);
        lemma_mul_inequality(pow(b, d), m / b, b);
        assert(pow(b, d) * b <= (m / b) * b);
        vstd::arithmetic::mul::lemma_mul_is_commutative(m / b, b);
        assert((m / b) * b <= m);
        assert(pow(b, (d + 1) as nat) <= m);
        assert(m / b < pow(b, (d + 1) as nat));
        assert(m / b + 1 <= pow(b, (d + 1) as nat));
        lemma_mul_inequality(m / b + 1, pow(b, (d + 1) as nat), b);
        assert((m / b + 1) * b <= pow(b, (d + 1) as nat) * b);
        vstd::arithmetic::mul::lemma_mul_is_distributive_add(b, m / b, 1);
        vstd::arithmetic::mul::lemma_mul_is_commutative(m / b + 1, b);
        assert(b * (m / b + 1) == b * (m / b) + b * 1);
        assert(m < (m / b + 1) * b);
        assert(pow(b, (d + 2) as nat) == pow(b, (d + 1) as nat) * b);
    }
}

/// The floor logarithm never exceeds its argument.
pub proof fn lemma_max_depth_le(bf: nat, max: nat)
    requires
        2 <= bf,
    ensures
        max_depth_spec(bf, max) <= max,
    decreases max,
{
    let b = bf as int;
    let m = max as int;
    if m < b {
        lemma_log0(b, m);
    } else {
        lemma_div_pos_is_pos(m, b);
        lemma_div_decreases(m, b);
        vstd::arithmetic::div_mod::lemma_div_non_zero(m, b);
        lemma_max_depth_le(bf, (m / b) as nat);
        lemma_log_s(b, m);
        vstd::arithmetic::logarithm::lemma_log_nonnegative(b, m / b);
    }
}

/// A key's digits written back in place recover the key's remainder:
/// `digits_value(key, bf, e) == key % bf^e`.
pub proof fn lemma_digits_value(key: nat, bf: nat, e: nat)
    requires
        2 <= bf,
    ensures
        digits_value(key, bf, e) == key as int % pow(bf as int, e),
    decreases e,
{
    let b = bf as int;
    let k = key as int;
    if e == 0 {
        lemma_pow0(b);
        assert(k % 1 == 0) by (nonlinear_arith);
    } else {
        let e1 = (e - 1) as nat;
        lemma_digits_value(key, bf, e1);
        lemma_pow_positive(b, e1);
        lemma_mod_breakdown(k, pow(b, e1), b);
        lemma_pow_adds(b, e1, 1);
        lemma_pow1(b);
        assert(pow(b, e) == pow(b, e1) * b);
        assert(k % (pow(b, e1) * b) == pow(b, e1) * ((k / pow(b, e1)) % b) + k % pow(b, e1));
        vstd::arithmetic::mul::lemma_mul_is_commutative(pow(b, e1), (k / pow(b, e1)) % b);
        lemma_mod_bound(k / pow(b, e1), b);
        lemma_mod_bound(k, pow(b, e1));
        assert(digit_of(key, bf, e1) as int == (k / pow(b, e1)) % b);
        assert(digits_value(key, bf, e) as int == digits_value(key, bf, e1) + digit_of(key, bf, e1)
            * pow(b, e1));
    }
}

/// Reconstruction: for every key and branching factor, reading the digits
/// at all places `0 ..= d` (that is, trie depths `0 ..= d` taken most
/// significant first) and writing them back gives the key itself, as long
/// as the key fits in `d + 1` digits. The same digits are produced by the
/// shift/mask path and the division path (`lemma_pow2_digit_agrees`), so
/// either reading reconstructs the key.
pub proof fn lemma_digits_reconstruct(key: nat, bf: nat, d: nat)
    requires
        2 <= bf,
        (key as int) < pow(bf as int, (d + 1) as nat),
    ensures
        digits_value(key, bf, (d + 1) as nat) == key,
{
    lemma_digits_value(key, bf, (d + 1) as nat);
    lemma_small_mod(key, pow(bf as int, (d + 1) as nat) as nat);
    lemma_pow_positive(bf as int, (d + 1) as nat);
}

/// When the branching factor is a power of two, `bf == 2^m`, the digit a
/// shift and mask extract — `(key >> (m*e)) mod 2^m`, i.e.
/// `(key / 2^(m*e)) % 2^m` — is the digit the general division path
/// extracts.
pub proof fn lemma_pow2_digit_agrees(key: nat, m: nat, e: nat)
    ensures
        (key as int / pow2((m * e) as nat) as int) % (pow2(m) as int) == digit_of(
            key,
            pow2(m),
            e,
        ) as int,
{
    lemma_pow2(m);
    lemma_pow2((m * e) as nat);
    lemma_pow_multiplies(2, m, e);
    assert(pow2(m) as int == pow(2, m));
    assert(pow2((m * e) as nat) as int == pow(2, (m * e) as nat));
    assert(pow(pow2(m) as int, e) == pow(pow(2, m), e));
    assert(pow2((m * e) as nat) as int == pow(pow2(m) as int, e));
    lemma_pow2_pos(m);
    lemma_pow2_pos((m * e) as nat);
    lemma_mod_bound(key as int / pow2((m * e) as nat) as int, pow2(m) as int);
}

/// A key of a fixed-width integer type, readable as a sequence of digits
/// in an arbitrary base.
pub trait Key: Sized {
    /// The key's numeric value.
    spec fn as_nat(&self) -> nat;

    /// The largest value a key of this type can take.
    spec fn max_spec() -> nat;

    /// Every key is bounded by the type's largest value.
    proof fn lemma_key_in_range(&self)
        ensures
            self.as_nat() <= Self::max_spec(),
    ;

    /// The type holds at least the values 0 and 1.
    proof fn lemma_max_at_least_one()
        ensures
            1 <= Self::max_spec(),
    ;

    /// The key's value in the native index domain.
    fn to_usize(&self) -> (r: usize)
        requires
            self.as_nat() <= usize::MAX as nat,
        ensures
            r as nat == self.as_nat(),
    ;

    /// The deepest trie level for the given branching factor: the place of
    /// the most significant digit of the largest key of this type.
    fn max_depth(branching_factor: usize) -> (r: usize)
        requires
            2 <= branching_factor,
        ensures
            r as nat == max_depth_spec(branching_factor as nat, Self::max_spec()),
    ;

    /// The digit of this key at the given trie depth, most significant
    /// first: depth 0 is the place `max_depth` above the units place, and
    /// depth `max_depth` is the units place.
    fn index_at(&self, branching_factor: usize, depth: usize) -> (r: usize)
        requires
            2 <= branching_factor,
            self.as_nat() <= usize::MAX as nat,
            depth as nat <= max_depth_spec(branching_factor as nat, Self::max_spec()),
            pow(
                branching_factor as int,
                max_depth_spec(branching_factor as nat, Self::max_spec()),
            ) <= usize::MAX as int,
        ensures
            r as nat == digit_of(
                self.as_nat(),
                branching_factor as nat,
                (max_depth_spec(branching_factor as nat, Self::max_spec()) - depth) as nat,
            ),
            r < branching_factor,
    ;
}

/// The floor logarithm of `n` in base `bf`, by repeated division.
fn floor_log_u64(bf: u64, n: u64) -> (r: usize)
    requires
        2 <= bf,
        1 <= n,
    ensures
        r as int == log(bf as int, n as int),
        r < 64,
{
    let ghost b = bf as int;
    let mut m: u64 = n;
    let mut r: usize = 0;
    proof {
        lemma_pow0(b);
    }
    while m >= bf
        invariant
            2 <= bf,
            1 <= m,
            b == bf as int,
            log(b, n as int) == r + log(b, m as int),
            pow(b, r as nat) * m as int <= n as int,
        decreases m,
    {
        proof {
            lemma_log_s(b, m as int);
            lemma_div_pos_is_pos(m as int, b);
            lemma_div_decreases(m as int, b);
            lemma_pow_adds(b, r as nat, 1);
            lemma_pow1(b);
            lemma_pow_positive(b, r as nat);
            let p = pow(b, r as nat);
            assert(pow(b, (r + 1) as nat) == p * b);
            lemma_div_is_ordered(bf as int, m as int, b);
            assert(1 <= m as int / b);
            // p * (b * (m / b)) <= p * m since b * (m / b) <= m
            lemma_fundamental_div_mod(m as int, b);
            lemma_mod_bound(m as int, b);
            assert(b * (m as int / b) <= m as int);
            lemma_mul_inequality(b * (m as int / b), m as int, p);
            vstd::arithmetic::mul::lemma_mul_is_commutative(b * (m as int / b), p);
            vstd::arithmetic::mul::lemma_mul_is_commutative(m as int, p);
            vstd::arithmetic::mul::lemma_mul_is_associative(p, b, m as int / b);
            assert((p * b) * (m as int / b) <= p * m as int);
        }
        assert(r < 64) by {
            lemma_floor_log_bound(b, r as nat, m as int, n as int);
        };
        m = m / bf;
        r = r + 1;
    }
    proof {
        lemma_log0(b, m as int);
    }
    assert(r < 64) by {
        lemma_floor_log_bound(b, r as nat, m as int, n as int);
    };
    r
}

/// Power monotonicity in the base: `2 <= bf` gives `pow(2, e) <= pow(bf, e)`.
proof fn lemma_pow_base_increases(e: nat, bf: int)
    requires
        2 <= bf,
    ensures
        pow(2, e) <= pow(bf, e),
    decreases e,
{
    reveal(pow);
    if e > 0 {
        lemma_pow_base_increases((e - 1) as nat, bf);
        lemma_pow_positive(2, (e - 1) as nat);
        lemma_pow_positive(bf, (e - 1) as nat);
        assert(pow(2, e) == 2 * pow(2, (e - 1) as nat));
        assert(pow(bf, e) == bf * pow(bf, (e - 1) as nat));
        lemma_mul_inequality(pow(2, (e - 1) as nat), pow(bf, (e - 1) as nat), bf);
        vstd::arithmetic::mul::lemma_mul_is_commutative(pow(2, (e - 1) as nat), bf);
        vstd::arithmetic::mul::lemma_mul_is_commutative(pow(bf, (e - 1) as nat), bf);
        lemma_mul_inequality(2, bf, pow(2, (e - 1) as nat));
        vstd::arithmetic::mul::lemma_mul_is_commutative(2, pow(2, (e - 1) as nat));
        vstd::arithmetic::mul::lemma_mul_is_commutative(bf, pow(2, (e - 1) as nat));
    }
}

/// In the floor-log loop, `pow(b, r) * m <= n < 2^64` with `m >= 1` bounds
/// the count of divisions: `r < 64`.
proof fn lemma_floor_log_bound(b: int, r: nat, m: int, n: int)
    requires
        2 <= b,
        1 <= m,
        pow(b, r) * m <= n,
        n <= u64::MAX as int,
    ensures
        r < 64,
{
    if r >= 64 {
        lemma_pow_increases(2, 64, r);
        lemma_pow_base_increases(r, b);
        assert(pow(2, 64) <= pow(2, r));
        assert(pow(2, r) <= pow(b, r));
        lemma_pow_positive(b, r);
        lemma_mul_inequality(1, m, pow(b, r));
        vstd::arithmetic::mul::lemma_mul_is_commutative(1, pow(b, r));
        vstd::arithmetic::mul::lemma_mul_is_commutative(m, pow(b, r));
        assert(pow(b, r) <= pow(b, r) * m);
        lemma2_to64();
        lemma_pow2(64);
        assert(pow(2, 64) == 0x1_0000_0000_0000_0000);
        assert(false);
    }
}

/// Every exponent lies below its power of two: `n < pow2(n)`.
proof fn lemma_n_lt_pow2(n: nat)
    ensures
        n < pow2(n),
    decreases n,
{
    if n == 0 {
        lemma2_to64();
    } else {
        lemma_n_lt_pow2((n - 1) as nat);
        lemma_pow2_unfold(n);
    }
}

/// `bf^e`, by repeated multiplication.
fn pow_exec(bf: usize, e: usize) -> (r: usize)
    requires
        2 <= bf,
        pow(bf as int, e as nat) <= usize::MAX as int,
    ensures
        r as int == pow(bf as int, e as nat),
{
    let mut acc: usize = 1;
    let mut i: usize = 0;
    proof {
        lemma_pow0(bf as int);
    }
    while i < e
        invariant
            2 <= bf,
            i <= e,
            acc as int == pow(bf as int, i as nat),
            pow(bf as int, e as nat) <= usize::MAX as int,
        decreases e - i,
    {
        proof {
            lemma_pow_adds(bf as int, i as nat, 1);
            lemma_pow1(bf as int);
            assert(pow(bf as int, (i + 1) as nat) == acc as int * bf as int);
            lemma_pow_increases(bf as nat, (i + 1) as nat, e as nat);
        }
        acc = acc * bf;
        i = i + 1;
    }
    acc
}

/// The digit by the division path: `(key / bf^e) % bf`.
fn digit_divmod(key: usize, bf: usize, e: usize) -> (r: usize)
    requires
        2 <= bf,
        pow(bf as int, e as nat) <= usize::MAX as int,
    ensures
        r as nat == digit_of(key as nat, bf as nat, e as nat),
        r < bf,
{
    let p = pow_exec(bf, e);
    proof {
        lemma_pow_positive(bf as int, e as nat);
        lemma_div_pos_is_pos(key as int, p as int);
        lemma_mod_bound(key as int / p as int, bf as int);
    }
    (key / p) % bf
}

/// The exponent of a power of two: `Some(m)` means `bf == 2^m`. A branching
/// factor with an odd factor above 1 yields `None`.
fn pow2_exponent(bf: usize) -> (r: Option<usize>)
    requires
        2 <= bf,
    ensures
        r matches Some(m) ==> bf as nat == pow2(m as nat),
{
    let mut b: usize = bf;
    let mut m: usize = 0;
    proof {
        lemma2_to64();
    }
    while b % 2 == 0
        invariant
            1 <= b,
            bf as nat == b as nat * pow2(m as nat),
        decreases b,
    {
        proof {
            lemma_pow2_unfold((m + 1) as nat);
            lemma_pow2_pos(m as nat);
            lemma_n_lt_pow2(m as nat);
            // m stays well below usize::MAX: pow2(m) <= bf
            lemma_mul_inequality(1, b as int, pow2(m as nat) as int);
            vstd::arithmetic::mul::lemma_mul_is_commutative(1, pow2(m as nat) as int);
            vstd::arithmetic::mul::lemma_mul_is_commutative(b as int, pow2(m as nat) as int);
            assert(pow2(m as nat) <= bf as nat);
            assert((b as nat / 2) * (2 * pow2(m as nat)) == b as nat * pow2(m as nat)) by {
                assert(b as nat % 2 == 0);
                assert(b as nat / 2 * 2 == b as nat);
                vstd::arithmetic::mul::lemma_mul_is_associative(
                    b as int / 2,
                    2,
                    pow2(m as nat) as int,
                );
            };
        }
        b = b / 2;
        m = m + 1;
    }
    if b == 1 {
        Some(m)
    } else {
        None
    }
}

/// The digit by the shift path: `(key >> (m * e)) & (bf - 1)`, for
/// `bf == 2^m`. Agrees with the division path (`lemma_pow2_digit_agrees`).
fn digit_shift(key: usize, bf: usize, m: usize, e: usize) -> (r: usize)
    requires
        2 <= bf,
        bf as nat == pow2(m as nat),
        pow(bf as int, e as nat) <= usize::MAX as int,
    ensures
        r as nat == digit_of(key as nat, bf as nat, e as nat),
        r < bf,
{
    proof {
        // m * e is a valid shift amount: pow2(m * e) == bf^e <= usize::MAX
        lemma_pow2(m as nat);
        lemma_pow_multiplies(2, m as nat, e as nat);
        lemma_pow2((m * e) as nat);
        assert(pow2((m as nat) * (e as nat)) <= usize::MAX as nat);
        vstd::layout::unsigned_int_max_values();
        lemma_n_lt_pow2(usize::BITS as nat);
        assert(((m as nat) * (e as nat)) < (usize::BITS as nat)) by {
            if (m as nat) * (e as nat) >= usize::BITS as nat {
                lemma_pow2_strictly_increases_or_eq((usize::BITS) as nat, (m as nat) * (e as nat));
                assert(false);
            }
        };
    }
    let s = m * e;
    let r = (key >> s) & (bf - 1);
    proof {
        lemma_usize_shr_is_div(key, s);
        assert((m as nat) < (usize::BITS as nat)) by {
            if m >= usize::BITS {
                lemma_pow2_strictly_increases_or_eq(usize::BITS as nat, m as nat);
                assert(false);
            }
        };
        lemma_usize_low_bits_mask_is_mod(key >> s, m as nat);
        assert(bf - 1 == low_bits_mask(m as nat));
        lemma_pow2_digit_agrees(key as nat, m as nat, e as nat);
        lemma_pow2_pos(m as nat);
        lemma_mod_bound((key >> s) as int, pow2(m as nat) as int);
    }
    r
}

/// Monotonicity of `pow2` with equality allowed: `e1 <= e2` gives
/// `pow2(e1) <= pow2(e2)`.
proof fn lemma_pow2_strictly_increases_or_eq(e1: nat, e2: nat)
    requires
        e1 <= e2,
    ensures
        pow2(e1) <= pow2(e2),
{
    if e1 < e2 {
        lemma_pow2_strictly_increases(e1, e2);
    }
}

/// The digit of `key` at trie depth `depth`, most significant digit first:
/// `(key / bf^(md - depth)) % bf` where `md` is the deepest level. Picks
/// the shift path for a power-of-two branching factor and the division
/// path otherwise; the two agree.
fn digit_index(key: usize, bf: usize, md: usize, depth: usize) -> (r: usize)
    requires
        2 <= bf,
        depth <= md,
        pow(bf as int, md as nat) <= usize::MAX as int,
    ensures
        r as nat == digit_of(key as nat, bf as nat, (md - depth) as nat),
        r < bf,
{
    let e = md - depth;
    proof {
        lemma_pow_increases(bf as nat, e as nat, md as nat);
    }
    match pow2_exponent(bf) {
        Some(m) => digit_shift(key, bf, m, e),
        None => digit_divmod(key, bf, e),
    }
}

impl Key for u8 {
    open spec fn as_nat(&self) -> nat {
        *self as nat
    }

    open spec fn max_spec() -> nat {
        u8::MAX as nat
    }

    proof fn lemma_key_in_range(&self) {
    }

    proof fn lemma_max_at_least_one() {
    }

    fn to_usize(&self) -> (r: usize) {
        *self as usize
    }

    fn max_depth(branching_factor: usize) -> (r: usize) {
        floor_log_u64(branching_factor as u64, u8::MAX as u64)
    }

    fn index_at(&self, branching_factor: usize, depth: usize) -> (r: usize) {
        digit_index(self.to_usize(), branching_factor, Self::max_depth(branching_factor), depth)
    }
}

impl Key for u16 {
    open spec fn as_nat(&self) -> nat {
        *self as nat
    }

    open spec fn max_spec() -> nat {
        u16::MAX as nat
    }

    proof fn lemma_key_in_range(&self) {
    }

    proof fn lemma_max_at_least_one() {
    }

    fn to_usize(&self) -> (r: usize) {
        *self as usize
    }

    fn max_depth(branching_factor: usize) -> (r: usize) {
        floor_log_u64(branching_factor as u64, u16::MAX as u64)
    }

    fn index_at(&self, branching_factor: usize, depth: usize) -> (r: usize) {
        digit_index(self.to_usize(), branching_factor, Self::max_depth(branching_factor), depth)
    }
}

impl Key for u32 {
    open spec fn as_nat(&self) -> nat {
        *self as nat
    }

    open spec fn max_spec() -> nat {
        u32::MAX as nat
    }

    proof fn lemma_key_in_range(&self) {
    }

    proof fn lemma_max_at_least_one() {
    }

    fn to_usize(&self) -> (r: usize) {
        *self as usize
    }

    fn max_depth(branching_factor: usize) -> (r: usize) {
        floor_log_u64(branching_factor as u64, u32::MAX as u64)
    }

    fn index_at(&self, branching_factor: usize, depth: usize) -> (r: usize) {
        digit_index(self.to_usize(), branching_factor, Self::max_depth(branching_factor), depth)
    }
}

impl Key for u64 {
    open spec fn as_nat(&self) -> nat {
        *self as nat
    }

    open spec fn max_spec() -> nat {
        u64::MAX as nat
    }

    proof fn lemma_key_in_range(&self) {
    }

    proof fn lemma_max_at_least_one() {
    }

    fn to_usize(&self) -> (r: usize) {
        *self as usize
    }

    fn max_depth(branching_factor: usize) -> (r: usize) {
        floor_log_u64(branching_factor as u64, u64::MAX)
    }

    fn index_at(&self, branching_factor: usize, depth: usize) -> (r: usize) {
        digit_index(self.to_usize(), branching_factor, Self::max_depth(branching_factor), depth)
    }
}

impl Key for usize {
    open spec fn as_nat(&self) -> nat {
        *self as nat
    }

    open spec fn max_spec() -> nat {
        usize::MAX as nat
    }

    proof fn lemma_key_in_range(&self) {
    }

    proof fn lemma_max_at_least_one() {
    }

    fn to_usize(&self) -> (r: usize) {
        *self
    }

    fn max_depth(branching_factor: usize) -> (r: usize) {
        floor_log_u64(branching_factor as u64, usize::MAX as u64)
    }

    fn index_at(&self, branching_factor: usize, depth: usize) -> (r: usize) {
        digit_index(self.to_usize(), branching_factor, Self::max_depth(branching_factor), depth)
    }
}

} // verus!

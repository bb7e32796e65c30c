//! Portable bit primitives over 32- and 128-bit words: population count,
//! index of the n-th set bit, lowest set bit, and the compress step used by
//! the single-board move finder.
//!
//! The specification style is uniform: `bit128(x, i)` reads bit `i` of `x`,
//! and `popcnt_low(x, n)` counts the set bits at positions below `n`.  All
//! bit-level reasoning is concentrated in a handful of lemmas here, so the
//! rest of the crate can work with `bit128`/`popcnt128` alone.
use vstd::prelude::*;

verus! {

/// All 81 cell bits of the nested board, packed low in a 128-bit word.
pub const GRID_MASK: u128 = 0x1_FFFF_FFFF_FFFF_FFFF_FFFFu128;

/// Bit `i` of `x`; positions outside the word read as zero.
pub open spec fn bit128(x: u128, i: int) -> bool {
    0 <= i < 128 && (x >> (i as u128)) & 1 == 1
}

/// Number of set bits of `x` at positions strictly below `n`.
#[verifier::opaque]
pub open spec fn popcnt_low(x: u128, n: nat) -> nat
    decreases n,
{
    if n == 0 {
        0
    } else {
        popcnt_low(x, (n - 1) as nat) + if bit128(x, n - 1) {
            1nat
        } else {
            0nat
        }
    }
}

/// Number of set bits of `x`.
#[verifier::opaque]
pub open spec fn popcnt128(x: u128) -> nat {
    popcnt_low(x, 128)
}

/// At most `n` bits lie below position `n`.
pub proof fn lemma_popcnt_low_le(x: u128, n: nat)
    ensures
        popcnt_low(x, n) <= n,
    decreases n,
{
    reveal(popcnt_low);
    reveal(popcnt128);
    if n > 0 {
        lemma_popcnt_low_le(x, (n - 1) as nat);
    }
}

/// Counting further up never loses bits.
pub proof fn lemma_popcnt_low_mono(x: u128, m: nat, n: nat)
    requires
        m <= n,
    ensures
        popcnt_low(x, m) <= popcnt_low(x, n),
    decreases n,
{
    reveal(popcnt_low);
    reveal(popcnt128);
    if m < n {
        lemma_popcnt_low_mono(x, m, (n - 1) as nat);
    }
}

/// A set bit at position `m` is counted by any prefix beyond it.
pub proof fn lemma_popcnt_low_step(x: u128, m: nat, n: nat)
    requires
        m < n,
        bit128(x, m as int),
    ensures
        popcnt_low(x, m) < popcnt_low(x, n),
    decreases n,
{
    reveal(popcnt_low);
    reveal(popcnt128);
    if m + 1 < n {
        lemma_popcnt_low_step(x, m, (n - 1) as nat);
    }
}

/// If two words agree on all bits below `n`, they count alike there.
pub proof fn lemma_popcnt_low_congruence(x: u128, y: u128, n: nat)
    requires
        forall|i: int| 0 <= i < n ==> bit128(x, i) == bit128(y, i),
    ensures
        popcnt_low(x, n) == popcnt_low(y, n),
    decreases n,
{
    reveal(popcnt_low);
    reveal(popcnt128);
    if n > 0 {
        lemma_popcnt_low_congruence(x, y, (n - 1) as nat);
    }
}

/// A word whose set bits include those of another has at least its count.
pub proof fn lemma_popcnt_low_subset(x: u128, y: u128, n: nat)
    requires
        forall|i: int| 0 <= i < n && bit128(x, i) ==> bit128(y, i),
    ensures
        popcnt_low(x, n) <= popcnt_low(y, n),
    decreases n,
{
    reveal(popcnt_low);
    reveal(popcnt128);
    if n > 0 {
        lemma_popcnt_low_subset(x, y, (n - 1) as nat);
    }
}

/// A superset with one extra set bit has a strictly larger count.
pub proof fn lemma_popcnt_strict_subset(x: u128, y: u128, k: int)
    requires
        forall|i: int| bit128(x, i) ==> bit128(y, i),
        0 <= k < 128,
        !bit128(x, k),
        bit128(y, k),
    ensures
        popcnt128(x) < popcnt128(y),
{
    reveal(popcnt_low);
    reveal(popcnt128);
    lemma_popcnt_low_subset(x, y, k as nat);
    lemma_popcnt_low_subset(x, y, 128);
    assert(popcnt_low(y, (k + 1) as nat) == popcnt_low(y, k as nat) + 1);
    assert(popcnt_low(x, (k + 1) as nat) == popcnt_low(x, k as nat));
    lemma_popcnt_split(x, k as nat, 128);
    lemma_popcnt_split(y, k as nat, 128);
    lemma_popcnt_range_subset(x, y, (k + 1) as nat, 128);
}

/// Set bits between `m` and `n`, counted as a difference of prefixes.
proof fn lemma_popcnt_split(x: u128, m: nat, n: nat)
    requires
        m <= n,
    ensures
        popcnt_low(x, n) == popcnt_low(x, m) + (popcnt_low(x, n) - popcnt_low(x, m)),
{
    reveal(popcnt_low);
    reveal(popcnt128);
    lemma_popcnt_low_mono(x, m, n);
}

/// Subset counting over an upper range `[m, n)`.
proof fn lemma_popcnt_range_subset(x: u128, y: u128, m: nat, n: nat)
    requires
        m <= n,
        forall|i: int| m <= i < n && bit128(x, i) ==> bit128(y, i),
    ensures
        popcnt_low(x, n) - popcnt_low(x, m) <= popcnt_low(y, n) - popcnt_low(y, m),
    decreases n,
{
    reveal(popcnt_low);
    reveal(popcnt128);
    if m < n {
        lemma_popcnt_range_subset(x, y, m, (n - 1) as nat);
    }
}

/// Bitwise or, read bit by bit.
pub proof fn lemma_bit_or128(x: u128, y: u128)
    ensures
        forall|i: int| 0 <= i < 128 ==> #[trigger] bit128(x | y, i) == (bit128(x, i) || bit128(
            y,
            i,
        )),
{
    assert forall|i: int| 0 <= i < 128 implies #[trigger] bit128(x | y, i) == (bit128(x, i)
        || bit128(y, i)) by {
        let j = i as u128;
        assert(j < 128 ==> ((((x | y) >> j) & 1 == 1) <==> (((x >> j) & 1 == 1) || ((y >> j) & 1
            == 1)))) by (bit_vector);
    }
}

/// Bitwise and, read bit by bit.
pub proof fn lemma_bit_and128(x: u128, y: u128)
    ensures
        forall|i: int| 0 <= i < 128 ==> #[trigger] bit128(x & y, i) == (bit128(x, i) && bit128(
            y,
            i,
        )),
{
    assert forall|i: int| 0 <= i < 128 implies #[trigger] bit128(x & y, i) == (bit128(x, i)
        && bit128(y, i)) by {
        let j = i as u128;
        assert(j < 128 ==> ((((x & y) >> j) & 1 == 1) <==> (((x >> j) & 1 == 1) && ((y >> j) & 1
            == 1)))) by (bit_vector);
    }
}

/// The 81-bit complement `!x & GRID_MASK`, read bit by bit.
pub proof fn lemma_bit_complement_grid(x: u128)
    ensures
        forall|i: int| 0 <= i < 128 ==> #[trigger] bit128(!x & GRID_MASK, i) == (i < 81 && !bit128(
            x,
            i,
        )),
{
    assert forall|i: int| 0 <= i < 128 implies #[trigger] bit128(!x & GRID_MASK, i) == (i < 81
        && !bit128(x, i)) by {
        let j = i as u128;
        assert(j < 128 ==> ((((!x & 0x1_FFFF_FFFF_FFFF_FFFF_FFFFu128) >> j) & 1 == 1) <==> (j < 81
            && !((x >> j) & 1 == 1)))) by (bit_vector);
    }
}

/// A single set bit at position `k`, read bit by bit.
pub proof fn lemma_bit_single(k: u128)
    requires
        k < 128,
    ensures
        forall|i: int| 0 <= i < 128 ==> #[trigger] bit128(1u128 << k, i) == (i == k),
{
    assert forall|i: int| 0 <= i < 128 implies #[trigger] bit128(1u128 << k, i) == (i == k) by {
        let j = i as u128;
        assert(j < 128 && k < 128 ==> ((((1u128 << k) >> j) & 1 == 1) <==> j == k)) by (bit_vector);
    }
}

/// The 9-bit block of sub-board `b`, read bit by bit.
pub proof fn lemma_bit_block(b: u128)
    requires
        b < 9,
    ensures
        forall|i: int| 0 <= i < 128 ==> #[trigger] bit128(0x1FFu128 << (9 * b), i) == (9 * b <= i
            < 9 * b + 9),
{
    assert forall|i: int| 0 <= i < 128 implies #[trigger] bit128(0x1FFu128 << (9 * b), i) == (9 * b
        <= i < 9 * b + 9) by {
        let j = i as u128;
        assert(j < 128 && b < 9 ==> ((((0x1FFu128 << (9 * b)) >> j) & 1 == 1) <==> (9 * b <= j < 9
            * b + 9))) by (bit_vector);
    }
}

/// A word that is zero from position `i` up has no set bits there.
pub proof fn lemma_no_bits_above(x: u128, i: u128)
    requires
        i < 128,
        x >> i == 0,
    ensures
        forall|j: int| i <= j < 128 ==> !bit128(x, j),
{
    assert forall|j: int| i <= j < 128 implies !bit128(x, j) by {
        let k = j as u128;
        assert(x >> i == 0 && i <= k < 128 ==> (x >> k) & 1 == 0) by (bit_vector);
    }
}

/// Population count of a 128-bit word.
pub fn count_ones_u128(x: u128) -> (r: u32)
    ensures
        r == popcnt128(x),
        r <= 128,
{
    proof {
        reveal(popcnt_low);
        reveal(popcnt128);
    }
    let mut i: u32 = 0;
    let mut c: u32 = 0;
    while i < 128
        invariant
            i <= 128,
            c == popcnt_low(x, i as nat),
            c <= i,
        decreases 128 - i,
    {
        proof {
            reveal(popcnt_low);
            lemma_popcnt_low_le(x, (i + 1) as nat);
        }
        if (x >> (i as u128)) & 1 == 1 {
            c = c + 1;
        }
        i = i + 1;
    }
    proof {
        lemma_popcnt_low_le(x, 128);
    }
    c
}

/// Index of the `n`-th set bit of `x`, counting from the lowest.
pub fn nth_set_bit_u128(x: u128, n: u32) -> (r: u32)
    requires
        n < popcnt128(x),
    ensures
        r < 128,
        bit128(x, r as int),
        popcnt_low(x, r as nat) == n,
{
    proof {
        reveal(popcnt_low);
        reveal(popcnt128);
    }
    let mut i: u32 = 0;
    let mut seen: u32 = 0;
    while i < 128
        invariant
            i <= 128,
            seen == popcnt_low(x, i as nat),
            seen <= n,
            n < popcnt128(x),
        decreases 128 - i,
    {
        if (x >> (i as u128)) & 1 == 1 {
            if seen == n {
                return i;
            }
            seen = seen + 1;
        }
        proof {
            reveal(popcnt_low);
            reveal(popcnt128);
            lemma_popcnt_low_mono(x, (i + 1) as nat, 128);
        }
        i = i + 1;
    }
    proof {
        assert(false);
    }
    0
}

/// If no bit at or above `n` is set, the count stops growing there.
pub proof fn lemma_popcnt_high_zero(x: u128, n: nat)
    requires
        n <= 128,
        forall|i: int| n <= i < 128 ==> !bit128(x, i),
    ensures
        popcnt128(x) == popcnt_low(x, n),
    decreases 128 - n,
{
    reveal(popcnt_low);
    reveal(popcnt128);
    if n < 128 {
        lemma_popcnt_high_zero(x, (n + 1) as nat);
    }
}

/// A low mask `m == (1 << k) - 1`, read bit by bit.
pub proof fn lemma_low_mask_bits(k: u128, m: u128)
    requires
        k < 128,
        m == (1u128 << k) - 1,
    ensures
        forall|i: int| 0 <= i < 128 ==> #[trigger] bit128(m, i) == (i < k),
{
    assert forall|i: int| 0 <= i < 128 implies #[trigger] bit128(m, i) == (i < k) by {
        let j = i as u128;
        assert((m >> j) & 1 == 1 <==> j < k) by (bit_vector)
            requires
                j < 128,
                k < 128,
                m == (1u128 << k) - 1,
        ;
    }
}

/// Counting under a low mask counts the bits below `k`.
pub proof fn lemma_popcnt_low_mask(x: u128, k: u128, m: u128)
    requires
        k < 128,
        m == (1u128 << k) - 1,
    ensures
        popcnt128(x & m) == popcnt_low(x, k as nat),
{
    reveal(popcnt128);
    lemma_low_mask_bits(k, m);
    lemma_bit_and128(x, m);
    lemma_popcnt_high_zero(x & m, k as nat);
    lemma_popcnt_low_congruence(x & m, x, k as nat);
}

/// A prefix of all-set bits counts its full length.
pub proof fn lemma_popcnt_low_all(x: u128, n: nat)
    requires
        forall|i: int| 0 <= i < n ==> bit128(x, i),
    ensures
        popcnt_low(x, n) == n,
    decreases n,
{
    reveal(popcnt_low);
    if n > 0 {
        lemma_popcnt_low_all(x, (n - 1) as nat);
    }
}

/// The full count is the count below the word width.
pub proof fn lemma_popcnt128_is_low(x: u128)
    ensures
        popcnt128(x) == popcnt_low(x, 128),
{
    reveal(popcnt128);
}

/// The zero word has no set bits.
pub proof fn lemma_bit128_zero()
    ensures
        forall|i: int| !(#[trigger] bit128(0u128, i)),
{
    assert forall|i: int| !(#[trigger] bit128(0u128, i)) by {
        let j = i as u128;
        assert((0u128 >> j) & 1 == 0) by (bit_vector);
    }
}

/// A word with no counted bits is zero.
pub proof fn lemma_popcnt_zero(x: u128)
    requires
        popcnt128(x) == 0,
    ensures
        x == 0,
{
    reveal(popcnt_low);
    reveal(popcnt128);
    assert forall|i: int| 0 <= i < 128 implies !bit128(x, i) by {
        if bit128(x, i) {
            lemma_popcnt_low_step(x, i as nat, 128);
        }
    }
    lemma_zero_of_no_bits(x);
}

/// A word with no set bits is zero.
pub proof fn lemma_zero_of_no_bits(x: u128)
    requires
        forall|i: int| 0 <= i < 128 ==> !bit128(x, i),
    ensures
        x == 0,
{
    assert(x == (x >> 0u128) << 0u128) by (bit_vector);
    lemma_zero_of_no_bits_rec(x, 0);
}

proof fn lemma_zero_of_no_bits_rec(x: u128, j: u128)
    requires
        j < 128,
        x == (x >> j) << j,
        forall|i: int| 0 <= i < 128 ==> !bit128(x, i),
    ensures
        x == 0,
    decreases 128 - j,
{
    assert(!bit128(x, j as int));
    if j == 127 {
        assert(x == 0) by (bit_vector)
            requires
                j == 127,
                x == (x >> j) << j,
                !((x >> j) & 1 == 1),
        ;
    } else {
        let j1 = (j + 1) as u128;
        assert(x == (x >> j1) << j1) by (bit_vector)
            requires
                j1 == j + 1,
                j < 127,
                x == (x >> j) << j,
                !((x >> j) & 1 == 1),
        ;
        lemma_zero_of_no_bits_rec(x, j1);
    }
}

/// Bit `i` of the 32-bit word `x`.
pub open spec fn bit32(x: u32, i: int) -> bool {
    0 <= i < 32 && (x >> (i as u32)) & 1 == 1
}

/// Setting one of the nine low bits keeps a 9-bit word 9-bit.
pub proof fn lemma_u32_set_low_bit(a: u32, b: u32)
    requires
        a < 512,
        b < 9,
    ensures
        (a | (1u32 << b)) < 512,
        forall|i: int| 0 <= i < 32 ==> #[trigger] bit32(a | (1u32 << b), i) == (bit32(a, i) || i
            == b),
{
    assert forall|i: int| 0 <= i < 32 implies #[trigger] bit32(a | (1u32 << b), i) == (bit32(a, i)
        || i == b) by {
        let j = i as u32;
        assert(j < 32 && b < 9 ==> ((((a | (1u32 << b)) >> j) & 1 == 1) <==> (((a >> j) & 1 == 1)
            || j == b))) by (bit_vector);
    }
    assert(a < 512 && b < 9 ==> (a | (1u32 << b)) < 512) by (bit_vector);
}

/// Masking a 9-bit word with the nine low bits changes nothing.
pub proof fn lemma_u32_mask9_noop(s: u32)
    requires
        s < 512,
    ensures
        s & 0x1FF == s,
{
    assert(s < 512 ==> s & 0x1FF == s) by (bit_vector);
}

/// The 9-bit block of sub-board `b`, extracted from a 128-bit word.
pub open spec fn block9(x: u128, b: int) -> u32 {
    ((x >> ((9 * b) as u128)) as u32) & 0x1FF
}

/// Each bit of a block reads the matching cell bit of the word.
pub proof fn lemma_block9_bits(x: u128, b: u128)
    requires
        b < 9,
    ensures
        forall|j: int| 0 <= j < 9 ==> #[trigger] bit32(block9(x, b as int), j) == bit128(
            x,
            9 * b + j,
        ),
        forall|j: int| 9 <= j < 32 ==> !bit32(block9(x, b as int), j),
{
    let s = (9 * b) as u128;
    let blk = block9(x, b as int);
    assert(blk == ((x >> s) as u32) & 0x1FF);
    assert forall|j: int| 0 <= j < 9 implies #[trigger] bit32(blk, j) == bit128(x, 9 * b + j) by {
        let k = j as u32;
        let i = (9 * b + j) as u128;
        assert(s < 73 && k < 9 && i == s + k && blk == ((x >> s) as u32) & 0x1FF ==> ((blk >> k) & 1
            == 1 <==> (x >> i) & 1 == 1)) by (bit_vector);
    }
    assert forall|j: int| 9 <= j < 32 implies !bit32(blk, j) by {
        let k = j as u32;
        assert(9 <= k < 32 && blk == ((x >> s) as u32) & 0x1FF ==> !((blk >> k) & 1 == 1))
            by (bit_vector);
    }
}

/// A block reads 0x1FF exactly when all nine of its cells are set.
pub proof fn lemma_block9_full(x: u128, b: u128)
    requires
        b < 9,
    ensures
        (block9(x, b as int) == 0x1FF) <==> (forall|i: int|
            9 * b <= i < 9 * b + 9 ==> bit128(x, i)),
{
    lemma_block9_bits(x, b);
    if block9(x, b as int) == 0x1FF {
        assert forall|i: int| 9 * b <= i < 9 * b + 9 implies bit128(x, i) by {
            let j = i - 9 * b;
            let k = j as u32;
            assert(k < 9 ==> (0x1FFu32 >> k) & 1 == 1) by (bit_vector);
            assert(bit32(0x1FF, j));
        }
    }
    if forall|i: int| 9 * b <= i < 9 * b + 9 ==> bit128(x, i) {
        let blk = block9(x, b as int);
        assert forall|j: u32| j < 9 implies (blk >> j) & 1 == 1 by {
            assert(bit128(x, 9 * b + j));
            assert(bit32(blk, j as int));
        }
        assert forall|j: u32| 9 <= j < 32 implies (blk >> j) & 1 != 1 by {
            assert(!bit32(blk, j as int));
        }
        assert(blk == 0x1FF) by (bit_vector)
            requires
                (blk >> 0u32) & 1 == 1,
                (blk >> 1u32) & 1 == 1,
                (blk >> 2u32) & 1 == 1,
                (blk >> 3u32) & 1 == 1,
                (blk >> 4u32) & 1 == 1,
                (blk >> 5u32) & 1 == 1,
                (blk >> 6u32) & 1 == 1,
                (blk >> 7u32) & 1 == 1,
                (blk >> 8u32) & 1 == 1,
                (blk >> 9u32) & 1 != 1,
                (blk >> 10u32) & 1 != 1,
                (blk >> 11u32) & 1 != 1,
                (blk >> 12u32) & 1 != 1,
                (blk >> 13u32) & 1 != 1,
                (blk >> 14u32) & 1 != 1,
                (blk >> 15u32) & 1 != 1,
                (blk >> 16u32) & 1 != 1,
                (blk >> 17u32) & 1 != 1,
                (blk >> 18u32) & 1 != 1,
                (blk >> 19u32) & 1 != 1,
                (blk >> 20u32) & 1 != 1,
                (blk >> 21u32) & 1 != 1,
                (blk >> 22u32) & 1 != 1,
                (blk >> 23u32) & 1 != 1,
                (blk >> 24u32) & 1 != 1,
                (blk >> 25u32) & 1 != 1,
                (blk >> 26u32) & 1 != 1,
                (blk >> 27u32) & 1 != 1,
                (blk >> 28u32) & 1 != 1,
                (blk >> 29u32) & 1 != 1,
                (blk >> 30u32) & 1 != 1,
                (blk >> 31u32) & 1 != 1,
        ;
    }
}

/// Index of the lowest set bit of `bits`, or 32 when there is none.

/// Index of the lowest set bit of `bits`, or 32 when there is none.
pub fn trailing_zeros_fallback(bits: u32) -> (r: u32)
    ensures
        r <= 32,
        bits == 0 <==> r == 32,
        r < 32 ==> bit32(bits, r as int),
        r < 32 ==> bits == (bits >> r) << r,
        forall|j: int| 0 <= j < r ==> !bit32(bits, j),
{
    let mut i: u32 = 0;
    proof {
        assert(bits == (bits >> 0u32) << 0u32) by (bit_vector);
    }
    while i < 32
        invariant
            i <= 32,
            i < 32 ==> bits == (bits >> i) << i,
            i == 32 ==> bits == 0,
            forall|j: int| 0 <= j < i ==> !bit32(bits, j),
        decreases 32 - i,
    {
        if (bits >> i) & 1 == 1 {
            proof {
                assert(bits != 0) by (bit_vector)
                    requires
                        (bits >> i) & 1 == 1,
                ;
            }
            return i;
        }
        proof {
            lemma_u32_shift_step(bits, i);
        }
        i = i + 1;
    }
    32
}

/// Advancing past a clear bit keeps the low part of the word zero.
proof fn lemma_u32_shift_step(bits: u32, i: u32)
    requires
        i < 32,
        bits == (bits >> i) << i,
        (bits >> i) & 1 != 1,
    ensures
        i + 1 < 32 ==> bits == (bits >> (i + 1) as u32) << ((i + 1) as u32),
        i + 1 == 32 ==> bits == 0,
        forall|j: int| 0 <= j <= i ==> !bit32(bits, j),
{
    if i + 1 < 32 {
        let i1 = (i + 1) as u32;
        assert(bits == (bits >> i1) << i1) by (bit_vector)
            requires
                i1 == i + 1,
                i < 31,
                bits == (bits >> i) << i,
                !((bits >> i) & 1 == 1),
        ;
    } else {
        assert(bits == 0) by (bit_vector)
            requires
                i == 31,
                bits == (bits >> i) << i,
                !((bits >> i) & 1 == 1),
        ;
    }
    assert forall|j: int| 0 <= j <= i implies !bit32(bits, j) by {
        let k = j as u32;
        assert((bits >> k) & 1 == 0) by (bit_vector)
            requires
                bits == (bits >> i) << i,
                !((bits >> i) & 1 == 1),
                k <= i,
                i < 32,
        ;
    }
}

/// What the move-finder compress step yields: bit `i` of the result says
/// that cell `i` of the 2-bit single board is free, for the nine cells.
pub open spec fn free_cells_contiguous(board_state: u32) -> u32 {
    let m = !board_state & 0b10_1010_1010_1010_1010u32;
    let s1 = m >> 1;
    let s2 = (s1 | (s1 >> 1)) & 0x33333333u32;
    let s3 = (s2 | (s2 >> 2)) & 0x0f0f0f0fu32;
    let s4 = (s3 | (s3 >> 4)) & 0x00ff00ffu32;
    (s4 | (s4 >> 8)) & 0x0000ffffu32
}

/// Compress the is-occupied bits of a 2-bit-per-cell single board so that
/// free cells appear contiguously in the low nine bits.
pub fn get_availble_bits_contiguous_fallback(board_state: u32) -> (r: u32)
    ensures
        r == free_cells_contiguous(board_state),
        r < 512,
        forall|i: int| 0 <= i < 9 ==> #[trigger] bit32(r, i) == !bit32(board_state, 2 * i + 1),
{
    let mut available_bits: u32 = !board_state & 0b10_1010_1010_1010_1010u32;
    available_bits = available_bits >> 1;
    available_bits = (available_bits | (available_bits >> 1)) & 0x33333333;
    available_bits = (available_bits | (available_bits >> 2)) & 0x0f0f0f0f;
    available_bits = (available_bits | (available_bits >> 4)) & 0x00ff00ff;
    available_bits = (available_bits | (available_bits >> 8)) & 0x0000ffff;
    proof {
        lemma_compress_bits(board_state);
    }
    available_bits
}

/// Bit-level reading of the compress pipeline.
proof fn lemma_compress_bits(b: u32)
    ensures
        free_cells_contiguous(b) < 512,
        forall|i: int| 0 <= i < 9 ==> #[trigger] bit32(free_cells_contiguous(b), i) == !bit32(
            b,
            2 * i + 1,
        ),
{
    let r = free_cells_contiguous(b);
    assert(free_cells_contiguous(b) < 512 && (forall|j: u32|
        j < 9 ==> #[trigger] ((free_cells_contiguous(b) >> j) & 1) == 1 - ((b >> (2 * j + 1))
            & 1))) by (bit_vector);
    assert forall|i: int| 0 <= i < 9 implies #[trigger] bit32(r, i) == !bit32(b, 2 * i + 1) by {
        let j = i as u32;
        assert((r >> j) & 1 == 1 - ((b >> (2 * j + 1)) & 1));
        assert(((b >> (2 * j + 1)) & 1) == 0 || ((b >> (2 * j + 1)) & 1) == 1) by (bit_vector);
    }
}

} // verus!

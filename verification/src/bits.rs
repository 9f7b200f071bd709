//! Bit-pack utilities for group masks.
//!
//! A node's group membership lives in one `u64`: bit `r` set means the node
//! belongs to group `r`.  Adding or removing a group renumbers the groups
//! above it, which on masks is inserting a zero bit or deleting a bit.

use vstd::prelude::*;

verus! {

/// Bit `r` of `m` is set (meaningful for `r < 64`).
pub open spec fn u64_bit(m: u64, r: u64) -> bool {
    (m >> r) & 1 == 1
}

/// `m` has no set bits at positions `g` and above.
pub open spec fn mask_fits(m: u64, g: u64) -> bool {
    if g >= 64 {
        true
    } else {
        m >> g == 0
    }
}

/// All-ones in the low `g` bits.
pub open spec fn spec_low_mask(g: u64) -> u64
    recommends
        g <= 64,
{
    if g >= 64 {
        0xffff_ffff_ffff_ffffu64
    } else {
        ((1u64 << g) - 1) as u64
    }
}

/// Within the low `g` bits of `val`: shift the bits at positions `>= pos`
/// up by one and clear bit `pos`.
pub open spec fn spec_insert_zero_at(val: u64, pos: u64, g: u64) -> u64
    recommends
        pos <= g,
        g <= 63,
{
    let m = spec_low_mask(g);
    let select = (m << pos) & m;
    ((val & select) << 1) | (val & !select)
}

/// Within the low `g` bits of `val`: discard bit `pos` and shift the bits
/// above it down by one.
pub open spec fn spec_remove_bit_at(val: u64, pos: u64, g: u64) -> u64
    recommends
        pos < g,
        g <= 64,
{
    let m = spec_low_mask(g);
    let upper = (m << ((pos + 1) as u64)) & m;
    let lower = (m >> ((g - pos) as u64)) & m;
    ((val & upper) >> 1) | (val & lower)
}

/// Index of the most significant set bit (0 for the value 1).
pub open spec fn spec_highest_set_bit(m: u64) -> u64
    recommends
        m >= 1,
    decreases m,
{
    if m >= 2 {
        (1 + spec_highest_set_bit(m / 2)) as u64
    } else {
        0
    }
}

/// How `spec_insert_zero_at` acts on each bit.
pub proof fn lemma_insert_zero_bits(val: u64, pos: u64, g: u64)
    by (bit_vector)
    requires
        pos <= g,
        g <= 63,
        mask_fits(val, g),
    ensures
        forall|r: u64| r < pos ==> u64_bit(spec_insert_zero_at(val, pos, g), r) == u64_bit(val, r),
        !u64_bit(spec_insert_zero_at(val, pos, g), pos),
        forall|r: u64|
            pos < r <= g ==> u64_bit(spec_insert_zero_at(val, pos, g), r) == u64_bit(
                val,
                (r - 1) as u64,
            ),
        mask_fits(spec_insert_zero_at(val, pos, g), (g + 1) as u64),
{
}

/// How `spec_remove_bit_at` acts on each bit.
pub proof fn lemma_remove_bit_bits(val: u64, pos: u64, g: u64)
    by (bit_vector)
    requires
        pos < g,
        g <= 64,
        mask_fits(val, g),
    ensures
        forall|r: u64| r < pos ==> u64_bit(spec_remove_bit_at(val, pos, g), r) == u64_bit(val, r),
        forall|r: u64|
            pos <= r < g - 1 ==> u64_bit(spec_remove_bit_at(val, pos, g), r) == u64_bit(
                val,
                (r + 1) as u64,
            ),
        mask_fits(spec_remove_bit_at(val, pos, g), (g - 1) as u64),
{
}

/// Removing the bit that an insertion cleared restores the original mask.
pub proof fn lemma_remove_insert_roundtrip(val: u64, pos: u64, g: u64)
    by (bit_vector)
    requires
        pos <= g,
        g <= 63,
        mask_fits(val, g),
    ensures
        spec_remove_bit_at(spec_insert_zero_at(val, pos, g), pos, (g + 1) as u64) == val,
{
}

/// Inserting a zero bit where a removed bit sat restores the original mask,
/// provided that bit was clear.
pub proof fn lemma_insert_remove_roundtrip(val: u64, pos: u64, g: u64)
    by (bit_vector)
    requires
        pos < g,
        g <= 64,
        mask_fits(val, g),
        !u64_bit(val, pos),
    ensures
        spec_insert_zero_at(spec_remove_bit_at(val, pos, g), pos, (g - 1) as u64) == val,
{
}

/// Subtracting `1 << g` from a mask whose bit `g` is set clears exactly
/// that bit.
pub proof fn lemma_clear_bit(m: u64, g: u64)
    by (bit_vector)
    requires
        g < 64,
        u64_bit(m, g),
    ensures
        m >= (1u64 << g),
        !u64_bit((m - (1u64 << g)) as u64, g),
        forall|r: u64| r < 64 && r != g ==> u64_bit((m - (1u64 << g)) as u64, r) == u64_bit(m, r),
        forall|k: u64| k <= 64 && g < k && mask_fits(m, k) ==> mask_fits((m - (1u64 << g)) as u64, k),
{
}

/// Adding `1 << g` to a mask whose bit `g` is clear sets exactly that bit.
pub proof fn lemma_set_bit(m: u64, g: u64)
    by (bit_vector)
    requires
        g < 64,
        !u64_bit(m, g),
    ensures
        m + (1u64 << g) <= u64::MAX,
        u64_bit((m + (1u64 << g)) as u64, g),
        forall|r: u64| r < 64 && r != g ==> u64_bit((m + (1u64 << g)) as u64, r) == u64_bit(m, r),
        forall|k: u64| k <= 64 && g < k && mask_fits(m, k) ==> mask_fits((m + (1u64 << g)) as u64, k),
{
}

/// See `spec_insert_zero_at`.
pub fn insert_zero_at(val: u64, pos: usize, num_groups: u32) -> (r: u64)
    requires
        pos <= num_groups,
        num_groups <= 63,
    ensures
        r == spec_insert_zero_at(val, pos as u64, num_groups as u64),
{
    proof {
        assert(num_groups < 64 ==> (1u64 << num_groups) >= 1) by (bit_vector);
    }
    let m = (1u64 << num_groups) - 1;
    let select_mask = (m << pos) & m;

    let left = val & select_mask;
    let right = val & (!select_mask);

    let res = (left << 1) | right;
    proof {
        let p = pos as u64;
        let g = num_groups as u64;
        assert(m == spec_low_mask(g));
        assert(res == spec_insert_zero_at(val, p, g)) by (bit_vector)
            requires
                p <= g < 64,
                m == spec_low_mask(g),
                res == ((val & ((m << p) & m)) << 1u64) | (val & (!((m << p) & m))),
        ;
    }
    res
}

/// See `spec_remove_bit_at`.
pub fn remove_bit_at(val: u64, pos: usize, num_groups: u32) -> (r: u64)
    requires
        pos < num_groups,
        num_groups <= 64,
    ensures
        r == spec_remove_bit_at(val, pos as u64, num_groups as u64),
{
    proof {
        assert(num_groups < 64 ==> (1u64 << num_groups) >= 1) by (bit_vector);
    }
    let m = if num_groups == 64 {
        0xffff_ffff_ffff_ffffu64
    } else {
        (1u64 << num_groups) - 1
    };
    proof {
        assert(m == spec_low_mask(num_groups as u64));
    }
    let upper_mask = if pos == 63 {
        0u64
    } else {
        (m << (pos + 1)) & m
    };
    let shift = num_groups as usize - pos;
    let lower_mask = if shift == 64 {
        0u64
    } else {
        (m >> shift) & m
    };
    let res = ((val & upper_mask) >> 1) | (val & lower_mask);
    proof {
        let p = pos as u64;
        let g = num_groups as u64;
        let mm = spec_low_mask(g);
        assert(upper_mask == (mm << ((p + 1) as u64)) & mm) by (bit_vector)
            requires
                p < g <= 64,
                mm == spec_low_mask(g),
                upper_mask == (if p == 63 {
                    0u64
                } else {
                    (mm << ((p + 1) as u64)) & mm
                }),
        ;
        assert(lower_mask == (mm >> ((g - p) as u64)) & mm) by (bit_vector)
            requires
                p < g <= 64,
                mm == spec_low_mask(g),
                lower_mask == (if g - p == 64 {
                    0u64
                } else {
                    (mm >> ((g - p) as u64)) & mm
                }),
        ;
    }
    res
}

/// The shift characterization of the highest set bit: all bits above it are
/// zero and the bit itself is one.
pub proof fn lemma_hsb_shift(m: u64)
    requires
        m >= 1,
    ensures
        m >> spec_highest_set_bit(m) == 1,
        spec_highest_set_bit(m) < 64,
    decreases m,
{
    if m >= 2 {
        lemma_hsb_shift(m / 2);
        let h = spec_highest_set_bit(m / 2);
        assert(h == spec_highest_set_bit(m) - 1);
        assert((m / 2) >> h == 1 && h < 63 ==> m >> ((h + 1) as u64) == 1) by (bit_vector);
        assert(h < 63) by {
            assert((m / 2) >> h == 1 ==> h < 63) by (bit_vector);
        }
    } else {
        assert(m == 1);
        assert(1u64 >> 0u64 == 1) by (bit_vector);
    }
}

/// The shift characterization determines the highest set bit.
pub proof fn lemma_hsb_unique(m: u64, r: u64)
    requires
        m >> r == 1,
    ensures
        spec_highest_set_bit(m) == r,
    decreases r,
{
    if r == 0 {
        assert(m >> 0u64 == 1 ==> m == 1) by (bit_vector);
    } else {
        assert(m >> r == 1 && r >= 1 ==> ((m / 2) >> ((r - 1) as u64) == 1) && m >= 2)
            by (bit_vector);
        lemma_hsb_unique(m / 2, (r - 1) as u64);
    }
}

/// Index of the most significant set bit of a nonzero 64-bit value.
pub fn highest_set_bit(mask: u64) -> (r: usize)
    requires
        mask >= 1,
    ensures
        r == spec_highest_set_bit(mask),
        r < 64,
{
    let mut x = mask;
    let mut r: usize = 0;
    proof {
        lemma_hsb_shift(mask);
    }
    while x >= 2
        invariant
            x >= 1,
            r < 64,
            spec_highest_set_bit(mask) == r + spec_highest_set_bit(x),
            spec_highest_set_bit(mask) < 64,
        decreases x,
    {
        proof {
            assert(x >= 2 ==> x >> 1u64 == x / 2 && x / 2 >= 1) by (bit_vector);
            lemma_hsb_shift(x / 2);
            assert(spec_highest_set_bit(x) == 1 + spec_highest_set_bit(x / 2));
        }
        x = x >> 1;
        r = r + 1;
    }
    r
}

} // verus!

//! Bit-level facts about card masks and 13-bit rank masks.
use vstd::prelude::*;

verus! {

/// The 13-bit fields of a card mask, in the standard and joker layouts, are rank masks.
pub proof fn lemma_suit_fields(m: u64)
    by (bit_vector)
    ensures
        (((m & 0x1FFF) as u16) as u32) < 0x2000,
        ((((m >> 16u64) & 0x1FFF) as u16) as u32) < 0x2000,
        ((((m >> 32u64) & 0x1FFF) as u16) as u32) < 0x2000,
        ((((m >> 48u64) & 0x1FFF) as u16) as u32) < 0x2000,
        (m >> 39u64) & 0x1FFF < 0x2000,
        (m >> 26u64) & 0x1FFF < 0x2000,
        (m >> 13u64) & 0x1FFF < 0x2000,
        m & 0x1FFF < 0x2000,
{
}

/// Unions and duplicate masks of four rank masks are rank masks.
pub proof fn lemma_rank_masks(ss: u32, sc: u32, sd: u32, sh: u32)
    by (bit_vector)
    requires
        ss < 0x2000,
        sc < 0x2000,
        sd < 0x2000,
        sh < 0x2000,
    ensures
        ss | sc | sd | sh < 0x2000,
        sc | ss | sd | sh == ss | sc | sd | sh,
        (ss | sc | sd | sh) ^ ((ss | sc | sd | sh) ^ (sc ^ sd ^ sh ^ ss)) < 0x2000,
        (sc & sd) | (sh & (sc | sd)) | (ss & (sh | sc | sd)) < 0x2000,
        (sc | ss | sd | sh) & ((sc & sd) | (sh & (sc | sd)) | (ss & (sh | sc | sd))) == (sc & sd)
            | (sh & (sc | sd)) | (ss & (sh | sc | sd)),
{
}

/// Toggling a rank of a rank mask gives a rank mask.
pub proof fn lemma_xor_rank(x: u32, t: u32)
    by (bit_vector)
    requires
        x < 0x2000,
        t < 13,
    ensures
        x ^ (1u32 << t) < 0x2000,
{
}

/// `m & (1 << b)` is non-zero exactly when bit `b` of `m` is set.
pub proof fn lemma_bit_test(m: u64, b: u64)
    by (bit_vector)
    requires
        b < 64,
    ensures
        ((m & (1u64 << b)) != 0) == ((m >> b) & 1u64 == 1u64),
        ((m | (1u64 << b)) >> b) & 1u64 == 1u64,
{
}


/// Single bits of 64-bit card masks: adding bit `bx` to `a` sets bit `bj` of it
/// exactly when `bj` was set or is `bx`; clearing bit `b` of `m` clears the bit
/// of rank `x` of the 13-bit field at offset `o` exactly when that bit is `b`;
/// and inclusions between masks compose.
pub proof fn lemma_mask_bits(a: u64, bx: u64, bj: u64, m: u64, b: u64, o: u64, x: u32, s: u64, mp: u64)
    by (bit_vector)
    requires
        bx < 64,
        bj < 64,
        b < 64,
        o <= 48,
        x < 13,
    ensures
        (((a | (1u64 << bx)) >> bj) & 1u64 == 1u64) == (((a >> bj) & 1u64 == 1u64) || bx == bj),
        (0u64 >> bj) & 1u64 == 0u64,
        (((((((m & !(1u64 << b)) >> o) & 0x1FFF) as u16) as u32) >> x) & 1u32 == 1u32) == ((((((m >> o) & 0x1FFF)
            as u16) as u32) >> x) & 1u32 == 1u32 && b != o + (x as u64)),
        (m & !(1u64 << b)) & !m == 0,
        m & !m == 0,
        (s & !mp == 0 && mp & !m == 0) ==> s & !m == 0,
        m >> 0u64 == m,
        (m & !(1u64 << b)) >> 0u64 == m & !(1u64 << b),
{
}

} // verus!

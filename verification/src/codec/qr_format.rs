use vstd::prelude::*;
use crate::codec::qr::QrEcc;

verus! {

/// Number of set bits of a 32-bit word.
pub open spec fn popcount(x: u32) -> nat
    decreases x,
{
    if x == 0 {
        0
    } else {
        (x % 2) as nat + popcount(x / 2)
    }
}

/// Counts the set bits of `x` (the population count).
pub fn count_ones(x: u32) -> (n: u32)
    ensures
        n == popcount(x),
        n <= 32,
{
    let mut rest = x;
    let mut n: u32 = 0;
    let mut steps: u32 = 0;
    proof {
        lemma_pow2_32_full();
    }
    while rest != 0
        invariant
            n + popcount(rest) == popcount(x),
            steps <= 32,
            n <= steps,
            rest < pow2_32(32 - steps),
        decreases rest,
    {
        proof {
            lemma_halving(rest, steps);
        }
        n = n + (rest % 2);
        rest = rest / 2;
        steps = steps + 1;
    }
    n
}

/// `2^k` for `k <= 32`, as an integer.
pub open spec fn pow2_32(k: int) -> int
    decreases k,
{
    if k <= 0 {
        1
    } else {
        2 * pow2_32(k - 1)
    }
}

proof fn lemma_pow2_32_full()
    ensures
        pow2_32(32) == 0x1_0000_0000,
{
    reveal_with_fuel(pow2_32, 33);
}

/// A word below `2^n` has at most `n` set bits.
proof fn lemma_popcount_bound(x: u32, n: int)
    requires
        0 <= n,
        x < pow2_32(n),
    ensures
        popcount(x) <= n,
    decreases n,
{
    if x != 0 {
        if n == 0 {
            assert(pow2_32(0) == 1);
        } else {
            assert(pow2_32(n) == 2 * pow2_32(n - 1));
            lemma_popcount_bound(x / 2, n - 1);
        }
    }
}

/// Every 32-bit word has at most 32 set bits.
pub proof fn lemma_popcount_le_32(x: u32)
    ensures
        popcount(x) <= 32,
{
    lemma_pow2_32_full();
    lemma_popcount_bound(x, 32);
}

proof fn lemma_halving(rest: u32, steps: u32)
    requires
        rest != 0,
        steps <= 32,
        rest < pow2_32(32 - steps),
    ensures
        steps < 32,
        rest / 2 < pow2_32(32 - (steps + 1)),
{
    if steps == 32 {
        assert(pow2_32(0) == 1);
    }
    assert(pow2_32(32 - steps) == 2 * pow2_32(32 - (steps + 1)));
}

/// One step of the BCH(15, 5) long division used by QR format information.
pub open spec fn bch_step(rem: u32) -> u32 {
    ((rem << 1u32) ^ (((rem >> 9u32) * 0x537) as u32)) as u32
}

/// The remainder after `n` division steps.
pub open spec fn bch_rem(rem: u32, n: nat) -> u32
    decreases n,
{
    if n == 0 {
        rem
    } else {
        bch_rem(bch_step(rem), (n - 1) as nat)
    }
}

/// The 15-bit QR format word for error-correction bits `ecc_bits` and mask
/// `mask`: five data bits, their ten BCH check bits, masked with `0x5412`.
pub open spec fn format_code_spec(ecc_bits: u32, mask: u32) -> u32 {
    let data = ((ecc_bits << 3u32) | mask) as u32;
    ((((data << 10u32) | bch_rem(data, 10)) as u32) ^ 0x5412u32) as u32
}

proof fn lemma_bch_step_small(rem: u32)
    requires
        rem < 1024,
    ensures
        bch_step(rem) < 1024,
{
    assert(rem < 1024 ==> ((rem << 1u32) ^ (((rem >> 9u32) * 0x537) as u32)) < 1024) by (bit_vector);
}

proof fn lemma_bch_rem_small(rem: u32, n: nat)
    requires
        rem < 1024,
    ensures
        bch_rem(rem, n) < 1024,
    decreases n,
{
    if n > 0 {
        lemma_bch_step_small(rem);
        lemma_bch_rem_small(bch_step(rem), (n - 1) as nat);
    }
}

/// Computes the QR format word for error-correction bits and mask.
pub fn format_code(ecc_bits: u32, mask: u32) -> (code: u32)
    requires
        ecc_bits < 4,
        mask < 8,
    ensures
        code == format_code_spec(ecc_bits, mask),
        code < 0x8000,
{
    let data = (ecc_bits << 3) | mask;
    assert(ecc_bits < 4 && mask < 8 ==> ((ecc_bits << 3u32) | mask) < 32) by (bit_vector);
    let mut rem = data;
    let mut i: u32 = 0;
    while i < 10
        invariant
            i <= 10,
            data < 32,
            rem < 1024,
            bch_rem(rem, (10 - i) as nat) == bch_rem(data, 10),
        decreases 10 - i,
    {
        proof {
            lemma_bch_step_small(rem);
        }
        assert(rem < 1024 ==> (rem >> 9u32) <= 1) by (bit_vector);
        rem = (rem << 1) ^ ((rem >> 9) * 0x537);
        i = i + 1;
    }
    proof {
        lemma_bch_rem_small(data, 10);
    }
    assert(data < 32 && rem < 1024 ==> ((data << 10u32) | rem) ^ 0x5412u32 < 0x8000) by (bit_vector);
    ((data << 10) | rem) ^ 0x5412
}

/// The error-correction level that QR format bits name.
pub open spec fn ecc_of_format_bits(bits: u32) -> QrEcc {
    if bits == 0 {
        QrEcc::M
    } else if bits == 1 {
        QrEcc::L
    } else if bits == 2 {
        QrEcc::H
    } else {
        QrEcc::Q
    }
}

/// A format word candidate: the error-correction level and mask it names and
/// how many bits the sampled word differs in.
#[derive(Clone, Copy, Debug, PartialEq, Eq, Structural)]
pub struct FormatCandidate {
    pub ecc: QrEcc,
    pub mask: u8,
    pub distance: u32,
}

/// Hamming distance between a sampled word and the format word of pair `k`
/// (`k = ecc_bits * 8 + mask`).
pub open spec fn format_distance(code: u32, k: int) -> nat {
    popcount((code ^ format_code_spec((k / 8) as u32, (k % 8) as u32)) as u32)
}

/// The pair in `0..n` with the smallest distance, the earliest one on ties.
pub open spec fn best_format_pair(code: u32, n: int) -> int
    decreases n,
{
    if n <= 1 {
        0
    } else {
        let b = best_format_pair(code, n - 1);
        if format_distance(code, n - 1) < format_distance(code, b) {
            n - 1
        } else {
            b
        }
    }
}

/// Decoding of a sampled format word: the nearest of the 32 valid words (the
/// first in (ecc bits, mask) order on ties), accepted only within 3 bit errors.
pub open spec fn decode_format_spec(code: u32) -> Option<FormatCandidate> {
    let k = best_format_pair(code, 32);
    if format_distance(code, k) <= 3 {
        Some(FormatCandidate {
            ecc: ecc_of_format_bits((k / 8) as u32),
            mask: (k % 8) as u8,
            distance: format_distance(code, k) as u32,
        })
    } else {
        None
    }
}

proof fn lemma_best_format_pair_range(code: u32, n: int)
    requires
        n >= 1,
    ensures
        0 <= best_format_pair(code, n) < n,
        forall|j: int| 0 <= j < n ==> format_distance(code, best_format_pair(code, n)) <= #[trigger] format_distance(code, j),
        forall|j: int| 0 <= j < best_format_pair(code, n) ==> format_distance(code, best_format_pair(code, n)) < #[trigger] format_distance(code, j),
    decreases n,
{
    if n > 1 {
        lemma_best_format_pair_range(code, n - 1);
    }
}

/// Finds the valid format word nearest to a sampled one.
pub fn decode_format_code(code: u32) -> (res: Option<FormatCandidate>)
    ensures
        res == decode_format_spec(code),
{
    let mut best: Option<FormatCandidate> = None;
    let mut k: u32 = 0;
    while k < 32
        invariant
            k <= 32,
            k == 0 <==> best is None,
            k > 0 ==> best == Some(FormatCandidate {
                ecc: ecc_of_format_bits((best_format_pair(code, k as int) / 8) as u32),
                mask: (best_format_pair(code, k as int) % 8) as u8,
                distance: format_distance(code, best_format_pair(code, k as int)) as u32,
            }),
        decreases 32 - k,
    {
        let ecc_bits = k / 8;
        let mask = k % 8;
        let expected = format_code(ecc_bits, mask);
        let distance = count_ones(code ^ expected);
        proof {
            if k > 0 {
                lemma_best_format_pair_range(code, k as int);
                lemma_popcount_le_32((code ^ format_code_spec((best_format_pair(code, k as int) / 8) as u32, (best_format_pair(code, k as int) % 8) as u32)) as u32);
            }
            assert(distance == format_distance(code, k as int));
        }
        let replace = match best {
            None => true,
            Some(candidate) => distance < candidate.distance,
        };
        if replace {
            let ecc = QrEcc::from_format_bits(ecc_bits as u8).unwrap();
            best = Some(FormatCandidate { ecc, mask: mask as u8, distance });
        }
        k = k + 1;
    }
    proof {
        lemma_best_format_pair_range(code, 32);
        lemma_popcount_le_32((code ^ format_code_spec((best_format_pair(code, 32) / 8) as u32, (best_format_pair(code, 32) % 8) as u32)) as u32);
    }
    match best {
        Some(candidate) => if candidate.distance <= 3 { Some(candidate) } else { None },
        None => None,
    }
}

/// A sampled word that equals a valid format word decodes to exactly that
/// word's error-correction level and mask, at distance 0.
pub proof fn law_format_code_round_trip(ecc_bits: u32, mask: u32)
    requires
        ecc_bits < 4,
        mask < 8,
    ensures
        decode_format_spec(format_code_spec(ecc_bits, mask)) == Some(FormatCandidate {
            ecc: ecc_of_format_bits(ecc_bits),
            mask: mask as u8,
            distance: 0,
        }),
{
    let code = format_code_spec(ecc_bits, mask);
    let target = (ecc_bits * 8 + mask) as int;
    lemma_best_format_pair_range(code, 32);
    let k = best_format_pair(code, 32);
    assert(format_distance(code, target) == 0) by {
        assert((target / 8) as u32 == ecc_bits && (target % 8) as u32 == mask);
        assert((code ^ code) == 0u32) by (bit_vector);
    }
    assert(format_distance(code, k) == 0);
    let kb = (k / 8) as u32;
    let km = (k % 8) as u32;
    lemma_zero_popcount((code ^ format_code_spec(kb, km)) as u32);
    assert(code == format_code_spec(kb, km)) by {
        let c2 = format_code_spec(kb, km);
        assert((code ^ c2) == 0u32 ==> code == c2) by (bit_vector);
    }
    lemma_format_code_injective(ecc_bits, mask, kb, km);
}

proof fn lemma_zero_popcount(x: u32)
    requires
        popcount(x) == 0,
    ensures
        x == 0,
    decreases x,
{
    if x != 0 {
        assert(popcount(x) == (x % 2) as nat + popcount(x / 2));
        if x % 2 == 0 {
            assert(x / 2 != 0);
            lemma_zero_popcount(x / 2);
        }
    }
}

/// Different (ecc bits, mask) pairs give different format words: the top five
/// bits of a word, unmasked, are its data bits.
proof fn lemma_format_code_injective(e1: u32, m1: u32, e2: u32, m2: u32)
    requires
        e1 < 4,
        m1 < 8,
        e2 < 4,
        m2 < 8,
        format_code_spec(e1, m1) == format_code_spec(e2, m2),
    ensures
        e1 == e2,
        m1 == m2,
{
    let d1 = ((e1 << 3u32) | m1) as u32;
    let d2 = ((e2 << 3u32) | m2) as u32;
    assert(e1 < 4 && m1 < 8 ==> ((e1 << 3u32) | m1) < 32) by (bit_vector);
    assert(e2 < 4 && m2 < 8 ==> ((e2 << 3u32) | m2) < 32) by (bit_vector);
    lemma_bch_rem_small(d1, 10);
    lemma_bch_rem_small(d2, 10);
    let r1 = bch_rem(d1, 10);
    let r2 = bch_rem(d2, 10);
    assert(d1 < 32 && d2 < 32 && r1 < 1024 && r2 < 1024
        && (((d1 << 10u32) | r1) ^ 0x5412u32) == (((d2 << 10u32) | r2) ^ 0x5412u32) ==> d1 == d2) by (bit_vector);
    assert(e1 < 4 && m1 < 8 && e2 < 4 && m2 < 8 && ((e1 << 3u32) | m1) == ((e2 << 3u32) | m2) ==> e1 == e2 && m1 == m2) by (bit_vector);
}

/// The unmasked format word of five data bits: the data followed by its
/// ten BCH check bits.
pub open spec fn codeword(d: u32) -> u32 {
    ((d << 10u32) | bch_rem(d, 10)) as u32
}

/// One division step distributes over exclusive or.
proof fn lemma_bch_step_linear(a: u32, b: u32)
    requires
        a < 1024,
        b < 1024,
    ensures
        bch_step((a ^ b) as u32) == bch_step(a) ^ bch_step(b),
{
    assert(a < 1024 && b < 1024 ==> (((a ^ b) << 1u32) ^ ((((a ^ b) >> 9u32) * 0x537) as u32))
        == (((a << 1u32) ^ (((a >> 9u32) * 0x537) as u32)) ^ ((b << 1u32) ^ (((b >> 9u32) * 0x537) as u32)))) by (bit_vector);
}

/// The BCH remainder distributes over exclusive or.
proof fn lemma_bch_rem_linear(a: u32, b: u32, n: nat)
    requires
        a < 1024,
        b < 1024,
    ensures
        bch_rem((a ^ b) as u32, n) == bch_rem(a, n) ^ bch_rem(b, n),
    decreases n,
{
    if n > 0 {
        lemma_bch_step_linear(a, b);
        lemma_bch_step_small(a);
        lemma_bch_step_small(b);
        lemma_bch_rem_linear(bch_step(a), bch_step(b), (n - 1) as nat);
    }
}

/// Two format words differ exactly by the codeword of their data difference.
proof fn lemma_format_difference(e1: u32, m1: u32, e2: u32, m2: u32)
    requires
        e1 < 4,
        m1 < 8,
        e2 < 4,
        m2 < 8,
    ensures
        format_code_spec(e1, m1) ^ format_code_spec(e2, m2)
            == codeword((((e1 << 3u32) | m1) ^ ((e2 << 3u32) | m2)) as u32),
        0 < (((e1 << 3u32) | m1) ^ ((e2 << 3u32) | m2)) < 32 || (e1 == e2 && m1 == m2),
{
    let d1 = ((e1 << 3u32) | m1) as u32;
    let d2 = ((e2 << 3u32) | m2) as u32;
    assert(e1 < 4 && m1 < 8 ==> ((e1 << 3u32) | m1) < 32) by (bit_vector);
    assert(e2 < 4 && m2 < 8 ==> ((e2 << 3u32) | m2) < 32) by (bit_vector);
    lemma_bch_rem_small(d1, 10);
    lemma_bch_rem_small(d2, 10);
    lemma_bch_rem_linear(d1, d2, 10);
    let r1 = bch_rem(d1, 10);
    let r2 = bch_rem(d2, 10);
    assert(d1 < 32 && d2 < 32 && r1 < 1024 && r2 < 1024 ==>
        ((((d1 << 10u32) | r1) ^ 0x5412u32) ^ (((d2 << 10u32) | r2) ^ 0x5412u32))
            == (((d1 ^ d2) << 10u32) | (r1 ^ r2))
        && (d1 ^ d2) < 32
        && ((d1 ^ d2) == 0 ==> d1 == d2)) by (bit_vector);
    assert(e1 < 4 && m1 < 8 && e2 < 4 && m2 < 8 && ((e1 << 3u32) | m1) == ((e2 << 3u32) | m2) ==> e1 == e2 && m1 == m2) by (bit_vector);
}

/// The 31 non-zero codewords.
proof fn lemma_codeword_table()
    ensures
        codeword(1u32) == 0x537u32,
        codeword(2u32) == 0xa6eu32,
        codeword(3u32) == 0xf59u32,
        codeword(4u32) == 0x11ebu32,
        codeword(5u32) == 0x14dcu32,
        codeword(6u32) == 0x1b85u32,
        codeword(7u32) == 0x1eb2u32,
        codeword(8u32) == 0x23d6u32,
        codeword(9u32) == 0x26e1u32,
        codeword(10u32) == 0x29b8u32,
        codeword(11u32) == 0x2c8fu32,
        codeword(12u32) == 0x323du32,
        codeword(13u32) == 0x370au32,
        codeword(14u32) == 0x3853u32,
        codeword(15u32) == 0x3d64u32,
        codeword(16u32) == 0x429bu32,
        codeword(17u32) == 0x47acu32,
        codeword(18u32) == 0x48f5u32,
        codeword(19u32) == 0x4dc2u32,
        codeword(20u32) == 0x5370u32,
        codeword(21u32) == 0x5647u32,
        codeword(22u32) == 0x591eu32,
        codeword(23u32) == 0x5c29u32,
        codeword(24u32) == 0x614du32,
        codeword(25u32) == 0x647au32,
        codeword(26u32) == 0x6b23u32,
        codeword(27u32) == 0x6e14u32,
        codeword(28u32) == 0x70a6u32,
        codeword(29u32) == 0x7591u32,
        codeword(30u32) == 0x7ac8u32,
        codeword(31u32) == 0x7fffu32,
{
    assert(codeword(1u32) == 0x537u32 && codeword(2u32) == 0xa6eu32 && codeword(3u32) == 0xf59u32 && codeword(4u32) == 0x11ebu32 && codeword(5u32) == 0x14dcu32 && codeword(6u32) == 0x1b85u32 && codeword(7u32) == 0x1eb2u32 && codeword(8u32) == 0x23d6u32 && codeword(9u32) == 0x26e1u32 && codeword(10u32) == 0x29b8u32 && codeword(11u32) == 0x2c8fu32 && codeword(12u32) == 0x323du32 && codeword(13u32) == 0x370au32 && codeword(14u32) == 0x3853u32 && codeword(15u32) == 0x3d64u32 && codeword(16u32) == 0x429bu32 && codeword(17u32) == 0x47acu32 && codeword(18u32) == 0x48f5u32 && codeword(19u32) == 0x4dc2u32 && codeword(20u32) == 0x5370u32 && codeword(21u32) == 0x5647u32 && codeword(22u32) == 0x591eu32 && codeword(23u32) == 0x5c29u32 && codeword(24u32) == 0x614du32 && codeword(25u32) == 0x647au32 && codeword(26u32) == 0x6b23u32 && codeword(27u32) == 0x6e14u32 && codeword(28u32) == 0x70a6u32 && codeword(29u32) == 0x7591u32 && codeword(30u32) == 0x7ac8u32 && codeword(31u32) == 0x7fffu32) by (bit_vector);
}

/// Every non-zero codeword has at least seven set bits: any two format
/// words differ in at least seven places.
#[verifier::spinoff_prover]
#[verifier::rlimit(100)]
proof fn lemma_codeword_weight(d: u32)
    requires
        0 < d < 32,
    ensures
        popcount(codeword(d)) >= 7,
{
    lemma_codeword_table();
    reveal_with_fuel(popcount, 16);
    if d < 32 {
        assert(popcount(0x537u32) >= 7);
        assert(popcount(0xa6eu32) >= 7);
        assert(popcount(0xf59u32) >= 7);
        assert(popcount(0x11ebu32) >= 7);
        assert(popcount(0x14dcu32) >= 7);
        assert(popcount(0x1b85u32) >= 7);
        assert(popcount(0x1eb2u32) >= 7);
        assert(popcount(0x23d6u32) >= 7);
        assert(popcount(0x26e1u32) >= 7);
        assert(popcount(0x29b8u32) >= 7);
        assert(popcount(0x2c8fu32) >= 7);
        assert(popcount(0x323du32) >= 7);
        assert(popcount(0x370au32) >= 7);
        assert(popcount(0x3853u32) >= 7);
        assert(popcount(0x3d64u32) >= 7);
        assert(popcount(0x429bu32) >= 7);
        assert(popcount(0x47acu32) >= 7);
        assert(popcount(0x48f5u32) >= 7);
        assert(popcount(0x4dc2u32) >= 7);
        assert(popcount(0x5370u32) >= 7);
        assert(popcount(0x5647u32) >= 7);
        assert(popcount(0x591eu32) >= 7);
        assert(popcount(0x5c29u32) >= 7);
        assert(popcount(0x614du32) >= 7);
        assert(popcount(0x647au32) >= 7);
        assert(popcount(0x6b23u32) >= 7);
        assert(popcount(0x6e14u32) >= 7);
        assert(popcount(0x70a6u32) >= 7);
        assert(popcount(0x7591u32) >= 7);
        assert(popcount(0x7ac8u32) >= 7);
        assert(popcount(0x7fffu32) >= 7);
    }
}

/// Exclusive or never sets more bits than its operands together.
proof fn lemma_popcount_xor(a: u32, b: u32)
    ensures
        popcount((a ^ b) as u32) <= popcount(a) + popcount(b),
    decreases a,
{
    assert((a ^ b) / 2 == (a / 2) ^ (b / 2) && ((a ^ b) % 2 <= a % 2 + b % 2) && (a == 0 ==> (a ^ b) == b)) by (bit_vector);
    if a != 0 {
        lemma_popcount_xor(a / 2, b / 2);
        if b != 0 {
            assert(popcount(b) == (b % 2) as nat + popcount(b / 2));
        } else {
            assert(b / 2 == 0 && b % 2 == 0);
        }
        if (a ^ b) == 0 {
        } else {
            assert(popcount((a ^ b) as u32) == ((a ^ b) % 2) as nat + popcount(((a ^ b) / 2) as u32));
        }
    }
}

/// A format word with at most three flipped bits still decodes to the
/// error-correction level and mask it was made from, and the reported
/// distance is the number of flipped bits.
pub proof fn law_format_decode_corrects_three_errors(ecc_bits: u32, mask: u32, err: u32)
    requires
        ecc_bits < 4,
        mask < 8,
        popcount(err) <= 3,
    ensures
        decode_format_spec(format_code_spec(ecc_bits, mask) ^ err) == Some(FormatCandidate {
            ecc: ecc_of_format_bits(ecc_bits),
            mask: mask as u8,
            distance: popcount(err) as u32,
        }),
{
    let ct = format_code_spec(ecc_bits, mask);
    let code = (ct ^ err) as u32;
    let t = (ecc_bits * 8 + mask) as int;
    assert((t / 8) as u32 == ecc_bits && (t % 8) as u32 == mask);
    assert((ct ^ err) ^ ct == err) by (bit_vector);
    assert(format_distance(code, t) == popcount(err));
    assert forall|k: int| 0 <= k < 32 && k != t implies #[trigger] format_distance(code, k) >= 4 by {
        let kb = (k / 8) as u32;
        let km = (k % 8) as u32;
        assert(kb < 4 && km < 8);
        let ck = format_code_spec(kb, km);
        lemma_format_difference(kb, km, ecc_bits, mask);
        let dd = (((kb << 3u32) | km) ^ ((ecc_bits << 3u32) | mask)) as u32;
        if kb == ecc_bits && km == mask {
            assert(k == t);
        }
        lemma_codeword_weight(dd);
        let w = (ck ^ ct) as u32;
        assert(w == codeword(dd));
        assert(popcount(w) >= 7);
        assert(code ^ ck == w ^ err && (w ^ err) ^ err == w) by (bit_vector)
            requires code == ct ^ err, w == ck ^ ct;
        lemma_popcount_xor((w ^ err) as u32, err);
        assert(popcount(((w ^ err) ^ err) as u32) == popcount(w));
        assert(format_distance(code, k) == popcount((code ^ ck) as u32));
    }
    lemma_best_format_pair_range(code, 32);
    let b = best_format_pair(code, 32);
    if b != t {
        assert(format_distance(code, b) <= format_distance(code, t));
        assert(format_distance(code, b) >= 4);
    }
}

} // verus!

use vstd::prelude::*;
use vstd::arithmetic::div_mod::*;
use vstd::arithmetic::power::{pow, lemma_pow_adds, lemma_pow_multiplies, lemma_pow_mod_noop, lemma_pow1};
use crate::params::{N, Q, QI32};
use crate::field::{modq, modq_i64, modq_accepts, modq_i64_accepts, lemma_modq_accepts_small};
use crate::ring::{Poly, low16};
use crate::params::RANK;
use crate::sampler::{XOF128, shake128_byte, xof128_input, xof128_read};
use vstd::std_specs::convert::FromSpecImpl;

verus! {

/// Twiddle factors: `NTT_ROOTS[i] = 17^BitRev7(i) mod q`.
pub const NTT_ROOTS: [u16; 128] = [
    1, 1729, 2580, 3289, 2642, 630, 1897, 848, 1062, 1919, 193, 797, 2786, 3260, 569, 1746, 296,
    2447, 1339, 1476, 3046, 56, 2240, 1333, 1426, 2094, 535, 2882, 2393, 2879, 1974, 821, 289, 331,
    3253, 1756, 1197, 2304, 2277, 2055, 650, 1977, 2513, 632, 2865, 33, 1320, 1915, 2319, 1435,
    807, 452, 1438, 2868, 1534, 2402, 2647, 2617, 1481, 648, 2474, 3110, 1227, 910, 17, 2761, 583,
    2649, 1637, 723, 2288, 1100, 1409, 2662, 3281, 233, 756, 2156, 3015, 3050, 1703, 1651, 2789,
    1789, 1847, 952, 1461, 2687, 939, 2308, 2437, 2388, 733, 2337, 268, 641, 1584, 2298, 2037,
    3220, 375, 2549, 2090, 1645, 1063, 319, 2773, 757, 2099, 561, 2466, 2594, 2804, 1092, 403,
    1026, 1143, 2150, 2775, 886, 1722, 1212, 1874, 1029, 2110, 2935, 885, 2154,
];

/// Moduli of the base-case products: `MOD_ROOTS[i] = 17^(2 BitRev7(i) + 1) mod q`.
pub const MOD_ROOTS: [u16; 128] = [
    17, 3312, 2761, 568, 583, 2746, 2649, 680, 1637, 1692, 723, 2606, 2288, 1041, 1100, 2229, 1409,
    1920, 2662, 667, 3281, 48, 233, 3096, 756, 2573, 2156, 1173, 3015, 314, 3050, 279, 1703, 1626,
    1651, 1678, 2789, 540, 1789, 1540, 1847, 1482, 952, 2377, 1461, 1868, 2687, 642, 939, 2390,
    2308, 1021, 2437, 892, 2388, 941, 733, 2596, 2337, 992, 268, 3061, 641, 2688, 1584, 1745, 2298,
    1031, 2037, 1292, 3220, 109, 375, 2954, 2549, 780, 2090, 1239, 1645, 1684, 1063, 2266, 319,
    3010, 2773, 556, 757, 2572, 2099, 1230, 561, 2768, 2466, 863, 2594, 735, 2804, 525, 1092, 2237,
    403, 2926, 1026, 2303, 1143, 2186, 2150, 1179, 2775, 554, 886, 2443, 1722, 1607, 1212, 2117,
    1874, 1455, 1029, 2300, 2110, 1219, 2935, 394, 885, 2444, 2154, 1175,
];

/// The twiddle factor `NTT_ROOTS[k]`.
pub open spec fn twiddle(k: int) -> int {
    NTT_ROOTS@[k] as int
}

/// Half-block length of layer `m` of the transform: 128, 64, ..., 2.
pub open spec fn layer_len(m: int) -> int {
    if m == 0 { 128 } else if m == 1 { 64 } else if m == 2 { 32 } else if m == 3 { 16 }
    else if m == 4 { 8 } else if m == 5 { 4 } else { 2 }
}

/// The coefficients as integers.
pub open spec fn ints(s: Seq<i32>) -> Seq<int> {
    s.map_values(|x: i32| x as int)
}

/// One Cooley-Tukey layer with half-block length `len`: block `b` (of `2 len`
/// coefficients) is butterflied with `twiddle(128int / len + b)`.
pub open spec fn fwd_layer(f: Seq<int>, len: int) -> Seq<int> {
    Seq::new(256, |idx: int| {
        let z = twiddle(128int / len + idx / (2 * len));
        if idx % (2 * len) < len {
            (f[idx] + z * f[idx + len]) % 3329
        } else {
            (f[idx - len] - z * f[idx]) % 3329
        }
    })
}

/// The first `m` layers of the forward transform.
pub open spec fn fwd_layers(f: Seq<int>, m: nat) -> Seq<int>
    decreases m,
{
    if m == 0 { f } else { fwd_layer(fwd_layers(f, (m - 1) as nat), layer_len(m - 1)) }
}

/// NTT (FIPS 203, Alg. 9) of a coefficient sequence, each output reduced into `[0, q)`.
pub open spec fn ntt_spec(f: Seq<int>) -> Seq<int> {
    fwd_layers(f, 7)
}

/// One Gentleman-Sande layer with half-block length `len`: block `b` uses
/// `twiddle(2 * (128int / len) - 1 - b)`.
pub open spec fn inv_layer(f: Seq<int>, len: int) -> Seq<int> {
    Seq::new(256, |idx: int| {
        let z = twiddle(2 * (128int / len) - 1 - idx / (2 * len));
        if idx % (2 * len) < len {
            (f[idx] + f[idx + len]) % 3329
        } else {
            (z * (f[idx] - f[idx - len])) % 3329
        }
    })
}

/// The inverse layers that undo forward layers `m - 1`, ..., 0, in that order.
pub open spec fn inv_layers(f: Seq<int>, m: nat) -> Seq<int>
    decreases m,
{
    if m == 0 { f } else { inv_layers(inv_layer(f, layer_len(m - 1)), (m - 1) as nat) }
}

/// Every element multiplied by `c`, modulo q.
pub open spec fn scale(f: Seq<int>, c: int) -> Seq<int> {
    Seq::new(256, |i: int| (c * f[i]) % 3329)
}

/// NTT^-1 (FIPS 203, Alg. 10): the inverse layers, then a product with 128^-1 = 3303.
pub open spec fn inv_ntt_spec(f: Seq<int>) -> Seq<int> {
    scale(inv_layers(f, 7), 3303)
}

/// The twiddle factors used by a forward block and by the inverse block that undoes
/// it multiply to -1 modulo q.
proof fn lemma_zeta_pair(nb: int, b: int)
    requires
        nb == 1 || nb == 2 || nb == 4 || nb == 8 || nb == 16 || nb == 32 || nb == 64,
        0 <= b < nb,
    ensures
        (twiddle(nb + b) * twiddle(2 * nb - 1 - b)) % 3329 == 3328,
{
    if nb == 1 && b == 0 {
        assert(NTT_ROOTS@[1] == 1729u16 && NTT_ROOTS@[1] == 1729u16);
        assert((1729int * 1729int) % 3329 == 3328);
    } else if nb == 2 && b == 0 {
        assert(NTT_ROOTS@[2] == 2580u16 && NTT_ROOTS@[3] == 3289u16);
        assert((2580int * 3289int) % 3329 == 3328);
    } else if nb == 2 && b == 1 {
        assert(NTT_ROOTS@[3] == 3289u16 && NTT_ROOTS@[2] == 2580u16);
        assert((3289int * 2580int) % 3329 == 3328);
    } else if nb == 4 && b == 0 {
        assert(NTT_ROOTS@[4] == 2642u16 && NTT_ROOTS@[7] == 848u16);
        assert((2642int * 848int) % 3329 == 3328);
    } else if nb == 4 && b == 1 {
        assert(NTT_ROOTS@[5] == 630u16 && NTT_ROOTS@[6] == 1897u16);
        assert((630int * 1897int) % 3329 == 3328);
    } else if nb == 4 && b == 2 {
        assert(NTT_ROOTS@[6] == 1897u16 && NTT_ROOTS@[5] == 630u16);
        assert((1897int * 630int) % 3329 == 3328);
    } else if nb == 4 && b == 3 {
        assert(NTT_ROOTS@[7] == 848u16 && NTT_ROOTS@[4] == 2642u16);
        assert((848int * 2642int) % 3329 == 3328);
    } else if nb == 8 && b == 0 {
        assert(NTT_ROOTS@[8] == 1062u16 && NTT_ROOTS@[15] == 1746u16);
        assert((1062int * 1746int) % 3329 == 3328);
    } else if nb == 8 && b == 1 {
        assert(NTT_ROOTS@[9] == 1919u16 && NTT_ROOTS@[14] == 569u16);
        assert((1919int * 569int) % 3329 == 3328);
    } else if nb == 8 && b == 2 {
        assert(NTT_ROOTS@[10] == 193u16 && NTT_ROOTS@[13] == 3260u16);
        assert((193int * 3260int) % 3329 == 3328);
    } else if nb == 8 && b == 3 {
        assert(NTT_ROOTS@[11] == 797u16 && NTT_ROOTS@[12] == 2786u16);
        assert((797int * 2786int) % 3329 == 3328);
    } else if nb == 8 && b == 4 {
        assert(NTT_ROOTS@[12] == 2786u16 && NTT_ROOTS@[11] == 797u16);
        assert((2786int * 797int) % 3329 == 3328);
    } else if nb == 8 && b == 5 {
        assert(NTT_ROOTS@[13] == 3260u16 && NTT_ROOTS@[10] == 193u16);
        assert((3260int * 193int) % 3329 == 3328);
    } else if nb == 8 && b == 6 {
        assert(NTT_ROOTS@[14] == 569u16 && NTT_ROOTS@[9] == 1919u16);
        assert((569int * 1919int) % 3329 == 3328);
    } else if nb == 8 && b == 7 {
        assert(NTT_ROOTS@[15] == 1746u16 && NTT_ROOTS@[8] == 1062u16);
        assert((1746int * 1062int) % 3329 == 3328);
    } else if nb == 16 && b == 0 {
        assert(NTT_ROOTS@[16] == 296u16 && NTT_ROOTS@[31] == 821u16);
        assert((296int * 821int) % 3329 == 3328);
    } else if nb == 16 && b == 1 {
        assert(NTT_ROOTS@[17] == 2447u16 && NTT_ROOTS@[30] == 1974u16);
        assert((2447int * 1974int) % 3329 == 3328);
    } else if nb == 16 && b == 2 {
        assert(NTT_ROOTS@[18] == 1339u16 && NTT_ROOTS@[29] == 2879u16);
        assert((1339int * 2879int) % 3329 == 3328);
    } else if nb == 16 && b == 3 {
        assert(NTT_ROOTS@[19] == 1476u16 && NTT_ROOTS@[28] == 2393u16);
        assert((1476int * 2393int) % 3329 == 3328);
    } else if nb == 16 && b == 4 {
        assert(NTT_ROOTS@[20] == 3046u16 && NTT_ROOTS@[27] == 2882u16);
        assert((3046int * 2882int) % 3329 == 3328);
    } else if nb == 16 && b == 5 {
        assert(NTT_ROOTS@[21] == 56u16 && NTT_ROOTS@[26] == 535u16);
        assert((56int * 535int) % 3329 == 3328);
    } else if nb == 16 && b == 6 {
        assert(NTT_ROOTS@[22] == 2240u16 && NTT_ROOTS@[25] == 2094u16);
        assert((2240int * 2094int) % 3329 == 3328);
    } else if nb == 16 && b == 7 {
        assert(NTT_ROOTS@[23] == 1333u16 && NTT_ROOTS@[24] == 1426u16);
        assert((1333int * 1426int) % 3329 == 3328);
    } else if nb == 16 && b == 8 {
        assert(NTT_ROOTS@[24] == 1426u16 && NTT_ROOTS@[23] == 1333u16);
        assert((1426int * 1333int) % 3329 == 3328);
    } else if nb == 16 && b == 9 {
        assert(NTT_ROOTS@[25] == 2094u16 && NTT_ROOTS@[22] == 2240u16);
        assert((2094int * 2240int) % 3329 == 3328);
    } else if nb == 16 && b == 10 {
        assert(NTT_ROOTS@[26] == 535u16 && NTT_ROOTS@[21] == 56u16);
        assert((535int * 56int) % 3329 == 3328);
    } else if nb == 16 && b == 11 {
        assert(NTT_ROOTS@[27] == 2882u16 && NTT_ROOTS@[20] == 3046u16);
        assert((2882int * 3046int) % 3329 == 3328);
    } else if nb == 16 && b == 12 {
        assert(NTT_ROOTS@[28] == 2393u16 && NTT_ROOTS@[19] == 1476u16);
        assert((2393int * 1476int) % 3329 == 3328);
    } else if nb == 16 && b == 13 {
        assert(NTT_ROOTS@[29] == 2879u16 && NTT_ROOTS@[18] == 1339u16);
        assert((2879int * 1339int) % 3329 == 3328);
    } else if nb == 16 && b == 14 {
        assert(NTT_ROOTS@[30] == 1974u16 && NTT_ROOTS@[17] == 2447u16);
        assert((1974int * 2447int) % 3329 == 3328);
    } else if nb == 16 && b == 15 {
        assert(NTT_ROOTS@[31] == 821u16 && NTT_ROOTS@[16] == 296u16);
        assert((821int * 296int) % 3329 == 3328);
    } else if nb == 32 && b == 0 {
        assert(NTT_ROOTS@[32] == 289u16 && NTT_ROOTS@[63] == 910u16);
        assert((289int * 910int) % 3329 == 3328);
    } else if nb == 32 && b == 1 {
        assert(NTT_ROOTS@[33] == 331u16 && NTT_ROOTS@[62] == 1227u16);
        assert((331int * 1227int) % 3329 == 3328);
    } else if nb == 32 && b == 2 {
        assert(NTT_ROOTS@[34] == 3253u16 && NTT_ROOTS@[61] == 3110u16);
        assert((3253int * 3110int) % 3329 == 3328);
    } else if nb == 32 && b == 3 {
        assert(NTT_ROOTS@[35] == 1756u16 && NTT_ROOTS@[60] == 2474u16);
        assert((1756int * 2474int) % 3329 == 3328);
    } else if nb == 32 && b == 4 {
        assert(NTT_ROOTS@[36] == 1197u16 && NTT_ROOTS@[59] == 648u16);
        assert((1197int * 648int) % 3329 == 3328);
    } else if nb == 32 && b == 5 {
        assert(NTT_ROOTS@[37] == 2304u16 && NTT_ROOTS@[58] == 1481u16);
        assert((2304int * 1481int) % 3329 == 3328);
    } else if nb == 32 && b == 6 {
        assert(NTT_ROOTS@[38] == 2277u16 && NTT_ROOTS@[57] == 2617u16);
        assert((2277int * 2617int) % 3329 == 3328);
    } else if nb == 32 && b == 7 {
        assert(NTT_ROOTS@[39] == 2055u16 && NTT_ROOTS@[56] == 2647u16);
        assert((2055int * 2647int) % 3329 == 3328);
    } else if nb == 32 && b == 8 {
        assert(NTT_ROOTS@[40] == 650u16 && NTT_ROOTS@[55] == 2402u16);
        assert((650int * 2402int) % 3329 == 3328);
    } else if nb == 32 && b == 9 {
        assert(NTT_ROOTS@[41] == 1977u16 && NTT_ROOTS@[54] == 1534u16);
        assert((1977int * 1534int) % 3329 == 3328);
    } else if nb == 32 && b == 10 {
        assert(NTT_ROOTS@[42] == 2513u16 && NTT_ROOTS@[53] == 2868u16);
        assert((2513int * 2868int) % 3329 == 3328);
    } else if nb == 32 && b == 11 {
        assert(NTT_ROOTS@[43] == 632u16 && NTT_ROOTS@[52] == 1438u16);
        assert((632int * 1438int) % 3329 == 3328);
    } else if nb == 32 && b == 12 {
        assert(NTT_ROOTS@[44] == 2865u16 && NTT_ROOTS@[51] == 452u16);
        assert((2865int * 452int) % 3329 == 3328);
    } else if nb == 32 && b == 13 {
        assert(NTT_ROOTS@[45] == 33u16 && NTT_ROOTS@[50] == 807u16);
        assert((33int * 807int) % 3329 == 3328);
    } else if nb == 32 && b == 14 {
        assert(NTT_ROOTS@[46] == 1320u16 && NTT_ROOTS@[49] == 1435u16);
        assert((1320int * 1435int) % 3329 == 3328);
    } else if nb == 32 && b == 15 {
        assert(NTT_ROOTS@[47] == 1915u16 && NTT_ROOTS@[48] == 2319u16);
        assert((1915int * 2319int) % 3329 == 3328);
    } else if nb == 32 && b == 16 {
        assert(NTT_ROOTS@[48] == 2319u16 && NTT_ROOTS@[47] == 1915u16);
        assert((2319int * 1915int) % 3329 == 3328);
    } else if nb == 32 && b == 17 {
        assert(NTT_ROOTS@[49] == 1435u16 && NTT_ROOTS@[46] == 1320u16);
        assert((1435int * 1320int) % 3329 == 3328);
    } else if nb == 32 && b == 18 {
        assert(NTT_ROOTS@[50] == 807u16 && NTT_ROOTS@[45] == 33u16);
        assert((807int * 33int) % 3329 == 3328);
    } else if nb == 32 && b == 19 {
        assert(NTT_ROOTS@[51] == 452u16 && NTT_ROOTS@[44] == 2865u16);
        assert((452int * 2865int) % 3329 == 3328);
    } else if nb == 32 && b == 20 {
        assert(NTT_ROOTS@[52] == 1438u16 && NTT_ROOTS@[43] == 632u16);
        assert((1438int * 632int) % 3329 == 3328);
    } else if nb == 32 && b == 21 {
        assert(NTT_ROOTS@[53] == 2868u16 && NTT_ROOTS@[42] == 2513u16);
        assert((2868int * 2513int) % 3329 == 3328);
    } else if nb == 32 && b == 22 {
        assert(NTT_ROOTS@[54] == 1534u16 && NTT_ROOTS@[41] == 1977u16);
        assert((1534int * 1977int) % 3329 == 3328);
    } else if nb == 32 && b == 23 {
        assert(NTT_ROOTS@[55] == 2402u16 && NTT_ROOTS@[40] == 650u16);
        assert((2402int * 650int) % 3329 == 3328);
    } else if nb == 32 && b == 24 {
        assert(NTT_ROOTS@[56] == 2647u16 && NTT_ROOTS@[39] == 2055u16);
        assert((2647int * 2055int) % 3329 == 3328);
    } else if nb == 32 && b == 25 {
        assert(NTT_ROOTS@[57] == 2617u16 && NTT_ROOTS@[38] == 2277u16);
        assert((2617int * 2277int) % 3329 == 3328);
    } else if nb == 32 && b == 26 {
        assert(NTT_ROOTS@[58] == 1481u16 && NTT_ROOTS@[37] == 2304u16);
        assert((1481int * 2304int) % 3329 == 3328);
    } else if nb == 32 && b == 27 {
        assert(NTT_ROOTS@[59] == 648u16 && NTT_ROOTS@[36] == 1197u16);
        assert((648int * 1197int) % 3329 == 3328);
    } else if nb == 32 && b == 28 {
        assert(NTT_ROOTS@[60] == 2474u16 && NTT_ROOTS@[35] == 1756u16);
        assert((2474int * 1756int) % 3329 == 3328);
    } else if nb == 32 && b == 29 {
        assert(NTT_ROOTS@[61] == 3110u16 && NTT_ROOTS@[34] == 3253u16);
        assert((3110int * 3253int) % 3329 == 3328);
    } else if nb == 32 && b == 30 {
        assert(NTT_ROOTS@[62] == 1227u16 && NTT_ROOTS@[33] == 331u16);
        assert((1227int * 331int) % 3329 == 3328);
    } else if nb == 32 && b == 31 {
        assert(NTT_ROOTS@[63] == 910u16 && NTT_ROOTS@[32] == 289u16);
        assert((910int * 289int) % 3329 == 3328);
    } else if nb == 64 && b == 0 {
        assert(NTT_ROOTS@[64] == 17u16 && NTT_ROOTS@[127] == 2154u16);
        assert((17int * 2154int) % 3329 == 3328);
    } else if nb == 64 && b == 1 {
        assert(NTT_ROOTS@[65] == 2761u16 && NTT_ROOTS@[126] == 885u16);
        assert((2761int * 885int) % 3329 == 3328);
    } else if nb == 64 && b == 2 {
        assert(NTT_ROOTS@[66] == 583u16 && NTT_ROOTS@[125] == 2935u16);
        assert((583int * 2935int) % 3329 == 3328);
    } else if nb == 64 && b == 3 {
        assert(NTT_ROOTS@[67] == 2649u16 && NTT_ROOTS@[124] == 2110u16);
        assert((2649int * 2110int) % 3329 == 3328);
    } else if nb == 64 && b == 4 {
        assert(NTT_ROOTS@[68] == 1637u16 && NTT_ROOTS@[123] == 1029u16);
        assert((1637int * 1029int) % 3329 == 3328);
    } else if nb == 64 && b == 5 {
        assert(NTT_ROOTS@[69] == 723u16 && NTT_ROOTS@[122] == 1874u16);
        assert((723int * 1874int) % 3329 == 3328);
    } else if nb == 64 && b == 6 {
        assert(NTT_ROOTS@[70] == 2288u16 && NTT_ROOTS@[121] == 1212u16);
        assert((2288int * 1212int) % 3329 == 3328);
    } else if nb == 64 && b == 7 {
        assert(NTT_ROOTS@[71] == 1100u16 && NTT_ROOTS@[120] == 1722u16);
        assert((1100int * 1722int) % 3329 == 3328);
    } else if nb == 64 && b == 8 {
        assert(NTT_ROOTS@[72] == 1409u16 && NTT_ROOTS@[119] == 886u16);
        assert((1409int * 886int) % 3329 == 3328);
    } else if nb == 64 && b == 9 {
        assert(NTT_ROOTS@[73] == 2662u16 && NTT_ROOTS@[118] == 2775u16);
        assert((2662int * 2775int) % 3329 == 3328);
    } else if nb == 64 && b == 10 {
        assert(NTT_ROOTS@[74] == 3281u16 && NTT_ROOTS@[117] == 2150u16);
        assert((3281int * 2150int) % 3329 == 3328);
    } else if nb == 64 && b == 11 {
        assert(NTT_ROOTS@[75] == 233u16 && NTT_ROOTS@[116] == 1143u16);
        assert((233int * 1143int) % 3329 == 3328);
    } else if nb == 64 && b == 12 {
        assert(NTT_ROOTS@[76] == 756u16 && NTT_ROOTS@[115] == 1026u16);
        assert((756int * 1026int) % 3329 == 3328);
    } else if nb == 64 && b == 13 {
        assert(NTT_ROOTS@[77] == 2156u16 && NTT_ROOTS@[114] == 403u16);
        assert((2156int * 403int) % 3329 == 3328);
    } else if nb == 64 && b == 14 {
        assert(NTT_ROOTS@[78] == 3015u16 && NTT_ROOTS@[113] == 1092u16);
        assert((3015int * 1092int) % 3329 == 3328);
    } else if nb == 64 && b == 15 {
        assert(NTT_ROOTS@[79] == 3050u16 && NTT_ROOTS@[112] == 2804u16);
        assert((3050int * 2804int) % 3329 == 3328);
    } else if nb == 64 && b == 16 {
        assert(NTT_ROOTS@[80] == 1703u16 && NTT_ROOTS@[111] == 2594u16);
        assert((1703int * 2594int) % 3329 == 3328);
    } else if nb == 64 && b == 17 {
        assert(NTT_ROOTS@[81] == 1651u16 && NTT_ROOTS@[110] == 2466u16);
        assert((1651int * 2466int) % 3329 == 3328);
    } else if nb == 64 && b == 18 {
        assert(NTT_ROOTS@[82] == 2789u16 && NTT_ROOTS@[109] == 561u16);
        assert((2789int * 561int) % 3329 == 3328);
    } else if nb == 64 && b == 19 {
        assert(NTT_ROOTS@[83] == 1789u16 && NTT_ROOTS@[108] == 2099u16);
        assert((1789int * 2099int) % 3329 == 3328);
    } else if nb == 64 && b == 20 {
        assert(NTT_ROOTS@[84] == 1847u16 && NTT_ROOTS@[107] == 757u16);
        assert((1847int * 757int) % 3329 == 3328);
    } else if nb == 64 && b == 21 {
        assert(NTT_ROOTS@[85] == 952u16 && NTT_ROOTS@[106] == 2773u16);
        assert((952int * 2773int) % 3329 == 3328);
    } else if nb == 64 && b == 22 {
        assert(NTT_ROOTS@[86] == 1461u16 && NTT_ROOTS@[105] == 319u16);
        assert((1461int * 319int) % 3329 == 3328);
    } else if nb == 64 && b == 23 {
        assert(NTT_ROOTS@[87] == 2687u16 && NTT_ROOTS@[104] == 1063u16);
        assert((2687int * 1063int) % 3329 == 3328);
    } else if nb == 64 && b == 24 {
        assert(NTT_ROOTS@[88] == 939u16 && NTT_ROOTS@[103] == 1645u16);
        assert((939int * 1645int) % 3329 == 3328);
    } else if nb == 64 && b == 25 {
        assert(NTT_ROOTS@[89] == 2308u16 && NTT_ROOTS@[102] == 2090u16);
        assert((2308int * 2090int) % 3329 == 3328);
    } else if nb == 64 && b == 26 {
        assert(NTT_ROOTS@[90] == 2437u16 && NTT_ROOTS@[101] == 2549u16);
        assert((2437int * 2549int) % 3329 == 3328);
    } else if nb == 64 && b == 27 {
        assert(NTT_ROOTS@[91] == 2388u16 && NTT_ROOTS@[100] == 375u16);
        assert((2388int * 375int) % 3329 == 3328);
    } else if nb == 64 && b == 28 {
        assert(NTT_ROOTS@[92] == 733u16 && NTT_ROOTS@[99] == 3220u16);
        assert((733int * 3220int) % 3329 == 3328);
    } else if nb == 64 && b == 29 {
        assert(NTT_ROOTS@[93] == 2337u16 && NTT_ROOTS@[98] == 2037u16);
        assert((2337int * 2037int) % 3329 == 3328);
    } else if nb == 64 && b == 30 {
        assert(NTT_ROOTS@[94] == 268u16 && NTT_ROOTS@[97] == 2298u16);
        assert((268int * 2298int) % 3329 == 3328);
    } else if nb == 64 && b == 31 {
        assert(NTT_ROOTS@[95] == 641u16 && NTT_ROOTS@[96] == 1584u16);
        assert((641int * 1584int) % 3329 == 3328);
    } else if nb == 64 && b == 32 {
        assert(NTT_ROOTS@[96] == 1584u16 && NTT_ROOTS@[95] == 641u16);
        assert((1584int * 641int) % 3329 == 3328);
    } else if nb == 64 && b == 33 {
        assert(NTT_ROOTS@[97] == 2298u16 && NTT_ROOTS@[94] == 268u16);
        assert((2298int * 268int) % 3329 == 3328);
    } else if nb == 64 && b == 34 {
        assert(NTT_ROOTS@[98] == 2037u16 && NTT_ROOTS@[93] == 2337u16);
        assert((2037int * 2337int) % 3329 == 3328);
    } else if nb == 64 && b == 35 {
        assert(NTT_ROOTS@[99] == 3220u16 && NTT_ROOTS@[92] == 733u16);
        assert((3220int * 733int) % 3329 == 3328);
    } else if nb == 64 && b == 36 {
        assert(NTT_ROOTS@[100] == 375u16 && NTT_ROOTS@[91] == 2388u16);
        assert((375int * 2388int) % 3329 == 3328);
    } else if nb == 64 && b == 37 {
        assert(NTT_ROOTS@[101] == 2549u16 && NTT_ROOTS@[90] == 2437u16);
        assert((2549int * 2437int) % 3329 == 3328);
    } else if nb == 64 && b == 38 {
        assert(NTT_ROOTS@[102] == 2090u16 && NTT_ROOTS@[89] == 2308u16);
        assert((2090int * 2308int) % 3329 == 3328);
    } else if nb == 64 && b == 39 {
        assert(NTT_ROOTS@[103] == 1645u16 && NTT_ROOTS@[88] == 939u16);
        assert((1645int * 939int) % 3329 == 3328);
    } else if nb == 64 && b == 40 {
        assert(NTT_ROOTS@[104] == 1063u16 && NTT_ROOTS@[87] == 2687u16);
        assert((1063int * 2687int) % 3329 == 3328);
    } else if nb == 64 && b == 41 {
        assert(NTT_ROOTS@[105] == 319u16 && NTT_ROOTS@[86] == 1461u16);
        assert((319int * 1461int) % 3329 == 3328);
    } else if nb == 64 && b == 42 {
        assert(NTT_ROOTS@[106] == 2773u16 && NTT_ROOTS@[85] == 952u16);
        assert((2773int * 952int) % 3329 == 3328);
    } else if nb == 64 && b == 43 {
        assert(NTT_ROOTS@[107] == 757u16 && NTT_ROOTS@[84] == 1847u16);
        assert((757int * 1847int) % 3329 == 3328);
    } else if nb == 64 && b == 44 {
        assert(NTT_ROOTS@[108] == 2099u16 && NTT_ROOTS@[83] == 1789u16);
        assert((2099int * 1789int) % 3329 == 3328);
    } else if nb == 64 && b == 45 {
        assert(NTT_ROOTS@[109] == 561u16 && NTT_ROOTS@[82] == 2789u16);
        assert((561int * 2789int) % 3329 == 3328);
    } else if nb == 64 && b == 46 {
        assert(NTT_ROOTS@[110] == 2466u16 && NTT_ROOTS@[81] == 1651u16);
        assert((2466int * 1651int) % 3329 == 3328);
    } else if nb == 64 && b == 47 {
        assert(NTT_ROOTS@[111] == 2594u16 && NTT_ROOTS@[80] == 1703u16);
        assert((2594int * 1703int) % 3329 == 3328);
    } else if nb == 64 && b == 48 {
        assert(NTT_ROOTS@[112] == 2804u16 && NTT_ROOTS@[79] == 3050u16);
        assert((2804int * 3050int) % 3329 == 3328);
    } else if nb == 64 && b == 49 {
        assert(NTT_ROOTS@[113] == 1092u16 && NTT_ROOTS@[78] == 3015u16);
        assert((1092int * 3015int) % 3329 == 3328);
    } else if nb == 64 && b == 50 {
        assert(NTT_ROOTS@[114] == 403u16 && NTT_ROOTS@[77] == 2156u16);
        assert((403int * 2156int) % 3329 == 3328);
    } else if nb == 64 && b == 51 {
        assert(NTT_ROOTS@[115] == 1026u16 && NTT_ROOTS@[76] == 756u16);
        assert((1026int * 756int) % 3329 == 3328);
    } else if nb == 64 && b == 52 {
        assert(NTT_ROOTS@[116] == 1143u16 && NTT_ROOTS@[75] == 233u16);
        assert((1143int * 233int) % 3329 == 3328);
    } else if nb == 64 && b == 53 {
        assert(NTT_ROOTS@[117] == 2150u16 && NTT_ROOTS@[74] == 3281u16);
        assert((2150int * 3281int) % 3329 == 3328);
    } else if nb == 64 && b == 54 {
        assert(NTT_ROOTS@[118] == 2775u16 && NTT_ROOTS@[73] == 2662u16);
        assert((2775int * 2662int) % 3329 == 3328);
    } else if nb == 64 && b == 55 {
        assert(NTT_ROOTS@[119] == 886u16 && NTT_ROOTS@[72] == 1409u16);
        assert((886int * 1409int) % 3329 == 3328);
    } else if nb == 64 && b == 56 {
        assert(NTT_ROOTS@[120] == 1722u16 && NTT_ROOTS@[71] == 1100u16);
        assert((1722int * 1100int) % 3329 == 3328);
    } else if nb == 64 && b == 57 {
        assert(NTT_ROOTS@[121] == 1212u16 && NTT_ROOTS@[70] == 2288u16);
        assert((1212int * 2288int) % 3329 == 3328);
    } else if nb == 64 && b == 58 {
        assert(NTT_ROOTS@[122] == 1874u16 && NTT_ROOTS@[69] == 723u16);
        assert((1874int * 723int) % 3329 == 3328);
    } else if nb == 64 && b == 59 {
        assert(NTT_ROOTS@[123] == 1029u16 && NTT_ROOTS@[68] == 1637u16);
        assert((1029int * 1637int) % 3329 == 3328);
    } else if nb == 64 && b == 60 {
        assert(NTT_ROOTS@[124] == 2110u16 && NTT_ROOTS@[67] == 2649u16);
        assert((2110int * 2649int) % 3329 == 3328);
    } else if nb == 64 && b == 61 {
        assert(NTT_ROOTS@[125] == 2935u16 && NTT_ROOTS@[66] == 583u16);
        assert((2935int * 583int) % 3329 == 3328);
    } else if nb == 64 && b == 62 {
        assert(NTT_ROOTS@[126] == 885u16 && NTT_ROOTS@[65] == 2761u16);
        assert((885int * 2761int) % 3329 == 3328);
    } else if nb == 64 && b == 63 {
        assert(NTT_ROOTS@[127] == 2154u16 && NTT_ROOTS@[64] == 17u16);
        assert((2154int * 17int) % 3329 == 3328);
    }
}

proof fn lemma_butterfly(a: int, b: int, z: int, zi: int)
    requires
        (z * zi) % 3329 == 3328,
    ensures
        (((a + z * b) % 3329) + ((a - z * b) % 3329)) % 3329 == (2 * a) % 3329,
        (zi * (((a - z * b) % 3329) - ((a + z * b) % 3329))) % 3329 == (2 * b) % 3329,
{
    let s = (a + z * b) % 3329;
    let d = (a - z * b) % 3329;
    lemma_add_mod_noop(a + z * b, a - z * b, 3329);
    assert((a + z * b) + (a - z * b) == 2 * a);
    lemma_sub_mod_noop(a - z * b, a + z * b, 3329);
    assert((a - z * b) - (a + z * b) == -2 * (z * b)) by (nonlinear_arith);
    // d - s == (-2 z b) mod q up to a multiple of q
    let e = d - s;
    assert(e % 3329 == (-2 * (z * b)) % 3329);
    lemma_mul_mod_noop_right(zi, e, 3329);
    lemma_mul_mod_noop_right(zi, -2 * (z * b), 3329);
    assert(zi * (-2 * (z * b)) == (-2 * b) * (z * zi)) by (nonlinear_arith);
    lemma_mul_mod_noop_right(-2 * b, z * zi, 3329);
    assert((-2 * b) * 3328 == 2 * b + 3329 * (-2 * b)) by (nonlinear_arith);
    lemma_mod_multiples_vanish(-2 * b, 2 * b, 3329);
}

proof fn lemma_blocks(idx: int, len: int) -> (r: (int, int))
    requires
        len > 0,
        idx >= 0,
    ensures
        idx == r.0 * (2 * len) + r.1,
        0 <= r.1 < 2 * len,
        r.0 == idx / (2 * len),
        r.1 == idx % (2 * len),
        r.0 >= 0,
{
    lemma_fundamental_div_mod(idx, 2 * len);
    let b = idx / (2 * len);
    let p = idx % (2 * len);
    assert(idx == b * (2 * len) + p) by (nonlinear_arith)
        requires idx == (2 * len) * b + p;
    assert(b >= 0) by (nonlinear_arith)
        requires idx == b * (2 * len) + p, p < 2 * len, idx >= 0, len > 0;
    (b, p)
}

proof fn lemma_block_of(x: int, len: int, b: int, p: int)
    requires
        len > 0,
        x == b * (2 * len) + p,
        0 <= p < 2 * len,
    ensures
        x / (2 * len) == b,
        x % (2 * len) == p,
{
    lemma_fundamental_div_mod_converse(x, 2 * len, b, p);
}

proof fn lemma_layer_shape(m: int)
    requires
        0 <= m < 7,
    ensures
        ({
            let len = layer_len(m);
            let nb = 128int / len;
            &&& 2 <= len <= 128
            &&& nb * len == 128
            &&& (nb == 1 || nb == 2 || nb == 4 || nb == 8 || nb == 16 || nb == 32 || nb == 64)
        }),
{
    if m == 0 { assert(128int / 128 == 1); } else if m == 1 { assert(128int / 64 == 2); }
    else if m == 2 { assert(128int / 32 == 4); } else if m == 3 { assert(128int / 16 == 8); }
    else if m == 4 { assert(128int / 8 == 16); } else if m == 5 { assert(128int / 4 == 32); }
    else { assert(128int / 2 == 64); }
}

/// An inverse layer undoes the forward layer with the same half-block length, up to
/// a factor of 2.
proof fn lemma_layer_inverse(g: Seq<int>, m: int)
    requires
        g.len() == 256,
        0 <= m < 7,
    ensures
        inv_layer(fwd_layer(g, layer_len(m)), layer_len(m)) == scale(g, 2),
{
    let len = layer_len(m);
    let nb = 128int / len;
    lemma_layer_shape(m);
    let fg = fwd_layer(g, len);
    assert forall|idx: int| 0 <= idx < 256 implies #[trigger] inv_layer(fg, len)[idx] == scale(g, 2)[idx] by {
        let (b, p) = lemma_blocks(idx, len);
        assert(b < nb) by (nonlinear_arith)
            requires idx == b * (2 * len) + p, 0 <= p, idx < 256, nb * len == 128, len > 0;
        let z = twiddle(nb + b);
        let zi = twiddle(2 * nb - 1 - b);
        lemma_zeta_pair(nb, b);
        if p < len {
            lemma_block_of(idx + len, len, b, p + len);
            assert(idx + len < 256) by (nonlinear_arith)
                requires idx == b * (2 * len) + p, p < len, b < nb, nb * len == 128, len > 0;
            lemma_butterfly(g[idx], g[idx + len], z, zi);
        } else {
            lemma_block_of(idx - len, len, b, p - len);
            lemma_butterfly(g[idx - len], g[idx], z, zi);
        }
    }
    assert(inv_layer(fg, len) =~= scale(g, 2));
}

/// An inverse layer commutes with scaling.
proof fn lemma_inv_layer_scale(g: Seq<int>, m: int, c: int)
    requires
        g.len() == 256,
        0 <= m < 7,
    ensures
        inv_layer(scale(g, c), layer_len(m)) == scale(inv_layer(g, layer_len(m)), c),
{
    let len = layer_len(m);
    let nb = 128int / len;
    lemma_layer_shape(m);
    let sg = scale(g, c);
    assert forall|idx: int| 0 <= idx < 256 implies #[trigger] inv_layer(sg, len)[idx]
        == scale(inv_layer(g, len), c)[idx] by {
        let (b, p) = lemma_blocks(idx, len);
        assert(b < nb) by (nonlinear_arith)
            requires idx == b * (2 * len) + p, 0 <= p, idx < 256, nb * len == 128, len > 0;
        let zi = twiddle(2 * nb - 1 - b);
        if p < len {
            assert(idx + len < 256) by (nonlinear_arith)
                requires idx == b * (2 * len) + p, p < len, b < nb, nb * len == 128, len > 0;
            let (x, y) = (g[idx], g[idx + len]);
            lemma_add_mod_noop(c * x, c * y, 3329);
            assert(c * x + c * y == c * (x + y)) by (nonlinear_arith);
            lemma_mul_mod_noop_right(c, x + y, 3329);
        } else {
            let (x, y) = (g[idx - len], g[idx]);
            lemma_sub_mod_noop(c * y, c * x, 3329);
            assert(c * y - c * x == c * (y - x)) by (nonlinear_arith);
            lemma_mul_mod_noop_right(zi, (c * y) % 3329 - (c * x) % 3329, 3329);
            lemma_mul_mod_noop_right(zi, c * (y - x), 3329);
            assert(zi * (c * (y - x)) == c * (zi * (y - x))) by (nonlinear_arith);
            lemma_mul_mod_noop_right(c, zi * (y - x), 3329);
        }
    }
    assert(inv_layer(sg, len) =~= scale(inv_layer(g, len), c));
}

proof fn lemma_inv_layers_scale(g: Seq<int>, m: nat, c: int)
    requires
        g.len() == 256,
        1 <= m <= 7,
    ensures
        inv_layers(scale(g, c), m) == scale(inv_layers(g, m), c),
    decreases m,
{
    reveal_with_fuel(inv_layers, 2);
    lemma_inv_layer_scale(g, m - 1, c);
    let h = inv_layer(g, layer_len(m - 1));
    if m > 1 {
        lemma_inv_layers_scale(h, (m - 1) as nat, c);
    }
}

proof fn lemma_scale_scale(g: Seq<int>, a: int, b: int)
    requires
        g.len() == 256,
    ensures
        scale(scale(g, a), b) == scale(g, a * b),
{
    assert forall|i: int| 0 <= i < 256 implies #[trigger] scale(scale(g, a), b)[i] == scale(g, a * b)[i] by {
        lemma_mul_mod_noop_right(b, a * g[i], 3329);
        assert(b * (a * g[i]) == (a * b) * g[i]) by (nonlinear_arith);
    }
    assert(scale(scale(g, a), b) =~= scale(g, a * b));
}

proof fn lemma_fwd_layers_len(f: Seq<int>, m: nat)
    requires
        f.len() == 256,
    ensures
        fwd_layers(f, m).len() == 256,
    decreases m,
{
    if m > 0 {
        lemma_fwd_layers_len(f, (m - 1) as nat);
    }
}

proof fn lemma_inv_layers_len(f: Seq<int>, m: nat)
    requires
        f.len() == 256,
    ensures
        inv_layers(f, m).len() == 256,
    decreases m,
{
    if m > 0 {
        lemma_inv_layers_len(inv_layer(f, layer_len(m - 1)), (m - 1) as nat);
    }
}

/// Coefficient-wise sum modulo q.
pub open spec fn add_mod(a: Seq<int>, b: Seq<int>) -> Seq<int> {
    Seq::new(256, |i: int| (a[i] + b[i]) % 3329)
}

proof fn lemma_inv_layer_add(x: Seq<int>, y: Seq<int>, m: int)
    requires
        x.len() == 256,
        y.len() == 256,
        0 <= m < 7,
    ensures
        inv_layer(add_mod(x, y), layer_len(m)) == add_mod(inv_layer(x, layer_len(m)), inv_layer(y, layer_len(m))),
{
    let len = layer_len(m);
    let nb = 128int / len;
    lemma_layer_shape(m);
    let s = add_mod(x, y);
    assert forall|idx: int| 0 <= idx < 256 implies #[trigger] inv_layer(s, len)[idx]
        == add_mod(inv_layer(x, len), inv_layer(y, len))[idx] by {
        let (b, p) = lemma_blocks(idx, len);
        assert(b < nb) by (nonlinear_arith)
            requires idx == b * (2 * len) + p, 0 <= p, idx < 256, nb * len == 128, len > 0;
        let zi = twiddle(2 * nb - 1 - b);
        if p < len {
            assert(idx + len < 256) by (nonlinear_arith)
                requires idx == b * (2 * len) + p, p < len, b < nb, nb * len == 128, len > 0;
            let (x0, x1, y0, y1) = (x[idx], x[idx + len], y[idx], y[idx + len]);
            lemma_add_mod_noop(x0 + y0, x1 + y1, 3329);
            lemma_add_mod_noop(x0 + x1, y0 + y1, 3329);
        } else {
            let (x0, x1, y0, y1) = (x[idx - len], x[idx], y[idx - len], y[idx]);
            lemma_sub_mod_noop(x1 + y1, x0 + y0, 3329);
            lemma_mul_mod_noop_right(zi, (x1 + y1) % 3329 - (x0 + y0) % 3329, 3329);
            lemma_mul_mod_noop_right(zi, (x1 + y1) - (x0 + y0), 3329);
            assert(zi * ((x1 + y1) - (x0 + y0)) == zi * (x1 - x0) + zi * (y1 - y0)) by (nonlinear_arith);
            lemma_add_mod_noop(zi * (x1 - x0), zi * (y1 - y0), 3329);
        }
    }
    assert(inv_layer(s, len) =~= add_mod(inv_layer(x, len), inv_layer(y, len)));
}

proof fn lemma_inv_layers_add(x: Seq<int>, y: Seq<int>, m: nat)
    requires
        x.len() == 256,
        y.len() == 256,
        1 <= m <= 7,
    ensures
        inv_layers(add_mod(x, y), m) == add_mod(inv_layers(x, m), inv_layers(y, m)),
    decreases m,
{
    reveal_with_fuel(inv_layers, 2);
    lemma_inv_layer_add(x, y, m - 1);
    if m > 1 {
        lemma_inv_layers_add(inv_layer(x, layer_len(m - 1)), inv_layer(y, layer_len(m - 1)), (m - 1) as nat);
    }
}

proof fn lemma_undo_layers(f: Seq<int>, m: nat) -> (c: int)
    requires
        f.len() == 256,
        1 <= m <= 7,
    ensures
        c == vstd::arithmetic::power2::pow2(m),
        inv_layers(fwd_layers(f, m), m) == scale(f, c),
    decreases m,
{
    reveal_with_fuel(inv_layers, 2);
    reveal_with_fuel(fwd_layers, 2);
    vstd::arithmetic::power2::lemma2_to64();
    let prev = fwd_layers(f, (m - 1) as nat);
    lemma_fwd_layers_len(f, (m - 1) as nat);
    lemma_layer_inverse(prev, m - 1);
    if m == 1 {
        2
    } else {
        let c = lemma_undo_layers(f, (m - 1) as nat);
        lemma_inv_layers_scale(prev, (m - 1) as nat, 2);
        lemma_scale_scale(f, c, 2);
        vstd::arithmetic::power2::lemma_pow2_unfold(m);
        c * 2
    }
}

/// NTT^-1 undoes NTT: every coefficient comes back reduced modulo q.
pub proof fn lemma_ntt_roundtrip(f: Seq<int>)
    requires
        f.len() == 256,
    ensures
        inv_ntt_spec(ntt_spec(f)) == Seq::new(256, |i: int| f[i] % 3329),
{
    let c = lemma_undo_layers(f, 7);
    vstd::arithmetic::power2::lemma2_to64();
    lemma_scale_scale(f, 128, 3303);
    assert(128 * 3303 == 127 * 3329 + 1);
    assert forall|i: int| 0 <= i < 256 implies #[trigger] scale(f, 128int * 3303)[i] == f[i] % 3329 by {
        lemma_mul_mod_noop_left(128int * 3303, f[i], 3329);
    }
    assert(inv_ntt_spec(ntt_spec(f)) =~= Seq::new(256, |i: int| f[i] % 3329));
}

/// Inputs on which the first forward layer (half-block 128, twiddle 1729) neither
/// overflows nor leaves the range that `modq` accepts; later layers only see
/// reduced values.
pub open spec fn fwd_input_ok(c: Seq<i32>) -> bool {
    forall|j: int| 0 <= j < 128 ==> #[trigger] fwd_pair_ok(c, j)
}

/// The first forward butterfly on coefficients `j` and `j + 128` stays in range.
pub open spec fn fwd_pair_ok(c: Seq<i32>, j: int) -> bool {
    let x = 1729 * c[j + 128];
    let t = x % 3329;
    &&& i32::MIN <= x <= i32::MAX
    &&& modq_accepts(x)
    &&& i32::MIN <= c[j] - t && c[j] + t <= i32::MAX
    &&& modq_accepts(c[j] - t)
    &&& modq_accepts(c[j] + t)
}

/// Every coefficient lies in `[0, q)`.
pub open spec fn reduced(c: Seq<i32>) -> bool {
    forall|i: int| 0 <= i < c.len() ==> 0 <= #[trigger] c[i] < 3329
}

pub proof fn lemma_reduced_fwd_input(c: Seq<i32>)
    requires
        c.len() == 256,
        reduced(c),
    ensures
        fwd_input_ok(c),
{
    assert forall|j: int| 0 <= j < 128 implies #[trigger] fwd_pair_ok(c, j) by {
        let x = 1729 * c[j + 128];
        lemma_modq_accepts_small(x);
        let t = x % 3329;
        lemma_modq_accepts_small(c[j] - t);
        lemma_modq_accepts_small(c[j] + t);
    }
}

proof fn lemma_layer_entry(prev: Seq<int>, len: int, nb: int, blk: int, start: int, j: int, z: int)
    requires
        prev.len() == 256,
        len > 0,
        nb * len == 128,
        0 <= blk < nb,
        start == blk * (2 * len),
        start <= j < start + len,
        z == twiddle(nb + blk),
    ensures
        fwd_layer(prev, len)[j] == (prev[j] + z * prev[j + len]) % 3329,
        fwd_layer(prev, len)[j + len] == (prev[j] - z * prev[j + len]) % 3329,
        inv_layer(prev, len)[j] == (prev[j] + prev[j + len]) % 3329,
        inv_layer(prev, len)[j + len] == (twiddle(2 * nb - 1 - blk) * (prev[j + len] - prev[j])) % 3329,
        j + len < 256,
{
    lemma_block_of(j, len, blk, j - start);
    lemma_block_of(j + len, len, blk, j - start + len);
    assert(128int / len == nb) by {
        lemma_fundamental_div_mod_converse(128, len, nb, 0);
    }
    assert(j + len < 256) by (nonlinear_arith)
        requires start == blk * (2 * len), j < start + len, blk < nb, nb * len == 128, len > 0;
}

/// The three nested loops of one transform layer visit every butterfly once.
proof fn lemma_layer_bounds(len: int, nb: int, blk: int)
    requires
        len > 0,
        nb * len == 128,
        0 <= blk < nb,
    ensures
        blk * (2 * len) + 2 * len <= 256,
        (blk + 1) * (2 * len) == blk * (2 * len) + 2 * len,
{
    assert(blk * (2 * len) + 2 * len <= 256) by (nonlinear_arith)
        requires len > 0, nb * len == 128, 0 <= blk < nb;
    assert((blk + 1) * (2 * len) == blk * (2 * len) + 2 * len) by (nonlinear_arith);
}

proof fn lemma_layer_shape_exec(m: int, len: int)
    requires
        0 <= m < 7,
        len == layer_len(m),
    ensures
        (128int / len) * len == 128,
        (m + 1 < 7 ==> len / 2 == layer_len(m + 1)),
        (m + 1 == 7 ==> len / 2 == 1),
        len == 128 || len == 64 || len == 32 || len == 16 || len == 8 || len == 4 || len == 2,
        2 * (128int / len) == 128int / (len / 2) || len == 2,
        m > 0 ==> len * 2 == layer_len(m - 1) && 2 * (128int / (len * 2)) == 128int / len,
        m == 0 ==> len * 2 == 256,
{
    lemma_layer_shape(m);
    if m == 0 { assert(128int / 128 == 1 && 128int / 64 == 2); }
    else if m == 1 { assert(128int / 64 == 2 && 128int / 32 == 4); }
    else if m == 2 { assert(128int / 32 == 4 && 128int / 16 == 8); }
    else if m == 3 { assert(128int / 16 == 8 && 128int / 8 == 16); }
    else if m == 4 { assert(128int / 8 == 16 && 128int / 4 == 32); }
    else if m == 5 { assert(128int / 4 == 32 && 128int / 2 == 64); }
}

pub(crate) proof fn lemma_roots_reduced()
    ensures
        forall|k: int| 0 <= k < 128 ==> #[trigger] NTT_ROOTS@[k] < 3329,
        forall|k: int| 0 <= k < 128 ==> #[trigger] MOD_ROOTS@[k] < 3329,
{
    assert(NTT_ROOTS@ =~= seq![
        1u16, 1729, 2580, 3289, 2642, 630, 1897, 848, 1062, 1919, 193, 797, 2786, 3260, 569, 1746, 296,
        2447, 1339, 1476, 3046, 56, 2240, 1333, 1426, 2094, 535, 2882, 2393, 2879, 1974, 821, 289, 331,
        3253, 1756, 1197, 2304, 2277, 2055, 650, 1977, 2513, 632, 2865, 33, 1320, 1915, 2319, 1435,
        807, 452, 1438, 2868, 1534, 2402, 2647, 2617, 1481, 648, 2474, 3110, 1227, 910, 17, 2761, 583,
        2649, 1637, 723, 2288, 1100, 1409, 2662, 3281, 233, 756, 2156, 3015, 3050, 1703, 1651, 2789,
        1789, 1847, 952, 1461, 2687, 939, 2308, 2437, 2388, 733, 2337, 268, 641, 1584, 2298, 2037,
        3220, 375, 2549, 2090, 1645, 1063, 319, 2773, 757, 2099, 561, 2466, 2594, 2804, 1092, 403,
        1026, 1143, 2150, 2775, 886, 1722, 1212, 1874, 1029, 2110, 2935, 885, 2154,
    ]);
    assert(MOD_ROOTS@ =~= seq![
        17u16, 3312, 2761, 568, 583, 2746, 2649, 680, 1637, 1692, 723, 2606, 2288, 1041, 1100, 2229, 1409,
        1920, 2662, 667, 3281, 48, 233, 3096, 756, 2573, 2156, 1173, 3015, 314, 3050, 279, 1703, 1626,
        1651, 1678, 2789, 540, 1789, 1540, 1847, 1482, 952, 2377, 1461, 1868, 2687, 642, 939, 2390,
        2308, 1021, 2437, 892, 2388, 941, 733, 2596, 2337, 992, 268, 3061, 641, 2688, 1584, 1745, 2298,
        1031, 2037, 1292, 3220, 109, 375, 2954, 2549, 780, 2090, 1239, 1645, 1684, 1063, 2266, 319,
        3010, 2773, 556, 757, 2572, 2099, 1230, 561, 2768, 2466, 863, 2594, 735, 2804, 525, 1092, 2237,
        403, 2926, 1026, 2303, 1143, 2186, 2150, 1179, 2775, 554, 886, 2443, 1722, 1607, 1212, 2117,
        1874, 1455, 1029, 2300, 2110, 1219, 2935, 394, 885, 2444, 2154, 1175,
    ]);
}

/// Inputs on which the first inverse layer (half-block 2) neither overflows nor
/// leaves the range that `modq` accepts; later layers only see reduced values.
pub open spec fn inv_input_ok(c: Seq<i32>) -> bool {
    forall|j: int| 0 <= j < 256 && j % 4 < 2 ==> #[trigger] inv_pair_ok(c, j)
}

/// The first inverse butterfly on coefficients `j` and `j + 2` stays in range.
pub open spec fn inv_pair_ok(c: Seq<i32>, j: int) -> bool {
    let t = c[j];
    let s = t + c[j + 2];
    let d = c[j + 2] - t;
    let y = twiddle(127 - j / 4) * d;
    &&& i32::MIN <= s <= i32::MAX
    &&& modq_accepts(s)
    &&& i32::MIN <= d <= i32::MAX
    &&& i32::MIN <= y <= i32::MAX
    &&& modq_accepts(y)
}

pub proof fn lemma_reduced_inv_input(c: Seq<i32>)
    requires
        c.len() == 256,
        reduced(c),
    ensures
        inv_input_ok(c),
{
    lemma_roots_reduced();
    assert forall|j: int| 0 <= j < 256 && j % 4 < 2 implies #[trigger] inv_pair_ok(c, j) by {
        let z = twiddle(127 - j / 4);
        let d = c[j + 2] - c[j];
        assert(0 <= z < 3329);
        assert(-3329 * 3329 <= z * d <= 3329 * 3329) by (nonlinear_arith)
            requires 0 <= z < 3329, -3329 < d < 3329;
        lemma_modq_accepts_small(c[j] + c[j + 2]);
        lemma_modq_accepts_small(z * d);
    }
}

proof fn lemma_inv_first_layer(c: Seq<i32>, j: int, blk: int)
    requires
        inv_input_ok(c),
        0 <= blk < 64,
        4 * blk <= j < 4 * blk + 2,
    ensures
        inv_pair_ok(c, j),
        j / 4 == blk,
{
    assert(j % 4 < 2 && j / 4 == blk);
    assert(inv_pair_ok(c, j));
}

proof fn lemma_inv_step(prev: Seq<int>, fv: Seq<i32>, c: Seq<i32>, s: int, len: int, nb: int, blk: int,
    start: int, j: int, zeta: int)
    requires
        prev.len() == 256,
        fv.len() == 256,
        len > 0,
        nb * len == 128,
        nb == 1 || nb == 2 || nb == 4 || nb == 8 || nb == 16 || nb == 32 || nb == 64,
        0 <= blk < nb,
        start == blk * (2 * len),
        start <= j < start + len,
        zeta == twiddle(2 * nb - 1 - blk),
        0 <= zeta < 3329,
        fv[j] as int == prev[j],
        j + len < 256 ==> fv[j + len] as int == prev[j + len],
        s >= 0,
        s == 0 ==> prev == ints(c) && len == 2 && nb == 64 && inv_input_ok(c) && c.len() == 256,
        s > 0 ==> forall|k: int| 0 <= k < 256 ==> 0 <= #[trigger] prev[k] < 3329,
    ensures
        j + len < 256,
        ({
            let t = fv[j] as int;
            let u = fv[j + len] as int;
            &&& i32::MIN <= t + u <= i32::MAX
            &&& modq_accepts(t + u)
            &&& i32::MIN <= u - t <= i32::MAX
            &&& i32::MIN <= zeta * (u - t) <= i32::MAX
            &&& modq_accepts(zeta * (u - t))
            &&& (t + u) % 3329 == inv_layer(prev, len)[j]
            &&& (zeta * (u - t)) % 3329 == inv_layer(prev, len)[j + len]
        }),
{
    lemma_layer_entry(prev, len, nb, blk, start, j, twiddle(nb + blk));
    let t = fv[j] as int;
    let u = fv[j + len] as int;
    if s == 0 {
        assert(start == 4 * blk) by (nonlinear_arith)
            requires start == blk * (2 * len), len == 2;
        lemma_inv_first_layer(c, j, blk);
        assert(prev[j] == c[j] as int);
        assert(prev[j + 2] == c[j + 2] as int);
        assert(t == c[j] && u == c[j + 2]);
    } else {
        assert(0 <= prev[j] < 3329);
        assert(0 <= prev[j + len] < 3329);
        let d = u - t;
        assert(-3329 * 3329 <= zeta * d <= 3329 * 3329) by (nonlinear_arith)
            requires 0 <= zeta < 3329, -3329 < d < 3329;
        lemma_modq_accepts_small(zeta * d);
        lemma_modq_accepts_small(t + u);
    }
}

/// The first `s` inverse layers, in the order the inverse transform runs them.
pub open spec fn inv_prefix(g: Seq<int>, s: nat) -> Seq<int>
    decreases s,
{
    if s == 0 { g } else { inv_layer(inv_prefix(g, (s - 1) as nat), layer_len(7 - s)) }
}

proof fn lemma_inv_prefix(g: Seq<int>, s: nat)
    requires
        s <= 7,
    ensures
        inv_layers(g, 7) == inv_layers(inv_prefix(g, s), (7 - s) as nat),
    decreases s,
{
    if s > 0 {
        lemma_inv_prefix(g, (s - 1) as nat);
    }
}

/// A polynomial in the NTT domain: 128 degree-one residues, two coefficients each.
#[derive(Clone, Debug, Copy, PartialEq)]
pub struct NTT {
    c: [i32; N],
}

impl View for NTT {
    type V = Seq<i32>;

    closed spec fn view(&self) -> Seq<i32> {
        self.c@
    }
}

/// Every NTT representation has 256 coefficients.
pub proof fn lemma_ntt_view_len(a: &NTT)
    ensures
        a@.len() == 256,
{
}

impl NTT {
    /// NTT (FIPS 203, Alg. 9): seven layers of butterflies, each result reduced into `[0, q)`.
    pub fn from_poly(f: &Poly) -> (r: NTT)
        requires
            fwd_input_ok(f@),
        ensures
            r@.len() == 256,
            ints(r@) == ntt_spec(ints(f@)),
            reduced(r@),
    {
        let mut fh = f.coeff();
        let ghost f0 = ints(f@);
        let mut i = 1u8;
        let mut len = 128usize;
        let ghost mut m: int = 0;
        assert(ints(fh@) =~= fwd_layers(f0, 0));
        while len >= 2
            invariant
                0 <= m <= 7,
                m < 7 ==> len == layer_len(m),
                m == 7 ==> len == 1,
                m < 7 ==> i as int == 128int / (len as int),
                fh@.len() == 256,
                f0 == ints(f@),
                f0.len() == 256,
                fwd_input_ok(f@),
                ints(fh@) == fwd_layers(f0, m as nat),
                m == 0 ==> fh@ == f@,
                m > 0 ==> reduced(fh@),
            decreases len,
        {
            let ghost prev = ints(fh@);
            let ghost nb = 128int / (len as int);
            assert(forall|k: int| 0 <= k < 256 ==> #[trigger] fh@[k] as int == prev[k]);
            proof { lemma_layer_shape_exec(m, len as int); lemma_layer_shape(m); }
            let mut start = 0usize;
            let ghost mut blk: int = 0;
            while start < N
                invariant
                    0 <= m < 7,
                    len == layer_len(m),
                    nb == 128int / (len as int),
                    nb * len == 128,
                    0 <= blk <= nb,
                    start == blk * (2 * len),
                    i as int == nb + blk,
                    fh@.len() == 256,
                    prev.len() == 256,
                    f0 == ints(f@),
                    fwd_input_ok(f@),
                    prev == fwd_layers(f0, m as nat),
                    m == 0 ==> prev == f0,
                    m > 0 ==> forall|k: int| 0 <= k < 256 ==> 0 <= #[trigger] prev[k] < 3329,
                    forall|k: int| 0 <= k < start ==> #[trigger] fh@[k] as int == fwd_layer(prev, len as int)[k],
                    forall|k: int| start <= k < 256 ==> #[trigger] fh@[k] as int == prev[k],
                decreases 256 - start,
            {
                proof {
                    assert(blk < nb) by (nonlinear_arith)
                        requires start == blk * (2 * len), start < 256, nb * len == 128, len > 0, blk >= 0;
                    lemma_layer_bounds(len as int, nb, blk);
                }
                let zeta = NTT_ROOTS[i as usize] as i32;
                i += 1;
                let mut j = start;
                while j < start + len
                    invariant
                        0 <= m < 7,
                        len == layer_len(m),
                        nb == 128int / (len as int),
                        nb * len == 128,
                        0 <= blk < nb,
                        start == blk * (2 * len),
                        start + 2 * len <= 256,
                        start <= j <= start + len,
                        zeta == twiddle(nb + blk),
                        fh@.len() == 256,
                        prev.len() == 256,
                        f0 == ints(f@),
                        fwd_input_ok(f@),
                        m == 0 ==> prev == f0,
                        m > 0 ==> forall|k: int| 0 <= k < 256 ==> 0 <= #[trigger] prev[k] < 3329,
                        forall|k: int| 0 <= k < start ==> #[trigger] fh@[k] as int == fwd_layer(prev, len as int)[k],
                        forall|k: int| start <= k < j ==> #[trigger] fh@[k] as int == fwd_layer(prev, len as int)[k],
                        forall|k: int| start + len <= k < j + len ==> #[trigger] fh@[k] as int == fwd_layer(prev, len as int)[k],
                        forall|k: int| j <= k < start + len ==> #[trigger] fh@[k] as int == prev[k],
                        forall|k: int| j + len <= k < 256 ==> #[trigger] fh@[k] as int == prev[k],
                    decreases start + len - j,
                {
                    proof {
                        lemma_layer_entry(prev, len as int, nb, blk, start as int, j as int, zeta as int);
                        assert(fh@[j as int] as int == prev[j as int]);
                        assert(fh@[j + len] as int == prev[j + len]);
                        if m == 0 {
                            assert(zeta == 1729) by {
                                assert(NTT_ROOTS@[1] == 1729u16);
                            }
                            assert(len == 128 && blk == 0 && j < 128);
                            let jj = j as int;
                            assert(fwd_pair_ok(f@, jj));
                            assert(f@[jj + 128] == fh@[jj + 128]);
                        } else {
                            assert(0 <= zeta < 3329) by {
                                lemma_roots_reduced();
                            }
                            assert(0 <= zeta * fh[j + len as int] < 3329 * 3329) by (nonlinear_arith)
                                requires 0 <= zeta < 3329, 0 <= fh[j + len as int] < 3329;
                            lemma_modq_accepts_small(zeta * fh[j + len as int]);
                        }
                    }
                    let t = modq((zeta * fh[j + len]));
                    proof {
                        if m > 0 {
                            lemma_modq_accepts_small(fh[j as int] - t);
                            lemma_modq_accepts_small(fh[j as int] + t);
                        }
                    }
                    let fj = fh[j];
                    fh[j + len] = modq(fj - t);
                    fh[j] = modq(fj + t);
                    proof {
                        let a = prev[j as int];
                        let b = prev[j + len];
                        lemma_sub_mod_noop_right(a, zeta * b, 3329);
                        lemma_add_mod_noop_right(a, zeta * b, 3329);
                        assert(fh@[j as int] as int == fwd_layer(prev, len as int)[j as int]);
                        assert(fh@[j + len] as int == fwd_layer(prev, len as int)[j + len]);
                    }
                    j += 1;
                }
                start += (2 * len);
                proof { blk = blk + 1; }
            }
            proof {
                assert(blk == nb) by (nonlinear_arith)
                    requires start == blk * (2 * len), start >= 256, blk <= nb, nb * len == 128, len > 0;
                assert(ints(fh@) =~= fwd_layer(prev, len as int));
                assert forall|k: int| 0 <= k < fh@.len() implies 0 <= #[trigger] fh@[k] < 3329 by {
                    assert(fh@[k] as int == fwd_layer(prev, len as int)[k]);
                }
                assert(fwd_layers(f0, (m + 1) as nat) == fwd_layer(fwd_layers(f0, m as nat), layer_len(m)));
                m = m + 1;
            }
            len /= 2;
        }
        proof {
            assert(reduced(fh@));
        }
        NTT { c: fh }
    }

    /// NTT^-1 (FIPS 203, Alg. 10): seven layers of inverse butterflies, then a product
    /// with 128^-1 mod q; every coefficient of the result is in `[0, q)`.
    pub fn inv(&self) -> (r: Poly)
        requires
            inv_input_ok(self@),
        ensures
            r@.len() == 256,
            ints(r@) == inv_ntt_spec(ints(self@)),
            reduced(r@),
    {
        let mut f: [i32; N] = self.c;
        let ghost g0 = ints(self@);
        let mut i: usize = 127;
        let mut len = 2usize;
        let ghost mut s: int = 0;
        assert(ints(f@) =~= inv_prefix(g0, 0));
        while len <= 128
            invariant
                0 <= s <= 7,
                s < 7 ==> len == layer_len(6 - s),
                s == 7 ==> len == 256,
                s < 7 ==> i as int == 2 * (128int / (len as int)) - 1,
                f@.len() == 256,
                g0 == ints(self@),
                g0.len() == 256,
                inv_input_ok(self@),
                ints(f@) == inv_prefix(g0, s as nat),
                s == 0 ==> f@ == self@,
                s > 0 ==> reduced(f@),
            decreases 256 - len,
        {
            let ghost prev = ints(f@);
            let ghost m = 6 - s;
            let ghost nb = 128int / (len as int);
            proof { lemma_layer_shape_exec(m, len as int); lemma_layer_shape(m); lemma_roots_reduced(); }
            assert(forall|k: int| 0 <= k < 256 ==> #[trigger] f@[k] as int == prev[k]);
            let mut start = 0usize;
            let ghost mut blk: int = 0;
            while start < N
                invariant
                    0 <= s < 7,
                    m == 6 - s,
                    len == layer_len(m),
                    nb == 128int / (len as int),
                    nb * len == 128,
                    0 <= blk <= nb,
                    start == blk * (2 * len),
                    i as int == 2 * nb - 1 - blk,
                    f@.len() == 256,
                    prev.len() == 256,
                    g0 == ints(self@),
                    inv_input_ok(self@),
                    s == 0 ==> prev == g0,
                    s > 0 ==> forall|k: int| 0 <= k < 256 ==> 0 <= #[trigger] prev[k] < 3329,
                    forall|k: int| 0 <= k < 128 ==> #[trigger] NTT_ROOTS@[k] < 3329,
                    forall|k: int| 0 <= k < start ==> #[trigger] f@[k] as int == inv_layer(prev, len as int)[k],
                    forall|k: int| start <= k < 256 ==> #[trigger] f@[k] as int == prev[k],
                decreases 256 - start,
            {
                proof {
                    assert(blk < nb) by (nonlinear_arith)
                        requires start == blk * (2 * len), start < 256, nb * len == 128, len > 0, blk >= 0;
                    lemma_layer_bounds(len as int, nb, blk);
                }
                let zeta = NTT_ROOTS[i] as i32;
                i -= 1;
                let mut j = start;
                while j < start + len
                    invariant
                        0 <= s < 7,
                        m == 6 - s,
                        len == layer_len(m),
                        nb == 128int / (len as int),
                        nb * len == 128,
                        0 <= blk < nb,
                        start == blk * (2 * len),
                        start + 2 * len <= 256,
                        start <= j <= start + len,
                        zeta == twiddle(2 * nb - 1 - blk),
                        0 <= zeta < 3329,
                        f@.len() == 256,
                        prev.len() == 256,
                        g0 == ints(self@),
                        inv_input_ok(self@),
                        s == 0 ==> prev == g0,
                        s > 0 ==> forall|k: int| 0 <= k < 256 ==> 0 <= #[trigger] prev[k] < 3329,
                        forall|k: int| 0 <= k < start ==> #[trigger] f@[k] as int == inv_layer(prev, len as int)[k],
                        forall|k: int| start <= k < j ==> #[trigger] f@[k] as int == inv_layer(prev, len as int)[k],
                        forall|k: int| start + len <= k < j + len ==> #[trigger] f@[k] as int == inv_layer(prev, len as int)[k],
                        forall|k: int| j <= k < start + len ==> #[trigger] f@[k] as int == prev[k],
                        forall|k: int| j + len <= k < 256 ==> #[trigger] f@[k] as int == prev[k],
                    decreases start + len - j,
                {
                    proof {
                        lemma_inv_step(prev, f@, self@, s, len as int, nb, blk, start as int, j as int, zeta as int);
                    }
                    let t = f[j];
                    f[j] = modq(t + f[j + len]);
                    f[j + len] = modq(zeta * (f[j + len] - t));
                    proof {
                        assert(f@[j as int] as int == inv_layer(prev, len as int)[j as int]);
                        assert(f@[j + len] as int == inv_layer(prev, len as int)[j + len]);
                    }
                    j += 1;
                }
                start += (len * 2);
                proof { blk = blk + 1; }
            }
            proof {
                assert(blk == nb) by (nonlinear_arith)
                    requires start == blk * (2 * len), start >= 256, blk <= nb, nb * len == 128, len > 0;
                assert(ints(f@) =~= inv_layer(prev, len as int));
                assert forall|k: int| 0 <= k < f@.len() implies 0 <= #[trigger] f@[k] < 3329 by {
                    assert(f@[k] as int == inv_layer(prev, len as int)[k]);
                }
                assert(inv_prefix(g0, (s + 1) as nat) == inv_layer(inv_prefix(g0, s as nat), layer_len(7 - (s + 1))));
                s = s + 1;
            }
            len *= 2;
        }
        let ghost h = ints(f@);
        proof {
            lemma_inv_prefix(g0, 7);
            assert(h == inv_layers(g0, 7));
        }
        let mut out = [0i32; N];
        let mut k: usize = 0;
        while k < N
            invariant
                0 <= k <= N,
                out@.len() == 256,
                f@.len() == 256,
                reduced(f@),
                h == ints(f@),
                forall|kk: int| 0 <= kk < k ==> #[trigger] out@[kk] as int == scale(h, 3303)[kk],
                forall|kk: int| 0 <= kk < k ==> 0 <= #[trigger] out@[kk] < 3329,
            decreases N - k,
        {
            proof {
                assert(0 <= f[k as int] * 3303 <= 3328 * 3303) by (nonlinear_arith)
                    requires 0 <= f[k as int] < 3329;
                lemma_modq_accepts_small(f[k as int] * 3303);
            }
            out[k] = modq(f[k] * 3303);
            proof {
                assert(h[k as int] == f@[k as int] as int);
                assert(3303 * h[k as int] == f@[k as int] * 3303);
            }
            k += 1;
        }
        let r = Poly::from_coefficients(out);
        proof {
            assert(ints(r@) =~= inv_ntt_spec(g0));
        }
        r
    }
}

/// NTT^-1 of a coefficient-wise sum of two transforms is the coefficient-wise sum
/// of the inputs, modulo q.
pub proof fn lemma_ntt_additive(a: Seq<int>, b: Seq<int>)
    requires
        a.len() == 256,
        b.len() == 256,
    ensures
        inv_ntt_spec(add_mod(ntt_spec(a), ntt_spec(b))) == add_mod(a, b),
{
    let na = ntt_spec(a);
    let nb = ntt_spec(b);
    lemma_fwd_layers_len(a, 7);
    lemma_fwd_layers_len(b, 7);
    lemma_inv_layers_add(na, nb, 7);
    lemma_ntt_roundtrip(a);
    lemma_ntt_roundtrip(b);
    let ia = inv_layers(na, 7);
    let ib = inv_layers(nb, 7);
    assert forall|i: int| 0 <= i < 256 implies #[trigger] inv_ntt_spec(add_mod(na, nb))[i] == add_mod(a, b)[i] by {
        lemma_mul_mod_noop_right(3303, ia[i] + ib[i], 3329);
        assert(3303 * (ia[i] + ib[i]) == 3303 * ia[i] + 3303 * ib[i]) by (nonlinear_arith);
        lemma_add_mod_noop(3303 * ia[i], 3303 * ib[i], 3329);
        assert(scale(ia, 3303)[i] == inv_ntt_spec(na)[i]);
        assert(scale(ib, 3303)[i] == inv_ntt_spec(nb)[i]);
        lemma_add_mod_noop(a[i], b[i], 3329);
    }
    assert(inv_ntt_spec(add_mod(na, nb)) =~= add_mod(a, b));
}

/// Inputs of the base-case product on which no 64-bit product overflows and the
/// 64-bit reduction accepts both sums.
pub open spec fn base_case_ok(a0: int, a1: int, b0: int, b1: int, gamma: int) -> bool {
    &&& i64::MIN <= a1 * b1 <= i64::MAX
    &&& i64::MIN <= a1 * b1 * gamma <= i64::MAX
    &&& i64::MIN <= a0 * b0 + a1 * b1 * gamma <= i64::MAX
    &&& modq_i64_accepts(a0 * b0 + a1 * b1 * gamma)
    &&& i64::MIN <= a0 * b1 + a1 * b0 <= i64::MAX
    &&& modq_i64_accepts(a0 * b1 + a1 * b0)
}

/// Coefficients of the product in T_q: residue `i` is `(a0 + a1 X)(b0 + b1 X)`
/// modulo `X^2 - MOD_ROOTS[i]`, each coefficient reduced into `[0, q)`.
pub open spec fn ntt_mul_spec(a: Seq<i32>, b: Seq<i32>) -> Seq<int> {
    Seq::new(256, |k: int| {
        let i = k / 2;
        let (a0, a1, b0, b1) = (a[2 * i] as int, a[2 * i + 1] as int, b[2 * i] as int, b[2 * i + 1] as int);
        if k % 2 == 0 {
            (a0 * b0 + a1 * b1 * (MOD_ROOTS@[i] as int)) % 3329
        } else {
            (a0 * b1 + a1 * b0) % 3329
        }
    })
}

/// Every pair of residues can be multiplied.
pub open spec fn mul_input_ok(a: Seq<i32>, b: Seq<i32>) -> bool {
    forall|i: int| 0 <= i < 128 ==> #[trigger] base_case_ok(a[2 * i] as int, a[2 * i + 1] as int,
        b[2 * i] as int, b[2 * i + 1] as int, MOD_ROOTS@[i] as int)
}

/// Coefficient-wise sums of two NTT representations that `modq` accepts.
pub open spec fn add_input_ok(a: Seq<i32>, b: Seq<i32>) -> bool {
    forall|i: int| 0 <= i < 256 ==> #[trigger] modq_accepts(a[i] + b[i]) && i32::MIN <= a[i] + b[i] <= i32::MAX
}

/// Coefficient-wise differences that `modq` accepts.
pub open spec fn sub_input_ok(a: Seq<i32>, b: Seq<i32>) -> bool {
    forall|i: int| 0 <= i < 256 ==> #[trigger] modq_accepts(a[i] - b[i]) && i32::MIN <= a[i] - b[i] <= i32::MAX
}

pub proof fn lemma_reduced_base_case(a0: int, a1: int, b0: int, b1: int, gamma: int)
    requires
        0 <= a0 < 3329, 0 <= a1 < 3329, 0 <= b0 < 3329, 0 <= b1 < 3329, 0 <= gamma < 3329,
    ensures
        base_case_ok(a0, a1, b0, b1, gamma),
        0 <= a0 * b0 + a1 * b1 * gamma <= 0x1000000000,
        0 <= a0 * b1 + a1 * b0 <= 0x1000000000,
{
    assert(0 <= a1 * b1 < 3329 * 3329) by (nonlinear_arith)
        requires 0 <= a1 < 3329, 0 <= b1 < 3329;
    assert(0 <= a1 * b1 * gamma < 3329 * 3329 * 3329) by (nonlinear_arith)
        requires 0 <= a1 * b1 < 3329 * 3329, 0 <= gamma < 3329;
    assert(0 <= a0 * b0 < 3329 * 3329) by (nonlinear_arith)
        requires 0 <= a0 < 3329, 0 <= b0 < 3329;
    assert(0 <= a0 * b1 < 3329 * 3329) by (nonlinear_arith)
        requires 0 <= a0 < 3329, 0 <= b1 < 3329;
    assert(0 <= a1 * b0 < 3329 * 3329) by (nonlinear_arith)
        requires 0 <= a1 < 3329, 0 <= b0 < 3329;
}

/// Reduced inputs can be multiplied.
pub proof fn lemma_reduced_mul_input(a: Seq<i32>, b: Seq<i32>)
    requires
        a.len() == 256,
        b.len() == 256,
        reduced(a),
        reduced(b),
    ensures
        mul_input_ok(a, b),
{
    lemma_roots_reduced();
    assert forall|i: int| 0 <= i < 128 implies #[trigger] base_case_ok(a[2 * i] as int, a[2 * i + 1] as int,
        b[2 * i] as int, b[2 * i + 1] as int, MOD_ROOTS@[i] as int) by {
        lemma_reduced_base_case(a[2 * i] as int, a[2 * i + 1] as int, b[2 * i] as int, b[2 * i + 1] as int,
            MOD_ROOTS@[i] as int);
    }
}

/// The product has every coefficient in `[0, q)`.
pub proof fn lemma_ntt_mul_range(a: Seq<i32>, b: Seq<i32>)
    ensures
        forall|k: int| 0 <= k < 256 ==> 0 <= #[trigger] ntt_mul_spec(a, b)[k] < 3329,
{
}

impl NTT {
    /// Coefficient-wise sum, reduced into `[0, q)`.
    pub fn add(&self, that: &NTT) -> (r: Self)
        requires
            add_input_ok(self@, that@),
        ensures
            r@.len() == 256,
            ints(r@) == add_mod(ints(self@), ints(that@)),
            reduced(r@),
    {
        let fh = self.c;
        let th = that.c;
        let mut c = [0i32; N];
        let mut i: usize = 0;
        while i < N
            invariant
                0 <= i <= N,
                c@.len() == 256,
                fh@ == self@,
                th@ == that@,
                add_input_ok(self@, that@),
                forall|k: int| 0 <= k < i ==> #[trigger] c@[k] as int == (fh@[k] + th@[k]) % 3329,
            decreases N - i,
        {
            assert(modq_accepts(fh@[i as int] + th@[i as int]));
            c[i] = modq((fh[i] + th[i]));
            i += 1;
        }
        let r = NTT { c };
        assert(ints(r@) =~= add_mod(ints(self@), ints(that@)));
        r
    }

    /// Coefficient-wise difference, reduced into `[0, q)`.
    pub fn sub(&self, that: &NTT) -> (r: Self)
        requires
            sub_input_ok(self@, that@),
        ensures
            r@.len() == 256,
            forall|k: int| 0 <= k < 256 ==> #[trigger] r@[k] as int == (self@[k] - that@[k]) % 3329,
            r@.len() == 256,
            reduced(r@),
    {
        let fh = self.c;
        let th = that.c;
        let mut c = [0i32; N];
        let mut i: usize = 0;
        while i < N
            invariant
                0 <= i <= N,
                c@.len() == 256,
                fh@ == self@,
                th@ == that@,
                sub_input_ok(self@, that@),
                forall|k: int| 0 <= k < i ==> #[trigger] c@[k] as int == (fh@[k] - th@[k]) % 3329,
            decreases N - i,
        {
            assert(modq_accepts(fh@[i as int] - th@[i as int]));
            c[i] = modq((fh[i] - th[i]));
            i += 1;
        }
        NTT { c }
    }

    /// BaseCaseMultiply (FIPS 203, Alg. 12): `(a0 + a1 X)(b0 + b1 X)` modulo `X^2 - gamma`,
    /// each coefficient reduced into `[0, q)`.
    pub fn base_case_multiply(a0: i32, a1: i32, b0: i32, b1: i32, gamma: i32) -> (r: (i32, i32))
        requires
            base_case_ok(a0 as int, a1 as int, b0 as int, b1 as int, gamma as int),
        ensures
            r.0 as int == (a0 * b0 + a1 * b1 * gamma) % 3329,
            r.1 as int == (a0 * b1 + a1 * b0) % 3329,
    {
        proof {
            assert(i64::MIN <= a0 * b0 <= i64::MAX) by (nonlinear_arith)
                requires i32::MIN <= a0 <= i32::MAX, i32::MIN <= b0 <= i32::MAX;
            assert(i64::MIN <= a0 * b1 <= i64::MAX) by (nonlinear_arith)
                requires i32::MIN <= a0 <= i32::MAX, i32::MIN <= b1 <= i32::MAX;
            assert(i64::MIN <= a1 * b0 <= i64::MAX) by (nonlinear_arith)
                requires i32::MIN <= a1 <= i32::MAX, i32::MIN <= b0 <= i32::MAX;
        }
        let c0 = modq_i64((a0 as i64 * b0 as i64 + a1 as i64 * b1 as i64 * gamma as i64));
        let c1 = modq_i64((a0 as i64 * b1 as i64 + a1 as i64 * b0 as i64));
        (c0, c1)
    }

    /// Multiplication in T_q (FIPS 203, Alg. 11): 128 base-case products, every
    /// coefficient in `[0, q)`.
    pub fn mul(&self, that: &NTT) -> (r: Self)
        requires
            mul_input_ok(self@, that@),
        ensures
            r@.len() == 256,
            ints(r@) == ntt_mul_spec(self@, that@),
            reduced(r@),
    {
        let fh = self.c;
        let th = that.c;
        let mut rh: [i32; N] = [0i32; N];
        let mut i: usize = 0;
        while i < N / 2
            invariant
                0 <= i <= N / 2,
                rh@.len() == 256,
                fh@ == self@,
                th@ == that@,
                mul_input_ok(self@, that@),
                forall|k: int| 0 <= k < 2 * i ==> #[trigger] rh@[k] as int == ntt_mul_spec(self@, that@)[k],
            decreases N / 2 - i,
        {
            proof {
                lemma_roots_reduced();
                let ii = i as int;
                assert(base_case_ok(fh@[2 * ii] as int, fh@[2 * ii + 1] as int, th@[2 * ii] as int,
                    th@[2 * ii + 1] as int, MOD_ROOTS@[ii] as int));
            }
            let (c0, c1) = Self::base_case_multiply(
                fh[2 * i],
                fh[2 * i + 1],
                th[2 * i],
                th[2 * i + 1],
                MOD_ROOTS[i] as i32,
            );
            rh[2 * i] = c0;
            rh[2 * i + 1] = c1;
            proof {
                let ii = i as int;
                assert((2 * ii) / 2 == ii && (2 * ii) % 2 == 0);
                assert((2 * ii + 1) / 2 == ii && (2 * ii + 1) % 2 == 1);
            }
            i += 1;
        }
        let r = NTT { c: rh };
        assert(ints(r@) =~= ntt_mul_spec(self@, that@));
        assert(reduced(r@));
        r
    }

    /// The 256 coefficients.
    pub fn coefficients(&self) -> (r: [i32; N])
        ensures
            r@ == self@,
    {
        self.c
    }

    /// The NTT representation with the given coefficients, each below q.
    pub fn from_array(value: [u16; N]) -> (r: NTT)
        requires
            forall|k: int| 0 <= k < 256 ==> #[trigger] value@[k] < 3329,
        ensures
            r@.len() == 256,
            forall|k: int| 0 <= k < 256 ==> #[trigger] r@[k] as int == value@[k] as int,
            r@.len() == 256,
            reduced(r@),
    {
        let mut c = [0i32; N];
        let mut i: usize = 0;
        while i < N
            invariant
                0 <= i <= N,
                c@.len() == 256,
                forall|k: int| 0 <= k < 256 ==> #[trigger] value@[k] < 3329,
                forall|k: int| 0 <= k < i ==> #[trigger] c@[k] as int == value@[k] as int,
            decreases N - i,
        {
            c[i] = value[i] as i32;
            i += 1;
        }
        NTT { c }
    }
}

/// BitRev7: the seven low bits of `x` in reverse order.
pub open spec fn bitrev7(x: u8) -> u8 {
    (((x >> 0u8) & 1) << 6u8) | (((x >> 1u8) & 1) << 5u8) | (((x >> 2u8) & 1) << 4u8) | (((x >> 3u8) & 1) << 3u8)
        | (((x >> 4u8) & 1) << 2u8) | (((x >> 5u8) & 1) << 1u8) | ((x >> 6u8) & 1)
}

proof fn lemma_bit_rev_step(x0: u8, k: u8)
    requires
        x0 <= 127,
        k < 7,
    ensures
        ((bitrev7(x0) >> ((7 - k) as u8)) << 1u8) | ((x0 >> k) & 1) == bitrev7(x0) >> ((6 - k) as u8),
        (x0 >> k) >> 1u8 == x0 >> ((k + 1) as u8),
        bitrev7(x0) >> 7u8 == 0,
        x0 >> 0u8 == x0,
        bitrev7(x0) >> 0u8 == bitrev7(x0),
{
    assert(((bitrev7(x0) >> ((7 - k) as u8)) << 1u8) | ((x0 >> k) & 1) == bitrev7(x0) >> ((6 - k) as u8)
        && (x0 >> k) >> 1u8 == x0 >> ((k + 1) as u8)
        && bitrev7(x0) >> 7u8 == 0
        && x0 >> 0u8 == x0
        && bitrev7(x0) >> 0u8 == bitrev7(x0)) by (bit_vector)
        requires x0 <= 127, k < 7;
}

/// BitRev7 of `x` (for x < 128), as an index.
pub fn bit_rev_7(x: u8) -> (r: usize)
    requires
        x <= 127,
    ensures
        r == bitrev7(x),
{
    let ghost x0 = x;
    let mut x = x;
    let mut val: u8 = 0;
    let mut k: u8 = 0;
    proof { lemma_bit_rev_step(x0, 0); }
    while k < 7
        invariant
            x0 <= 127,
            k <= 7,
            x == x0 >> k,
            val == bitrev7(x0) >> ((7 - k) as u8),
        decreases 7 - k,
    {
        proof { lemma_bit_rev_step(x0, k); }
        let bit = x & 1;
        val <<= 1u8;
        val |= bit;
        x >>= 1u8;
        k += 1;
    }
    val as usize
}

/// BitRev7 is an involution on `[0, 128)`, hence a permutation of it.
pub proof fn lemma_bit_rev_7_involution(x: u8)
    requires
        x < 128,
    ensures
        bitrev7(x) < 128,
        bitrev7(bitrev7(x)) == x,
{
    assert(bitrev7(x) < 128 && bitrev7(bitrev7(x)) == x) by (bit_vector)
        requires x < 128;
}

proof fn lemma_pow_step(r: int, num: int, e: nat)
    ensures
        e % 2 == 1 ==> (((r * num) % 3329) * vstd::arithmetic::power::pow((num * num) % 3329, e / 2)) % 3329
            == (r * vstd::arithmetic::power::pow(num, e)) % 3329,
        e % 2 == 0 ==> (r * vstd::arithmetic::power::pow((num * num) % 3329, e / 2)) % 3329
            == (r * vstd::arithmetic::power::pow(num, e)) % 3329,
{
    let h = e / 2;
    lemma_pow_multiplies(num, 2, h);
    vstd::arithmetic::power::lemma_square_is_pow2(num);
    lemma_pow_mod_noop(num * num, h, 3329);
    let ph = pow((num * num) % 3329, h);
    let pe = pow(num * num, h);
    assert(pow(num, 2 * h) == pe);
    if e % 2 == 1 {
        lemma_pow_adds(num, 1, 2 * h);
        lemma_pow1(num);
        assert(e == 1 + 2 * h);
        assert(pow(num, e) == num * pe);
        lemma_mul_mod_noop_left(r * num, ph, 3329);
        lemma_mul_mod_noop_right(r * num, ph, 3329);
        lemma_mul_mod_noop_right(r * num, pe, 3329);
        assert((r * num) * pe == r * (num * pe)) by (nonlinear_arith);
    } else {
        assert(e == 2 * h);
        lemma_mul_mod_noop_right(r, ph, 3329);
        lemma_mul_mod_noop_right(r, pe, 3329);
    }
}

/// Inputs on which square-and-multiply stays within the checks: the first square,
/// and for an odd exponent the first product `n`, are reduced by `modq` and agree
/// with the remainder of the (truncating) `%` operator.
pub open spec fn pow_input_ok(n: int, exp: int) -> bool {
    exp == 0 || {
        &&& i32::MIN <= n * n <= i32::MAX
        &&& modq_accepts(n * n)
        &&& (exp % 2 == 1 ==> modq_accepts(n) && (n >= 0 || n % 3329 == 0))
    }
}

/// `n^exp mod q` by square-and-multiply.
pub fn pow_mod_q(n: i32, exp: u8) -> (r: i32)
    requires
        pow_input_ok(n as int, exp as int),
    ensures
        r as int == vstd::arithmetic::power::pow(n as int, exp as nat) % 3329,
{
    let ghost e0 = exp;
    let mut result = 1i32;
    let mut exp = exp;
    let mut num = n;
    proof {
        vstd::arithmetic::power::lemma_pow_mod_noop(n as int, exp as nat, 3329);
        lemma_small_mod(1, 3329);
    }
    while exp > 0
        invariant
            pow_input_ok(n as int, e0 as int),
            exp <= e0,
            exp < e0 ==> 0 <= num < 3329,
            exp == e0 ==> num == n,
            0 <= result < 3329,
            exp == e0 ==> result == 1,
            (result * vstd::arithmetic::power::pow(num as int, exp as nat)) % 3329
                == vstd::arithmetic::power::pow(n as int, e0 as nat) % 3329,
        decreases exp,
    {
        let ghost old_exp = exp;
        let ghost old_num = num;
        let ghost old_res = result;
        assert((exp & 1 == 1) == (exp % 2 == 1) && exp >> 1u8 == exp / 2) by (bit_vector);
        if exp & 1 == 1 {
            proof {
                if exp == e0 {
                    assert(result * num == n);
                } else {
                    assert(0 <= result * num < 3329 * 3329) by (nonlinear_arith)
                        requires 0 <= result < 3329, 0 <= num < 3329;
                    lemma_modq_accepts_small(result * num);
                }
            }
            let _dbg_res = (result * num) % QI32;
            result = modq(result * num);
            assert(_dbg_res == result);
        }
        exp >>= 1u8;
        proof {
            if old_exp < e0 {
                assert(0 <= num * num < 3329 * 3329) by (nonlinear_arith)
                    requires 0 <= num < 3329;
                lemma_modq_accepts_small(num * num);
            }
        }
        assert(num * num >= 0) by (nonlinear_arith);
        let _dbg_res = (num * num) % QI32;
        num = modq(num * num);
        assert(_dbg_res == num);
        proof {
            lemma_pow_step(old_res as int, old_num as int, old_exp as nat);
        }
    }
    proof {
        assert(vstd::arithmetic::power::pow(num as int, 0) == 1) by {
            reveal(vstd::arithmetic::power::pow);
        }
        lemma_small_mod(result as nat, 3329);
    }
    result
}

/// The polynomial whose coefficients are all zero.
pub open spec fn zero_poly() -> Seq<int> {
    Seq::new(256, |i: int| 0int)
}

proof fn lemma_fwd_layer_zero(m: int)
    requires
        0 <= m < 7,
    ensures
        fwd_layer(zero_poly(), layer_len(m)) == zero_poly(),
{
    let len = layer_len(m);
    let nb = 128int / len;
    lemma_layer_shape(m);
    let z = zero_poly();
    assert forall|idx: int| 0 <= idx < 256 implies #[trigger] fwd_layer(z, len)[idx] == 0 by {
        let (b, p) = lemma_blocks(idx, len);
        assert(b < nb) by (nonlinear_arith)
            requires idx == b * (2 * len) + p, 0 <= p, idx < 256, nb * len == 128, len > 0;
        if p < len {
            assert(idx + len < 256) by (nonlinear_arith)
                requires idx == b * (2 * len) + p, p < len, b < nb, nb * len == 128, len > 0;
        }
    }
    assert(fwd_layer(z, len) =~= z);
}

/// The transform of the zero polynomial is zero.
pub proof fn lemma_ntt_zero()
    ensures
        ntt_spec(zero_poly()) == zero_poly(),
{
    assert forall|m: nat| m <= 7 implies #[trigger] fwd_layers(zero_poly(), m) == zero_poly() by {
        lemma_fwd_layers_zero(m);
    }
}

proof fn lemma_fwd_layers_zero(m: nat)
    requires
        m <= 7,
    ensures
        fwd_layers(zero_poly(), m) == zero_poly(),
    decreases m,
{
    if m > 0 {
        lemma_fwd_layers_zero((m - 1) as nat);
        lemma_fwd_layer_zero(m - 1);
    }
}

impl Default for NTT {
    /// The transform of the zero polynomial: all coefficients zero.
    fn default() -> (r: Self)
        ensures
            r@ == Seq::new(256, |i: int| 0i32),
    {
        let z = Poly::default();
        proof {
            assert(reduced(z@));
            lemma_reduced_fwd_input(z@);
        }
        let r = NTT::from_poly(&z);
        proof {
            assert(ints(z@) =~= zero_poly());
            lemma_ntt_zero();
            assert(r@ =~= Seq::new(256, |i: int| 0i32)) by {
                assert forall|i: int| 0 <= i < 256 implies r@[i] == 0i32 by {
                    assert(ints(r@)[i] == zero_poly()[i]);
                }
            }
        }
        r
    }
}

impl From<NTT> for [u16; N] {
    /// The coefficients truncated to 16 bits.
    fn from(a: NTT) -> (r: [u16; N])
        ensures
            r@ == low16(a@),
    {
        let mut out = [0u16; N];
        let mut i: usize = 0;
        while i < N
            invariant
                0 <= i <= N,
                out@.len() == 256,
                a@.len() == 256,
                forall|k: int| 0 <= k < i ==> #[trigger] out@[k] == a@[k] as u16,
            decreases N - i,
        {
            out[i] = a.c[i] as u16;
            i += 1;
        }
        assert(out@ =~= low16(a@));
        out
    }
}

impl FromSpecImpl<NTT> for [u16; N] {
    open spec fn obeys_from_spec() -> bool {
        true
    }

    open spec fn from_spec(a: NTT) -> [u16; N] {
        choose|r: [u16; N]| r@ == low16(a@)
    }
}

/// Bound on the 3-byte reads of SampleNTT, there only so that the loop provably ends: at
/// 2^64 - 1 reads it is out of reach of any computation, where 256 values are accepted
/// after about 158 reads on average.
pub const SAMPLE_NTT_MAX_READS: u64 = 0xFFFF_FFFF_FFFF_FFFF;

/// Candidate `t` of SampleNTT (FIPS 203, Alg. 7): each three bytes of the SHAKE128
/// stream give two 12-bit values, the low one first.
pub open spec fn ntt_candidate(input: Seq<u8>, t: int) -> int {
    let c0 = shake128_byte(input, (3 * (t / 2)) as nat) as int;
    let c1 = shake128_byte(input, (3 * (t / 2) + 1) as nat) as int;
    let c2 = shake128_byte(input, (3 * (t / 2) + 2) as nat) as int;
    if t % 2 == 0 { c0 + 256 * (c1 % 16) } else { c1 / 16 + 16 * c2 }
}

/// The candidates below q among the first `t`, in order.
pub open spec fn ntt_accepted(input: Seq<u8>, t: nat) -> Seq<int>
    decreases t,
{
    if t == 0 {
        Seq::empty()
    } else {
        let prev = ntt_accepted(input, (t - 1) as nat);
        let c = ntt_candidate(input, t - 1);
        if c < 3329 { prev.push(c) } else { prev }
    }
}

/// SampleNTT on `input`: the first 256 accepted candidates of the SHAKE128 stream (zeros
/// past the accepted ones, were the read bound ever reached first).
pub open spec fn sample_ntt_spec(input: Seq<u8>) -> Seq<i32> {
    let acc = ntt_accepted(input, (2 * SAMPLE_NTT_MAX_READS) as nat);
    Seq::new(256, |k: int| if k < acc.len() { acc[k] as i32 } else { 0 })
}

/// Accepted candidates are below q, and fewer candidates give a prefix.
pub proof fn lemma_ntt_accepted_prefix(input: Seq<u8>, t: nat, u: nat)
    requires
        t <= u,
    ensures
        ntt_accepted(input, t).len() <= ntt_accepted(input, u).len(),
        ntt_accepted(input, u).len() <= u,
        forall|k: int| 0 <= k < ntt_accepted(input, t).len() ==>
            #[trigger] ntt_accepted(input, u)[k] == ntt_accepted(input, t)[k],
        forall|k: int| 0 <= k < ntt_accepted(input, u).len() ==> 0 <= #[trigger] ntt_accepted(input, u)[k] < 3329,
    decreases u,
{
    if u > 0 {
        let um = (u - 1) as nat;
        if t == u {
            lemma_ntt_accepted_prefix(input, um, um);
        } else {
            lemma_ntt_accepted_prefix(input, t, um);
        }
    }
}

/// Candidate `t` of SampleNTT read from the given stream bytes `s`.
pub open spec fn stream_candidate(s: Seq<u8>, t: int) -> int {
    let c0 = s[3 * (t / 2)] as int;
    let c1 = s[3 * (t / 2) + 1] as int;
    let c2 = s[3 * (t / 2) + 2] as int;
    if t % 2 == 0 { c0 + 256 * (c1 % 16) } else { c1 / 16 + 16 * c2 }
}

/// The candidates below q among the first `t` of the stream `s`, in order.
pub open spec fn stream_accepted(s: Seq<u8>, t: nat) -> Seq<int>
    decreases t,
{
    if t == 0 {
        Seq::empty()
    } else {
        let prev = stream_accepted(s, (t - 1) as nat);
        let c = stream_candidate(s, t - 1);
        if c < 3329 { prev.push(c) } else { prev }
    }
}

/// SampleNTT on given stream bytes: the first 256 accepted candidates of the whole
/// 3-byte groups of `s`, zeros past the accepted ones where the stream has fewer.
pub open spec fn sample_stream_spec(s: Seq<u8>) -> Seq<i32> {
    let acc = stream_accepted(s, (2 * (s.len() / 3)) as nat);
    Seq::new(256, |k: int| if k < acc.len() { acc[k] as i32 } else { 0 })
}

/// Fewer stream candidates give a prefix of the accepted values.
proof fn lemma_stream_accepted_prefix(s: Seq<u8>, t: nat, u: nat)
    requires
        t <= u,
    ensures
        stream_accepted(s, t).len() <= stream_accepted(s, u).len(),
        forall|k: int| 0 <= k < stream_accepted(s, t).len() ==>
            #[trigger] stream_accepted(s, u)[k] == stream_accepted(s, t)[k],
    decreases u,
{
    if u > t {
        lemma_stream_accepted_prefix(s, t, (u - 1) as nat);
    }
}

/// On the first `3 n` bytes of the SHAKE128 stream, the stream candidates are those of
/// SampleNTT: `sample_ntt_from_stream` on those bytes computes what `sample_ntt` does.
pub proof fn lemma_stream_is_shake(input: Seq<u8>, n: nat, t: nat)
    requires
        t <= 2 * n,
    ensures
        stream_accepted(crate::sampler::shake128_bytes(input, 0, 3 * n), t) == ntt_accepted(input, t),
    decreases t,
{
    if t > 0 {
        lemma_stream_is_shake(input, n, (t - 1) as nat);
        let tt = t - 1;
        assert(3 * (tt / 2) + 2 < 3 * n);
    }
}

proof fn lemma_candidate_bits(c0: u8, c1: u8, c2: u8)
    ensures
        ((c1 & 0xF) as u16) << 8u16 <= 3840,
        (c2 as u16) << 4u16 <= 4080,
        (c1 >> 4u8) as u16 <= 15,
        (c0 as u16) + (((c1 & 0xF) as u16) << 8u16) == c0 + 256 * (c1 % 16),
        ((c1 >> 4u8) as u16) + ((c2 as u16) << 4u16) == c1 / 16 + 16 * c2,
{
    assert(((c1 & 0xF) as u16) << 8u16 <= 3840
        && (c2 as u16) << 4u16 <= 4080
        && (c1 >> 4u8) as u16 <= 15
        && (c0 as u16) + (((c1 & 0xF) as u16) << 8u16) == c0 + 256 * (c1 % 16)
        && ((c1 >> 4u8) as u16) + ((c2 as u16) << 4u16) == c1 / 16 + 16 * c2) by (bit_vector);
}

impl NTT {
    /// SampleNTT (FIPS 203, Alg. 7): rejection sampling of 12-bit values below q from
    /// the SHAKE128 stream on `b`, until 256 are accepted.
    pub fn sample_ntt(b: &[u8; 34], ah: &mut NTT)
        ensures
            final(ah)@ == sample_ntt_spec(b@),
    {
        let ghost input = b@;
        let mut xr = XOF128::absorb_finalize(b);
        let mut j: usize = 0;
        let mut reads: u64 = 0;
        while j < 256 && reads < SAMPLE_NTT_MAX_READS
            invariant
                input == b@,
                xof128_input(xr) == input,
                xof128_read(xr) == 3 * reads,
                reads <= SAMPLE_NTT_MAX_READS,
                ah@.len() == 256,
                j <= 256,
                ntt_accepted(input, (2 * reads) as nat).len() < 256 ==> j == ntt_accepted(input, (2 * reads) as nat).len(),
                ntt_accepted(input, (2 * reads) as nat).len() >= 256 ==> j == 256,
                forall|k: int| 0 <= k < j ==> #[trigger] ah@[k] == ntt_accepted(input, (2 * reads) as nat)[k] as i32,
            decreases SAMPLE_NTT_MAX_READS - reads,
        {
            let ghost acc0 = ntt_accepted(input, (2 * reads) as nat);
            let mut c = [0u8; 3];
            xr.squeeze(&mut c);
            proof {
                lemma_candidate_bits(c[0], c[1], c[2]);
                let r = reads as int;
                assert((2 * r) / 2 == r && (2 * r) % 2 == 0);
                assert((2 * r + 1) / 2 == r && (2 * r + 1) % 2 == 1);
                assert(c@[0] == shake128_byte(input, (3 * r) as nat));
                assert(c@[1] == shake128_byte(input, (3 * r + 1) as nat));
                assert(c@[2] == shake128_byte(input, (3 * r + 2) as nat));
                lemma_ntt_accepted_prefix(input, (2 * r) as nat, (2 * r) as nat);
            }
            let d1 = (c[0] as u16) + (((c[1] & 0xF) as u16) << 8u16);
            let d2 = ((c[1] >> 4u8) as u16) + ((c[2] as u16) << 4u16);
            let ghost acc1 = ntt_accepted(input, (2 * reads + 1) as nat);
            let ghost acc2 = ntt_accepted(input, (2 * reads + 2) as nat);
            proof {
                assert(d1 as int == ntt_candidate(input, 2 * reads as int));
                assert(d2 as int == ntt_candidate(input, 2 * reads as int + 1));
                assert(acc1 == (if d1 < 3329 { acc0.push(d1 as int) } else { acc0 }));
                assert(acc2 == (if d2 < 3329 { acc1.push(d2 as int) } else { acc1 }));
            }
            if d1 < Q as u16 {
                ah.c[j] = d1 as i32;
                j += 1;
            }
            if d2 < Q as u16 && j < 256 {
                ah.c[j] = d2 as i32;
                j += 1;
            }
            reads += 1;
        }
        let ghost done = (2 * reads) as nat;
        let ghost j0 = j;
        // zeros past the accepted values, were the read bound reached first
        while j < 256
            invariant
                ah@.len() == 256,
                j0 <= j <= 256,
                forall|k: int| 0 <= k < j0 ==> #[trigger] ah@[k] == ntt_accepted(input, done)[k] as i32,
                forall|k: int| j0 <= k < j ==> #[trigger] ah@[k] == 0,
            decreases 256 - j,
        {
            ah.c[j] = 0;
            j += 1;
        }
        proof {
            let all = (2 * SAMPLE_NTT_MAX_READS) as nat;
            lemma_ntt_accepted_prefix(input, done, all);
            assert(ah@ =~= sample_ntt_spec(input));
        }
    }

    /// SampleNTT (FIPS 203, Alg. 7) on given stream bytes `s`: rejection sampling of 12-bit
    /// values below q from the whole 3-byte groups of `s`. Returns whether 256 were accepted;
    /// where not, the coefficients past the accepted ones are zero.
    pub fn sample_ntt_from_stream(s: &[u8], ah: &mut NTT) -> (ok: bool)
        ensures
            final(ah)@ == sample_stream_spec(s@),
            ok == (stream_accepted(s@, (2 * (s@.len() / 3)) as nat).len() >= 256),
    {
        let ghost input = s@;
        let len = s.len();
        let n3 = len / 3;
        let mut j: usize = 0;
        let mut i: usize = 0;
        while j < 256 && i < n3
            invariant
                input == s@,
                len == s@.len(),
                n3 == len / 3,
                i <= n3,
                ah@.len() == 256,
                j <= 256,
                stream_accepted(input, (2 * i) as nat).len() < 256 ==> j == stream_accepted(input, (2 * i) as nat).len(),
                stream_accepted(input, (2 * i) as nat).len() >= 256 ==> j == 256,
                forall|k: int| 0 <= k < j ==> #[trigger] ah@[k] == stream_accepted(input, (2 * i) as nat)[k] as i32,
            decreases n3 - i,
        {
            let ghost acc0 = stream_accepted(input, (2 * i) as nat);
            assert(3 * i + 2 < len);
            let c0 = s[3 * i];
            let c1 = s[3 * i + 1];
            let c2 = s[3 * i + 2];
            proof {
                lemma_candidate_bits(c0, c1, c2);
                let r = i as int;
                assert((2 * r) / 2 == r && (2 * r) % 2 == 0);
                assert((2 * r + 1) / 2 == r && (2 * r + 1) % 2 == 1);
            }
            let d1 = (c0 as u16) + (((c1 & 0xF) as u16) << 8u16);
            let d2 = ((c1 >> 4u8) as u16) + ((c2 as u16) << 4u16);
            let ghost acc1 = stream_accepted(input, (2 * i + 1) as nat);
            let ghost acc2 = stream_accepted(input, (2 * i + 2) as nat);
            proof {
                assert(d1 as int == stream_candidate(input, 2 * i as int));
                assert(d2 as int == stream_candidate(input, 2 * i as int + 1));
                assert(acc1 == (if d1 < 3329 { acc0.push(d1 as int) } else { acc0 }));
                assert(acc2 == (if d2 < 3329 { acc1.push(d2 as int) } else { acc1 }));
            }
            if d1 < Q as u16 {
                ah.c[j] = d1 as i32;
                j += 1;
            }
            if d2 < Q as u16 && j < 256 {
                ah.c[j] = d2 as i32;
                j += 1;
            }
            i += 1;
        }
        let ok = j == 256;
        let ghost done = (2 * i) as nat;
        let ghost j0 = j;
        while j < 256
            invariant
                ah@.len() == 256,
                j0 <= j <= 256,
                forall|k: int| 0 <= k < j0 ==> #[trigger] ah@[k] == stream_accepted(input, done)[k] as i32,
                forall|k: int| j0 <= k < j ==> #[trigger] ah@[k] == 0,
            decreases 256 - j,
        {
            ah.c[j] = 0;
            j += 1;
        }
        proof {
            let all = (2 * n3) as nat;
            lemma_stream_accepted_prefix(input, done, all);
            assert(ah@ =~= sample_stream_spec(input));
        }
        ok
    }

    /// The matrix Â of K-PKE: entry `[i][j]` is SampleNTT(rho || j || i).
    pub fn sample_ntt_matrix(rho: &[u8; 32], ah: &mut [[NTT; RANK]; RANK])
        ensures
            forall|i: int, j: int| 0 <= i < RANK && 0 <= j < RANK ==>
                #[trigger] final(ah)@[i]@[j]@ == sample_ntt_spec(rho@ + seq![j as u8, i as u8]),
    {
        let ghost old_ah = ah@;
        let mut rho_j_i = [0u8; 34];
        let mut k: usize = 0;
        while k < 32
            invariant
                0 <= k <= 32,
                rho_j_i@.len() == 34,
                forall|t: int| 0 <= t < k ==> #[trigger] rho_j_i@[t] == rho@[t],
            decreases 32 - k,
        {
            rho_j_i[k] = rho[k];
            k += 1;
        }
        let mut i: usize = 0;
        while i < RANK
            invariant
                0 <= i <= RANK,
                rho_j_i@.len() == 34,
                forall|t: int| 0 <= t < 32 ==> #[trigger] rho_j_i@[t] == rho@[t],
                ah@.len() == RANK,
                forall|a: int, b: int| 0 <= a < i && 0 <= b < RANK ==>
                    #[trigger] ah@[a]@[b]@ == sample_ntt_spec(rho@ + seq![b as u8, a as u8]),
                forall|a: int| i <= a < RANK ==> #[trigger] ah@[a] == old_ah[a],
            decreases RANK - i,
        {
            rho_j_i[33] = i as u8;
            let mut row = ah[i];
            let mut j: usize = 0;
            while j < RANK
                invariant
                    0 <= i < RANK,
                    0 <= j <= RANK,
                    rho_j_i@.len() == 34,
                    forall|t: int| 0 <= t < 32 ==> #[trigger] rho_j_i@[t] == rho@[t],
                    rho_j_i@[33] == i as u8,
                    row@.len() == RANK,
                    forall|b: int| 0 <= b < j ==>
                        #[trigger] row@[b]@ == sample_ntt_spec(rho@ + seq![b as u8, i as u8]),
                    forall|b: int| j <= b < RANK ==> #[trigger] row@[b] == old_ah[i as int]@[b],
                decreases RANK - j,
            {
                rho_j_i[32] = j as u8;
                assert(rho_j_i@ =~= rho@ + seq![j as u8, i as u8]);
                let mut t = row[j];
                NTT::sample_ntt(&rho_j_i, &mut t);
                row[j] = t;
                j += 1;
            }
            ah[i] = row;
            i += 1;
        }
    }
}

/// A forward butterfly with `z` undoes an inverse butterfly with `zi`, up to a factor 2,
/// when `z * zi = -1` modulo q.
proof fn lemma_butterfly_rev(a: int, b: int, z: int, zi: int)
    requires
        (z * zi) % 3329 == 3328,
    ensures
        (((a + b) % 3329) + z * ((zi * (b - a)) % 3329)) % 3329 == (2 * a) % 3329,
        (((a + b) % 3329) - z * ((zi * (b - a)) % 3329)) % 3329 == (2 * b) % 3329,
{
    let u = (a + b) % 3329;
    let v = (zi * (b - a)) % 3329;
    // z * v = z * zi * (b - a) = -(b - a) modulo q
    lemma_mul_mod_noop_right(z, zi * (b - a), 3329);
    assert(z * (zi * (b - a)) == (b - a) * (z * zi)) by (nonlinear_arith);
    lemma_mul_mod_noop_right(b - a, z * zi, 3329);
    assert((b - a) * 3328 == (a - b) + 3329 * (b - a)) by (nonlinear_arith);
    lemma_mod_multiples_vanish(b - a, a - b, 3329);
    assert((z * v) % 3329 == (a - b) % 3329);
    lemma_add_mod_noop(u, z * v, 3329);
    lemma_add_mod_noop(a + b, a - b, 3329);
    lemma_sub_mod_noop(u, z * v, 3329);
    lemma_sub_mod_noop(a + b, a - b, 3329);
    assert((a + b) + (a - b) == 2 * a);
    assert((a + b) - (a - b) == 2 * b);
}

/// A forward layer undoes the inverse layer with the same half-block length, up to
/// a factor 2.
proof fn lemma_layer_inverse_rev(g: Seq<int>, m: int)
    requires
        g.len() == 256,
        0 <= m < 7,
    ensures
        fwd_layer(inv_layer(g, layer_len(m)), layer_len(m)) == scale(g, 2),
{
    let len = layer_len(m);
    let nb = 128int / len;
    lemma_layer_shape(m);
    let h = inv_layer(g, len);
    assert forall|idx: int| 0 <= idx < 256 implies #[trigger] fwd_layer(h, len)[idx] == scale(g, 2)[idx] by {
        let (b, p) = lemma_blocks(idx, len);
        assert(b < nb) by (nonlinear_arith)
            requires idx == b * (2 * len) + p, 0 <= p, idx < 256, nb * len == 128, len > 0;
        let z = twiddle(nb + b);
        let zi = twiddle(2 * nb - 1 - b);
        lemma_zeta_pair(nb, b);
        if p < len {
            lemma_block_of(idx + len, len, b, p + len);
            assert(idx + len < 256) by (nonlinear_arith)
                requires idx == b * (2 * len) + p, p < len, b < nb, nb * len == 128, len > 0;
            lemma_butterfly_rev(g[idx], g[idx + len], z, zi);
        } else {
            lemma_block_of(idx - len, len, b, p - len);
            lemma_butterfly_rev(g[idx - len], g[idx], z, zi);
        }
    }
    assert(fwd_layer(h, len) =~= scale(g, 2));
}

proof fn lemma_scaled_butterfly(c: int, x: int, y: int, z: int)
    ensures
        (((c * x) % 3329) + z * ((c * y) % 3329)) % 3329 == (c * ((x + z * y) % 3329)) % 3329,
        (((c * x) % 3329) - z * ((c * y) % 3329)) % 3329 == (c * ((x - z * y) % 3329)) % 3329,
{
    lemma_mul_mod_noop_right(z, c * y, 3329);
    lemma_add_mod_noop(c * x, z * ((c * y) % 3329), 3329);
    lemma_add_mod_noop(c * x, z * (c * y), 3329);
    lemma_mod_twice(c * x, 3329);
    lemma_add_mod_noop((c * x) % 3329, z * ((c * y) % 3329), 3329);
    assert(c * x + z * (c * y) == c * (x + z * y)) by (nonlinear_arith);
    lemma_mul_mod_noop_right(c, x + z * y, 3329);
    lemma_sub_mod_noop(c * x, z * ((c * y) % 3329), 3329);
    lemma_sub_mod_noop(c * x, z * (c * y), 3329);
    lemma_sub_mod_noop((c * x) % 3329, z * ((c * y) % 3329), 3329);
    assert(c * x - z * (c * y) == c * (x - z * y)) by (nonlinear_arith);
    lemma_mul_mod_noop_right(c, x - z * y, 3329);
}

/// A forward layer commutes with scaling.
proof fn lemma_fwd_layer_scale(g: Seq<int>, m: int, c: int)
    requires
        g.len() == 256,
        0 <= m < 7,
    ensures
        fwd_layer(scale(g, c), layer_len(m)) == scale(fwd_layer(g, layer_len(m)), c),
{
    let len = layer_len(m);
    let nb = 128int / len;
    lemma_layer_shape(m);
    let sg = scale(g, c);
    assert forall|idx: int| 0 <= idx < 256 implies #[trigger] fwd_layer(sg, len)[idx]
        == scale(fwd_layer(g, len), c)[idx] by {
        let (b, p) = lemma_blocks(idx, len);
        assert(b < nb) by (nonlinear_arith)
            requires idx == b * (2 * len) + p, 0 <= p, idx < 256, nb * len == 128, len > 0;
        let z = twiddle(nb + b);
        if p < len {
            assert(idx + len < 256) by (nonlinear_arith)
                requires idx == b * (2 * len) + p, p < len, b < nb, nb * len == 128, len > 0;
            lemma_scaled_butterfly(c, g[idx], g[idx + len], z);
        } else {
            lemma_scaled_butterfly(c, g[idx - len], g[idx], z);
        }
    }
    assert(fwd_layer(sg, len) =~= scale(fwd_layer(g, len), c));
}

proof fn lemma_fwd_layers_scale(g: Seq<int>, m: nat, c: int)
    requires
        g.len() == 256,
        1 <= m <= 7,
    ensures
        fwd_layers(scale(g, c), m) == scale(fwd_layers(g, m), c),
    decreases m,
{
    reveal_with_fuel(fwd_layers, 2);
    if m == 1 {
        lemma_fwd_layer_scale(g, 0, c);
    } else {
        lemma_fwd_layers_scale(g, (m - 1) as nat, c);
        lemma_fwd_layers_len(g, (m - 1) as nat);
        lemma_fwd_layer_scale(fwd_layers(g, (m - 1) as nat), m - 1, c);
    }
}

proof fn lemma_redo_layers(g: Seq<int>, m: nat) -> (c: int)
    requires
        g.len() == 256,
        1 <= m <= 7,
    ensures
        c == vstd::arithmetic::power2::pow2(m),
        fwd_layers(inv_layers(g, m), m) == scale(g, c),
    decreases m,
{
    reveal_with_fuel(inv_layers, 2);
    reveal_with_fuel(fwd_layers, 2);
    vstd::arithmetic::power2::lemma2_to64();
    let g1 = inv_layer(g, layer_len(m - 1));
    if m == 1 {
        lemma_layer_inverse_rev(g, 0);
        2
    } else {
        let c = lemma_redo_layers(g1, (m - 1) as nat);
        lemma_fwd_layer_scale(g1, m - 1, c);
        lemma_layer_inverse_rev(g, m - 1);
        lemma_scale_scale(g, 2, c);
        assert(2 * c == c * 2);
        vstd::arithmetic::power2::lemma_pow2_unfold(m);
        2 * c
    }
}

/// Coefficients in `[0, q)`.
pub open spec fn canonical(f: Seq<int>) -> bool {
    f.len() == 256 && forall|i: int| 0 <= i < 256 ==> 0 <= #[trigger] f[i] < 3329
}

/// NTT undoes NTT^-1 on coefficients in `[0, q)`.
pub proof fn lemma_ntt_of_inv(x: Seq<int>)
    requires
        canonical(x),
    ensures
        ntt_spec(inv_ntt_spec(x)) == x,
{
    let y = inv_layers(x, 7);
    lemma_inv_layers_len(x, 7);
    lemma_fwd_layers_scale(y, 7, 3303);
    let c = lemma_redo_layers(x, 7);
    vstd::arithmetic::power2::lemma2_to64();
    lemma_scale_scale(x, 128, 3303);
    assert forall|i: int| 0 <= i < 256 implies #[trigger] scale(x, 128int * 3303)[i] == x[i] by {
        lemma_mul_mod_noop_left(128int * 3303, x[i], 3329);
        lemma_small_mod(x[i] as nat, 3329);
    }
    assert(scale(x, 128int * 3303) =~= x);
}

proof fn lemma_fwd_layer_add(x: Seq<int>, y: Seq<int>, m: int)
    requires
        x.len() == 256,
        y.len() == 256,
        0 <= m < 7,
    ensures
        fwd_layer(add_mod(x, y), layer_len(m)) == add_mod(fwd_layer(x, layer_len(m)), fwd_layer(y, layer_len(m))),
{
    let len = layer_len(m);
    let nb = 128int / len;
    lemma_layer_shape(m);
    let s = add_mod(x, y);
    assert forall|idx: int| 0 <= idx < 256 implies #[trigger] fwd_layer(s, len)[idx]
        == add_mod(fwd_layer(x, len), fwd_layer(y, len))[idx] by {
        let (b, p) = lemma_blocks(idx, len);
        assert(b < nb) by (nonlinear_arith)
            requires idx == b * (2 * len) + p, 0 <= p, idx < 256, nb * len == 128, len > 0;
        let z = twiddle(nb + b);
        if p < len {
            assert(idx + len < 256) by (nonlinear_arith)
                requires idx == b * (2 * len) + p, p < len, b < nb, nb * len == 128, len > 0;
            let (x0, x1, y0, y1) = (x[idx], x[idx + len], y[idx], y[idx + len]);
            lemma_mul_mod_noop_right(z, x1 + y1, 3329);
            lemma_add_mod_noop(x0 + y0, z * ((x1 + y1) % 3329), 3329);
            lemma_add_mod_noop(x0 + y0, z * (x1 + y1), 3329);
            lemma_add_mod_noop((x0 + y0) % 3329, z * ((x1 + y1) % 3329), 3329);
            assert((x0 + y0) + z * (x1 + y1) == (x0 + z * x1) + (y0 + z * y1)) by (nonlinear_arith);
            lemma_add_mod_noop(x0 + z * x1, y0 + z * y1, 3329);
        } else {
            let (x0, x1, y0, y1) = (x[idx - len], x[idx], y[idx - len], y[idx]);
            lemma_mul_mod_noop_right(z, x1 + y1, 3329);
            lemma_sub_mod_noop((x0 + y0) % 3329, z * ((x1 + y1) % 3329), 3329);
            lemma_sub_mod_noop(x0 + y0, z * (x1 + y1), 3329);
            lemma_add_mod_noop(x0 + y0, 0, 3329);
            assert((x0 + y0) - z * (x1 + y1) == (x0 - z * x1) + (y0 - z * y1)) by (nonlinear_arith);
            lemma_add_mod_noop(x0 - z * x1, y0 - z * y1, 3329);
        }
    }
    assert(fwd_layer(s, len) =~= add_mod(fwd_layer(x, len), fwd_layer(y, len)));
}

proof fn lemma_fwd_layers_add(x: Seq<int>, y: Seq<int>, m: nat)
    requires
        x.len() == 256,
        y.len() == 256,
        1 <= m <= 7,
    ensures
        fwd_layers(add_mod(x, y), m) == add_mod(fwd_layers(x, m), fwd_layers(y, m)),
    decreases m,
{
    reveal_with_fuel(fwd_layers, 2);
    if m == 1 {
        lemma_fwd_layer_add(x, y, 0);
    } else {
        lemma_fwd_layers_add(x, y, (m - 1) as nat);
        lemma_fwd_layers_len(x, (m - 1) as nat);
        lemma_fwd_layers_len(y, (m - 1) as nat);
        lemma_fwd_layer_add(fwd_layers(x, (m - 1) as nat), fwd_layers(y, (m - 1) as nat), m - 1);
    }
}

/// The NTT of a sum modulo q is the sum of the NTTs.
pub proof fn lemma_ntt_add(x: Seq<int>, y: Seq<int>)
    requires
        x.len() == 256,
        y.len() == 256,
    ensures
        ntt_spec(add_mod(x, y)) == add_mod(ntt_spec(x), ntt_spec(y)),
{
    lemma_fwd_layers_add(x, y, 7);
}

/// Coefficient-wise difference modulo q.
pub open spec fn sub_mod(a: Seq<int>, b: Seq<int>) -> Seq<int> {
    Seq::new(256, |i: int| (a[i] - b[i]) % 3329)
}

proof fn lemma_scale_add_elem(c: int, a: int, b: int)
    ensures
        (c * ((a + b) % 3329)) % 3329 == ((c * a) % 3329 + (c * b) % 3329) % 3329,
{
    lemma_mul_mod_noop_right(c, a + b, 3329);
    assert(c * (a + b) == c * a + c * b) by (nonlinear_arith);
    lemma_add_mod_noop(c * a, c * b, 3329);
}

proof fn lemma_neg_elem(x: int, y: int)
    ensures
        (x - y) % 3329 == (x + (3328 * y) % 3329) % 3329,
{
    lemma_add_mod_noop(x, 3328 * y, 3329);
    lemma_mod_twice(3328 * y, 3329);
    lemma_add_mod_noop(x, (3328 * y) % 3329, 3329);
    lemma_mod_twice(x, 3329);
    assert(x + 3328 * y == (x - y) + 3329 * y) by (nonlinear_arith);
    lemma_mod_multiples_vanish(y, x - y, 3329);
}

proof fn lemma_scaled_neg_elem(xs: int, b: int)
    ensures
        (xs + (3303 * ((3328 * b) % 3329)) % 3329) % 3329 == (xs - (3303 * b) % 3329) % 3329,
{
    lemma_mul_mod_noop_right(3303, 3328 * b, 3329);
    assert(3303 * (3328 * b) == -(3303 * b) + 3329 * (3303 * b)) by (nonlinear_arith);
    lemma_mod_multiples_vanish(3303 * b, -(3303 * b), 3329);
    lemma_add_mod_noop(xs, (-(3303 * b)) % 3329, 3329);
    lemma_add_mod_noop(xs, -(3303 * b), 3329);
    lemma_mod_twice(-(3303 * b), 3329);
    lemma_sub_mod_noop(xs, 3303 * b, 3329);
    lemma_sub_mod_noop(xs, (3303 * b) % 3329, 3329);
    lemma_mod_twice(3303 * b, 3329);
}

/// NTT^-1 of a sum modulo q is the sum of the NTT^-1s.
pub proof fn lemma_inv_ntt_add(x: Seq<int>, y: Seq<int>)
    requires
        x.len() == 256,
        y.len() == 256,
    ensures
        inv_ntt_spec(add_mod(x, y)) == add_mod(inv_ntt_spec(x), inv_ntt_spec(y)),
{
    lemma_inv_layers_add(x, y, 7);
    lemma_inv_layers_len(x, 7);
    lemma_inv_layers_len(y, 7);
    let ix = inv_layers(x, 7);
    let iy = inv_layers(y, 7);
    assert forall|i: int| 0 <= i < 256 implies #[trigger] scale(add_mod(ix, iy), 3303)[i]
        == add_mod(scale(ix, 3303), scale(iy, 3303))[i] by {
        lemma_scale_add_elem(3303, ix[i], iy[i]);
    }
    assert(scale(add_mod(ix, iy), 3303) =~= add_mod(scale(ix, 3303), scale(iy, 3303)));
}

/// NTT^-1 of a difference modulo q is the difference of the NTT^-1s.
pub proof fn lemma_inv_ntt_sub(x: Seq<int>, y: Seq<int>)
    requires
        x.len() == 256,
        y.len() == 256,
    ensures
        inv_ntt_spec(sub_mod(x, y)) == sub_mod(inv_ntt_spec(x), inv_ntt_spec(y)),
{
    let ny = scale(y, 3328);
    assert(sub_mod(x, y) =~= add_mod(x, ny)) by {
        assert forall|i: int| 0 <= i < 256 implies #[trigger] sub_mod(x, y)[i] == add_mod(x, ny)[i] by {
            lemma_neg_elem(x[i], y[i]);
        }
    }
    lemma_inv_ntt_add(x, ny);
    lemma_inv_layers_scale(y, 7, 3328);
    lemma_inv_layers_len(y, 7);
    let iy = inv_layers(y, 7);
    let ix3 = inv_ntt_spec(x);
    assert forall|i: int| 0 <= i < 256 implies #[trigger] add_mod(ix3, inv_ntt_spec(ny))[i]
        == sub_mod(ix3, inv_ntt_spec(y))[i] by {
        assert(inv_ntt_spec(ny)[i] == (3303 * ((3328 * iy[i]) % 3329)) % 3329);
        lemma_scaled_neg_elem(ix3[i], iy[i]);
    }
    assert(add_mod(ix3, inv_ntt_spec(ny)) =~= sub_mod(ix3, inv_ntt_spec(y)));
}

} // verus!

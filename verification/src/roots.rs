//! The root tables of the NTT are the powers of 17 that they stand for.
use vstd::prelude::*;
use vstd::arithmetic::power::pow;
use vstd::arithmetic::div_mod::lemma_mul_mod_noop_left;
use crate::ntt::{NTT_ROOTS, MOD_ROOTS, bitrev7};

verus! {

/// 17^e modulo q, one factor at a time.
pub open spec fn pow17(e: nat) -> int
    decreases e,
{
    if e == 0 { 1 } else { (pow17((e - 1) as nat) * 17) % 3329 }
}

proof fn lemma_pow17_is_pow(e: nat)
    ensures
        pow17(e) == pow(17, e) % 3329,
    decreases e,
{
    reveal(pow);
    if e > 0 {
        lemma_pow17_is_pow((e - 1) as nat);
        assert(pow(17, e) == 17 * pow(17, (e - 1) as nat));
        lemma_mul_mod_noop_left(pow(17, (e - 1) as nat), 17, 3329);
        assert(pow(17, (e - 1) as nat) * 17 == 17 * pow(17, (e - 1) as nat)) by (nonlinear_arith);
    }
}

proof fn lemma_pow17_values_0()
    ensures
        pow17(0) == 1,
        pow17(1) == 17,
        pow17(2) == 289,
        pow17(3) == 1584,
        pow17(4) == 296,
        pow17(5) == 1703,
        pow17(6) == 2319,
        pow17(7) == 2804,
        pow17(8) == 1062,
        pow17(9) == 1409,
        pow17(10) == 650,
        pow17(11) == 1063,
        pow17(12) == 1426,
        pow17(13) == 939,
        pow17(14) == 2647,
        pow17(15) == 1722,
        pow17(16) == 2642,
        pow17(17) == 1637,
        pow17(18) == 1197,
        pow17(19) == 375,
        pow17(20) == 3046,
        pow17(21) == 1847,
        pow17(22) == 1438,
        pow17(23) == 1143,
        pow17(24) == 2786,
        pow17(25) == 756,
        pow17(26) == 2865,
        pow17(27) == 2099,
        pow17(28) == 2393,
        pow17(29) == 733,
        pow17(30) == 2474,
        pow17(31) == 2110,
        pow17(32) == 2580,
        pow17(33) == 583,
        pow17(34) == 3253,
        pow17(35) == 2037,
        pow17(36) == 1339,
        pow17(37) == 2789,
        pow17(38) == 807,
        pow17(39) == 403,
        pow17(40) == 193,
        pow17(41) == 3281,
        pow17(42) == 2513,
        pow17(43) == 2773,
        pow17(44) == 535,
        pow17(45) == 2437,
        pow17(46) == 1481,
        pow17(47) == 1874,
        pow17(48) == 1897,
        pow17(49) == 2288,
        pow17(50) == 2277,
        pow17(51) == 2090,
        pow17(52) == 2240,
        pow17(53) == 1461,
        pow17(54) == 1534,
        pow17(55) == 2775,
        pow17(56) == 569,
        pow17(57) == 3015,
        pow17(58) == 1320,
        pow17(59) == 2466,
        pow17(60) == 1974,
        pow17(61) == 268,
        pow17(62) == 1227,
        pow17(63) == 885,
{
    assert(pow17(0) == 1);
    assert(pow17(1) == 17);
    assert(pow17(2) == 289);
    assert(pow17(3) == 1584);
    assert(pow17(4) == 296);
    assert(pow17(5) == 1703);
    assert(pow17(6) == 2319);
    assert(pow17(7) == 2804);
    assert(pow17(8) == 1062);
    assert(pow17(9) == 1409);
    assert(pow17(10) == 650);
    assert(pow17(11) == 1063);
    assert(pow17(12) == 1426);
    assert(pow17(13) == 939);
    assert(pow17(14) == 2647);
    assert(pow17(15) == 1722);
    assert(pow17(16) == 2642);
    assert(pow17(17) == 1637);
    assert(pow17(18) == 1197);
    assert(pow17(19) == 375);
    assert(pow17(20) == 3046);
    assert(pow17(21) == 1847);
    assert(pow17(22) == 1438);
    assert(pow17(23) == 1143);
    assert(pow17(24) == 2786);
    assert(pow17(25) == 756);
    assert(pow17(26) == 2865);
    assert(pow17(27) == 2099);
    assert(pow17(28) == 2393);
    assert(pow17(29) == 733);
    assert(pow17(30) == 2474);
    assert(pow17(31) == 2110);
    assert(pow17(32) == 2580);
    assert(pow17(33) == 583);
    assert(pow17(34) == 3253);
    assert(pow17(35) == 2037);
    assert(pow17(36) == 1339);
    assert(pow17(37) == 2789);
    assert(pow17(38) == 807);
    assert(pow17(39) == 403);
    assert(pow17(40) == 193);
    assert(pow17(41) == 3281);
    assert(pow17(42) == 2513);
    assert(pow17(43) == 2773);
    assert(pow17(44) == 535);
    assert(pow17(45) == 2437);
    assert(pow17(46) == 1481);
    assert(pow17(47) == 1874);
    assert(pow17(48) == 1897);
    assert(pow17(49) == 2288);
    assert(pow17(50) == 2277);
    assert(pow17(51) == 2090);
    assert(pow17(52) == 2240);
    assert(pow17(53) == 1461);
    assert(pow17(54) == 1534);
    assert(pow17(55) == 2775);
    assert(pow17(56) == 569);
    assert(pow17(57) == 3015);
    assert(pow17(58) == 1320);
    assert(pow17(59) == 2466);
    assert(pow17(60) == 1974);
    assert(pow17(61) == 268);
    assert(pow17(62) == 1227);
    assert(pow17(63) == 885);
}

proof fn lemma_pow17_values_1()
    requires
        pow17(63) == 885,
    ensures
        pow17(64) == 1729,
        pow17(65) == 2761,
        pow17(66) == 331,
        pow17(67) == 2298,
        pow17(68) == 2447,
        pow17(69) == 1651,
        pow17(70) == 1435,
        pow17(71) == 1092,
        pow17(72) == 1919,
        pow17(73) == 2662,
        pow17(74) == 1977,
        pow17(75) == 319,
        pow17(76) == 2094,
        pow17(77) == 2308,
        pow17(78) == 2617,
        pow17(79) == 1212,
        pow17(80) == 630,
        pow17(81) == 723,
        pow17(82) == 2304,
        pow17(83) == 2549,
        pow17(84) == 56,
        pow17(85) == 952,
        pow17(86) == 2868,
        pow17(87) == 2150,
        pow17(88) == 3260,
        pow17(89) == 2156,
        pow17(90) == 33,
        pow17(91) == 561,
        pow17(92) == 2879,
        pow17(93) == 2337,
        pow17(94) == 3110,
        pow17(95) == 2935,
        pow17(96) == 3289,
        pow17(97) == 2649,
        pow17(98) == 1756,
        pow17(99) == 3220,
        pow17(100) == 1476,
        pow17(101) == 1789,
        pow17(102) == 452,
        pow17(103) == 1026,
        pow17(104) == 797,
        pow17(105) == 233,
        pow17(106) == 632,
        pow17(107) == 757,
        pow17(108) == 2882,
        pow17(109) == 2388,
        pow17(110) == 648,
        pow17(111) == 1029,
        pow17(112) == 848,
        pow17(113) == 1100,
        pow17(114) == 2055,
        pow17(115) == 1645,
        pow17(116) == 1333,
        pow17(117) == 2687,
        pow17(118) == 2402,
        pow17(119) == 886,
        pow17(120) == 1746,
        pow17(121) == 3050,
        pow17(122) == 1915,
        pow17(123) == 2594,
        pow17(124) == 821,
        pow17(125) == 641,
        pow17(126) == 910,
        pow17(127) == 2154,
{
    assert(pow17(64) == 1729);
    assert(pow17(65) == 2761);
    assert(pow17(66) == 331);
    assert(pow17(67) == 2298);
    assert(pow17(68) == 2447);
    assert(pow17(69) == 1651);
    assert(pow17(70) == 1435);
    assert(pow17(71) == 1092);
    assert(pow17(72) == 1919);
    assert(pow17(73) == 2662);
    assert(pow17(74) == 1977);
    assert(pow17(75) == 319);
    assert(pow17(76) == 2094);
    assert(pow17(77) == 2308);
    assert(pow17(78) == 2617);
    assert(pow17(79) == 1212);
    assert(pow17(80) == 630);
    assert(pow17(81) == 723);
    assert(pow17(82) == 2304);
    assert(pow17(83) == 2549);
    assert(pow17(84) == 56);
    assert(pow17(85) == 952);
    assert(pow17(86) == 2868);
    assert(pow17(87) == 2150);
    assert(pow17(88) == 3260);
    assert(pow17(89) == 2156);
    assert(pow17(90) == 33);
    assert(pow17(91) == 561);
    assert(pow17(92) == 2879);
    assert(pow17(93) == 2337);
    assert(pow17(94) == 3110);
    assert(pow17(95) == 2935);
    assert(pow17(96) == 3289);
    assert(pow17(97) == 2649);
    assert(pow17(98) == 1756);
    assert(pow17(99) == 3220);
    assert(pow17(100) == 1476);
    assert(pow17(101) == 1789);
    assert(pow17(102) == 452);
    assert(pow17(103) == 1026);
    assert(pow17(104) == 797);
    assert(pow17(105) == 233);
    assert(pow17(106) == 632);
    assert(pow17(107) == 757);
    assert(pow17(108) == 2882);
    assert(pow17(109) == 2388);
    assert(pow17(110) == 648);
    assert(pow17(111) == 1029);
    assert(pow17(112) == 848);
    assert(pow17(113) == 1100);
    assert(pow17(114) == 2055);
    assert(pow17(115) == 1645);
    assert(pow17(116) == 1333);
    assert(pow17(117) == 2687);
    assert(pow17(118) == 2402);
    assert(pow17(119) == 886);
    assert(pow17(120) == 1746);
    assert(pow17(121) == 3050);
    assert(pow17(122) == 1915);
    assert(pow17(123) == 2594);
    assert(pow17(124) == 821);
    assert(pow17(125) == 641);
    assert(pow17(126) == 910);
    assert(pow17(127) == 2154);
}

proof fn lemma_pow17_values_2()
    requires
        pow17(127) == 2154,
    ensures
        pow17(128) == 3328,
        pow17(129) == 3312,
        pow17(130) == 3040,
        pow17(131) == 1745,
        pow17(132) == 3033,
        pow17(133) == 1626,
        pow17(134) == 1010,
        pow17(135) == 525,
        pow17(136) == 2267,
        pow17(137) == 1920,
        pow17(138) == 2679,
        pow17(139) == 2266,
        pow17(140) == 1903,
        pow17(141) == 2390,
        pow17(142) == 682,
        pow17(143) == 1607,
        pow17(144) == 687,
        pow17(145) == 1692,
        pow17(146) == 2132,
        pow17(147) == 2954,
        pow17(148) == 283,
        pow17(149) == 1482,
        pow17(150) == 1891,
        pow17(151) == 2186,
        pow17(152) == 543,
        pow17(153) == 2573,
        pow17(154) == 464,
        pow17(155) == 1230,
        pow17(156) == 936,
        pow17(157) == 2596,
        pow17(158) == 855,
        pow17(159) == 1219,
        pow17(160) == 749,
        pow17(161) == 2746,
        pow17(162) == 76,
        pow17(163) == 1292,
        pow17(164) == 1990,
        pow17(165) == 540,
        pow17(166) == 2522,
        pow17(167) == 2926,
        pow17(168) == 3136,
        pow17(169) == 48,
        pow17(170) == 816,
        pow17(171) == 556,
        pow17(172) == 2794,
        pow17(173) == 892,
        pow17(174) == 1848,
        pow17(175) == 1455,
        pow17(176) == 1432,
        pow17(177) == 1041,
        pow17(178) == 1052,
        pow17(179) == 1239,
        pow17(180) == 1089,
        pow17(181) == 1868,
        pow17(182) == 1795,
        pow17(183) == 554,
        pow17(184) == 2760,
        pow17(185) == 314,
        pow17(186) == 2009,
        pow17(187) == 863,
        pow17(188) == 1355,
        pow17(189) == 3061,
        pow17(190) == 2102,
        pow17(191) == 2444,
{
    assert(pow17(128) == 3328);
    assert(pow17(129) == 3312);
    assert(pow17(130) == 3040);
    assert(pow17(131) == 1745);
    assert(pow17(132) == 3033);
    assert(pow17(133) == 1626);
    assert(pow17(134) == 1010);
    assert(pow17(135) == 525);
    assert(pow17(136) == 2267);
    assert(pow17(137) == 1920);
    assert(pow17(138) == 2679);
    assert(pow17(139) == 2266);
    assert(pow17(140) == 1903);
    assert(pow17(141) == 2390);
    assert(pow17(142) == 682);
    assert(pow17(143) == 1607);
    assert(pow17(144) == 687);
    assert(pow17(145) == 1692);
    assert(pow17(146) == 2132);
    assert(pow17(147) == 2954);
    assert(pow17(148) == 283);
    assert(pow17(149) == 1482);
    assert(pow17(150) == 1891);
    assert(pow17(151) == 2186);
    assert(pow17(152) == 543);
    assert(pow17(153) == 2573);
    assert(pow17(154) == 464);
    assert(pow17(155) == 1230);
    assert(pow17(156) == 936);
    assert(pow17(157) == 2596);
    assert(pow17(158) == 855);
    assert(pow17(159) == 1219);
    assert(pow17(160) == 749);
    assert(pow17(161) == 2746);
    assert(pow17(162) == 76);
    assert(pow17(163) == 1292);
    assert(pow17(164) == 1990);
    assert(pow17(165) == 540);
    assert(pow17(166) == 2522);
    assert(pow17(167) == 2926);
    assert(pow17(168) == 3136);
    assert(pow17(169) == 48);
    assert(pow17(170) == 816);
    assert(pow17(171) == 556);
    assert(pow17(172) == 2794);
    assert(pow17(173) == 892);
    assert(pow17(174) == 1848);
    assert(pow17(175) == 1455);
    assert(pow17(176) == 1432);
    assert(pow17(177) == 1041);
    assert(pow17(178) == 1052);
    assert(pow17(179) == 1239);
    assert(pow17(180) == 1089);
    assert(pow17(181) == 1868);
    assert(pow17(182) == 1795);
    assert(pow17(183) == 554);
    assert(pow17(184) == 2760);
    assert(pow17(185) == 314);
    assert(pow17(186) == 2009);
    assert(pow17(187) == 863);
    assert(pow17(188) == 1355);
    assert(pow17(189) == 3061);
    assert(pow17(190) == 2102);
    assert(pow17(191) == 2444);
}

proof fn lemma_pow17_values_3()
    requires
        pow17(191) == 2444,
    ensures
        pow17(192) == 1600,
        pow17(193) == 568,
        pow17(194) == 2998,
        pow17(195) == 1031,
        pow17(196) == 882,
        pow17(197) == 1678,
        pow17(198) == 1894,
        pow17(199) == 2237,
        pow17(200) == 1410,
        pow17(201) == 667,
        pow17(202) == 1352,
        pow17(203) == 3010,
        pow17(204) == 1235,
        pow17(205) == 1021,
        pow17(206) == 712,
        pow17(207) == 2117,
        pow17(208) == 2699,
        pow17(209) == 2606,
        pow17(210) == 1025,
        pow17(211) == 780,
        pow17(212) == 3273,
        pow17(213) == 2377,
        pow17(214) == 461,
        pow17(215) == 1179,
        pow17(216) == 69,
        pow17(217) == 1173,
        pow17(218) == 3296,
        pow17(219) == 2768,
        pow17(220) == 450,
        pow17(221) == 992,
        pow17(222) == 219,
        pow17(223) == 394,
        pow17(224) == 40,
        pow17(225) == 680,
        pow17(226) == 1573,
        pow17(227) == 109,
        pow17(228) == 1853,
        pow17(229) == 1540,
        pow17(230) == 2877,
        pow17(231) == 2303,
        pow17(232) == 2532,
        pow17(233) == 3096,
        pow17(234) == 2697,
        pow17(235) == 2572,
        pow17(236) == 447,
        pow17(237) == 941,
        pow17(238) == 2681,
        pow17(239) == 2300,
        pow17(240) == 2481,
        pow17(241) == 2229,
        pow17(242) == 1274,
        pow17(243) == 1684,
        pow17(244) == 1996,
        pow17(245) == 642,
        pow17(246) == 927,
        pow17(247) == 2443,
        pow17(248) == 1583,
        pow17(249) == 279,
        pow17(250) == 1414,
        pow17(251) == 735,
        pow17(252) == 2508,
        pow17(253) == 2688,
        pow17(254) == 2419,
        pow17(255) == 1175,
{
    assert(pow17(192) == 1600);
    assert(pow17(193) == 568);
    assert(pow17(194) == 2998);
    assert(pow17(195) == 1031);
    assert(pow17(196) == 882);
    assert(pow17(197) == 1678);
    assert(pow17(198) == 1894);
    assert(pow17(199) == 2237);
    assert(pow17(200) == 1410);
    assert(pow17(201) == 667);
    assert(pow17(202) == 1352);
    assert(pow17(203) == 3010);
    assert(pow17(204) == 1235);
    assert(pow17(205) == 1021);
    assert(pow17(206) == 712);
    assert(pow17(207) == 2117);
    assert(pow17(208) == 2699);
    assert(pow17(209) == 2606);
    assert(pow17(210) == 1025);
    assert(pow17(211) == 780);
    assert(pow17(212) == 3273);
    assert(pow17(213) == 2377);
    assert(pow17(214) == 461);
    assert(pow17(215) == 1179);
    assert(pow17(216) == 69);
    assert(pow17(217) == 1173);
    assert(pow17(218) == 3296);
    assert(pow17(219) == 2768);
    assert(pow17(220) == 450);
    assert(pow17(221) == 992);
    assert(pow17(222) == 219);
    assert(pow17(223) == 394);
    assert(pow17(224) == 40);
    assert(pow17(225) == 680);
    assert(pow17(226) == 1573);
    assert(pow17(227) == 109);
    assert(pow17(228) == 1853);
    assert(pow17(229) == 1540);
    assert(pow17(230) == 2877);
    assert(pow17(231) == 2303);
    assert(pow17(232) == 2532);
    assert(pow17(233) == 3096);
    assert(pow17(234) == 2697);
    assert(pow17(235) == 2572);
    assert(pow17(236) == 447);
    assert(pow17(237) == 941);
    assert(pow17(238) == 2681);
    assert(pow17(239) == 2300);
    assert(pow17(240) == 2481);
    assert(pow17(241) == 2229);
    assert(pow17(242) == 1274);
    assert(pow17(243) == 1684);
    assert(pow17(244) == 1996);
    assert(pow17(245) == 642);
    assert(pow17(246) == 927);
    assert(pow17(247) == 2443);
    assert(pow17(248) == 1583);
    assert(pow17(249) == 279);
    assert(pow17(250) == 1414);
    assert(pow17(251) == 735);
    assert(pow17(252) == 2508);
    assert(pow17(253) == 2688);
    assert(pow17(254) == 2419);
    assert(pow17(255) == 1175);
}

proof fn lemma_bitrev7_values()
    ensures
        bitrev7(0u8) == 0u8 && bitrev7(1u8) == 64u8 && bitrev7(2u8) == 32u8 && bitrev7(3u8) == 96u8 && bitrev7(4u8) == 16u8 && bitrev7(5u8) == 80u8 && bitrev7(6u8) == 48u8 && bitrev7(7u8) == 112u8 && bitrev7(8u8) == 8u8 && bitrev7(9u8) == 72u8 && bitrev7(10u8) == 40u8 && bitrev7(11u8) == 104u8 && bitrev7(12u8) == 24u8 && bitrev7(13u8) == 88u8 && bitrev7(14u8) == 56u8 && bitrev7(15u8) == 120u8 && bitrev7(16u8) == 4u8 && bitrev7(17u8) == 68u8 && bitrev7(18u8) == 36u8 && bitrev7(19u8) == 100u8 && bitrev7(20u8) == 20u8 && bitrev7(21u8) == 84u8 && bitrev7(22u8) == 52u8 && bitrev7(23u8) == 116u8 && bitrev7(24u8) == 12u8 && bitrev7(25u8) == 76u8 && bitrev7(26u8) == 44u8 && bitrev7(27u8) == 108u8 && bitrev7(28u8) == 28u8 && bitrev7(29u8) == 92u8 && bitrev7(30u8) == 60u8 && bitrev7(31u8) == 124u8 && bitrev7(32u8) == 2u8 && bitrev7(33u8) == 66u8 && bitrev7(34u8) == 34u8 && bitrev7(35u8) == 98u8 && bitrev7(36u8) == 18u8 && bitrev7(37u8) == 82u8 && bitrev7(38u8) == 50u8 && bitrev7(39u8) == 114u8 && bitrev7(40u8) == 10u8 && bitrev7(41u8) == 74u8 && bitrev7(42u8) == 42u8 && bitrev7(43u8) == 106u8 && bitrev7(44u8) == 26u8 && bitrev7(45u8) == 90u8 && bitrev7(46u8) == 58u8 && bitrev7(47u8) == 122u8 && bitrev7(48u8) == 6u8 && bitrev7(49u8) == 70u8 && bitrev7(50u8) == 38u8 && bitrev7(51u8) == 102u8 && bitrev7(52u8) == 22u8 && bitrev7(53u8) == 86u8 && bitrev7(54u8) == 54u8 && bitrev7(55u8) == 118u8 && bitrev7(56u8) == 14u8 && bitrev7(57u8) == 78u8 && bitrev7(58u8) == 46u8 && bitrev7(59u8) == 110u8 && bitrev7(60u8) == 30u8 && bitrev7(61u8) == 94u8 && bitrev7(62u8) == 62u8 && bitrev7(63u8) == 126u8 && bitrev7(64u8) == 1u8 && bitrev7(65u8) == 65u8 && bitrev7(66u8) == 33u8 && bitrev7(67u8) == 97u8 && bitrev7(68u8) == 17u8 && bitrev7(69u8) == 81u8 && bitrev7(70u8) == 49u8 && bitrev7(71u8) == 113u8 && bitrev7(72u8) == 9u8 && bitrev7(73u8) == 73u8 && bitrev7(74u8) == 41u8 && bitrev7(75u8) == 105u8 && bitrev7(76u8) == 25u8 && bitrev7(77u8) == 89u8 && bitrev7(78u8) == 57u8 && bitrev7(79u8) == 121u8 && bitrev7(80u8) == 5u8 && bitrev7(81u8) == 69u8 && bitrev7(82u8) == 37u8 && bitrev7(83u8) == 101u8 && bitrev7(84u8) == 21u8 && bitrev7(85u8) == 85u8 && bitrev7(86u8) == 53u8 && bitrev7(87u8) == 117u8 && bitrev7(88u8) == 13u8 && bitrev7(89u8) == 77u8 && bitrev7(90u8) == 45u8 && bitrev7(91u8) == 109u8 && bitrev7(92u8) == 29u8 && bitrev7(93u8) == 93u8 && bitrev7(94u8) == 61u8 && bitrev7(95u8) == 125u8 && bitrev7(96u8) == 3u8 && bitrev7(97u8) == 67u8 && bitrev7(98u8) == 35u8 && bitrev7(99u8) == 99u8 && bitrev7(100u8) == 19u8 && bitrev7(101u8) == 83u8 && bitrev7(102u8) == 51u8 && bitrev7(103u8) == 115u8 && bitrev7(104u8) == 11u8 && bitrev7(105u8) == 75u8 && bitrev7(106u8) == 43u8 && bitrev7(107u8) == 107u8 && bitrev7(108u8) == 27u8 && bitrev7(109u8) == 91u8 && bitrev7(110u8) == 59u8 && bitrev7(111u8) == 123u8 && bitrev7(112u8) == 7u8 && bitrev7(113u8) == 71u8 && bitrev7(114u8) == 39u8 && bitrev7(115u8) == 103u8 && bitrev7(116u8) == 23u8 && bitrev7(117u8) == 87u8 && bitrev7(118u8) == 55u8 && bitrev7(119u8) == 119u8 && bitrev7(120u8) == 15u8 && bitrev7(121u8) == 79u8 && bitrev7(122u8) == 47u8 && bitrev7(123u8) == 111u8 && bitrev7(124u8) == 31u8 && bitrev7(125u8) == 95u8 && bitrev7(126u8) == 63u8 && bitrev7(127u8) == 127u8,
{
    assert(bitrev7(0u8) == 0u8 && bitrev7(1u8) == 64u8 && bitrev7(2u8) == 32u8 && bitrev7(3u8) == 96u8 && bitrev7(4u8) == 16u8 && bitrev7(5u8) == 80u8 && bitrev7(6u8) == 48u8 && bitrev7(7u8) == 112u8 && bitrev7(8u8) == 8u8 && bitrev7(9u8) == 72u8 && bitrev7(10u8) == 40u8 && bitrev7(11u8) == 104u8 && bitrev7(12u8) == 24u8 && bitrev7(13u8) == 88u8 && bitrev7(14u8) == 56u8 && bitrev7(15u8) == 120u8 && bitrev7(16u8) == 4u8 && bitrev7(17u8) == 68u8 && bitrev7(18u8) == 36u8 && bitrev7(19u8) == 100u8 && bitrev7(20u8) == 20u8 && bitrev7(21u8) == 84u8 && bitrev7(22u8) == 52u8 && bitrev7(23u8) == 116u8 && bitrev7(24u8) == 12u8 && bitrev7(25u8) == 76u8 && bitrev7(26u8) == 44u8 && bitrev7(27u8) == 108u8 && bitrev7(28u8) == 28u8 && bitrev7(29u8) == 92u8 && bitrev7(30u8) == 60u8 && bitrev7(31u8) == 124u8 && bitrev7(32u8) == 2u8 && bitrev7(33u8) == 66u8 && bitrev7(34u8) == 34u8 && bitrev7(35u8) == 98u8 && bitrev7(36u8) == 18u8 && bitrev7(37u8) == 82u8 && bitrev7(38u8) == 50u8 && bitrev7(39u8) == 114u8 && bitrev7(40u8) == 10u8 && bitrev7(41u8) == 74u8 && bitrev7(42u8) == 42u8 && bitrev7(43u8) == 106u8 && bitrev7(44u8) == 26u8 && bitrev7(45u8) == 90u8 && bitrev7(46u8) == 58u8 && bitrev7(47u8) == 122u8 && bitrev7(48u8) == 6u8 && bitrev7(49u8) == 70u8 && bitrev7(50u8) == 38u8 && bitrev7(51u8) == 102u8 && bitrev7(52u8) == 22u8 && bitrev7(53u8) == 86u8 && bitrev7(54u8) == 54u8 && bitrev7(55u8) == 118u8 && bitrev7(56u8) == 14u8 && bitrev7(57u8) == 78u8 && bitrev7(58u8) == 46u8 && bitrev7(59u8) == 110u8 && bitrev7(60u8) == 30u8 && bitrev7(61u8) == 94u8 && bitrev7(62u8) == 62u8 && bitrev7(63u8) == 126u8 && bitrev7(64u8) == 1u8 && bitrev7(65u8) == 65u8 && bitrev7(66u8) == 33u8 && bitrev7(67u8) == 97u8 && bitrev7(68u8) == 17u8 && bitrev7(69u8) == 81u8 && bitrev7(70u8) == 49u8 && bitrev7(71u8) == 113u8 && bitrev7(72u8) == 9u8 && bitrev7(73u8) == 73u8 && bitrev7(74u8) == 41u8 && bitrev7(75u8) == 105u8 && bitrev7(76u8) == 25u8 && bitrev7(77u8) == 89u8 && bitrev7(78u8) == 57u8 && bitrev7(79u8) == 121u8 && bitrev7(80u8) == 5u8 && bitrev7(81u8) == 69u8 && bitrev7(82u8) == 37u8 && bitrev7(83u8) == 101u8 && bitrev7(84u8) == 21u8 && bitrev7(85u8) == 85u8 && bitrev7(86u8) == 53u8 && bitrev7(87u8) == 117u8 && bitrev7(88u8) == 13u8 && bitrev7(89u8) == 77u8 && bitrev7(90u8) == 45u8 && bitrev7(91u8) == 109u8 && bitrev7(92u8) == 29u8 && bitrev7(93u8) == 93u8 && bitrev7(94u8) == 61u8 && bitrev7(95u8) == 125u8 && bitrev7(96u8) == 3u8 && bitrev7(97u8) == 67u8 && bitrev7(98u8) == 35u8 && bitrev7(99u8) == 99u8 && bitrev7(100u8) == 19u8 && bitrev7(101u8) == 83u8 && bitrev7(102u8) == 51u8 && bitrev7(103u8) == 115u8 && bitrev7(104u8) == 11u8 && bitrev7(105u8) == 75u8 && bitrev7(106u8) == 43u8 && bitrev7(107u8) == 107u8 && bitrev7(108u8) == 27u8 && bitrev7(109u8) == 91u8 && bitrev7(110u8) == 59u8 && bitrev7(111u8) == 123u8 && bitrev7(112u8) == 7u8 && bitrev7(113u8) == 71u8 && bitrev7(114u8) == 39u8 && bitrev7(115u8) == 103u8 && bitrev7(116u8) == 23u8 && bitrev7(117u8) == 87u8 && bitrev7(118u8) == 55u8 && bitrev7(119u8) == 119u8 && bitrev7(120u8) == 15u8 && bitrev7(121u8) == 79u8 && bitrev7(122u8) == 47u8 && bitrev7(123u8) == 111u8 && bitrev7(124u8) == 31u8 && bitrev7(125u8) == 95u8 && bitrev7(126u8) == 63u8 && bitrev7(127u8) == 127u8) by (bit_vector);
}

#[verifier::rlimit(50)]
proof fn lemma_ntt_roots_values()
    ensures
        forall|i: int| 0 <= i < 128 ==> #[trigger] NTT_ROOTS@[i] as int == pow17(bitrev7(i as u8) as nat),
{
    lemma_pow17_values_0();
    lemma_pow17_values_1();
    lemma_pow17_values_2();
    lemma_pow17_values_3();
    lemma_bitrev7_values();
    assert(NTT_ROOTS@ =~= seq![
        1u16, 1729, 2580, 3289, 2642, 630, 1897, 848, 1062, 1919, 193, 797, 2786, 3260, 569, 1746, 296,
        2447, 1339, 1476, 3046, 56, 2240, 1333, 1426, 2094, 535, 2882, 2393, 2879, 1974, 821, 289, 331,
        3253, 1756, 1197, 2304, 2277, 2055, 650, 1977, 2513, 632, 2865, 33, 1320, 1915, 2319, 1435,
        807, 452, 1438, 2868, 1534, 2402, 2647, 2617, 1481, 648, 2474, 3110, 1227, 910, 17, 2761, 583,
        2649, 1637, 723, 2288, 1100, 1409, 2662, 3281, 233, 756, 2156, 3015, 3050, 1703, 1651, 2789,
        1789, 1847, 952, 1461, 2687, 939, 2308, 2437, 2388, 733, 2337, 268, 641, 1584, 2298, 2037,
        3220, 375, 2549, 2090, 1645, 1063, 319, 2773, 757, 2099, 561, 2466, 2594, 2804, 1092, 403,
        1026, 1143, 2150, 2775, 886, 1722, 1212, 1874, 1029, 2110, 2935, 885, 2154,
    ]);
}

#[verifier::rlimit(50)]
proof fn lemma_mod_roots_values()
    ensures
        forall|i: int| 0 <= i < 128 ==> #[trigger] MOD_ROOTS@[i] as int == pow17((2 * bitrev7(i as u8) + 1) as nat),
{
    lemma_pow17_values_0();
    lemma_pow17_values_1();
    lemma_pow17_values_2();
    lemma_pow17_values_3();
    lemma_bitrev7_values();
    assert(MOD_ROOTS@ =~= seq![
        17u16, 3312, 2761, 568, 583, 2746, 2649, 680, 1637, 1692, 723, 2606, 2288, 1041, 1100, 2229, 1409,
        1920, 2662, 667, 3281, 48, 233, 3096, 756, 2573, 2156, 1173, 3015, 314, 3050, 279, 1703, 1626,
        1651, 1678, 2789, 540, 1789, 1540, 1847, 1482, 952, 2377, 1461, 1868, 2687, 642, 939, 2390,
        2308, 1021, 2437, 892, 2388, 941, 733, 2596, 2337, 992, 268, 3061, 641, 2688, 1584, 1745, 2298,
        1031, 2037, 1292, 3220, 109, 375, 2954, 2549, 780, 2090, 1239, 1645, 1684, 1063, 2266, 319,
        3010, 2773, 556, 757, 2572, 2099, 1230, 561, 2768, 2466, 863, 2594, 735, 2804, 525, 1092, 2237,
        403, 2926, 1026, 2303, 1143, 2186, 2150, 1179, 2775, 554, 886, 2443, 1722, 1607, 1212, 2117,
        1874, 1455, 1029, 2300, 2110, 1219, 2935, 394, 885, 2444, 2154, 1175,
    ]);
}

/// The twiddle factors are `17^BitRev7(i) mod q` and the moduli of the base-case
/// products are `17^(2 BitRev7(i) + 1) mod q` (FIPS 203, 4.3), for every `i < 128`.
pub proof fn lemma_roots_are_powers()
    ensures
        forall|i: int| 0 <= i < 128 ==> #[trigger] NTT_ROOTS@[i] as int == pow(17, bitrev7(i as u8) as nat) % 3329,
        forall|i: int| 0 <= i < 128 ==> #[trigger] MOD_ROOTS@[i] as int
            == pow(17, (2 * bitrev7(i as u8) + 1) as nat) % 3329,
{
    lemma_ntt_roots_values();
    lemma_mod_roots_values();
    assert forall|i: int| 0 <= i < 128 implies #[trigger] NTT_ROOTS@[i] as int
        == pow(17, bitrev7(i as u8) as nat) % 3329 by {
        lemma_pow17_is_pow(bitrev7(i as u8) as nat);
    }
    assert forall|i: int| 0 <= i < 128 implies #[trigger] MOD_ROOTS@[i] as int
        == pow(17, (2 * bitrev7(i as u8) + 1) as nat) % 3329 by {
        lemma_pow17_is_pow((2 * bitrev7(i as u8) + 1) as nat);
    }
}

/// 17 has order 256 modulo q: 17^128 = -1 (mod q).
pub proof fn lemma_zeta_128()
    ensures
        pow(17, 128) % 3329 == 3328,
{
    lemma_pow17_values_0();
    lemma_pow17_values_1();
    lemma_pow17_values_2();
    lemma_pow17_is_pow(128);
}

} // verus!

//! The sRGB transfer function.
//!
//! Palette values published as hex are sRGB-encoded, while the surface treats
//! what the shader writes as linear light, so every 8-bit channel is decoded
//! through [`srgb_channel`] first. The decoded values are tabulated in
//! billionths, and each entry is proved against the definition of the curve.

use crate::number::ONE;
use vstd::prelude::*;

verus! {

/// Decoded light of every 8-bit channel value, rounded down.
pub const LINEAR: [i64; 256] = [
    0, 303_526, 607_053, 910_580, 1_214_107, 1_517_634,
    1_821_161, 2_124_688, 2_428_215, 2_731_742, 3_035_269, 3_346_535,
    3_676_507, 4_024_717, 4_391_442, 4_776_953, 5_181_516, 5_605_391,
    6_048_833, 6_512_090, 6_995_410, 7_499_032, 8_023_192, 8_568_125,
    9_134_058, 9_721_217, 10_329_823, 10_960_094, 11_612_245, 12_286_488,
    12_983_032, 13_702_083, 14_443_843, 15_208_514, 15_996_293, 16_807_375,
    17_641_954, 18_500_220, 19_382_360, 20_288_563, 21_219_010, 22_173_884,
    23_153_366, 24_157_632, 25_186_859, 26_241_221, 27_320_891, 28_426_039,
    29_556_834, 30_713_443, 31_896_033, 33_104_766, 34_339_806, 35_601_314,
    36_889_450, 38_204_371, 39_546_235, 40_915_196, 42_311_410, 43_735_029,
    45_186_204, 46_665_086, 48_171_824, 49_706_565, 51_269_458, 52_860_647,
    54_480_276, 56_128_490, 57_805_430, 59_511_238, 61_246_054, 63_010_017,
    64_803_266, 66_625_938, 68_478_169, 70_360_095, 72_271_850, 74_213_568,
    76_185_381, 78_187_421, 80_219_820, 82_282_707, 84_376_211, 86_500_462,
    88_655_586, 90_841_711, 93_058_962, 95_307_466, 97_587_347, 99_898_728,
    102_241_733, 104_616_484, 107_023_102, 109_461_710, 111_932_427, 114_435_373,
    116_970_667, 119_538_427, 122_138_772, 124_771_817, 127_437_680, 130_136_476,
    132_868_321, 135_633_329, 138_431_615, 141_263_291, 144_128_470, 147_027_266,
    149_959_789, 152_926_151, 155_926_463, 158_960_835, 162_029_375, 165_132_194,
    168_269_400, 171_441_100, 174_647_403, 177_888_415, 181_164_244, 184_474_994,
    187_820_772, 191_201_682, 194_617_830, 198_069_319, 201_556_253, 205_078_736,
    208_636_870, 212_230_757, 215_860_500, 219_526_199, 223_227_957, 226_965_873,
    230_740_048, 234_550_582, 238_397_573, 242_281_122, 246_201_326, 250_158_284,
    254_152_094, 258_182_852, 262_250_657, 266_355_604, 270_497_791, 274_677_312,
    278_894_263, 283_148_740, 287_440_837, 291_770_649, 296_138_270, 300_543_794,
    304_987_314, 309_468_922, 313_988_713, 318_546_778, 323_143_209, 327_778_098,
    332_451_536, 337_163_615, 341_914_424, 346_704_056, 351_532_599, 356_400_144,
    361_306_779, 366_252_595, 371_237_680, 376_262_122, 381_326_011, 386_429_433,
    391_572_477, 396_755_230, 401_977_779, 407_240_211, 412_542_613, 417_885_070,
    423_267_669, 428_690_496, 434_153_636, 439_657_173, 445_201_194, 450_785_782,
    456_411_023, 462_076_999, 467_783_796, 473_531_496, 479_320_183, 485_149_940,
    491_020_849, 496_932_995, 502_886_458, 508_881_320, 514_917_665, 520_995_573,
    527_115_125, 533_276_404, 539_479_489, 545_724_461, 552_011_401, 558_340_389,
    564_711_505, 571_124_829, 577_580_440, 584_078_417, 590_618_840, 597_201_788,
    603_827_338, 610_495_570, 617_206_562, 623_960_391, 630_757_136, 637_596_873,
    644_479_681, 651_405_637, 658_374_817, 665_387_298, 672_443_156, 679_542_469,
    686_685_312, 693_871_761, 701_101_891, 708_375_779, 715_693_500, 723_055_128,
    730_460_740, 737_910_408, 745_404_209, 752_942_216, 760_524_504, 768_151_147,
    775_822_218, 783_537_791, 791_297_940, 799_102_738, 806_952_257, 814_846_572,
    822_785_754, 830_769_876, 838_799_011, 846_873_231, 854_992_608, 863_157_213,
    871_367_119, 879_622_396, 887_923_117, 896_269_353, 904_661_174, 913_098_651,
    921_581_856, 930_110_858, 938_685_728, 947_306_536, 955_973_353, 964_686_247,
    973_445_290, 982_250_550, 991_102_097, 1_000_000_000,
];

/// `y` to the fifth.
pub open spec fn fifth(y: int) -> int {
    y * y * y * y * y
}

/// `x` to the twelfth.
pub open spec fn twelfth(x: int) -> int {
    let c = x * x * x;
    let s = c * c;
    s * s
}

/// `y` is the light of channel value `b`, rounded down.
///
/// With `s = b / 255`, the curve is `s / 12.92` up to `s = 0.04045` and
/// `((s + 0.055) / 1.055)^2.4` above it. The latter is
/// `((200 b + 2805) / 53805)^(12/5)`, so `y` is compared through fifth powers.
pub open spec fn is_linear(b: int, y: int) -> bool {
    if b <= 10 {
        y == 25 * b * ONE / 82365
    } else {
        0 <= y && fifth(y) * twelfth(53805) <= twelfth(200 * b + 2805) * fifth(ONE as int)
            && twelfth(200 * b + 2805) * fifth(ONE as int) < fifth(y + 1) * twelfth(53805)
    }
}

/// Light of channel value `b`.
pub open spec fn linear(b: u8) -> int {
    LINEAR@[b as int] as int
}

proof fn lemma_entries_0(b: int)
    by (nonlinear_arith)
    requires
        0 <= b < 32,
    ensures
        is_linear(b, LINEAR@[b] as int),
        0 <= LINEAR@[b] <= ONE,
{
    assert(is_linear(0, 0));
    assert(is_linear(1, 303_526));
    assert(is_linear(2, 607_053));
    assert(is_linear(3, 910_580));
    assert(is_linear(4, 1_214_107));
    assert(is_linear(5, 1_517_634));
    assert(is_linear(6, 1_821_161));
    assert(is_linear(7, 2_124_688));
    assert(is_linear(8, 2_428_215));
    assert(is_linear(9, 2_731_742));
    assert(is_linear(10, 3_035_269));
    assert(is_linear(11, 3_346_535));
    assert(is_linear(12, 3_676_507));
    assert(is_linear(13, 4_024_717));
    assert(is_linear(14, 4_391_442));
    assert(is_linear(15, 4_776_953));
    assert(is_linear(16, 5_181_516));
    assert(is_linear(17, 5_605_391));
    assert(is_linear(18, 6_048_833));
    assert(is_linear(19, 6_512_090));
    assert(is_linear(20, 6_995_410));
    assert(is_linear(21, 7_499_032));
    assert(is_linear(22, 8_023_192));
    assert(is_linear(23, 8_568_125));
    assert(is_linear(24, 9_134_058));
    assert(is_linear(25, 9_721_217));
    assert(is_linear(26, 10_329_823));
    assert(is_linear(27, 10_960_094));
    assert(is_linear(28, 11_612_245));
    assert(is_linear(29, 12_286_488));
    assert(is_linear(30, 12_983_032));
    assert(is_linear(31, 13_702_083));
}

proof fn lemma_entries_32(b: int)
    by (nonlinear_arith)
    requires
        32 <= b < 64,
    ensures
        is_linear(b, LINEAR@[b] as int),
        0 <= LINEAR@[b] <= ONE,
{
    assert(is_linear(32, 14_443_843));
    assert(is_linear(33, 15_208_514));
    assert(is_linear(34, 15_996_293));
    assert(is_linear(35, 16_807_375));
    assert(is_linear(36, 17_641_954));
    assert(is_linear(37, 18_500_220));
    assert(is_linear(38, 19_382_360));
    assert(is_linear(39, 20_288_563));
    assert(is_linear(40, 21_219_010));
    assert(is_linear(41, 22_173_884));
    assert(is_linear(42, 23_153_366));
    assert(is_linear(43, 24_157_632));
    assert(is_linear(44, 25_186_859));
    assert(is_linear(45, 26_241_221));
    assert(is_linear(46, 27_320_891));
    assert(is_linear(47, 28_426_039));
    assert(is_linear(48, 29_556_834));
    assert(is_linear(49, 30_713_443));
    assert(is_linear(50, 31_896_033));
    assert(is_linear(51, 33_104_766));
    assert(is_linear(52, 34_339_806));
    assert(is_linear(53, 35_601_314));
    assert(is_linear(54, 36_889_450));
    assert(is_linear(55, 38_204_371));
    assert(is_linear(56, 39_546_235));
    assert(is_linear(57, 40_915_196));
    assert(is_linear(58, 42_311_410));
    assert(is_linear(59, 43_735_029));
    assert(is_linear(60, 45_186_204));
    assert(is_linear(61, 46_665_086));
    assert(is_linear(62, 48_171_824));
    assert(is_linear(63, 49_706_565));
}

proof fn lemma_entries_64(b: int)
    by (nonlinear_arith)
    requires
        64 <= b < 96,
    ensures
        is_linear(b, LINEAR@[b] as int),
        0 <= LINEAR@[b] <= ONE,
{
    assert(is_linear(64, 51_269_458));
    assert(is_linear(65, 52_860_647));
    assert(is_linear(66, 54_480_276));
    assert(is_linear(67, 56_128_490));
    assert(is_linear(68, 57_805_430));
    assert(is_linear(69, 59_511_238));
    assert(is_linear(70, 61_246_054));
    assert(is_linear(71, 63_010_017));
    assert(is_linear(72, 64_803_266));
    assert(is_linear(73, 66_625_938));
    assert(is_linear(74, 68_478_169));
    assert(is_linear(75, 70_360_095));
    assert(is_linear(76, 72_271_850));
    assert(is_linear(77, 74_213_568));
    assert(is_linear(78, 76_185_381));
    assert(is_linear(79, 78_187_421));
    assert(is_linear(80, 80_219_820));
    assert(is_linear(81, 82_282_707));
    assert(is_linear(82, 84_376_211));
    assert(is_linear(83, 86_500_462));
    assert(is_linear(84, 88_655_586));
    assert(is_linear(85, 90_841_711));
    assert(is_linear(86, 93_058_962));
    assert(is_linear(87, 95_307_466));
    assert(is_linear(88, 97_587_347));
    assert(is_linear(89, 99_898_728));
    assert(is_linear(90, 102_241_733));
    assert(is_linear(91, 104_616_484));
    assert(is_linear(92, 107_023_102));
    assert(is_linear(93, 109_461_710));
    assert(is_linear(94, 111_932_427));
    assert(is_linear(95, 114_435_373));
}

proof fn lemma_entries_96(b: int)
    by (nonlinear_arith)
    requires
        96 <= b < 128,
    ensures
        is_linear(b, LINEAR@[b] as int),
        0 <= LINEAR@[b] <= ONE,
{
    assert(is_linear(96, 116_970_667));
    assert(is_linear(97, 119_538_427));
    assert(is_linear(98, 122_138_772));
    assert(is_linear(99, 124_771_817));
    assert(is_linear(100, 127_437_680));
    assert(is_linear(101, 130_136_476));
    assert(is_linear(102, 132_868_321));
    assert(is_linear(103, 135_633_329));
    assert(is_linear(104, 138_431_615));
    assert(is_linear(105, 141_263_291));
    assert(is_linear(106, 144_128_470));
    assert(is_linear(107, 147_027_266));
    assert(is_linear(108, 149_959_789));
    assert(is_linear(109, 152_926_151));
    assert(is_linear(110, 155_926_463));
    assert(is_linear(111, 158_960_835));
    assert(is_linear(112, 162_029_375));
    assert(is_linear(113, 165_132_194));
    assert(is_linear(114, 168_269_400));
    assert(is_linear(115, 171_441_100));
    assert(is_linear(116, 174_647_403));
    assert(is_linear(117, 177_888_415));
    assert(is_linear(118, 181_164_244));
    assert(is_linear(119, 184_474_994));
    assert(is_linear(120, 187_820_772));
    assert(is_linear(121, 191_201_682));
    assert(is_linear(122, 194_617_830));
    assert(is_linear(123, 198_069_319));
    assert(is_linear(124, 201_556_253));
    assert(is_linear(125, 205_078_736));
    assert(is_linear(126, 208_636_870));
    assert(is_linear(127, 212_230_757));
}

proof fn lemma_entries_128(b: int)
    by (nonlinear_arith)
    requires
        128 <= b < 160,
    ensures
        is_linear(b, LINEAR@[b] as int),
        0 <= LINEAR@[b] <= ONE,
{
    assert(is_linear(128, 215_860_500));
    assert(is_linear(129, 219_526_199));
    assert(is_linear(130, 223_227_957));
    assert(is_linear(131, 226_965_873));
    assert(is_linear(132, 230_740_048));
    assert(is_linear(133, 234_550_582));
    assert(is_linear(134, 238_397_573));
    assert(is_linear(135, 242_281_122));
    assert(is_linear(136, 246_201_326));
    assert(is_linear(137, 250_158_284));
    assert(is_linear(138, 254_152_094));
    assert(is_linear(139, 258_182_852));
    assert(is_linear(140, 262_250_657));
    assert(is_linear(141, 266_355_604));
    assert(is_linear(142, 270_497_791));
    assert(is_linear(143, 274_677_312));
    assert(is_linear(144, 278_894_263));
    assert(is_linear(145, 283_148_740));
    assert(is_linear(146, 287_440_837));
    assert(is_linear(147, 291_770_649));
    assert(is_linear(148, 296_138_270));
    assert(is_linear(149, 300_543_794));
    assert(is_linear(150, 304_987_314));
    assert(is_linear(151, 309_468_922));
    assert(is_linear(152, 313_988_713));
    assert(is_linear(153, 318_546_778));
    assert(is_linear(154, 323_143_209));
    assert(is_linear(155, 327_778_098));
    assert(is_linear(156, 332_451_536));
    assert(is_linear(157, 337_163_615));
    assert(is_linear(158, 341_914_424));
    assert(is_linear(159, 346_704_056));
}

proof fn lemma_entries_160(b: int)
    by (nonlinear_arith)
    requires
        160 <= b < 192,
    ensures
        is_linear(b, LINEAR@[b] as int),
        0 <= LINEAR@[b] <= ONE,
{
    assert(is_linear(160, 351_532_599));
    assert(is_linear(161, 356_400_144));
    assert(is_linear(162, 361_306_779));
    assert(is_linear(163, 366_252_595));
    assert(is_linear(164, 371_237_680));
    assert(is_linear(165, 376_262_122));
    assert(is_linear(166, 381_326_011));
    assert(is_linear(167, 386_429_433));
    assert(is_linear(168, 391_572_477));
    assert(is_linear(169, 396_755_230));
    assert(is_linear(170, 401_977_779));
    assert(is_linear(171, 407_240_211));
    assert(is_linear(172, 412_542_613));
    assert(is_linear(173, 417_885_070));
    assert(is_linear(174, 423_267_669));
    assert(is_linear(175, 428_690_496));
    assert(is_linear(176, 434_153_636));
    assert(is_linear(177, 439_657_173));
    assert(is_linear(178, 445_201_194));
    assert(is_linear(179, 450_785_782));
    assert(is_linear(180, 456_411_023));
    assert(is_linear(181, 462_076_999));
    assert(is_linear(182, 467_783_796));
    assert(is_linear(183, 473_531_496));
    assert(is_linear(184, 479_320_183));
    assert(is_linear(185, 485_149_940));
    assert(is_linear(186, 491_020_849));
    assert(is_linear(187, 496_932_995));
    assert(is_linear(188, 502_886_458));
    assert(is_linear(189, 508_881_320));
    assert(is_linear(190, 514_917_665));
    assert(is_linear(191, 520_995_573));
}

proof fn lemma_entries_192(b: int)
    by (nonlinear_arith)
    requires
        192 <= b < 224,
    ensures
        is_linear(b, LINEAR@[b] as int),
        0 <= LINEAR@[b] <= ONE,
{
    assert(is_linear(192, 527_115_125));
    assert(is_linear(193, 533_276_404));
    assert(is_linear(194, 539_479_489));
    assert(is_linear(195, 545_724_461));
    assert(is_linear(196, 552_011_401));
    assert(is_linear(197, 558_340_389));
    assert(is_linear(198, 564_711_505));
    assert(is_linear(199, 571_124_829));
    assert(is_linear(200, 577_580_440));
    assert(is_linear(201, 584_078_417));
    assert(is_linear(202, 590_618_840));
    assert(is_linear(203, 597_201_788));
    assert(is_linear(204, 603_827_338));
    assert(is_linear(205, 610_495_570));
    assert(is_linear(206, 617_206_562));
    assert(is_linear(207, 623_960_391));
    assert(is_linear(208, 630_757_136));
    assert(is_linear(209, 637_596_873));
    assert(is_linear(210, 644_479_681));
    assert(is_linear(211, 651_405_637));
    assert(is_linear(212, 658_374_817));
    assert(is_linear(213, 665_387_298));
    assert(is_linear(214, 672_443_156));
    assert(is_linear(215, 679_542_469));
    assert(is_linear(216, 686_685_312));
    assert(is_linear(217, 693_871_761));
    assert(is_linear(218, 701_101_891));
    assert(is_linear(219, 708_375_779));
    assert(is_linear(220, 715_693_500));
    assert(is_linear(221, 723_055_128));
    assert(is_linear(222, 730_460_740));
    assert(is_linear(223, 737_910_408));
}

proof fn lemma_entries_224(b: int)
    by (nonlinear_arith)
    requires
        224 <= b < 256,
    ensures
        is_linear(b, LINEAR@[b] as int),
        0 <= LINEAR@[b] <= ONE,
{
    assert(is_linear(224, 745_404_209));
    assert(is_linear(225, 752_942_216));
    assert(is_linear(226, 760_524_504));
    assert(is_linear(227, 768_151_147));
    assert(is_linear(228, 775_822_218));
    assert(is_linear(229, 783_537_791));
    assert(is_linear(230, 791_297_940));
    assert(is_linear(231, 799_102_738));
    assert(is_linear(232, 806_952_257));
    assert(is_linear(233, 814_846_572));
    assert(is_linear(234, 822_785_754));
    assert(is_linear(235, 830_769_876));
    assert(is_linear(236, 838_799_011));
    assert(is_linear(237, 846_873_231));
    assert(is_linear(238, 854_992_608));
    assert(is_linear(239, 863_157_213));
    assert(is_linear(240, 871_367_119));
    assert(is_linear(241, 879_622_396));
    assert(is_linear(242, 887_923_117));
    assert(is_linear(243, 896_269_353));
    assert(is_linear(244, 904_661_174));
    assert(is_linear(245, 913_098_651));
    assert(is_linear(246, 921_581_856));
    assert(is_linear(247, 930_110_858));
    assert(is_linear(248, 938_685_728));
    assert(is_linear(249, 947_306_536));
    assert(is_linear(250, 955_973_353));
    assert(is_linear(251, 964_686_247));
    assert(is_linear(252, 973_445_290));
    assert(is_linear(253, 982_250_550));
    assert(is_linear(254, 991_102_097));
    assert(is_linear(255, 1_000_000_000));
}

/// Every entry of the table is the curve at its index.
pub proof fn law_table(b: u8)
    ensures
        is_linear(b as int, linear(b)),
        0 <= linear(b) <= ONE,
{
    let i = b as int;
    if i < 32 {
        lemma_entries_0(i);
    } else if i < 64 {
        lemma_entries_32(i);
    } else if i < 96 {
        lemma_entries_64(i);
    } else if i < 128 {
        lemma_entries_96(i);
    } else if i < 160 {
        lemma_entries_128(i);
    } else if i < 192 {
        lemma_entries_160(i);
    } else if i < 224 {
        lemma_entries_192(i);
    } else {
        lemma_entries_224(i);
    }
}

/// Decode one 8-bit sRGB channel to linear light.
pub fn srgb_channel(b: u8) -> (y: i64)
    ensures
        y == linear(b),
        is_linear(b as int, y as int),
        0 <= y <= ONE,
{
    proof {
        law_table(b);
    }
    LINEAR[b as usize]
}

} // verus!

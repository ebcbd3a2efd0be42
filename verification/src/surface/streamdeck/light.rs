//! How much light a colour gives.
//!
//! A channel's value is not its light: a screen's curve raises it to the power
//! of twelve fifths, and near black runs straight. The curve's values are
//! whole numbers here, in hundred-millionths, each the largest that is no more
//! than the light itself.

use vstd::prelude::*;

use crate::settings::Rgb;

verus! {

pub open spec fn fifth(y: int) -> int {
    y * y * y * y * y
}

pub open spec fn twelfth(b: int) -> int {
    let c = b * b * b;
    let d = c * c;
    d * d
}

/// Whether a channel at `value` gives `y` hundred-millionths of its light,
/// rounded down: `value / 3294.6` up to ten, and past it
/// `((value / 255 + 0.055) / 1.055) ^ 2.4`, which is
/// `((40 value + 561) / 10761) ^ (12 / 5)`.
pub open spec fn gives(value: u8, y: int) -> bool {
    if value <= 10 {
        y == 500_000_000 * value / 16473
    } else {
        &&& 0 <= y
        &&& fifth(y) * twelfth(10761) <= fifth(100_000_000) * twelfth(40 * value + 561)
        &&& fifth(100_000_000) * twelfth(40 * value + 561) < fifth(y + 1) * twelfth(10761)
    }
}

/// The light of a channel, in hundred-millionths.
pub open spec fn light(value: u8) -> int {
    choose|y: int| gives(value, y)
}

proof fn fifths_grow(low: int, high: int)
    requires
        0 <= low <= high,
    ensures
        0 <= fifth(low) <= fifth(high),
{
    assert(0 <= low * low <= high * high) by (nonlinear_arith)
        requires
            0 <= low <= high,
    ;
    assert(0 <= low * low * low <= high * high * high) by (nonlinear_arith)
        requires
            0 <= low <= high,
            0 <= low * low <= high * high,
    ;
    assert(0 <= low * low * low * low <= high * high * high * high) by (nonlinear_arith)
        requires
            0 <= low <= high,
            0 <= low * low * low <= high * high * high,
    ;
    assert(0 <= low * low * low * low * low <= high * high * high * high * high)
        by (nonlinear_arith)
        requires
            0 <= low <= high,
            0 <= low * low * low * low <= high * high * high * high,
    ;
}

proof fn one_light(value: u8, left: int, right: int)
    requires
        gives(value, left),
        gives(value, right),
    ensures
        left >= right,
{
    if value > 10 && left < right {
        fifths_grow(left + 1, right);
        let a = fifth(left + 1);
        let b = fifth(right);
        let k = twelfth(10761);
        assert(k > 0) by (nonlinear_arith)
            requires
                k == twelfth(10761),
        ;
        assert(a * k <= b * k) by (nonlinear_arith)
            requires
                a <= b,
                k > 0,
        ;
    }
}

/// The curve, value by value.
fn channel(value: u8) -> (y: u64)
    ensures
        gives(value, y as int),
        y <= 100_000_000,
{
    match value {
        0 => {
            assert(gives(0, 0)) by (nonlinear_arith);
            0
        },
        1 => {
            assert(gives(1, 30_352)) by (nonlinear_arith);
            30_352
        },
        2 => {
            assert(gives(2, 60_705)) by (nonlinear_arith);
            60_705
        },
        3 => {
            assert(gives(3, 91_058)) by (nonlinear_arith);
            91_058
        },
        4 => {
            assert(gives(4, 121_410)) by (nonlinear_arith);
            121_410
        },
        5 => {
            assert(gives(5, 151_763)) by (nonlinear_arith);
            151_763
        },
        6 => {
            assert(gives(6, 182_116)) by (nonlinear_arith);
            182_116
        },
        7 => {
            assert(gives(7, 212_468)) by (nonlinear_arith);
            212_468
        },
        8 => {
            assert(gives(8, 242_821)) by (nonlinear_arith);
            242_821
        },
        9 => {
            assert(gives(9, 273_174)) by (nonlinear_arith);
            273_174
        },
        10 => {
            assert(gives(10, 303_526)) by (nonlinear_arith);
            303_526
        },
        11 => {
            assert(gives(11, 334_653)) by (nonlinear_arith);
            334_653
        },
        12 => {
            assert(gives(12, 367_650)) by (nonlinear_arith);
            367_650
        },
        13 => {
            assert(gives(13, 402_471)) by (nonlinear_arith);
            402_471
        },
        14 => {
            assert(gives(14, 439_144)) by (nonlinear_arith);
            439_144
        },
        15 => {
            assert(gives(15, 477_695)) by (nonlinear_arith);
            477_695
        },
        16 => {
            assert(gives(16, 518_151)) by (nonlinear_arith);
            518_151
        },
        17 => {
            assert(gives(17, 560_539)) by (nonlinear_arith);
            560_539
        },
        18 => {
            assert(gives(18, 604_883)) by (nonlinear_arith);
            604_883
        },
        19 => {
            assert(gives(19, 651_209)) by (nonlinear_arith);
            651_209
        },
        20 => {
            assert(gives(20, 699_541)) by (nonlinear_arith);
            699_541
        },
        21 => {
            assert(gives(21, 749_903)) by (nonlinear_arith);
            749_903
        },
        22 => {
            assert(gives(22, 802_319)) by (nonlinear_arith);
            802_319
        },
        23 => {
            assert(gives(23, 856_812)) by (nonlinear_arith);
            856_812
        },
        24 => {
            assert(gives(24, 913_405)) by (nonlinear_arith);
            913_405
        },
        25 => {
            assert(gives(25, 972_121)) by (nonlinear_arith);
            972_121
        },
        26 => {
            assert(gives(26, 1_032_982)) by (nonlinear_arith);
            1_032_982
        },
        27 => {
            assert(gives(27, 1_096_009)) by (nonlinear_arith);
            1_096_009
        },
        28 => {
            assert(gives(28, 1_161_224)) by (nonlinear_arith);
            1_161_224
        },
        29 => {
            assert(gives(29, 1_228_648)) by (nonlinear_arith);
            1_228_648
        },
        30 => {
            assert(gives(30, 1_298_303)) by (nonlinear_arith);
            1_298_303
        },
        31 => {
            assert(gives(31, 1_370_208)) by (nonlinear_arith);
            1_370_208
        },
        32 => {
            assert(gives(32, 1_444_384)) by (nonlinear_arith);
            1_444_384
        },
        33 => {
            assert(gives(33, 1_520_851)) by (nonlinear_arith);
            1_520_851
        },
        34 => {
            assert(gives(34, 1_599_629)) by (nonlinear_arith);
            1_599_629
        },
        35 => {
            assert(gives(35, 1_680_737)) by (nonlinear_arith);
            1_680_737
        },
        36 => {
            assert(gives(36, 1_764_195)) by (nonlinear_arith);
            1_764_195
        },
        37 => {
            assert(gives(37, 1_850_022)) by (nonlinear_arith);
            1_850_022
        },
        38 => {
            assert(gives(38, 1_938_236)) by (nonlinear_arith);
            1_938_236
        },
        39 => {
            assert(gives(39, 2_028_856)) by (nonlinear_arith);
            2_028_856
        },
        40 => {
            assert(gives(40, 2_121_901)) by (nonlinear_arith);
            2_121_901
        },
        41 => {
            assert(gives(41, 2_217_388)) by (nonlinear_arith);
            2_217_388
        },
        42 => {
            assert(gives(42, 2_315_336)) by (nonlinear_arith);
            2_315_336
        },
        43 => {
            assert(gives(43, 2_415_763)) by (nonlinear_arith);
            2_415_763
        },
        44 => {
            assert(gives(44, 2_518_685)) by (nonlinear_arith);
            2_518_685
        },
        45 => {
            assert(gives(45, 2_624_122)) by (nonlinear_arith);
            2_624_122
        },
        46 => {
            assert(gives(46, 2_732_089)) by (nonlinear_arith);
            2_732_089
        },
        47 => {
            assert(gives(47, 2_842_603)) by (nonlinear_arith);
            2_842_603
        },
        48 => {
            assert(gives(48, 2_955_683)) by (nonlinear_arith);
            2_955_683
        },
        49 => {
            assert(gives(49, 3_071_344)) by (nonlinear_arith);
            3_071_344
        },
        50 => {
            assert(gives(50, 3_189_603)) by (nonlinear_arith);
            3_189_603
        },
        51 => {
            assert(gives(51, 3_310_476)) by (nonlinear_arith);
            3_310_476
        },
        52 => {
            assert(gives(52, 3_433_980)) by (nonlinear_arith);
            3_433_980
        },
        53 => {
            assert(gives(53, 3_560_131)) by (nonlinear_arith);
            3_560_131
        },
        54 => {
            assert(gives(54, 3_688_945)) by (nonlinear_arith);
            3_688_945
        },
        55 => {
            assert(gives(55, 3_820_437)) by (nonlinear_arith);
            3_820_437
        },
        56 => {
            assert(gives(56, 3_954_623)) by (nonlinear_arith);
            3_954_623
        },
        57 => {
            assert(gives(57, 4_091_519)) by (nonlinear_arith);
            4_091_519
        },
        58 => {
            assert(gives(58, 4_231_141)) by (nonlinear_arith);
            4_231_141
        },
        59 => {
            assert(gives(59, 4_373_502)) by (nonlinear_arith);
            4_373_502
        },
        60 => {
            assert(gives(60, 4_518_620)) by (nonlinear_arith);
            4_518_620
        },
        61 => {
            assert(gives(61, 4_666_508)) by (nonlinear_arith);
            4_666_508
        },
        62 => {
            assert(gives(62, 4_817_182)) by (nonlinear_arith);
            4_817_182
        },
        63 => {
            assert(gives(63, 4_970_656)) by (nonlinear_arith);
            4_970_656
        },
        64 => {
            assert(gives(64, 5_126_945)) by (nonlinear_arith);
            5_126_945
        },
        65 => {
            assert(gives(65, 5_286_064)) by (nonlinear_arith);
            5_286_064
        },
        66 => {
            assert(gives(66, 5_448_027)) by (nonlinear_arith);
            5_448_027
        },
        67 => {
            assert(gives(67, 5_612_849)) by (nonlinear_arith);
            5_612_849
        },
        68 => {
            assert(gives(68, 5_780_543)) by (nonlinear_arith);
            5_780_543
        },
        69 => {
            assert(gives(69, 5_951_123)) by (nonlinear_arith);
            5_951_123
        },
        70 => {
            assert(gives(70, 6_124_605)) by (nonlinear_arith);
            6_124_605
        },
        71 => {
            assert(gives(71, 6_301_001)) by (nonlinear_arith);
            6_301_001
        },
        72 => {
            assert(gives(72, 6_480_326)) by (nonlinear_arith);
            6_480_326
        },
        73 => {
            assert(gives(73, 6_662_593)) by (nonlinear_arith);
            6_662_593
        },
        74 => {
            assert(gives(74, 6_847_816)) by (nonlinear_arith);
            6_847_816
        },
        75 => {
            assert(gives(75, 7_036_009)) by (nonlinear_arith);
            7_036_009
        },
        76 => {
            assert(gives(76, 7_227_185)) by (nonlinear_arith);
            7_227_185
        },
        77 => {
            assert(gives(77, 7_421_356)) by (nonlinear_arith);
            7_421_356
        },
        78 => {
            assert(gives(78, 7_618_538)) by (nonlinear_arith);
            7_618_538
        },
        79 => {
            assert(gives(79, 7_818_742)) by (nonlinear_arith);
            7_818_742
        },
        80 => {
            assert(gives(80, 8_021_982)) by (nonlinear_arith);
            8_021_982
        },
        81 => {
            assert(gives(81, 8_228_270)) by (nonlinear_arith);
            8_228_270
        },
        82 => {
            assert(gives(82, 8_437_621)) by (nonlinear_arith);
            8_437_621
        },
        83 => {
            assert(gives(83, 8_650_046)) by (nonlinear_arith);
            8_650_046
        },
        84 => {
            assert(gives(84, 8_865_558)) by (nonlinear_arith);
            8_865_558
        },
        85 => {
            assert(gives(85, 9_084_171)) by (nonlinear_arith);
            9_084_171
        },
        86 => {
            assert(gives(86, 9_305_896)) by (nonlinear_arith);
            9_305_896
        },
        87 => {
            assert(gives(87, 9_530_746)) by (nonlinear_arith);
            9_530_746
        },
        88 => {
            assert(gives(88, 9_758_734)) by (nonlinear_arith);
            9_758_734
        },
        89 => {
            assert(gives(89, 9_989_872)) by (nonlinear_arith);
            9_989_872
        },
        90 => {
            assert(gives(90, 10_224_173)) by (nonlinear_arith);
            10_224_173
        },
        91 => {
            assert(gives(91, 10_461_648)) by (nonlinear_arith);
            10_461_648
        },
        92 => {
            assert(gives(92, 10_702_310)) by (nonlinear_arith);
            10_702_310
        },
        93 => {
            assert(gives(93, 10_946_171)) by (nonlinear_arith);
            10_946_171
        },
        94 => {
            assert(gives(94, 11_193_242)) by (nonlinear_arith);
            11_193_242
        },
        95 => {
            assert(gives(95, 11_443_537)) by (nonlinear_arith);
            11_443_537
        },
        96 => {
            assert(gives(96, 11_697_066)) by (nonlinear_arith);
            11_697_066
        },
        97 => {
            assert(gives(97, 11_953_842)) by (nonlinear_arith);
            11_953_842
        },
        98 => {
            assert(gives(98, 12_213_877)) by (nonlinear_arith);
            12_213_877
        },
        99 => {
            assert(gives(99, 12_477_181)) by (nonlinear_arith);
            12_477_181
        },
        100 => {
            assert(gives(100, 12_743_768)) by (nonlinear_arith);
            12_743_768
        },
        101 => {
            assert(gives(101, 13_013_647)) by (nonlinear_arith);
            13_013_647
        },
        102 => {
            assert(gives(102, 13_286_832)) by (nonlinear_arith);
            13_286_832
        },
        103 => {
            assert(gives(103, 13_563_332)) by (nonlinear_arith);
            13_563_332
        },
        104 => {
            assert(gives(104, 13_843_161)) by (nonlinear_arith);
            13_843_161
        },
        105 => {
            assert(gives(105, 14_126_329)) by (nonlinear_arith);
            14_126_329
        },
        106 => {
            assert(gives(106, 14_412_847)) by (nonlinear_arith);
            14_412_847
        },
        107 => {
            assert(gives(107, 14_702_726)) by (nonlinear_arith);
            14_702_726
        },
        108 => {
            assert(gives(108, 14_995_978)) by (nonlinear_arith);
            14_995_978
        },
        109 => {
            assert(gives(109, 15_292_615)) by (nonlinear_arith);
            15_292_615
        },
        110 => {
            assert(gives(110, 15_592_646)) by (nonlinear_arith);
            15_592_646
        },
        111 => {
            assert(gives(111, 15_896_083)) by (nonlinear_arith);
            15_896_083
        },
        112 => {
            assert(gives(112, 16_202_937)) by (nonlinear_arith);
            16_202_937
        },
        113 => {
            assert(gives(113, 16_513_219)) by (nonlinear_arith);
            16_513_219
        },
        114 => {
            assert(gives(114, 16_826_940)) by (nonlinear_arith);
            16_826_940
        },
        115 => {
            assert(gives(115, 17_144_110)) by (nonlinear_arith);
            17_144_110
        },
        116 => {
            assert(gives(116, 17_464_740)) by (nonlinear_arith);
            17_464_740
        },
        117 => {
            assert(gives(117, 17_788_841)) by (nonlinear_arith);
            17_788_841
        },
        118 => {
            assert(gives(118, 18_116_424)) by (nonlinear_arith);
            18_116_424
        },
        119 => {
            assert(gives(119, 18_447_499)) by (nonlinear_arith);
            18_447_499
        },
        120 => {
            assert(gives(120, 18_782_077)) by (nonlinear_arith);
            18_782_077
        },
        121 => {
            assert(gives(121, 19_120_168)) by (nonlinear_arith);
            19_120_168
        },
        122 => {
            assert(gives(122, 19_461_783)) by (nonlinear_arith);
            19_461_783
        },
        123 => {
            assert(gives(123, 19_806_931)) by (nonlinear_arith);
            19_806_931
        },
        124 => {
            assert(gives(124, 20_155_625)) by (nonlinear_arith);
            20_155_625
        },
        125 => {
            assert(gives(125, 20_507_873)) by (nonlinear_arith);
            20_507_873
        },
        126 => {
            assert(gives(126, 20_863_687)) by (nonlinear_arith);
            20_863_687
        },
        127 => {
            assert(gives(127, 21_223_075)) by (nonlinear_arith);
            21_223_075
        },
        128 => {
            assert(gives(128, 21_586_050)) by (nonlinear_arith);
            21_586_050
        },
        129 => {
            assert(gives(129, 21_952_619)) by (nonlinear_arith);
            21_952_619
        },
        130 => {
            assert(gives(130, 22_322_795)) by (nonlinear_arith);
            22_322_795
        },
        131 => {
            assert(gives(131, 22_696_587)) by (nonlinear_arith);
            22_696_587
        },
        132 => {
            assert(gives(132, 23_074_004)) by (nonlinear_arith);
            23_074_004
        },
        133 => {
            assert(gives(133, 23_455_058)) by (nonlinear_arith);
            23_455_058
        },
        134 => {
            assert(gives(134, 23_839_757)) by (nonlinear_arith);
            23_839_757
        },
        135 => {
            assert(gives(135, 24_228_112)) by (nonlinear_arith);
            24_228_112
        },
        136 => {
            assert(gives(136, 24_620_132)) by (nonlinear_arith);
            24_620_132
        },
        137 => {
            assert(gives(137, 25_015_828)) by (nonlinear_arith);
            25_015_828
        },
        138 => {
            assert(gives(138, 25_415_209)) by (nonlinear_arith);
            25_415_209
        },
        139 => {
            assert(gives(139, 25_818_285)) by (nonlinear_arith);
            25_818_285
        },
        140 => {
            assert(gives(140, 26_225_065)) by (nonlinear_arith);
            26_225_065
        },
        141 => {
            assert(gives(141, 26_635_560)) by (nonlinear_arith);
            26_635_560
        },
        142 => {
            assert(gives(142, 27_049_779)) by (nonlinear_arith);
            27_049_779
        },
        143 => {
            assert(gives(143, 27_467_731)) by (nonlinear_arith);
            27_467_731
        },
        144 => {
            assert(gives(144, 27_889_426)) by (nonlinear_arith);
            27_889_426
        },
        145 => {
            assert(gives(145, 28_314_874)) by (nonlinear_arith);
            28_314_874
        },
        146 => {
            assert(gives(146, 28_744_083)) by (nonlinear_arith);
            28_744_083
        },
        147 => {
            assert(gives(147, 29_177_064)) by (nonlinear_arith);
            29_177_064
        },
        148 => {
            assert(gives(148, 29_613_827)) by (nonlinear_arith);
            29_613_827
        },
        149 => {
            assert(gives(149, 30_054_379)) by (nonlinear_arith);
            30_054_379
        },
        150 => {
            assert(gives(150, 30_498_731)) by (nonlinear_arith);
            30_498_731
        },
        151 => {
            assert(gives(151, 30_946_892)) by (nonlinear_arith);
            30_946_892
        },
        152 => {
            assert(gives(152, 31_398_871)) by (nonlinear_arith);
            31_398_871
        },
        153 => {
            assert(gives(153, 31_854_677)) by (nonlinear_arith);
            31_854_677
        },
        154 => {
            assert(gives(154, 32_314_320)) by (nonlinear_arith);
            32_314_320
        },
        155 => {
            assert(gives(155, 32_777_809)) by (nonlinear_arith);
            32_777_809
        },
        156 => {
            assert(gives(156, 33_245_153)) by (nonlinear_arith);
            33_245_153
        },
        157 => {
            assert(gives(157, 33_716_361)) by (nonlinear_arith);
            33_716_361
        },
        158 => {
            assert(gives(158, 34_191_442)) by (nonlinear_arith);
            34_191_442
        },
        159 => {
            assert(gives(159, 34_670_405)) by (nonlinear_arith);
            34_670_405
        },
        160 => {
            assert(gives(160, 35_153_259)) by (nonlinear_arith);
            35_153_259
        },
        161 => {
            assert(gives(161, 35_640_014)) by (nonlinear_arith);
            35_640_014
        },
        162 => {
            assert(gives(162, 36_130_677)) by (nonlinear_arith);
            36_130_677
        },
        163 => {
            assert(gives(163, 36_625_259)) by (nonlinear_arith);
            36_625_259
        },
        164 => {
            assert(gives(164, 37_123_768)) by (nonlinear_arith);
            37_123_768
        },
        165 => {
            assert(gives(165, 37_626_212)) by (nonlinear_arith);
            37_626_212
        },
        166 => {
            assert(gives(166, 38_132_601)) by (nonlinear_arith);
            38_132_601
        },
        167 => {
            assert(gives(167, 38_642_943)) by (nonlinear_arith);
            38_642_943
        },
        168 => {
            assert(gives(168, 39_157_247)) by (nonlinear_arith);
            39_157_247
        },
        169 => {
            assert(gives(169, 39_675_523)) by (nonlinear_arith);
            39_675_523
        },
        170 => {
            assert(gives(170, 40_197_777)) by (nonlinear_arith);
            40_197_777
        },
        171 => {
            assert(gives(171, 40_724_021)) by (nonlinear_arith);
            40_724_021
        },
        172 => {
            assert(gives(172, 41_254_261)) by (nonlinear_arith);
            41_254_261
        },
        173 => {
            assert(gives(173, 41_788_507)) by (nonlinear_arith);
            41_788_507
        },
        174 => {
            assert(gives(174, 42_326_766)) by (nonlinear_arith);
            42_326_766
        },
        175 => {
            assert(gives(175, 42_869_049)) by (nonlinear_arith);
            42_869_049
        },
        176 => {
            assert(gives(176, 43_415_363)) by (nonlinear_arith);
            43_415_363
        },
        177 => {
            assert(gives(177, 43_965_717)) by (nonlinear_arith);
            43_965_717
        },
        178 => {
            assert(gives(178, 44_520_119)) by (nonlinear_arith);
            44_520_119
        },
        179 => {
            assert(gives(179, 45_078_578)) by (nonlinear_arith);
            45_078_578
        },
        180 => {
            assert(gives(180, 45_641_102)) by (nonlinear_arith);
            45_641_102
        },
        181 => {
            assert(gives(181, 46_207_699)) by (nonlinear_arith);
            46_207_699
        },
        182 => {
            assert(gives(182, 46_778_379)) by (nonlinear_arith);
            46_778_379
        },
        183 => {
            assert(gives(183, 47_353_149)) by (nonlinear_arith);
            47_353_149
        },
        184 => {
            assert(gives(184, 47_932_018)) by (nonlinear_arith);
            47_932_018
        },
        185 => {
            assert(gives(185, 48_514_994)) by (nonlinear_arith);
            48_514_994
        },
        186 => {
            assert(gives(186, 49_102_084)) by (nonlinear_arith);
            49_102_084
        },
        187 => {
            assert(gives(187, 49_693_299)) by (nonlinear_arith);
            49_693_299
        },
        188 => {
            assert(gives(188, 50_288_645)) by (nonlinear_arith);
            50_288_645
        },
        189 => {
            assert(gives(189, 50_888_132)) by (nonlinear_arith);
            50_888_132
        },
        190 => {
            assert(gives(190, 51_491_766)) by (nonlinear_arith);
            51_491_766
        },
        191 => {
            assert(gives(191, 52_099_557)) by (nonlinear_arith);
            52_099_557
        },
        192 => {
            assert(gives(192, 52_711_512)) by (nonlinear_arith);
            52_711_512
        },
        193 => {
            assert(gives(193, 53_327_640)) by (nonlinear_arith);
            53_327_640
        },
        194 => {
            assert(gives(194, 53_947_948)) by (nonlinear_arith);
            53_947_948
        },
        195 => {
            assert(gives(195, 54_572_446)) by (nonlinear_arith);
            54_572_446
        },
        196 => {
            assert(gives(196, 55_201_140)) by (nonlinear_arith);
            55_201_140
        },
        197 => {
            assert(gives(197, 55_834_038)) by (nonlinear_arith);
            55_834_038
        },
        198 => {
            assert(gives(198, 56_471_150)) by (nonlinear_arith);
            56_471_150
        },
        199 => {
            assert(gives(199, 57_112_482)) by (nonlinear_arith);
            57_112_482
        },
        200 => {
            assert(gives(200, 57_758_044)) by (nonlinear_arith);
            57_758_044
        },
        201 => {
            assert(gives(201, 58_407_841)) by (nonlinear_arith);
            58_407_841
        },
        202 => {
            assert(gives(202, 59_061_884)) by (nonlinear_arith);
            59_061_884
        },
        203 => {
            assert(gives(203, 59_720_178)) by (nonlinear_arith);
            59_720_178
        },
        204 => {
            assert(gives(204, 60_382_733)) by (nonlinear_arith);
            60_382_733
        },
        205 => {
            assert(gives(205, 61_049_557)) by (nonlinear_arith);
            61_049_557
        },
        206 => {
            assert(gives(206, 61_720_656)) by (nonlinear_arith);
            61_720_656
        },
        207 => {
            assert(gives(207, 62_396_039)) by (nonlinear_arith);
            62_396_039
        },
        208 => {
            assert(gives(208, 63_075_713)) by (nonlinear_arith);
            63_075_713
        },
        209 => {
            assert(gives(209, 63_759_687)) by (nonlinear_arith);
            63_759_687
        },
        210 => {
            assert(gives(210, 64_447_968)) by (nonlinear_arith);
            64_447_968
        },
        211 => {
            assert(gives(211, 65_140_563)) by (nonlinear_arith);
            65_140_563
        },
        212 => {
            assert(gives(212, 65_837_481)) by (nonlinear_arith);
            65_837_481
        },
        213 => {
            assert(gives(213, 66_538_729)) by (nonlinear_arith);
            66_538_729
        },
        214 => {
            assert(gives(214, 67_244_315)) by (nonlinear_arith);
            67_244_315
        },
        215 => {
            assert(gives(215, 67_954_246)) by (nonlinear_arith);
            67_954_246
        },
        216 => {
            assert(gives(216, 68_668_531)) by (nonlinear_arith);
            68_668_531
        },
        217 => {
            assert(gives(217, 69_387_176)) by (nonlinear_arith);
            69_387_176
        },
        218 => {
            assert(gives(218, 70_110_189)) by (nonlinear_arith);
            70_110_189
        },
        219 => {
            assert(gives(219, 70_837_577)) by (nonlinear_arith);
            70_837_577
        },
        220 => {
            assert(gives(220, 71_569_350)) by (nonlinear_arith);
            71_569_350
        },
        221 => {
            assert(gives(221, 72_305_512)) by (nonlinear_arith);
            72_305_512
        },
        222 => {
            assert(gives(222, 73_046_074)) by (nonlinear_arith);
            73_046_074
        },
        223 => {
            assert(gives(223, 73_791_040)) by (nonlinear_arith);
            73_791_040
        },
        224 => {
            assert(gives(224, 74_540_420)) by (nonlinear_arith);
            74_540_420
        },
        225 => {
            assert(gives(225, 75_294_221)) by (nonlinear_arith);
            75_294_221
        },
        226 => {
            assert(gives(226, 76_052_450)) by (nonlinear_arith);
            76_052_450
        },
        227 => {
            assert(gives(227, 76_815_114)) by (nonlinear_arith);
            76_815_114
        },
        228 => {
            assert(gives(228, 77_582_221)) by (nonlinear_arith);
            77_582_221
        },
        229 => {
            assert(gives(229, 78_353_779)) by (nonlinear_arith);
            78_353_779
        },
        230 => {
            assert(gives(230, 79_129_794)) by (nonlinear_arith);
            79_129_794
        },
        231 => {
            assert(gives(231, 79_910_273)) by (nonlinear_arith);
            79_910_273
        },
        232 => {
            assert(gives(232, 80_695_225)) by (nonlinear_arith);
            80_695_225
        },
        233 => {
            assert(gives(233, 81_484_657)) by (nonlinear_arith);
            81_484_657
        },
        234 => {
            assert(gives(234, 82_278_575)) by (nonlinear_arith);
            82_278_575
        },
        235 => {
            assert(gives(235, 83_076_987)) by (nonlinear_arith);
            83_076_987
        },
        236 => {
            assert(gives(236, 83_879_901)) by (nonlinear_arith);
            83_879_901
        },
        237 => {
            assert(gives(237, 84_687_323)) by (nonlinear_arith);
            84_687_323
        },
        238 => {
            assert(gives(238, 85_499_260)) by (nonlinear_arith);
            85_499_260
        },
        239 => {
            assert(gives(239, 86_315_721)) by (nonlinear_arith);
            86_315_721
        },
        240 => {
            assert(gives(240, 87_136_711)) by (nonlinear_arith);
            87_136_711
        },
        241 => {
            assert(gives(241, 87_962_239)) by (nonlinear_arith);
            87_962_239
        },
        242 => {
            assert(gives(242, 88_792_311)) by (nonlinear_arith);
            88_792_311
        },
        243 => {
            assert(gives(243, 89_626_935)) by (nonlinear_arith);
            89_626_935
        },
        244 => {
            assert(gives(244, 90_466_117)) by (nonlinear_arith);
            90_466_117
        },
        245 => {
            assert(gives(245, 91_309_865)) by (nonlinear_arith);
            91_309_865
        },
        246 => {
            assert(gives(246, 92_158_185)) by (nonlinear_arith);
            92_158_185
        },
        247 => {
            assert(gives(247, 93_011_085)) by (nonlinear_arith);
            93_011_085
        },
        248 => {
            assert(gives(248, 93_868_572)) by (nonlinear_arith);
            93_868_572
        },
        249 => {
            assert(gives(249, 94_730_653)) by (nonlinear_arith);
            94_730_653
        },
        250 => {
            assert(gives(250, 95_597_335)) by (nonlinear_arith);
            95_597_335
        },
        251 => {
            assert(gives(251, 96_468_624)) by (nonlinear_arith);
            96_468_624
        },
        252 => {
            assert(gives(252, 97_344_529)) by (nonlinear_arith);
            97_344_529
        },
        253 => {
            assert(gives(253, 98_225_055)) by (nonlinear_arith);
            98_225_055
        },
        254 => {
            assert(gives(254, 99_110_209)) by (nonlinear_arith);
            99_110_209
        },
        _ => {
            assert(gives(255, 100_000_000)) by (nonlinear_arith);
            100_000_000
        },
    }
}

/// A channel's light.
pub fn light_of(value: u8) -> (y: u64)
    ensures
        y == light(value),
        y <= 100_000_000,
{
    let y: u64 = channel(value);
    proof {
        let other = light(value);
        assert(gives(value, y as int));
        assert(gives(value, other));
        one_light(value, y as int, other);
        one_light(value, other, y as int);
    }
    y
}

/// Relative luminance, in parts of a million million: nothing is black, all is
/// white. Green gives the most light and blue the least.
pub open spec fn luminance(colour: Rgb) -> int {
    2126 * light(colour.r) + 7152 * light(colour.g) + 722 * light(colour.b)
}

/// Whether black reads on `colour` rather than white: above the luminance
/// where the two contrast equally against a background — 0.179 by the WCAG
/// arithmetic, the one number in here that is not taste.
pub open spec fn wants_black(colour: Rgb) -> bool {
    luminance(colour) > 179_000_000_000
}

/// Which of black (255) and white (0) reads on `colour`.
pub fn reads_on(colour: Rgb) -> (ink: u8)
    ensures
        ink == (if wants_black(colour) {
            255u8
        } else {
            0u8
        }),
{
    let light: u64 = 2126 * light_of(colour.r) + 7152 * light_of(colour.g) + 722 * light_of(
        colour.b,
    );
    if light > 179_000_000_000 {
        255
    } else {
        0
    }
}

/// **Green weighs most and blue least**: the same level of green is no darker
/// than of red, nor of red than of blue; a grey is as light as its level; and
/// the letters on a grey are black where its light is over 0.179.
pub proof fn green_weighs_most(value: u8, y: int)
    requires
        y == light(value),
        y >= 0,
    ensures
        light(0) == 0 ==> luminance(Rgb { r: 0, g: value, b: 0 }) >= luminance(
            Rgb { r: value, g: 0, b: 0 },
        ) >= luminance(Rgb { r: 0, g: 0, b: value }),
        luminance(Rgb { r: value, g: value, b: value }) == 10_000 * y,
        wants_black(Rgb { r: value, g: value, b: value }) <==> y > 17_900_000,
{
}

/// **From black to white**: no level gives no light and the full level all of
/// it, and of two levels on the same part of the curve the higher gives no
/// less.
pub proof fn light_goes_from_black_to_white(low: u8, high: u8, dim: int, bright: int)
    requires
        low <= high,
        gives(low, dim),
        gives(high, bright),
    ensures
        low == 0 ==> dim == 0,
        high == 255 ==> bright == 100_000_000,
        high <= 10 || low > 10 ==> dim <= bright,
{
    let k = twelfth(10761);
    let whole = fifth(100_000_000);
    assert(k > 0) by (nonlinear_arith)
        requires
            k == twelfth(10761),
            twelfth(10761) == (10761 * 10761 * 10761) * (10761 * 10761 * 10761) * ((10761 * 10761
                * 10761) * (10761 * 10761 * 10761)),
    ;
    if high == 255 {
        if bright < 100_000_000 {
            fifths_grow(bright + 1, 100_000_000);
            let a = fifth(bright + 1);
            assert(a * k <= whole * k) by (nonlinear_arith)
                requires
                    a <= whole,
                    k > 0,
            ;
        }
        if bright > 100_000_000 {
            fifths_grow(100_000_001, bright);
            let b = fifth(bright);
            assert(fifth(100_000_001) > whole);
            assert(b * k > whole * k) by (nonlinear_arith)
                requires
                    b > whole,
                    k > 0,
            ;
        }
    }
    if low > 10 && dim > bright {
        let (a, b) = (40 * low + 561, 40 * high + 561);
        twelfths_grow(a, b);
        fifths_grow(bright + 1, dim);
        let (m, n) = (twelfth(a), twelfth(b));
        let (x, y) = (fifth(bright + 1), fifth(dim));
        fifths_grow(0, 100_000_000);
        assert(whole * m <= whole * n) by (nonlinear_arith)
            requires
                m <= n,
                whole >= 0,
        ;
        assert(x * k <= y * k) by (nonlinear_arith)
            requires
                x <= y,
                k > 0,
        ;
    }
    if high <= 10 {
        assert(500_000_000 * low / 16473 <= 500_000_000 * high / 16473);
    }
}

proof fn twelfths_grow(low: int, high: int)
    requires
        0 <= low <= high,
    ensures
        twelfth(low) <= twelfth(high),
{
    let (c, d) = (low * low * low, high * high * high);
    assert(0 <= c <= d) by (nonlinear_arith)
        requires
            0 <= low <= high,
            c == low * low * low,
            d == high * high * high,
    ;
    let (e, f) = (c * c, d * d);
    assert(0 <= e <= f) by (nonlinear_arith)
        requires
            0 <= c <= d,
            e == c * c,
            f == d * d,
    ;
    assert(e * e <= f * f) by (nonlinear_arith)
        requires
            0 <= e <= f,
    ;
}

} // verus!

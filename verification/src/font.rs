//! Bitmap font: ASCII 32 to 95, five by seven pixels, lowercase folded to
//! uppercase.

use vstd::prelude::*;

verus! {

/// Glyph width in pixels.
pub const FONT_W: usize = 5;

/// Glyph height in pixels.
pub const FONT_H: usize = 7;

/// Cell width: one blank column between glyphs.
pub const CELL_W: usize = 6;

/// Cell height: two blank rows between lines.
pub const CELL_H: usize = 9;

/// Rows of every glyph, from space through underscore. The leftmost pixel is
/// worth 16.
pub const GLYPHS: [[u8; 7]; 64] = [
    [0x00, 0x00, 0x00, 0x00, 0x00, 0x00, 0x00],
    [0x04, 0x04, 0x04, 0x04, 0x04, 0x00, 0x04],
    [0x0A, 0x0A, 0x00, 0x00, 0x00, 0x00, 0x00],
    [0x0A, 0x0A, 0x1F, 0x0A, 0x1F, 0x0A, 0x0A],
    [0x04, 0x0F, 0x14, 0x0E, 0x05, 0x1E, 0x04],
    [0x19, 0x1A, 0x02, 0x04, 0x08, 0x0B, 0x13],
    [0x08, 0x14, 0x14, 0x08, 0x15, 0x12, 0x0D],
    [0x04, 0x04, 0x00, 0x00, 0x00, 0x00, 0x00],
    [0x02, 0x04, 0x08, 0x08, 0x08, 0x04, 0x02],
    [0x08, 0x04, 0x02, 0x02, 0x02, 0x04, 0x08],
    [0x00, 0x15, 0x0E, 0x1F, 0x0E, 0x15, 0x00],
    [0x00, 0x04, 0x04, 0x1F, 0x04, 0x04, 0x00],
    [0x00, 0x00, 0x00, 0x00, 0x0C, 0x0C, 0x18],
    [0x00, 0x00, 0x00, 0x1F, 0x00, 0x00, 0x00],
    [0x00, 0x00, 0x00, 0x00, 0x00, 0x0C, 0x0C],
    [0x01, 0x02, 0x02, 0x04, 0x08, 0x08, 0x10],
    [0x0E, 0x11, 0x13, 0x15, 0x19, 0x11, 0x0E],
    [0x04, 0x0C, 0x04, 0x04, 0x04, 0x04, 0x0E],
    [0x0E, 0x11, 0x01, 0x02, 0x04, 0x08, 0x1F],
    [0x1F, 0x02, 0x04, 0x02, 0x01, 0x11, 0x0E],
    [0x02, 0x06, 0x0A, 0x12, 0x1F, 0x02, 0x02],
    [0x1F, 0x10, 0x1E, 0x01, 0x01, 0x11, 0x0E],
    [0x06, 0x08, 0x10, 0x1E, 0x11, 0x11, 0x0E],
    [0x1F, 0x01, 0x02, 0x04, 0x08, 0x08, 0x08],
    [0x0E, 0x11, 0x11, 0x0E, 0x11, 0x11, 0x0E],
    [0x0E, 0x11, 0x11, 0x0F, 0x01, 0x02, 0x0C],
    [0x00, 0x0C, 0x0C, 0x00, 0x0C, 0x0C, 0x00],
    [0x00, 0x0C, 0x0C, 0x00, 0x0C, 0x0C, 0x18],
    [0x02, 0x04, 0x08, 0x10, 0x08, 0x04, 0x02],
    [0x00, 0x00, 0x1F, 0x00, 0x1F, 0x00, 0x00],
    [0x08, 0x04, 0x02, 0x01, 0x02, 0x04, 0x08],
    [0x0E, 0x11, 0x01, 0x02, 0x04, 0x00, 0x04],
    [0x0E, 0x11, 0x17, 0x15, 0x17, 0x10, 0x0E],
    [0x0E, 0x11, 0x11, 0x1F, 0x11, 0x11, 0x11],
    [0x1E, 0x11, 0x11, 0x1E, 0x11, 0x11, 0x1E],
    [0x0E, 0x11, 0x10, 0x10, 0x10, 0x11, 0x0E],
    [0x1C, 0x12, 0x11, 0x11, 0x11, 0x12, 0x1C],
    [0x1F, 0x10, 0x10, 0x1E, 0x10, 0x10, 0x1F],
    [0x1F, 0x10, 0x10, 0x1E, 0x10, 0x10, 0x10],
    [0x0E, 0x11, 0x10, 0x17, 0x11, 0x11, 0x0F],
    [0x11, 0x11, 0x11, 0x1F, 0x11, 0x11, 0x11],
    [0x0E, 0x04, 0x04, 0x04, 0x04, 0x04, 0x0E],
    [0x07, 0x02, 0x02, 0x02, 0x02, 0x12, 0x0C],
    [0x11, 0x12, 0x14, 0x18, 0x14, 0x12, 0x11],
    [0x10, 0x10, 0x10, 0x10, 0x10, 0x10, 0x1F],
    [0x11, 0x1B, 0x15, 0x15, 0x11, 0x11, 0x11],
    [0x11, 0x11, 0x19, 0x15, 0x13, 0x11, 0x11],
    [0x0E, 0x11, 0x11, 0x11, 0x11, 0x11, 0x0E],
    [0x1E, 0x11, 0x11, 0x1E, 0x10, 0x10, 0x10],
    [0x0E, 0x11, 0x11, 0x11, 0x15, 0x12, 0x0D],
    [0x1E, 0x11, 0x11, 0x1E, 0x14, 0x12, 0x11],
    [0x0F, 0x10, 0x10, 0x0E, 0x01, 0x01, 0x1E],
    [0x1F, 0x04, 0x04, 0x04, 0x04, 0x04, 0x04],
    [0x11, 0x11, 0x11, 0x11, 0x11, 0x11, 0x0E],
    [0x11, 0x11, 0x11, 0x11, 0x11, 0x0A, 0x04],
    [0x11, 0x11, 0x11, 0x15, 0x15, 0x1B, 0x11],
    [0x11, 0x11, 0x0A, 0x04, 0x0A, 0x11, 0x11],
    [0x11, 0x11, 0x0A, 0x04, 0x04, 0x04, 0x04],
    [0x1F, 0x01, 0x02, 0x04, 0x08, 0x10, 0x1F],
    [0x0E, 0x08, 0x08, 0x08, 0x08, 0x08, 0x0E],
    [0x10, 0x08, 0x08, 0x04, 0x02, 0x02, 0x01],
    [0x0E, 0x02, 0x02, 0x02, 0x02, 0x02, 0x0E],
    [0x04, 0x0A, 0x11, 0x00, 0x00, 0x00, 0x00],
    [0x00, 0x00, 0x00, 0x00, 0x00, 0x00, 0x1F],
];

/// Code of a character, with ASCII lowercase folded to uppercase. Characters
/// past 255 are taken by their low byte.
pub open spec fn folded(c: char) -> int {
    let code = c as u32 as int;
    if 97 <= code <= 122 {
        code - 32
    } else {
        code % 256
    }
}

/// Index of a character's glyph; characters without one are blank.
pub open spec fn glyph_index(c: char) -> int {
    if 32 <= folded(c) < 96 {
        folded(c) - 32
    } else {
        0
    }
}

/// Rows of the glyph of a character.
pub fn glyph(c: char) -> (g: [u8; 7])
    ensures
        g == GLYPHS@[glyph_index(c)],
        forall|r: int| 0 <= r < 7 ==> #[trigger] g[r] < 32,
{
    let code: u32 = c as u32;
    let upper: u32 = if 97 <= code && code <= 122 {
        code - 32
    } else {
        code % 256
    };
    let i: usize = if 32 <= upper && upper < 96 {
        (upper - 32) as usize
    } else {
        0
    };
    proof {
        law_glyphs_fit(i as int);
    }
    GLYPHS[i]
}

/// The pixels of a glyph as one number.
pub open spec fn glyph_key(g: [u8; 7]) -> int {
    g[0] + 32 * g[1] + 1_024 * g[2] + 32_768 * g[3] + 1_048_576 * g[4] + 33_554_432 * g[5]
        + 1_073_741_824 * g[6]
}

/// Index of the glyph with the pixels of a number.
spec fn keyed(key: int) -> int {
    if key == 0 {
        0
    } else if key == 4_299_296_900 {
        1
    } else if key == 330 {
        2
    } else if key == 11_105_828_170 {
        3
    } else if key == 5_307_322_852 {
        4
    } else if key == 20_778_715_993 {
        5
    } else if key == 14_584_926_856 {
        6
    } else if key == 132 {
        7
    } else if key == 2_290_360_450 {
        8
    } else if key == 8_726_317_192 {
        9
    } else if key == 720_353_952 {
        10
    } else if key == 139_432_064 {
        11
    } else if key == 26_185_039_872 {
        12
    } else if key == 1_015_808 {
        13
    } else if key == 13_287_555_072 {
        14
    } else if key == 17_456_826_433 {
        15
    } else if key == 15_629_733_422 {
        16
    } else if key == 15_170_933_124 {
        17
    } else if key == 33_558_693_422 {
        18
    } else if key == 15_603_929_183 {
        19
    } else if key == 2_247_698_626 {
        20
    } else if key == 15_603_923_487 {
        21
    } else if key == 15_621_636_358 {
        22
    } else if key == 8_866_891_839 {
        23
    } else if key == 15_621_113_390 {
        24
    } else if key == 12_953_568_814 {
        25
    } else if key == 415_248_768 {
        26
    } else if key == 26_185_052_544 {
        27
    } else if key == 2_290_622_594 {
        28
    } else if key == 32_537_600 {
        29
    } else if key == 8_726_284_424 {
        30
    } else if key == 4_299_228_718 {
        31
    } else if key == 15_594_085_934 {
        32
    } else if key == 18_842_895_918 {
        33
    } else if key == 32_801_506_878 {
        34
    } else if key == 15_620_129_326 {
        35
    } else if key == 30_687_151_708 {
        36
    } else if key == 33_840_644_639 {
        37
    } else if key == 17_734_517_279 {
        38
    } else if key == 16_695_149_102 {
        39
    } else if key == 18_842_895_921 {
        40
    } else if key == 15_170_932_878 {
        41
    } else if key == 13_491_046_471 {
        42
    } else if key == 18_879_369_809 {
        43
    } else if key == 33_840_185_872 {
        44
    } else if key == 18_842_572_657 {
        45
    } else if key == 18_844_673_585 {
        46
    } else if key == 15_621_211_694 {
        47
    } else if key == 17_734_518_334 {
        48
    } else if key == 14_585_218_606 {
        49
    } else if key == 18_879_563_326 {
        50
    } else if key == 32_247_333_391 {
        51
    } else if key == 4_433_514_655 {
        52
    } else if key == 15_621_211_697 {
        53
    } else if key == 4_648_912_433 {
        54
    } else if key == 19_182_306_865 {
        55
    } else if key == 18_834_663_985 {
        56
    } else if key == 4_433_521_201 {
        57
    } else if key == 33_831_389_247 {
        58
    } else if key == 15_309_480_206 {
        59
    } else if key == 1_143_087_376 {
        60
    } else if key == 15_101_659_214 {
        61
    } else if key == 17_732 {
        62
    } else if key == 33_285_996_544 {
        63
    } else {
        64
    }
}

proof fn lemma_keyed(i: int)
    requires
        0 <= i < 64,
    ensures
        keyed(glyph_key(GLYPHS@[i])) == i,
{
    if i == 0 {
        assert(glyph_key(GLYPHS@[0]) == 0);
    }
    if i == 1 {
        assert(glyph_key(GLYPHS@[1]) == 4_299_296_900);
    }
    if i == 2 {
        assert(glyph_key(GLYPHS@[2]) == 330);
    }
    if i == 3 {
        assert(glyph_key(GLYPHS@[3]) == 11_105_828_170);
    }
    if i == 4 {
        assert(glyph_key(GLYPHS@[4]) == 5_307_322_852);
    }
    if i == 5 {
        assert(glyph_key(GLYPHS@[5]) == 20_778_715_993);
    }
    if i == 6 {
        assert(glyph_key(GLYPHS@[6]) == 14_584_926_856);
    }
    if i == 7 {
        assert(glyph_key(GLYPHS@[7]) == 132);
    }
    if i == 8 {
        assert(glyph_key(GLYPHS@[8]) == 2_290_360_450);
    }
    if i == 9 {
        assert(glyph_key(GLYPHS@[9]) == 8_726_317_192);
    }
    if i == 10 {
        assert(glyph_key(GLYPHS@[10]) == 720_353_952);
    }
    if i == 11 {
        assert(glyph_key(GLYPHS@[11]) == 139_432_064);
    }
    if i == 12 {
        assert(glyph_key(GLYPHS@[12]) == 26_185_039_872);
    }
    if i == 13 {
        assert(glyph_key(GLYPHS@[13]) == 1_015_808);
    }
    if i == 14 {
        assert(glyph_key(GLYPHS@[14]) == 13_287_555_072);
    }
    if i == 15 {
        assert(glyph_key(GLYPHS@[15]) == 17_456_826_433);
    }
    if i == 16 {
        assert(glyph_key(GLYPHS@[16]) == 15_629_733_422);
    }
    if i == 17 {
        assert(glyph_key(GLYPHS@[17]) == 15_170_933_124);
    }
    if i == 18 {
        assert(glyph_key(GLYPHS@[18]) == 33_558_693_422);
    }
    if i == 19 {
        assert(glyph_key(GLYPHS@[19]) == 15_603_929_183);
    }
    if i == 20 {
        assert(glyph_key(GLYPHS@[20]) == 2_247_698_626);
    }
    if i == 21 {
        assert(glyph_key(GLYPHS@[21]) == 15_603_923_487);
    }
    if i == 22 {
        assert(glyph_key(GLYPHS@[22]) == 15_621_636_358);
    }
    if i == 23 {
        assert(glyph_key(GLYPHS@[23]) == 8_866_891_839);
    }
    if i == 24 {
        assert(glyph_key(GLYPHS@[24]) == 15_621_113_390);
    }
    if i == 25 {
        assert(glyph_key(GLYPHS@[25]) == 12_953_568_814);
    }
    if i == 26 {
        assert(glyph_key(GLYPHS@[26]) == 415_248_768);
    }
    if i == 27 {
        assert(glyph_key(GLYPHS@[27]) == 26_185_052_544);
    }
    if i == 28 {
        assert(glyph_key(GLYPHS@[28]) == 2_290_622_594);
    }
    if i == 29 {
        assert(glyph_key(GLYPHS@[29]) == 32_537_600);
    }
    if i == 30 {
        assert(glyph_key(GLYPHS@[30]) == 8_726_284_424);
    }
    if i == 31 {
        assert(glyph_key(GLYPHS@[31]) == 4_299_228_718);
    }
    if i == 32 {
        assert(glyph_key(GLYPHS@[32]) == 15_594_085_934);
    }
    if i == 33 {
        assert(glyph_key(GLYPHS@[33]) == 18_842_895_918);
    }
    if i == 34 {
        assert(glyph_key(GLYPHS@[34]) == 32_801_506_878);
    }
    if i == 35 {
        assert(glyph_key(GLYPHS@[35]) == 15_620_129_326);
    }
    if i == 36 {
        assert(glyph_key(GLYPHS@[36]) == 30_687_151_708);
    }
    if i == 37 {
        assert(glyph_key(GLYPHS@[37]) == 33_840_644_639);
    }
    if i == 38 {
        assert(glyph_key(GLYPHS@[38]) == 17_734_517_279);
    }
    if i == 39 {
        assert(glyph_key(GLYPHS@[39]) == 16_695_149_102);
    }
    if i == 40 {
        assert(glyph_key(GLYPHS@[40]) == 18_842_895_921);
    }
    if i == 41 {
        assert(glyph_key(GLYPHS@[41]) == 15_170_932_878);
    }
    if i == 42 {
        assert(glyph_key(GLYPHS@[42]) == 13_491_046_471);
    }
    if i == 43 {
        assert(glyph_key(GLYPHS@[43]) == 18_879_369_809);
    }
    if i == 44 {
        assert(glyph_key(GLYPHS@[44]) == 33_840_185_872);
    }
    if i == 45 {
        assert(glyph_key(GLYPHS@[45]) == 18_842_572_657);
    }
    if i == 46 {
        assert(glyph_key(GLYPHS@[46]) == 18_844_673_585);
    }
    if i == 47 {
        assert(glyph_key(GLYPHS@[47]) == 15_621_211_694);
    }
    if i == 48 {
        assert(glyph_key(GLYPHS@[48]) == 17_734_518_334);
    }
    if i == 49 {
        assert(glyph_key(GLYPHS@[49]) == 14_585_218_606);
    }
    if i == 50 {
        assert(glyph_key(GLYPHS@[50]) == 18_879_563_326);
    }
    if i == 51 {
        assert(glyph_key(GLYPHS@[51]) == 32_247_333_391);
    }
    if i == 52 {
        assert(glyph_key(GLYPHS@[52]) == 4_433_514_655);
    }
    if i == 53 {
        assert(glyph_key(GLYPHS@[53]) == 15_621_211_697);
    }
    if i == 54 {
        assert(glyph_key(GLYPHS@[54]) == 4_648_912_433);
    }
    if i == 55 {
        assert(glyph_key(GLYPHS@[55]) == 19_182_306_865);
    }
    if i == 56 {
        assert(glyph_key(GLYPHS@[56]) == 18_834_663_985);
    }
    if i == 57 {
        assert(glyph_key(GLYPHS@[57]) == 4_433_521_201);
    }
    if i == 58 {
        assert(glyph_key(GLYPHS@[58]) == 33_831_389_247);
    }
    if i == 59 {
        assert(glyph_key(GLYPHS@[59]) == 15_309_480_206);
    }
    if i == 60 {
        assert(glyph_key(GLYPHS@[60]) == 1_143_087_376);
    }
    if i == 61 {
        assert(glyph_key(GLYPHS@[61]) == 15_101_659_214);
    }
    if i == 62 {
        assert(glyph_key(GLYPHS@[62]) == 17_732);
    }
    if i == 63 {
        assert(glyph_key(GLYPHS@[63]) == 33_285_996_544);
    }
}

/// Every supported character has a bitmap of its own, and only the space is
/// blank.
pub proof fn law_glyphs_differ(i: int, j: int)
    requires
        0 <= i < 64,
        0 <= j < 64,
    ensures
        GLYPHS@[i] == GLYPHS@[j] ==> i == j,
        (forall|r: int| 0 <= r < 7 ==> #[trigger] GLYPHS@[i][r] == 0) ==> i == 0,
{
    lemma_keyed(i);
    lemma_keyed(j);
    if forall|r: int| 0 <= r < 7 ==> #[trigger] GLYPHS@[i][r] == 0 {
        let g = GLYPHS@[i];
        assert(g[0] == 0 && g[1] == 0 && g[2] == 0 && g[3] == 0 && g[4] == 0 && g[5] == 0 && g[6]
            == 0);
        assert(glyph_key(g) == 0);
    }
}

/// Different characters of the font look different.
pub proof fn law_characters_differ(a: char, b: char)
    requires
        32 <= a as u32 as int <= 95,
        32 <= b as u32 as int <= 95,
        a != b,
    ensures
        GLYPHS@[glyph_index(a)] != GLYPHS@[glyph_index(b)],
{
    law_glyphs_differ(glyph_index(a), glyph_index(b));
}

/// No glyph is wider than its cell.
pub proof fn law_glyphs_fit(i: int)
    requires
        0 <= i < 64,
    ensures
        forall|r: int| 0 <= r < 7 ==> #[trigger] GLYPHS@[i][r] < 32,
{
}

/// Lowercase letters look like their uppercase.
pub proof fn law_lowercase_folds(lower: char, upper: char)
    requires
        97 <= lower as u32 <= 122,
        upper as u32 + 32 == lower as u32,
    ensures
        glyph_index(lower) == glyph_index(upper),
{
}

// -- runs of lit pixels -----------------------------------------------------
/// Worth of column `col` in a glyph row.
pub open spec fn column_bit(col: int) -> int {
    if col == 0 {
        16
    } else if col == 1 {
        8
    } else if col == 2 {
        4
    } else if col == 3 {
        2
    } else {
        1
    }
}

/// Pixel `col` of a glyph row is lit.
pub open spec fn lit(bits: u8, col: int) -> bool {
    bits as int / column_bit(col) % 2 == 1
}

/// Whether a pixel of a glyph row is lit.
pub fn is_lit(bits: u8, col: usize) -> (r: bool)
    requires
        col < FONT_W,
    ensures
        r == lit(bits, col as int),
{
    let weight: u8 = if col == 0 {
        16
    } else if col == 1 {
        8
    } else if col == 2 {
        4
    } else if col == 3 {
        2
    } else {
        1
    };
    bits / weight % 2 == 1
}

/// End of the run of lit pixels starting at `col`.
pub open spec fn run_end(bits: u8, col: int) -> int
    decreases 5 - col,
{
    if col >= 5 || !lit(bits, col) {
        col
    } else {
        run_end(bits, col + 1)
    }
}

/// Runs of lit pixels from `col` on, as half-open column ranges.
pub open spec fn runs_from(bits: u8, col: int) -> Seq<(int, int)>
    decreases 5 - col,
{
    if col < 0 || col >= 5 {
        Seq::empty()
    } else if !lit(bits, col) {
        runs_from(bits, col + 1)
    } else {
        proof {
            lemma_run_end(bits, col);
        }
        seq![(col, run_end(bits, col))] + runs_from(bits, run_end(bits, col))
    }
}

/// `end` is where the run starting at `col` ends.
pub proof fn lemma_run_end(bits: u8, col: int)
    requires
        0 <= col <= 5,
    ensures
        col <= run_end(bits, col) <= 5,
        forall|c: int| col <= c < run_end(bits, col) ==> #[trigger] lit(bits, c),
        run_end(bits, col) < 5 ==> !lit(bits, run_end(bits, col)),
        col < 5 && lit(bits, col) ==> run_end(bits, col) > col,
    decreases 5 - col,
{
    if col < 5 && lit(bits, col) {
        lemma_run_end(bits, col + 1);
    }
}

/// A run covers a column.
pub open spec fn in_run(run: (int, int), c: int) -> bool {
    run.0 <= c < run.1
}

/// The runs of a row cover its lit pixels, nothing else, and none twice.
pub proof fn law_runs_cover(bits: u8, col: int, c: int)
    requires
        0 <= col <= c < 5,
    ensures
        lit(bits, c) <==> exists|i: int|
            0 <= i < runs_from(bits, col).len() && #[trigger] in_run(runs_from(bits, col)[i], c),
        forall|i: int, j: int|
            0 <= i < runs_from(bits, col).len() && 0 <= j < runs_from(bits, col).len()
                && #[trigger] in_run(runs_from(bits, col)[i], c) && #[trigger] in_run(
                runs_from(bits, col)[j],
                c,
            ) ==> i == j,
    decreases 5 - col,
{
    lemma_runs_bounds(bits, col);
    if !lit(bits, col) {
        if c > col {
            law_runs_cover(bits, col + 1, c);
        } else {
            lemma_runs_bounds(bits, col + 1);
            let all = runs_from(bits, col);
            assert(all == runs_from(bits, col + 1));
            assert forall|i: int| 0 <= i < all.len() implies !#[trigger] in_run(all[i], c) by {
                assert(col + 1 <= runs_from(bits, col + 1)[i].0);
            }
        }
    } else {
        lemma_run_end(bits, col);
        let end = run_end(bits, col);
        let rest = runs_from(bits, end);
        let all = runs_from(bits, col);
        assert(all == seq![(col, end)] + rest);
        lemma_runs_bounds(bits, end);
        if c < end {
            assert(all[0] == (col, end));
            assert(in_run(all[0], c));
            assert(lit(bits, c));
            assert forall|i: int| 0 < i < all.len() implies !#[trigger] in_run(all[i], c) by {
                assert(all[i] == rest[i - 1]);
            }
        } else {
            law_runs_cover(bits, end, c);
            if lit(bits, c) {
                let i = choose|i: int| 0 <= i < rest.len() && #[trigger] in_run(rest[i], c);
                assert(all[i + 1] == rest[i]);
                assert(in_run(all[i + 1], c));
            }
            assert forall|i: int, j: int|
                0 <= i < all.len() && 0 <= j < all.len() && #[trigger] in_run(all[i], c)
                    && #[trigger] in_run(all[j], c) implies i == j by {
                assert(i > 0 && j > 0);
                assert(all[i] == rest[i - 1] && all[j] == rest[j - 1]);
                assert(in_run(rest[i - 1], c) && in_run(rest[j - 1], c));
            }
            if exists|i: int| 0 <= i < all.len() && #[trigger] in_run(all[i], c) {
                let i = choose|i: int| 0 <= i < all.len() && #[trigger] in_run(all[i], c);
                assert(i > 0);
                assert(all[i] == rest[i - 1]);
                assert(in_run(rest[i - 1], c));
            }
        }
    }
}

/// The runs from a column on lie between it and the last column, and are few.
pub proof fn lemma_runs_bounds(bits: u8, col: int)
    requires
        0 <= col <= 5,
    ensures
        forall|i: int|
            0 <= i < runs_from(bits, col).len() ==> col <= (#[trigger] runs_from(bits, col)[i]).0
                < runs_from(bits, col)[i].1 <= 5,
        runs_from(bits, col).len() <= (6 - col) / 2,
    decreases 5 - col,
{
    if col < 5 {
        if !lit(bits, col) {
            lemma_runs_bounds(bits, col + 1);
        } else {
            lemma_run_end(bits, col);
            let end = run_end(bits, col);
            lemma_runs_bounds(bits, end);
            let rest = runs_from(bits, end);
            let all = runs_from(bits, col);
            assert(all == seq![(col, end)] + rest);
            if end < 5 {
                lemma_runs_bounds(bits, end + 1);
                assert(rest == runs_from(bits, end + 1));
            }
            assert forall|i: int| 0 <= i < all.len() implies col <= (#[trigger] all[i]).0
                < all[i].1 <= 5 by {
                if i > 0 {
                    assert(all[i] == rest[i - 1]);
                }
            }
        }
    }
}

/// Characters of the font stand in its table in their order, from the space to the
/// underscore; what the font does not have is blank.
pub proof fn law_glyph_index(c: char)
    ensures
        32 <= c as u32 <= 95 ==> glyph_index(c) == c as u32 - 32,
        97 <= c as u32 <= 122 ==> glyph_index(c) == c as u32 - 64,
        c as u32 == 96 || 123 <= c as u32 <= 255 || 32 > c as u32 ==> glyph_index(c) == 0,
        0 <= glyph_index(c) < 64,
{
}

/// A row of a glyph is its five columns, the leftmost worth the most.
pub proof fn law_columns(bits: u8)
    requires
        bits < 32,
    ensures
        ({
            let worth = |c: int, w: int|
                if lit(bits, c) {
                    w
                } else {
                    0
                };
            bits == worth(0, 16) + worth(1, 8) + worth(2, 4) + worth(3, 2) + worth(4, 1)
        }),
{
}

} // verus!

//! Lowercasing of single chars by the Unicode 17 case tables, fixed here so
//! that tokenization does not drift with the Unicode version of the standard
//! library.
use vstd::prelude::*;

verus! {

/// A run of code points `start..=start + len` that lowercase by one offset;
/// with `parity`, only every other code point of the run, those with the
/// parity of `start`.
#[derive(Clone, Copy)]
struct Range {
    start: u16,
    len: u8,
    parity: bool,
}

/// The run `start..=end`.
spec fn spec_range(start: u16, end: u16, parity: bool) -> Range {
    Range { start, len: (end - start) as u8, parity }
}

impl Range {
    /// The last code point of the run.
    spec fn spec_end(self) -> int {
        self.start + self.len
    }

    /// Whether `low` lies within the run.
    spec fn covers(self, low: int) -> bool {
        self.start <= low <= self.spec_end()
    }

    /// Whether the run maps `low`, which it covers.
    spec fn selects(self, low: int) -> bool {
        !self.parity || low % 2 == self.start % 2
    }

    /// The run `start..=end`, every code point or every other one.
    fn new(start: u16, end: u16, parity: bool) -> (r: Self)
        requires
            start <= end,
            end - start <= 255,
        ensures
            r == spec_range(start, end, parity),
    {
        let len = end - start;
        Self { start, len: len as u8, parity }
    }

    /// The run of the one code point `start`.
    fn singleton(start: u16) -> (r: Self)
        ensures
            r == spec_range(start, start, false),
    {
        Self::new(start, start, false)
    }

    /// Every code point of `start..=end`.
    fn step_by_1(start: u16, end: u16) -> (r: Self)
        requires
            start <= end,
            end - start <= 255,
        ensures
            r == spec_range(start, end, false),
    {
        Self::new(start, end, false)
    }

    /// Every other code point of `start..=end`.
    fn step_by_2(start: u16, end: u16) -> (r: Self)
        requires
            start <= end,
            end - start <= 255,
        ensures
            r == spec_range(start, end, true),
    {
        Self::new(start, end, true)
    }

    fn start(&self) -> (s: u16)
        ensures
            s == self.start,
    {
        self.start
    }

    fn end(&self) -> (e: u16)
        requires
            self.spec_end() <= u16::MAX,
        ensures
            e == self.spec_end(),
    {
        self.start + self.len as u16
    }
}

/// Entry `i` of the single-code-point mappings of plane 0: a range of
/// code points and the offset that lowercases them.
spec fn spec_single_plane0(i: int) -> (Range, i16) {
    if i == 0 {
        (spec_range(0x00c0, 0x00d6, false), 32 as i16)
    } else if i == 1 {
        (spec_range(0x00d8, 0x00de, false), 32 as i16)
    } else if i == 2 {
        (spec_range(0x0100, 0x012e, true), 1 as i16)
    } else if i == 3 {
        (spec_range(0x0132, 0x0136, true), 1 as i16)
    } else if i == 4 {
        (spec_range(0x0139, 0x0147, true), 1 as i16)
    } else if i == 5 {
        (spec_range(0x014a, 0x0176, true), 1 as i16)
    } else if i == 6 {
        (spec_range(0x0178, 0x0178, false), -121 as i16)
    } else if i == 7 {
        (spec_range(0x0179, 0x017d, true), 1 as i16)
    } else if i == 8 {
        (spec_range(0x0181, 0x0181, false), 210 as i16)
    } else if i == 9 {
        (spec_range(0x0182, 0x0184, true), 1 as i16)
    } else if i == 10 {
        (spec_range(0x0186, 0x0186, false), 206 as i16)
    } else if i == 11 {
        (spec_range(0x0187, 0x0187, false), 1 as i16)
    } else if i == 12 {
        (spec_range(0x0189, 0x018a, false), 205 as i16)
    } else if i == 13 {
        (spec_range(0x018b, 0x018b, false), 1 as i16)
    } else if i == 14 {
        (spec_range(0x018e, 0x018e, false), 79 as i16)
    } else if i == 15 {
        (spec_range(0x018f, 0x018f, false), 202 as i16)
    } else if i == 16 {
        (spec_range(0x0190, 0x0190, false), 203 as i16)
    } else if i == 17 {
        (spec_range(0x0191, 0x0191, false), 1 as i16)
    } else if i == 18 {
        (spec_range(0x0193, 0x0193, false), 205 as i16)
    } else if i == 19 {
        (spec_range(0x0194, 0x0194, false), 207 as i16)
    } else if i == 20 {
        (spec_range(0x0196, 0x0196, false), 211 as i16)
    } else if i == 21 {
        (spec_range(0x0197, 0x0197, false), 209 as i16)
    } else if i == 22 {
        (spec_range(0x0198, 0x0198, false), 1 as i16)
    } else if i == 23 {
        (spec_range(0x019c, 0x019c, false), 211 as i16)
    } else if i == 24 {
        (spec_range(0x019d, 0x019d, false), 213 as i16)
    } else if i == 25 {
        (spec_range(0x019f, 0x019f, false), 214 as i16)
    } else if i == 26 {
        (spec_range(0x01a0, 0x01a4, true), 1 as i16)
    } else if i == 27 {
        (spec_range(0x01a6, 0x01a6, false), 218 as i16)
    } else if i == 28 {
        (spec_range(0x01a7, 0x01a7, false), 1 as i16)
    } else if i == 29 {
        (spec_range(0x01a9, 0x01a9, false), 218 as i16)
    } else if i == 30 {
        (spec_range(0x01ac, 0x01ac, false), 1 as i16)
    } else if i == 31 {
        (spec_range(0x01ae, 0x01ae, false), 218 as i16)
    } else if i == 32 {
        (spec_range(0x01af, 0x01af, false), 1 as i16)
    } else if i == 33 {
        (spec_range(0x01b1, 0x01b2, false), 217 as i16)
    } else if i == 34 {
        (spec_range(0x01b3, 0x01b5, true), 1 as i16)
    } else if i == 35 {
        (spec_range(0x01b7, 0x01b7, false), 219 as i16)
    } else if i == 36 {
        (spec_range(0x01b8, 0x01b8, false), 1 as i16)
    } else if i == 37 {
        (spec_range(0x01bc, 0x01bc, false), 1 as i16)
    } else if i == 38 {
        (spec_range(0x01c4, 0x01c4, false), 2 as i16)
    } else if i == 39 {
        (spec_range(0x01c5, 0x01c5, false), 1 as i16)
    } else if i == 40 {
        (spec_range(0x01c7, 0x01c7, false), 2 as i16)
    } else if i == 41 {
        (spec_range(0x01c8, 0x01c8, false), 1 as i16)
    } else if i == 42 {
        (spec_range(0x01ca, 0x01ca, false), 2 as i16)
    } else if i == 43 {
        (spec_range(0x01cb, 0x01db, true), 1 as i16)
    } else if i == 44 {
        (spec_range(0x01de, 0x01ee, true), 1 as i16)
    } else if i == 45 {
        (spec_range(0x01f1, 0x01f1, false), 2 as i16)
    } else if i == 46 {
        (spec_range(0x01f2, 0x01f4, true), 1 as i16)
    } else if i == 47 {
        (spec_range(0x01f6, 0x01f6, false), -97 as i16)
    } else if i == 48 {
        (spec_range(0x01f7, 0x01f7, false), -56 as i16)
    } else if i == 49 {
        (spec_range(0x01f8, 0x021e, true), 1 as i16)
    } else if i == 50 {
        (spec_range(0x0220, 0x0220, false), -130 as i16)
    } else if i == 51 {
        (spec_range(0x0222, 0x0232, true), 1 as i16)
    } else if i == 52 {
        (spec_range(0x023a, 0x023a, false), 10795 as i16)
    } else if i == 53 {
        (spec_range(0x023b, 0x023b, false), 1 as i16)
    } else if i == 54 {
        (spec_range(0x023d, 0x023d, false), -163 as i16)
    } else if i == 55 {
        (spec_range(0x023e, 0x023e, false), 10792 as i16)
    } else if i == 56 {
        (spec_range(0x0241, 0x0241, false), 1 as i16)
    } else if i == 57 {
        (spec_range(0x0243, 0x0243, false), -195 as i16)
    } else if i == 58 {
        (spec_range(0x0244, 0x0244, false), 69 as i16)
    } else if i == 59 {
        (spec_range(0x0245, 0x0245, false), 71 as i16)
    } else if i == 60 {
        (spec_range(0x0246, 0x024e, true), 1 as i16)
    } else if i == 61 {
        (spec_range(0x0370, 0x0372, true), 1 as i16)
    } else if i == 62 {
        (spec_range(0x0376, 0x0376, false), 1 as i16)
    } else if i == 63 {
        (spec_range(0x037f, 0x037f, false), 116 as i16)
    } else if i == 64 {
        (spec_range(0x0386, 0x0386, false), 38 as i16)
    } else if i == 65 {
        (spec_range(0x0388, 0x038a, false), 37 as i16)
    } else if i == 66 {
        (spec_range(0x038c, 0x038c, false), 64 as i16)
    } else if i == 67 {
        (spec_range(0x038e, 0x038f, false), 63 as i16)
    } else if i == 68 {
        (spec_range(0x0391, 0x03a1, false), 32 as i16)
    } else if i == 69 {
        (spec_range(0x03a3, 0x03ab, false), 32 as i16)
    } else if i == 70 {
        (spec_range(0x03cf, 0x03cf, false), 8 as i16)
    } else if i == 71 {
        (spec_range(0x03d8, 0x03ee, true), 1 as i16)
    } else if i == 72 {
        (spec_range(0x03f4, 0x03f4, false), -60 as i16)
    } else if i == 73 {
        (spec_range(0x03f7, 0x03f7, false), 1 as i16)
    } else if i == 74 {
        (spec_range(0x03f9, 0x03f9, false), -7 as i16)
    } else if i == 75 {
        (spec_range(0x03fa, 0x03fa, false), 1 as i16)
    } else if i == 76 {
        (spec_range(0x03fd, 0x03ff, false), -130 as i16)
    } else if i == 77 {
        (spec_range(0x0400, 0x040f, false), 80 as i16)
    } else if i == 78 {
        (spec_range(0x0410, 0x042f, false), 32 as i16)
    } else if i == 79 {
        (spec_range(0x0460, 0x0480, true), 1 as i16)
    } else if i == 80 {
        (spec_range(0x048a, 0x04be, true), 1 as i16)
    } else if i == 81 {
        (spec_range(0x04c0, 0x04c0, false), 15 as i16)
    } else if i == 82 {
        (spec_range(0x04c1, 0x04cd, true), 1 as i16)
    } else if i == 83 {
        (spec_range(0x04d0, 0x052e, true), 1 as i16)
    } else if i == 84 {
        (spec_range(0x0531, 0x0556, false), 48 as i16)
    } else if i == 85 {
        (spec_range(0x10a0, 0x10c5, false), 7264 as i16)
    } else if i == 86 {
        (spec_range(0x10c7, 0x10c7, false), 7264 as i16)
    } else if i == 87 {
        (spec_range(0x10cd, 0x10cd, false), 7264 as i16)
    } else if i == 88 {
        (spec_range(0x13a0, 0x13ef, false), -26672 as i16)
    } else if i == 89 {
        (spec_range(0x13f0, 0x13f5, false), 8 as i16)
    } else if i == 90 {
        (spec_range(0x1c89, 0x1c89, false), 1 as i16)
    } else if i == 91 {
        (spec_range(0x1c90, 0x1cba, false), -3008 as i16)
    } else if i == 92 {
        (spec_range(0x1cbd, 0x1cbf, false), -3008 as i16)
    } else if i == 93 {
        (spec_range(0x1e00, 0x1e94, true), 1 as i16)
    } else if i == 94 {
        (spec_range(0x1e9e, 0x1e9e, false), -7615 as i16)
    } else if i == 95 {
        (spec_range(0x1ea0, 0x1efe, true), 1 as i16)
    } else if i == 96 {
        (spec_range(0x1f08, 0x1f0f, false), -8 as i16)
    } else if i == 97 {
        (spec_range(0x1f18, 0x1f1d, false), -8 as i16)
    } else if i == 98 {
        (spec_range(0x1f28, 0x1f2f, false), -8 as i16)
    } else if i == 99 {
        (spec_range(0x1f38, 0x1f3f, false), -8 as i16)
    } else if i == 100 {
        (spec_range(0x1f48, 0x1f4d, false), -8 as i16)
    } else if i == 101 {
        (spec_range(0x1f59, 0x1f5f, true), -8 as i16)
    } else if i == 102 {
        (spec_range(0x1f68, 0x1f6f, false), -8 as i16)
    } else if i == 103 {
        (spec_range(0x1f88, 0x1f8f, false), -8 as i16)
    } else if i == 104 {
        (spec_range(0x1f98, 0x1f9f, false), -8 as i16)
    } else if i == 105 {
        (spec_range(0x1fa8, 0x1faf, false), -8 as i16)
    } else if i == 106 {
        (spec_range(0x1fb8, 0x1fb9, false), -8 as i16)
    } else if i == 107 {
        (spec_range(0x1fba, 0x1fbb, false), -74 as i16)
    } else if i == 108 {
        (spec_range(0x1fbc, 0x1fbc, false), -9 as i16)
    } else if i == 109 {
        (spec_range(0x1fc8, 0x1fcb, false), -86 as i16)
    } else if i == 110 {
        (spec_range(0x1fcc, 0x1fcc, false), -9 as i16)
    } else if i == 111 {
        (spec_range(0x1fd8, 0x1fd9, false), -8 as i16)
    } else if i == 112 {
        (spec_range(0x1fda, 0x1fdb, false), -100 as i16)
    } else if i == 113 {
        (spec_range(0x1fe8, 0x1fe9, false), -8 as i16)
    } else if i == 114 {
        (spec_range(0x1fea, 0x1feb, false), -112 as i16)
    } else if i == 115 {
        (spec_range(0x1fec, 0x1fec, false), -7 as i16)
    } else if i == 116 {
        (spec_range(0x1ff8, 0x1ff9, false), -128 as i16)
    } else if i == 117 {
        (spec_range(0x1ffa, 0x1ffb, false), -126 as i16)
    } else if i == 118 {
        (spec_range(0x1ffc, 0x1ffc, false), -9 as i16)
    } else if i == 119 {
        (spec_range(0x2126, 0x2126, false), -7517 as i16)
    } else if i == 120 {
        (spec_range(0x212a, 0x212a, false), -8383 as i16)
    } else if i == 121 {
        (spec_range(0x212b, 0x212b, false), -8262 as i16)
    } else if i == 122 {
        (spec_range(0x2132, 0x2132, false), 28 as i16)
    } else if i == 123 {
        (spec_range(0x2160, 0x216f, false), 16 as i16)
    } else if i == 124 {
        (spec_range(0x2183, 0x2183, false), 1 as i16)
    } else if i == 125 {
        (spec_range(0x24b6, 0x24cf, false), 26 as i16)
    } else if i == 126 {
        (spec_range(0x2c00, 0x2c2f, false), 48 as i16)
    } else if i == 127 {
        (spec_range(0x2c60, 0x2c60, false), 1 as i16)
    } else if i == 128 {
        (spec_range(0x2c62, 0x2c62, false), -10743 as i16)
    } else if i == 129 {
        (spec_range(0x2c63, 0x2c63, false), -3814 as i16)
    } else if i == 130 {
        (spec_range(0x2c64, 0x2c64, false), -10727 as i16)
    } else if i == 131 {
        (spec_range(0x2c67, 0x2c6b, true), 1 as i16)
    } else if i == 132 {
        (spec_range(0x2c6d, 0x2c6d, false), -10780 as i16)
    } else if i == 133 {
        (spec_range(0x2c6e, 0x2c6e, false), -10749 as i16)
    } else if i == 134 {
        (spec_range(0x2c6f, 0x2c6f, false), -10783 as i16)
    } else if i == 135 {
        (spec_range(0x2c70, 0x2c70, false), -10782 as i16)
    } else if i == 136 {
        (spec_range(0x2c72, 0x2c72, false), 1 as i16)
    } else if i == 137 {
        (spec_range(0x2c75, 0x2c75, false), 1 as i16)
    } else if i == 138 {
        (spec_range(0x2c7e, 0x2c7f, false), -10815 as i16)
    } else if i == 139 {
        (spec_range(0x2c80, 0x2ce2, true), 1 as i16)
    } else if i == 140 {
        (spec_range(0x2ceb, 0x2ced, true), 1 as i16)
    } else if i == 141 {
        (spec_range(0x2cf2, 0x2cf2, false), 1 as i16)
    } else if i == 142 {
        (spec_range(0xa640, 0xa66c, true), 1 as i16)
    } else if i == 143 {
        (spec_range(0xa680, 0xa69a, true), 1 as i16)
    } else if i == 144 {
        (spec_range(0xa722, 0xa72e, true), 1 as i16)
    } else if i == 145 {
        (spec_range(0xa732, 0xa76e, true), 1 as i16)
    } else if i == 146 {
        (spec_range(0xa779, 0xa77b, true), 1 as i16)
    } else if i == 147 {
        (spec_range(0xa77d, 0xa77d, false), 30204 as i16)
    } else if i == 148 {
        (spec_range(0xa77e, 0xa786, true), 1 as i16)
    } else if i == 149 {
        (spec_range(0xa78b, 0xa78b, false), 1 as i16)
    } else if i == 150 {
        (spec_range(0xa78d, 0xa78d, false), 23256 as i16)
    } else if i == 151 {
        (spec_range(0xa790, 0xa792, true), 1 as i16)
    } else if i == 152 {
        (spec_range(0xa796, 0xa7a8, true), 1 as i16)
    } else if i == 153 {
        (spec_range(0xa7aa, 0xa7aa, false), 23228 as i16)
    } else if i == 154 {
        (spec_range(0xa7ab, 0xa7ab, false), 23217 as i16)
    } else if i == 155 {
        (spec_range(0xa7ac, 0xa7ac, false), 23221 as i16)
    } else if i == 156 {
        (spec_range(0xa7ad, 0xa7ad, false), 23231 as i16)
    } else if i == 157 {
        (spec_range(0xa7ae, 0xa7ae, false), 23228 as i16)
    } else if i == 158 {
        (spec_range(0xa7b0, 0xa7b0, false), 23278 as i16)
    } else if i == 159 {
        (spec_range(0xa7b1, 0xa7b1, false), 23254 as i16)
    } else if i == 160 {
        (spec_range(0xa7b2, 0xa7b2, false), 23275 as i16)
    } else if i == 161 {
        (spec_range(0xa7b3, 0xa7b3, false), 928 as i16)
    } else if i == 162 {
        (spec_range(0xa7b4, 0xa7c2, true), 1 as i16)
    } else if i == 163 {
        (spec_range(0xa7c4, 0xa7c4, false), -48 as i16)
    } else if i == 164 {
        (spec_range(0xa7c5, 0xa7c5, false), 23229 as i16)
    } else if i == 165 {
        (spec_range(0xa7c6, 0xa7c6, false), 30152 as i16)
    } else if i == 166 {
        (spec_range(0xa7c7, 0xa7c9, true), 1 as i16)
    } else if i == 167 {
        (spec_range(0xa7cb, 0xa7cb, false), 23193 as i16)
    } else if i == 168 {
        (spec_range(0xa7cc, 0xa7da, true), 1 as i16)
    } else if i == 169 {
        (spec_range(0xa7dc, 0xa7dc, false), 22975 as i16)
    } else if i == 170 {
        (spec_range(0xa7f5, 0xa7f5, false), 1 as i16)
    } else {
        (spec_range(0xff21, 0xff3a, false), 32 as i16)
    }
}

/// Entry `i` of the single-code-point mappings of plane 0.
fn single_plane0(i: usize) -> (r: (Range, i16))
    requires
        i < 172,
    ensures
        r == spec_single_plane0(i as int),
{
    match i {
        0 => (Range::step_by_1(0x00c0, 0x00d6), 32),
        1 => (Range::step_by_1(0x00d8, 0x00de), 32),
        2 => (Range::step_by_2(0x0100, 0x012e), 1),
        3 => (Range::step_by_2(0x0132, 0x0136), 1),
        4 => (Range::step_by_2(0x0139, 0x0147), 1),
        5 => (Range::step_by_2(0x014a, 0x0176), 1),
        6 => (Range::singleton(0x0178), -121),
        7 => (Range::step_by_2(0x0179, 0x017d), 1),
        8 => (Range::singleton(0x0181), 210),
        9 => (Range::step_by_2(0x0182, 0x0184), 1),
        10 => (Range::singleton(0x0186), 206),
        11 => (Range::singleton(0x0187), 1),
        12 => (Range::step_by_1(0x0189, 0x018a), 205),
        13 => (Range::singleton(0x018b), 1),
        14 => (Range::singleton(0x018e), 79),
        15 => (Range::singleton(0x018f), 202),
        16 => (Range::singleton(0x0190), 203),
        17 => (Range::singleton(0x0191), 1),
        18 => (Range::singleton(0x0193), 205),
        19 => (Range::singleton(0x0194), 207),
        20 => (Range::singleton(0x0196), 211),
        21 => (Range::singleton(0x0197), 209),
        22 => (Range::singleton(0x0198), 1),
        23 => (Range::singleton(0x019c), 211),
        24 => (Range::singleton(0x019d), 213),
        25 => (Range::singleton(0x019f), 214),
        26 => (Range::step_by_2(0x01a0, 0x01a4), 1),
        27 => (Range::singleton(0x01a6), 218),
        28 => (Range::singleton(0x01a7), 1),
        29 => (Range::singleton(0x01a9), 218),
        30 => (Range::singleton(0x01ac), 1),
        31 => (Range::singleton(0x01ae), 218),
        32 => (Range::singleton(0x01af), 1),
        33 => (Range::step_by_1(0x01b1, 0x01b2), 217),
        34 => (Range::step_by_2(0x01b3, 0x01b5), 1),
        35 => (Range::singleton(0x01b7), 219),
        36 => (Range::singleton(0x01b8), 1),
        37 => (Range::singleton(0x01bc), 1),
        38 => (Range::singleton(0x01c4), 2),
        39 => (Range::singleton(0x01c5), 1),
        40 => (Range::singleton(0x01c7), 2),
        41 => (Range::singleton(0x01c8), 1),
        42 => (Range::singleton(0x01ca), 2),
        43 => (Range::step_by_2(0x01cb, 0x01db), 1),
        44 => (Range::step_by_2(0x01de, 0x01ee), 1),
        45 => (Range::singleton(0x01f1), 2),
        46 => (Range::step_by_2(0x01f2, 0x01f4), 1),
        47 => (Range::singleton(0x01f6), -97),
        48 => (Range::singleton(0x01f7), -56),
        49 => (Range::step_by_2(0x01f8, 0x021e), 1),
        50 => (Range::singleton(0x0220), -130),
        51 => (Range::step_by_2(0x0222, 0x0232), 1),
        52 => (Range::singleton(0x023a), 10795),
        53 => (Range::singleton(0x023b), 1),
        54 => (Range::singleton(0x023d), -163),
        55 => (Range::singleton(0x023e), 10792),
        56 => (Range::singleton(0x0241), 1),
        57 => (Range::singleton(0x0243), -195),
        58 => (Range::singleton(0x0244), 69),
        59 => (Range::singleton(0x0245), 71),
        60 => (Range::step_by_2(0x0246, 0x024e), 1),
        61 => (Range::step_by_2(0x0370, 0x0372), 1),
        62 => (Range::singleton(0x0376), 1),
        63 => (Range::singleton(0x037f), 116),
        64 => (Range::singleton(0x0386), 38),
        65 => (Range::step_by_1(0x0388, 0x038a), 37),
        66 => (Range::singleton(0x038c), 64),
        67 => (Range::step_by_1(0x038e, 0x038f), 63),
        68 => (Range::step_by_1(0x0391, 0x03a1), 32),
        69 => (Range::step_by_1(0x03a3, 0x03ab), 32),
        70 => (Range::singleton(0x03cf), 8),
        71 => (Range::step_by_2(0x03d8, 0x03ee), 1),
        72 => (Range::singleton(0x03f4), -60),
        73 => (Range::singleton(0x03f7), 1),
        74 => (Range::singleton(0x03f9), -7),
        75 => (Range::singleton(0x03fa), 1),
        76 => (Range::step_by_1(0x03fd, 0x03ff), -130),
        77 => (Range::step_by_1(0x0400, 0x040f), 80),
        78 => (Range::step_by_1(0x0410, 0x042f), 32),
        79 => (Range::step_by_2(0x0460, 0x0480), 1),
        80 => (Range::step_by_2(0x048a, 0x04be), 1),
        81 => (Range::singleton(0x04c0), 15),
        82 => (Range::step_by_2(0x04c1, 0x04cd), 1),
        83 => (Range::step_by_2(0x04d0, 0x052e), 1),
        84 => (Range::step_by_1(0x0531, 0x0556), 48),
        85 => (Range::step_by_1(0x10a0, 0x10c5), 7264),
        86 => (Range::singleton(0x10c7), 7264),
        87 => (Range::singleton(0x10cd), 7264),
        88 => (Range::step_by_1(0x13a0, 0x13ef), -26672),
        89 => (Range::step_by_1(0x13f0, 0x13f5), 8),
        90 => (Range::singleton(0x1c89), 1),
        91 => (Range::step_by_1(0x1c90, 0x1cba), -3008),
        92 => (Range::step_by_1(0x1cbd, 0x1cbf), -3008),
        93 => (Range::step_by_2(0x1e00, 0x1e94), 1),
        94 => (Range::singleton(0x1e9e), -7615),
        95 => (Range::step_by_2(0x1ea0, 0x1efe), 1),
        96 => (Range::step_by_1(0x1f08, 0x1f0f), -8),
        97 => (Range::step_by_1(0x1f18, 0x1f1d), -8),
        98 => (Range::step_by_1(0x1f28, 0x1f2f), -8),
        99 => (Range::step_by_1(0x1f38, 0x1f3f), -8),
        100 => (Range::step_by_1(0x1f48, 0x1f4d), -8),
        101 => (Range::step_by_2(0x1f59, 0x1f5f), -8),
        102 => (Range::step_by_1(0x1f68, 0x1f6f), -8),
        103 => (Range::step_by_1(0x1f88, 0x1f8f), -8),
        104 => (Range::step_by_1(0x1f98, 0x1f9f), -8),
        105 => (Range::step_by_1(0x1fa8, 0x1faf), -8),
        106 => (Range::step_by_1(0x1fb8, 0x1fb9), -8),
        107 => (Range::step_by_1(0x1fba, 0x1fbb), -74),
        108 => (Range::singleton(0x1fbc), -9),
        109 => (Range::step_by_1(0x1fc8, 0x1fcb), -86),
        110 => (Range::singleton(0x1fcc), -9),
        111 => (Range::step_by_1(0x1fd8, 0x1fd9), -8),
        112 => (Range::step_by_1(0x1fda, 0x1fdb), -100),
        113 => (Range::step_by_1(0x1fe8, 0x1fe9), -8),
        114 => (Range::step_by_1(0x1fea, 0x1feb), -112),
        115 => (Range::singleton(0x1fec), -7),
        116 => (Range::step_by_1(0x1ff8, 0x1ff9), -128),
        117 => (Range::step_by_1(0x1ffa, 0x1ffb), -126),
        118 => (Range::singleton(0x1ffc), -9),
        119 => (Range::singleton(0x2126), -7517),
        120 => (Range::singleton(0x212a), -8383),
        121 => (Range::singleton(0x212b), -8262),
        122 => (Range::singleton(0x2132), 28),
        123 => (Range::step_by_1(0x2160, 0x216f), 16),
        124 => (Range::singleton(0x2183), 1),
        125 => (Range::step_by_1(0x24b6, 0x24cf), 26),
        126 => (Range::step_by_1(0x2c00, 0x2c2f), 48),
        127 => (Range::singleton(0x2c60), 1),
        128 => (Range::singleton(0x2c62), -10743),
        129 => (Range::singleton(0x2c63), -3814),
        130 => (Range::singleton(0x2c64), -10727),
        131 => (Range::step_by_2(0x2c67, 0x2c6b), 1),
        132 => (Range::singleton(0x2c6d), -10780),
        133 => (Range::singleton(0x2c6e), -10749),
        134 => (Range::singleton(0x2c6f), -10783),
        135 => (Range::singleton(0x2c70), -10782),
        136 => (Range::singleton(0x2c72), 1),
        137 => (Range::singleton(0x2c75), 1),
        138 => (Range::step_by_1(0x2c7e, 0x2c7f), -10815),
        139 => (Range::step_by_2(0x2c80, 0x2ce2), 1),
        140 => (Range::step_by_2(0x2ceb, 0x2ced), 1),
        141 => (Range::singleton(0x2cf2), 1),
        142 => (Range::step_by_2(0xa640, 0xa66c), 1),
        143 => (Range::step_by_2(0xa680, 0xa69a), 1),
        144 => (Range::step_by_2(0xa722, 0xa72e), 1),
        145 => (Range::step_by_2(0xa732, 0xa76e), 1),
        146 => (Range::step_by_2(0xa779, 0xa77b), 1),
        147 => (Range::singleton(0xa77d), 30204),
        148 => (Range::step_by_2(0xa77e, 0xa786), 1),
        149 => (Range::singleton(0xa78b), 1),
        150 => (Range::singleton(0xa78d), 23256),
        151 => (Range::step_by_2(0xa790, 0xa792), 1),
        152 => (Range::step_by_2(0xa796, 0xa7a8), 1),
        153 => (Range::singleton(0xa7aa), 23228),
        154 => (Range::singleton(0xa7ab), 23217),
        155 => (Range::singleton(0xa7ac), 23221),
        156 => (Range::singleton(0xa7ad), 23231),
        157 => (Range::singleton(0xa7ae), 23228),
        158 => (Range::singleton(0xa7b0), 23278),
        159 => (Range::singleton(0xa7b1), 23254),
        160 => (Range::singleton(0xa7b2), 23275),
        161 => (Range::singleton(0xa7b3), 928),
        162 => (Range::step_by_2(0xa7b4, 0xa7c2), 1),
        163 => (Range::singleton(0xa7c4), -48),
        164 => (Range::singleton(0xa7c5), 23229),
        165 => (Range::singleton(0xa7c6), 30152),
        166 => (Range::step_by_2(0xa7c7, 0xa7c9), 1),
        167 => (Range::singleton(0xa7cb), 23193),
        168 => (Range::step_by_2(0xa7cc, 0xa7da), 1),
        169 => (Range::singleton(0xa7dc), 22975),
        170 => (Range::singleton(0xa7f5), 1),
        _ => (Range::step_by_1(0xff21, 0xff3a), 32),
    }
}

/// Entry `i` of the single-code-point mappings of plane 1: a range of
/// code points and the offset that lowercases them.
spec fn spec_single_plane1(i: int) -> (Range, i16) {
    if i == 0 {
        (spec_range(0x0400, 0x0427, false), 40 as i16)
    } else if i == 1 {
        (spec_range(0x04b0, 0x04d3, false), 40 as i16)
    } else if i == 2 {
        (spec_range(0x0570, 0x057a, false), 39 as i16)
    } else if i == 3 {
        (spec_range(0x057c, 0x058a, false), 39 as i16)
    } else if i == 4 {
        (spec_range(0x058c, 0x0592, false), 39 as i16)
    } else if i == 5 {
        (spec_range(0x0594, 0x0595, false), 39 as i16)
    } else if i == 6 {
        (spec_range(0x0c80, 0x0cb2, false), 64 as i16)
    } else if i == 7 {
        (spec_range(0x0d50, 0x0d65, false), 32 as i16)
    } else if i == 8 {
        (spec_range(0x18a0, 0x18bf, false), 32 as i16)
    } else if i == 9 {
        (spec_range(0x6e40, 0x6e5f, false), 32 as i16)
    } else if i == 10 {
        (spec_range(0x6ea0, 0x6eb8, false), 27 as i16)
    } else {
        (spec_range(0xe900, 0xe921, false), 34 as i16)
    }
}

/// Entry `i` of the single-code-point mappings of plane 1.
fn single_plane1(i: usize) -> (r: (Range, i16))
    requires
        i < 12,
    ensures
        r == spec_single_plane1(i as int),
{
    match i {
        0 => (Range::step_by_1(0x0400, 0x0427), 40),
        1 => (Range::step_by_1(0x04b0, 0x04d3), 40),
        2 => (Range::step_by_1(0x0570, 0x057a), 39),
        3 => (Range::step_by_1(0x057c, 0x058a), 39),
        4 => (Range::step_by_1(0x058c, 0x0592), 39),
        5 => (Range::step_by_1(0x0594, 0x0595), 39),
        6 => (Range::step_by_1(0x0c80, 0x0cb2), 64),
        7 => (Range::step_by_1(0x0d50, 0x0d65), 32),
        8 => (Range::step_by_1(0x18a0, 0x18bf), 32),
        9 => (Range::step_by_1(0x6e40, 0x6e5f), 32),
        10 => (Range::step_by_1(0x6ea0, 0x6eb8), 27),
        _ => (Range::step_by_1(0xe900, 0xe921), 34),
    }
}

/// Number of single-code-point mappings of `plane`.
spec fn singles_len(plane: int) -> int {
    if plane == 0 {
        172
    } else if plane == 1 {
        12
    } else {
        0
    }
}

/// Entry `i` of the single-code-point mappings of `plane`.
spec fn spec_single(plane: int, i: int) -> (Range, i16) {
    if plane == 0 {
        spec_single_plane0(i)
    } else {
        spec_single_plane1(i)
    }
}

/// The low 16 bits of the lowercase of `low` by `delta`.
spec fn mapped_low(low: u16, delta: i16) -> u16 {
    vstd::wrapping::u16_specs::wrapping_add_signed(low, delta)
}

proof fn lemma_plane0_adjacent(i: int)
    requires
        0 <= i < 171,
    ensures
        spec_single_plane0(i).0.spec_end() < spec_single_plane0(i + 1).0.start,
{
}

proof fn lemma_plane1_adjacent(i: int)
    requires
        0 <= i < 11,
    ensures
        spec_single_plane1(i).0.spec_end() < spec_single_plane1(i + 1).0.start,
{
}

/// Every entry's run is well formed and ends before the next one starts.
proof fn lemma_singles_sorted(plane: int, i: int, j: int)
    requires
        0 <= plane <= 1,
        0 <= i < j < singles_len(plane),
    ensures
        spec_single(plane, i).0.spec_end() < spec_single(plane, j).0.start,
    decreases j - i,
{
    if plane == 0 {
        lemma_plane0_adjacent(j - 1);
    } else {
        lemma_plane1_adjacent(j - 1);
    }
    if i < j - 1 {
        lemma_singles_sorted(plane, i, j - 1);
    }
}

/// What the entries of plane 0 map to is never a surrogate code point.
proof fn lemma_plane0_outputs(i: int, low: u16)
    requires
        0 <= i < 172,
        spec_single_plane0(i).0.covers(low as int),
    ensures
        !(0xD800 <= mapped_low(low, spec_single_plane0(i).1) <= 0xDFFF),
{
}

/// Every run ends within 16 bits.
proof fn lemma_single_in_bounds(plane: int, i: int)
    requires
        0 <= plane <= 1,
        0 <= i < singles_len(plane),
    ensures
        spec_single(plane, i).0.spec_end() <= 0xFFFF,
{
}

/// Number of multi-code-point mappings of `plane`.
spec fn multis_len(plane: int) -> int {
    if plane == 0 {
        1
    } else {
        0
    }
}

/// Entry `i` of the multi-code-point mappings of plane 0: a code point and
/// the three code points it lowercases to, the unused ones 0.
spec fn spec_multi_plane0(i: int) -> (u16, Seq<u16>) {
    (0x0130, seq![0x0069u16, 0x0307u16, 0x0000u16])
}

/// Entry `i` of the multi-code-point mappings of plane 0.
fn multi_plane0(i: usize) -> (r: (u16, [u16; 3]))
    requires
        i < 1,
    ensures
        r.0 == spec_multi_plane0(i as int).0,
        r.1@ == spec_multi_plane0(i as int).1,
{
    let r: (u16, [u16; 3]) = (0x0130, [0x0069, 0x0307, 0x0000]);
    assert(r.1@ =~= seq![0x0069u16, 0x0307u16, 0x0000u16]);
    r
}

/// The char of code point `plane * 0x10000 + low`.
pub open spec fn char_at(plane: int, low: int) -> char {
    (plane * 0x10000 + low) as u32 as char
}

/// The index of the single mapping of `plane` whose run covers `low`.
spec fn covering_single(plane: int, low: int) -> int {
    choose|i: int| 0 <= i < singles_len(plane) && (#[trigger] spec_single(plane, i)).0.covers(low)
}

/// What `c` lowercases to by the tables, as three chars padded with NULs,
/// or `None` where the tables leave `c` as it is.
spec fn spec_lookup(c: char) -> Option<Seq<char>> {
    let plane = (c as u32) / 0x10000;
    let low = (c as u32) % 0x10000;
    if plane > 1 {
        None
    } else if exists|i: int|
        0 <= i < singles_len(plane as int) && (#[trigger] spec_single(plane as int, i)).0.covers(
            low as int,
        ) && spec_single(plane as int, i).0.selects(low as int) {
        let e = spec_single(plane as int, covering_single(plane as int, low as int));
        Some(seq![char_at(plane as int, mapped_low(low as u16, e.1) as int), '\0', '\0'])
    } else if plane == 0 && exists|k: int|
        0 <= k < multis_len(plane as int) && (#[trigger] spec_multi_plane0(k)).0 == low {
        let k = choose|k: int|
            0 <= k < multis_len(plane as int) && (#[trigger] spec_multi_plane0(k)).0 == low;
        Some(spec_multi_plane0(k).1.map_values(|o: u16| char_at(plane as int, o as int)))
    } else {
        None
    }
}

/// The ASCII lowercase of `c`.
pub open spec fn ascii_lower(c: char) -> char {
    if 'A' <= c <= 'Z' {
        ((c as u32) + 32) as char
    } else {
        c
    }
}

/// What `c` lowercases to, as three chars padded with NULs.
spec fn spec_lower_array(c: char) -> Seq<char> {
    if (c as u32) < 0xC0 {
        seq![ascii_lower(c), '\0', '\0']
    } else {
        match spec_lookup(c) {
            Some(a) => a,
            None => seq![c, '\0', '\0'],
        }
    }
}

/// Three chars without their trailing NULs; the first always stays.
pub open spec fn trim_nuls(a: Seq<char>) -> Seq<char> {
    if a[2] == '\0' {
        if a[1] == '\0' {
            a.take(1)
        } else {
            a.take(2)
        }
    } else {
        a.take(3)
    }
}

/// The chars that `c` lowercases to by the Unicode 17 tables: one char, or
/// more for the few chars whose lowercase is a sequence.
pub closed spec fn spec_char_to_lower(c: char) -> Seq<char> {
    trim_nuls(spec_lower_array(c))
}

/// Number of blocks of `case_block`.
pub open spec fn num_case_blocks() -> int {
    184
}

/// Unicode 17's simple lowercase pairs from U+00C0 on, block by block: the
/// entry `(first, last, lower, every_other)` at `k` reads "the code points
/// `first` to `last` (every other one from `first`, where `every_other`)
/// lowercase to the code points from `lower` on, in the same order".
/// Cyrillic А–Я, for one, is `(0x0410, 0x042F, 0x0430, false)`.
pub open spec fn case_block(k: int) -> (u32, u32, u32, bool) {
    if k == 0 {
        (0x00C0, 0x00D6, 0x00E0, false)
    } else if k == 1 {
        (0x00D8, 0x00DE, 0x00F8, false)
    } else if k == 2 {
        (0x0100, 0x012E, 0x0101, true)
    } else if k == 3 {
        (0x0132, 0x0136, 0x0133, true)
    } else if k == 4 {
        (0x0139, 0x0147, 0x013A, true)
    } else if k == 5 {
        (0x014A, 0x0176, 0x014B, true)
    } else if k == 6 {
        (0x0178, 0x0178, 0x00FF, false)
    } else if k == 7 {
        (0x0179, 0x017D, 0x017A, true)
    } else if k == 8 {
        (0x0181, 0x0181, 0x0253, false)
    } else if k == 9 {
        (0x0182, 0x0184, 0x0183, true)
    } else if k == 10 {
        (0x0186, 0x0186, 0x0254, false)
    } else if k == 11 {
        (0x0187, 0x0187, 0x0188, false)
    } else if k == 12 {
        (0x0189, 0x018A, 0x0256, false)
    } else if k == 13 {
        (0x018B, 0x018B, 0x018C, false)
    } else if k == 14 {
        (0x018E, 0x018E, 0x01DD, false)
    } else if k == 15 {
        (0x018F, 0x018F, 0x0259, false)
    } else if k == 16 {
        (0x0190, 0x0190, 0x025B, false)
    } else if k == 17 {
        (0x0191, 0x0191, 0x0192, false)
    } else if k == 18 {
        (0x0193, 0x0193, 0x0260, false)
    } else if k == 19 {
        (0x0194, 0x0194, 0x0263, false)
    } else if k == 20 {
        (0x0196, 0x0196, 0x0269, false)
    } else if k == 21 {
        (0x0197, 0x0197, 0x0268, false)
    } else if k == 22 {
        (0x0198, 0x0198, 0x0199, false)
    } else if k == 23 {
        (0x019C, 0x019C, 0x026F, false)
    } else if k == 24 {
        (0x019D, 0x019D, 0x0272, false)
    } else if k == 25 {
        (0x019F, 0x019F, 0x0275, false)
    } else if k == 26 {
        (0x01A0, 0x01A4, 0x01A1, true)
    } else if k == 27 {
        (0x01A6, 0x01A6, 0x0280, false)
    } else if k == 28 {
        (0x01A7, 0x01A7, 0x01A8, false)
    } else if k == 29 {
        (0x01A9, 0x01A9, 0x0283, false)
    } else if k == 30 {
        (0x01AC, 0x01AC, 0x01AD, false)
    } else if k == 31 {
        (0x01AE, 0x01AE, 0x0288, false)
    } else if k == 32 {
        (0x01AF, 0x01AF, 0x01B0, false)
    } else if k == 33 {
        (0x01B1, 0x01B2, 0x028A, false)
    } else if k == 34 {
        (0x01B3, 0x01B5, 0x01B4, true)
    } else if k == 35 {
        (0x01B7, 0x01B7, 0x0292, false)
    } else if k == 36 {
        (0x01B8, 0x01B8, 0x01B9, false)
    } else if k == 37 {
        (0x01BC, 0x01BC, 0x01BD, false)
    } else if k == 38 {
        (0x01C4, 0x01C4, 0x01C6, false)
    } else if k == 39 {
        (0x01C5, 0x01C5, 0x01C6, false)
    } else if k == 40 {
        (0x01C7, 0x01C7, 0x01C9, false)
    } else if k == 41 {
        (0x01C8, 0x01C8, 0x01C9, false)
    } else if k == 42 {
        (0x01CA, 0x01CA, 0x01CC, false)
    } else if k == 43 {
        (0x01CB, 0x01DB, 0x01CC, true)
    } else if k == 44 {
        (0x01DE, 0x01EE, 0x01DF, true)
    } else if k == 45 {
        (0x01F1, 0x01F1, 0x01F3, false)
    } else if k == 46 {
        (0x01F2, 0x01F4, 0x01F3, true)
    } else if k == 47 {
        (0x01F6, 0x01F6, 0x0195, false)
    } else if k == 48 {
        (0x01F7, 0x01F7, 0x01BF, false)
    } else if k == 49 {
        (0x01F8, 0x021E, 0x01F9, true)
    } else if k == 50 {
        (0x0220, 0x0220, 0x019E, false)
    } else if k == 51 {
        (0x0222, 0x0232, 0x0223, true)
    } else if k == 52 {
        (0x023A, 0x023A, 0x2C65, false)
    } else if k == 53 {
        (0x023B, 0x023B, 0x023C, false)
    } else if k == 54 {
        (0x023D, 0x023D, 0x019A, false)
    } else if k == 55 {
        (0x023E, 0x023E, 0x2C66, false)
    } else if k == 56 {
        (0x0241, 0x0241, 0x0242, false)
    } else if k == 57 {
        (0x0243, 0x0243, 0x0180, false)
    } else if k == 58 {
        (0x0244, 0x0244, 0x0289, false)
    } else if k == 59 {
        (0x0245, 0x0245, 0x028C, false)
    } else if k == 60 {
        (0x0246, 0x024E, 0x0247, true)
    } else if k == 61 {
        (0x0370, 0x0372, 0x0371, true)
    } else if k == 62 {
        (0x0376, 0x0376, 0x0377, false)
    } else if k == 63 {
        (0x037F, 0x037F, 0x03F3, false)
    } else if k == 64 {
        (0x0386, 0x0386, 0x03AC, false)
    } else if k == 65 {
        (0x0388, 0x038A, 0x03AD, false)
    } else if k == 66 {
        (0x038C, 0x038C, 0x03CC, false)
    } else if k == 67 {
        (0x038E, 0x038F, 0x03CD, false)
    } else if k == 68 {
        (0x0391, 0x03A1, 0x03B1, false)
    } else if k == 69 {
        (0x03A3, 0x03AB, 0x03C3, false)
    } else if k == 70 {
        (0x03CF, 0x03CF, 0x03D7, false)
    } else if k == 71 {
        (0x03D8, 0x03EE, 0x03D9, true)
    } else if k == 72 {
        (0x03F4, 0x03F4, 0x03B8, false)
    } else if k == 73 {
        (0x03F7, 0x03F7, 0x03F8, false)
    } else if k == 74 {
        (0x03F9, 0x03F9, 0x03F2, false)
    } else if k == 75 {
        (0x03FA, 0x03FA, 0x03FB, false)
    } else if k == 76 {
        (0x03FD, 0x03FF, 0x037B, false)
    } else if k == 77 {
        (0x0400, 0x040F, 0x0450, false)
    } else if k == 78 {
        (0x0410, 0x042F, 0x0430, false)
    } else if k == 79 {
        (0x0460, 0x0480, 0x0461, true)
    } else if k == 80 {
        (0x048A, 0x04BE, 0x048B, true)
    } else if k == 81 {
        (0x04C0, 0x04C0, 0x04CF, false)
    } else if k == 82 {
        (0x04C1, 0x04CD, 0x04C2, true)
    } else if k == 83 {
        (0x04D0, 0x052E, 0x04D1, true)
    } else if k == 84 {
        (0x0531, 0x0556, 0x0561, false)
    } else if k == 85 {
        (0x10A0, 0x10C5, 0x2D00, false)
    } else if k == 86 {
        (0x10C7, 0x10C7, 0x2D27, false)
    } else if k == 87 {
        (0x10CD, 0x10CD, 0x2D2D, false)
    } else if k == 88 {
        (0x13A0, 0x13EF, 0xAB70, false)
    } else if k == 89 {
        (0x13F0, 0x13F5, 0x13F8, false)
    } else if k == 90 {
        (0x1C89, 0x1C89, 0x1C8A, false)
    } else if k == 91 {
        (0x1C90, 0x1CBA, 0x10D0, false)
    } else if k == 92 {
        (0x1CBD, 0x1CBF, 0x10FD, false)
    } else if k == 93 {
        (0x1E00, 0x1E94, 0x1E01, true)
    } else if k == 94 {
        (0x1E9E, 0x1E9E, 0x00DF, false)
    } else if k == 95 {
        (0x1EA0, 0x1EFE, 0x1EA1, true)
    } else if k == 96 {
        (0x1F08, 0x1F0F, 0x1F00, false)
    } else if k == 97 {
        (0x1F18, 0x1F1D, 0x1F10, false)
    } else if k == 98 {
        (0x1F28, 0x1F2F, 0x1F20, false)
    } else if k == 99 {
        (0x1F38, 0x1F3F, 0x1F30, false)
    } else if k == 100 {
        (0x1F48, 0x1F4D, 0x1F40, false)
    } else if k == 101 {
        (0x1F59, 0x1F5F, 0x1F51, true)
    } else if k == 102 {
        (0x1F68, 0x1F6F, 0x1F60, false)
    } else if k == 103 {
        (0x1F88, 0x1F8F, 0x1F80, false)
    } else if k == 104 {
        (0x1F98, 0x1F9F, 0x1F90, false)
    } else if k == 105 {
        (0x1FA8, 0x1FAF, 0x1FA0, false)
    } else if k == 106 {
        (0x1FB8, 0x1FB9, 0x1FB0, false)
    } else if k == 107 {
        (0x1FBA, 0x1FBB, 0x1F70, false)
    } else if k == 108 {
        (0x1FBC, 0x1FBC, 0x1FB3, false)
    } else if k == 109 {
        (0x1FC8, 0x1FCB, 0x1F72, false)
    } else if k == 110 {
        (0x1FCC, 0x1FCC, 0x1FC3, false)
    } else if k == 111 {
        (0x1FD8, 0x1FD9, 0x1FD0, false)
    } else if k == 112 {
        (0x1FDA, 0x1FDB, 0x1F76, false)
    } else if k == 113 {
        (0x1FE8, 0x1FE9, 0x1FE0, false)
    } else if k == 114 {
        (0x1FEA, 0x1FEB, 0x1F7A, false)
    } else if k == 115 {
        (0x1FEC, 0x1FEC, 0x1FE5, false)
    } else if k == 116 {
        (0x1FF8, 0x1FF9, 0x1F78, false)
    } else if k == 117 {
        (0x1FFA, 0x1FFB, 0x1F7C, false)
    } else if k == 118 {
        (0x1FFC, 0x1FFC, 0x1FF3, false)
    } else if k == 119 {
        (0x2126, 0x2126, 0x03C9, false)
    } else if k == 120 {
        (0x212A, 0x212A, 0x006B, false)
    } else if k == 121 {
        (0x212B, 0x212B, 0x00E5, false)
    } else if k == 122 {
        (0x2132, 0x2132, 0x214E, false)
    } else if k == 123 {
        (0x2160, 0x216F, 0x2170, false)
    } else if k == 124 {
        (0x2183, 0x2183, 0x2184, false)
    } else if k == 125 {
        (0x24B6, 0x24CF, 0x24D0, false)
    } else if k == 126 {
        (0x2C00, 0x2C2F, 0x2C30, false)
    } else if k == 127 {
        (0x2C60, 0x2C60, 0x2C61, false)
    } else if k == 128 {
        (0x2C62, 0x2C62, 0x026B, false)
    } else if k == 129 {
        (0x2C63, 0x2C63, 0x1D7D, false)
    } else if k == 130 {
        (0x2C64, 0x2C64, 0x027D, false)
    } else if k == 131 {
        (0x2C67, 0x2C6B, 0x2C68, true)
    } else if k == 132 {
        (0x2C6D, 0x2C6D, 0x0251, false)
    } else if k == 133 {
        (0x2C6E, 0x2C6E, 0x0271, false)
    } else if k == 134 {
        (0x2C6F, 0x2C6F, 0x0250, false)
    } else if k == 135 {
        (0x2C70, 0x2C70, 0x0252, false)
    } else if k == 136 {
        (0x2C72, 0x2C72, 0x2C73, false)
    } else if k == 137 {
        (0x2C75, 0x2C75, 0x2C76, false)
    } else if k == 138 {
        (0x2C7E, 0x2C7F, 0x023F, false)
    } else if k == 139 {
        (0x2C80, 0x2CE2, 0x2C81, true)
    } else if k == 140 {
        (0x2CEB, 0x2CED, 0x2CEC, true)
    } else if k == 141 {
        (0x2CF2, 0x2CF2, 0x2CF3, false)
    } else if k == 142 {
        (0xA640, 0xA66C, 0xA641, true)
    } else if k == 143 {
        (0xA680, 0xA69A, 0xA681, true)
    } else if k == 144 {
        (0xA722, 0xA72E, 0xA723, true)
    } else if k == 145 {
        (0xA732, 0xA76E, 0xA733, true)
    } else if k == 146 {
        (0xA779, 0xA77B, 0xA77A, true)
    } else if k == 147 {
        (0xA77D, 0xA77D, 0x1D79, false)
    } else if k == 148 {
        (0xA77E, 0xA786, 0xA77F, true)
    } else if k == 149 {
        (0xA78B, 0xA78B, 0xA78C, false)
    } else if k == 150 {
        (0xA78D, 0xA78D, 0x0265, false)
    } else if k == 151 {
        (0xA790, 0xA792, 0xA791, true)
    } else if k == 152 {
        (0xA796, 0xA7A8, 0xA797, true)
    } else if k == 153 {
        (0xA7AA, 0xA7AA, 0x0266, false)
    } else if k == 154 {
        (0xA7AB, 0xA7AB, 0x025C, false)
    } else if k == 155 {
        (0xA7AC, 0xA7AC, 0x0261, false)
    } else if k == 156 {
        (0xA7AD, 0xA7AD, 0x026C, false)
    } else if k == 157 {
        (0xA7AE, 0xA7AE, 0x026A, false)
    } else if k == 158 {
        (0xA7B0, 0xA7B0, 0x029E, false)
    } else if k == 159 {
        (0xA7B1, 0xA7B1, 0x0287, false)
    } else if k == 160 {
        (0xA7B2, 0xA7B2, 0x029D, false)
    } else if k == 161 {
        (0xA7B3, 0xA7B3, 0xAB53, false)
    } else if k == 162 {
        (0xA7B4, 0xA7C2, 0xA7B5, true)
    } else if k == 163 {
        (0xA7C4, 0xA7C4, 0xA794, false)
    } else if k == 164 {
        (0xA7C5, 0xA7C5, 0x0282, false)
    } else if k == 165 {
        (0xA7C6, 0xA7C6, 0x1D8E, false)
    } else if k == 166 {
        (0xA7C7, 0xA7C9, 0xA7C8, true)
    } else if k == 167 {
        (0xA7CB, 0xA7CB, 0x0264, false)
    } else if k == 168 {
        (0xA7CC, 0xA7DA, 0xA7CD, true)
    } else if k == 169 {
        (0xA7DC, 0xA7DC, 0x019B, false)
    } else if k == 170 {
        (0xA7F5, 0xA7F5, 0xA7F6, false)
    } else if k == 171 {
        (0xFF21, 0xFF3A, 0xFF41, false)
    } else if k == 172 {
        (0x10400, 0x10427, 0x10428, false)
    } else if k == 173 {
        (0x104B0, 0x104D3, 0x104D8, false)
    } else if k == 174 {
        (0x10570, 0x1057A, 0x10597, false)
    } else if k == 175 {
        (0x1057C, 0x1058A, 0x105A3, false)
    } else if k == 176 {
        (0x1058C, 0x10592, 0x105B3, false)
    } else if k == 177 {
        (0x10594, 0x10595, 0x105BB, false)
    } else if k == 178 {
        (0x10C80, 0x10CB2, 0x10CC0, false)
    } else if k == 179 {
        (0x10D50, 0x10D65, 0x10D70, false)
    } else if k == 180 {
        (0x118A0, 0x118BF, 0x118C0, false)
    } else if k == 181 {
        (0x16E40, 0x16E5F, 0x16E60, false)
    } else if k == 182 {
        (0x16EA0, 0x16EB8, 0x16EBB, false)
    } else {
        (0x1E900, 0x1E921, 0x1E922, false)
    }
}

/// `c` is one of the capitals of the block `b`.
pub open spec fn in_case_block(b: (u32, u32, u32, bool), c: char) -> bool {
    &&& b.0 <= c as u32 <= b.1
    &&& b.3 ==> (c as u32 - b.0) % 2 == 0
}

/// The lowercase that the block `b` pairs with its capital `c`.
pub open spec fn case_block_lower(b: (u32, u32, u32, bool), c: char) -> char {
    char_at(0, b.2 + (c as u32 - b.0))
}

/// The plane and entry of the mapping tables that the block at `k` lists.
spec fn table_entry_of_block(k: int) -> (int, int) {
    if k < 172 {
        (0, k)
    } else {
        (1, k - 172)
    }
}

/// The block at `k` lists exactly the mapping of its table entry.
spec fn block_agrees(k: int) -> bool {
    let (plane, i) = table_entry_of_block(k);
    let (r, d) = spec_single(plane, i);
    let b = case_block(k);
    let base = plane * 0x10000;
    &&& b.0 == base + r.start
    &&& b.1 == base + r.start + r.len
    &&& b.3 == r.parity
    &&& {
        ||| 0 <= r.start + d && r.start + r.len + d <= 0xFFFF && b.2 == base + r.start + d
        ||| r.start + r.len + d < 0 && b.2 == base + r.start + d + 0x10000
        ||| r.start + d > 0xFFFF && b.2 == base + r.start + d - 0x10000
    }
}

proof fn lemma_blocks_agree_0(k: int)
    requires
        0 <= k < 16,
    ensures
        block_agrees(k),
{
    if k == 0 {
    } else if k == 1 {
    } else if k == 2 {
    } else if k == 3 {
    } else if k == 4 {
    } else if k == 5 {
    } else if k == 6 {
    } else if k == 7 {
    } else if k == 8 {
    } else if k == 9 {
    } else if k == 10 {
    } else if k == 11 {
    } else if k == 12 {
    } else if k == 13 {
    } else if k == 14 {
    } else if k == 15 {
    }
}

proof fn lemma_blocks_agree_1(k: int)
    requires
        16 <= k < 32,
    ensures
        block_agrees(k),
{
    if k == 16 {
    } else if k == 17 {
    } else if k == 18 {
    } else if k == 19 {
    } else if k == 20 {
    } else if k == 21 {
    } else if k == 22 {
    } else if k == 23 {
    } else if k == 24 {
    } else if k == 25 {
    } else if k == 26 {
    } else if k == 27 {
    } else if k == 28 {
    } else if k == 29 {
    } else if k == 30 {
    } else if k == 31 {
    }
}

proof fn lemma_blocks_agree_2(k: int)
    requires
        32 <= k < 48,
    ensures
        block_agrees(k),
{
    if k == 32 {
    } else if k == 33 {
    } else if k == 34 {
    } else if k == 35 {
    } else if k == 36 {
    } else if k == 37 {
    } else if k == 38 {
    } else if k == 39 {
    } else if k == 40 {
    } else if k == 41 {
    } else if k == 42 {
    } else if k == 43 {
    } else if k == 44 {
    } else if k == 45 {
    } else if k == 46 {
    } else if k == 47 {
    }
}

proof fn lemma_blocks_agree_3(k: int)
    requires
        48 <= k < 64,
    ensures
        block_agrees(k),
{
    if k == 48 {
    } else if k == 49 {
    } else if k == 50 {
    } else if k == 51 {
    } else if k == 52 {
    } else if k == 53 {
    } else if k == 54 {
    } else if k == 55 {
    } else if k == 56 {
    } else if k == 57 {
    } else if k == 58 {
    } else if k == 59 {
    } else if k == 60 {
    } else if k == 61 {
    } else if k == 62 {
    } else if k == 63 {
    }
}

proof fn lemma_blocks_agree_4(k: int)
    requires
        64 <= k < 80,
    ensures
        block_agrees(k),
{
    if k == 64 {
    } else if k == 65 {
    } else if k == 66 {
    } else if k == 67 {
    } else if k == 68 {
    } else if k == 69 {
    } else if k == 70 {
    } else if k == 71 {
    } else if k == 72 {
    } else if k == 73 {
    } else if k == 74 {
    } else if k == 75 {
    } else if k == 76 {
    } else if k == 77 {
    } else if k == 78 {
    } else if k == 79 {
    }
}

proof fn lemma_blocks_agree_5(k: int)
    requires
        80 <= k < 96,
    ensures
        block_agrees(k),
{
    if k == 80 {
    } else if k == 81 {
    } else if k == 82 {
    } else if k == 83 {
    } else if k == 84 {
    } else if k == 85 {
    } else if k == 86 {
    } else if k == 87 {
    } else if k == 88 {
    } else if k == 89 {
    } else if k == 90 {
    } else if k == 91 {
    } else if k == 92 {
    } else if k == 93 {
    } else if k == 94 {
    } else if k == 95 {
    }
}

proof fn lemma_blocks_agree_6(k: int)
    requires
        96 <= k < 112,
    ensures
        block_agrees(k),
{
    if k == 96 {
    } else if k == 97 {
    } else if k == 98 {
    } else if k == 99 {
    } else if k == 100 {
    } else if k == 101 {
    } else if k == 102 {
    } else if k == 103 {
    } else if k == 104 {
    } else if k == 105 {
    } else if k == 106 {
    } else if k == 107 {
    } else if k == 108 {
    } else if k == 109 {
    } else if k == 110 {
    } else if k == 111 {
    }
}

proof fn lemma_blocks_agree_7(k: int)
    requires
        112 <= k < 128,
    ensures
        block_agrees(k),
{
    if k == 112 {
    } else if k == 113 {
    } else if k == 114 {
    } else if k == 115 {
    } else if k == 116 {
    } else if k == 117 {
    } else if k == 118 {
    } else if k == 119 {
    } else if k == 120 {
    } else if k == 121 {
    } else if k == 122 {
    } else if k == 123 {
    } else if k == 124 {
    } else if k == 125 {
    } else if k == 126 {
    } else if k == 127 {
    }
}

proof fn lemma_blocks_agree_8(k: int)
    requires
        128 <= k < 144,
    ensures
        block_agrees(k),
{
    if k == 128 {
    } else if k == 129 {
    } else if k == 130 {
    } else if k == 131 {
    } else if k == 132 {
    } else if k == 133 {
    } else if k == 134 {
    } else if k == 135 {
    } else if k == 136 {
    } else if k == 137 {
    } else if k == 138 {
    } else if k == 139 {
    } else if k == 140 {
    } else if k == 141 {
    } else if k == 142 {
    } else if k == 143 {
    }
}

proof fn lemma_blocks_agree_9(k: int)
    requires
        144 <= k < 160,
    ensures
        block_agrees(k),
{
    if k == 144 {
    } else if k == 145 {
    } else if k == 146 {
    } else if k == 147 {
    } else if k == 148 {
    } else if k == 149 {
    } else if k == 150 {
    } else if k == 151 {
    } else if k == 152 {
    } else if k == 153 {
    } else if k == 154 {
    } else if k == 155 {
    } else if k == 156 {
    } else if k == 157 {
    } else if k == 158 {
    } else if k == 159 {
    }
}

proof fn lemma_blocks_agree_10(k: int)
    requires
        160 <= k < 176,
    ensures
        block_agrees(k),
{
    if k == 160 {
    } else if k == 161 {
    } else if k == 162 {
    } else if k == 163 {
    } else if k == 164 {
    } else if k == 165 {
    } else if k == 166 {
    } else if k == 167 {
    } else if k == 168 {
    } else if k == 169 {
    } else if k == 170 {
    } else if k == 171 {
    } else if k == 172 {
    } else if k == 173 {
    } else if k == 174 {
    } else if k == 175 {
    }
}

proof fn lemma_blocks_agree_11(k: int)
    requires
        176 <= k < 184,
    ensures
        block_agrees(k),
{
    if k == 176 {
    } else if k == 177 {
    } else if k == 178 {
    } else if k == 179 {
    } else if k == 180 {
    } else if k == 181 {
    } else if k == 182 {
    } else if k == 183 {
    }
}

proof fn lemma_blocks_agree(k: int)
    requires
        0 <= k < num_case_blocks(),
    ensures
        block_agrees(k),
{
    if k < 16 {
        lemma_blocks_agree_0(k);
    } else if k < 32 {
        lemma_blocks_agree_1(k);
    } else if k < 48 {
        lemma_blocks_agree_2(k);
    } else if k < 64 {
        lemma_blocks_agree_3(k);
    } else if k < 80 {
        lemma_blocks_agree_4(k);
    } else if k < 96 {
        lemma_blocks_agree_5(k);
    } else if k < 112 {
        lemma_blocks_agree_6(k);
    } else if k < 128 {
        lemma_blocks_agree_7(k);
    } else if k < 144 {
        lemma_blocks_agree_8(k);
    } else if k < 160 {
        lemma_blocks_agree_9(k);
    } else if k < 176 {
        lemma_blocks_agree_10(k);
    } else {
        lemma_blocks_agree_11(k);
    }
}

/// Where the entry `i` of `plane` covers and maps the code point of `c`
/// (from U+00C0 on), `c` lowercases to what the entry maps it to.
proof fn lemma_entry_lower(plane: int, i: int, c: char)
    requires
        0 <= plane <= 1,
        0 <= i < singles_len(plane),
        (c as u32) / 0x10000 == plane,
        c as u32 >= 0xC0,
        spec_single(plane, i).0.covers((c as u32 % 0x10000) as int),
        spec_single(plane, i).0.selects((c as u32 % 0x10000) as int),
    ensures
        spec_char_to_lower(c) == seq![
            char_at(plane, mapped_low((c as u32 % 0x10000) as u16, spec_single(plane, i).1) as int),
        ],
{
    let low = (c as u32 % 0x10000) as int;
    assert(spec_single(plane, i).0.covers(low) && spec_single(plane, i).0.selects(low));
    let i2 = covering_single(plane, low);
    assert(0 <= i2 < singles_len(plane) && spec_single(plane, i2).0.covers(low));
    if i2 < i {
        lemma_singles_sorted(plane, i2, i);
    } else if i2 > i {
        lemma_singles_sorted(plane, i, i2);
    }
    let x = char_at(plane, mapped_low(low as u16, spec_single(plane, i).1) as int);
    assert(spec_lookup(c) == Some(seq![x, '\0', '\0']));
    assert(spec_lower_array(c) == seq![x, '\0', '\0']);
    assert(seq![x, '\0', '\0'].take(1) =~= seq![x]);
}

/// Lowercasing follows Unicode 17's simple case pairs: each capital of a
/// block of `case_block` lowercases to the char that the block pairs with
/// it, alone.
pub proof fn law_case_blocks(k: int, c: char)
    requires
        0 <= k < num_case_blocks(),
        in_case_block(case_block(k), c),
    ensures
        spec_char_to_lower(c) == seq![case_block_lower(case_block(k), c)],
{
    lemma_blocks_agree(k);
    let (plane, i) = table_entry_of_block(k);
    let (r, d) = spec_single(plane, i);
    let b = case_block(k);
    let v = c as u32;
    let low = (v % 0x10000) as int;
    lemma_single_in_bounds(plane, i);
    assert(v / 0x10000 == plane);
    assert(low == v - plane * 0x10000);
    assert(r.covers(low));
    assert(r.selects(low));
    lemma_entry_lower(plane, i, c);
    assert(char_at(plane, mapped_low(low as u16, d) as int) == case_block_lower(b, c));
}

/// The chars from U+00C0 on that no block of `case_block` holds, but
/// U+0130, lowercase to themselves.
pub proof fn law_outside_case_blocks(c: char)
    requires
        c as u32 >= 0xC0,
        c as u32 != 0x0130,
        forall|k: int| 0 <= k < num_case_blocks() ==> !in_case_block(#[trigger] case_block(k), c),
    ensures
        spec_char_to_lower(c) == seq![c],
{
    let v = c as u32;
    let plane = (v / 0x10000) as int;
    let low = (v % 0x10000) as int;
    if plane <= 1 {
        assert forall|i: int|
            0 <= i < singles_len(plane) && (#[trigger] spec_single(plane, i)).0.covers(low)
                implies !spec_single(plane, i).0.selects(low) by {
            let k = if plane == 0 {
                i
            } else {
                i + 172
            };
            lemma_blocks_agree(k);
            assert(table_entry_of_block(k) == (plane, i));
            assert(!in_case_block(case_block(k), c));
        }
        assert(!(plane == 0 && exists|m: int|
            0 <= m < multis_len(plane) && (#[trigger] spec_multi_plane0(m)).0 == low));
    }
    assert(spec_lookup(c) is None);
    assert(seq![c, '\0', '\0'].take(1) =~= seq![c]);
}

/// Below U+00C0 only the ASCII capitals change: `A` to `Z` lowercase to `a`
/// to `z`, every other char to itself.
pub proof fn law_lowercase_below_c0(c: char)
    requires
        (c as u32) < 0xC0,
    ensures
        0x41 <= c as u32 <= 0x5A ==> spec_char_to_lower(c) == seq![char_at(0, c as u32 + 0x20)],
        !(0x41 <= c as u32 <= 0x5A) ==> spec_char_to_lower(c) == seq![c],
{
    lemma_char_to_lower_shape(c);
}

/// U+0130 (capital I with dot above) lowercases to `i` and a combining dot
/// above.
pub proof fn law_dotted_capital_i()
    ensures
        spec_char_to_lower('\u{0130}') == seq!['i', '\u{0307}'],
{
    let c = '\u{0130}';
    assert(c as u32 == 0x0130);
    assert forall|i: int|
        0 <= i < singles_len(0) implies !(#[trigger] spec_single(0, i)).0.covers(0x0130) by {
        if i < 3 {
            if i < 2 {
                lemma_singles_sorted(0, i, 2);
            }
        } else if i > 3 {
            lemma_singles_sorted(0, 3, i);
        }
    }
    let a = spec_multi_plane0(0).1.map_values(|o: u16| char_at(0, o as int));
    assert(a =~= seq!['i', '\u{0307}', '\0']);
    assert(spec_lookup(c) == Some(a));
    assert(a.take(2) =~= seq!['i', '\u{0307}']);
}

/// `char::from_u32`, which gives the char of code point `v` when `v` is a
/// Unicode scalar value (at most 0x10FFFF, not a surrogate), and `None`
/// otherwise.
#[verifier::external_body]
fn char_from_u32(v: u32) -> (r: Option<char>)
    ensures
        r is Some <==> (v <= 0x10FFFF && !(0xD800 <= v <= 0xDFFF)),
        r matches Some(c) ==> c as u32 == v,
{
    char::from_u32(v)
}

/// What `c` lowercases to has one to three chars, and a char below U+00C0
/// lowercases to its ASCII lowercase alone.
pub proof fn lemma_char_to_lower_shape(c: char)
    ensures
        1 <= spec_char_to_lower(c).len() <= 3,
        (c as u32) < 0xC0 ==> spec_char_to_lower(c) == seq![ascii_lower(c)],
{
    let a = spec_lower_array(c);
    if (c as u32) < 0xC0 {
        assert(a.take(1) =~= seq![ascii_lower(c)]);
    } else {
        match spec_lookup(c) {
            Some(x) => {
                let plane = (c as u32) / 0x10000;
                let low = (c as u32) % 0x10000;
                if plane <= 1 && exists|i: int|
                    0 <= i < singles_len(plane as int) && (#[trigger] spec_single(
                        plane as int,
                        i,
                    )).0.covers(low as int) && spec_single(plane as int, i).0.selects(low as int) {
                    assert(x.len() == 3);
                } else {
                    assert(x.len() == 3);
                }
            },
            None => {},
        }
    }
    assert(a.len() == 3);
}

/// What the entries of plane 0 map a char from U+00C0 on to is never 0.
proof fn lemma_plane0_nonzero(i: int, low: u16)
    requires
        0 <= i < 172,
        low >= 0xC0,
        spec_single_plane0(i).0.covers(low as int),
    ensures
        mapped_low(low, spec_single_plane0(i).1) != 0,
{
}

/// Only NUL lowercases to chars that hold a NUL.
pub proof fn lemma_char_to_lower_nul(c: char)
    ensures
        spec_char_to_lower(c).contains('\0') ==> c == '\0',
{
    broadcast use vstd::utf8::char_u32_cast;

    lemma_char_to_lower_shape(c);
    let a = spec_lower_array(c);
    let r = spec_char_to_lower(c);
    if r.contains('\0') {
        let k = choose|k: int| 0 <= k < r.len() && r[k] == '\0';
        if (c as u32) < 0xC0 {
            assert(r[0] == ascii_lower(c));
        } else {
            let plane = (c as u32) / 0x10000;
            let low = (c as u32) % 0x10000;
            match spec_lookup(c) {
                Some(x) => {
                    if plane <= 1 && exists|i: int|
                        0 <= i < singles_len(plane as int) && (#[trigger] spec_single(
                            plane as int,
                            i,
                        )).0.covers(low as int) && spec_single(plane as int, i).0.selects(
                            low as int,
                        ) {
                        let i = covering_single(plane as int, low as int);
                        let m = mapped_low(low as u16, spec_single(plane as int, i).1);
                        assert(x == seq![char_at(plane as int, m as int), '\0', '\0']);
                        assert(r =~= x.take(1));
                        if plane == 0 {
                            lemma_plane0_nonzero(i, low as u16);
                            lemma_plane0_outputs(i, low as u16);
                        }
                        let v = (plane * 0x10000 + m) as u32;
                        assert(0 < v <= 0x1FFFF);
                        assert(!(0xD800 <= v <= 0xDFFF));
                        assert(char_at(plane as int, m as int) != '\0');
                    } else {
                        assert(plane == 0);
                        let k2 = choose|k: int|
                            0 <= k < multis_len(plane as int) && (#[trigger] spec_multi_plane0(k)).0
                                == low;
                        assert(x == spec_multi_plane0(k2).1.map_values(
                            |o: u16| char_at(plane as int, o as int),
                        ));
                        assert(x[1] == char_at(0, 0x0307));
                        assert(x[2] == char_at(0, 0));
                        assert(char_at(0, 0x0307) != '\0');
                        assert(r =~= x.take(2));
                        assert(x[0] == char_at(0, 0x0069));
                        assert(char_at(0, 0x0069) != '\0');
                    }
                },
                None => {
                    assert(r =~= seq![c]);
                },
            }
        }
    }
}

/// The char of code point `plane * 0x10000 + low`.
fn reconstruct(plane: u16, low: u16) -> (c: char)
    requires
        plane <= 1,
        plane == 1 || !(0xD800 <= low <= 0xDFFF),
    ensures
        c == char_at(plane as int, low as int),
{
    let v: u32 = (plane as u32) * 0x10000 + (low as u32);
    match char_from_u32(v) {
        Some(c) => {
            proof {
                vstd::utf8::char_u32_cast(c, v);
            }
            c
        },
        None => '\0',
    }
}

/// Entry `i` of the single-code-point mappings of `plane`.
fn single(plane: u16, i: usize) -> (r: (Range, i16))
    requires
        plane <= 1,
        i < singles_len(plane as int),
    ensures
        r == spec_single(plane as int, i as int),
{
    if plane == 0 {
        single_plane0(i)
    } else {
        single_plane1(i)
    }
}

/// Binary search for the single mapping of `plane` whose run covers `low`.
fn find_single(plane: u16, low: u16) -> (r: Option<usize>)
    requires
        plane <= 1,
    ensures
        r matches Some(i) ==> i < singles_len(plane as int) && spec_single(
            plane as int,
            i as int,
        ).0.covers(low as int),
        r is None ==> forall|i: int|
            0 <= i < singles_len(plane as int) ==> !(#[trigger] spec_single(
                plane as int,
                i,
            )).0.covers(low as int),
{
    let len: usize = if plane == 0 {
        172
    } else {
        12
    };
    let mut lo: usize = 0;
    let mut hi: usize = len;
    while lo < hi
        invariant
            plane <= 1,
            len == singles_len(plane as int),
            lo <= hi <= len,
            forall|i: int|
                0 <= i < lo ==> !(#[trigger] spec_single(plane as int, i)).0.covers(low as int),
            forall|i: int|
                hi <= i < len ==> !(#[trigger] spec_single(plane as int, i)).0.covers(low as int),
        decreases hi - lo,
    {
        let mid = lo + (hi - lo) / 2;
        proof {
            lemma_single_in_bounds(plane as int, mid as int);
        }
        let (range, _) = single(plane, mid);
        if low < range.start() {
            proof {
                assert forall|i: int| mid <= i < len implies !(#[trigger] spec_single(
                    plane as int,
                    i,
                )).0.covers(low as int) by {
                    if i > mid {
                        lemma_singles_sorted(plane as int, mid as int, i);
                    }
                }
            }
            hi = mid;
        } else if low > range.end() {
            proof {
                assert forall|i: int| 0 <= i <= mid implies !(#[trigger] spec_single(
                    plane as int,
                    i,
                )).0.covers(low as int) by {
                    if i < mid {
                        lemma_singles_sorted(plane as int, i, mid as int);
                    }
                }
            }
            lo = mid + 1;
        } else {
            return Some(mid);
        }
    }
    None
}

/// The index of the multi-code-point mapping of `plane` for `low`.
fn find_multi(plane: u16, low: u16) -> (r: Option<usize>)
    requires
        plane <= 1,
    ensures
        r matches Some(k) ==> plane == 0 && k < multis_len(plane as int) && spec_multi_plane0(
            k as int,
        ).0 == low,
        r is None ==> !(plane == 0 && exists|k: int|
            0 <= k < multis_len(plane as int) && (#[trigger] spec_multi_plane0(k)).0 == low),
{
    if plane != 0 {
        return None;
    }
    let mut k: usize = 0;
    while k < 1
        invariant
            plane == 0,
            k <= 1,
            forall|j: int| 0 <= j < k ==> (#[trigger] spec_multi_plane0(j)).0 != low,
        decreases 1 - k,
    {
        let (key, _) = multi_plane0(k);
        if key == low {
            return Some(k);
        }
        k = k + 1;
    }
    None
}

/// The plane of `c` and its code point within the plane.
fn deconstruct(c: char) -> (r: (u16, u16))
    ensures
        r.0 == (c as u32) / 0x10000,
        r.1 == (c as u32) % 0x10000,
{
    let v = c as u32;
    ((v / 0x10000) as u16, (v % 0x10000) as u16)
}

/// What `input` lowercases to by the tables, or `None` where the tables
/// leave it as it is.
fn lookup(input: char) -> (r: Option<[char; 3]>)
    ensures
        match r {
            Some(a) => spec_lookup(input) == Some(a@),
            None => spec_lookup(input) is None,
        },
{
    let v = input as u32;
    let (input_high, input_low) = deconstruct(input);
    if input_high > 1 {
        return None;
    }
    let plane = input_high;
    if let Some(idx) = find_single(plane, input_low) {
        let (range, output_delta) = single(plane, idx);
        let selected = !range.parity || input_low % 2 == range.start() % 2;
        proof {
            assert forall|i: int|
                0 <= i < singles_len(plane as int) && (#[trigger] spec_single(
                    plane as int,
                    i,
                )).0.covers(input_low as int) implies i == idx by {
                if i < idx {
                    lemma_singles_sorted(plane as int, i, idx as int);
                } else if i > idx {
                    lemma_singles_sorted(plane as int, idx as int, i);
                }
            }
        }
        if selected {
            let output_low = input_low.wrapping_add_signed(output_delta);
            proof {
                if plane == 0 {
                    lemma_plane0_outputs(idx as int, input_low);
                }
            }
            let output = reconstruct(plane, output_low);
            let a: [char; 3] = [output, '\0', '\0'];
            assert(a@ =~= seq![output, '\0', '\0']);
            return Some(a);
        }
    }
    if let Some(k) = find_multi(plane, input_low) {
        let (_, output_lows) = multi_plane0(k);
        let c0 = reconstruct(plane, output_lows[0]);
        let c1 = reconstruct(plane, output_lows[1]);
        let c2 = reconstruct(plane, output_lows[2]);
        let a: [char; 3] = [c0, c1, c2];
        assert(a@ =~= spec_multi_plane0(k as int).1.map_values(
            |o: u16| char_at(plane as int, o as int),
        ));
        return Some(a);
    }
    None
}

/// The ASCII lowercase of `c`.
fn to_ascii_lowercase(c: char) -> (r: char)
    ensures
        r == ascii_lower(c),
{
    if 'A' <= c && c <= 'Z' {
        let b = (c as u8) + 32;
        proof {
            vstd::utf8::char_u32_cast(c, c as u32);
        }
        b as char
    } else {
        c
    }
}

/// What `c` lowercases to, as three chars padded with NULs.
fn to_lower(c: char) -> (r: [char; 3])
    ensures
        r@ == spec_lower_array(c),
{
    if (c as u32) < 0xC0 {
        let a: [char; 3] = [to_ascii_lowercase(c), '\0', '\0'];
        assert(a@ =~= seq![ascii_lower(c), '\0', '\0']);
        return a;
    }
    match lookup(c) {
        Some(a) => a,
        None => {
            let a: [char; 3] = [c, '\0', '\0'];
            assert(a@ =~= seq![c, '\0', '\0']);
            a
        },
    }
}

/// The chars a char lowercases to: one, two or three of them.
#[derive(Debug, Clone)]
pub struct CaseMappingIter {
    chars: [char; 3],
    len: usize,
}

impl View for CaseMappingIter {
    type V = Seq<char>;

    closed spec fn view(&self) -> Seq<char> {
        if self.len <= 3 {
            self.chars@.take(self.len as int)
        } else {
            self.chars@
        }
    }
}

impl CaseMappingIter {
    /// The chars of `chars` without trailing NULs (the first always stays:
    /// NUL lowercases to itself).
    fn new(chars: [char; 3]) -> (r: CaseMappingIter)
        ensures
            r@ == trim_nuls(chars@),
    {
        let len: usize = if chars[2] == '\0' {
            if chars[1] == '\0' {
                1
            } else {
                2
            }
        } else {
            3
        };
        CaseMappingIter { chars, len }
    }

    /// How many chars there are.
    pub fn len(&self) -> (n: usize)
        ensures
            n == self@.len(),
    {
        if self.len <= 3 {
            self.len
        } else {
            3
        }
    }

    /// The chars, in order.
    pub fn as_slice(&self) -> (s: &[char])
        ensures
            s@ == self@,
    {
        let all: &[char] = self.chars.as_slice();
        if self.len <= 3 {
            vstd::slice::slice_subrange(all, 0, self.len)
        } else {
            all
        }
    }
}

/// The lowercase of `c` by the Unicode 17 tables.
pub fn unicode_v17_char_to_lower(c: char) -> (r: CaseMappingIter)
    ensures
        r@ == spec_char_to_lower(c),
{
    CaseMappingIter::new(to_lower(c))
}

} // verus!

//! Precomputed CRC-24 tables, and the proof that every entry is what the
//! shift register computes.

use super::{crc_step, crc_steps, lemma_unroll_8};
use vstd::prelude::*;

verus! {

/// `TABLE[b]` is the remainder left by feeding byte `b` into an all-zero
/// register.
pub const TABLE: [u32; 256] = [
    0x000000, 0xFFF409, 0x001C1B, 0xFFE812, 0x003836, 0xFFCC3F, 0x00242D, 0xFFD024,
    0x00706C, 0xFF8465, 0x006C77, 0xFF987E, 0x00485A, 0xFFBC53, 0x005441, 0xFFA048,
    0x00E0D8, 0xFF14D1, 0x00FCC3, 0xFF08CA, 0x00D8EE, 0xFF2CE7, 0x00C4F5, 0xFF30FC,
    0x0090B4, 0xFF64BD, 0x008CAF, 0xFF78A6, 0x00A882, 0xFF5C8B, 0x00B499, 0xFF4090,
    0x01C1B0, 0xFE35B9, 0x01DDAB, 0xFE29A2, 0x01F986, 0xFE0D8F, 0x01E59D, 0xFE1194,
    0x01B1DC, 0xFE45D5, 0x01ADC7, 0xFE59CE, 0x0189EA, 0xFE7DE3, 0x0195F1, 0xFE61F8,
    0x012168, 0xFED561, 0x013D73, 0xFEC97A, 0x01195E, 0xFEED57, 0x010545, 0xFEF14C,
    0x015104, 0xFEA50D, 0x014D1F, 0xFEB916, 0x016932, 0xFE9D3B, 0x017529, 0xFE8120,
    0x038360, 0xFC7769, 0x039F7B, 0xFC6B72, 0x03BB56, 0xFC4F5F, 0x03A74D, 0xFC5344,
    0x03F30C, 0xFC0705, 0x03EF17, 0xFC1B1E, 0x03CB3A, 0xFC3F33, 0x03D721, 0xFC2328,
    0x0363B8, 0xFC97B1, 0x037FA3, 0xFC8BAA, 0x035B8E, 0xFCAF87, 0x034795, 0xFCB39C,
    0x0313D4, 0xFCE7DD, 0x030FCF, 0xFCFBC6, 0x032BE2, 0xFCDFEB, 0x0337F9, 0xFCC3F0,
    0x0242D0, 0xFDB6D9, 0x025ECB, 0xFDAAC2, 0x027AE6, 0xFD8EEF, 0x0266FD, 0xFD92F4,
    0x0232BC, 0xFDC6B5, 0x022EA7, 0xFDDAAE, 0x020A8A, 0xFDFE83, 0x021691, 0xFDE298,
    0x02A208, 0xFD5601, 0x02BE13, 0xFD4A1A, 0x029A3E, 0xFD6E37, 0x028625, 0xFD722C,
    0x02D264, 0xFD266D, 0x02CE7F, 0xFD3A76, 0x02EA52, 0xFD1E5B, 0x02F649, 0xFD0240,
    0x0706C0, 0xF8F2C9, 0x071ADB, 0xF8EED2, 0x073EF6, 0xF8CAFF, 0x0722ED, 0xF8D6E4,
    0x0776AC, 0xF882A5, 0x076AB7, 0xF89EBE, 0x074E9A, 0xF8BA93, 0x075281, 0xF8A688,
    0x07E618, 0xF81211, 0x07FA03, 0xF80E0A, 0x07DE2E, 0xF82A27, 0x07C235, 0xF8363C,
    0x079674, 0xF8627D, 0x078A6F, 0xF87E66, 0x07AE42, 0xF85A4B, 0x07B259, 0xF84650,
    0x06C770, 0xF93379, 0x06DB6B, 0xF92F62, 0x06FF46, 0xF90B4F, 0x06E35D, 0xF91754,
    0x06B71C, 0xF94315, 0x06AB07, 0xF95F0E, 0x068F2A, 0xF97B23, 0x069331, 0xF96738,
    0x0627A8, 0xF9D3A1, 0x063BB3, 0xF9CFBA, 0x061F9E, 0xF9EB97, 0x060385, 0xF9F78C,
    0x0657C4, 0xF9A3CD, 0x064BDF, 0xF9BFD6, 0x066FF2, 0xF99BFB, 0x0673E9, 0xF987E0,
    0x0485A0, 0xFB71A9, 0x0499BB, 0xFB6DB2, 0x04BD96, 0xFB499F, 0x04A18D, 0xFB5584,
    0x04F5CC, 0xFB01C5, 0x04E9D7, 0xFB1DDE, 0x04CDFA, 0xFB39F3, 0x04D1E1, 0xFB25E8,
    0x046578, 0xFB9171, 0x047963, 0xFB8D6A, 0x045D4E, 0xFBA947, 0x044155, 0xFBB55C,
    0x041514, 0xFBE11D, 0x04090F, 0xFBFD06, 0x042D22, 0xFBD92B, 0x043139, 0xFBC530,
    0x054410, 0xFAB019, 0x05580B, 0xFAAC02, 0x057C26, 0xFA882F, 0x05603D, 0xFA9434,
    0x05347C, 0xFAC075, 0x052867, 0xFADC6E, 0x050C4A, 0xFAF843, 0x051051, 0xFAE458,
    0x05A4C8, 0xFA50C1, 0x05B8D3, 0xFA4CDA, 0x059CFE, 0xFA68F7, 0x0580E5, 0xFA74EC,
    0x05D4A4, 0xFA20AD, 0x05C8BF, 0xFA3CB6, 0x05EC92, 0xFA189B, 0x05F089, 0xFA0480,
];

/// `SYNDROME_SHORT[i]` is the CRC-24 of a 7-byte frame that is zero but for
/// bit `i`, counted from the most significant bit of the first byte.
pub const SYNDROME_SHORT: [u32; 56] = [
    0x3F6D11, 0xE04C8C, 0x702646, 0x381323, 0xE3F395, 0x8E03CE, 0x4701E7, 0xDC7AF7,
    0x91C77F, 0xB719BB, 0xA476D9, 0xADC168, 0x56E0B4, 0x2B705A, 0x15B82D, 0xF52612,
    0x7A9309, 0xC2B380, 0x6159C0, 0x30ACE0, 0x185670, 0x0C2B38, 0x06159C, 0x030ACE,
    0x018567, 0xFF38B7, 0x80665F, 0xBFC92B, 0xA01E91, 0xAFF54C, 0x57FAA6, 0x2BFD53,
    0xEA04AD, 0x8AF852, 0x457C29, 0xDD4410, 0x6EA208, 0x375104, 0x1BA882, 0x0DD441,
    0xF91024, 0x7C8812, 0x3E4409, 0xE0D800, 0x706C00, 0x383600, 0x1C1B00, 0x0E0D80,
    0x0706C0, 0x038360, 0x01C1B0, 0x00E0D8, 0x00706C, 0x003836, 0x001C1B, 0xFFF409,
];

/// As [`SYNDROME_SHORT`], for 14-byte frames.
pub const SYNDROME_LONG: [u32; 112] = [
    0x16C19E, 0x0B60CF, 0xFA4A63, 0x82DF35, 0xBE959E, 0x5F4ACF, 0xD05F63, 0x97D5B5,
    0xB410DE, 0x5A086F, 0xD2FE33, 0x96851D, 0xB4B88A, 0x5A5C45, 0xD2D426, 0x696A13,
    0xCB4F0D, 0x9A5D82, 0x4D2EC1, 0xD96D64, 0x6CB6B2, 0x365B59, 0xE4D7A8, 0x726BD4,
    0x3935EA, 0x1C9AF5, 0xF1B77E, 0x78DBBF, 0xC397DB, 0x9E31E9, 0xB0E2F0, 0x587178,
    0x2C38BC, 0x161C5E, 0x0B0E2F, 0xFA7D13, 0x82C48D, 0xBE9842, 0x5F4C21, 0xD05C14,
    0x682E0A, 0x341705, 0xE5F186, 0x72F8C3, 0xC68665, 0x9CB936, 0x4E5C9B, 0xD8D449,
    0x939020, 0x49C810, 0x24E408, 0x127204, 0x093902, 0x049C81, 0xFDB444, 0x7EDA22,
    0x3F6D11, 0xE04C8C, 0x702646, 0x381323, 0xE3F395, 0x8E03CE, 0x4701E7, 0xDC7AF7,
    0x91C77F, 0xB719BB, 0xA476D9, 0xADC168, 0x56E0B4, 0x2B705A, 0x15B82D, 0xF52612,
    0x7A9309, 0xC2B380, 0x6159C0, 0x30ACE0, 0x185670, 0x0C2B38, 0x06159C, 0x030ACE,
    0x018567, 0xFF38B7, 0x80665F, 0xBFC92B, 0xA01E91, 0xAFF54C, 0x57FAA6, 0x2BFD53,
    0xEA04AD, 0x8AF852, 0x457C29, 0xDD4410, 0x6EA208, 0x375104, 0x1BA882, 0x0DD441,
    0xF91024, 0x7C8812, 0x3E4409, 0xE0D800, 0x706C00, 0x383600, 0x1C1B00, 0x0E0D80,
    0x0706C0, 0x038360, 0x01C1B0, 0x00E0D8, 0x00706C, 0x003836, 0x001C1B, 0xFFF409,
];

/// Eight steps from `b << 16` are a linear function of the bits of `b`, and
/// every entry of [`TABLE`] is the value of that function.
#[verifier::rlimit(100)]
pub proof fn lemma_table(b: u32)
    requires
        b < 256,
    ensures
        TABLE@[b as int] == crc_steps(b << 16, 8),
{
    let r0: u32 = b << 16;
    let r1 = crc_step(r0);
    let r2 = crc_step(r1);
    let r3 = crc_step(r2);
    let r4 = crc_step(r3);
    let r5 = crc_step(r4);
    let r6 = crc_step(r5);
    let r7 = crc_step(r6);
    let r8 = crc_step(r7);
    lemma_unroll_8(r0);
    assert(r8 == (
                (if b & 0x01 != 0 { 0xFFF409u32 } else { 0u32 })
                ^ (if b & 0x02 != 0 { 0x001C1Bu32 } else { 0u32 })
                ^ (if b & 0x04 != 0 { 0x003836u32 } else { 0u32 })
                ^ (if b & 0x08 != 0 { 0x00706Cu32 } else { 0u32 })
                ^ (if b & 0x10 != 0 { 0x00E0D8u32 } else { 0u32 })
                ^ (if b & 0x20 != 0 { 0x01C1B0u32 } else { 0u32 })
                ^ (if b & 0x40 != 0 { 0x038360u32 } else { 0u32 })
                ^ (if b & 0x80 != 0 { 0x0706C0u32 } else { 0u32 })
            )) by (bit_vector)
        requires
            b < 256,
            r0 == b << 16,
            r1 == if r0 & 0x0080_0000 != 0 { ((r0 << 1) ^ 0x00FF_F409) & 0x00FF_FFFF } else { (r0 << 1) & 0x00FF_FFFF },
            r2 == if r1 & 0x0080_0000 != 0 { ((r1 << 1) ^ 0x00FF_F409) & 0x00FF_FFFF } else { (r1 << 1) & 0x00FF_FFFF },
            r3 == if r2 & 0x0080_0000 != 0 { ((r2 << 1) ^ 0x00FF_F409) & 0x00FF_FFFF } else { (r2 << 1) & 0x00FF_FFFF },
            r4 == if r3 & 0x0080_0000 != 0 { ((r3 << 1) ^ 0x00FF_F409) & 0x00FF_FFFF } else { (r3 << 1) & 0x00FF_FFFF },
            r5 == if r4 & 0x0080_0000 != 0 { ((r4 << 1) ^ 0x00FF_F409) & 0x00FF_FFFF } else { (r4 << 1) & 0x00FF_FFFF },
            r6 == if r5 & 0x0080_0000 != 0 { ((r5 << 1) ^ 0x00FF_F409) & 0x00FF_FFFF } else { (r5 << 1) & 0x00FF_FFFF },
            r7 == if r6 & 0x0080_0000 != 0 { ((r6 << 1) ^ 0x00FF_F409) & 0x00FF_FFFF } else { (r6 << 1) & 0x00FF_FFFF },
            r8 == if r7 & 0x0080_0000 != 0 { ((r7 << 1) ^ 0x00FF_F409) & 0x00FF_FFFF } else { (r7 << 1) & 0x00FF_FFFF },
    ;
    assert(
        (b == 0 ==> r8 == 0x000000) && (b == 1 ==> r8 == 0xFFF409) &&
        (b == 2 ==> r8 == 0x001C1B) && (b == 3 ==> r8 == 0xFFE812) &&
        (b == 4 ==> r8 == 0x003836) && (b == 5 ==> r8 == 0xFFCC3F) &&
        (b == 6 ==> r8 == 0x00242D) && (b == 7 ==> r8 == 0xFFD024) &&
        (b == 8 ==> r8 == 0x00706C) && (b == 9 ==> r8 == 0xFF8465) &&
        (b == 10 ==> r8 == 0x006C77) && (b == 11 ==> r8 == 0xFF987E) &&
        (b == 12 ==> r8 == 0x00485A) && (b == 13 ==> r8 == 0xFFBC53) &&
        (b == 14 ==> r8 == 0x005441) && (b == 15 ==> r8 == 0xFFA048) &&
        (b == 16 ==> r8 == 0x00E0D8) && (b == 17 ==> r8 == 0xFF14D1) &&
        (b == 18 ==> r8 == 0x00FCC3) && (b == 19 ==> r8 == 0xFF08CA) &&
        (b == 20 ==> r8 == 0x00D8EE) && (b == 21 ==> r8 == 0xFF2CE7) &&
        (b == 22 ==> r8 == 0x00C4F5) && (b == 23 ==> r8 == 0xFF30FC) &&
        (b == 24 ==> r8 == 0x0090B4) && (b == 25 ==> r8 == 0xFF64BD) &&
        (b == 26 ==> r8 == 0x008CAF) && (b == 27 ==> r8 == 0xFF78A6) &&
        (b == 28 ==> r8 == 0x00A882) && (b == 29 ==> r8 == 0xFF5C8B) &&
        (b == 30 ==> r8 == 0x00B499) && (b == 31 ==> r8 == 0xFF4090) &&
        (b == 32 ==> r8 == 0x01C1B0) && (b == 33 ==> r8 == 0xFE35B9) &&
        (b == 34 ==> r8 == 0x01DDAB) && (b == 35 ==> r8 == 0xFE29A2) &&
        (b == 36 ==> r8 == 0x01F986) && (b == 37 ==> r8 == 0xFE0D8F) &&
        (b == 38 ==> r8 == 0x01E59D) && (b == 39 ==> r8 == 0xFE1194) &&
        (b == 40 ==> r8 == 0x01B1DC) && (b == 41 ==> r8 == 0xFE45D5) &&
        (b == 42 ==> r8 == 0x01ADC7) && (b == 43 ==> r8 == 0xFE59CE) &&
        (b == 44 ==> r8 == 0x0189EA) && (b == 45 ==> r8 == 0xFE7DE3) &&
        (b == 46 ==> r8 == 0x0195F1) && (b == 47 ==> r8 == 0xFE61F8) &&
        (b == 48 ==> r8 == 0x012168) && (b == 49 ==> r8 == 0xFED561) &&
        (b == 50 ==> r8 == 0x013D73) && (b == 51 ==> r8 == 0xFEC97A) &&
        (b == 52 ==> r8 == 0x01195E) && (b == 53 ==> r8 == 0xFEED57) &&
        (b == 54 ==> r8 == 0x010545) && (b == 55 ==> r8 == 0xFEF14C) &&
        (b == 56 ==> r8 == 0x015104) && (b == 57 ==> r8 == 0xFEA50D) &&
        (b == 58 ==> r8 == 0x014D1F) && (b == 59 ==> r8 == 0xFEB916) &&
        (b == 60 ==> r8 == 0x016932) && (b == 61 ==> r8 == 0xFE9D3B) &&
        (b == 62 ==> r8 == 0x017529) && (b == 63 ==> r8 == 0xFE8120) &&
        (b == 64 ==> r8 == 0x038360) && (b == 65 ==> r8 == 0xFC7769) &&
        (b == 66 ==> r8 == 0x039F7B) && (b == 67 ==> r8 == 0xFC6B72) &&
        (b == 68 ==> r8 == 0x03BB56) && (b == 69 ==> r8 == 0xFC4F5F) &&
        (b == 70 ==> r8 == 0x03A74D) && (b == 71 ==> r8 == 0xFC5344) &&
        (b == 72 ==> r8 == 0x03F30C) && (b == 73 ==> r8 == 0xFC0705) &&
        (b == 74 ==> r8 == 0x03EF17) && (b == 75 ==> r8 == 0xFC1B1E) &&
        (b == 76 ==> r8 == 0x03CB3A) && (b == 77 ==> r8 == 0xFC3F33) &&
        (b == 78 ==> r8 == 0x03D721) && (b == 79 ==> r8 == 0xFC2328) &&
        (b == 80 ==> r8 == 0x0363B8) && (b == 81 ==> r8 == 0xFC97B1) &&
        (b == 82 ==> r8 == 0x037FA3) && (b == 83 ==> r8 == 0xFC8BAA) &&
        (b == 84 ==> r8 == 0x035B8E) && (b == 85 ==> r8 == 0xFCAF87) &&
        (b == 86 ==> r8 == 0x034795) && (b == 87 ==> r8 == 0xFCB39C) &&
        (b == 88 ==> r8 == 0x0313D4) && (b == 89 ==> r8 == 0xFCE7DD) &&
        (b == 90 ==> r8 == 0x030FCF) && (b == 91 ==> r8 == 0xFCFBC6) &&
        (b == 92 ==> r8 == 0x032BE2) && (b == 93 ==> r8 == 0xFCDFEB) &&
        (b == 94 ==> r8 == 0x0337F9) && (b == 95 ==> r8 == 0xFCC3F0) &&
        (b == 96 ==> r8 == 0x0242D0) && (b == 97 ==> r8 == 0xFDB6D9) &&
        (b == 98 ==> r8 == 0x025ECB) && (b == 99 ==> r8 == 0xFDAAC2) &&
        (b == 100 ==> r8 == 0x027AE6) && (b == 101 ==> r8 == 0xFD8EEF) &&
        (b == 102 ==> r8 == 0x0266FD) && (b == 103 ==> r8 == 0xFD92F4) &&
        (b == 104 ==> r8 == 0x0232BC) && (b == 105 ==> r8 == 0xFDC6B5) &&
        (b == 106 ==> r8 == 0x022EA7) && (b == 107 ==> r8 == 0xFDDAAE) &&
        (b == 108 ==> r8 == 0x020A8A) && (b == 109 ==> r8 == 0xFDFE83) &&
        (b == 110 ==> r8 == 0x021691) && (b == 111 ==> r8 == 0xFDE298) &&
        (b == 112 ==> r8 == 0x02A208) && (b == 113 ==> r8 == 0xFD5601) &&
        (b == 114 ==> r8 == 0x02BE13) && (b == 115 ==> r8 == 0xFD4A1A) &&
        (b == 116 ==> r8 == 0x029A3E) && (b == 117 ==> r8 == 0xFD6E37) &&
        (b == 118 ==> r8 == 0x028625) && (b == 119 ==> r8 == 0xFD722C) &&
        (b == 120 ==> r8 == 0x02D264) && (b == 121 ==> r8 == 0xFD266D) &&
        (b == 122 ==> r8 == 0x02CE7F) && (b == 123 ==> r8 == 0xFD3A76) &&
        (b == 124 ==> r8 == 0x02EA52) && (b == 125 ==> r8 == 0xFD1E5B) &&
        (b == 126 ==> r8 == 0x02F649) && (b == 127 ==> r8 == 0xFD0240) &&
        (b == 128 ==> r8 == 0x0706C0) && (b == 129 ==> r8 == 0xF8F2C9) &&
        (b == 130 ==> r8 == 0x071ADB) && (b == 131 ==> r8 == 0xF8EED2) &&
        (b == 132 ==> r8 == 0x073EF6) && (b == 133 ==> r8 == 0xF8CAFF) &&
        (b == 134 ==> r8 == 0x0722ED) && (b == 135 ==> r8 == 0xF8D6E4) &&
        (b == 136 ==> r8 == 0x0776AC) && (b == 137 ==> r8 == 0xF882A5) &&
        (b == 138 ==> r8 == 0x076AB7) && (b == 139 ==> r8 == 0xF89EBE) &&
        (b == 140 ==> r8 == 0x074E9A) && (b == 141 ==> r8 == 0xF8BA93) &&
        (b == 142 ==> r8 == 0x075281) && (b == 143 ==> r8 == 0xF8A688) &&
        (b == 144 ==> r8 == 0x07E618) && (b == 145 ==> r8 == 0xF81211) &&
        (b == 146 ==> r8 == 0x07FA03) && (b == 147 ==> r8 == 0xF80E0A) &&
        (b == 148 ==> r8 == 0x07DE2E) && (b == 149 ==> r8 == 0xF82A27) &&
        (b == 150 ==> r8 == 0x07C235) && (b == 151 ==> r8 == 0xF8363C) &&
        (b == 152 ==> r8 == 0x079674) && (b == 153 ==> r8 == 0xF8627D) &&
        (b == 154 ==> r8 == 0x078A6F) && (b == 155 ==> r8 == 0xF87E66) &&
        (b == 156 ==> r8 == 0x07AE42) && (b == 157 ==> r8 == 0xF85A4B) &&
        (b == 158 ==> r8 == 0x07B259) && (b == 159 ==> r8 == 0xF84650) &&
        (b == 160 ==> r8 == 0x06C770) && (b == 161 ==> r8 == 0xF93379) &&
        (b == 162 ==> r8 == 0x06DB6B) && (b == 163 ==> r8 == 0xF92F62) &&
        (b == 164 ==> r8 == 0x06FF46) && (b == 165 ==> r8 == 0xF90B4F) &&
        (b == 166 ==> r8 == 0x06E35D) && (b == 167 ==> r8 == 0xF91754) &&
        (b == 168 ==> r8 == 0x06B71C) && (b == 169 ==> r8 == 0xF94315) &&
        (b == 170 ==> r8 == 0x06AB07) && (b == 171 ==> r8 == 0xF95F0E) &&
        (b == 172 ==> r8 == 0x068F2A) && (b == 173 ==> r8 == 0xF97B23) &&
        (b == 174 ==> r8 == 0x069331) && (b == 175 ==> r8 == 0xF96738) &&
        (b == 176 ==> r8 == 0x0627A8) && (b == 177 ==> r8 == 0xF9D3A1) &&
        (b == 178 ==> r8 == 0x063BB3) && (b == 179 ==> r8 == 0xF9CFBA) &&
        (b == 180 ==> r8 == 0x061F9E) && (b == 181 ==> r8 == 0xF9EB97) &&
        (b == 182 ==> r8 == 0x060385) && (b == 183 ==> r8 == 0xF9F78C) &&
        (b == 184 ==> r8 == 0x0657C4) && (b == 185 ==> r8 == 0xF9A3CD) &&
        (b == 186 ==> r8 == 0x064BDF) && (b == 187 ==> r8 == 0xF9BFD6) &&
        (b == 188 ==> r8 == 0x066FF2) && (b == 189 ==> r8 == 0xF99BFB) &&
        (b == 190 ==> r8 == 0x0673E9) && (b == 191 ==> r8 == 0xF987E0) &&
        (b == 192 ==> r8 == 0x0485A0) && (b == 193 ==> r8 == 0xFB71A9) &&
        (b == 194 ==> r8 == 0x0499BB) && (b == 195 ==> r8 == 0xFB6DB2) &&
        (b == 196 ==> r8 == 0x04BD96) && (b == 197 ==> r8 == 0xFB499F) &&
        (b == 198 ==> r8 == 0x04A18D) && (b == 199 ==> r8 == 0xFB5584) &&
        (b == 200 ==> r8 == 0x04F5CC) && (b == 201 ==> r8 == 0xFB01C5) &&
        (b == 202 ==> r8 == 0x04E9D7) && (b == 203 ==> r8 == 0xFB1DDE) &&
        (b == 204 ==> r8 == 0x04CDFA) && (b == 205 ==> r8 == 0xFB39F3) &&
        (b == 206 ==> r8 == 0x04D1E1) && (b == 207 ==> r8 == 0xFB25E8) &&
        (b == 208 ==> r8 == 0x046578) && (b == 209 ==> r8 == 0xFB9171) &&
        (b == 210 ==> r8 == 0x047963) && (b == 211 ==> r8 == 0xFB8D6A) &&
        (b == 212 ==> r8 == 0x045D4E) && (b == 213 ==> r8 == 0xFBA947) &&
        (b == 214 ==> r8 == 0x044155) && (b == 215 ==> r8 == 0xFBB55C) &&
        (b == 216 ==> r8 == 0x041514) && (b == 217 ==> r8 == 0xFBE11D) &&
        (b == 218 ==> r8 == 0x04090F) && (b == 219 ==> r8 == 0xFBFD06) &&
        (b == 220 ==> r8 == 0x042D22) && (b == 221 ==> r8 == 0xFBD92B) &&
        (b == 222 ==> r8 == 0x043139) && (b == 223 ==> r8 == 0xFBC530) &&
        (b == 224 ==> r8 == 0x054410) && (b == 225 ==> r8 == 0xFAB019) &&
        (b == 226 ==> r8 == 0x05580B) && (b == 227 ==> r8 == 0xFAAC02) &&
        (b == 228 ==> r8 == 0x057C26) && (b == 229 ==> r8 == 0xFA882F) &&
        (b == 230 ==> r8 == 0x05603D) && (b == 231 ==> r8 == 0xFA9434) &&
        (b == 232 ==> r8 == 0x05347C) && (b == 233 ==> r8 == 0xFAC075) &&
        (b == 234 ==> r8 == 0x052867) && (b == 235 ==> r8 == 0xFADC6E) &&
        (b == 236 ==> r8 == 0x050C4A) && (b == 237 ==> r8 == 0xFAF843) &&
        (b == 238 ==> r8 == 0x051051) && (b == 239 ==> r8 == 0xFAE458) &&
        (b == 240 ==> r8 == 0x05A4C8) && (b == 241 ==> r8 == 0xFA50C1) &&
        (b == 242 ==> r8 == 0x05B8D3) && (b == 243 ==> r8 == 0xFA4CDA) &&
        (b == 244 ==> r8 == 0x059CFE) && (b == 245 ==> r8 == 0xFA68F7) &&
        (b == 246 ==> r8 == 0x0580E5) && (b == 247 ==> r8 == 0xFA74EC) &&
        (b == 248 ==> r8 == 0x05D4A4) && (b == 249 ==> r8 == 0xFA20AD) &&
        (b == 250 ==> r8 == 0x05C8BF) && (b == 251 ==> r8 == 0xFA3CB6) &&
        (b == 252 ==> r8 == 0x05EC92) && (b == 253 ==> r8 == 0xFA189B) &&
        (b == 254 ==> r8 == 0x05F089) && (b == 255 ==> r8 == 0xFA0480)
    ) by (bit_vector)
        requires
            b < 256,
            r8 == (
                (if b & 0x01 != 0 { 0xFFF409u32 } else { 0u32 })
                ^ (if b & 0x02 != 0 { 0x001C1Bu32 } else { 0u32 })
                ^ (if b & 0x04 != 0 { 0x003836u32 } else { 0u32 })
                ^ (if b & 0x08 != 0 { 0x00706Cu32 } else { 0u32 })
                ^ (if b & 0x10 != 0 { 0x00E0D8u32 } else { 0u32 })
                ^ (if b & 0x20 != 0 { 0x01C1B0u32 } else { 0u32 })
                ^ (if b & 0x40 != 0 { 0x038360u32 } else { 0u32 })
                ^ (if b & 0x80 != 0 { 0x0706C0u32 } else { 0u32 })
            ),
    ;
}

/// Each syndrome of the long table is one step from the next one.
proof fn lemma_syndrome_step(i: int)
    requires
        0 <= i < 111,
    ensures
        SYNDROME_LONG@[i] == crc_step(SYNDROME_LONG@[i + 1]),
{
    let x = SYNDROME_LONG@[i + 1];
    let y = crc_step(x);
    assert(
        (x == 0x0B60CF ==> y == 0x16C19E) && (x == 0xFA4A63 ==> y == 0x0B60CF) &&
        (x == 0x82DF35 ==> y == 0xFA4A63) && (x == 0xBE959E ==> y == 0x82DF35) &&
        (x == 0x5F4ACF ==> y == 0xBE959E) && (x == 0xD05F63 ==> y == 0x5F4ACF) &&
        (x == 0x97D5B5 ==> y == 0xD05F63) && (x == 0xB410DE ==> y == 0x97D5B5) &&
        (x == 0x5A086F ==> y == 0xB410DE) && (x == 0xD2FE33 ==> y == 0x5A086F) &&
        (x == 0x96851D ==> y == 0xD2FE33) && (x == 0xB4B88A ==> y == 0x96851D) &&
        (x == 0x5A5C45 ==> y == 0xB4B88A) && (x == 0xD2D426 ==> y == 0x5A5C45) &&
        (x == 0x696A13 ==> y == 0xD2D426) && (x == 0xCB4F0D ==> y == 0x696A13) &&
        (x == 0x9A5D82 ==> y == 0xCB4F0D) && (x == 0x4D2EC1 ==> y == 0x9A5D82) &&
        (x == 0xD96D64 ==> y == 0x4D2EC1) && (x == 0x6CB6B2 ==> y == 0xD96D64) &&
        (x == 0x365B59 ==> y == 0x6CB6B2) && (x == 0xE4D7A8 ==> y == 0x365B59) &&
        (x == 0x726BD4 ==> y == 0xE4D7A8) && (x == 0x3935EA ==> y == 0x726BD4) &&
        (x == 0x1C9AF5 ==> y == 0x3935EA) && (x == 0xF1B77E ==> y == 0x1C9AF5) &&
        (x == 0x78DBBF ==> y == 0xF1B77E) && (x == 0xC397DB ==> y == 0x78DBBF) &&
        (x == 0x9E31E9 ==> y == 0xC397DB) && (x == 0xB0E2F0 ==> y == 0x9E31E9) &&
        (x == 0x587178 ==> y == 0xB0E2F0) && (x == 0x2C38BC ==> y == 0x587178) &&
        (x == 0x161C5E ==> y == 0x2C38BC) && (x == 0x0B0E2F ==> y == 0x161C5E) &&
        (x == 0xFA7D13 ==> y == 0x0B0E2F) && (x == 0x82C48D ==> y == 0xFA7D13) &&
        (x == 0xBE9842 ==> y == 0x82C48D) && (x == 0x5F4C21 ==> y == 0xBE9842) &&
        (x == 0xD05C14 ==> y == 0x5F4C21) && (x == 0x682E0A ==> y == 0xD05C14) &&
        (x == 0x341705 ==> y == 0x682E0A) && (x == 0xE5F186 ==> y == 0x341705) &&
        (x == 0x72F8C3 ==> y == 0xE5F186) && (x == 0xC68665 ==> y == 0x72F8C3) &&
        (x == 0x9CB936 ==> y == 0xC68665) && (x == 0x4E5C9B ==> y == 0x9CB936) &&
        (x == 0xD8D449 ==> y == 0x4E5C9B) && (x == 0x939020 ==> y == 0xD8D449) &&
        (x == 0x49C810 ==> y == 0x939020) && (x == 0x24E408 ==> y == 0x49C810) &&
        (x == 0x127204 ==> y == 0x24E408) && (x == 0x093902 ==> y == 0x127204) &&
        (x == 0x049C81 ==> y == 0x093902) && (x == 0xFDB444 ==> y == 0x049C81) &&
        (x == 0x7EDA22 ==> y == 0xFDB444) && (x == 0x3F6D11 ==> y == 0x7EDA22) &&
        (x == 0xE04C8C ==> y == 0x3F6D11) && (x == 0x702646 ==> y == 0xE04C8C) &&
        (x == 0x381323 ==> y == 0x702646) && (x == 0xE3F395 ==> y == 0x381323) &&
        (x == 0x8E03CE ==> y == 0xE3F395) && (x == 0x4701E7 ==> y == 0x8E03CE) &&
        (x == 0xDC7AF7 ==> y == 0x4701E7) && (x == 0x91C77F ==> y == 0xDC7AF7) &&
        (x == 0xB719BB ==> y == 0x91C77F) && (x == 0xA476D9 ==> y == 0xB719BB) &&
        (x == 0xADC168 ==> y == 0xA476D9) && (x == 0x56E0B4 ==> y == 0xADC168) &&
        (x == 0x2B705A ==> y == 0x56E0B4) && (x == 0x15B82D ==> y == 0x2B705A) &&
        (x == 0xF52612 ==> y == 0x15B82D) && (x == 0x7A9309 ==> y == 0xF52612) &&
        (x == 0xC2B380 ==> y == 0x7A9309) && (x == 0x6159C0 ==> y == 0xC2B380) &&
        (x == 0x30ACE0 ==> y == 0x6159C0) && (x == 0x185670 ==> y == 0x30ACE0) &&
        (x == 0x0C2B38 ==> y == 0x185670) && (x == 0x06159C ==> y == 0x0C2B38) &&
        (x == 0x030ACE ==> y == 0x06159C) && (x == 0x018567 ==> y == 0x030ACE) &&
        (x == 0xFF38B7 ==> y == 0x018567) && (x == 0x80665F ==> y == 0xFF38B7) &&
        (x == 0xBFC92B ==> y == 0x80665F) && (x == 0xA01E91 ==> y == 0xBFC92B) &&
        (x == 0xAFF54C ==> y == 0xA01E91) && (x == 0x57FAA6 ==> y == 0xAFF54C) &&
        (x == 0x2BFD53 ==> y == 0x57FAA6) && (x == 0xEA04AD ==> y == 0x2BFD53) &&
        (x == 0x8AF852 ==> y == 0xEA04AD) && (x == 0x457C29 ==> y == 0x8AF852) &&
        (x == 0xDD4410 ==> y == 0x457C29) && (x == 0x6EA208 ==> y == 0xDD4410) &&
        (x == 0x375104 ==> y == 0x6EA208) && (x == 0x1BA882 ==> y == 0x375104) &&
        (x == 0x0DD441 ==> y == 0x1BA882) && (x == 0xF91024 ==> y == 0x0DD441) &&
        (x == 0x7C8812 ==> y == 0xF91024) && (x == 0x3E4409 ==> y == 0x7C8812) &&
        (x == 0xE0D800 ==> y == 0x3E4409) && (x == 0x706C00 ==> y == 0xE0D800) &&
        (x == 0x383600 ==> y == 0x706C00) && (x == 0x1C1B00 ==> y == 0x383600) &&
        (x == 0x0E0D80 ==> y == 0x1C1B00) && (x == 0x0706C0 ==> y == 0x0E0D80) &&
        (x == 0x038360 ==> y == 0x0706C0) && (x == 0x01C1B0 ==> y == 0x038360) &&
        (x == 0x00E0D8 ==> y == 0x01C1B0) && (x == 0x00706C ==> y == 0x00E0D8) &&
        (x == 0x003836 ==> y == 0x00706C) && (x == 0x001C1B ==> y == 0x003836) &&
        (x == 0xFFF409 ==> y == 0x001C1B)
    ) by (bit_vector)
        requires
            y == if x & 0x0080_0000 != 0 { ((x << 1) ^ 0x00FF_F409) & 0x00FF_FFFF } else { (x << 1) & 0x00FF_FFFF },
    ;
}

/// Entry `i` of the long table is the register after a single one bit and the
/// `111 - i` zero bits behind it.
pub proof fn lemma_syndrome_long(i: int)
    requires
        0 <= i < 112,
    ensures
        SYNDROME_LONG@[i] == crc_steps(0x0080_0000, (112 - i) as nat),
    decreases 112 - i,
{
    if i == 111 {
        reveal_with_fuel(crc_steps, 2);
        let x: u32 = 0x0080_0000;
        assert((if x & 0x0080_0000 != 0 { ((x << 1) ^ 0x00FF_F409) & 0x00FF_FFFF } else { (x << 1) & 0x00FF_FFFF }) == 0x00FF_F409) by (bit_vector)
            requires
                x == 0x0080_0000u32,
        ;
    } else {
        lemma_syndrome_long(i + 1);
        lemma_syndrome_step(i);
    }
}

/// The short table is the second half of the long one.
pub proof fn lemma_syndrome_short(i: int)
    requires
        0 <= i < 56,
    ensures
        SYNDROME_SHORT@[i] == crc_steps(0x0080_0000, (56 - i) as nat),
{
    lemma_syndrome_long(i + 56);
    assert(SYNDROME_SHORT@[i] == SYNDROME_LONG@[i + 56]);
}

/// The register does not come back to a single leading one within 111 steps.
pub proof fn lemma_no_short_cycle(n: nat)
    requires
        1 <= n <= 111,
    ensures
        crc_steps(0x0080_0000, n) != 0x0080_0000,
{
    lemma_syndrome_long(112 - n);
    let i = 112 - n;
    assert(SYNDROME_LONG@[i] != 0x0080_0000);
}

} // verus!

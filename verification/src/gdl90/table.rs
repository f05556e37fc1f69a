//! The CRC-16 table, and the proof that every entry is what the shift register
//! computes.

use super::{crc16_step, crc16_steps};
use vstd::prelude::*;

verus! {

/// `CRC_TABLE[b]` is the remainder left by feeding byte `b` into an all-zero
/// register.
pub const CRC_TABLE: [u16; 256] = [
    0x0000, 0x1021, 0x2042, 0x3063, 0x4084, 0x50A5, 0x60C6, 0x70E7, 0x8108, 0x9129, 0xA14A, 0xB16B,
    0xC18C, 0xD1AD, 0xE1CE, 0xF1EF, 0x1231, 0x0210, 0x3273, 0x2252, 0x52B5, 0x4294, 0x72F7, 0x62D6,
    0x9339, 0x8318, 0xB37B, 0xA35A, 0xD3BD, 0xC39C, 0xF3FF, 0xE3DE, 0x2462, 0x3443, 0x0420, 0x1401,
    0x64E6, 0x74C7, 0x44A4, 0x5485, 0xA56A, 0xB54B, 0x8528, 0x9509, 0xE5EE, 0xF5CF, 0xC5AC, 0xD58D,
    0x3653, 0x2672, 0x1611, 0x0630, 0x76D7, 0x66F6, 0x5695, 0x46B4, 0xB75B, 0xA77A, 0x9719, 0x8738,
    0xF7DF, 0xE7FE, 0xD79D, 0xC7BC, 0x48C4, 0x58E5, 0x6886, 0x78A7, 0x0840, 0x1861, 0x2802, 0x3823,
    0xC9CC, 0xD9ED, 0xE98E, 0xF9AF, 0x8948, 0x9969, 0xA90A, 0xB92B, 0x5AF5, 0x4AD4, 0x7AB7, 0x6A96,
    0x1A71, 0x0A50, 0x3A33, 0x2A12, 0xDBFD, 0xCBDC, 0xFBBF, 0xEB9E, 0x9B79, 0x8B58, 0xBB3B, 0xAB1A,
    0x6CA6, 0x7C87, 0x4CE4, 0x5CC5, 0x2C22, 0x3C03, 0x0C60, 0x1C41, 0xEDAE, 0xFD8F, 0xCDEC, 0xDDCD,
    0xAD2A, 0xBD0B, 0x8D68, 0x9D49, 0x7E97, 0x6EB6, 0x5ED5, 0x4EF4, 0x3E13, 0x2E32, 0x1E51, 0x0E70,
    0xFF9F, 0xEFBE, 0xDFDD, 0xCFFC, 0xBF1B, 0xAF3A, 0x9F59, 0x8F78, 0x9188, 0x81A9, 0xB1CA, 0xA1EB,
    0xD10C, 0xC12D, 0xF14E, 0xE16F, 0x1080, 0x00A1, 0x30C2, 0x20E3, 0x5004, 0x4025, 0x7046, 0x6067,
    0x83B9, 0x9398, 0xA3FB, 0xB3DA, 0xC33D, 0xD31C, 0xE37F, 0xF35E, 0x02B1, 0x1290, 0x22F3, 0x32D2,
    0x4235, 0x5214, 0x6277, 0x7256, 0xB5EA, 0xA5CB, 0x95A8, 0x8589, 0xF56E, 0xE54F, 0xD52C, 0xC50D,
    0x34E2, 0x24C3, 0x14A0, 0x0481, 0x7466, 0x6447, 0x5424, 0x4405, 0xA7DB, 0xB7FA, 0x8799, 0x97B8,
    0xE75F, 0xF77E, 0xC71D, 0xD73C, 0x26D3, 0x36F2, 0x0691, 0x16B0, 0x6657, 0x7676, 0x4615, 0x5634,
    0xD94C, 0xC96D, 0xF90E, 0xE92F, 0x99C8, 0x89E9, 0xB98A, 0xA9AB, 0x5844, 0x4865, 0x7806, 0x6827,
    0x18C0, 0x08E1, 0x3882, 0x28A3, 0xCB7D, 0xDB5C, 0xEB3F, 0xFB1E, 0x8BF9, 0x9BD8, 0xABBB, 0xBB9A,
    0x4A75, 0x5A54, 0x6A37, 0x7A16, 0x0AF1, 0x1AD0, 0x2AB3, 0x3A92, 0xFD2E, 0xED0F, 0xDD6C, 0xCD4D,
    0xBDAA, 0xAD8B, 0x9DE8, 0x8DC9, 0x7C26, 0x6C07, 0x5C64, 0x4C45, 0x3CA2, 0x2C83, 0x1CE0, 0x0CC1,
    0xEF1F, 0xFF3E, 0xCF5D, 0xDF7C, 0xAF9B, 0xBFBA, 0x8FD9, 0x9FF8, 0x6E17, 0x7E36, 0x4E55, 0x5E74,
    0x2E93, 0x3EB2, 0x0ED1, 0x1EF0,
];

/// Eight steps from `b << 8` are a linear function of the bits of `b`, and every
/// entry of [`CRC_TABLE`] is the value of that function.
#[verifier::rlimit(100)]
pub proof fn lemma_crc_table(b: u16)
    requires
        b < 256,
    ensures
        CRC_TABLE@[b as int] == crc16_steps(b << 8, 8),
{
    reveal_with_fuel(crc16_steps, 9);
    let r0: u16 = b << 8;
    let r1 = crc16_step(r0);
    let r2 = crc16_step(r1);
    let r3 = crc16_step(r2);
    let r4 = crc16_step(r3);
    let r5 = crc16_step(r4);
    let r6 = crc16_step(r5);
    let r7 = crc16_step(r6);
    let r8 = crc16_step(r7);
    assert(r8 == (
                (if b & 0x01 != 0 { 0x1021u16 } else { 0u16 })
                ^ (if b & 0x02 != 0 { 0x2042u16 } else { 0u16 })
                ^ (if b & 0x04 != 0 { 0x4084u16 } else { 0u16 })
                ^ (if b & 0x08 != 0 { 0x8108u16 } else { 0u16 })
                ^ (if b & 0x10 != 0 { 0x1231u16 } else { 0u16 })
                ^ (if b & 0x20 != 0 { 0x2462u16 } else { 0u16 })
                ^ (if b & 0x40 != 0 { 0x48C4u16 } else { 0u16 })
                ^ (if b & 0x80 != 0 { 0x9188u16 } else { 0u16 })
            )) by (bit_vector)
        requires
            b < 256,
            r0 == b << 8,
            r1 == if r0 & 0x8000 != 0 { (r0 << 1) ^ 0x1021 } else { r0 << 1 },
            r2 == if r1 & 0x8000 != 0 { (r1 << 1) ^ 0x1021 } else { r1 << 1 },
            r3 == if r2 & 0x8000 != 0 { (r2 << 1) ^ 0x1021 } else { r2 << 1 },
            r4 == if r3 & 0x8000 != 0 { (r3 << 1) ^ 0x1021 } else { r3 << 1 },
            r5 == if r4 & 0x8000 != 0 { (r4 << 1) ^ 0x1021 } else { r4 << 1 },
            r6 == if r5 & 0x8000 != 0 { (r5 << 1) ^ 0x1021 } else { r5 << 1 },
            r7 == if r6 & 0x8000 != 0 { (r6 << 1) ^ 0x1021 } else { r6 << 1 },
            r8 == if r7 & 0x8000 != 0 { (r7 << 1) ^ 0x1021 } else { r7 << 1 },
    ;
    assert(
        (b == 0 ==> r8 == 0x0000) && (b == 1 ==> r8 == 0x1021) &&
        (b == 2 ==> r8 == 0x2042) && (b == 3 ==> r8 == 0x3063) &&
        (b == 4 ==> r8 == 0x4084) && (b == 5 ==> r8 == 0x50A5) &&
        (b == 6 ==> r8 == 0x60C6) && (b == 7 ==> r8 == 0x70E7) &&
        (b == 8 ==> r8 == 0x8108) && (b == 9 ==> r8 == 0x9129) &&
        (b == 10 ==> r8 == 0xA14A) && (b == 11 ==> r8 == 0xB16B) &&
        (b == 12 ==> r8 == 0xC18C) && (b == 13 ==> r8 == 0xD1AD) &&
        (b == 14 ==> r8 == 0xE1CE) && (b == 15 ==> r8 == 0xF1EF) &&
        (b == 16 ==> r8 == 0x1231) && (b == 17 ==> r8 == 0x0210) &&
        (b == 18 ==> r8 == 0x3273) && (b == 19 ==> r8 == 0x2252) &&
        (b == 20 ==> r8 == 0x52B5) && (b == 21 ==> r8 == 0x4294) &&
        (b == 22 ==> r8 == 0x72F7) && (b == 23 ==> r8 == 0x62D6) &&
        (b == 24 ==> r8 == 0x9339) && (b == 25 ==> r8 == 0x8318) &&
        (b == 26 ==> r8 == 0xB37B) && (b == 27 ==> r8 == 0xA35A) &&
        (b == 28 ==> r8 == 0xD3BD) && (b == 29 ==> r8 == 0xC39C) &&
        (b == 30 ==> r8 == 0xF3FF) && (b == 31 ==> r8 == 0xE3DE) &&
        (b == 32 ==> r8 == 0x2462) && (b == 33 ==> r8 == 0x3443) &&
        (b == 34 ==> r8 == 0x0420) && (b == 35 ==> r8 == 0x1401) &&
        (b == 36 ==> r8 == 0x64E6) && (b == 37 ==> r8 == 0x74C7) &&
        (b == 38 ==> r8 == 0x44A4) && (b == 39 ==> r8 == 0x5485) &&
        (b == 40 ==> r8 == 0xA56A) && (b == 41 ==> r8 == 0xB54B) &&
        (b == 42 ==> r8 == 0x8528) && (b == 43 ==> r8 == 0x9509) &&
        (b == 44 ==> r8 == 0xE5EE) && (b == 45 ==> r8 == 0xF5CF) &&
        (b == 46 ==> r8 == 0xC5AC) && (b == 47 ==> r8 == 0xD58D) &&
        (b == 48 ==> r8 == 0x3653) && (b == 49 ==> r8 == 0x2672) &&
        (b == 50 ==> r8 == 0x1611) && (b == 51 ==> r8 == 0x0630) &&
        (b == 52 ==> r8 == 0x76D7) && (b == 53 ==> r8 == 0x66F6) &&
        (b == 54 ==> r8 == 0x5695) && (b == 55 ==> r8 == 0x46B4) &&
        (b == 56 ==> r8 == 0xB75B) && (b == 57 ==> r8 == 0xA77A) &&
        (b == 58 ==> r8 == 0x9719) && (b == 59 ==> r8 == 0x8738) &&
        (b == 60 ==> r8 == 0xF7DF) && (b == 61 ==> r8 == 0xE7FE) &&
        (b == 62 ==> r8 == 0xD79D) && (b == 63 ==> r8 == 0xC7BC) &&
        (b == 64 ==> r8 == 0x48C4) && (b == 65 ==> r8 == 0x58E5) &&
        (b == 66 ==> r8 == 0x6886) && (b == 67 ==> r8 == 0x78A7) &&
        (b == 68 ==> r8 == 0x0840) && (b == 69 ==> r8 == 0x1861) &&
        (b == 70 ==> r8 == 0x2802) && (b == 71 ==> r8 == 0x3823) &&
        (b == 72 ==> r8 == 0xC9CC) && (b == 73 ==> r8 == 0xD9ED) &&
        (b == 74 ==> r8 == 0xE98E) && (b == 75 ==> r8 == 0xF9AF) &&
        (b == 76 ==> r8 == 0x8948) && (b == 77 ==> r8 == 0x9969) &&
        (b == 78 ==> r8 == 0xA90A) && (b == 79 ==> r8 == 0xB92B) &&
        (b == 80 ==> r8 == 0x5AF5) && (b == 81 ==> r8 == 0x4AD4) &&
        (b == 82 ==> r8 == 0x7AB7) && (b == 83 ==> r8 == 0x6A96) &&
        (b == 84 ==> r8 == 0x1A71) && (b == 85 ==> r8 == 0x0A50) &&
        (b == 86 ==> r8 == 0x3A33) && (b == 87 ==> r8 == 0x2A12) &&
        (b == 88 ==> r8 == 0xDBFD) && (b == 89 ==> r8 == 0xCBDC) &&
        (b == 90 ==> r8 == 0xFBBF) && (b == 91 ==> r8 == 0xEB9E) &&
        (b == 92 ==> r8 == 0x9B79) && (b == 93 ==> r8 == 0x8B58) &&
        (b == 94 ==> r8 == 0xBB3B) && (b == 95 ==> r8 == 0xAB1A) &&
        (b == 96 ==> r8 == 0x6CA6) && (b == 97 ==> r8 == 0x7C87) &&
        (b == 98 ==> r8 == 0x4CE4) && (b == 99 ==> r8 == 0x5CC5) &&
        (b == 100 ==> r8 == 0x2C22) && (b == 101 ==> r8 == 0x3C03) &&
        (b == 102 ==> r8 == 0x0C60) && (b == 103 ==> r8 == 0x1C41) &&
        (b == 104 ==> r8 == 0xEDAE) && (b == 105 ==> r8 == 0xFD8F) &&
        (b == 106 ==> r8 == 0xCDEC) && (b == 107 ==> r8 == 0xDDCD) &&
        (b == 108 ==> r8 == 0xAD2A) && (b == 109 ==> r8 == 0xBD0B) &&
        (b == 110 ==> r8 == 0x8D68) && (b == 111 ==> r8 == 0x9D49) &&
        (b == 112 ==> r8 == 0x7E97) && (b == 113 ==> r8 == 0x6EB6) &&
        (b == 114 ==> r8 == 0x5ED5) && (b == 115 ==> r8 == 0x4EF4) &&
        (b == 116 ==> r8 == 0x3E13) && (b == 117 ==> r8 == 0x2E32) &&
        (b == 118 ==> r8 == 0x1E51) && (b == 119 ==> r8 == 0x0E70) &&
        (b == 120 ==> r8 == 0xFF9F) && (b == 121 ==> r8 == 0xEFBE) &&
        (b == 122 ==> r8 == 0xDFDD) && (b == 123 ==> r8 == 0xCFFC) &&
        (b == 124 ==> r8 == 0xBF1B) && (b == 125 ==> r8 == 0xAF3A) &&
        (b == 126 ==> r8 == 0x9F59) && (b == 127 ==> r8 == 0x8F78) &&
        (b == 128 ==> r8 == 0x9188) && (b == 129 ==> r8 == 0x81A9) &&
        (b == 130 ==> r8 == 0xB1CA) && (b == 131 ==> r8 == 0xA1EB) &&
        (b == 132 ==> r8 == 0xD10C) && (b == 133 ==> r8 == 0xC12D) &&
        (b == 134 ==> r8 == 0xF14E) && (b == 135 ==> r8 == 0xE16F) &&
        (b == 136 ==> r8 == 0x1080) && (b == 137 ==> r8 == 0x00A1) &&
        (b == 138 ==> r8 == 0x30C2) && (b == 139 ==> r8 == 0x20E3) &&
        (b == 140 ==> r8 == 0x5004) && (b == 141 ==> r8 == 0x4025) &&
        (b == 142 ==> r8 == 0x7046) && (b == 143 ==> r8 == 0x6067) &&
        (b == 144 ==> r8 == 0x83B9) && (b == 145 ==> r8 == 0x9398) &&
        (b == 146 ==> r8 == 0xA3FB) && (b == 147 ==> r8 == 0xB3DA) &&
        (b == 148 ==> r8 == 0xC33D) && (b == 149 ==> r8 == 0xD31C) &&
        (b == 150 ==> r8 == 0xE37F) && (b == 151 ==> r8 == 0xF35E) &&
        (b == 152 ==> r8 == 0x02B1) && (b == 153 ==> r8 == 0x1290) &&
        (b == 154 ==> r8 == 0x22F3) && (b == 155 ==> r8 == 0x32D2) &&
        (b == 156 ==> r8 == 0x4235) && (b == 157 ==> r8 == 0x5214) &&
        (b == 158 ==> r8 == 0x6277) && (b == 159 ==> r8 == 0x7256) &&
        (b == 160 ==> r8 == 0xB5EA) && (b == 161 ==> r8 == 0xA5CB) &&
        (b == 162 ==> r8 == 0x95A8) && (b == 163 ==> r8 == 0x8589) &&
        (b == 164 ==> r8 == 0xF56E) && (b == 165 ==> r8 == 0xE54F) &&
        (b == 166 ==> r8 == 0xD52C) && (b == 167 ==> r8 == 0xC50D) &&
        (b == 168 ==> r8 == 0x34E2) && (b == 169 ==> r8 == 0x24C3) &&
        (b == 170 ==> r8 == 0x14A0) && (b == 171 ==> r8 == 0x0481) &&
        (b == 172 ==> r8 == 0x7466) && (b == 173 ==> r8 == 0x6447) &&
        (b == 174 ==> r8 == 0x5424) && (b == 175 ==> r8 == 0x4405) &&
        (b == 176 ==> r8 == 0xA7DB) && (b == 177 ==> r8 == 0xB7FA) &&
        (b == 178 ==> r8 == 0x8799) && (b == 179 ==> r8 == 0x97B8) &&
        (b == 180 ==> r8 == 0xE75F) && (b == 181 ==> r8 == 0xF77E) &&
        (b == 182 ==> r8 == 0xC71D) && (b == 183 ==> r8 == 0xD73C) &&
        (b == 184 ==> r8 == 0x26D3) && (b == 185 ==> r8 == 0x36F2) &&
        (b == 186 ==> r8 == 0x0691) && (b == 187 ==> r8 == 0x16B0) &&
        (b == 188 ==> r8 == 0x6657) && (b == 189 ==> r8 == 0x7676) &&
        (b == 190 ==> r8 == 0x4615) && (b == 191 ==> r8 == 0x5634) &&
        (b == 192 ==> r8 == 0xD94C) && (b == 193 ==> r8 == 0xC96D) &&
        (b == 194 ==> r8 == 0xF90E) && (b == 195 ==> r8 == 0xE92F) &&
        (b == 196 ==> r8 == 0x99C8) && (b == 197 ==> r8 == 0x89E9) &&
        (b == 198 ==> r8 == 0xB98A) && (b == 199 ==> r8 == 0xA9AB) &&
        (b == 200 ==> r8 == 0x5844) && (b == 201 ==> r8 == 0x4865) &&
        (b == 202 ==> r8 == 0x7806) && (b == 203 ==> r8 == 0x6827) &&
        (b == 204 ==> r8 == 0x18C0) && (b == 205 ==> r8 == 0x08E1) &&
        (b == 206 ==> r8 == 0x3882) && (b == 207 ==> r8 == 0x28A3) &&
        (b == 208 ==> r8 == 0xCB7D) && (b == 209 ==> r8 == 0xDB5C) &&
        (b == 210 ==> r8 == 0xEB3F) && (b == 211 ==> r8 == 0xFB1E) &&
        (b == 212 ==> r8 == 0x8BF9) && (b == 213 ==> r8 == 0x9BD8) &&
        (b == 214 ==> r8 == 0xABBB) && (b == 215 ==> r8 == 0xBB9A) &&
        (b == 216 ==> r8 == 0x4A75) && (b == 217 ==> r8 == 0x5A54) &&
        (b == 218 ==> r8 == 0x6A37) && (b == 219 ==> r8 == 0x7A16) &&
        (b == 220 ==> r8 == 0x0AF1) && (b == 221 ==> r8 == 0x1AD0) &&
        (b == 222 ==> r8 == 0x2AB3) && (b == 223 ==> r8 == 0x3A92) &&
        (b == 224 ==> r8 == 0xFD2E) && (b == 225 ==> r8 == 0xED0F) &&
        (b == 226 ==> r8 == 0xDD6C) && (b == 227 ==> r8 == 0xCD4D) &&
        (b == 228 ==> r8 == 0xBDAA) && (b == 229 ==> r8 == 0xAD8B) &&
        (b == 230 ==> r8 == 0x9DE8) && (b == 231 ==> r8 == 0x8DC9) &&
        (b == 232 ==> r8 == 0x7C26) && (b == 233 ==> r8 == 0x6C07) &&
        (b == 234 ==> r8 == 0x5C64) && (b == 235 ==> r8 == 0x4C45) &&
        (b == 236 ==> r8 == 0x3CA2) && (b == 237 ==> r8 == 0x2C83) &&
        (b == 238 ==> r8 == 0x1CE0) && (b == 239 ==> r8 == 0x0CC1) &&
        (b == 240 ==> r8 == 0xEF1F) && (b == 241 ==> r8 == 0xFF3E) &&
        (b == 242 ==> r8 == 0xCF5D) && (b == 243 ==> r8 == 0xDF7C) &&
        (b == 244 ==> r8 == 0xAF9B) && (b == 245 ==> r8 == 0xBFBA) &&
        (b == 246 ==> r8 == 0x8FD9) && (b == 247 ==> r8 == 0x9FF8) &&
        (b == 248 ==> r8 == 0x6E17) && (b == 249 ==> r8 == 0x7E36) &&
        (b == 250 ==> r8 == 0x4E55) && (b == 251 ==> r8 == 0x5E74) &&
        (b == 252 ==> r8 == 0x2E93) && (b == 253 ==> r8 == 0x3EB2) &&
        (b == 254 ==> r8 == 0x0ED1) && (b == 255 ==> r8 == 0x1EF0)
    ) by (bit_vector)
        requires
            b < 256,
            r8 == (
                (if b & 0x01 != 0 { 0x1021u16 } else { 0u16 })
                ^ (if b & 0x02 != 0 { 0x2042u16 } else { 0u16 })
                ^ (if b & 0x04 != 0 { 0x4084u16 } else { 0u16 })
                ^ (if b & 0x08 != 0 { 0x8108u16 } else { 0u16 })
                ^ (if b & 0x10 != 0 { 0x1231u16 } else { 0u16 })
                ^ (if b & 0x20 != 0 { 0x2462u16 } else { 0u16 })
                ^ (if b & 0x40 != 0 { 0x48C4u16 } else { 0u16 })
                ^ (if b & 0x80 != 0 { 0x9188u16 } else { 0u16 })
            ),
    ;
}

} // verus!

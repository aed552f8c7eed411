//! The words of the code for strings, each for itself, and how they fill bytes.

use crate::h2::hpack::huffman;
use vstd::prelude::*;

verus! {

/// The word for a symbol: its bits as a number, and how many there are.
#[verifier::opaque]
pub open spec fn code(symbol: u8) -> (int, int) {
    if symbol == 0 {
        (0x1ff8, 13)
    } else if symbol == 1 {
        (0x7fffd8, 23)
    } else if symbol == 2 {
        (0xfffffe2, 28)
    } else if symbol == 3 {
        (0xfffffe3, 28)
    } else if symbol == 4 {
        (0xfffffe4, 28)
    } else if symbol == 5 {
        (0xfffffe5, 28)
    } else if symbol == 6 {
        (0xfffffe6, 28)
    } else if symbol == 7 {
        (0xfffffe7, 28)
    } else if symbol == 8 {
        (0xfffffe8, 28)
    } else if symbol == 9 {
        (0xffffea, 24)
    } else if symbol == 10 {
        (0x3ffffffc, 30)
    } else if symbol == 11 {
        (0xfffffe9, 28)
    } else if symbol == 12 {
        (0xfffffea, 28)
    } else if symbol == 13 {
        (0x3ffffffd, 30)
    } else if symbol == 14 {
        (0xfffffeb, 28)
    } else if symbol == 15 {
        (0xfffffec, 28)
    } else if symbol == 16 {
        (0xfffffed, 28)
    } else if symbol == 17 {
        (0xfffffee, 28)
    } else if symbol == 18 {
        (0xfffffef, 28)
    } else if symbol == 19 {
        (0xffffff0, 28)
    } else if symbol == 20 {
        (0xffffff1, 28)
    } else if symbol == 21 {
        (0xffffff2, 28)
    } else if symbol == 22 {
        (0x3ffffffe, 30)
    } else if symbol == 23 {
        (0xffffff3, 28)
    } else if symbol == 24 {
        (0xffffff4, 28)
    } else if symbol == 25 {
        (0xffffff5, 28)
    } else if symbol == 26 {
        (0xffffff6, 28)
    } else if symbol == 27 {
        (0xffffff7, 28)
    } else if symbol == 28 {
        (0xffffff8, 28)
    } else if symbol == 29 {
        (0xffffff9, 28)
    } else if symbol == 30 {
        (0xffffffa, 28)
    } else if symbol == 31 {
        (0xffffffb, 28)
    } else if symbol == 32 {
        (0x14, 6)
    } else if symbol == 33 {
        (0x3f8, 10)
    } else if symbol == 34 {
        (0x3f9, 10)
    } else if symbol == 35 {
        (0xffa, 12)
    } else if symbol == 36 {
        (0x1ff9, 13)
    } else if symbol == 37 {
        (0x15, 6)
    } else if symbol == 38 {
        (0xf8, 8)
    } else if symbol == 39 {
        (0x7fa, 11)
    } else if symbol == 40 {
        (0x3fa, 10)
    } else if symbol == 41 {
        (0x3fb, 10)
    } else if symbol == 42 {
        (0xf9, 8)
    } else if symbol == 43 {
        (0x7fb, 11)
    } else if symbol == 44 {
        (0xfa, 8)
    } else if symbol == 45 {
        (0x16, 6)
    } else if symbol == 46 {
        (0x17, 6)
    } else if symbol == 47 {
        (0x18, 6)
    } else if symbol == 48 {
        (0x0, 5)
    } else if symbol == 49 {
        (0x1, 5)
    } else if symbol == 50 {
        (0x2, 5)
    } else if symbol == 51 {
        (0x19, 6)
    } else if symbol == 52 {
        (0x1a, 6)
    } else if symbol == 53 {
        (0x1b, 6)
    } else if symbol == 54 {
        (0x1c, 6)
    } else if symbol == 55 {
        (0x1d, 6)
    } else if symbol == 56 {
        (0x1e, 6)
    } else if symbol == 57 {
        (0x1f, 6)
    } else if symbol == 58 {
        (0x5c, 7)
    } else if symbol == 59 {
        (0xfb, 8)
    } else if symbol == 60 {
        (0x7ffc, 15)
    } else if symbol == 61 {
        (0x20, 6)
    } else if symbol == 62 {
        (0xffb, 12)
    } else if symbol == 63 {
        (0x3fc, 10)
    } else if symbol == 64 {
        (0x1ffa, 13)
    } else if symbol == 65 {
        (0x21, 6)
    } else if symbol == 66 {
        (0x5d, 7)
    } else if symbol == 67 {
        (0x5e, 7)
    } else if symbol == 68 {
        (0x5f, 7)
    } else if symbol == 69 {
        (0x60, 7)
    } else if symbol == 70 {
        (0x61, 7)
    } else if symbol == 71 {
        (0x62, 7)
    } else if symbol == 72 {
        (0x63, 7)
    } else if symbol == 73 {
        (0x64, 7)
    } else if symbol == 74 {
        (0x65, 7)
    } else if symbol == 75 {
        (0x66, 7)
    } else if symbol == 76 {
        (0x67, 7)
    } else if symbol == 77 {
        (0x68, 7)
    } else if symbol == 78 {
        (0x69, 7)
    } else if symbol == 79 {
        (0x6a, 7)
    } else if symbol == 80 {
        (0x6b, 7)
    } else if symbol == 81 {
        (0x6c, 7)
    } else if symbol == 82 {
        (0x6d, 7)
    } else if symbol == 83 {
        (0x6e, 7)
    } else if symbol == 84 {
        (0x6f, 7)
    } else if symbol == 85 {
        (0x70, 7)
    } else if symbol == 86 {
        (0x71, 7)
    } else if symbol == 87 {
        (0x72, 7)
    } else if symbol == 88 {
        (0xfc, 8)
    } else if symbol == 89 {
        (0x73, 7)
    } else if symbol == 90 {
        (0xfd, 8)
    } else if symbol == 91 {
        (0x1ffb, 13)
    } else if symbol == 92 {
        (0x7fff0, 19)
    } else if symbol == 93 {
        (0x1ffc, 13)
    } else if symbol == 94 {
        (0x3ffc, 14)
    } else if symbol == 95 {
        (0x22, 6)
    } else if symbol == 96 {
        (0x7ffd, 15)
    } else if symbol == 97 {
        (0x3, 5)
    } else if symbol == 98 {
        (0x23, 6)
    } else if symbol == 99 {
        (0x4, 5)
    } else if symbol == 100 {
        (0x24, 6)
    } else if symbol == 101 {
        (0x5, 5)
    } else if symbol == 102 {
        (0x25, 6)
    } else if symbol == 103 {
        (0x26, 6)
    } else if symbol == 104 {
        (0x27, 6)
    } else if symbol == 105 {
        (0x6, 5)
    } else if symbol == 106 {
        (0x74, 7)
    } else if symbol == 107 {
        (0x75, 7)
    } else if symbol == 108 {
        (0x28, 6)
    } else if symbol == 109 {
        (0x29, 6)
    } else if symbol == 110 {
        (0x2a, 6)
    } else if symbol == 111 {
        (0x7, 5)
    } else if symbol == 112 {
        (0x2b, 6)
    } else if symbol == 113 {
        (0x76, 7)
    } else if symbol == 114 {
        (0x2c, 6)
    } else if symbol == 115 {
        (0x8, 5)
    } else if symbol == 116 {
        (0x9, 5)
    } else if symbol == 117 {
        (0x2d, 6)
    } else if symbol == 118 {
        (0x77, 7)
    } else if symbol == 119 {
        (0x78, 7)
    } else if symbol == 120 {
        (0x79, 7)
    } else if symbol == 121 {
        (0x7a, 7)
    } else if symbol == 122 {
        (0x7b, 7)
    } else if symbol == 123 {
        (0x7ffe, 15)
    } else if symbol == 124 {
        (0x7fc, 11)
    } else if symbol == 125 {
        (0x3ffd, 14)
    } else if symbol == 126 {
        (0x1ffd, 13)
    } else if symbol == 127 {
        (0xffffffc, 28)
    } else if symbol == 128 {
        (0xfffe6, 20)
    } else if symbol == 129 {
        (0x3fffd2, 22)
    } else if symbol == 130 {
        (0xfffe7, 20)
    } else if symbol == 131 {
        (0xfffe8, 20)
    } else if symbol == 132 {
        (0x3fffd3, 22)
    } else if symbol == 133 {
        (0x3fffd4, 22)
    } else if symbol == 134 {
        (0x3fffd5, 22)
    } else if symbol == 135 {
        (0x7fffd9, 23)
    } else if symbol == 136 {
        (0x3fffd6, 22)
    } else if symbol == 137 {
        (0x7fffda, 23)
    } else if symbol == 138 {
        (0x7fffdb, 23)
    } else if symbol == 139 {
        (0x7fffdc, 23)
    } else if symbol == 140 {
        (0x7fffdd, 23)
    } else if symbol == 141 {
        (0x7fffde, 23)
    } else if symbol == 142 {
        (0xffffeb, 24)
    } else if symbol == 143 {
        (0x7fffdf, 23)
    } else if symbol == 144 {
        (0xffffec, 24)
    } else if symbol == 145 {
        (0xffffed, 24)
    } else if symbol == 146 {
        (0x3fffd7, 22)
    } else if symbol == 147 {
        (0x7fffe0, 23)
    } else if symbol == 148 {
        (0xffffee, 24)
    } else if symbol == 149 {
        (0x7fffe1, 23)
    } else if symbol == 150 {
        (0x7fffe2, 23)
    } else if symbol == 151 {
        (0x7fffe3, 23)
    } else if symbol == 152 {
        (0x7fffe4, 23)
    } else if symbol == 153 {
        (0x1fffdc, 21)
    } else if symbol == 154 {
        (0x3fffd8, 22)
    } else if symbol == 155 {
        (0x7fffe5, 23)
    } else if symbol == 156 {
        (0x3fffd9, 22)
    } else if symbol == 157 {
        (0x7fffe6, 23)
    } else if symbol == 158 {
        (0x7fffe7, 23)
    } else if symbol == 159 {
        (0xffffef, 24)
    } else if symbol == 160 {
        (0x3fffda, 22)
    } else if symbol == 161 {
        (0x1fffdd, 21)
    } else if symbol == 162 {
        (0xfffe9, 20)
    } else if symbol == 163 {
        (0x3fffdb, 22)
    } else if symbol == 164 {
        (0x3fffdc, 22)
    } else if symbol == 165 {
        (0x7fffe8, 23)
    } else if symbol == 166 {
        (0x7fffe9, 23)
    } else if symbol == 167 {
        (0x1fffde, 21)
    } else if symbol == 168 {
        (0x7fffea, 23)
    } else if symbol == 169 {
        (0x3fffdd, 22)
    } else if symbol == 170 {
        (0x3fffde, 22)
    } else if symbol == 171 {
        (0xfffff0, 24)
    } else if symbol == 172 {
        (0x1fffdf, 21)
    } else if symbol == 173 {
        (0x3fffdf, 22)
    } else if symbol == 174 {
        (0x7fffeb, 23)
    } else if symbol == 175 {
        (0x7fffec, 23)
    } else if symbol == 176 {
        (0x1fffe0, 21)
    } else if symbol == 177 {
        (0x1fffe1, 21)
    } else if symbol == 178 {
        (0x3fffe0, 22)
    } else if symbol == 179 {
        (0x1fffe2, 21)
    } else if symbol == 180 {
        (0x7fffed, 23)
    } else if symbol == 181 {
        (0x3fffe1, 22)
    } else if symbol == 182 {
        (0x7fffee, 23)
    } else if symbol == 183 {
        (0x7fffef, 23)
    } else if symbol == 184 {
        (0xfffea, 20)
    } else if symbol == 185 {
        (0x3fffe2, 22)
    } else if symbol == 186 {
        (0x3fffe3, 22)
    } else if symbol == 187 {
        (0x3fffe4, 22)
    } else if symbol == 188 {
        (0x7ffff0, 23)
    } else if symbol == 189 {
        (0x3fffe5, 22)
    } else if symbol == 190 {
        (0x3fffe6, 22)
    } else if symbol == 191 {
        (0x7ffff1, 23)
    } else if symbol == 192 {
        (0x3ffffe0, 26)
    } else if symbol == 193 {
        (0x3ffffe1, 26)
    } else if symbol == 194 {
        (0xfffeb, 20)
    } else if symbol == 195 {
        (0x7fff1, 19)
    } else if symbol == 196 {
        (0x3fffe7, 22)
    } else if symbol == 197 {
        (0x7ffff2, 23)
    } else if symbol == 198 {
        (0x3fffe8, 22)
    } else if symbol == 199 {
        (0x1ffffec, 25)
    } else if symbol == 200 {
        (0x3ffffe2, 26)
    } else if symbol == 201 {
        (0x3ffffe3, 26)
    } else if symbol == 202 {
        (0x3ffffe4, 26)
    } else if symbol == 203 {
        (0x7ffffde, 27)
    } else if symbol == 204 {
        (0x7ffffdf, 27)
    } else if symbol == 205 {
        (0x3ffffe5, 26)
    } else if symbol == 206 {
        (0xfffff1, 24)
    } else if symbol == 207 {
        (0x1ffffed, 25)
    } else if symbol == 208 {
        (0x7fff2, 19)
    } else if symbol == 209 {
        (0x1fffe3, 21)
    } else if symbol == 210 {
        (0x3ffffe6, 26)
    } else if symbol == 211 {
        (0x7ffffe0, 27)
    } else if symbol == 212 {
        (0x7ffffe1, 27)
    } else if symbol == 213 {
        (0x3ffffe7, 26)
    } else if symbol == 214 {
        (0x7ffffe2, 27)
    } else if symbol == 215 {
        (0xfffff2, 24)
    } else if symbol == 216 {
        (0x1fffe4, 21)
    } else if symbol == 217 {
        (0x1fffe5, 21)
    } else if symbol == 218 {
        (0x3ffffe8, 26)
    } else if symbol == 219 {
        (0x3ffffe9, 26)
    } else if symbol == 220 {
        (0xffffffd, 28)
    } else if symbol == 221 {
        (0x7ffffe3, 27)
    } else if symbol == 222 {
        (0x7ffffe4, 27)
    } else if symbol == 223 {
        (0x7ffffe5, 27)
    } else if symbol == 224 {
        (0xfffec, 20)
    } else if symbol == 225 {
        (0xfffff3, 24)
    } else if symbol == 226 {
        (0xfffed, 20)
    } else if symbol == 227 {
        (0x1fffe6, 21)
    } else if symbol == 228 {
        (0x3fffe9, 22)
    } else if symbol == 229 {
        (0x1fffe7, 21)
    } else if symbol == 230 {
        (0x1fffe8, 21)
    } else if symbol == 231 {
        (0x7ffff3, 23)
    } else if symbol == 232 {
        (0x3fffea, 22)
    } else if symbol == 233 {
        (0x3fffeb, 22)
    } else if symbol == 234 {
        (0x1ffffee, 25)
    } else if symbol == 235 {
        (0x1ffffef, 25)
    } else if symbol == 236 {
        (0xfffff4, 24)
    } else if symbol == 237 {
        (0xfffff5, 24)
    } else if symbol == 238 {
        (0x3ffffea, 26)
    } else if symbol == 239 {
        (0x7ffff4, 23)
    } else if symbol == 240 {
        (0x3ffffeb, 26)
    } else if symbol == 241 {
        (0x7ffffe6, 27)
    } else if symbol == 242 {
        (0x3ffffec, 26)
    } else if symbol == 243 {
        (0x3ffffed, 26)
    } else if symbol == 244 {
        (0x7ffffe7, 27)
    } else if symbol == 245 {
        (0x7ffffe8, 27)
    } else if symbol == 246 {
        (0x7ffffe9, 27)
    } else if symbol == 247 {
        (0x7ffffea, 27)
    } else if symbol == 248 {
        (0x7ffffeb, 27)
    } else if symbol == 249 {
        (0xffffffe, 28)
    } else if symbol == 250 {
        (0x7ffffec, 27)
    } else if symbol == 251 {
        (0x7ffffed, 27)
    } else if symbol == 252 {
        (0x7ffffee, 27)
    } else if symbol == 253 {
        (0x7ffffef, 27)
    } else if symbol == 254 {
        (0x7fffff0, 27)
    } else {
        (0x3ffffee, 26)
    }
}

#[verifier::spinoff_prover]
#[verifier::rlimit(60)]
proof fn lemma_codes_from_0(symbol: u8)
    requires
        0 <= symbol < 32,
    ensures
        code(symbol) == (huffman::word(symbol), huffman::length_at(huffman::place_of(symbol))),
{
    reveal(code);
    reveal(huffman::place_of);
    reveal(huffman::length_at);
    reveal(huffman::first);
    reveal(huffman::shorter);
}

#[verifier::spinoff_prover]
#[verifier::rlimit(60)]
proof fn lemma_codes_from_32(symbol: u8)
    requires
        32 <= symbol < 64,
    ensures
        code(symbol) == (huffman::word(symbol), huffman::length_at(huffman::place_of(symbol))),
{
    reveal(code);
    reveal(huffman::place_of);
    reveal(huffman::length_at);
    reveal(huffman::first);
    reveal(huffman::shorter);
}

#[verifier::spinoff_prover]
#[verifier::rlimit(60)]
proof fn lemma_codes_from_64(symbol: u8)
    requires
        64 <= symbol < 96,
    ensures
        code(symbol) == (huffman::word(symbol), huffman::length_at(huffman::place_of(symbol))),
{
    reveal(code);
    reveal(huffman::place_of);
    reveal(huffman::length_at);
    reveal(huffman::first);
    reveal(huffman::shorter);
}

#[verifier::spinoff_prover]
#[verifier::rlimit(60)]
proof fn lemma_codes_from_96(symbol: u8)
    requires
        96 <= symbol < 128,
    ensures
        code(symbol) == (huffman::word(symbol), huffman::length_at(huffman::place_of(symbol))),
{
    reveal(code);
    reveal(huffman::place_of);
    reveal(huffman::length_at);
    reveal(huffman::first);
    reveal(huffman::shorter);
}

#[verifier::spinoff_prover]
#[verifier::rlimit(60)]
proof fn lemma_codes_from_128(symbol: u8)
    requires
        128 <= symbol < 160,
    ensures
        code(symbol) == (huffman::word(symbol), huffman::length_at(huffman::place_of(symbol))),
{
    reveal(code);
    reveal(huffman::place_of);
    reveal(huffman::length_at);
    reveal(huffman::first);
    reveal(huffman::shorter);
}

#[verifier::spinoff_prover]
#[verifier::rlimit(60)]
proof fn lemma_codes_from_160(symbol: u8)
    requires
        160 <= symbol < 192,
    ensures
        code(symbol) == (huffman::word(symbol), huffman::length_at(huffman::place_of(symbol))),
{
    reveal(code);
    reveal(huffman::place_of);
    reveal(huffman::length_at);
    reveal(huffman::first);
    reveal(huffman::shorter);
}

#[verifier::spinoff_prover]
#[verifier::rlimit(60)]
proof fn lemma_codes_from_192(symbol: u8)
    requires
        192 <= symbol < 224,
    ensures
        code(symbol) == (huffman::word(symbol), huffman::length_at(huffman::place_of(symbol))),
{
    reveal(code);
    reveal(huffman::place_of);
    reveal(huffman::length_at);
    reveal(huffman::first);
    reveal(huffman::shorter);
}

#[verifier::spinoff_prover]
#[verifier::rlimit(60)]
proof fn lemma_codes_from_224(symbol: u8)
    requires
        224 <= symbol < 256,
    ensures
        code(symbol) == (huffman::word(symbol), huffman::length_at(huffman::place_of(symbol))),
{
    reveal(code);
    reveal(huffman::place_of);
    reveal(huffman::length_at);
    reveal(huffman::first);
    reveal(huffman::shorter);
}

proof fn lemma_codes(symbol: u8)
    ensures
        code(symbol) == (huffman::word(symbol), huffman::length_at(huffman::place_of(symbol))),
{
    if 0 <= symbol < 32 {
        lemma_codes_from_0(symbol);
    }
    if 32 <= symbol < 64 {
        lemma_codes_from_32(symbol);
    }
    if 64 <= symbol < 96 {
        lemma_codes_from_64(symbol);
    }
    if 96 <= symbol < 128 {
        lemma_codes_from_96(symbol);
    }
    if 128 <= symbol < 160 {
        lemma_codes_from_128(symbol);
    }
    if 160 <= symbol < 192 {
        lemma_codes_from_160(symbol);
    }
    if 192 <= symbol < 224 {
        lemma_codes_from_192(symbol);
    }
    if 224 <= symbol < 256 {
        lemma_codes_from_224(symbol);
    }
}

/// So many ones.
pub open spec fn all_ones(n: nat) -> Seq<bool> {
    Seq::new(n, |i: int| true)
}

/// The words of a string, one behind the other.
pub open spec fn code_bits(s: Seq<u8>) -> Seq<bool>
    decreases s.len(),
{
    if s.len() == 0 {
        Seq::empty()
    } else {
        code_bits(s.drop_last()) + huffman::bits_of(code(s.last()).0, code(s.last()).1 as nat)
    }
}

proof fn lemma_code_bits(s: Seq<u8>)
    ensures
        code_bits(s) == huffman::words(s),
    decreases s.len(),
{
    if s.len() > 0 {
        lemma_code_bits(s.drop_last());
        lemma_codes(s.last());
    }
}

/// The bits of an encoded string are the words of its symbols, each as the code gives it, and
/// then as many ones as the last byte has room for.
pub proof fn law_strings_are_written_in_words(s: Seq<u8>)
    ensures
        ({
            let bits = huffman::byte_bits(huffman::encoded(s));
            let n = code_bits(s).len();
            &&& bits.len() == 8 * huffman::encoded(s).len()
            &&& n <= bits.len() < n + 8
            &&& bits == code_bits(s) + all_ones((bits.len() - n) as nat)
        }),
        huffman::decoded(huffman::encoded(s)) == Some(s),
{
    lemma_code_bits(s);
    huffman::lemma_encoded_bits(s);
    huffman::lemma_byte_bits_len(huffman::encoded(s));
    huffman::law_strings_round_trip(s);
    let bits = huffman::byte_bits(huffman::encoded(s));
    let n = code_bits(s).len();
    assert(bits =~= code_bits(s) + all_ones((bits.len() - n) as nat));
}

} // verus!

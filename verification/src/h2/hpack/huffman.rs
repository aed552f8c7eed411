//! The static Huffman code for strings.
//!
//! The code is canonical: words of one length are consecutive numbers, in the order of the
//! symbols, and the words of the next length continue where they end. So a symbol is known
//! by its place in the order of all words, and a word by its place within its length. The
//! last word, of thirty ones, marks the end of a string and is never sent whole.

use vstd::prelude::*;

verus! {

/// The number of words of `w` bits.
#[verifier::opaque]
pub open spec fn count(w: int) -> int {
    if w == 0 {
        0
    } else if w == 1 {
        0
    } else if w == 2 {
        0
    } else if w == 3 {
        0
    } else if w == 4 {
        0
    } else if w == 5 {
        10
    } else if w == 6 {
        26
    } else if w == 7 {
        32
    } else if w == 8 {
        6
    } else if w == 9 {
        0
    } else if w == 10 {
        5
    } else if w == 11 {
        3
    } else if w == 12 {
        2
    } else if w == 13 {
        6
    } else if w == 14 {
        2
    } else if w == 15 {
        3
    } else if w == 16 {
        0
    } else if w == 17 {
        0
    } else if w == 18 {
        0
    } else if w == 19 {
        3
    } else if w == 20 {
        8
    } else if w == 21 {
        13
    } else if w == 22 {
        26
    } else if w == 23 {
        29
    } else if w == 24 {
        12
    } else if w == 25 {
        4
    } else if w == 26 {
        15
    } else if w == 27 {
        19
    } else if w == 28 {
        29
    } else if w == 29 {
        0
    } else if w == 30 {
        4
    } else {
        0
    }
}

/// The first word of `w` bits, as a number: twice what follows the last shorter word.
#[verifier::opaque]
pub open spec fn first(w: int) -> int {
    if w == 0 {
        0
    } else if w == 1 {
        0
    } else if w == 2 {
        0
    } else if w == 3 {
        0
    } else if w == 4 {
        0
    } else if w == 5 {
        0
    } else if w == 6 {
        20
    } else if w == 7 {
        92
    } else if w == 8 {
        248
    } else if w == 9 {
        508
    } else if w == 10 {
        1016
    } else if w == 11 {
        2042
    } else if w == 12 {
        4090
    } else if w == 13 {
        8184
    } else if w == 14 {
        16380
    } else if w == 15 {
        32764
    } else if w == 16 {
        65534
    } else if w == 17 {
        131068
    } else if w == 18 {
        262136
    } else if w == 19 {
        524272
    } else if w == 20 {
        1048550
    } else if w == 21 {
        2097116
    } else if w == 22 {
        4194258
    } else if w == 23 {
        8388568
    } else if w == 24 {
        16777194
    } else if w == 25 {
        33554412
    } else if w == 26 {
        67108832
    } else if w == 27 {
        134217694
    } else if w == 28 {
        268435426
    } else if w == 29 {
        536870910
    } else if w == 30 {
        1073741820
    } else {
        0
    }
}

/// The number of words that are shorter than `w` bits.
#[verifier::opaque]
pub open spec fn shorter(w: int) -> int {
    if w == 0 {
        0
    } else if w == 1 {
        0
    } else if w == 2 {
        0
    } else if w == 3 {
        0
    } else if w == 4 {
        0
    } else if w == 5 {
        0
    } else if w == 6 {
        10
    } else if w == 7 {
        36
    } else if w == 8 {
        68
    } else if w == 9 {
        74
    } else if w == 10 {
        74
    } else if w == 11 {
        79
    } else if w == 12 {
        82
    } else if w == 13 {
        84
    } else if w == 14 {
        90
    } else if w == 15 {
        92
    } else if w == 16 {
        95
    } else if w == 17 {
        95
    } else if w == 18 {
        95
    } else if w == 19 {
        95
    } else if w == 20 {
        98
    } else if w == 21 {
        106
    } else if w == 22 {
        119
    } else if w == 23 {
        145
    } else if w == 24 {
        174
    } else if w == 25 {
        186
    } else if w == 26 {
        190
    } else if w == 27 {
        205
    } else if w == 28 {
        224
    } else if w == 29 {
        253
    } else if w == 30 {
        253
    } else {
        0
    }
}

/// The first number of `w` bits that only begins longer words.
pub open spec fn limit(w: int) -> int {
    first(w) + count(w)
}

proof fn lemma_bands(w: int)
    requires
        0 <= w < 30,
    ensures
        first(w + 1) == 2 * limit(w),
        shorter(w + 1) == shorter(w) + count(w),
{
    reveal(first);
    reveal(count);
    reveal(shorter);
}

proof fn lemma_band_bounds(w: int)
    requires
        0 <= w <= 30,
    ensures
        0 <= count(w) <= 32,
        0 <= first(w) <= 0x4000_0000,
        0 <= shorter(w) <= 253,
        limit(w) <= 0x4000_0000,
        limit(0) == 0,
{
    reveal(first);
    reveal(count);
    reveal(shorter);
}

/// The length of the word at place `k`.
#[verifier::opaque]
pub open spec fn length_at(k: int) -> int {
    if k < 10 {
        5
    } else if k < 36 {
        6
    } else if k < 68 {
        7
    } else if k < 74 {
        8
    } else if k < 79 {
        10
    } else if k < 82 {
        11
    } else if k < 84 {
        12
    } else if k < 90 {
        13
    } else if k < 92 {
        14
    } else if k < 95 {
        15
    } else if k < 98 {
        19
    } else if k < 106 {
        20
    } else if k < 119 {
        21
    } else if k < 145 {
        22
    } else if k < 174 {
        23
    } else if k < 186 {
        24
    } else if k < 190 {
        25
    } else if k < 205 {
        26
    } else if k < 224 {
        27
    } else if k < 253 {
        28
    } else {
        30
    }
}

/// The symbol whose word stands at place `k`.
#[verifier::opaque]
pub open spec fn symbol_at(k: int) -> u8 {
    if k == 0 {
        48
    } else if k == 1 {
        49
    } else if k == 2 {
        50
    } else if k == 3 {
        97
    } else if k == 4 {
        99
    } else if k == 5 {
        101
    } else if k == 6 {
        105
    } else if k == 7 {
        111
    } else if k == 8 {
        115
    } else if k == 9 {
        116
    } else if k == 10 {
        32
    } else if k == 11 {
        37
    } else if k == 12 {
        45
    } else if k == 13 {
        46
    } else if k == 14 {
        47
    } else if k == 15 {
        51
    } else if k == 16 {
        52
    } else if k == 17 {
        53
    } else if k == 18 {
        54
    } else if k == 19 {
        55
    } else if k == 20 {
        56
    } else if k == 21 {
        57
    } else if k == 22 {
        61
    } else if k == 23 {
        65
    } else if k == 24 {
        95
    } else if k == 25 {
        98
    } else if k == 26 {
        100
    } else if k == 27 {
        102
    } else if k == 28 {
        103
    } else if k == 29 {
        104
    } else if k == 30 {
        108
    } else if k == 31 {
        109
    } else if k == 32 {
        110
    } else if k == 33 {
        112
    } else if k == 34 {
        114
    } else if k == 35 {
        117
    } else if k == 36 {
        58
    } else if k == 37 {
        66
    } else if k == 38 {
        67
    } else if k == 39 {
        68
    } else if k == 40 {
        69
    } else if k == 41 {
        70
    } else if k == 42 {
        71
    } else if k == 43 {
        72
    } else if k == 44 {
        73
    } else if k == 45 {
        74
    } else if k == 46 {
        75
    } else if k == 47 {
        76
    } else if k == 48 {
        77
    } else if k == 49 {
        78
    } else if k == 50 {
        79
    } else if k == 51 {
        80
    } else if k == 52 {
        81
    } else if k == 53 {
        82
    } else if k == 54 {
        83
    } else if k == 55 {
        84
    } else if k == 56 {
        85
    } else if k == 57 {
        86
    } else if k == 58 {
        87
    } else if k == 59 {
        89
    } else if k == 60 {
        106
    } else if k == 61 {
        107
    } else if k == 62 {
        113
    } else if k == 63 {
        118
    } else if k == 64 {
        119
    } else if k == 65 {
        120
    } else if k == 66 {
        121
    } else if k == 67 {
        122
    } else if k == 68 {
        38
    } else if k == 69 {
        42
    } else if k == 70 {
        44
    } else if k == 71 {
        59
    } else if k == 72 {
        88
    } else if k == 73 {
        90
    } else if k == 74 {
        33
    } else if k == 75 {
        34
    } else if k == 76 {
        40
    } else if k == 77 {
        41
    } else if k == 78 {
        63
    } else if k == 79 {
        39
    } else if k == 80 {
        43
    } else if k == 81 {
        124
    } else if k == 82 {
        35
    } else if k == 83 {
        62
    } else if k == 84 {
        0
    } else if k == 85 {
        36
    } else if k == 86 {
        64
    } else if k == 87 {
        91
    } else if k == 88 {
        93
    } else if k == 89 {
        126
    } else if k == 90 {
        94
    } else if k == 91 {
        125
    } else if k == 92 {
        60
    } else if k == 93 {
        96
    } else if k == 94 {
        123
    } else if k == 95 {
        92
    } else if k == 96 {
        195
    } else if k == 97 {
        208
    } else if k == 98 {
        128
    } else if k == 99 {
        130
    } else if k == 100 {
        131
    } else if k == 101 {
        162
    } else if k == 102 {
        184
    } else if k == 103 {
        194
    } else if k == 104 {
        224
    } else if k == 105 {
        226
    } else if k == 106 {
        153
    } else if k == 107 {
        161
    } else if k == 108 {
        167
    } else if k == 109 {
        172
    } else if k == 110 {
        176
    } else if k == 111 {
        177
    } else if k == 112 {
        179
    } else if k == 113 {
        209
    } else if k == 114 {
        216
    } else if k == 115 {
        217
    } else if k == 116 {
        227
    } else if k == 117 {
        229
    } else if k == 118 {
        230
    } else if k == 119 {
        129
    } else if k == 120 {
        132
    } else if k == 121 {
        133
    } else if k == 122 {
        134
    } else if k == 123 {
        136
    } else if k == 124 {
        146
    } else if k == 125 {
        154
    } else if k == 126 {
        156
    } else if k == 127 {
        160
    } else if k == 128 {
        163
    } else if k == 129 {
        164
    } else if k == 130 {
        169
    } else if k == 131 {
        170
    } else if k == 132 {
        173
    } else if k == 133 {
        178
    } else if k == 134 {
        181
    } else if k == 135 {
        185
    } else if k == 136 {
        186
    } else if k == 137 {
        187
    } else if k == 138 {
        189
    } else if k == 139 {
        190
    } else if k == 140 {
        196
    } else if k == 141 {
        198
    } else if k == 142 {
        228
    } else if k == 143 {
        232
    } else if k == 144 {
        233
    } else if k == 145 {
        1
    } else if k == 146 {
        135
    } else if k == 147 {
        137
    } else if k == 148 {
        138
    } else if k == 149 {
        139
    } else if k == 150 {
        140
    } else if k == 151 {
        141
    } else if k == 152 {
        143
    } else if k == 153 {
        147
    } else if k == 154 {
        149
    } else if k == 155 {
        150
    } else if k == 156 {
        151
    } else if k == 157 {
        152
    } else if k == 158 {
        155
    } else if k == 159 {
        157
    } else if k == 160 {
        158
    } else if k == 161 {
        165
    } else if k == 162 {
        166
    } else if k == 163 {
        168
    } else if k == 164 {
        174
    } else if k == 165 {
        175
    } else if k == 166 {
        180
    } else if k == 167 {
        182
    } else if k == 168 {
        183
    } else if k == 169 {
        188
    } else if k == 170 {
        191
    } else if k == 171 {
        197
    } else if k == 172 {
        231
    } else if k == 173 {
        239
    } else if k == 174 {
        9
    } else if k == 175 {
        142
    } else if k == 176 {
        144
    } else if k == 177 {
        145
    } else if k == 178 {
        148
    } else if k == 179 {
        159
    } else if k == 180 {
        171
    } else if k == 181 {
        206
    } else if k == 182 {
        215
    } else if k == 183 {
        225
    } else if k == 184 {
        236
    } else if k == 185 {
        237
    } else if k == 186 {
        199
    } else if k == 187 {
        207
    } else if k == 188 {
        234
    } else if k == 189 {
        235
    } else if k == 190 {
        192
    } else if k == 191 {
        193
    } else if k == 192 {
        200
    } else if k == 193 {
        201
    } else if k == 194 {
        202
    } else if k == 195 {
        205
    } else if k == 196 {
        210
    } else if k == 197 {
        213
    } else if k == 198 {
        218
    } else if k == 199 {
        219
    } else if k == 200 {
        238
    } else if k == 201 {
        240
    } else if k == 202 {
        242
    } else if k == 203 {
        243
    } else if k == 204 {
        255
    } else if k == 205 {
        203
    } else if k == 206 {
        204
    } else if k == 207 {
        211
    } else if k == 208 {
        212
    } else if k == 209 {
        214
    } else if k == 210 {
        221
    } else if k == 211 {
        222
    } else if k == 212 {
        223
    } else if k == 213 {
        241
    } else if k == 214 {
        244
    } else if k == 215 {
        245
    } else if k == 216 {
        246
    } else if k == 217 {
        247
    } else if k == 218 {
        248
    } else if k == 219 {
        250
    } else if k == 220 {
        251
    } else if k == 221 {
        252
    } else if k == 222 {
        253
    } else if k == 223 {
        254
    } else if k == 224 {
        2
    } else if k == 225 {
        3
    } else if k == 226 {
        4
    } else if k == 227 {
        5
    } else if k == 228 {
        6
    } else if k == 229 {
        7
    } else if k == 230 {
        8
    } else if k == 231 {
        11
    } else if k == 232 {
        12
    } else if k == 233 {
        14
    } else if k == 234 {
        15
    } else if k == 235 {
        16
    } else if k == 236 {
        17
    } else if k == 237 {
        18
    } else if k == 238 {
        19
    } else if k == 239 {
        20
    } else if k == 240 {
        21
    } else if k == 241 {
        23
    } else if k == 242 {
        24
    } else if k == 243 {
        25
    } else if k == 244 {
        26
    } else if k == 245 {
        27
    } else if k == 246 {
        28
    } else if k == 247 {
        29
    } else if k == 248 {
        30
    } else if k == 249 {
        31
    } else if k == 250 {
        127
    } else if k == 251 {
        220
    } else if k == 252 {
        249
    } else if k == 253 {
        10
    } else if k == 254 {
        13
    } else {
        22
    }
}

/// The place of the word for `symbol`.
#[verifier::opaque]
pub open spec fn place_of(symbol: u8) -> int {
    if symbol == 0 {
        84
    } else if symbol == 1 {
        145
    } else if symbol == 2 {
        224
    } else if symbol == 3 {
        225
    } else if symbol == 4 {
        226
    } else if symbol == 5 {
        227
    } else if symbol == 6 {
        228
    } else if symbol == 7 {
        229
    } else if symbol == 8 {
        230
    } else if symbol == 9 {
        174
    } else if symbol == 10 {
        253
    } else if symbol == 11 {
        231
    } else if symbol == 12 {
        232
    } else if symbol == 13 {
        254
    } else if symbol == 14 {
        233
    } else if symbol == 15 {
        234
    } else if symbol == 16 {
        235
    } else if symbol == 17 {
        236
    } else if symbol == 18 {
        237
    } else if symbol == 19 {
        238
    } else if symbol == 20 {
        239
    } else if symbol == 21 {
        240
    } else if symbol == 22 {
        255
    } else if symbol == 23 {
        241
    } else if symbol == 24 {
        242
    } else if symbol == 25 {
        243
    } else if symbol == 26 {
        244
    } else if symbol == 27 {
        245
    } else if symbol == 28 {
        246
    } else if symbol == 29 {
        247
    } else if symbol == 30 {
        248
    } else if symbol == 31 {
        249
    } else if symbol == 32 {
        10
    } else if symbol == 33 {
        74
    } else if symbol == 34 {
        75
    } else if symbol == 35 {
        82
    } else if symbol == 36 {
        85
    } else if symbol == 37 {
        11
    } else if symbol == 38 {
        68
    } else if symbol == 39 {
        79
    } else if symbol == 40 {
        76
    } else if symbol == 41 {
        77
    } else if symbol == 42 {
        69
    } else if symbol == 43 {
        80
    } else if symbol == 44 {
        70
    } else if symbol == 45 {
        12
    } else if symbol == 46 {
        13
    } else if symbol == 47 {
        14
    } else if symbol == 48 {
        0
    } else if symbol == 49 {
        1
    } else if symbol == 50 {
        2
    } else if symbol == 51 {
        15
    } else if symbol == 52 {
        16
    } else if symbol == 53 {
        17
    } else if symbol == 54 {
        18
    } else if symbol == 55 {
        19
    } else if symbol == 56 {
        20
    } else if symbol == 57 {
        21
    } else if symbol == 58 {
        36
    } else if symbol == 59 {
        71
    } else if symbol == 60 {
        92
    } else if symbol == 61 {
        22
    } else if symbol == 62 {
        83
    } else if symbol == 63 {
        78
    } else if symbol == 64 {
        86
    } else if symbol == 65 {
        23
    } else if symbol == 66 {
        37
    } else if symbol == 67 {
        38
    } else if symbol == 68 {
        39
    } else if symbol == 69 {
        40
    } else if symbol == 70 {
        41
    } else if symbol == 71 {
        42
    } else if symbol == 72 {
        43
    } else if symbol == 73 {
        44
    } else if symbol == 74 {
        45
    } else if symbol == 75 {
        46
    } else if symbol == 76 {
        47
    } else if symbol == 77 {
        48
    } else if symbol == 78 {
        49
    } else if symbol == 79 {
        50
    } else if symbol == 80 {
        51
    } else if symbol == 81 {
        52
    } else if symbol == 82 {
        53
    } else if symbol == 83 {
        54
    } else if symbol == 84 {
        55
    } else if symbol == 85 {
        56
    } else if symbol == 86 {
        57
    } else if symbol == 87 {
        58
    } else if symbol == 88 {
        72
    } else if symbol == 89 {
        59
    } else if symbol == 90 {
        73
    } else if symbol == 91 {
        87
    } else if symbol == 92 {
        95
    } else if symbol == 93 {
        88
    } else if symbol == 94 {
        90
    } else if symbol == 95 {
        24
    } else if symbol == 96 {
        93
    } else if symbol == 97 {
        3
    } else if symbol == 98 {
        25
    } else if symbol == 99 {
        4
    } else if symbol == 100 {
        26
    } else if symbol == 101 {
        5
    } else if symbol == 102 {
        27
    } else if symbol == 103 {
        28
    } else if symbol == 104 {
        29
    } else if symbol == 105 {
        6
    } else if symbol == 106 {
        60
    } else if symbol == 107 {
        61
    } else if symbol == 108 {
        30
    } else if symbol == 109 {
        31
    } else if symbol == 110 {
        32
    } else if symbol == 111 {
        7
    } else if symbol == 112 {
        33
    } else if symbol == 113 {
        62
    } else if symbol == 114 {
        34
    } else if symbol == 115 {
        8
    } else if symbol == 116 {
        9
    } else if symbol == 117 {
        35
    } else if symbol == 118 {
        63
    } else if symbol == 119 {
        64
    } else if symbol == 120 {
        65
    } else if symbol == 121 {
        66
    } else if symbol == 122 {
        67
    } else if symbol == 123 {
        94
    } else if symbol == 124 {
        81
    } else if symbol == 125 {
        91
    } else if symbol == 126 {
        89
    } else if symbol == 127 {
        250
    } else if symbol == 128 {
        98
    } else if symbol == 129 {
        119
    } else if symbol == 130 {
        99
    } else if symbol == 131 {
        100
    } else if symbol == 132 {
        120
    } else if symbol == 133 {
        121
    } else if symbol == 134 {
        122
    } else if symbol == 135 {
        146
    } else if symbol == 136 {
        123
    } else if symbol == 137 {
        147
    } else if symbol == 138 {
        148
    } else if symbol == 139 {
        149
    } else if symbol == 140 {
        150
    } else if symbol == 141 {
        151
    } else if symbol == 142 {
        175
    } else if symbol == 143 {
        152
    } else if symbol == 144 {
        176
    } else if symbol == 145 {
        177
    } else if symbol == 146 {
        124
    } else if symbol == 147 {
        153
    } else if symbol == 148 {
        178
    } else if symbol == 149 {
        154
    } else if symbol == 150 {
        155
    } else if symbol == 151 {
        156
    } else if symbol == 152 {
        157
    } else if symbol == 153 {
        106
    } else if symbol == 154 {
        125
    } else if symbol == 155 {
        158
    } else if symbol == 156 {
        126
    } else if symbol == 157 {
        159
    } else if symbol == 158 {
        160
    } else if symbol == 159 {
        179
    } else if symbol == 160 {
        127
    } else if symbol == 161 {
        107
    } else if symbol == 162 {
        101
    } else if symbol == 163 {
        128
    } else if symbol == 164 {
        129
    } else if symbol == 165 {
        161
    } else if symbol == 166 {
        162
    } else if symbol == 167 {
        108
    } else if symbol == 168 {
        163
    } else if symbol == 169 {
        130
    } else if symbol == 170 {
        131
    } else if symbol == 171 {
        180
    } else if symbol == 172 {
        109
    } else if symbol == 173 {
        132
    } else if symbol == 174 {
        164
    } else if symbol == 175 {
        165
    } else if symbol == 176 {
        110
    } else if symbol == 177 {
        111
    } else if symbol == 178 {
        133
    } else if symbol == 179 {
        112
    } else if symbol == 180 {
        166
    } else if symbol == 181 {
        134
    } else if symbol == 182 {
        167
    } else if symbol == 183 {
        168
    } else if symbol == 184 {
        102
    } else if symbol == 185 {
        135
    } else if symbol == 186 {
        136
    } else if symbol == 187 {
        137
    } else if symbol == 188 {
        169
    } else if symbol == 189 {
        138
    } else if symbol == 190 {
        139
    } else if symbol == 191 {
        170
    } else if symbol == 192 {
        190
    } else if symbol == 193 {
        191
    } else if symbol == 194 {
        103
    } else if symbol == 195 {
        96
    } else if symbol == 196 {
        140
    } else if symbol == 197 {
        171
    } else if symbol == 198 {
        141
    } else if symbol == 199 {
        186
    } else if symbol == 200 {
        192
    } else if symbol == 201 {
        193
    } else if symbol == 202 {
        194
    } else if symbol == 203 {
        205
    } else if symbol == 204 {
        206
    } else if symbol == 205 {
        195
    } else if symbol == 206 {
        181
    } else if symbol == 207 {
        187
    } else if symbol == 208 {
        97
    } else if symbol == 209 {
        113
    } else if symbol == 210 {
        196
    } else if symbol == 211 {
        207
    } else if symbol == 212 {
        208
    } else if symbol == 213 {
        197
    } else if symbol == 214 {
        209
    } else if symbol == 215 {
        182
    } else if symbol == 216 {
        114
    } else if symbol == 217 {
        115
    } else if symbol == 218 {
        198
    } else if symbol == 219 {
        199
    } else if symbol == 220 {
        251
    } else if symbol == 221 {
        210
    } else if symbol == 222 {
        211
    } else if symbol == 223 {
        212
    } else if symbol == 224 {
        104
    } else if symbol == 225 {
        183
    } else if symbol == 226 {
        105
    } else if symbol == 227 {
        116
    } else if symbol == 228 {
        142
    } else if symbol == 229 {
        117
    } else if symbol == 230 {
        118
    } else if symbol == 231 {
        172
    } else if symbol == 232 {
        143
    } else if symbol == 233 {
        144
    } else if symbol == 234 {
        188
    } else if symbol == 235 {
        189
    } else if symbol == 236 {
        184
    } else if symbol == 237 {
        185
    } else if symbol == 238 {
        200
    } else if symbol == 239 {
        173
    } else if symbol == 240 {
        201
    } else if symbol == 241 {
        213
    } else if symbol == 242 {
        202
    } else if symbol == 243 {
        203
    } else if symbol == 244 {
        214
    } else if symbol == 245 {
        215
    } else if symbol == 246 {
        216
    } else if symbol == 247 {
        217
    } else if symbol == 248 {
        218
    } else if symbol == 249 {
        252
    } else if symbol == 250 {
        219
    } else if symbol == 251 {
        220
    } else if symbol == 252 {
        221
    } else if symbol == 253 {
        222
    } else if symbol == 254 {
        223
    } else {
        204
    }
}

fn exec_first(w: u8) -> (r: u32)
    requires
        w <= 30,
    ensures
        r == first(w as int),
{
    proof {
        reveal(first);
    }
    match w {
        0 => 0,
        1 => 0,
        2 => 0,
        3 => 0,
        4 => 0,
        5 => 0,
        6 => 20,
        7 => 92,
        8 => 248,
        9 => 508,
        10 => 1016,
        11 => 2042,
        12 => 4090,
        13 => 8184,
        14 => 16380,
        15 => 32764,
        16 => 65534,
        17 => 131068,
        18 => 262136,
        19 => 524272,
        20 => 1048550,
        21 => 2097116,
        22 => 4194258,
        23 => 8388568,
        24 => 16777194,
        25 => 33554412,
        26 => 67108832,
        27 => 134217694,
        28 => 268435426,
        29 => 536870910,
        _ => 1073741820,
    }
}

fn exec_count(w: u8) -> (r: u32)
    requires
        w <= 30,
    ensures
        r == count(w as int),
{
    proof {
        reveal(count);
    }
    match w {
        5 => 10,
        6 => 26,
        7 => 32,
        8 => 6,
        10 => 5,
        11 => 3,
        12 => 2,
        13 => 6,
        14 => 2,
        15 => 3,
        19 => 3,
        20 => 8,
        21 => 13,
        22 => 26,
        23 => 29,
        24 => 12,
        25 => 4,
        26 => 15,
        27 => 19,
        28 => 29,
        30 => 4,
        _ => 0,
    }
}

fn exec_shorter(w: u8) -> (r: u32)
    requires
        w <= 30,
    ensures
        r == shorter(w as int),
{
    proof {
        reveal(shorter);
    }
    match w {
        0 => 0,
        1 => 0,
        2 => 0,
        3 => 0,
        4 => 0,
        5 => 0,
        6 => 10,
        7 => 36,
        8 => 68,
        9 => 74,
        10 => 74,
        11 => 79,
        12 => 82,
        13 => 84,
        14 => 90,
        15 => 92,
        16 => 95,
        17 => 95,
        18 => 95,
        19 => 95,
        20 => 98,
        21 => 106,
        22 => 119,
        23 => 145,
        24 => 174,
        25 => 186,
        26 => 190,
        27 => 205,
        28 => 224,
        29 => 253,
        _ => 253,
    }
}

fn exec_length(k: u32) -> (r: u8)
    ensures
        r == length_at(k as int),
{
    proof {
        reveal(length_at);
    }
    if k < 10 {
        5
    } else if k < 36 {
        6
    } else if k < 68 {
        7
    } else if k < 74 {
        8
    } else if k < 79 {
        10
    } else if k < 82 {
        11
    } else if k < 84 {
        12
    } else if k < 90 {
        13
    } else if k < 92 {
        14
    } else if k < 95 {
        15
    } else if k < 98 {
        19
    } else if k < 106 {
        20
    } else if k < 119 {
        21
    } else if k < 145 {
        22
    } else if k < 174 {
        23
    } else if k < 186 {
        24
    } else if k < 190 {
        25
    } else if k < 205 {
        26
    } else if k < 224 {
        27
    } else if k < 253 {
        28
    } else {
        30
    }
}

fn exec_symbol(k: u32) -> (r: u8)
    requires
        k < 256,
    ensures
        r == symbol_at(k as int),
{
    proof {
        reveal(symbol_at);
    }
    match k {
        0 => 48,
        1 => 49,
        2 => 50,
        3 => 97,
        4 => 99,
        5 => 101,
        6 => 105,
        7 => 111,
        8 => 115,
        9 => 116,
        10 => 32,
        11 => 37,
        12 => 45,
        13 => 46,
        14 => 47,
        15 => 51,
        16 => 52,
        17 => 53,
        18 => 54,
        19 => 55,
        20 => 56,
        21 => 57,
        22 => 61,
        23 => 65,
        24 => 95,
        25 => 98,
        26 => 100,
        27 => 102,
        28 => 103,
        29 => 104,
        30 => 108,
        31 => 109,
        32 => 110,
        33 => 112,
        34 => 114,
        35 => 117,
        36 => 58,
        37 => 66,
        38 => 67,
        39 => 68,
        40 => 69,
        41 => 70,
        42 => 71,
        43 => 72,
        44 => 73,
        45 => 74,
        46 => 75,
        47 => 76,
        48 => 77,
        49 => 78,
        50 => 79,
        51 => 80,
        52 => 81,
        53 => 82,
        54 => 83,
        55 => 84,
        56 => 85,
        57 => 86,
        58 => 87,
        59 => 89,
        60 => 106,
        61 => 107,
        62 => 113,
        63 => 118,
        64 => 119,
        65 => 120,
        66 => 121,
        67 => 122,
        68 => 38,
        69 => 42,
        70 => 44,
        71 => 59,
        72 => 88,
        73 => 90,
        74 => 33,
        75 => 34,
        76 => 40,
        77 => 41,
        78 => 63,
        79 => 39,
        80 => 43,
        81 => 124,
        82 => 35,
        83 => 62,
        84 => 0,
        85 => 36,
        86 => 64,
        87 => 91,
        88 => 93,
        89 => 126,
        90 => 94,
        91 => 125,
        92 => 60,
        93 => 96,
        94 => 123,
        95 => 92,
        96 => 195,
        97 => 208,
        98 => 128,
        99 => 130,
        100 => 131,
        101 => 162,
        102 => 184,
        103 => 194,
        104 => 224,
        105 => 226,
        106 => 153,
        107 => 161,
        108 => 167,
        109 => 172,
        110 => 176,
        111 => 177,
        112 => 179,
        113 => 209,
        114 => 216,
        115 => 217,
        116 => 227,
        117 => 229,
        118 => 230,
        119 => 129,
        120 => 132,
        121 => 133,
        122 => 134,
        123 => 136,
        124 => 146,
        125 => 154,
        126 => 156,
        127 => 160,
        128 => 163,
        129 => 164,
        130 => 169,
        131 => 170,
        132 => 173,
        133 => 178,
        134 => 181,
        135 => 185,
        136 => 186,
        137 => 187,
        138 => 189,
        139 => 190,
        140 => 196,
        141 => 198,
        142 => 228,
        143 => 232,
        144 => 233,
        145 => 1,
        146 => 135,
        147 => 137,
        148 => 138,
        149 => 139,
        150 => 140,
        151 => 141,
        152 => 143,
        153 => 147,
        154 => 149,
        155 => 150,
        156 => 151,
        157 => 152,
        158 => 155,
        159 => 157,
        160 => 158,
        161 => 165,
        162 => 166,
        163 => 168,
        164 => 174,
        165 => 175,
        166 => 180,
        167 => 182,
        168 => 183,
        169 => 188,
        170 => 191,
        171 => 197,
        172 => 231,
        173 => 239,
        174 => 9,
        175 => 142,
        176 => 144,
        177 => 145,
        178 => 148,
        179 => 159,
        180 => 171,
        181 => 206,
        182 => 215,
        183 => 225,
        184 => 236,
        185 => 237,
        186 => 199,
        187 => 207,
        188 => 234,
        189 => 235,
        190 => 192,
        191 => 193,
        192 => 200,
        193 => 201,
        194 => 202,
        195 => 205,
        196 => 210,
        197 => 213,
        198 => 218,
        199 => 219,
        200 => 238,
        201 => 240,
        202 => 242,
        203 => 243,
        204 => 255,
        205 => 203,
        206 => 204,
        207 => 211,
        208 => 212,
        209 => 214,
        210 => 221,
        211 => 222,
        212 => 223,
        213 => 241,
        214 => 244,
        215 => 245,
        216 => 246,
        217 => 247,
        218 => 248,
        219 => 250,
        220 => 251,
        221 => 252,
        222 => 253,
        223 => 254,
        224 => 2,
        225 => 3,
        226 => 4,
        227 => 5,
        228 => 6,
        229 => 7,
        230 => 8,
        231 => 11,
        232 => 12,
        233 => 14,
        234 => 15,
        235 => 16,
        236 => 17,
        237 => 18,
        238 => 19,
        239 => 20,
        240 => 21,
        241 => 23,
        242 => 24,
        243 => 25,
        244 => 26,
        245 => 27,
        246 => 28,
        247 => 29,
        248 => 30,
        249 => 31,
        250 => 127,
        251 => 220,
        252 => 249,
        253 => 10,
        254 => 13,
        _ => 22,
    }
}

fn exec_place(symbol: u8) -> (r: u32)
    ensures
        r == place_of(symbol),
        r < 256,
{
    proof {
        reveal(place_of);
    }
    match symbol {
        0 => 84,
        1 => 145,
        2 => 224,
        3 => 225,
        4 => 226,
        5 => 227,
        6 => 228,
        7 => 229,
        8 => 230,
        9 => 174,
        10 => 253,
        11 => 231,
        12 => 232,
        13 => 254,
        14 => 233,
        15 => 234,
        16 => 235,
        17 => 236,
        18 => 237,
        19 => 238,
        20 => 239,
        21 => 240,
        22 => 255,
        23 => 241,
        24 => 242,
        25 => 243,
        26 => 244,
        27 => 245,
        28 => 246,
        29 => 247,
        30 => 248,
        31 => 249,
        32 => 10,
        33 => 74,
        34 => 75,
        35 => 82,
        36 => 85,
        37 => 11,
        38 => 68,
        39 => 79,
        40 => 76,
        41 => 77,
        42 => 69,
        43 => 80,
        44 => 70,
        45 => 12,
        46 => 13,
        47 => 14,
        48 => 0,
        49 => 1,
        50 => 2,
        51 => 15,
        52 => 16,
        53 => 17,
        54 => 18,
        55 => 19,
        56 => 20,
        57 => 21,
        58 => 36,
        59 => 71,
        60 => 92,
        61 => 22,
        62 => 83,
        63 => 78,
        64 => 86,
        65 => 23,
        66 => 37,
        67 => 38,
        68 => 39,
        69 => 40,
        70 => 41,
        71 => 42,
        72 => 43,
        73 => 44,
        74 => 45,
        75 => 46,
        76 => 47,
        77 => 48,
        78 => 49,
        79 => 50,
        80 => 51,
        81 => 52,
        82 => 53,
        83 => 54,
        84 => 55,
        85 => 56,
        86 => 57,
        87 => 58,
        88 => 72,
        89 => 59,
        90 => 73,
        91 => 87,
        92 => 95,
        93 => 88,
        94 => 90,
        95 => 24,
        96 => 93,
        97 => 3,
        98 => 25,
        99 => 4,
        100 => 26,
        101 => 5,
        102 => 27,
        103 => 28,
        104 => 29,
        105 => 6,
        106 => 60,
        107 => 61,
        108 => 30,
        109 => 31,
        110 => 32,
        111 => 7,
        112 => 33,
        113 => 62,
        114 => 34,
        115 => 8,
        116 => 9,
        117 => 35,
        118 => 63,
        119 => 64,
        120 => 65,
        121 => 66,
        122 => 67,
        123 => 94,
        124 => 81,
        125 => 91,
        126 => 89,
        127 => 250,
        128 => 98,
        129 => 119,
        130 => 99,
        131 => 100,
        132 => 120,
        133 => 121,
        134 => 122,
        135 => 146,
        136 => 123,
        137 => 147,
        138 => 148,
        139 => 149,
        140 => 150,
        141 => 151,
        142 => 175,
        143 => 152,
        144 => 176,
        145 => 177,
        146 => 124,
        147 => 153,
        148 => 178,
        149 => 154,
        150 => 155,
        151 => 156,
        152 => 157,
        153 => 106,
        154 => 125,
        155 => 158,
        156 => 126,
        157 => 159,
        158 => 160,
        159 => 179,
        160 => 127,
        161 => 107,
        162 => 101,
        163 => 128,
        164 => 129,
        165 => 161,
        166 => 162,
        167 => 108,
        168 => 163,
        169 => 130,
        170 => 131,
        171 => 180,
        172 => 109,
        173 => 132,
        174 => 164,
        175 => 165,
        176 => 110,
        177 => 111,
        178 => 133,
        179 => 112,
        180 => 166,
        181 => 134,
        182 => 167,
        183 => 168,
        184 => 102,
        185 => 135,
        186 => 136,
        187 => 137,
        188 => 169,
        189 => 138,
        190 => 139,
        191 => 170,
        192 => 190,
        193 => 191,
        194 => 103,
        195 => 96,
        196 => 140,
        197 => 171,
        198 => 141,
        199 => 186,
        200 => 192,
        201 => 193,
        202 => 194,
        203 => 205,
        204 => 206,
        205 => 195,
        206 => 181,
        207 => 187,
        208 => 97,
        209 => 113,
        210 => 196,
        211 => 207,
        212 => 208,
        213 => 197,
        214 => 209,
        215 => 182,
        216 => 114,
        217 => 115,
        218 => 198,
        219 => 199,
        220 => 251,
        221 => 210,
        222 => 211,
        223 => 212,
        224 => 104,
        225 => 183,
        226 => 105,
        227 => 116,
        228 => 142,
        229 => 117,
        230 => 118,
        231 => 172,
        232 => 143,
        233 => 144,
        234 => 188,
        235 => 189,
        236 => 184,
        237 => 185,
        238 => 200,
        239 => 173,
        240 => 201,
        241 => 213,
        242 => 202,
        243 => 203,
        244 => 214,
        245 => 215,
        246 => 216,
        247 => 217,
        248 => 218,
        249 => 252,
        250 => 219,
        251 => 220,
        252 => 221,
        253 => 222,
        254 => 223,
        _ => 204,
    }
}

proof fn lemma_symbols(symbol: u8)
    ensures
        0 <= place_of(symbol) < 256,
        symbol_at(place_of(symbol)) == symbol,
{
    reveal(symbol_at);
    reveal(place_of);
}

/// The low `n` bits of `v`, most significant first.
pub open spec fn bits_of(v: int, n: nat) -> Seq<bool>
    decreases n,
{
    if n == 0 {
        Seq::empty()
    } else {
        bits_of(v / 2, (n - 1) as nat).push(v % 2 == 1)
    }
}

/// The bits of a byte string.
pub open spec fn byte_bits(bytes: Seq<u8>) -> Seq<bool>
    decreases bytes.len(),
{
    if bytes.len() == 0 {
        Seq::empty()
    } else {
        byte_bits(bytes.drop_last()) + bits_of(bytes.last() as int, 8)
    }
}

/// The word for `symbol`, as a number.
pub open spec fn word(symbol: u8) -> int {
    let w = length_at(place_of(symbol));
    first(w) + place_of(symbol) - shorter(w)
}

/// The words for all symbols of `s`, one after the other.
pub open spec fn words(s: Seq<u8>) -> Seq<bool>
    decreases s.len(),
{
    if s.len() == 0 {
        Seq::empty()
    } else {
        words(s.drop_last()) + bits_of(word(s.last()), length_at(place_of(s.last())) as nat)
    }
}

/// Bits on their way into bytes: the full bytes and the bits that do not fill one yet.
#[verifier::ext_equal]
pub struct Packing {
    pub bytes: Seq<u8>,
    pub value: int,
    pub bits: nat,
}

pub open spec fn pack_bit(p: Packing, bit: bool) -> Packing {
    let value = 2 * p.value + (if bit {
        1int
    } else {
        0
    });
    if p.bits == 7 {
        Packing { bytes: p.bytes.push(value as u8), value: 0, bits: 0 }
    } else {
        Packing { bytes: p.bytes, value, bits: p.bits + 1 }
    }
}

pub open spec fn pack_bits(p: Packing, bits: Seq<bool>) -> Packing
    decreases bits.len(),
{
    if bits.len() == 0 {
        p
    } else {
        pack_bit(pack_bits(p, bits.drop_last()), bits.last())
    }
}

/// The bits that are missing from the last byte.
pub open spec fn missing(bits: nat) -> int {
    if bits == 0 || bits >= 8 {
        0
    } else {
        8 - bits
    }
}

/// The bytes with the last one filled up by ones.
pub open spec fn pack_end(p: Packing) -> Seq<u8>
    decreases missing(p.bits),
{
    if p.bits == 0 || p.bits >= 8 {
        p.bytes
    } else {
        pack_end(pack_bit(p, true))
    }
}

/// The encoded string: the words in order, filled up by ones to whole bytes.
pub open spec fn encoded(s: Seq<u8>) -> Seq<u8> {
    pack_end(pack_bits(Packing { bytes: Seq::empty(), value: 0, bits: 0 }, words(s)))
}

/// A string on its way out of its bits: the symbols so far, and the bits read since.
#[verifier::ext_equal]
pub struct Walk {
    pub symbols: Seq<u8>,
    pub width: int,
    pub value: int,
}

/// One more bit. `None` when it completes the word that marks the end.
pub open spec fn walk_bit(p: Walk, bit: bool) -> Option<Walk> {
    let width = p.width + 1;
    let value = 2 * p.value + (if bit {
        1int
    } else {
        0
    });
    if value >= limit(width) {
        Some(Walk { symbols: p.symbols, width, value })
    } else {
        let place = shorter(width) + value - first(width);
        if place >= 256 {
            None
        } else {
            Some(Walk { symbols: p.symbols.push(symbol_at(place)), width: 0, value: 0 })
        }
    }
}

pub open spec fn walk(p: Walk, bits: Seq<bool>) -> Option<Walk>
    decreases bits.len(),
{
    if bits.len() == 0 {
        Some(p)
    } else {
        match walk(p, bits.drop_last()) {
            None => None,
            Some(q) => walk_bit(q, bits.last()),
        }
    }
}

/// A string may end between words or within a word of up to seven ones.
pub open spec fn walk_ends(p: Walk) -> bool {
    p.width <= 7 && p.value == ones(p.width)
}

/// The number with `w` ones, for up to seven.
pub open spec fn ones(w: int) -> int {
    if w <= 0 {
        0
    } else if w == 1 {
        1
    } else if w == 2 {
        3
    } else if w == 3 {
        7
    } else if w == 4 {
        15
    } else if w == 5 {
        31
    } else if w == 6 {
        63
    } else {
        127
    }
}

/// A walk that has read nothing yet.
pub open spec fn walk_start() -> Walk {
    Walk { symbols: Seq::empty(), width: 0, value: 0 }
}

/// The string that `bytes` stand for.
pub open spec fn decoded(bytes: Seq<u8>) -> Option<Seq<u8>> {
    match walk(walk_start(), byte_bits(bytes)) {
        Some(p) => if walk_ends(p) {
            Some(p.symbols)
        } else {
            None
        },
        None => None,
    }
}

/// Whether the bits read since the last symbol begin a word.
pub open spec fn walk_inv(p: Walk) -> bool {
    0 <= p.width < 30 && limit(p.width) <= p.value < ceiling(p.width)
}

/// Two to the power of `w`, for up to thirty.
pub open spec fn ceiling(w: int) -> int
    decreases w,
{
    if w <= 0 {
        1
    } else {
        2 * ceiling(w - 1)
    }
}

proof fn lemma_ceilings()
    ensures
        ceiling(1) == 2,
        ceiling(2) == 4,
        ceiling(3) == 8,
        ceiling(4) == 16,
        ceiling(5) == 32,
        ceiling(6) == 64,
        ceiling(7) == 128,
        ceiling(29) == 0x2000_0000,
        ceiling(30) == 0x4000_0000,
{
    reveal_with_fuel(ceiling, 31);
}

proof fn lemma_ceiling_le(a: int, b: int)
    requires
        0 <= a <= b,
    ensures
        ceiling(a) <= ceiling(b),
        ceiling(a) >= 1,
    decreases b,
{
    if b > 0 {
        if a < b {
            lemma_ceiling_le(a, b - 1);
        } else {
            lemma_ceiling_le(a - 1, b - 1);
        }
    }
}

proof fn lemma_walk_bit_inv(p: Walk, bit: bool)
    requires
        walk_inv(p),
    ensures
        walk_bit(p, bit) matches Some(q) ==> walk_inv(q),
        first(p.width + 1) <= 2 * p.value,
{
    reveal(first);
    reveal(count);
    lemma_bands(p.width);
    lemma_ceilings();
}

pub proof fn lemma_walk_concat(p: Walk, a: Seq<bool>, b: Seq<bool>)
    ensures
        walk(p, a + b) == (match walk(p, a) {
            None => None,
            Some(q) => walk(q, b),
        }),
    decreases b.len(),
{
    if b.len() == 0 {
        assert(a + b =~= a);
    } else {
        assert((a + b).drop_last() =~= a + b.drop_last());
        lemma_walk_concat(p, a, b.drop_last());
    }
}

pub proof fn lemma_byte_bits_concat(a: Seq<u8>, b: Seq<u8>)
    ensures
        byte_bits(a + b) == byte_bits(a) + byte_bits(b),
    decreases b.len(),
{
    if b.len() == 0 {
        assert(a + b =~= a);
        assert(byte_bits(a) + byte_bits(b) =~= byte_bits(a));
    } else {
        assert((a + b).drop_last() =~= a + b.drop_last());
        lemma_byte_bits_concat(a, b.drop_last());
        assert(byte_bits(a + b) =~= byte_bits(a) + byte_bits(b));
    }
}

/// Decodes a string whose bytes come in pieces.
#[derive(Copy, Clone, Debug)]
pub struct HuffmanDecoder {
    width: u8,
    value: u32,
}

impl HuffmanDecoder {
    /// The walk so far, when `symbols` have come out of it.
    pub closed spec fn at(self, symbols: Seq<u8>) -> Walk {
        Walk { symbols, width: self.width as int, value: self.value as int }
    }

    #[verifier::type_invariant]
    spec fn inv(self) -> bool {
        walk_inv(self.at(Seq::empty()))
    }

    pub fn new() -> (r: Self)
        ensures
            forall|symbols: Seq<u8>|
                #[trigger] r.at(symbols) == (Walk { symbols, width: 0, value: 0 }),
    {
        proof {
            lemma_band_bounds(0);
        }
        HuffmanDecoder { width: 0, value: 0 }
    }

    /// Reads one bit. A symbol that it completes is returned.
    fn feed_bit(&mut self, bit: bool) -> (r: Result<Option<u8>, ()>)
        ensures
            forall|symbols: Seq<u8>|
                #![trigger walk_bit(old(self).at(symbols), bit)]
                match r {
                    Err(_) => walk_bit(old(self).at(symbols), bit) is None,
                    Ok(None) => walk_bit(old(self).at(symbols), bit) == Some(
                        final(self).at(symbols),
                    ),
                    Ok(Some(symbol)) => walk_bit(old(self).at(symbols), bit) == Some(
                        final(self).at(symbols.push(symbol)),
                    ),
                },
    {
        proof {
            use_type_invariant(&*self);
            lemma_walk_bit_inv(self.at(Seq::empty()), bit);
            lemma_ceilings();
            lemma_ceiling_le(self.width as int, 29);
            lemma_bands(self.width as int);
            lemma_band_bounds(0);
            lemma_band_bounds(self.width + 1);
        }
        let width: u8 = self.width + 1;
        let value: u32 = 2 * self.value + (if bit {
            1
        } else {
            0
        });
        let start: u32 = exec_first(width);
        if value >= start + exec_count(width) {
            *self = HuffmanDecoder { width, value };
            Ok(None)
        } else {
            let place: u32 = exec_shorter(width) + (value - start);
            *self = HuffmanDecoder { width: 0, value: 0 };
            if place >= 256 {
                Err(())
            } else {
                Ok(Some(exec_symbol(place)))
            }
        }
    }

    /// Reads the low `n` bits of `byte`.
    fn feed_bits(&mut self, byte: u8, n: u8, out: &mut Vec<u8>) -> (r: Result<(), ()>)
        requires
            n <= 8,
        ensures
            match r {
                Err(_) => walk(old(self).at(old(out)@), bits_of(byte as int, n as nat)) is None,
                Ok(_) => walk(old(self).at(old(out)@), bits_of(byte as int, n as nat)) == Some(
                    final(self).at(final(out)@),
                ),
            },
            old(out)@.is_prefix_of(final(out)@),
        decreases n,
    {
        if n == 0 {
            return Ok(());
        }
        let ghost start = self.at(out@);
        let ghost bits = bits_of(byte as int, n as nat);
        assert(bits.drop_last() =~= bits_of(byte as int / 2, (n - 1) as nat));
        match self.feed_bits(byte / 2, n - 1, out) {
            Err(_) => return Err(()),
            Ok(_) => {},
        }
        let ghost mid = self.at(out@);
        assert(walk(start, bits) == walk_bit(mid, bits.last()));
        match self.feed_bit(byte % 2 == 1) {
            Err(_) => Err(()),
            Ok(None) => Ok(()),
            Ok(Some(symbol)) => {
                out.push(symbol);
                Ok(())
            },
        }
    }

    /// Reads the next byte of the encoded string and appends the symbols that it completes.
    pub fn feed_byte(&mut self, byte: u8, out: &mut Vec<u8>) -> (r: Result<(), ()>)
        ensures
            match r {
                Err(_) => walk(old(self).at(old(out)@), bits_of(byte as int, 8)) is None,
                Ok(_) => walk(old(self).at(old(out)@), bits_of(byte as int, 8)) == Some(
                    final(self).at(final(out)@),
                ),
            },
            old(out)@.is_prefix_of(final(out)@),
    {
        self.feed_bits(byte, 8, out)
    }

    /// Reads the next bytes of the encoded string and appends the symbols that they complete.
    pub fn feed(&mut self, bytes: &[u8], out: &mut Vec<u8>) -> (r: Result<(), ()>)
        ensures
            match r {
                Err(_) => walk(old(self).at(old(out)@), byte_bits(bytes@)) is None,
                Ok(_) => walk(old(self).at(old(out)@), byte_bits(bytes@)) == Some(
                    final(self).at(final(out)@),
                ),
            },
            old(out)@.is_prefix_of(final(out)@),
    {
        let ghost start = self.at(out@);
        let mut i: usize = 0;
        assert(bytes@.subrange(0, 0) =~= Seq::empty());
        while i < bytes.len()
            invariant
                0 <= i <= bytes@.len(),
                walk(start, byte_bits(bytes@.subrange(0, i as int))) == Some(self.at(out@)),
                start == old(self).at(old(out)@),
                old(out)@.is_prefix_of(out@),
            decreases bytes@.len() - i,
        {
            let ghost done = bytes@.subrange(0, i as int);
            let ghost next = bytes@.subrange(0, i + 1);
            let ghost rest = bytes@.subrange(i + 1, bytes@.len() as int);
            proof {
                assert(next.drop_last() =~= done);
                lemma_walk_concat(start, byte_bits(done), bits_of(bytes@[i as int] as int, 8));
                assert(bytes@ =~= next + rest);
                lemma_byte_bits_concat(next, rest);
                lemma_walk_concat(start, byte_bits(next), byte_bits(rest));
            }
            match self.feed_byte(bytes[i], out) {
                Err(_) => return Err(()),
                Ok(_) => {},
            }
            i = i + 1;
        }
        assert(bytes@.subrange(0, bytes@.len() as int) =~= bytes@);
        Ok(())
    }

    /// Whether the string may end here.
    pub fn finish(self) -> (r: bool)
        ensures
            forall|symbols: Seq<u8>| r == walk_ends(#[trigger] self.at(symbols)),
    {
        self.width <= 7 && self.value == (match self.width {
            0 => 0u32,
            1 => 1,
            2 => 3,
            3 => 7,
            4 => 15,
            5 => 31,
            6 => 63,
            _ => 127,
        })
    }
}

/// How much of a decoded text is kept: its length, and whether it is kept at all.
#[derive(Copy, Clone, Debug)]
pub struct Kept {
    pub len: usize,
    pub retained: bool,
}

/// Whether `kept` and `scratch` stand for `text` when texts of up to `limit` bytes are kept.
pub open spec fn keeps(scratch: Seq<u8>, kept: Kept, text: Seq<u8>, limit: usize) -> bool {
    &&& kept.len == text.len()
    &&& kept.retained == (text.len() <= limit)
    &&& kept.retained ==> scratch == text
}

proof fn lemma_walk_shift(p: Walk, pre: Seq<u8>, bits: Seq<bool>)
    ensures
        walk(Walk { symbols: pre + p.symbols, ..p }, bits) == (match walk(p, bits) {
            None => None,
            Some(q) => Some(Walk { symbols: pre + q.symbols, ..q }),
        }),
    decreases bits.len(),
{
    if bits.len() > 0 {
        lemma_walk_shift(p, pre, bits.drop_last());
        if let Some(q) = walk(p, bits.drop_last()) {
            if let Some(r) = walk_bit(q, bits.last()) {
                if r.symbols.len() != q.symbols.len() {
                    assert(pre + r.symbols =~= (pre + q.symbols).push(r.symbols.last()));
                }
            }
        }
    }
}

pub proof fn lemma_walk_growth(p: Walk, bits: Seq<bool>)
    ensures
        walk(p, bits) matches Some(q) ==> q.symbols.len() <= p.symbols.len() + bits.len(),
    decreases bits.len(),
{
    if bits.len() > 0 {
        lemma_walk_growth(p, bits.drop_last());
    }
}

pub proof fn lemma_bits_len(v: int, n: nat)
    ensures
        bits_of(v, n).len() == n,
    decreases n,
{
    if n > 0 {
        lemma_bits_len(v / 2, (n - 1) as nat);
    }
}

pub proof fn lemma_byte_bits_len(bytes: Seq<u8>)
    ensures
        byte_bits(bytes).len() == 8 * bytes.len(),
    decreases bytes.len(),
{
    if bytes.len() > 0 {
        lemma_byte_bits_len(bytes.drop_last());
        lemma_bits_len(bytes.last() as int, 8);
    }
}

/// Decodes more of a text of which no more than `limit` bytes are to be kept. `text` is what
/// was decoded before.
pub fn feed_text(
    decoder: &mut HuffmanDecoder,
    bytes: &[u8],
    scratch: &mut Vec<u8>,
    kept: Kept,
    limit: usize,
    Ghost(text): Ghost<Seq<u8>>,
) -> (r: Result<Kept, ()>)
    requires
        keeps(old(scratch)@, kept, text, limit),
        text.len() + 8 * bytes@.len() <= usize::MAX,
    ensures
        match r {
            Err(_) => walk(old(decoder).at(text), byte_bits(bytes@)) is None,
            Ok(now) => walk(old(decoder).at(text), byte_bits(bytes@)) matches Some(end) && end
                == final(decoder).at(end.symbols) && keeps(
                final(scratch)@,
                now,
                end.symbols,
                limit,
            ),
        },
{
    let ghost start = decoder.at(text);
    let mut now = kept;
    let mut i: usize = 0;
    let ghost mut so_far = text;
    assert(bytes@.subrange(0, 0) =~= Seq::empty());
    while i < bytes.len()
        invariant
            0 <= i <= bytes@.len(),
            start == old(decoder).at(text),
            walk(start, byte_bits(bytes@.subrange(0, i as int))) == Some(decoder.at(so_far)),
            keeps(scratch@, now, so_far, limit),
            so_far.len() + 8 * (bytes@.len() - i) <= usize::MAX,
        decreases bytes@.len() - i,
    {
        let ghost done = bytes@.subrange(0, i as int);
        let ghost next = bytes@.subrange(0, i + 1);
        let ghost rest = bytes@.subrange(i + 1, bytes@.len() as int);
        let ghost bits = bits_of(bytes@[i as int] as int, 8);
        let ghost before = *decoder;
        let mut more: Vec<u8> = Vec::new();
        proof {
            assert(next.drop_last() =~= done);
            lemma_walk_concat(start, byte_bits(done), bits);
            assert(bytes@ =~= next + rest);
            lemma_byte_bits_concat(next, rest);
            lemma_walk_concat(start, byte_bits(next), byte_bits(rest));
            lemma_walk_shift(decoder.at(Seq::empty()), so_far, bits);
            assert(so_far + Seq::<u8>::empty() =~= so_far);
            lemma_walk_growth(decoder.at(Seq::empty()), bits);
            lemma_bits_len(bytes@[i as int] as int, 8);
        }
        assert(more@ =~= Seq::empty());
        match decoder.feed_byte(bytes[i], &mut more) {
            Err(_) => return Err(()),
            Ok(_) => {},
        }
        let ghost whole = so_far + more@;
        let mut k: usize = 0;
        assert(so_far + more@.subrange(0, 0) =~= so_far);
        while k < more.len()
            invariant
                0 <= k <= more@.len(),
                whole == so_far + more@,
                whole.len() <= usize::MAX,
                keeps(scratch@, now, so_far + more@.subrange(0, k as int), limit),
            decreases more@.len() - k,
        {
            let ghost prefix = so_far + more@.subrange(0, k as int);
            assert(so_far + more@.subrange(0, k + 1) =~= prefix.push(more@[k as int]));
            now.len = now.len + 1;
            if now.retained {
                if now.len <= limit {
                    scratch.push(more[k]);
                } else {
                    now.retained = false;
                    scratch.clear();
                }
            }
            k = k + 1;
        }
        proof {
            assert(so_far + more@.subrange(0, more@.len() as int) =~= whole);
            so_far = whole;
        }
        i = i + 1;
    }
    assert(bytes@.subrange(0, bytes@.len() as int) =~= bytes@);
    Ok(now)
}

/// Appends a decoded string to `out`.
pub fn decode(bytes: &[u8], out: &mut Vec<u8>) -> (r: Result<(), ()>)
    requires
        old(out)@.len() == 0,
    ensures
        match r {
            Err(_) => decoded(bytes@) is None,
            Ok(_) => decoded(bytes@) == Some(final(out)@),
        },
{
    let mut decoder = HuffmanDecoder::new();
    assert(decoder.at(out@) =~= walk_start());
    match decoder.feed(bytes, out) {
        Err(_) => Err(()),
        Ok(_) => {
            if decoder.finish() {
                Ok(())
            } else {
                assert(!walk_ends(decoder.at(out@)));
                Err(())
            }
        },
    }
}

/// Fills bytes with bits.
struct Packer {
    value: u8,
    bits: u8,
}

impl Packer {
    spec fn at(self, bytes: Seq<u8>) -> Packing {
        Packing { bytes, value: self.value as int, bits: self.bits as nat }
    }

    spec fn wf(self) -> bool {
        self.bits < 8 && self.value < ceiling(self.bits as int)
    }

    fn push_bit(&mut self, bit: bool, out: &mut Vec<u8>)
        requires
            old(self).wf(),
        ensures
            final(self).wf(),
            final(self).at(final(out)@) == pack_bit(old(self).at(old(out)@), bit),
    {
        proof {
            lemma_ceilings();
            lemma_ceiling_le(self.bits as int, 7);
        }
        let value: u8 = 2 * self.value + (if bit {
            1
        } else {
            0
        });
        if self.bits == 7 {
            out.push(value);
            *self = Packer { value: 0, bits: 0 };
        } else {
            *self = Packer { value, bits: self.bits + 1 };
        }
    }

    fn push_word(&mut self, word: u32, width: u8, out: &mut Vec<u8>)
        requires
            old(self).wf(),
        ensures
            final(self).wf(),
            final(self).at(final(out)@) == pack_bits(
                old(self).at(old(out)@),
                bits_of(word as int, width as nat),
            ),
        decreases width,
    {
        if width == 0 {
            return;
        }
        let ghost bits = bits_of(word as int, width as nat);
        assert(bits.drop_last() =~= bits_of(word as int / 2, (width - 1) as nat));
        self.push_word(word / 2, width - 1, out);
        self.push_bit(word % 2 == 1, out);
    }
}

pub proof fn lemma_pack_concat(p: Packing, a: Seq<bool>, b: Seq<bool>)
    ensures
        pack_bits(p, a + b) == pack_bits(pack_bits(p, a), b),
    decreases b.len(),
{
    if b.len() == 0 {
        assert(a + b =~= a);
    } else {
        assert((a + b).drop_last() =~= a + b.drop_last());
        lemma_pack_concat(p, a, b.drop_last());
    }
}

/// The encoded form of `s`.
pub fn encode(s: &[u8]) -> (r: Vec<u8>)
    ensures
        r@ == encoded(s@),
{
    let mut out: Vec<u8> = Vec::new();
    let mut packer = Packer { value: 0, bits: 0 };
    let ghost start = Packing { bytes: Seq::<u8>::empty(), value: 0, bits: 0 };
    let mut i: usize = 0;
    assert(s@.subrange(0, 0) =~= Seq::empty());
    assert(packer.at(out@) =~= pack_bits(start, words(s@.subrange(0, 0))));
    while i < s.len()
        invariant
            i <= s@.len(),
            packer.wf(),
            start == (Packing { bytes: Seq::<u8>::empty(), value: 0, bits: 0 }),
            packer.at(out@) == pack_bits(start, words(s@.subrange(0, i as int))),
        decreases s@.len() - i,
    {
        let place: u32 = exec_place(s[i]);
        let width: u8 = exec_length(place);
        proof {
            let next = s@.subrange(0, i + 1);
            assert(next.drop_last() =~= s@.subrange(0, i as int));
            lemma_pack_concat(
                start,
                words(s@.subrange(0, i as int)),
                bits_of(word(s@[i as int]), width as nat),
            );
            lemma_word(s@[i as int]);
            lemma_band_bounds(width as int);
        }
        let word: u32 = exec_first(width) + (place - exec_shorter(width));
        packer.push_word(word, width, &mut out);
        i = i + 1;
    }
    assert(s@.subrange(0, s@.len() as int) =~= s@);
    while packer.bits != 0
        invariant
            packer.wf(),
            pack_end(packer.at(out@)) == encoded(s@),
        decreases missing(packer.bits as nat),
    {
        packer.push_bit(true, &mut out);
    }
    out
}

proof fn lemma_word(symbol: u8)
    ensures
        5 <= length_at(place_of(symbol)) <= 30,
        shorter(length_at(place_of(symbol))) <= place_of(symbol),
        first(length_at(place_of(symbol))) <= word(symbol) < limit(length_at(place_of(symbol))),
        0 <= place_of(symbol) < 256,
{
    lemma_symbols(symbol);
    lemma_place(place_of(symbol));
}

proof fn lemma_place(k: int)
    requires
        0 <= k < 256,
    ensures
        5 <= length_at(k) <= 30,
        shorter(length_at(k)) <= k < shorter(length_at(k)) + count(length_at(k)),
{
    reveal(length_at);
    reveal(shorter);
    reveal(count);
}

proof fn lemma_walk_to(symbols: Seq<u8>, width: nat, value: int)
    requires
        width <= 30,
        0 <= value,
        limit(width as int) <= value < ceiling(width as int),
    ensures
        walk(Walk { symbols, width: 0, value: 0 }, bits_of(value, width)) == Some(
            Walk { symbols, width: width as int, value },
        ),
    decreases width,
{
    if width > 0 {
        let bits = bits_of(value, width);
        lemma_bands(width - 1);
        lemma_band_bounds(width as int);
        assert(value / 2 >= limit(width - 1));
        lemma_walk_to(symbols, (width - 1) as nat, value / 2);
        assert(bits.drop_last() =~= bits_of(value / 2, (width - 1) as nat));
    }
}

proof fn lemma_walk_word(symbols: Seq<u8>, symbol: u8)
    ensures
        walk(
            Walk { symbols, width: 0, value: 0 },
            bits_of(word(symbol), length_at(place_of(symbol)) as nat),
        ) == Some(Walk { symbols: symbols.push(symbol), width: 0, value: 0 }),
{
    let w = length_at(place_of(symbol));
    let v = word(symbol);
    lemma_word(symbol);
    lemma_symbols(symbol);
    lemma_bands(w - 1);
    lemma_limit_below_ceiling(w);
    lemma_band_bounds(w);
    lemma_walk_to(symbols, (w - 1) as nat, v / 2);
    let bits = bits_of(v, w as nat);
    assert(bits.drop_last() =~= bits_of(v / 2, (w - 1) as nat));
}

proof fn lemma_limit_below_ceiling(w: int)
    requires
        0 <= w <= 30,
    ensures
        limit(w) <= ceiling(w),
{
    reveal(first);
    reveal(count);
    reveal_with_fuel(ceiling, 31);
}

proof fn lemma_walk_words(s: Seq<u8>)
    ensures
        walk(walk_start(), words(s)) == Some(Walk { symbols: s, width: 0, value: 0 }),
    decreases s.len(),
{
    if s.len() == 0 {
        assert(s =~= Seq::empty());
    } else {
        let init = s.drop_last();
        lemma_walk_words(init);
        lemma_walk_word(init, s.last());
        lemma_walk_concat(
            walk_start(),
            words(init),
            bits_of(word(s.last()), length_at(place_of(s.last())) as nat),
        );
        assert(init.push(s.last()) =~= s);
    }
}

/// The bits that a packing holds.
spec fn packed(p: Packing) -> Seq<bool> {
    byte_bits(p.bytes) + bits_of(p.value, p.bits)
}

spec fn packing_inv(p: Packing) -> bool {
    p.bits < 8 && 0 <= p.value < ceiling(p.bits as int)
}

proof fn lemma_pack_bit(p: Packing, bit: bool)
    requires
        packing_inv(p),
    ensures
        packing_inv(pack_bit(p, bit)),
        packed(pack_bit(p, bit)) == packed(p).push(bit),
{
    lemma_ceilings();
    let value = 2 * p.value + (if bit {
        1int
    } else {
        0
    });
    assert(value / 2 == p.value);
    assert((value % 2 == 1) == bit);
    assert(bits_of(value, p.bits + 1) =~= bits_of(p.value, p.bits).push(bit));
    if p.bits == 7 {
        let bytes = p.bytes.push(value as u8);
        assert(bytes.drop_last() =~= p.bytes);
        assert(packed(pack_bit(p, bit)) =~= packed(p).push(bit));
    } else {
        assert(packed(pack_bit(p, bit)) =~= packed(p).push(bit));
    }
}

proof fn lemma_pack_bits(p: Packing, bits: Seq<bool>)
    requires
        packing_inv(p),
    ensures
        packing_inv(pack_bits(p, bits)),
        packed(pack_bits(p, bits)) == packed(p) + bits,
    decreases bits.len(),
{
    if bits.len() == 0 {
        assert(packed(p) + bits =~= packed(p));
    } else {
        lemma_pack_bits(p, bits.drop_last());
        lemma_pack_bit(pack_bits(p, bits.drop_last()), bits.last());
        assert((packed(p) + bits.drop_last()).push(bits.last()) =~= packed(p) + bits);
    }
}

proof fn lemma_pack_end(p: Packing, symbols: Seq<u8>, k: int)
    requires
        packing_inv(p),
        p.bits > 0,
        0 <= k,
        k + 8 - p.bits <= 7,
        walk(walk_start(), packed(p)) == Some(Walk { symbols, width: k, value: ones(k) }),
    ensures
        walk(walk_start(), byte_bits(pack_end(p))) == Some(
            Walk { symbols, width: k + 8 - p.bits, value: ones(k + 8 - p.bits) },
        ),
    decreases missing(p.bits),
{
    reveal(first);
    reveal(count);
    let q = pack_bit(p, true);
    lemma_pack_bit(p, true);
    assert(packed(q).drop_last() =~= packed(p));
    assert(packed(q).last());
    assert(walk(walk_start(), packed(q)) == Some(
        Walk { symbols, width: k + 1, value: ones(k + 1) },
    ));
    assert(pack_end(p) == pack_end(q));
    if q.bits == 0 {
        assert(pack_end(q) == q.bytes);
        assert(packed(q) =~= byte_bits(q.bytes));
    } else {
        lemma_pack_end(q, symbols, k + 1);
    }
}

proof fn lemma_filled_up(p: Packing)
    requires
        packing_inv(p),
        p.bits > 0,
    ensures
        ({
            let bits = byte_bits(pack_end(p));
            let n = packed(p).len();
            &&& bits.len() == n + 8 - p.bits
            &&& bits.take(n as int) == packed(p)
            &&& forall|i: int| n <= i < bits.len() ==> #[trigger] bits[i]
        }),
    decreases missing(p.bits),
{
    let q = pack_bit(p, true);
    let n = packed(p).len() as int;
    lemma_pack_bit(p, true);
    assert(pack_end(p) == pack_end(q));
    if q.bits == 0 {
        assert(pack_end(q) == q.bytes);
        assert(packed(q) =~= byte_bits(q.bytes));
        assert(byte_bits(q.bytes).take(n) =~= packed(p));
    } else {
        lemma_filled_up(q);
        let bits = byte_bits(pack_end(p));
        assert(bits.take(n) =~= bits.take(n + 1).take(n));
        assert(packed(q).take(n) =~= packed(p));
        assert(bits[n] == bits.take(n + 1)[n]);
    }
}

/// The encoded form of a string is its words, filled up by fewer than eight ones.
pub proof fn lemma_encoded_bits(s: Seq<u8>)
    ensures
        ({
            let bits = byte_bits(encoded(s));
            let n = words(s).len();
            &&& n <= bits.len() < n + 8
            &&& bits.take(n as int) == words(s)
            &&& forall|i: int| n <= i < bits.len() ==> #[trigger] bits[i]
        }),
{
    let start = Packing { bytes: Seq::<u8>::empty(), value: 0, bits: 0 };
    let p = pack_bits(start, words(s));
    lemma_pack_bits(start, words(s));
    assert(packed(start) + words(s) =~= words(s));
    if p.bits == 0 {
        assert(packed(p) =~= byte_bits(p.bytes));
        assert(words(s).take(words(s).len() as int) =~= words(s));
    } else {
        lemma_filled_up(p);
    }
}

/// Every string is read back from its encoded form.
pub proof fn law_strings_round_trip(s: Seq<u8>)
    ensures
        decoded(encoded(s)) == Some(s),
{
    let start = Packing { bytes: Seq::<u8>::empty(), value: 0, bits: 0 };
    let p = pack_bits(start, words(s));
    lemma_pack_bits(start, words(s));
    assert(packed(start) + words(s) =~= words(s));
    lemma_walk_words(s);
    if p.bits == 0 {
        assert(packed(p) =~= byte_bits(p.bytes));
    } else {
        lemma_pack_end(p, s, 0);
    }
}

} // verus!

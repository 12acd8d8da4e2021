//! The AES-128 key schedule and the byte-level helpers it is built from.
use vstd::prelude::*;
use vstd::utf8::encode_utf8;

verus! {

/// The AES S-box, indexed by the input byte.
pub open spec fn s_box() -> Seq<u8> {
    seq![
        0x63, 0x7c, 0x77, 0x7b, 0xf2, 0x6b, 0x6f, 0xc5,
        0x30, 0x01, 0x67, 0x2b, 0xfe, 0xd7, 0xab, 0x76,
        0xca, 0x82, 0xc9, 0x7d, 0xfa, 0x59, 0x47, 0xf0,
        0xad, 0xd4, 0xa2, 0xaf, 0x9c, 0xa4, 0x72, 0xc0,
        0xb7, 0xfd, 0x93, 0x26, 0x36, 0x3f, 0xf7, 0xcc,
        0x34, 0xa5, 0xe5, 0xf1, 0x71, 0xd8, 0x31, 0x15,
        0x04, 0xc7, 0x23, 0xc3, 0x18, 0x96, 0x05, 0x9a,
        0x07, 0x12, 0x80, 0xe2, 0xeb, 0x27, 0xb2, 0x75,
        0x09, 0x83, 0x2c, 0x1a, 0x1b, 0x6e, 0x5a, 0xa0,
        0x52, 0x3b, 0xd6, 0xb3, 0x29, 0xe3, 0x2f, 0x84,
        0x53, 0xd1, 0x00, 0xed, 0x20, 0xfc, 0xb1, 0x5b,
        0x6a, 0xcb, 0xbe, 0x39, 0x4a, 0x4c, 0x58, 0xcf,
        0xd0, 0xef, 0xaa, 0xfb, 0x43, 0x4d, 0x33, 0x85,
        0x45, 0xf9, 0x02, 0x7f, 0x50, 0x3c, 0x9f, 0xa8,
        0x51, 0xa3, 0x40, 0x8f, 0x92, 0x9d, 0x38, 0xf5,
        0xbc, 0xb6, 0xda, 0x21, 0x10, 0xff, 0xf3, 0xd2,
        0xcd, 0x0c, 0x13, 0xec, 0x5f, 0x97, 0x44, 0x17,
        0xc4, 0xa7, 0x7e, 0x3d, 0x64, 0x5d, 0x19, 0x73,
        0x60, 0x81, 0x4f, 0xdc, 0x22, 0x2a, 0x90, 0x88,
        0x46, 0xee, 0xb8, 0x14, 0xde, 0x5e, 0x0b, 0xdb,
        0xe0, 0x32, 0x3a, 0x0a, 0x49, 0x06, 0x24, 0x5c,
        0xc2, 0xd3, 0xac, 0x62, 0x91, 0x95, 0xe4, 0x79,
        0xe7, 0xc8, 0x37, 0x6d, 0x8d, 0xd5, 0x4e, 0xa9,
        0x6c, 0x56, 0xf4, 0xea, 0x65, 0x7a, 0xae, 0x08,
        0xba, 0x78, 0x25, 0x2e, 0x1c, 0xa6, 0xb4, 0xc6,
        0xe8, 0xdd, 0x74, 0x1f, 0x4b, 0xbd, 0x8b, 0x8a,
        0x70, 0x3e, 0xb5, 0x66, 0x48, 0x03, 0xf6, 0x0e,
        0x61, 0x35, 0x57, 0xb9, 0x86, 0xc1, 0x1d, 0x9e,
        0xe1, 0xf8, 0x98, 0x11, 0x69, 0xd9, 0x8e, 0x94,
        0x9b, 0x1e, 0x87, 0xe9, 0xce, 0x55, 0x28, 0xdf,
        0x8c, 0xa1, 0x89, 0x0d, 0xbf, 0xe6, 0x42, 0x68,
        0x41, 0x99, 0x2d, 0x0f, 0xb0, 0x54, 0xbb, 0x16,
    ]
}

fn s_box_table() -> (r: [u8; 256])
    ensures
        r@ == s_box(),
{
    let r: [u8; 256] = [
        0x63, 0x7c, 0x77, 0x7b, 0xf2, 0x6b, 0x6f, 0xc5,
        0x30, 0x01, 0x67, 0x2b, 0xfe, 0xd7, 0xab, 0x76,
        0xca, 0x82, 0xc9, 0x7d, 0xfa, 0x59, 0x47, 0xf0,
        0xad, 0xd4, 0xa2, 0xaf, 0x9c, 0xa4, 0x72, 0xc0,
        0xb7, 0xfd, 0x93, 0x26, 0x36, 0x3f, 0xf7, 0xcc,
        0x34, 0xa5, 0xe5, 0xf1, 0x71, 0xd8, 0x31, 0x15,
        0x04, 0xc7, 0x23, 0xc3, 0x18, 0x96, 0x05, 0x9a,
        0x07, 0x12, 0x80, 0xe2, 0xeb, 0x27, 0xb2, 0x75,
        0x09, 0x83, 0x2c, 0x1a, 0x1b, 0x6e, 0x5a, 0xa0,
        0x52, 0x3b, 0xd6, 0xb3, 0x29, 0xe3, 0x2f, 0x84,
        0x53, 0xd1, 0x00, 0xed, 0x20, 0xfc, 0xb1, 0x5b,
        0x6a, 0xcb, 0xbe, 0x39, 0x4a, 0x4c, 0x58, 0xcf,
        0xd0, 0xef, 0xaa, 0xfb, 0x43, 0x4d, 0x33, 0x85,
        0x45, 0xf9, 0x02, 0x7f, 0x50, 0x3c, 0x9f, 0xa8,
        0x51, 0xa3, 0x40, 0x8f, 0x92, 0x9d, 0x38, 0xf5,
        0xbc, 0xb6, 0xda, 0x21, 0x10, 0xff, 0xf3, 0xd2,
        0xcd, 0x0c, 0x13, 0xec, 0x5f, 0x97, 0x44, 0x17,
        0xc4, 0xa7, 0x7e, 0x3d, 0x64, 0x5d, 0x19, 0x73,
        0x60, 0x81, 0x4f, 0xdc, 0x22, 0x2a, 0x90, 0x88,
        0x46, 0xee, 0xb8, 0x14, 0xde, 0x5e, 0x0b, 0xdb,
        0xe0, 0x32, 0x3a, 0x0a, 0x49, 0x06, 0x24, 0x5c,
        0xc2, 0xd3, 0xac, 0x62, 0x91, 0x95, 0xe4, 0x79,
        0xe7, 0xc8, 0x37, 0x6d, 0x8d, 0xd5, 0x4e, 0xa9,
        0x6c, 0x56, 0xf4, 0xea, 0x65, 0x7a, 0xae, 0x08,
        0xba, 0x78, 0x25, 0x2e, 0x1c, 0xa6, 0xb4, 0xc6,
        0xe8, 0xdd, 0x74, 0x1f, 0x4b, 0xbd, 0x8b, 0x8a,
        0x70, 0x3e, 0xb5, 0x66, 0x48, 0x03, 0xf6, 0x0e,
        0x61, 0x35, 0x57, 0xb9, 0x86, 0xc1, 0x1d, 0x9e,
        0xe1, 0xf8, 0x98, 0x11, 0x69, 0xd9, 0x8e, 0x94,
        0x9b, 0x1e, 0x87, 0xe9, 0xce, 0x55, 0x28, 0xdf,
        0x8c, 0xa1, 0x89, 0x0d, 0xbf, 0xe6, 0x42, 0x68,
        0x41, 0x99, 0x2d, 0x0f, 0xb0, 0x54, 0xbb, 0x16,
    ];
    proof {
        assert(r@ =~= s_box());
    }
    r
}

/// The S-box applied to one byte.
pub fn substitute_byte(byte: u8) -> (r: u8)
    ensures
        r == s_box()[byte as int],
{
    let right_nibble: usize = (byte & 0xf) as usize;
    let left_nibble: usize = (byte >> 4) as usize;
    assert(left_nibble * 16 + right_nibble == byte) by (bit_vector)
        requires
            right_nibble == (byte & 0xf) as usize,
            left_nibble == (byte >> 4) as usize,
    ;
    s_box_table()[left_nibble * 16 + right_nibble]
}

/// Rotation of a word left by one byte.
pub open spec fn rotl8(w: u32) -> u32 {
    (w << 8u32) | (w >> 24u32)
}

/// The S-box applied to each byte of a word, each byte kept in its place.
pub open spec fn sub_word(w: u32) -> u32 {
    (s_box()[((w & 0xff) as u8) as int] as u32) | ((s_box()[(((w >> 8u32) & 0xff) as u8) as int]
        as u32) << 8u32) | ((s_box()[(((w >> 16u32) & 0xff) as u8) as int] as u32) << 16u32) | ((
    s_box()[((w >> 24u32) as u8) as int] as u32) << 24u32)
}

/// Doubling in GF(2^8) modulo the AES polynomial.
pub open spec fn next_rc(rc: u8) -> u8 {
    if rc >= 0x80 {
        (rc << 1u8) ^ 0x1b
    } else {
        rc << 1u8
    }
}

/// The next round constant word; the constant byte sits in the top byte.
pub open spec fn next_rcon(rcon: u32) -> u32 {
    (next_rc((rcon >> 24u32) as u8) as u32) << 24u32
}

/// A 128-bit block as its four 32-bit words, least significant first.
pub open spec fn words_of(num: u128) -> Seq<u32> {
    seq![num as u32, (num >> 32u128) as u32, (num >> 64u128) as u32, (num >> 96u128) as u32]
}

/// The 128-bit block made of four 32-bit words, least significant first.
pub open spec fn block_of(w: Seq<u32>) -> u128 {
    (w[0] as u128) | ((w[1] as u128) << 32u128) | ((w[2] as u128) << 64u128) | ((w[3] as u128)
        << 96u128)
}

/// One step of the AES-128 key expansion: the round key that follows
/// `prev` under the round constant `rcon`.
pub open spec fn next_key(rcon: u32, prev: u128) -> u128 {
    let w = words_of(prev);
    let n0 = sub_word(rotl8(w[0])) ^ w[3] ^ rcon;
    let n1 = w[2] ^ n0;
    let n2 = w[1] ^ n1;
    let n3 = w[0] ^ n2;
    block_of(seq![n3, n2, n1, n0])
}

/// The round constant word used to derive round key `i` (from 1 on).
pub open spec fn rcon_for_round(i: nat) -> u32
    decreases i,
{
    if i <= 1 {
        0x0100_0000
    } else {
        next_rcon(rcon_for_round((i - 1) as nat))
    }
}

/// Round key `i` of the expansion of `seed`.
pub open spec fn round_key(seed: u128, i: nat) -> u128
    decreases i,
{
    if i == 0 {
        seed
    } else {
        next_key(rcon_for_round(i), round_key(seed, (i - 1) as nat))
    }
}

/// Byte `i` of a 128-bit block, least significant first.
pub open spec fn block_byte(k: u128, i: int) -> u8 {
    (k >> ((8 * i) as u128)) as u8
}

/// Rotates a word left by one byte.
pub fn rotate_word(word: u32) -> (r: u32)
    ensures
        r == rotl8(word),
{
    let left_byte = word ^ !(0xffu32 << 24u32);
    let r = (word << 8u32) ^ (left_byte >> 24u32);
    assert(r == rotl8(word)) by (bit_vector)
        requires
            left_byte == word ^ !(0xffu32 << 24u32),
            r == (word << 8u32) ^ (left_byte >> 24u32),
    ;
    r
}

/// Applies the S-box to each byte of a word.
pub fn substitute_word(word: u32) -> (r: u32)
    ensures
        r == sub_word(word),
{
    let b0 = substitute_byte((word & 0xff) as u8);
    let b1 = substitute_byte(((word >> 8u32) & 0xff) as u8);
    let b2 = substitute_byte(((word >> 16u32) & 0xff) as u8);
    let b3 = substitute_byte((word >> 24u32) as u8);
    (b0 as u32) | ((b1 as u32) << 8u32) | ((b2 as u32) << 16u32) | ((b3 as u32) << 24u32)
}

/// Advances the round-constant byte: doubling in GF(2^8).
pub fn increment_rc(rc: u8) -> (r: u8)
    ensures
        r == next_rc(rc),
{
    if rc >= 0x80 {
        (rc << 1u8) ^ 0x1b
    } else {
        rc << 1u8
    }
}

/// Advances the round-constant word, whose constant byte is the top byte.
pub fn increment_rcon(rcon: u32) -> (r: u32)
    ensures
        r == next_rcon(rcon),
{
    let rc = (rcon >> 24u32) as u8;
    (increment_rc(rc) as u32) << 24u32
}

/// Splits a block into its four words, least significant first.
pub fn u128_to_words(num: u128) -> (r: [u32; 4])
    ensures
        r@ == words_of(num),
{
    let r: [u32; 4] = [num as u32, (num >> 32u128) as u32, (num >> 64u128) as u32, (num
        >> 96u128) as u32];
    proof {
        assert(r@ =~= words_of(num));
    }
    r
}

/// Joins four words, least significant first, into a block.
pub fn words_to_u128(words: [u32; 4]) -> (r: u128)
    ensures
        r == block_of(words@),
{
    (words[0] as u128) | ((words[1] as u128) << 32u128) | ((words[2] as u128) << 64u128) | ((
    words[3] as u128) << 96u128)
}

/// Splitting a block into words and joining them gives the block back, and
/// joining words and splitting the block gives the words back.
pub proof fn lemma_words_round_trip(num: u128, w: Seq<u32>)
    requires
        w.len() == 4,
    ensures
        block_of(words_of(num)) == num,
        words_of(block_of(w)) =~= w,
{
    let (w0, w1, w2, w3) = (w[0], w[1], w[2], w[3]);
    assert(((num as u32) as u128) | ((((num >> 32u128) as u32) as u128) << 32u128) | ((((num
        >> 64u128) as u32) as u128) << 64u128) | ((((num >> 96u128) as u32) as u128) << 96u128)
        == num) by (bit_vector);
    let b = (w0 as u128) | ((w1 as u128) << 32u128) | ((w2 as u128) << 64u128) | ((w3 as u128)
        << 96u128);
    assert(b as u32 == w0 && (b >> 32u128) as u32 == w1 && (b >> 64u128) as u32 == w2 && (b
        >> 96u128) as u32 == w3) by (bit_vector)
        requires
            b == (w0 as u128) | ((w1 as u128) << 32u128) | ((w2 as u128) << 64u128) | ((
            w3 as u128) << 96u128),
    ;
}

/// Derives the round key that follows `prev_key` under the round constant
/// `rcon`.
pub fn compute_next_key(rcon: u32, prev_key: u128) -> (r: u128)
    ensures
        r == next_key(rcon, prev_key),
{
    let w = u128_to_words(prev_key);
    let n0 = substitute_word(rotate_word(w[0])) ^ w[3] ^ rcon;
    let n1 = w[2] ^ n0;
    let n2 = w[1] ^ n1;
    let n3 = w[0] ^ n2;
    let res: [u32; 4] = [n3, n2, n1, n0];
    proof {
        assert(res@ =~= seq![n3, n2, n1, n0]);
    }
    words_to_u128(res)
}

/// Relies on std's `TryFrom<Vec<T>>` for `[T; N]`: it succeeds exactly when
/// the vector holds `N` items, and keeps their order.
#[verifier::external_body]
pub fn vec_to_arr<T, const N: usize>(v: Vec<T>) -> (r: [T; N])
    requires
        v@.len() == N,
    ensures
        r@ == v@,
{
    v.try_into().ok().unwrap()
}

/// The AES-128 key expansion: the eleven round keys derived from `key_seed`,
/// the first being the seed itself.
pub fn key_schedule(key_seed: u128) -> (r: [u128; 11])
    ensures
        forall|i: int| 0 <= i < 11 ==> r@[i] == round_key(key_seed, i as nat),
{
    let rc: u8 = 1;
    let mut rcon: u32 = (rc as u32) << 24u32;
    assert(rcon == 0x0100_0000) by (bit_vector)
        requires
            rc == 1,
            rcon == (rc as u32) << 24u32,
    ;
    let mut keys: Vec<u128> = Vec::new();
    keys.push(key_seed);
    let mut round: usize = 1;
    while round < 11
        invariant
            1 <= round <= 11,
            keys.len() == round,
            rcon == rcon_for_round(round as nat),
            forall|i: int| 0 <= i < round ==> keys@[i] == round_key(key_seed, i as nat),
        decreases 11 - round,
    {
        let next = compute_next_key(rcon, keys[round - 1]);
        keys.push(next);
        rcon = increment_rcon(rcon);
        round = round + 1;
    }
    vec_to_arr(keys)
}

/// XORs each byte of `data` with the byte of `round_key` at the same
/// position, least significant first.
pub fn add_round_key(data: Vec<u8>, round_key: u128) -> (r: Vec<u8>)
    requires
        data.len() <= 16,
    ensures
        r.len() == data.len(),
        forall|i: int| 0 <= i < data.len() ==> r@[i] == data@[i] ^ block_byte(round_key, i),
{
    let mut r: Vec<u8> = Vec::new();
    let mut i: usize = 0;
    while i < data.len()
        invariant
            data.len() <= 16,
            i <= data.len(),
            r.len() == i,
            forall|j: int| 0 <= j < i ==> r@[j] == data@[j] ^ block_byte(round_key, j),
        decreases data.len() - i,
    {
        let k = (round_key >> ((8 * i) as u128)) as u8;
        r.push(data[i] ^ k);
        i = i + 1;
    }
    r
}

/// The bytes of a message of `chars` characters whose UTF-8 encoding is
/// `bytes`, padded on the right with `-` up to `128 - bytes.len() % 128`
/// characters.
pub open spec fn padded_message(bytes: Seq<u8>, chars: nat) -> Seq<u8> {
    let width = (128 - bytes.len() % 128) as nat;
    if chars < width {
        bytes + Seq::new((width - chars) as nat, |_i: int| 0x2du8)
    } else {
        bytes
    }
}

/// The message's bytes, padded with `-` as `padded_message` says.
pub fn vectorize_msg(msg: String) -> (r: Vec<u8>)
    ensures
        r@ == padded_message(encode_utf8(msg@), msg@.len()),
{
    let s = msg.as_str();
    let bytes = s.as_bytes();
    let chars = s.unicode_len();
    let width: usize = 128 - bytes.len() % 128;
    let mut r: Vec<u8> = Vec::new();
    let mut i: usize = 0;
    while i < bytes.len()
        invariant
            i <= bytes@.len(),
            r@ == bytes@.subrange(0, i as int),
        decreases bytes@.len() - i,
    {
        r.push(bytes[i]);
        i = i + 1;
    }
    assert(r@ =~= bytes@);
    if chars < width {
        let mut pad: usize = chars;
        while pad < width
            invariant
                chars <= pad <= width,
                r@ =~= bytes@ + Seq::new((pad - chars) as nat, |_i: int| 0x2du8),
            decreases width - pad,
        {
            r.push(0x2du8);
            pad = pad + 1;
        }
    }
    r
}

} // verus!

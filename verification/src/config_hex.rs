//! The text form of a spin configuration: its bits packed into bytes, eight
//! to a byte and least significant bit first, each byte written as two
//! lowercase hex digits, the bytes separated by single spaces.

use vstd::prelude::*;
use vstd::arithmetic::div_mod::lemma_fundamental_div_mod_converse;
use crate::bits::{bits_of_words, max_bits, word_bit, Spins};
use crate::text::{
    all_digits, digit_value, digits_value, is_ws, parse_unsigned, parse_unsigned_spec, tokens,
    unsigned_digits, word_len,
};

verus! {

/// Bit `j` (0 to 7) of a byte, least significant first.
pub open spec fn byte_bit(b: u8, j: int) -> bool {
    (b >> (j as u8)) & 1 == 1
}

/// Bit `t` of a configuration padded with `false` past its end.
pub open spec fn padded_bit(bits: Seq<bool>, t: int) -> bool {
    t < bits.len() && bits[t]
}

/// The byte whose bits, least significant first, are the eight given.
pub open spec fn pack_byte(
    b0: bool,
    b1: bool,
    b2: bool,
    b3: bool,
    b4: bool,
    b5: bool,
    b6: bool,
    b7: bool,
) -> u8 {
    (if b0 { 1u8 } else { 0u8 }) | (if b1 { 2u8 } else { 0u8 }) | (if b2 { 4u8 } else { 0u8 })
        | (if b3 { 8u8 } else { 0u8 }) | (if b4 { 16u8 } else { 0u8 }) | (if b5 { 32u8 } else {
        0u8
    }) | (if b6 { 64u8 } else { 0u8 }) | (if b7 { 128u8 } else { 0u8 })
}

/// Byte `k` of a configuration: its bits `8 k` to `8 k + 7`.
pub open spec fn config_byte(bits: Seq<bool>, k: int) -> u8 {
    pack_byte(
        padded_bit(bits, 8 * k),
        padded_bit(bits, 8 * k + 1),
        padded_bit(bits, 8 * k + 2),
        padded_bit(bits, 8 * k + 3),
        padded_bit(bits, 8 * k + 4),
        padded_bit(bits, 8 * k + 5),
        padded_bit(bits, 8 * k + 6),
        padded_bit(bits, 8 * k + 7),
    )
}

/// The number of bytes that hold `n` bits.
pub open spec fn hex_len(n: nat) -> nat {
    (n + 7) / 8
}

/// The bytes of a configuration.
pub open spec fn config_bytes(bits: Seq<bool>) -> Seq<u8> {
    Seq::new(hex_len(bits.len()), |k: int| config_byte(bits, k))
}

/// A lowercase hex digit.
pub open spec fn hex_char(n: u8) -> char {
    if n < 10 {
        (48 + n) as char
    } else {
        (87 + n) as char
    }
}

/// A byte as two lowercase hex digits (as `format!("{:02x}")`).
pub open spec fn hex2(b: u8) -> Seq<char> {
    seq![hex_char(b / 16), hex_char(b % 16)]
}

/// Bytes written as hex pairs separated by single spaces.
pub open spec fn hex_text(bytes: Seq<u8>) -> Seq<char>
    decreases bytes.len(),
{
    if bytes.len() == 0 {
        seq![]
    } else if bytes.len() == 1 {
        hex2(bytes[0])
    } else {
        hex2(bytes[0]) + seq![' '] + hex_text(bytes.skip(1))
    }
}

/// The text form of a configuration.
pub open spec fn config_text(bits: Seq<bool>) -> Seq<char> {
    hex_text(config_bytes(bits))
}

/// The bits of a sequence of bytes, each byte least significant bit first.
pub open spec fn bits_of_bytes(bytes: Seq<u8>) -> Seq<bool> {
    Seq::new(8 * bytes.len(), |t: int| byte_bit(bytes[t / 8], t % 8))
}

/// Why the hex entries of a configuration could not be read.
#[derive(Clone, Copy, Debug, PartialEq, Eq, Structural)]
pub enum HexConfigError {
    /// Fewer entries than the configuration needs.
    MissingEntry,
    /// An entry that is no hex byte.
    NotHex,
}

/// The byte that a token holds, where it holds one.
pub open spec fn token_byte(tok: Seq<char>) -> u8 {
    parse_unsigned_spec(tok, 16, 255)->0 as u8
}

/// The configuration of `n` points that the first `hex_len(n)` tokens give,
/// each read as a hex byte: an error where one of them is no hex byte, or
/// where there are too few.
pub open spec fn config_from_tokens(toks: Seq<Seq<char>>, n: nat) -> Result<
    Seq<bool>,
    HexConfigError,
> {
    let h = hex_len(n);
    if exists|i: int|
        0 <= i < h && i < toks.len() && (#[trigger] parse_unsigned_spec(toks[i], 16, 255)) is None {
        Err(HexConfigError::NotHex)
    } else if toks.len() < h {
        Err(HexConfigError::MissingEntry)
    } else {
        Ok(bits_of_bytes(Seq::new(h, |i: int| token_byte(toks[i]))).take(n as int))
    }
}

/// The bits of a packed byte are the bits it was packed from.
pub proof fn lemma_pack_byte_bits(
    b0: bool,
    b1: bool,
    b2: bool,
    b3: bool,
    b4: bool,
    b5: bool,
    b6: bool,
    b7: bool,
)
    ensures
        byte_bit(pack_byte(b0, b1, b2, b3, b4, b5, b6, b7), 0) == b0,
        byte_bit(pack_byte(b0, b1, b2, b3, b4, b5, b6, b7), 1) == b1,
        byte_bit(pack_byte(b0, b1, b2, b3, b4, b5, b6, b7), 2) == b2,
        byte_bit(pack_byte(b0, b1, b2, b3, b4, b5, b6, b7), 3) == b3,
        byte_bit(pack_byte(b0, b1, b2, b3, b4, b5, b6, b7), 4) == b4,
        byte_bit(pack_byte(b0, b1, b2, b3, b4, b5, b6, b7), 5) == b5,
        byte_bit(pack_byte(b0, b1, b2, b3, b4, b5, b6, b7), 6) == b6,
        byte_bit(pack_byte(b0, b1, b2, b3, b4, b5, b6, b7), 7) == b7,
{
    let p = pack_byte(b0, b1, b2, b3, b4, b5, b6, b7);
    assert(p == (if b0 { 1u8 } else { 0u8 }) | (if b1 { 2u8 } else { 0u8 }) | (if b2 {
        4u8
    } else {
        0u8
    }) | (if b3 { 8u8 } else { 0u8 }) | (if b4 { 16u8 } else { 0u8 }) | (if b5 {
        32u8
    } else {
        0u8
    }) | (if b6 { 64u8 } else { 0u8 }) | (if b7 { 128u8 } else { 0u8 }));
    assert(((p >> 0u8) & 1 == 1) == b0 && ((p >> 1u8) & 1 == 1) == b1 && ((p >> 2u8) & 1 == 1)
        == b2 && ((p >> 3u8) & 1 == 1) == b3 && ((p >> 4u8) & 1 == 1) == b4 && ((p >> 5u8) & 1
        == 1) == b5 && ((p >> 6u8) & 1 == 1) == b6 && ((p >> 7u8) & 1 == 1) == b7)
        by (bit_vector)
        requires
            p == (if b0 { 1u8 } else { 0u8 }) | (if b1 { 2u8 } else { 0u8 }) | (if b2 {
                4u8
            } else {
                0u8
            }) | (if b3 { 8u8 } else { 0u8 }) | (if b4 { 16u8 } else { 0u8 }) | (if b5 {
                32u8
            } else {
                0u8
            }) | (if b6 { 64u8 } else { 0u8 }) | (if b7 { 128u8 } else { 0u8 }),
    ;
}

/// The bits of the bytes of a configuration, cut to its length, are the
/// configuration.
pub proof fn lemma_config_bytes_bits(bits: Seq<bool>)
    ensures
        bits_of_bytes(config_bytes(bits)).take(bits.len() as int) == bits,
{
    let bytes = config_bytes(bits);
    let all = bits_of_bytes(bytes);
    assert forall|t: int| 0 <= t < bits.len() implies #[trigger] all[t] == bits[t] by {
        let k = t / 8;
        let j = t % 8;
        assert(8 * k + j == t);
        assert(0 <= k < hex_len(bits.len()));
        lemma_pack_byte_bits(
            padded_bit(bits, 8 * k),
            padded_bit(bits, 8 * k + 1),
            padded_bit(bits, 8 * k + 2),
            padded_bit(bits, 8 * k + 3),
            padded_bit(bits, 8 * k + 4),
            padded_bit(bits, 8 * k + 5),
            padded_bit(bits, 8 * k + 6),
            padded_bit(bits, 8 * k + 7),
        );
    }
    assert(all.take(bits.len() as int) =~= bits);
}

/// A hex digit reads back as its value and is no whitespace.
pub proof fn lemma_hex_char(n: u8)
    requires
        n < 16,
    ensures
        digit_value(hex_char(n)) == n,
        !is_ws(hex_char(n)),
        hex_char(n) != '+',
        hex_char(n) != '$',
{
}

/// Two hex digits read back as the byte they were written from.
pub proof fn lemma_hex2_parses(b: u8)
    ensures
        parse_unsigned_spec(hex2(b), 16, 255) == Some(b as nat),
{
    let d = hex2(b);
    lemma_hex_char(b / 16);
    lemma_hex_char(b % 16);
    assert(unsigned_digits(d) == d);
    assert(all_digits(d, 16));
    assert(d.drop_last() =~= seq![hex_char(b / 16)]);
    assert(d.drop_last().drop_last() =~= Seq::<char>::empty());
    assert(digits_value(d.drop_last().drop_last(), 16) == 0);
    assert(d.drop_last().last() == hex_char(b / 16));
    assert(digits_value(d.drop_last(), 16) == b / 16);
    assert(digits_value(d, 16) == b);
}

/// The tokens of the text form of some bytes are their hex pairs.
pub proof fn lemma_hex_text_tokens(bytes: Seq<u8>)
    ensures
        tokens(hex_text(bytes)) == Seq::new(bytes.len(), |i: int| hex2(bytes[i])),
    decreases bytes.len(),
{
    if bytes.len() == 0 {
        assert(tokens(hex_text(bytes)) =~= Seq::new(bytes.len(), |i: int| hex2(bytes[i])));
    } else {
        let h = hex2(bytes[0]);
        lemma_hex_char(bytes[0] / 16);
        lemma_hex_char(bytes[0] % 16);
        let s = hex_text(bytes);
        let rest = hex_text(bytes.skip(1));
        lemma_hex_text_tokens(bytes.skip(1));
        if bytes.len() == 1 {
            assert(s == h);
            assert(h[1] == hex_char(bytes[0] % 16));
            assert(h[0] == hex_char(bytes[0] / 16));
            assert(s.skip(1)[0] == h[1]);
            assert(s.skip(1).skip(1).len() == 0);
            assert(word_len(s.skip(1).skip(1)) == 0);
            assert(word_len(s.skip(1)) == 1);
            assert(word_len(s) == 2);
            assert(s.take(2) =~= h);
            assert(s.skip(2).len() == 0);
        } else {
            assert(s == h + seq![' '] + rest);
            assert(h[1] == hex_char(bytes[0] % 16));
            assert(h[0] == hex_char(bytes[0] / 16));
            assert(s[0] == h[0]);
            assert(s.skip(1)[0] == h[1]);
            assert(s.skip(1).skip(1)[0] == ' ');
            assert(is_ws(' '));
            assert(word_len(s.skip(1).skip(1)) == 0);
            assert(word_len(s.skip(1)) == 1);
            assert(word_len(s) == 2);
            assert(s.take(2) =~= h);
            assert(s.skip(2)[0] == ' ');
            assert(s.skip(2).skip(1) =~= rest);
            assert(tokens(s.skip(2)) == tokens(rest));
        }
        assert(!is_ws(s[0]));
        assert(tokens(s) == seq![s.take(2)] + tokens(s.skip(2)));
        assert(tokens(s) =~= Seq::new(bytes.len(), |i: int| hex2(bytes[i])));
    }
}

/// Reading the text form of a configuration back, for as many points as it
/// has, gives the configuration.
pub proof fn lemma_config_text_round_trip(bits: Seq<bool>)
    ensures
        config_from_tokens(tokens(config_text(bits)), bits.len()) == Ok::<
            Seq<bool>,
            HexConfigError,
        >(bits),
{
    let bytes = config_bytes(bits);
    let toks = tokens(config_text(bits));
    lemma_hex_text_tokens(bytes);
    assert(toks.len() == hex_len(bits.len()));
    assert forall|i: int| 0 <= i < toks.len() implies (#[trigger] parse_unsigned_spec(
        toks[i],
        16,
        255,
    )) == Some(bytes[i] as nat) by {
        lemma_hex2_parses(bytes[i]);
    }
    let h = hex_len(bits.len());
    let read = Seq::new(h, |i: int| token_byte(toks[i]));
    assert(read =~= bytes);
    lemma_config_bytes_bits(bits);
}

/// The text form of a nonempty configuration is not empty.
pub proof fn lemma_config_text_nonempty(bits: Seq<bool>)
    requires
        bits.len() > 0,
    ensures
        config_text(bits).len() > 0,
{
    let bytes = config_bytes(bits);
    assert(bytes.len() > 0);
    if bytes.len() == 1 {
        assert(config_text(bits) == hex2(bytes[0]));
    } else {
        assert(config_text(bits) == hex2(bytes[0]) + seq![' '] + hex_text(bytes.skip(1)));
    }
}

/// The text form of a nonempty configuration begins with a hex digit.
pub proof fn lemma_config_text_first(bits: Seq<bool>)
    requires
        bits.len() > 0,
    ensures
        config_text(bits).len() > 0,
        config_text(bits)[0] != '$',
{
    lemma_config_text_nonempty(bits);
    let bytes = config_bytes(bits);
    lemma_hex_char(bytes[0] / 16);
    if bytes.len() == 1 {
        assert(config_text(bits) == hex2(bytes[0]));
    } else {
        assert(config_text(bits) == hex2(bytes[0]) + seq![' '] + hex_text(bytes.skip(1)));
    }
}

/// Writing one more byte adds a space (unless it is the first) and its pair.
proof fn lemma_hex_text_push(bytes: Seq<u8>, b: u8)
    ensures
        hex_text(bytes.push(b)) == if bytes.len() == 0 {
            hex2(b)
        } else {
            hex_text(bytes) + seq![' '] + hex2(b)
        },
    decreases bytes.len(),
{
    let p = bytes.push(b);
    if bytes.len() == 0 {
        assert(p.len() == 1);
    } else if bytes.len() == 1 {
        assert(p.skip(1) =~= seq![b]);
        assert(hex_text(p.skip(1)) == hex2(b));
    } else {
        assert(p.skip(1) =~= bytes.skip(1).push(b));
        lemma_hex_text_push(bytes.skip(1), b);
        assert(hex_text(p) =~= hex_text(bytes) + seq![' '] + hex2(b));
    }
}

/// A hex digit for a value below 16.
fn hex_digit_char(n: u8) -> (c: char)
    requires
        n < 16,
    ensures
        c == hex_char(n),
{
    if n < 10 {
        (48 + n) as char
    } else {
        (87 + n) as char
    }
}

/// Bit `t` of the configuration, `false` past its end.
fn padded_get(bv: &Spins, n: usize, t: usize) -> (b: bool)
    requires
        n == bv@.len(),
    ensures
        b == padded_bit(bv@, t as int),
{
    if t < n {
        bv.get(t)
    } else {
        false
    }
}

/// Byte `k` of a configuration.
fn config_byte_at(bv: &Spins, n: usize, k: usize) -> (byte: u8)
    requires
        n == bv@.len(),
        k < hex_len(n as nat),
    ensures
        byte == config_byte(bv@, k as int),
{
    let base = 8 * k;
    (if padded_get(bv, n, base) {
        1u8
    } else {
        0u8
    }) | (if padded_get(bv, n, base + 1) {
        2u8
    } else {
        0u8
    }) | (if padded_get(bv, n, base + 2) {
        4u8
    } else {
        0u8
    }) | (if padded_get(bv, n, base + 3) {
        8u8
    } else {
        0u8
    }) | (if padded_get(bv, n, base + 4) {
        16u8
    } else {
        0u8
    }) | (if padded_get(bv, n, base + 5) {
        32u8
    } else {
        0u8
    }) | (if padded_get(bv, n, base + 6) {
        64u8
    } else {
        0u8
    }) | (if padded_get(bv, n, base + 7) {
        128u8
    } else {
        0u8
    })
}

/// The text form of a configuration: its bytes as lowercase hex pairs
/// separated by single spaces.
pub fn bitvec_to_hex_string(bv: &Spins) -> (r: String)
    ensures
        r@ == config_text(bv@),
{
    let n = bv.len();
    let h = n / 8 + if n % 8 != 0 {
        1
    } else {
        0
    };
    assert(h == hex_len(n as nat));
    let ghost bytes = config_bytes(bv@);
    let mut out: Vec<char> = Vec::new();
    let mut k: usize = 0;
    assert(bytes.take(0) =~= Seq::<u8>::empty());
    while k < h
        invariant
            n == bv@.len(),
            h == hex_len(n as nat),
            bytes == config_bytes(bv@),
            k <= h,
            out@ == hex_text(bytes.take(k as int)),
        decreases h - k,
    {
        let byte = config_byte_at(bv, n, k);
        proof {
            assert(bytes.take(k + 1) =~= bytes.take(k as int).push(byte));
            lemma_hex_text_push(bytes.take(k as int), byte);
        }
        if k > 0 {
            out.push(' ');
        }
        out.push(hex_digit_char(byte / 16));
        out.push(hex_digit_char(byte % 16));
        k = k + 1;
        proof {
            assert(out@ =~= hex_text(bytes.take(k as int)));
        }
    }
    assert(bytes.take(h as int) =~= bytes);
    crate::text::string_of(&out)
}

/// Or-ing a byte shifted to byte position `i` into a word sets exactly the
/// bits of that position to the byte's bits.
proof fn lemma_or_shifted_byte(w: usize, b: u8, i: usize, j: usize)
    by (bit_vector)
    requires
        i < 8,
        8 * i + 8 <= usize::BITS,
        j < usize::BITS,
    ensures
        (((w | ((b as usize) << (8 * i))) >> j) & 1 == 1) == (((w >> j) & 1 == 1) || (8 * i <= j
            && j < 8 * i + 8 && ((b >> ((j - 8 * i) as u8)) & 1 == 1))),
{
}

/// The zero word has no bit set.
proof fn lemma_zero_word(j: usize)
    by (bit_vector)
    ensures
        (0usize >> j) & 1 == 0,
{
}

/// Bit `j` of word `q` is bit `q * usize::BITS + j` of the words; counted in
/// bytes it is bit `j % 8` of byte `q * (usize::BITS / 8) + j / 8`.
proof fn lemma_word_position(q: int, j: int)
    requires
        q >= 0,
        0 <= j < usize::BITS,
    ensures
        (q * usize::BITS + j) / (usize::BITS as int) == q,
        (q * usize::BITS + j) % (usize::BITS as int) == j,
        (q * usize::BITS + j) / 8 == q * (usize::BITS / 8) + j / 8,
        (q * usize::BITS + j) % 8 == j % 8,
{
    let t = q * usize::BITS + j;
    lemma_fundamental_div_mod_converse(t, usize::BITS as int, q, j);
    if usize::BITS == 64 {
        assert(usize::BITS / 8 == 8);
        assert(t == 8 * (8 * q + j / 8) + j % 8);
        lemma_fundamental_div_mod_converse(t, 8, 8 * q + j / 8, j % 8);
    } else {
        assert(usize::BITS == 32);
        assert(usize::BITS / 8 == 4);
        assert(t == 8 * (4 * q + j / 8) + j % 8);
        lemma_fundamental_div_mod_converse(t, 8, 4 * q + j / 8, j % 8);
    }
}

/// Packs bytes into `usize` words, `usize::BITS / 8` bytes to a word, each
/// word little-endian (the last word padded with zero bytes).
fn words_from_bytes(bytes: &Vec<u8>) -> (words: Vec<usize>)
    ensures
        8 * bytes@.len() <= words@.len() * usize::BITS < 8 * bytes@.len() + usize::BITS,
        bits_of_words(words@).take(8 * bytes@.len() as int) == bits_of_bytes(bytes@),
{
    let len = bytes.len();
    let chunk: usize = (usize::BITS / 8) as usize;
    assert(chunk == 4 || chunk == 8);
    let n_words = len / chunk + if len % chunk != 0 {
        1
    } else {
        0
    };
    let mut words: Vec<usize> = Vec::new();
    let mut q: usize = 0;
    while q < n_words
        invariant
            len == bytes@.len(),
            chunk == usize::BITS / 8,
            chunk == 4 || chunk == 8,
            n_words == len / chunk + if len % chunk != 0 { 1int } else { 0int },
            q <= n_words,
            words@.len() == q,
            forall|p: int, j: int|
                0 <= p < q && 0 <= j < usize::BITS ==> #[trigger] word_bit(words@[p], j) == (
                p * chunk + j / 8 < len && byte_bit(bytes@[p * chunk + j / 8], j % 8)),
        decreases n_words - q,
    {
        let mut word: usize = 0;
        let mut i: usize = 0;
        assert(q * chunk <= len) by (nonlinear_arith)
            requires
                q < n_words,
                n_words == len / chunk + if len % chunk != 0 { 1int } else { 0int },
                chunk > 0,
        ;
        assert forall|j: int| 0 <= j < usize::BITS implies #[trigger] word_bit(word, j) == (j < 8
            * i && q * chunk + j / 8 < len && byte_bit(bytes@[q * chunk + j / 8], j % 8)) by {
            lemma_zero_word(j as usize);
        }
        while i < chunk
            invariant
                len == bytes@.len(),
                chunk == usize::BITS / 8,
                chunk == 4 || chunk == 8,
                q * chunk <= len,
                i <= chunk,
                forall|j: int|
                    0 <= j < usize::BITS ==> #[trigger] word_bit(word, j) == (j < 8 * i && q * chunk
                        + j / 8 < len && byte_bit(bytes@[q * chunk + j / 8], j % 8)),
            decreases chunk - i,
        {
            if i < len - q * chunk {
                let idx = q * chunk + i;
                let b = bytes[idx];
                let old_word = word;
                word = word | ((b as usize) << (8 * i));
                proof {
                    assert forall|j: int| 0 <= j < usize::BITS implies #[trigger] word_bit(word, j)
                        == (j < 8 * (i + 1) && q * chunk + j / 8 < len && byte_bit(
                        bytes@[q * chunk + j / 8],
                        j % 8,
                    )) by {
                        lemma_or_shifted_byte(old_word, b, i, j as usize);
                        assert(word_bit(old_word, j) == ((old_word >> (j as usize)) & 1 == 1));
                        if 8 * i <= j < 8 * i + 8 {
                            assert(j / 8 == i);
                            assert(j % 8 == j - 8 * i);
                        }
                    }
                }
            } else {
                proof {
                    assert forall|j: int| 0 <= j < usize::BITS implies #[trigger] word_bit(word, j)
                        == (j < 8 * (i + 1) && q * chunk + j / 8 < len && byte_bit(
                        bytes@[q * chunk + j / 8],
                        j % 8,
                    )) by {
                        if 8 * i <= j < 8 * i + 8 {
                            assert(j / 8 == i);
                        }
                    }
                }
            }
            i = i + 1;
        }
        proof {
            assert forall|j: int| 0 <= j < usize::BITS implies #[trigger] word_bit(word, j) == (q
                * chunk + j / 8 < len && byte_bit(bytes@[q * chunk + j / 8], j % 8)) by {
                assert(j < 8 * chunk);
            }
        }
        words.push(word);
        q = q + 1;
        proof {
            assert forall|p: int, j: int|
                0 <= p < q && 0 <= j < usize::BITS implies #[trigger] word_bit(words@[p], j) == (p
                * chunk + j / 8 < len && byte_bit(bytes@[p * chunk + j / 8], j % 8)) by {
                if p == q - 1 {
                    assert(words@[p] == word);
                }
            }
        }
    }
    proof {
        assert(8 * len <= n_words * usize::BITS < 8 * len + usize::BITS) by (nonlinear_arith)
            requires
                n_words == len / chunk + if len % chunk != 0 { 1int } else { 0int },
                usize::BITS == 8 * chunk,
                chunk > 0,
        ;
        let wb = bits_of_words(words@);
        let bb = bits_of_bytes(bytes@);
        assert forall|t: int| 0 <= t < 8 * len implies #[trigger] wb[t] == bb[t] by {
            let q2 = t / (usize::BITS as int);
            let j = t % (usize::BITS as int);
            assert(t == q2 * usize::BITS + j);
            lemma_word_position(q2, j);
            assert(q2 * chunk == q2 * (usize::BITS / 8));
            assert(q2 < n_words) by (nonlinear_arith)
                requires
                    t == q2 * usize::BITS + j,
                    0 <= j,
                    t < 8 * len,
                    8 * len <= n_words * usize::BITS,
                    usize::BITS > 0,
            ;
            assert(word_bit(words@[q2], j) == (q2 * chunk + j / 8 < len && byte_bit(
                bytes@[q2 * chunk + j / 8],
                j % 8,
            )));
        }
        assert(wb.take(8 * len) =~= bb);
    }
    words
}

/// Reads a configuration of `n_points` points from tokens: the first
/// `hex_len(n_points)` of them, each a hex byte; their bits, least
/// significant first, cut to `n_points`.
pub fn config_from_hex_tokens(toks: &Vec<Vec<char>>, n_points: usize) -> (r: Result<
    Spins,
    HexConfigError,
>)
    requires
        n_points + 2 * usize::BITS <= max_bits(),
    ensures
        match r {
            Ok(c) => config_from_tokens(toks@.map_values(|t: Vec<char>| t@), n_points as nat)
                == Ok::<Seq<bool>, HexConfigError>(c@),
            Err(e) => config_from_tokens(toks@.map_values(|t: Vec<char>| t@), n_points as nat)
                == Err::<Seq<bool>, HexConfigError>(e),
        },
{
    let ghost tv = toks@.map_values(|t: Vec<char>| t@);
    let h = n_points / 8 + if n_points % 8 != 0 {
        1
    } else {
        0
    };
    assert(h == hex_len(n_points as nat));
    let mut bytes: Vec<u8> = Vec::new();
    let mut i: usize = 0;
    while i < h
        invariant
            tv == toks@.map_values(|t: Vec<char>| t@),
            h == hex_len(n_points as nat),
            i <= h,
            i <= toks@.len(),
            bytes@.len() == i,
            forall|k: int| 0 <= k < i ==> (#[trigger] parse_unsigned_spec(tv[k], 16, 255)) is Some,
            forall|k: int| 0 <= k < i ==> bytes@[k] == #[trigger] token_byte(tv[k]),
        decreases h - i,
    {
        if i >= toks.len() {
            return Err(HexConfigError::MissingEntry);
        }
        match parse_unsigned(&toks[i], 16, 255) {
            None => {
                assert(tv[i as int] == toks@[i as int]@);
                return Err(HexConfigError::NotHex);
            },
            Some(v) => {
                assert(tv[i as int] == toks@[i as int]@);
                bytes.push(v as u8);
            },
        }
        i = i + 1;
    }
    let ghost read = Seq::new(h as nat, |k: int| token_byte(tv[k]));
    assert(bytes@ =~= read);
    let words = words_from_bytes(&bytes);
    let mut config = Spins::from_words(words);
    config.truncate(n_points);
    proof {
        assert(n_points <= 8 * h);
        assert(bits_of_words(words@).take(8 * h) == bits_of_bytes(bytes@));
        assert(bits_of_words(words@).take(n_points as int) =~= bits_of_bytes(bytes@).take(
            n_points as int,
        ));
        assert(config@ =~= bits_of_bytes(read).take(n_points as int));
        assert(toks@.len() >= h);
        assert(!exists|k: int|
            0 <= k < h && k < tv.len() && (#[trigger] parse_unsigned_spec(tv[k], 16, 255)) is None);
    }
    Ok(config)
}

} // verus!

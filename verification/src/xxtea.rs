use vstd::prelude::*;

verus! {

/// The fixed key of the desk protocol.
pub const XXTEA_KEY: [u8; 16] = [
    0x88, 0xd5, 0x3c, 0x1e, 0x02, 0x7c, 0x06, 0x1d, 0x4a, 0x84, 0x25, 0x3b, 0x1a, 0x18, 0x32, 0x4a,
];

/// The XXTEA round constant.
pub const XXTEA_DELTA: u32 = 0x9e37_79b9;

// ---------------------------------------------------------------------------
// Little-endian words
// ---------------------------------------------------------------------------

/// A word from four bytes, least significant first.
pub open spec fn le_word(b0: u8, b1: u8, b2: u8, b3: u8) -> u32 {
    (b0 as u32) | ((b1 as u32) << 8u32) | ((b2 as u32) << 16u32) | ((b3 as u32) << 24u32)
}

/// Byte `k` (0 = least significant) of a word.
pub open spec fn word_byte(w: u32, k: int) -> u8 {
    if k == 0 {
        (w & 0xffu32) as u8
    } else if k == 1 {
        ((w >> 8u32) & 0xffu32) as u8
    } else if k == 2 {
        ((w >> 16u32) & 0xffu32) as u8
    } else {
        ((w >> 24u32) & 0xffu32) as u8
    }
}

/// The length rounded up to a whole number of words.
pub open spec fn padded_len(n: nat) -> nat {
    ((n + 3) / 4 * 4) as nat
}

/// The bytes followed by zeros up to a whole number of words.
pub open spec fn pad4(b: Seq<u8>) -> Seq<u8> {
    Seq::new(padded_len(b.len()), |i: int| if i < b.len() { b[i] } else { 0u8 })
}

/// The bytes read as little-endian words, the last one padded with zeros.
pub open spec fn words_le(b: Seq<u8>) -> Seq<u32> {
    let p = pad4(b);
    Seq::new(
        padded_len(b.len()) / 4,
        |i: int| le_word(p[4 * i], p[4 * i + 1], p[4 * i + 2], p[4 * i + 3]),
    )
}

/// The words written out as little-endian bytes.
pub open spec fn bytes_le(w: Seq<u32>) -> Seq<u8> {
    Seq::new(w.len() * 4, |i: int| word_byte(w[i / 4], i % 4))
}

proof fn lemma_le_word_bytes(b0: u8, b1: u8, b2: u8, b3: u8)
    ensures
        word_byte(le_word(b0, b1, b2, b3), 0) == b0,
        word_byte(le_word(b0, b1, b2, b3), 1) == b1,
        word_byte(le_word(b0, b1, b2, b3), 2) == b2,
        word_byte(le_word(b0, b1, b2, b3), 3) == b3,
{
    let w = le_word(b0, b1, b2, b3);
    assert(w == (b0 as u32) | ((b1 as u32) << 8u32) | ((b2 as u32) << 16u32) | ((b3 as u32)
        << 24u32));
    assert((((b0 as u32) | ((b1 as u32) << 8u32) | ((b2 as u32) << 16u32) | ((b3 as u32)
        << 24u32)) & 0xffu32) as u8 == b0) by (bit_vector);
    assert(((((b0 as u32) | ((b1 as u32) << 8u32) | ((b2 as u32) << 16u32) | ((b3 as u32)
        << 24u32)) >> 8u32) & 0xffu32) as u8 == b1) by (bit_vector);
    assert(((((b0 as u32) | ((b1 as u32) << 8u32) | ((b2 as u32) << 16u32) | ((b3 as u32)
        << 24u32)) >> 16u32) & 0xffu32) as u8 == b2) by (bit_vector);
    assert(((((b0 as u32) | ((b1 as u32) << 8u32) | ((b2 as u32) << 16u32) | ((b3 as u32)
        << 24u32)) >> 24u32) & 0xffu32) as u8 == b3) by (bit_vector);
}

proof fn lemma_word_bytes_le(w: u32)
    ensures
        le_word(word_byte(w, 0), word_byte(w, 1), word_byte(w, 2), word_byte(w, 3)) == w,
{
    assert((((w & 0xffu32) as u8) as u32) | (((((w >> 8u32) & 0xffu32) as u8) as u32) << 8u32)
        | (((((w >> 16u32) & 0xffu32) as u8) as u32) << 16u32) | (((((w >> 24u32)
        & 0xffu32) as u8) as u32) << 24u32) == w) by (bit_vector);
}

/// Writing words out and reading them back gives the same words.
pub proof fn lemma_words_bytes_roundtrip(w: Seq<u32>)
    ensures
        words_le(bytes_le(w)) == w,
{
    let b = bytes_le(w);
    assert(padded_len(b.len()) == b.len());
    assert(pad4(b) =~= b);
    assert forall|i: int| 0 <= i < w.len() implies #[trigger] words_le(b)[i] == w[i] by {
        lemma_word_bytes_le(w[i]);
        assert((4 * i) / 4 == i && (4 * i + 1) / 4 == i && (4 * i + 2) / 4 == i && (4 * i + 3)
            / 4 == i);
        assert((4 * i) % 4 == 0 && (4 * i + 1) % 4 == 1 && (4 * i + 2) % 4 == 2 && (4 * i + 3)
            % 4 == 3);
    }
    assert(words_le(b) =~= w);
}

/// Reading bytes as words and writing them out gives the bytes padded with zeros.
pub proof fn lemma_bytes_words_roundtrip(b: Seq<u8>)
    ensures
        bytes_le(words_le(b)) == pad4(b),
        words_le(b).len() * 4 == padded_len(b.len()),
{
    let w = words_le(b);
    let p = pad4(b);
    assert forall|i: int| 0 <= i < p.len() implies #[trigger] bytes_le(w)[i] == p[i] by {
        let j = i / 4;
        lemma_le_word_bytes(p[4 * j], p[4 * j + 1], p[4 * j + 2], p[4 * j + 3]);
    }
    assert(bytes_le(w) =~= p);
}

// ---------------------------------------------------------------------------
// The cipher
// ---------------------------------------------------------------------------

/// The key as four little-endian words.
pub open spec fn key_words() -> Seq<u32> {
    words_le(XXTEA_KEY@)
}

/// The XXTEA mixing function for position `p` under round sum `sum`.
pub open spec fn mx(sum: u32, y: u32, z: u32, p: int, k: Seq<u32>) -> u32 {
    let e = (sum >> 2u32) & 3u32;
    let a = (z >> 5u32) ^ (y << 2u32);
    let b = (y >> 3u32) ^ (z << 4u32);
    let c = sum ^ y;
    let d = k[(((p as u32) & 3u32) ^ e) as int] ^ z;
    a.wrapping_add(b) ^ c.wrapping_add(d)
}

/// The right neighbour of position `p`, cyclically.
pub open spec fn y_of(w: Seq<u32>, p: int) -> u32 {
    if p + 1 < w.len() {
        w[p + 1]
    } else {
        w[0]
    }
}

/// The left neighbour of position `p`, cyclically.
pub open spec fn z_of(w: Seq<u32>, p: int) -> u32 {
    if p == 0 {
        w[w.len() - 1]
    } else {
        w[p - 1]
    }
}

/// Encryption of position `p` within a round.
pub open spec fn enc_step(w: Seq<u32>, sum: u32, p: int) -> Seq<u32> {
    w.update(p, w[p].wrapping_add(mx(sum, y_of(w, p), z_of(w, p), p, key_words())))
}

/// Decryption of position `p` within a round.
pub open spec fn dec_step(w: Seq<u32>, sum: u32, p: int) -> Seq<u32> {
    w.update(p, w[p].wrapping_sub(mx(sum, y_of(w, p), z_of(w, p), p, key_words())))
}

/// Positions `0 .. i` of one encryption round, in increasing order.
pub open spec fn enc_prefix(w: Seq<u32>, sum: u32, i: nat) -> Seq<u32>
    decreases i,
{
    if i == 0 {
        w
    } else {
        enc_step(enc_prefix(w, sum, (i - 1) as nat), sum, i - 1)
    }
}

/// Positions `n - 1` down to `n - i` of one decryption round.
pub open spec fn dec_suffix(w: Seq<u32>, sum: u32, i: nat) -> Seq<u32>
    decreases i,
{
    if i == 0 {
        w
    } else {
        dec_step(dec_suffix(w, sum, (i - 1) as nat), sum, w.len() - i)
    }
}

/// The round sum after `r` rounds.
pub open spec fn round_sum(r: nat) -> u32
    decreases r,
{
    if r == 0 {
        0u32
    } else {
        round_sum((r - 1) as nat).wrapping_add(XXTEA_DELTA)
    }
}

/// The number of rounds for `n` words (the word count is taken as a `u32`).
pub open spec fn xxtea_rounds(n: nat) -> nat {
    (6int + 52int / ((n % 0x1_0000_0000) as int)) as nat
}

/// `r` encryption rounds.
pub open spec fn enc_rounds(w: Seq<u32>, r: nat) -> Seq<u32>
    decreases r,
{
    if r == 0 {
        w
    } else {
        let prev = enc_rounds(w, (r - 1) as nat);
        enc_prefix(prev, round_sum(r), prev.len())
    }
}

/// The first `m` of `q` decryption rounds, which run from round `q` down.
pub open spec fn dec_rounds(w: Seq<u32>, q: nat, m: nat) -> Seq<u32>
    decreases m,
{
    if m == 0 {
        w
    } else {
        let prev = dec_rounds(w, q, (m - 1) as nat);
        dec_suffix(prev, round_sum((q - m + 1) as nat), prev.len())
    }
}

/// The inputs that the cipher accepts: the padded length fits in `usize`, and a
/// word count of two or more is not a multiple of 2^32.
pub open spec fn xxtea_len_ok(len: nat) -> bool {
    &&& len + 3 <= usize::MAX
    &&& ((len + 3) / 4 < 2 || ((len + 3) / 4) % 0x1_0000_0000 != 0)
}

/// XXTEA encryption of the zero-padded bytes under the protocol key.
#[verifier::opaque]
pub open spec fn spec_xxtea_encrypt(b: Seq<u8>) -> Seq<u8> {
    let v = words_le(b);
    if v.len() < 2 {
        bytes_le(v)
    } else {
        bytes_le(enc_rounds(v, xxtea_rounds(v.len())))
    }
}

/// XXTEA decryption of the zero-padded bytes under the protocol key.
#[verifier::opaque]
pub open spec fn spec_xxtea_decrypt(b: Seq<u8>) -> Seq<u8> {
    let v = words_le(b);
    if v.len() < 2 {
        bytes_le(v)
    } else {
        let q = xxtea_rounds(v.len());
        bytes_le(dec_rounds(v, q, q))
    }
}

// ---------------------------------------------------------------------------
// Proofs about the cipher
// ---------------------------------------------------------------------------

proof fn lemma_step_inverse(w: Seq<u32>, sum: u32, p: int)
    requires
        w.len() >= 2,
        0 <= p < w.len(),
        key_words().len() == 4,
    ensures
        dec_step(enc_step(w, sum, p), sum, p) == w,
        enc_step(w, sum, p).len() == w.len(),
{
    let u = enc_step(w, sum, p);
    assert(y_of(u, p) == y_of(w, p));
    assert(z_of(u, p) == z_of(w, p));
    assert(dec_step(u, sum, p) =~= w);
}

proof fn lemma_enc_prefix_len(w: Seq<u32>, sum: u32, i: nat)
    requires
        i <= w.len(),
    ensures
        enc_prefix(w, sum, i).len() == w.len(),
    decreases i,
{
    if i > 0 {
        lemma_enc_prefix_len(w, sum, (i - 1) as nat);
    }
}

proof fn lemma_dec_suffix_len(w: Seq<u32>, sum: u32, i: nat)
    requires
        i <= w.len(),
    ensures
        dec_suffix(w, sum, i).len() == w.len(),
    decreases i,
{
    if i > 0 {
        lemma_dec_suffix_len(w, sum, (i - 1) as nat);
    }
}

proof fn lemma_key_words()
    ensures
        key_words().len() == 4,
{
    assert(XXTEA_KEY@.len() == 16);
}

proof fn lemma_round_inverse_partial(w: Seq<u32>, sum: u32, j: nat)
    requires
        w.len() >= 2,
        j <= w.len(),
    ensures
        dec_suffix(enc_prefix(w, sum, w.len()), sum, j) == enc_prefix(w, sum, (w.len() - j) as nat),
    decreases j,
{
    let n = w.len();
    lemma_key_words();
    lemma_enc_prefix_len(w, sum, n);
    if j > 0 {
        lemma_round_inverse_partial(w, sum, (j - 1) as nat);
        let i = (n - j) as nat;
        lemma_enc_prefix_len(w, sum, i);
        lemma_step_inverse(enc_prefix(w, sum, i), sum, i as int);
    }
}

/// One decryption round undoes one encryption round with the same sum.
proof fn lemma_round_inverse(w: Seq<u32>, sum: u32)
    requires
        w.len() >= 2,
    ensures
        dec_suffix(enc_prefix(w, sum, w.len()), sum, w.len()) == w,
        enc_prefix(w, sum, w.len()).len() == w.len(),
{
    lemma_round_inverse_partial(w, sum, w.len());
    lemma_enc_prefix_len(w, sum, w.len());
}

proof fn lemma_enc_rounds_len(w: Seq<u32>, r: nat)
    ensures
        enc_rounds(w, r).len() == w.len(),
    decreases r,
{
    if r > 0 {
        lemma_enc_rounds_len(w, (r - 1) as nat);
        let prev = enc_rounds(w, (r - 1) as nat);
        lemma_enc_prefix_len(prev, round_sum(r), prev.len());
    }
}

proof fn lemma_dec_rounds_len(w: Seq<u32>, q: nat, m: nat)
    ensures
        dec_rounds(w, q, m).len() == w.len(),
    decreases m,
{
    if m > 0 {
        lemma_dec_rounds_len(w, q, (m - 1) as nat);
        let prev = dec_rounds(w, q, (m - 1) as nat);
        lemma_dec_suffix_len(prev, round_sum((q - m + 1) as nat), prev.len());
    }
}

proof fn lemma_rounds_inverse(w: Seq<u32>, q: nat, m: nat)
    requires
        w.len() >= 2,
        m <= q,
    ensures
        dec_rounds(enc_rounds(w, q), q, m) == enc_rounds(w, (q - m) as nat),
    decreases m,
{
    if m > 0 {
        lemma_rounds_inverse(w, q, (m - 1) as nat);
        let r = (q - m + 1) as nat;
        let prev = enc_rounds(w, (r - 1) as nat);
        lemma_enc_rounds_len(w, (r - 1) as nat);
        lemma_enc_rounds_len(w, r);
        lemma_round_inverse(prev, round_sum(r));
    }
}

/// Decryption undoes encryption: the result is the input padded with zeros
/// to a whole number of words.
pub proof fn lemma_xxtea_roundtrip(b: Seq<u8>)
    ensures
        spec_xxtea_decrypt(spec_xxtea_encrypt(b)) == pad4(b),
        spec_xxtea_encrypt(b).len() == padded_len(b.len()),
{
    reveal(spec_xxtea_encrypt);
    reveal(spec_xxtea_decrypt);
    let v = words_le(b);
    lemma_bytes_words_roundtrip(b);
    if v.len() < 2 {
        lemma_words_bytes_roundtrip(v);
    } else {
        let q = xxtea_rounds(v.len());
        let c = enc_rounds(v, q);
        lemma_enc_rounds_len(v, q);
        lemma_words_bytes_roundtrip(c);
        lemma_rounds_inverse(v, q, q);
    }
}

proof fn lemma_step_inverse_dec(w: Seq<u32>, sum: u32, p: int)
    requires
        w.len() >= 2,
        0 <= p < w.len(),
        key_words().len() == 4,
    ensures
        enc_step(dec_step(w, sum, p), sum, p) == w,
        dec_step(w, sum, p).len() == w.len(),
{
    let u = dec_step(w, sum, p);
    assert(y_of(u, p) == y_of(w, p));
    assert(z_of(u, p) == z_of(w, p));
    assert(enc_step(u, sum, p) =~= w);
}

proof fn lemma_round_inverse_dec_partial(w: Seq<u32>, sum: u32, j: nat)
    requires
        w.len() >= 2,
        j <= w.len(),
    ensures
        enc_prefix(dec_suffix(w, sum, w.len()), sum, j) == dec_suffix(w, sum, (w.len() - j) as nat),
    decreases j,
{
    let n = w.len();
    lemma_key_words();
    if j > 0 {
        lemma_round_inverse_dec_partial(w, sum, (j - 1) as nat);
        let x = dec_suffix(w, sum, (n - j) as nat);
        lemma_dec_suffix_len(w, sum, (n - j) as nat);
        lemma_step_inverse_dec(x, sum, j - 1);
    }
}

/// One encryption round undoes one decryption round with the same sum.
proof fn lemma_round_inverse_dec(w: Seq<u32>, sum: u32)
    requires
        w.len() >= 2,
    ensures
        enc_prefix(dec_suffix(w, sum, w.len()), sum, w.len()) == w,
{
    lemma_round_inverse_dec_partial(w, sum, w.len());
}

/// Encryption rounds `lo + 1 ..= hi`, the earliest first.
pub open spec fn enc_from(w: Seq<u32>, lo: nat, hi: nat) -> Seq<u32>
    decreases hi - lo,
{
    if lo >= hi {
        w
    } else {
        enc_from(enc_prefix(w, round_sum(lo + 1), w.len()), lo + 1, hi)
    }
}

proof fn lemma_enc_from_last(w: Seq<u32>, lo: nat, hi: nat)
    requires
        lo <= hi,
    ensures
        enc_from(w, lo, hi + 1) == enc_prefix(enc_from(w, lo, hi), round_sum(hi + 1), w.len()),
        enc_from(w, lo, hi).len() == w.len(),
    decreases hi - lo,
{
    let v = enc_prefix(w, round_sum(lo + 1), w.len());
    lemma_enc_prefix_len(w, round_sum(lo + 1), w.len());
    assert(enc_from(w, lo, hi + 1) == enc_from(v, lo + 1, hi + 1));
    if lo < hi {
        lemma_enc_from_last(v, lo + 1, hi);
        assert(enc_from(w, lo, hi) == enc_from(v, lo + 1, hi));
    } else {
        assert(enc_from(v, lo + 1, hi + 1) == v);
    }
}

proof fn lemma_enc_rounds_from(w: Seq<u32>, r: nat)
    ensures
        enc_rounds(w, r) == enc_from(w, 0, r),
    decreases r,
{
    if r > 0 {
        lemma_enc_rounds_from(w, (r - 1) as nat);
        lemma_enc_from_last(w, 0, (r - 1) as nat);
        lemma_enc_rounds_len(w, (r - 1) as nat);
    }
}

proof fn lemma_rounds_inverse_dec(w: Seq<u32>, q: nat, k: nat)
    requires
        w.len() >= 2,
        k <= q,
    ensures
        enc_from(dec_rounds(w, q, k), (q - k) as nat, q) == w,
    decreases k,
{
    if k > 0 {
        lemma_rounds_inverse_dec(w, q, (k - 1) as nat);
        let prev = dec_rounds(w, q, (k - 1) as nat);
        let s = round_sum((q - k + 1) as nat);
        lemma_dec_rounds_len(w, q, (k - 1) as nat);
        lemma_dec_suffix_len(prev, s, prev.len());
        lemma_round_inverse_dec(prev, s);
    }
}

/// Encryption undoes decryption of a whole number of words, and both give
/// the input's length rounded up to whole words.
pub proof fn lemma_xxtea_roundtrip_decrypt_first(b: Seq<u8>)
    ensures
        b.len() % 4 == 0 ==> spec_xxtea_encrypt(spec_xxtea_decrypt(b)) == b,
        spec_xxtea_decrypt(b).len() == padded_len(b.len()),
        spec_xxtea_encrypt(b).len() == padded_len(b.len()),
{
    reveal(spec_xxtea_encrypt);
    reveal(spec_xxtea_decrypt);
    lemma_xxtea_roundtrip(b);
    let v = words_le(b);
    lemma_bytes_words_roundtrip(b);
    if b.len() % 4 == 0 {
        assert(pad4(b) =~= b);
    }
    if v.len() < 2 {
        lemma_words_bytes_roundtrip(v);
    } else {
        let q = xxtea_rounds(v.len());
        let d = dec_rounds(v, q, q);
        lemma_dec_rounds_len(v, q, q);
        lemma_words_bytes_roundtrip(d);
        lemma_enc_rounds_from(d, q);
        lemma_rounds_inverse_dec(v, q, q);
    }
}

proof fn lemma_round_sum_mul(r: nat)
    ensures
        round_sum(r) as int == (r * (XXTEA_DELTA as int)) % 0x1_0000_0000,
    decreases r,
{
    let m: int = 0x1_0000_0000;
    let d: int = XXTEA_DELTA as int;
    if r > 0 {
        lemma_round_sum_mul((r - 1) as nat);
        let a: int = (r - 1) * d;
        let s: int = round_sum((r - 1) as nat) as int;
        assert(r * d == a + d) by (nonlinear_arith)
            requires
                a == (r - 1) * d,
        ;
        vstd::arithmetic::div_mod::lemma_add_mod_noop(a, d, m);
        vstd::arithmetic::div_mod::lemma_small_mod(d as nat, m as nat);
        if s + d >= m {
            vstd::arithmetic::div_mod::lemma_mod_sub_multiples_vanish(s + d, m);
            vstd::arithmetic::div_mod::lemma_small_mod((s + d - m) as nat, m as nat);
        } else {
            vstd::arithmetic::div_mod::lemma_small_mod((s + d) as nat, m as nat);
        }
    }
}

proof fn lemma_round_sum_nonzero(r: nat)
    requires
        1 <= r <= 58,
    ensures
        round_sum(r) != 0,
{
    lemma_round_sum_mul(r);
    let d: int = XXTEA_DELTA as int;
    assert((r * d) % 0x1_0000_0000 != 0) by (nonlinear_arith)
        requires
            1 <= r <= 58,
            d == 0x9e37_79b9,
    ;
}

proof fn lemma_round_sum_back(r: nat)
    requires
        r >= 1,
    ensures
        round_sum(r).wrapping_sub(XXTEA_DELTA) == round_sum((r - 1) as nat),
{
}

proof fn lemma_word_count_cast(n: usize)
    ensures
        (n as u32) as int == (n as int) % 0x1_0000_0000,
{
    assert((n as u32) == ((n as u64) % 0x1_0000_0000u64) as u32) by (bit_vector);
}

// ---------------------------------------------------------------------------
// Executable code
// ---------------------------------------------------------------------------

/// Reads bytes as little-endian words, padding the last one with zeros.
pub fn to_u32_words_le(bytes: &[u8]) -> (words: Vec<u32>)
    requires
        bytes.len() + 3 <= usize::MAX,
    ensures
        words@ == words_le(bytes@),
{
    let len = bytes.len();
    let plen: usize = (len + 3) / 4 * 4;
    let mut padded: Vec<u8> = Vec::new();
    let mut i: usize = 0;
    while i < plen
        invariant
            plen == padded_len(bytes@.len()),
            len == bytes@.len(),
            i <= plen,
            padded@ =~= pad4(bytes@).take(i as int),
        decreases plen - i,
    {
        if i < len {
            padded.push(bytes[i]);
        } else {
            padded.push(0u8);
        }
        i = i + 1;
    }
    let mut words: Vec<u32> = Vec::new();
    let mut j: usize = 0;
    while j < plen / 4
        invariant
            plen == padded_len(bytes@.len()),
            padded@ =~= pad4(bytes@),
            j <= plen / 4,
            words@ =~= words_le(bytes@).take(j as int),
        decreases plen / 4 - j,
    {
        let b0 = padded[4 * j];
        let b1 = padded[4 * j + 1];
        let b2 = padded[4 * j + 2];
        let b3 = padded[4 * j + 3];
        let word: u32 = (b0 as u32) | ((b1 as u32) << 8u32) | ((b2 as u32) << 16u32) | ((
        b3 as u32) << 24u32);
        words.push(word);
        j = j + 1;
    }
    words
}

/// Writes words out as little-endian bytes.
pub fn from_u32_words_le(words: &[u32]) -> (bytes: Vec<u8>)
    requires
        words.len() * 4 <= usize::MAX,
    ensures
        bytes@ == bytes_le(words@),
{
    let mut out: Vec<u8> = Vec::new();
    let mut i: usize = 0;
    while i < words.len()
        invariant
            words.len() * 4 <= usize::MAX,
            i <= words.len(),
            out@ =~= bytes_le(words@).take(4 * i),
        decreases words.len() - i,
    {
        let w = words[i];
        out.push((w & 0xff) as u8);
        out.push(((w >> 8u32) & 0xff) as u8);
        out.push(((w >> 16u32) & 0xff) as u8);
        out.push(((w >> 24u32) & 0xff) as u8);
        proof {
            assert forall|t: int| 4 * i <= t < 4 * i + 4 implies #[trigger] bytes_le(words@)[t]
                == word_byte(w, t - 4 * i) by {
                assert(t / 4 == i);
            }
        }
        i = i + 1;
    }
    out
}

/// The mixing function, computed.
fn mix(sum: u32, y: u32, z: u32, p: usize, k: &Vec<u32>) -> (r: u32)
    requires
        k@ == key_words(),
    ensures
        r == mx(sum, y, z, p as int, k@),
{
    proof {
        lemma_key_words();
    }
    let e = (sum >> 2u32) & 3;
    let idx = ((p as u32) & 3) ^ e;
    assert(idx < 4) by (bit_vector)
        requires
            idx == ((p as u32) & 3) ^ e,
            e == (sum >> 2u32) & 3,
    ;
    (((z >> 5u32) ^ (y << 2u32)).wrapping_add((y >> 3u32) ^ (z << 4u32))) ^ ((sum ^ y).wrapping_add(
        k[idx as usize] ^ z,
    ))
}

/// One encryption round over `v` with round sum `sum`; `z` is the last word.
fn encrypt_round(v: &mut Vec<u32>, sum: u32, k: &Vec<u32>)
    requires
        old(v)@.len() >= 2,
        k@ == key_words(),
    ensures
        final(v)@ == enc_prefix(old(v)@, sum, old(v)@.len()),
        final(v)@.len() == old(v)@.len(),
{
    let ghost w0 = v@;
    let n = v.len();
    let mut z = v[n - 1];
    let mut p: usize = 0;
    while p < n - 1
        invariant
            n >= 2,
            n == w0.len(),
            k@ == key_words(),
            p <= n - 1,
            v@ == enc_prefix(w0, sum, p as nat),
            z == z_of(v@, p as int),
        decreases n - 1 - p,
    {
        proof {
            lemma_enc_prefix_len(w0, sum, p as nat);
        }
        let y = v[p + 1];
        let m = mix(sum, y, z, p, k);
        let nv = v[p].wrapping_add(m);
        v.set(p, nv);
        z = v[p];
        p = p + 1;
        proof {
            lemma_enc_prefix_len(w0, sum, p as nat);
        }
    }
    proof {
        lemma_enc_prefix_len(w0, sum, p as nat);
    }
    let y = v[0];
    let p = n - 1;
    let m = mix(sum, y, z, p, k);
    let nv = v[p].wrapping_add(m);
    v.set(p, nv);
    proof {
        lemma_enc_prefix_len(w0, sum, n as nat);
    }
}

/// One decryption round over `v` with round sum `sum`.
fn decrypt_round(v: &mut Vec<u32>, sum: u32, k: &Vec<u32>)
    requires
        old(v)@.len() >= 2,
        k@ == key_words(),
    ensures
        final(v)@ == dec_suffix(old(v)@, sum, old(v)@.len()),
        final(v)@.len() == old(v)@.len(),
{
    let ghost w0 = v@;
    let n = v.len();
    let mut y = v[0];
    let mut p: usize = n - 1;
    while p >= 1
        invariant
            n >= 2,
            n == w0.len(),
            k@ == key_words(),
            p <= n - 1,
            v@ == dec_suffix(w0, sum, (n - 1 - p) as nat),
            y == y_of(v@, p as int),
        decreases p,
    {
        proof {
            lemma_dec_suffix_len(w0, sum, (n - 1 - p) as nat);
        }
        let z = v[p - 1];
        let m = mix(sum, y, z, p, k);
        let nv = v[p].wrapping_sub(m);
        v.set(p, nv);
        y = v[p];
        p = p - 1;
        proof {
            lemma_dec_suffix_len(w0, sum, (n - 1 - p) as nat);
        }
    }
    proof {
        lemma_dec_suffix_len(w0, sum, (n - 1) as nat);
    }
    let z = v[n - 1];
    let m = mix(sum, y, z, 0, k);
    let nv = v[0].wrapping_sub(m);
    v.set(0, nv);
    proof {
        lemma_dec_suffix_len(w0, sum, n as nat);
    }
}

/// Encrypts `bytes`, zero-padded to whole words, with XXTEA under the protocol key.
pub fn xxtea_encrypt(bytes: &[u8]) -> (out: Vec<u8>)
    requires
        xxtea_len_ok(bytes.len() as nat),
    ensures
        out@ == spec_xxtea_encrypt(bytes@),
{
    reveal(spec_xxtea_encrypt);
    let mut v = to_u32_words_le(bytes);
    let k = to_u32_words_le(XXTEA_KEY.as_slice());
    let n = v.len();
    proof {
        lemma_key_words();
        lemma_bytes_words_roundtrip(bytes@);
    }
    if n < 2 {
        return from_u32_words_le(v.as_slice());
    }
    let ghost v0 = v@;
    let mut sum: u32 = 0;
    let delta: u32 = 0x9e37_79b9;
    assert(delta == XXTEA_DELTA);
    proof {
        lemma_word_count_cast(n);
    }
    #[verifier::truncate]
    let nw: u32 = n as u32;
    let mut q: u32 = 6 + 52 / nw;
    let ghost total: nat = q as nat;
    assert(total == xxtea_rounds(n as nat));
    while q > 0
        invariant
            n >= 2,
            n * 4 <= usize::MAX,
            delta == XXTEA_DELTA,
            k@ == key_words(),
            v@.len() == n,
            v0.len() == n,
            q <= total,
            v@ == enc_rounds(v0, (total - q) as nat),
            sum == round_sum((total - q) as nat),
        decreases q,
    {
        let ghost r: nat = (total - q + 1) as nat;
        q = q - 1;
        sum = sum.wrapping_add(delta);
        assert(sum == round_sum(r));
        proof {
            lemma_enc_rounds_len(v0, (r - 1) as nat);
        }
        encrypt_round(&mut v, sum, &k);
        assert(v@ == enc_rounds(v0, r));
    }
    from_u32_words_le(v.as_slice())
}

/// Decrypts `bytes`, zero-padded to whole words, with XXTEA under the protocol key.
pub fn xxtea_decrypt(bytes: &[u8]) -> (out: Vec<u8>)
    requires
        xxtea_len_ok(bytes.len() as nat),
    ensures
        out@ == spec_xxtea_decrypt(bytes@),
{
    reveal(spec_xxtea_decrypt);
    let mut v = to_u32_words_le(bytes);
    let k = to_u32_words_le(XXTEA_KEY.as_slice());
    let n = v.len();
    proof {
        lemma_key_words();
        lemma_bytes_words_roundtrip(bytes@);
    }
    if n < 2 {
        return from_u32_words_le(v.as_slice());
    }
    let ghost v0 = v@;
    let delta: u32 = 0x9e37_79b9;
    assert(delta == XXTEA_DELTA);
    proof {
        lemma_word_count_cast(n);
    }
    #[verifier::truncate]
    let nw: u32 = n as u32;
    let q: u32 = 6 + 52 / nw;
    let ghost total: nat = q as nat;
    assert(total == xxtea_rounds(n as nat));
    let mut sum: u32 = q.wrapping_mul(delta);
    proof {
        lemma_round_sum_mul(total);
    }
    let ghost mut j: nat = total;
    while sum != 0
        invariant
            n >= 2,
            n * 4 <= usize::MAX,
            delta == XXTEA_DELTA,
            k@ == key_words(),
            v@.len() == n,
            v0.len() == n,
            1 <= total <= 58,
            j <= total,
            v@ == dec_rounds(v0, total, (total - j) as nat),
            sum == round_sum(j),
        decreases j,
    {
        proof {
            if j == 0 {
                assert(sum == 0);
            }
            lemma_dec_rounds_len(v0, total, (total - j) as nat);
        }
        decrypt_round(&mut v, sum, &k);
        sum = sum.wrapping_sub(delta);
        proof {
            lemma_round_sum_back(j);
            j = (j - 1) as nat;
        }
    }
    proof {
        if j > 0 {
            lemma_round_sum_nonzero(j);
        }
    }
    from_u32_words_le(v.as_slice())
}

// ---------------------------------------------------------------------------
// The published cipher
// ---------------------------------------------------------------------------

/// The protocol key as the four 32-bit words `k[0..4]` of the published
/// XXTEA (`btea`) algorithm.
pub open spec fn btea_key() -> Seq<u32> {
    seq![0x1e3c_d588u32, 0x1d06_7c02u32, 0x3b25_844au32, 0x4a32_181au32]
}

/// The published XXTEA mixing expression
/// `((z>>5 ^ y<<2) + (y>>3 ^ z<<4)) ^ ((sum ^ y) + (k[(p&3)^e] ^ z))`.
pub open spec fn btea_mx(sum: u32, y: u32, z: u32, p: int, e: u32, k: Seq<u32>) -> u32 {
    (((z >> 5u32) ^ (y << 2u32)).wrapping_add((y >> 3u32) ^ (z << 4u32))) ^ ((sum ^ y).wrapping_add(
        k[(((p as u32) & 3u32) ^ e) as int] ^ z,
    ))
}

/// One pass of the published encoding loop from position `p` on: with
/// `y = v[p+1]` (`v[0]` at the end) and `z = v[p-1]` (`v[n-1]` at the start),
/// `v[p] += MX`.
pub open spec fn btea_pass(v: Seq<u32>, sum: u32, p: nat) -> Seq<u32>
    decreases v.len() - p,
{
    if p >= v.len() {
        v
    } else {
        let n = v.len();
        let i = p as int;
        let y = if i + 1 < n {
            v[i + 1]
        } else {
            v[0]
        };
        let z = if i == 0 {
            v[n - 1]
        } else {
            v[i - 1]
        };
        let e = (sum >> 2u32) & 3u32;
        btea_pass(v.update(p as int, v[p as int].wrapping_add(btea_mx(sum, y, z, p as int, e, btea_key()))), sum, p + 1)
    }
}

/// `rounds` rounds of the published encoding loop, each first adding the
/// constant `0x9e3779b9` to the running sum.
pub open spec fn btea_rounds(v: Seq<u32>, rounds: nat, sum: u32) -> Seq<u32>
    decreases rounds,
{
    if rounds == 0 {
        v
    } else {
        let s = sum.wrapping_add(0x9e37_79b9u32);
        btea_rounds(btea_pass(v, s, 0), (rounds - 1) as nat, s)
    }
}

/// Published XXTEA encoding of `n` words: `6 + 52 / n` rounds from a zero
/// sum; fewer than two words are left as they are.
pub open spec fn btea_encode(v: Seq<u32>) -> Seq<u32> {
    if v.len() < 2 {
        v
    } else {
        btea_rounds(v, (6int + 52int / (v.len() as int)) as nat, 0)
    }
}

proof fn lemma_key_words_value()
    ensures
        key_words() == btea_key(),
{
    let b = XXTEA_KEY@;
    assert(b.len() == 16);
    assert(padded_len(16) == 16);
    assert(pad4(b) =~= b);
    assert(b[0] == 0x88u8 && b[1] == 0xd5u8 && b[2] == 0x3cu8 && b[3] == 0x1eu8);
    assert(b[4] == 0x02u8 && b[5] == 0x7cu8 && b[6] == 0x06u8 && b[7] == 0x1du8);
    assert(b[8] == 0x4au8 && b[9] == 0x84u8 && b[10] == 0x25u8 && b[11] == 0x3bu8);
    assert(b[12] == 0x1au8 && b[13] == 0x18u8 && b[14] == 0x32u8 && b[15] == 0x4au8);
    assert(le_word(0x88u8, 0xd5u8, 0x3cu8, 0x1eu8) == 0x1e3c_d588u32) by (bit_vector);
    assert(le_word(0x02u8, 0x7cu8, 0x06u8, 0x1du8) == 0x1d06_7c02u32) by (bit_vector);
    assert(le_word(0x4au8, 0x84u8, 0x25u8, 0x3bu8) == 0x3b25_844au32) by (bit_vector);
    assert(le_word(0x1au8, 0x18u8, 0x32u8, 0x4au8) == 0x4a32_181au32) by (bit_vector);
    assert(key_words() =~= btea_key());
}

proof fn lemma_pass_matches(v: Seq<u32>, sum: u32, p: nat)
    requires
        v.len() >= 2,
        p <= v.len(),
        key_words() == btea_key(),
    ensures
        btea_pass(enc_prefix(v, sum, p), sum, p) == enc_prefix(v, sum, v.len()),
    decreases v.len() - p,
{
    lemma_enc_prefix_len(v, sum, p);
    if p < v.len() {
        let w = enc_prefix(v, sum, p);
        assert(enc_prefix(v, sum, p + 1) == enc_step(w, sum, p as int));
        lemma_pass_matches(v, sum, p + 1);
    }
}

proof fn lemma_rounds_match(v: Seq<u32>, lo: nat, hi: nat)
    requires
        v.len() >= 2,
        lo <= hi,
        key_words() == btea_key(),
    ensures
        btea_rounds(v, (hi - lo) as nat, round_sum(lo)) == enc_from(v, lo, hi),
    decreases hi - lo,
{
    if lo < hi {
        let s = round_sum(lo + 1);
        assert(round_sum(lo).wrapping_add(0x9e37_79b9u32) == s);
        lemma_pass_matches(v, s, 0);
        let w = enc_prefix(v, s, v.len());
        lemma_enc_prefix_len(v, s, v.len());
        lemma_rounds_match(w, lo + 1, hi);
        assert(((hi - lo) as nat - 1) as nat == (hi - (lo + 1)) as nat);
    }
}

/// Encryption is the published XXTEA (`btea`) encoding under the protocol
/// key, applied to the bytes read as little-endian words (zero-padded), for
/// every word count the published algorithm takes (below 2^32).
pub proof fn lemma_xxtea_encrypt_is_btea(b: Seq<u8>)
    requires
        words_le(b).len() < 0x1_0000_0000,
    ensures
        spec_xxtea_encrypt(b) == bytes_le(btea_encode(words_le(b))),
{
    reveal(spec_xxtea_encrypt);
    let v = words_le(b);
    if v.len() >= 2 {
        lemma_key_words_value();
        let q = xxtea_rounds(v.len());
        assert(v.len() % 0x1_0000_0000 == v.len());
        lemma_enc_rounds_from(v, q);
        lemma_rounds_match(v, 0, q);
    }
}

/// Each word read from bytes is the little-endian value of four of them
/// (zeros past the end).
pub proof fn lemma_words_le_value(b: Seq<u8>, i: int)
    requires
        0 <= i < words_le(b).len(),
    ensures
        words_le(b)[i] as int == byte_or_zero(b, 4 * i) + 256 * byte_or_zero(b, 4 * i + 1) + 65536
            * byte_or_zero(b, 4 * i + 2) + 16777216 * byte_or_zero(b, 4 * i + 3),
{
    let p = pad4(b);
    let (b0, b1, b2, b3) = (p[4 * i], p[4 * i + 1], p[4 * i + 2], p[4 * i + 3]);
    assert(le_word(b0, b1, b2, b3) as int == b0 as int + 256 * b1 as int + 65536 * b2 as int
        + 16777216 * b3 as int) by (bit_vector);
}

/// The byte at `j`, or zero past the end.
pub open spec fn byte_or_zero(b: Seq<u8>, j: int) -> int {
    if 0 <= j < b.len() {
        b[j] as int
    } else {
        0
    }
}

} // verus!

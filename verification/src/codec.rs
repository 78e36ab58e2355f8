//! Wire codec for ring-buffer snapshots.
//!
//! A snapshot is `capacity + 1` consecutive 32-bit words, each laid out
//! least-significant byte first: word 0 carries the cursor encoded as a
//! 32-bit IEEE-754 floating-point bit pattern holding an exact integer
//! value, and words `1..=capacity` carry the sample words in storage
//! order. There is no length prefix, delimiter or version tag: both
//! sides know the capacity.

use crate::ring::RingBuffer;
use vstd::prelude::*;
use vstd::arithmetic::power2::{pow2, lemma_pow2_adds, lemma_pow2_pos, lemma2_to64};
use vstd::arithmetic::div_mod::{
    lemma_fundamental_div_mod,
    lemma_fundamental_div_mod_converse,
    lemma_div_denominator,
};
use vstd::arithmetic::mul::{
    lemma_mul_inequality,
    lemma_mul_strict_inequality,
    lemma_mul_inequality_converse,
    lemma_mul_strict_inequality_converse,
};

verus! {

/// Largest integer count that the float-encoded cursor can carry
/// exactly: every integer below `2^24` has an exact single-precision
/// representation.
pub const MAX_EXACT_INDEX: u32 = 0x1000000;

/// Floor of the base-two logarithm.
pub open spec fn floor_log2(n: nat) -> nat
    recommends
        n >= 1,
    decreases n,
{
    if n < 2 {
        0
    } else {
        1 + floor_log2(n / 2)
    }
}

/// The IEEE-754 single-precision bit pattern whose value is exactly the
/// integer `n`, for `0 <= n < 2^24`: a zero word for zero, otherwise a
/// biased exponent of `127 + floor_log2(n)` over a 23-bit mantissa.
pub open spec fn float_bits_of_index(n: nat) -> nat
    recommends
        n < MAX_EXACT_INDEX,
{
    if n == 0 {
        0
    } else {
        (126 + floor_log2(n)) * 0x800000 + n * pow2((23 - floor_log2(n)) as nat)
    }
}

/// `floor_log2(n)` is below `k` whenever `n` is below `2^k`.
proof fn lemma_floor_log2_bound(n: nat, k: nat)
    requires
        1 <= n,
        n < pow2(k),
    ensures
        floor_log2(n) < k,
    decreases n,
{
    lemma_pow2_pos(k);
    lemma2_to64();
    if k == 0 {
        assert(false);
    } else if n < 2 {
    } else {
        assert(pow2(k) == 2 * pow2((k - 1) as nat)) by {
            lemma_pow2_adds(1, (k - 1) as nat);
            lemma2_to64();
        }
        assert(n / 2 < pow2((k - 1) as nat));
        lemma_floor_log2_bound(n / 2, (k - 1) as nat);
        assert(floor_log2(n) == 1 + floor_log2(n / 2));
    }
}

/// `n` lies between `2^floor_log2(n)` inclusive and `2^(floor_log2(n)+1)`
/// exclusive.
proof fn lemma_floor_log2_range(n: nat)
    requires
        1 <= n,
    ensures
        pow2(floor_log2(n)) <= n < pow2(floor_log2(n) + 1),
    decreases n,
{
    if n < 2 {
        lemma2_to64();
    } else {
        lemma_floor_log2_range(n / 2);
        let e = floor_log2(n / 2);
        assert(pow2(e + 1) == 2 * pow2(e)) by {
            lemma_pow2_adds(1, e);
            lemma2_to64();
        }
        assert(pow2(e + 2) == 2 * pow2(e + 1)) by {
            lemma_pow2_adds(1, e + 1);
            lemma2_to64();
        }
    }
}

/// `floor_log2` is the only exponent whose power-of-two window holds `n`.
proof fn lemma_floor_log2_unique(n: nat, e: nat)
    requires
        pow2(e) <= n < pow2(e + 1),
    ensures
        floor_log2(n) == e,
    decreases n,
{
    lemma_pow2_pos(e);
    if n < 2 {
        if e != 0 {
            assert(pow2(e) >= 2) by {
                lemma_pow2_adds(1, (e - 1) as nat);
                lemma_pow2_pos((e - 1) as nat);
                lemma2_to64();
            }
        }
    } else {
        if e == 0 {
            assert(pow2(1) == 2) by {
                lemma2_to64();
            }
        } else {
            assert(pow2(e) == 2 * pow2((e - 1) as nat)) by {
                lemma_pow2_adds(1, (e - 1) as nat);
                lemma2_to64();
            }
            assert(pow2(e + 1) == 2 * pow2(e)) by {
                lemma_pow2_adds(1, e);
                lemma2_to64();
            }
            lemma_floor_log2_unique(n / 2, (e - 1) as nat);
        }
    }
}

/// Compute `2^k` for `k <= 31`.
fn pow2_u32(k: u32) -> (r: u32)
    requires
        k <= 31,
    ensures
        r == pow2(k as nat),
{
    proof {
        lemma2_to64();
    }
    let mut p: u32 = 1;
    let mut j: u32 = 0;
    while j < k
        invariant
            j <= k <= 31,
            p == pow2(j as nat),
        decreases k - j,
    {
        proof {
            lemma_pow2_adds(1, j as nat);
            lemma2_to64();
            assert(pow2((j + 1) as nat) <= pow2(31)) by {
                if j + 1 < 31 {
                    vstd::arithmetic::power2::lemma_pow2_strictly_increases(
                        (j + 1) as nat,
                        31,
                    );
                }
            }
        }
        p = p * 2;
        j = j + 1;
    }
    p
}

/// Encode an integer cursor as the 32-bit float bit pattern that holds
/// exactly that value.
pub fn cursor_word_of_index(n: u32) -> (r: u32)
    requires
        n < MAX_EXACT_INDEX,
    ensures
        r == float_bits_of_index(n as nat),
{
    if n == 0 {
        return 0;
    }
    let mut e: u32 = 0;
    let mut m: u32 = n;
    while m >= 2
        invariant
            1 <= m <= n,
            n < MAX_EXACT_INDEX,
            e <= 31,
            floor_log2(n as nat) == e + floor_log2(m as nat),
        decreases m,
    {
        proof {
            if e >= 31 {
                assert(pow2(24) == 0x1000000) by {
                    lemma2_to64();
                }
                lemma_floor_log2_bound(n as nat, 24);
            }
        }
        m = m / 2;
        e = e + 1;
    }
    proof {
        assert(floor_log2(n as nat) == e);
        assert(pow2(24) == 0x1000000) by {
            lemma2_to64();
        }
        lemma_floor_log2_bound(n as nat, 24);
    }
    let p = pow2_u32(23 - e);
    proof {
        lemma_floor_log2_range(n as nat);
        lemma_pow2_adds((e + 1) as nat, (23 - e) as nat);
        lemma_pow2_pos((23 - e) as nat);
        lemma_mul_strict_inequality(
            n as int,
            pow2((e + 1) as nat) as int,
            pow2((23 - e) as nat) as int,
        );
        assert(pow2(24) == 0x1000000) by {
            lemma2_to64();
        }
        assert(n * p < 0x1000000);
    }
    (126 + e) * 0x800000 + n * p
}

/// For a nonzero index, the exponent and mantissa fields of its float
/// encoding, read back by division and remainder by `2^23`.
proof fn lemma_float_bits_fields(n: nat)
    requires
        1 <= n < MAX_EXACT_INDEX,
    ensures
        floor_log2(n) <= 23,
        float_bits_of_index(n) / 0x800000 == 127 + floor_log2(n),
        float_bits_of_index(n) % 0x800000 == n * pow2((23 - floor_log2(n)) as nat) - 0x800000,
        0x800000 <= n * pow2((23 - floor_log2(n)) as nat) < 0x1000000,
{
    assert(pow2(24) == 0x1000000 && pow2(23) == 0x800000) by {
        lemma2_to64();
    }
    lemma_floor_log2_bound(n, 24);
    lemma_floor_log2_range(n);
    let e = floor_log2(n);
    let p = pow2((23 - e) as nat);
    lemma_pow2_pos((23 - e) as nat);
    lemma_pow2_adds(e, (23 - e) as nat);
    lemma_pow2_adds(e + 1, (23 - e) as nat);
    lemma_mul_inequality(pow2(e) as int, n as int, p as int);
    lemma_mul_strict_inequality(n as int, pow2(e + 1) as int, p as int);
    assert(0x800000 <= n * p < 0x1000000);
    lemma_fundamental_div_mod_converse(
        float_bits_of_index(n) as int,
        0x800000,
        127 + e as int,
        n as int * p as int - 0x800000,
    );
}

/// No two distinct indices in range share a float encoding.
pub proof fn lemma_float_bits_injective(a: nat, b: nat)
    requires
        a < MAX_EXACT_INDEX,
        b < MAX_EXACT_INDEX,
        float_bits_of_index(a) == float_bits_of_index(b),
    ensures
        a == b,
{
    if a >= 1 && b >= 1 {
        lemma_float_bits_fields(a);
        lemma_float_bits_fields(b);
        let e = floor_log2(a);
        assert(floor_log2(b) == e);
        let p = pow2((23 - e) as nat);
        lemma_pow2_pos((23 - e) as nat);
        assert(a * p == b * p);
        if a < b {
            lemma_mul_strict_inequality(a as int, b as int, p as int);
        }
        if b < a {
            lemma_mul_strict_inequality(b as int, a as int, p as int);
        }
    } else if a >= 1 {
        lemma_float_bits_fields(a);
    } else if b >= 1 {
        lemma_float_bits_fields(b);
    }
}

/// Decode a 32-bit word as a float-encoded integer index.
///
/// Returns the one index whose encoding the word is, and `None` exactly
/// when the word encodes no in-range integer.
pub fn index_of_cursor_word(w: u32) -> (r: Option<u32>)
    ensures
        match r {
            Some(n) => n < MAX_EXACT_INDEX && w == float_bits_of_index(n as nat),
            None => forall|n: nat| n < MAX_EXACT_INDEX ==> w != float_bits_of_index(n),
        },
{
    if w == 0 {
        return Some(0);
    }
    let exp_field = w / 0x800000;
    if exp_field < 127 || exp_field > 150 {
        proof {
            assert forall|n: nat| n < MAX_EXACT_INDEX implies w != float_bits_of_index(n) by {
                if n >= 1 && w == float_bits_of_index(n) {
                    lemma_float_bits_fields(n);
                }
            }
        }
        return None;
    }
    let e = exp_field - 127;
    let m = w % 0x800000;
    let p = pow2_u32(23 - e);
    proof {
        lemma_pow2_pos((23 - e) as nat);
    }
    let full = 0x800000 + m;
    if full % p != 0 {
        proof {
            assert forall|n: nat| n < MAX_EXACT_INDEX implies w != float_bits_of_index(n) by {
                if n >= 1 && w == float_bits_of_index(n) {
                    lemma_float_bits_fields(n);
                    assert(floor_log2(n) == e);
                    assert(full == n * pow2((23 - e) as nat));
                    lemma_fundamental_div_mod_converse(
                        full as int,
                        p as int,
                        n as int,
                        0,
                    );
                }
            }
        }
        return None;
    }
    let n = full / p;
    proof {
        lemma_fundamental_div_mod(full as int, p as int);
        vstd::arithmetic::mul::lemma_mul_is_commutative(n as int, p as int);
        assert(full == n * p);
        assert(pow2(24) == 0x1000000 && pow2(23) == 0x800000) by {
            lemma2_to64();
        }
        lemma_pow2_adds(e as nat, (23 - e) as nat);
        lemma_pow2_adds(e as nat + 1, (23 - e) as nat);
        assert(pow2(e as nat) * p <= n * p) by {
            assert(pow2(e as nat) * p == pow2(23));
        }
        lemma_mul_inequality_converse(pow2(e as nat) as int, n as int, p as int);
        assert(n * p < pow2(e as nat + 1) * p) by {
            assert(pow2(e as nat + 1) * p == pow2(24));
        }
        lemma_mul_strict_inequality_converse(n as int, pow2(e as nat + 1) as int, p as int);
        lemma_floor_log2_unique(n as nat, e as nat);
        if e as nat + 1 < 24 {
            vstd::arithmetic::power2::lemma_pow2_strictly_increases(e as nat + 1, 24);
        }
        assert(n < MAX_EXACT_INDEX);
        lemma_fundamental_div_mod(w as int, 0x800000);
        assert(w == float_bits_of_index(n as nat));
    }
    Some(n)
}

/// A 32-bit value as four bytes, least-significant byte first (the
/// native order of every platform this library targets).
pub open spec fn word_bytes(w: nat) -> Seq<u8>
    recommends
        w < 0x100000000,
{
    seq![
        (w % 256) as u8,
        ((w / 256) % 256) as u8,
        ((w / 65536) % 256) as u8,
        ((w / 16777216) % 256) as u8,
    ]
}

/// A sequence of words flattened to bytes, word by word.
pub open spec fn words_bytes(ws: Seq<u32>) -> Seq<u8>
    decreases ws.len(),
{
    if ws.len() == 0 {
        Seq::empty()
    } else {
        word_bytes(ws[0] as nat) + words_bytes(ws.drop_first())
    }
}

/// The wire image of a whole buffer: the float-encoded cursor word,
/// then every sample slot in storage order.
pub open spec fn snapshot_bytes(cursor: int, samples: Seq<u32>) -> Seq<u8>
    recommends
        0 <= cursor < MAX_EXACT_INDEX,
{
    word_bytes(float_bits_of_index(cursor as nat)) + words_bytes(samples)
}

/// A 32-bit value is the weighted sum of its four bytes.
proof fn lemma_word_bytes_value(w: nat)
    requires
        w < 0x100000000,
    ensures
        w == (w % 256) + 256 * ((w / 256) % 256) + 65536 * ((w / 65536) % 256) + 16777216 * (w
            / 16777216),
        w / 16777216 < 256,
{
    lemma_fundamental_div_mod(w as int, 256);
    lemma_fundamental_div_mod(w as int / 256, 256);
    lemma_div_denominator(w as int, 256, 256);
    lemma_fundamental_div_mod(w as int / 65536, 256);
    lemma_div_denominator(w as int, 65536, 256);
}

/// Two 32-bit values with the same four bytes are the same value.
proof fn lemma_word_bytes_injective(x: nat, y: nat)
    requires
        x < 0x100000000,
        y < 0x100000000,
        word_bytes(x) == word_bytes(y),
    ensures
        x == y,
{
    lemma_word_bytes_value(x);
    lemma_word_bytes_value(y);
    assert(word_bytes(x)[0] == word_bytes(y)[0]);
    assert(word_bytes(x)[1] == word_bytes(y)[1]);
    assert(word_bytes(x)[2] == word_bytes(y)[2]);
    assert(word_bytes(x)[3] == word_bytes(y)[3]);
}

/// Flattening words to bytes yields four bytes per word.
proof fn lemma_words_bytes_len(ws: Seq<u32>)
    ensures
        words_bytes(ws).len() == 4 * ws.len(),
    decreases ws.len(),
{
    if ws.len() > 0 {
        lemma_words_bytes_len(ws.drop_first());
    }
}

/// Appending one more word appends its four bytes.
proof fn lemma_words_bytes_push(ws: Seq<u32>, w: u32)
    ensures
        words_bytes(ws.push(w)) == words_bytes(ws) + word_bytes(w as nat),
    decreases ws.len(),
{
    if ws.len() == 0 {
        assert(ws.push(w).drop_first() =~= Seq::<u32>::empty());
        assert(ws.push(w)[0] == w);
        assert(words_bytes(ws.push(w)) == word_bytes(w as nat) + words_bytes(
            Seq::<u32>::empty(),
        ));
        assert(words_bytes(ws.push(w)) =~= words_bytes(ws) + word_bytes(w as nat));
    } else {
        assert(ws.push(w).drop_first() =~= ws.drop_first().push(w));
        lemma_words_bytes_push(ws.drop_first(), w);
        assert(ws.push(w)[0] == ws[0]);
        assert(words_bytes(ws.push(w)) == word_bytes(ws[0] as nat) + words_bytes(
            ws.drop_first().push(w),
        ));
        assert(words_bytes(ws.push(w)) =~= words_bytes(ws) + word_bytes(w as nat));
    }
}

/// The four bytes of word `k` sit at offset `4 * k` of the flattening.
proof fn lemma_words_bytes_subrange(ws: Seq<u32>, k: int)
    requires
        0 <= k < ws.len(),
    ensures
        words_bytes(ws).subrange(4 * k, 4 * k + 4) == word_bytes(ws[k] as nat),
    decreases k,
{
    lemma_words_bytes_len(ws);
    lemma_words_bytes_len(ws.drop_first());
    if k == 0 {
        assert(words_bytes(ws).subrange(0, 4) =~= word_bytes(ws[0] as nat));
    } else {
        lemma_words_bytes_subrange(ws.drop_first(), k - 1);
        assert(words_bytes(ws).subrange(4 * k, 4 * k + 4) =~= words_bytes(
            ws.drop_first(),
        ).subrange(4 * (k - 1), 4 * (k - 1) + 4));
    }
}

/// Bytes that match every word's four-byte group are exactly the
/// flattening of those words.
proof fn lemma_bytes_eq_words(bs: Seq<u8>, ws: Seq<u32>)
    requires
        bs.len() == 4 * ws.len(),
        forall|k: int|
            0 <= k < ws.len() ==> bs.subrange(4 * k, 4 * k + 4) == word_bytes(ws[k] as nat),
    ensures
        bs == words_bytes(ws),
    decreases ws.len(),
{
    lemma_words_bytes_len(ws);
    if ws.len() == 0 {
        assert(bs =~= words_bytes(ws));
    } else {
        let tail = bs.subrange(4, bs.len() as int);
        assert forall|k: int| 0 <= k < ws.drop_first().len() implies tail.subrange(
            4 * k,
            4 * k + 4,
        ) == word_bytes(ws.drop_first()[k] as nat) by {
            assert(tail.subrange(4 * k, 4 * k + 4) =~= bs.subrange(
                4 * (k + 1),
                4 * (k + 1) + 4,
            ));
            assert(bs.subrange(4 * (k + 1), 4 * (k + 1) + 4) == word_bytes(
                ws[k + 1] as nat,
            ));
        }
        lemma_bytes_eq_words(tail, ws.drop_first());
        assert(bs.subrange(0, 4) == word_bytes(ws[0] as nat));
        assert(bs =~= word_bytes(ws[0] as nat) + words_bytes(ws.drop_first()));
    }
}

/// The float encoding of an in-range index fits in 32 bits.
proof fn lemma_float_bits_fits(n: nat)
    requires
        n < MAX_EXACT_INDEX,
    ensures
        float_bits_of_index(n) < 0x100000000,
{
    if n >= 1 {
        lemma_float_bits_fields(n);
        lemma_mul_inequality(126 + floor_log2(n) as int, 149, 0x800000);
    }
}

/// Append the four bytes of a 32-bit word, least-significant first.
fn push_word(out: &mut Vec<u8>, w: u32)
    ensures
        final(out)@ == old(out)@ + word_bytes(w as nat),
{
    out.push((w % 256) as u8);
    out.push(((w / 256) % 256) as u8);
    out.push(((w / 65536) % 256) as u8);
    out.push(((w / 16777216) % 256) as u8);
    proof {
        assert(out@ =~= old(out)@ + word_bytes(w as nat));
    }
}

/// Read one word at a byte offset, least-significant byte first.
fn read_word(bytes: &[u8], off: usize) -> (w: u32)
    requires
        off + 4 <= bytes@.len(),
    ensures
        w as nat == (bytes@[off as int] as nat) + 256 * (bytes@[off as int + 1] as nat) + 65536 * (
        bytes@[off as int + 2] as nat) + 16777216 * (bytes@[off as int + 3] as nat),
        word_bytes(w as nat) == bytes@.subrange(off as int, off as int + 4),
{
    let b0 = bytes[off] as u32;
    let b1 = bytes[off + 1] as u32;
    let b2 = bytes[off + 2] as u32;
    let b3 = bytes[off + 3] as u32;
    let w = b0 + 256 * b1 + 65536 * b2 + 16777216 * b3;
    proof {
        lemma_fundamental_div_mod_converse(
            w as int,
            256,
            b1 as int + 256 * b2 as int + 65536 * b3 as int,
            b0 as int,
        );
        lemma_fundamental_div_mod_converse(
            w as int / 256,
            256,
            b2 as int + 256 * b3 as int,
            b1 as int,
        );
        lemma_div_denominator(w as int, 256, 256);
        lemma_fundamental_div_mod_converse(w as int / 65536, 256, b3 as int, b2 as int);
        lemma_div_denominator(w as int, 65536, 256);
        assert(word_bytes(w as nat) =~= bytes@.subrange(off as int, off as int + 4));
    }
    w
}

/// Round-trip law: the wire format is lossless. Two buffer states with
/// the same snapshot bytes share their cursor and every sample, so
/// decoding a snapshot reproduces exactly the state that was encoded.
pub proof fn lemma_snapshot_injective(c1: int, s1: Seq<u32>, c2: int, s2: Seq<u32>)
    requires
        0 <= c1 < MAX_EXACT_INDEX,
        0 <= c2 < MAX_EXACT_INDEX,
        s1.len() == s2.len(),
        snapshot_bytes(c1, s1) == snapshot_bytes(c2, s2),
    ensures
        c1 == c2,
        s1 == s2,
{
    lemma_float_bits_fits(c1 as nat);
    lemma_float_bits_fits(c2 as nat);
    lemma_words_bytes_len(s1);
    lemma_words_bytes_len(s2);
    let b = snapshot_bytes(c1, s1);
    assert(b.subrange(0, 4) =~= word_bytes(float_bits_of_index(c1 as nat)));
    assert(snapshot_bytes(c2, s2).subrange(0, 4) =~= word_bytes(float_bits_of_index(c2 as nat)));
    lemma_word_bytes_injective(float_bits_of_index(c1 as nat), float_bits_of_index(c2 as nat));
    lemma_float_bits_injective(c1 as nat, c2 as nat);
    assert forall|j: int| 0 <= j < s1.len() implies s1[j] == s2[j] by {
        lemma_words_bytes_subrange(s1, j);
        lemma_words_bytes_subrange(s2, j);
        assert(b.subrange(4 * (j + 1), 4 * (j + 1) + 4) =~= words_bytes(s1).subrange(
            4 * j,
            4 * j + 4,
        ));
        assert(snapshot_bytes(c2, s2).subrange(4 * (j + 1), 4 * (j + 1) + 4) =~= words_bytes(
            s2,
        ).subrange(4 * j, 4 * j + 4));
        lemma_word_bytes_injective(s1[j] as nat, s2[j] as nat);
    }
    assert(s1 =~= s2);
}

/// Encode the whole buffer as one snapshot: the float-encoded cursor
/// word followed by every sample slot, four bytes per word.
pub fn encode_snapshot(rb: &RingBuffer) -> (r: Vec<u8>)
    requires
        rb.wf(),
        rb.spec_capacity() < MAX_EXACT_INDEX,
    ensures
        r@ == snapshot_bytes(rb.spec_cursor(), rb.spec_samples()),
        r@.len() == 4 * (rb.spec_capacity() + 1),
{
    let ghost header = word_bytes(float_bits_of_index(rb.spec_cursor() as nat));
    let mut out: Vec<u8> = Vec::new();
    let cw = cursor_word_of_index(rb.cursor() as u32);
    push_word(&mut out, cw);
    proof {
        assert(out@ =~= header + words_bytes(rb.spec_samples().take(0)));
    }
    let cap = rb.capacity();
    let mut i: usize = 0;
    while i < cap
        invariant
            rb.wf(),
            cap == rb.spec_capacity(),
            cap < MAX_EXACT_INDEX,
            i <= cap,
            header == word_bytes(float_bits_of_index(rb.spec_cursor() as nat)),
            out@ == header + words_bytes(rb.spec_samples().take(i as int)),
        decreases cap - i,
    {
        let w = rb.sample_at(i);
        push_word(&mut out, w);
        proof {
            lemma_words_bytes_push(rb.spec_samples().take(i as int), w);
            assert(rb.spec_samples().take(i as int).push(w) =~= rb.spec_samples().take(
                i as int + 1,
            ));
            assert(out@ =~= header + words_bytes(rb.spec_samples().take(i as int + 1)));
        }
        i += 1;
    }
    proof {
        assert(rb.spec_samples().take(cap as int) =~= rb.spec_samples());
        lemma_words_bytes_len(rb.spec_samples());
    }
    out
}

/// Decode a snapshot of a buffer of the given capacity.
///
/// Returns the one buffer whose wire image the bytes are, and `None`
/// exactly when the bytes are no buffer's wire image: wrong length, a
/// leading word that encodes no integer, or a cursor past the capacity.
pub fn decode_snapshot(bytes: &[u8], capacity: usize) -> (r: Option<RingBuffer>)
    requires
        capacity < MAX_EXACT_INDEX,
    ensures
        match r {
            Some(rb) => rb.wf() && rb.spec_capacity() == capacity && bytes@ == snapshot_bytes(
                rb.spec_cursor(),
                rb.spec_samples(),
            ),
            None => true,
        },
        forall|c: int, s: Seq<u32>|
            0 <= c <= capacity && s.len() == capacity && bytes@ == snapshot_bytes(c, s)
                ==> (r matches Some(rb) && rb.spec_cursor() == c && rb.spec_samples() == s),
{
    if bytes.len() != 4 * (capacity + 1) {
        proof {
            assert forall|c: int, s: Seq<u32>|
                0 <= c <= capacity && s.len() == capacity && bytes@ == snapshot_bytes(
                    c,
                    s,
                ) implies false by {
                lemma_words_bytes_len(s);
            }
        }
        return None;
    }
    let w0 = read_word(bytes, 0);
    let n_opt = index_of_cursor_word(w0);
    proof {
        assert forall|c: int, s: Seq<u32>|
            0 <= c <= capacity && s.len() == capacity && bytes@ == snapshot_bytes(
                c,
                s,
            ) implies w0 == float_bits_of_index(c as nat) by {
            lemma_float_bits_fits(c as nat);
            lemma_words_bytes_len(s);
            assert(bytes@.subrange(0, 4) =~= word_bytes(float_bits_of_index(c as nat)));
            lemma_word_bytes_injective(w0 as nat, float_bits_of_index(c as nat));
        }
    }
    let n = match n_opt {
        Some(n) => n,
        None => {
            return None;
        },
    };
    if n as usize > capacity {
        proof {
            assert forall|c: int, s: Seq<u32>|
                0 <= c <= capacity && s.len() == capacity && bytes@ == snapshot_bytes(
                    c,
                    s,
                ) implies false by {
                lemma_float_bits_injective(n as nat, c as nat);
            }
        }
        return None;
    }
    let mut samples: Vec<u32> = Vec::new();
    let mut i: usize = 0;
    while i < capacity
        invariant
            capacity < MAX_EXACT_INDEX,
            bytes@.len() == 4 * (capacity + 1),
            i <= capacity,
            samples@.len() == i,
            forall|j: int|
                0 <= j < i ==> word_bytes(samples@[j] as nat) == bytes@.subrange(
                    4 * (j + 1),
                    4 * (j + 1) + 4,
                ),
        decreases capacity - i,
    {
        let w = read_word(bytes, 4 * (i + 1));
        samples.push(w);
        i += 1;
    }
    let rb = RingBuffer::from_parts(n as usize, samples);
    proof {
        let tail = bytes@.subrange(4, bytes@.len() as int);
        assert forall|j: int| 0 <= j < capacity implies tail.subrange(4 * j, 4 * j + 4)
            == word_bytes(rb.spec_samples()[j] as nat) by {
            assert(tail.subrange(4 * j, 4 * j + 4) =~= bytes@.subrange(
                4 * (j + 1),
                4 * (j + 1) + 4,
            ));
        }
        lemma_bytes_eq_words(tail, rb.spec_samples());
        assert(bytes@ =~= bytes@.subrange(0, 4) + tail);
        assert(bytes@ == snapshot_bytes(rb.spec_cursor(), rb.spec_samples()));
        assert forall|c: int, s: Seq<u32>|
            0 <= c <= capacity && s.len() == capacity && bytes@ == snapshot_bytes(
                c,
                s,
            ) implies rb.spec_cursor() == c && rb.spec_samples() == s by {
            lemma_float_bits_injective(n as nat, c as nat);
            lemma_words_bytes_len(s);
            assert forall|j: int| 0 <= j < capacity implies rb.spec_samples()[j] == s[j] by {
                lemma_words_bytes_subrange(s, j);
                assert(bytes@.subrange(4 * (j + 1), 4 * (j + 1) + 4) =~= words_bytes(
                    s,
                ).subrange(4 * j, 4 * j + 4));
                lemma_word_bytes_injective(rb.spec_samples()[j] as nat, s[j] as nat);
            }
            assert(rb.spec_samples() =~= s);
        }
    }
    Some(rb)
}

} // verus!

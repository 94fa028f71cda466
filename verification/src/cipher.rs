use vstd::prelude::*;

use vstd::arithmetic::div_mod::lemma_mod_self_0;
use vstd::arithmetic::div_mod::lemma_small_mod;
use vstd::wrapping::u32_specs;

verus! {

/// The round-constant of the block transform.
pub const CIPHER_DELTA: u32 = 0x9E3779B9;

/// The fixed application-embedded key, as four 32-bit words. Resource
/// payloads marked encrypted are decrypted with it; it is not user-supplied.
pub const CIPHER_KEY0: u32 = 0x6C62706B;

pub const CIPHER_KEY1: u32 = 0x61726376;

pub const CIPHER_KEY2: u32 = 0x73617665;

pub const CIPHER_KEY3: u32 = 0x6261636B;

pub open spec fn key_at(i: int) -> u32 {
    if i == 0 {
        CIPHER_KEY0
    } else if i == 1 {
        CIPHER_KEY1
    } else if i == 2 {
        CIPHER_KEY2
    } else {
        CIPHER_KEY3
    }
}

/// The word-mixing term: combines the two neighbour words, the round sum
/// and one key word selected by position and round.
pub open spec fn spec_mx(y: u32, z: u32, sum: u32, p: int) -> u32 {
    let e = (sum >> 2) & 3;
    let k = key_at(((((p % 4) as u32) ^ e)) as int);
    (u32_specs::wrapping_add((z >> 5) ^ (y << 2), (y >> 3) ^ (z << 4))) ^ (u32_specs::wrapping_add(
        sum ^ y,
        k ^ z,
    ))
}

/// One word of the block moved forward: word `p` grows by the mixing term
/// of its two neighbours.
pub open spec fn enc_step(v: Seq<u32>, sum: u32, p: int) -> Seq<u32> {
    let n = v.len() as int;
    let y = v[(p + 1) % n];
    let z = v[(p + n - 1) % n];
    v.update(p, u32_specs::wrapping_add(v[p], spec_mx(y, z, sum, p)))
}

/// The first `p` words of the block moved forward, left to right.
pub open spec fn enc_sweep(v: Seq<u32>, sum: u32, p: int) -> Seq<u32>
    decreases p,
{
    if p <= 0 {
        v
    } else {
        enc_step(enc_sweep(v, sum, p - 1), sum, p - 1)
    }
}

/// `q` encryption rounds, each sweeping the whole block once with a fresh
/// round sum.
pub open spec fn enc_rounds(v: Seq<u32>, sum: u32, q: int) -> Seq<u32>
    decreases q,
{
    if q <= 0 {
        v
    } else {
        enc_rounds(
            enc_sweep(v, u32_specs::wrapping_add(sum, CIPHER_DELTA), v.len() as int),
            u32_specs::wrapping_add(sum, CIPHER_DELTA),
            q - 1,
        )
    }
}

/// The whole encrypted block: the round count is derived from the block
/// length.
pub open spec fn spec_encrypt(v: Seq<u32>) -> Seq<u32> {
    enc_rounds(v, 0u32, 6 + 52int / (v.len() as int))
}

/// One word of the block moved back: word `p` shrinks by the same mixing
/// term.
pub open spec fn dec_step(v: Seq<u32>, sum: u32, p: int) -> Seq<u32> {
    let n = v.len() as int;
    let y = v[(p + 1) % n];
    let z = v[(p + n - 1) % n];
    v.update(p, u32_specs::wrapping_sub(v[p], spec_mx(y, z, sum, p)))
}

/// The top `k` words of the block moved back, right to left.
pub open spec fn dec_sweep(v: Seq<u32>, sum: u32, k: int) -> Seq<u32>
    decreases k,
{
    if k <= 0 {
        v
    } else {
        dec_step(dec_sweep(v, sum, k - 1), sum, v.len() - k)
    }
}

/// `q` decryption rounds, unwinding the round sums in reverse.
pub open spec fn dec_rounds(v: Seq<u32>, sum: u32, q: int) -> Seq<u32>
    decreases q,
{
    if q <= 0 {
        v
    } else {
        dec_rounds(
            dec_sweep(v, sum, v.len() as int),
            u32_specs::wrapping_sub(sum, CIPHER_DELTA),
            q - 1,
        )
    }
}

/// The whole decrypted block.
pub open spec fn spec_decrypt(v: Seq<u32>) -> Seq<u32> {
    let q = 6 + 52int / (v.len() as int);
    dec_rounds(v, u32_specs::wrapping_mul(q as u32, CIPHER_DELTA), q)
}

fn key_word(i: u32) -> (k: u32)
    ensures
        k == key_at(i as int),
{
    if i == 0 {
        CIPHER_KEY0
    } else if i == 1 {
        CIPHER_KEY1
    } else if i == 2 {
        CIPHER_KEY2
    } else {
        CIPHER_KEY3
    }
}

fn mx(y: u32, z: u32, sum: u32, p: usize) -> (r: u32)
    ensures
        r == spec_mx(y, z, sum, p as int),
{
    let e: u32 = (sum >> 2) & 3;
    let pm: u32 = (p % 4) as u32;
    let ki: u32 = pm ^ e;
    proof {
        assert(ki == (((p as int) % 4) as u32) ^ e);
    }
    let k = key_word(ki);
    ((z >> 5u32) ^ (y << 2u32)).wrapping_add((y >> 3u32) ^ (z << 4u32)) ^ (sum ^ y).wrapping_add(
        k ^ z,
    )
}

/// Encrypts a block of at least two 32-bit words in place.
pub fn encrypt_words(v: &mut Vec<u32>)
    requires
        old(v)@.len() >= 2,
    ensures
        final(v)@ == spec_encrypt(old(v)@),
        final(v)@.len() == old(v)@.len(),
{
    let ghost w0 = v@;
    let n = v.len();
    let rounds: usize = 6 + 52 / n;
    let mut sum: u32 = 0;
    let mut r: usize = 0;
    proof {
        lemma_rounds_len(w0, 0u32, rounds as int);
    }
    while r < rounds
        invariant
            n == v@.len(),
            n >= 2,
            0 <= r <= rounds,
            spec_encrypt(w0) == enc_rounds(v@, sum, rounds - r),
        decreases rounds - r,
    {
        sum = sum.wrapping_add(CIPHER_DELTA);
        let ghost vr = v@;
        let mut p: usize = 0;
        while p < n
            invariant
                n == v@.len(),
                n >= 2,
                0 <= p <= n,
                v@ == enc_sweep(vr, sum, p as int),
            decreases n - p,
        {
            let y = if p + 1 == n {
                v[0]
            } else {
                v[p + 1]
            };
            let z = if p == 0 {
                v[n - 1]
            } else {
                v[p - 1]
            };
            proof {
                if p + 1 == n {
                    lemma_mod_self_0(n as int);
                } else {
                    lemma_small_mod((p + 1) as nat, n as nat);
                }
                if p == 0 {
                    lemma_small_mod((n - 1) as nat, n as nat);
                } else {
                    vstd::arithmetic::div_mod::lemma_mod_multiples_vanish(1, p - 1, n as int);
                    lemma_small_mod((p - 1) as nat, n as nat);
                }
                assert((p + n - 1) % (n as int) == if p == 0 {
                    n - 1
                } else {
                    p - 1
                });
            }
            let m = mx(y, z, sum, p);
            let vp = v[p];
            v.set(p, vp.wrapping_add(m));
            p = p + 1;
        }
        r = r + 1;
    }
}

/// Decrypts a block of at least two 32-bit words in place: the exact
/// inverse transform of encryption.
pub fn decrypt_words(v: &mut Vec<u32>)
    requires
        old(v)@.len() >= 2,
    ensures
        final(v)@ == spec_decrypt(old(v)@),
        final(v)@.len() == old(v)@.len(),
{
    let ghost w0 = v@;
    let n = v.len();
    let rounds: usize = 6 + 52 / n;
    let mut sum: u32 = (rounds as u32).wrapping_mul(CIPHER_DELTA);
    let mut r: usize = 0;
    proof {
        lemma_dec_rounds_len(w0, sum, rounds as int);
    }
    while r < rounds
        invariant
            n == v@.len(),
            n >= 2,
            0 <= r <= rounds,
            spec_decrypt(w0) == dec_rounds(v@, sum, rounds - r),
        decreases rounds - r,
    {
        let ghost vr = v@;
        let mut k: usize = 0;
        while k < n
            invariant
                n == v@.len(),
                n == vr.len(),
                n >= 2,
                0 <= k <= n,
                v@ == dec_sweep(vr, sum, k as int),
            decreases n - k,
        {
            let p = n - 1 - k;
            let y = if p + 1 == n {
                v[0]
            } else {
                v[p + 1]
            };
            let z = if p == 0 {
                v[n - 1]
            } else {
                v[p - 1]
            };
            proof {
                if p + 1 == n {
                    lemma_mod_self_0(n as int);
                } else {
                    lemma_small_mod((p + 1) as nat, n as nat);
                }
                if p == 0 {
                    lemma_small_mod((n - 1) as nat, n as nat);
                } else {
                    vstd::arithmetic::div_mod::lemma_mod_multiples_vanish(1, p - 1, n as int);
                    lemma_small_mod((p - 1) as nat, n as nat);
                }
                assert((p + n - 1) % (n as int) == if p == 0 {
                    n - 1
                } else {
                    p - 1
                });
                assert(n - (k + 1) == p);
            }
            let m = mx(y, z, sum, p);
            let vp = v[p];
            v.set(p, vp.wrapping_sub(m));
            k = k + 1;
        }
        sum = sum.wrapping_sub(CIPHER_DELTA);
        r = r + 1;
    }
}

proof fn lemma_sweep_len(v: Seq<u32>, sum: u32, p: int)
    requires
        0 <= p <= v.len(),
    ensures
        enc_sweep(v, sum, p).len() == v.len(),
        dec_sweep(v, sum, p).len() == v.len(),
    decreases p,
{
    if p > 0 {
        lemma_sweep_len(v, sum, p - 1);
    }
}

proof fn lemma_rounds_len(v: Seq<u32>, sum: u32, q: int)
    ensures
        enc_rounds(v, sum, q).len() == v.len(),
    decreases q,
{
    if q > 0 {
        lemma_sweep_len(v, u32_specs::wrapping_add(sum, CIPHER_DELTA), v.len() as int);
        lemma_rounds_len(
            enc_sweep(v, u32_specs::wrapping_add(sum, CIPHER_DELTA), v.len() as int),
            u32_specs::wrapping_add(sum, CIPHER_DELTA),
            q - 1,
        );
    }
}

proof fn lemma_dec_rounds_len(v: Seq<u32>, sum: u32, q: int)
    ensures
        dec_rounds(v, sum, q).len() == v.len(),
    decreases q,
{
    if q > 0 {
        lemma_sweep_len(v, sum, v.len() as int);
        lemma_dec_rounds_len(
            dec_sweep(v, sum, v.len() as int),
            u32_specs::wrapping_sub(sum, CIPHER_DELTA),
            q - 1,
        );
    }
}

// ---------------------------------------------------------------------------
// Byte blocks: the payloads arrive as bytes, little-endian words inside.
// ---------------------------------------------------------------------------

/// Little-endian value of four bytes.
pub open spec fn le32(b0: u8, b1: u8, b2: u8, b3: u8) -> u32 {
    (b0 + b1 * 0x100 + b2 * 0x10000 + b3 * 0x1000000) as u32
}

/// Byte `j` (little-endian) of a 32-bit word.
pub open spec fn word_byte(x: u32, j: int) -> u8 {
    if j == 0 {
        (x % 0x100) as u8
    } else if j == 1 {
        ((x / 0x100) % 0x100) as u8
    } else if j == 2 {
        ((x / 0x10000) % 0x100) as u8
    } else {
        (x / 0x1000000) as u8
    }
}

/// The words of a byte block, little-endian.
pub open spec fn le_words(b: Seq<u8>) -> Seq<u32> {
    Seq::new(b.len() / 4, |i: int| le32(b[4 * i], b[4 * i + 1], b[4 * i + 2], b[4 * i + 3]))
}

/// The bytes of a word block, little-endian.
pub open spec fn word_bytes(w: Seq<u32>) -> Seq<u8> {
    Seq::new(w.len() * 4, |i: int| word_byte(w[i / 4], i % 4))
}

fn to_words(data: &Vec<u8>) -> (r: Vec<u32>)
    requires
        data@.len() % 4 == 0,
    ensures
        r@ == le_words(data@),
{
    let dn = data.len();
    let n = dn / 4;
    let mut r: Vec<u32> = Vec::new();
    let mut i: usize = 0;
    while i < n
        invariant
            dn == data@.len(),
            n == data@.len() / 4,
            data@.len() % 4 == 0,
            0 <= i <= n,
            r@.len() == i,
            forall|k: int| 0 <= k < i ==> r@[k] == le_words(data@)[k],
        decreases n - i,
    {
        proof {
            assert(4 * i + 3 < data@.len()) by (nonlinear_arith)
                requires
                    i < n,
                    n == data@.len() / 4,
                    data@.len() % 4 == 0,
            ;
        }
        let b0 = data[4 * i];
        let b1 = data[4 * i + 1];
        let b2 = data[4 * i + 2];
        let b3 = data[4 * i + 3];
        proof {
            assert(b0 as u32 + b1 as u32 * 0x100 + b2 as u32 * 0x10000 + b3 as u32 * 0x1000000
                == (b0 + b1 * 0x100 + b2 * 0x10000 + b3 * 0x1000000) as u32) by (bit_vector);
        }
        r.push((b0 as u32) + (b1 as u32) * 0x100 + (b2 as u32) * 0x10000 + (b3 as u32) * 0x1000000);
        i = i + 1;
    }
    proof {
        assert(r@ =~= le_words(data@));
    }
    r
}

fn to_bytes(w: &Vec<u32>) -> (r: Vec<u8>)
    ensures
        r@ == word_bytes(w@),
{
    let n = w.len();
    let mut r: Vec<u8> = Vec::new();
    let mut i: usize = 0;
    while i < n
        invariant
            n == w@.len(),
            0 <= i <= n,
            r@.len() == 4 * i,
            forall|k: int| 0 <= k < 4 * i ==> r@[k] == word_bytes(w@)[k],
        decreases n - i,
    {
        let x = w[i];
        proof {
            assert((x & 0xFF) as u8 == (x % 0x100) as u8 && ((x >> 8) & 0xFF) as u8 == ((x
                / 0x100) % 0x100) as u8 && ((x >> 16) & 0xFF) as u8 == ((x / 0x10000)
                % 0x100) as u8 && (x >> 24) as u8 == (x / 0x1000000) as u8) by (bit_vector);
        }
        r.push((x & 0xFF) as u8);
        r.push(((x >> 8) & 0xFF) as u8);
        r.push(((x >> 16) & 0xFF) as u8);
        r.push((x >> 24) as u8);
        proof {
            assert(forall|k: int|
                0 <= k < 4 * (i + 1) ==> r@[k] == #[trigger] word_bytes(w@)[k]) by {
                assert(forall|k: int|
                    4 * i <= k < 4 * (i + 1) ==> (#[trigger] word_bytes(w@)[k]) == word_byte(
                        w@[i as int],
                        k % 4,
                    ) && k / 4 == i) by {
                    assert forall|k: int| 4 * i <= k < 4 * (i + 1) implies k / 4 == i && (
                    #[trigger] word_bytes(w@)[k]) == word_byte(w@[k / 4], k % 4) by {
                        assert(k / 4 == i && 0 <= k % 4 < 4) by (nonlinear_arith)
                            requires
                                4 * i <= k < 4 * (i + 1),
                                i >= 0,
                        ;
                    }
                }
            }
        }
        i = i + 1;
    }
    proof {
        assert(r@ =~= word_bytes(w@));
    }
    r
}

/// Decrypts a block-aligned byte payload with the fixed application key.
pub fn decrypt(data: &Vec<u8>) -> (r: Vec<u8>)
    requires
        data@.len() % 4 == 0,
        data@.len() >= 8,
    ensures
        r@ == word_bytes(spec_decrypt(le_words(data@))),
{
    let mut w = to_words(data);
    decrypt_words(&mut w);
    to_bytes(&w)
}

/// Encrypts a block-aligned byte payload with the fixed application key:
/// the symmetric inverse of decryption.
pub fn encrypt(data: &Vec<u8>) -> (r: Vec<u8>)
    requires
        data@.len() % 4 == 0,
        data@.len() >= 8,
    ensures
        r@ == word_bytes(spec_encrypt(le_words(data@))),
{
    let mut w = to_words(data);
    encrypt_words(&mut w);
    to_bytes(&w)
}

// ---------------------------------------------------------------------------
// The inverse law: decrypting then re-encrypting returns the block.
// ---------------------------------------------------------------------------

/// The round sum after `q` rounds of growth.
pub open spec fn sum_after(sum: u32, q: int) -> u32
    decreases q,
{
    if q <= 0 {
        sum
    } else {
        u32_specs::wrapping_add(sum_after(sum, q - 1), CIPHER_DELTA)
    }
}

/// The round sum after `q` rounds of shrinking.
pub open spec fn sum_before(sum: u32, q: int) -> u32
    decreases q,
{
    if q <= 0 {
        sum
    } else {
        u32_specs::wrapping_sub(sum_before(sum, q - 1), CIPHER_DELTA)
    }
}

proof fn lemma_sum_before_shift(sum: u32, j: int)
    requires
        j >= 0,
    ensures
        sum_before(u32_specs::wrapping_sub(sum, CIPHER_DELTA), j) == sum_before(sum, j + 1),
    decreases j,
{
    assert(sum_before(sum, 0) == sum);
    if j > 0 {
        lemma_sum_before_shift(sum, j - 1);
    }
}

proof fn lemma_sum_before_after(sum: u32, q: int, j: int)
    requires
        0 <= j <= q,
    ensures
        sum_before(sum_after(sum, q), j) == sum_after(sum, q - j),
    decreases j,
{
    if j > 0 {
        lemma_sum_before_after(sum, q, j - 1);
    }
}

proof fn lemma_neighbors(n: int, p: int)
    requires
        n >= 2,
        0 <= p < n,
    ensures
        (p + 1) % n == if p + 1 == n {
            0int
        } else {
            p + 1
        },
        (p + n - 1) % n == if p == 0 {
            n - 1
        } else {
            p - 1
        },
        (p + 1) % n != p,
        (p + n - 1) % n != p,
        0 <= (p + 1) % n < n,
        0 <= (p + n - 1) % n < n,
{
    if p + 1 == n {
        lemma_mod_self_0(n);
    } else {
        lemma_small_mod((p + 1) as nat, n as nat);
    }
    if p == 0 {
        lemma_small_mod((n - 1) as nat, n as nat);
    } else {
        vstd::arithmetic::div_mod::lemma_mod_multiples_vanish(1, p - 1, n);
        lemma_small_mod((p - 1) as nat, n as nat);
    }
}

/// Moving word `p` forward undoes moving it back: the mixing term reads
/// only the two neighbour words, which the update leaves alone.
proof fn lemma_step_inverse(v: Seq<u32>, sum: u32, p: int)
    requires
        v.len() >= 2,
        0 <= p < v.len(),
    ensures
        enc_step(dec_step(v, sum, p), sum, p) == v,
{
    let n = v.len() as int;
    lemma_neighbors(n, p);
    let w = dec_step(v, sum, p);
    assert(w[(p + 1) % n] == v[(p + 1) % n]);
    assert(w[(p + n - 1) % n] == v[(p + n - 1) % n]);
    assert(enc_step(w, sum, p) =~= v);
}

/// Sweeping the first `k` words forward undoes what the backward sweep
/// did to them.
proof fn lemma_sweep_inverse(v: Seq<u32>, sum: u32, k: int)
    requires
        v.len() >= 2,
        0 <= k <= v.len(),
    ensures
        enc_sweep(dec_sweep(v, sum, v.len() as int), sum, k) == dec_sweep(v, sum, v.len() - k),
    decreases k,
{
    let n = v.len() as int;
    lemma_sweep_len(v, sum, n);
    if k > 0 {
        lemma_sweep_inverse(v, sum, k - 1);
        lemma_sweep_len(v, sum, n - k);
        lemma_step_inverse(dec_sweep(v, sum, n - k), sum, k - 1);
        assert(dec_sweep(v, sum, n - (k - 1)) == dec_step(dec_sweep(v, sum, n - k), sum, k - 1));
    }
}

/// The backward rounds peeled from the other end: the sweep applied last
/// is the one with the smallest round sum.
proof fn lemma_dec_rounds_peel(v: Seq<u32>, sum: u32, q: int)
    requires
        q >= 1,
    ensures
        dec_rounds(v, sum, q) == dec_sweep(
            dec_rounds(v, sum, q - 1),
            sum_before(sum, q - 1),
            dec_rounds(v, sum, q - 1).len() as int,
        ),
    decreases q,
{
    let v1 = dec_sweep(v, sum, v.len() as int);
    lemma_sweep_len(v, sum, v.len() as int);
    if q == 1 {
        assert(dec_rounds(v, sum, 1) == dec_rounds(v1, u32_specs::wrapping_sub(sum, CIPHER_DELTA), 0));
        assert(dec_rounds(v, sum, 0) == v);
    } else {
        lemma_dec_rounds_peel(v1, u32_specs::wrapping_sub(sum, CIPHER_DELTA), q - 1);
        lemma_sum_before_shift(sum, q - 2);
        assert(dec_rounds(v, sum, q) == dec_rounds(v1, u32_specs::wrapping_sub(sum, CIPHER_DELTA), q - 1));
        assert(dec_rounds(v, sum, q - 1) == dec_rounds(v1, u32_specs::wrapping_sub(sum, CIPHER_DELTA), q - 2));
    }
}

proof fn lemma_sum_after_shift(sum: u32, j: int)
    requires
        j >= 0,
    ensures
        sum_after(u32_specs::wrapping_add(sum, CIPHER_DELTA), j) == sum_after(sum, j + 1),
    decreases j,
{
    assert(sum_after(sum, 0) == sum);
    if j > 0 {
        lemma_sum_after_shift(sum, j - 1);
    }
}

/// Running the forward rounds after the backward rounds, from the matching
/// starting sums, gives the block back.
proof fn lemma_rounds_inverse(v: Seq<u32>, sum: u32, q: int)
    requires
        v.len() >= 2,
        q >= 0,
    ensures
        enc_rounds(dec_rounds(v, sum_after(sum, q), q), sum, q) == v,
    decreases q,
{
    if q > 0 {
        let n = v.len() as int;
        let s_top = sum_after(sum, q);
        let s1 = u32_specs::wrapping_add(sum, CIPHER_DELTA);
        let w = dec_rounds(v, s_top, q);
        let w1 = dec_rounds(v, s_top, q - 1);
        lemma_dec_rounds_len(v, s_top, q - 1);
        lemma_dec_rounds_len(v, s_top, q);
        lemma_dec_rounds_peel(v, s_top, q);
        lemma_sum_before_after(sum, q, q - 1);
        assert(sum_after(sum, 0) == sum);
        assert(sum_after(sum, 1) == s1);
        assert(w == dec_sweep(w1, s1, w1.len() as int));
        lemma_sweep_inverse(w1, s1, n);
        assert(dec_sweep(w1, s1, 0) == w1);
        assert(enc_sweep(w, s1, n) == w1);
        lemma_sum_after_shift(sum, q - 1);
        lemma_rounds_inverse(v, s1, q - 1);
        assert(enc_rounds(w, sum, q) == enc_rounds(enc_sweep(w, s1, w.len() as int), s1, q - 1));
    }
}

/// `q` additions of the round constant are its `q`-fold multiple, wrapped.
proof fn lemma_sum_after_is_mul(q: int)
    requires
        0 <= q <= 32,
    ensures
        sum_after(0u32, q) == (q as u32).wrapping_mul(CIPHER_DELTA),
    decreases q,
{
    let m = 0x100000000int;
    let d = CIPHER_DELTA as int;
    if q > 0 {
        lemma_sum_after_is_mul(q - 1);
        let a = (q - 1) * d;
        let prev = sum_after(0u32, q - 1);
        vstd::arithmetic::div_mod::lemma_mod_bound(a, m);
        assert(prev == ((q - 1) as u32).wrapping_mul(CIPHER_DELTA));
        assert(prev as int == a % m);
        vstd::arithmetic::div_mod::lemma_add_mod_noop(a, d, m);
        lemma_small_mod(d as nat, m as nat);
        assert((a % m + d % m) % m == (a + d) % m);
        if prev + CIPHER_DELTA > u32::MAX {
            vstd::arithmetic::div_mod::lemma_mod_multiples_vanish(1, a % m + d - m, m);
            lemma_small_mod((a % m + d - m) as nat, m as nat);
            assert((a % m + d) % m == a % m + d - m);
        } else {
            lemma_small_mod((a % m + d) as nat, m as nat);
        }
        assert((q - 1) * d + d == q * d) by (nonlinear_arith);
        assert(sum_after(0u32, q) as int == (q * d) % m);
        assert((q as u32).wrapping_mul(CIPHER_DELTA) as int == (q * d) % m);
    }
}

/// Decrypting then re-encrypting a block of at least two words gives the
/// block back: the two transforms are mutual inverses.
pub proof fn lemma_encrypt_decrypt(v: Seq<u32>)
    requires
        v.len() >= 2,
    ensures
        spec_encrypt(spec_decrypt(v)) == v,
{
    let q = 6 + 52int / (v.len() as int);
    vstd::arithmetic::div_mod::lemma_div_pos_is_pos(52, v.len() as int);
    vstd::arithmetic::div_mod::lemma_div_is_ordered_by_denominator(52, 2, v.len() as int);
    lemma_sum_after_is_mul(q);
    lemma_dec_rounds_len(v, u32_specs::wrapping_mul(q as u32, CIPHER_DELTA), q);
    lemma_rounds_inverse(v, 0u32, q);
}

proof fn lemma_le32_of_word(x: u32)
    ensures
        le32(word_byte(x, 0), word_byte(x, 1), word_byte(x, 2), word_byte(x, 3)) == x,
{
    assert(((x % 0x100) as u8 + ((x / 0x100) % 0x100) as u8 * 0x100 + ((x / 0x10000)
        % 0x100) as u8 * 0x10000 + (x / 0x1000000) as u8 * 0x1000000) as u32 == x) by (bit_vector);
}

proof fn lemma_word_byte_of_le32(b0: u8, b1: u8, b2: u8, b3: u8)
    ensures
        word_byte(le32(b0, b1, b2, b3), 0) == b0,
        word_byte(le32(b0, b1, b2, b3), 1) == b1,
        word_byte(le32(b0, b1, b2, b3), 2) == b2,
        word_byte(le32(b0, b1, b2, b3), 3) == b3,
{
    assert((((b0 + b1 * 0x100 + b2 * 0x10000 + b3 * 0x1000000) as u32) % 0x100) as u8 == b0
        && ((((b0 + b1 * 0x100 + b2 * 0x10000 + b3 * 0x1000000) as u32) / 0x100) % 0x100) as u8
        == b1 && ((((b0 + b1 * 0x100 + b2 * 0x10000 + b3 * 0x1000000) as u32) / 0x10000)
        % 0x100) as u8 == b2 && (((b0 + b1 * 0x100 + b2 * 0x10000 + b3 * 0x1000000) as u32)
        / 0x1000000) as u8 == b3) by (bit_vector);
}

/// Reading the words of a word block's bytes gives the words back.
proof fn lemma_words_of_bytes(w: Seq<u32>)
    ensures
        le_words(word_bytes(w)) == w,
{
    let b = word_bytes(w);
    assert(w.len() * 4 / 4 == w.len() && (w.len() * 4) % 4 == 0) by (nonlinear_arith);
    assert forall|i: int| 0 <= i < w.len() implies le_words(b)[i] == w[i] by {
        assert(4 * i / 4 == i && 4 * i % 4 == 0) by (nonlinear_arith);
        assert((4 * i + 1) / 4 == i && (4 * i + 1) % 4 == 1) by (nonlinear_arith);
        assert((4 * i + 2) / 4 == i && (4 * i + 2) % 4 == 2) by (nonlinear_arith);
        assert((4 * i + 3) / 4 == i && (4 * i + 3) % 4 == 3) by (nonlinear_arith);
        assert(b[4 * i] == word_byte(w[i], 0));
        assert(b[4 * i + 1] == word_byte(w[i], 1));
        assert(b[4 * i + 2] == word_byte(w[i], 2));
        assert(b[4 * i + 3] == word_byte(w[i], 3));
        lemma_le32_of_word(w[i]);
    }
    assert(le_words(b) =~= w);
}

/// Writing back the words read from a block-aligned byte string gives the
/// bytes back.
proof fn lemma_bytes_of_words(b: Seq<u8>)
    requires
        b.len() % 4 == 0,
    ensures
        word_bytes(le_words(b)) == b,
{
    let w = le_words(b);
    assert(b.len() / 4 * 4 == b.len()) by (nonlinear_arith)
        requires
            b.len() % 4 == 0,
    ;
    assert forall|i: int| 0 <= i < b.len() implies word_bytes(w)[i] == b[i] by {
        let p = i / 4;
        let j = i % 4;
        vstd::arithmetic::div_mod::lemma_fundamental_div_mod(i, 4);
        assert(0 <= j < 4 && 0 <= p < w.len()) by (nonlinear_arith)
            requires
                i == 4 * p + j,
                0 <= i < b.len(),
                j == i % 4,
                p == i / 4,
                w.len() == b.len() / 4,
                b.len() / 4 * 4 == b.len(),
        ;
        assert(w[p] == le32(b[4 * p], b[4 * p + 1], b[4 * p + 2], b[4 * p + 3]));
        lemma_word_byte_of_le32(b[4 * p], b[4 * p + 1], b[4 * p + 2], b[4 * p + 3]);
        assert(word_bytes(w)[i] == word_byte(w[p], j));
    }
    assert(word_bytes(w) =~= b);
}

/// Decrypting then re-encrypting an arbitrary byte payload of valid
/// block-aligned length returns the original bytes: the inverse law of
/// the cipher, stated over the byte interface.
pub proof fn lemma_decrypt_then_encrypt(data: Seq<u8>)
    requires
        data.len() % 4 == 0,
        data.len() >= 8,
    ensures
        word_bytes(spec_encrypt(le_words(word_bytes(spec_decrypt(le_words(data)))))) == data,
{
    let w = le_words(data);
    vstd::arithmetic::div_mod::lemma_div_is_ordered(8, data.len() as int, 4);
    assert(w.len() >= 2);
    let dw = spec_decrypt(w);
    lemma_words_of_bytes(dw);
    lemma_encrypt_decrypt(w);
    lemma_bytes_of_words(data);
}

} // verus!